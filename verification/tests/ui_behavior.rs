use ascii_cam::ui::{
    center_ansi_line, center_block, pad_ansi_line, shortcut_bar, truncate_ansi, visible_width,
    Shortcut,
};

#[test]
fn shortcut_bar_renders_colored_keycaps_with_plain_labels() {
    let bar = shortcut_bar(&[
        Shortcut::new("v", "variant"),
        Shortcut::new("p", "pkg filter"),
    ]);

    assert!(bar.contains("\u{1b}[48;2;191;197;255m"));
    assert!(bar.contains("\u{1b}[38;2;35;31;48m v \u{1b}[0m"));
    assert!(bar.contains(" variant"));
    assert!(bar.contains(" pkg filter"));
    assert_eq!(visible_width(&bar), 27);
}

#[test]
fn ansi_padding_counts_visible_cells_instead_of_escape_bytes() {
    let bar = shortcut_bar(&[Shortcut::new("q", "quit")]);
    let padded = pad_ansi_line(&bar, 20);

    assert_eq!(visible_width(&padded), 20);
    assert!(padded.ends_with("\u{1b}[K"));
}

#[test]
fn shortcut_bar_is_exactly_its_segments() {
    let bar = shortcut_bar(&[Shortcut::new("a", "b"), Shortcut::new("c", "d")]);
    assert_eq!(
        bar,
        "\x1b[48;2;191;197;255m\x1b[38;2;35;31;48m a \x1b[0m b  \x1b[48;2;255;237;181m\x1b[38;2;35;31;48m c \x1b[0m d"
    );
    assert_eq!(shortcut_bar(&[]), "");
}

#[test]
fn keycap_colours_repeat_after_eight() {
    let keys: Vec<Shortcut> = (0..9).map(|_| Shortcut::new("k", "l")).collect();
    let bar = shortcut_bar(&keys);
    assert_eq!(bar.matches("\x1b[48;2;191;197;255m").count(), 2);
    assert_eq!(visible_width(&bar), 9 * 5 + 8 * 2);
}

#[test]
fn truncation_keeps_escapes_and_resets_at_the_cut() {
    assert_eq!(truncate_ansi("\x1b[31mabc", 2), "\x1b[31mab\x1b[0m");
    assert_eq!(truncate_ansi("ab", 5), "ab");
    assert_eq!(truncate_ansi("ab", 2), "ab\x1b[0m");
    assert_eq!(pad_ansi_line("ab", 4), "ab  \x1b[K");
    assert_eq!(visible_width("\x1b[1;2mxy\x1b[0m"), 2);
    assert_eq!(visible_width("\x1b[12"), 0);
}

#[test]
fn centred_lines_and_blocks_fill_the_width() {
    assert_eq!(center_ansi_line("ab", 6), "  ab  \x1b[K");
    assert_eq!(center_ansi_line("abc", 6), " abc  \x1b[K");
    assert_eq!(visible_width(&center_ansi_line("\x1b[31mred\x1b[0m", 11)), 11);
    let block = center_block("ab\ncd", 4, 4);
    let rows: Vec<&str> = block.split("\r\n").collect();
    assert_eq!(rows, vec!["    \x1b[K", " ab \x1b[K", " cd \x1b[K", "    \x1b[K"]);
    assert_eq!(center_block("a\nb\nc", 1, 2), "a\x1b[0m\x1b[K\r\nb\x1b[0m\x1b[K");
}

#[test]
fn visible_width_adds_plain_text_and_skips_control_sequences() {
    assert_eq!(visible_width("héllo"), 5);
    assert_eq!(visible_width(&format!("ab{}", "\x1b[1mcd")), 2 + visible_width("\x1b[1mcd"));
    assert_eq!(visible_width("\x1b[38;5;12mxyz"), visible_width("xyz"));
}
