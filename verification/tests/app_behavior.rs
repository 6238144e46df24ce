use ascii_cam::app::{
    camera_picker_lines, initial_selection, on_off, parse_camera_index, picker_step,
    playback_delay, playback_frame_view, recording_file_name, recording_frame_action,
    screenshot_file_names, should_forward_key_event, Key, KeyAction, KeyEventKind, LiveState,
    PickerStep, Preset, RampChoice, RecordingFrameAction,
};
use ascii_cam::capture::CameraDevice;
use ascii_cam::color::ColorMode;
use ascii_cam::render::RenderedFrame;
use ascii_cam::ui::visible_width;

#[test]
fn recording_stops_instead_of_exiting_when_frame_dimensions_change() {
    assert_eq!(
        recording_frame_action(Some((80, 24)), (24, 80)),
        RecordingFrameAction::Stop
    );
}

#[test]
fn recording_continues_when_frame_dimensions_match() {
    assert_eq!(
        recording_frame_action(Some((80, 24)), (80, 24)),
        RecordingFrameAction::Write
    );
}

#[test]
fn playback_view_clips_recordings_to_current_terminal_size() {
    let frame = RenderedFrame::new(5, 1, vec!["abcde".to_string()], None).unwrap();
    let view = playback_frame_view(&frame, 3, 1);

    assert_eq!(view, "abc\x1b[0m\x1b[K");
    assert_eq!(view.lines().count(), 1);
    assert_eq!(visible_width(&view), 3);
}

#[test]
fn playback_view_does_not_center_or_add_top_spacing() {
    let frame = RenderedFrame::new(2, 1, vec!["ab".to_string()], None).unwrap();
    let view = playback_frame_view(&frame, 6, 3);
    let lines: Vec<&str> = view.lines().collect();

    assert_eq!(lines[0], "ab    \x1b[K");
    assert_eq!(lines[1], "      \x1b[K");
    assert_eq!(lines[2], "      \x1b[K");
}

#[test]
fn camera_picker_lists_all_devices_with_their_index_chips_and_names() {
    let devices = vec![
        CameraDevice {
            index: 0,
            name: "FaceTime HD Camera".to_string(),
        },
        CameraDevice {
            index: 2,
            name: "iPhone Camera".to_string(),
        },
    ];

    let joined = camera_picker_lines(&devices, 0).join("\n");

    assert!(joined.contains("ASCII-CAM"));
    assert!(joined.contains("Select a camera"));
    assert!(joined.contains("FaceTime HD Camera"));
    assert!(joined.contains("iPhone Camera"));
    assert!(joined.contains("\u{1b}[48;2;191;197;255m"));
    assert!(joined.contains(" 0 "));
    assert!(joined.contains(" 2 "));
}

#[test]
fn camera_picker_highlights_only_the_selected_row() {
    let devices = vec![
        CameraDevice {
            index: 0,
            name: "Cam A".to_string(),
        },
        CameraDevice {
            index: 1,
            name: "Cam B".to_string(),
        },
        CameraDevice {
            index: 2,
            name: "Cam C".to_string(),
        },
    ];

    let lines = camera_picker_lines(&devices, 1);
    let selection_bg = "\u{1b}[48;2;60;55;85m";
    let highlighted: Vec<&String> = lines
        .iter()
        .filter(|line| line.contains(selection_bg))
        .collect();

    assert_eq!(highlighted.len(), 1);
    assert!(highlighted[0].contains("Cam B"));
    assert!(highlighted[0].contains("\u{25b6}"));
    assert!(!highlighted[0].contains("Cam A"));
}

#[test]
fn camera_picker_rows_share_one_width_and_start_with_the_title() {
    let devices = vec![
        CameraDevice {
            index: 7,
            name: "A".to_string(),
        },
        CameraDevice {
            index: 12,
            name: "A much longer camera name here".to_string(),
        },
    ];
    let lines = camera_picker_lines(&devices, 0);
    assert_eq!(lines.len(), 8);
    assert_eq!(lines[0], "\x1b[1;38;2;156;224;236mASCII-CAM\x1b[0m");
    assert_eq!(lines[1], "");
    assert_eq!(lines[2], "\x1b[38;2;200;200;220mSelect a camera\x1b[0m");
    // 10 columns of decoration around the longest name.
    assert_eq!(visible_width(&lines[4]), 40);
    assert_eq!(visible_width(&lines[5]), 40);
    assert!(lines[4].contains("\x1b[38;2;35;31;48m  7 \x1b[0m"));
    assert!(lines[5].contains("\x1b[38;2;35;31;48m 12 \x1b[0m"));
    assert_eq!(lines[6], "");
    assert!(lines[7].contains("cancel"));
}

#[test]
fn picker_keys_move_within_the_list_choose_and_cancel() {
    let devices = vec![
        CameraDevice { index: 4, name: "a".to_string() },
        CameraDevice { index: 9, name: "b".to_string() },
        CameraDevice { index: 6, name: "c".to_string() },
    ];
    assert_eq!(initial_selection(&devices, 9), 1);
    assert_eq!(initial_selection(&devices, 5), 0);
    assert_eq!(picker_step(&devices, 0, Key::Up), PickerStep::Moved(0));
    assert_eq!(picker_step(&devices, 0, Key::Char('j')), PickerStep::Moved(1));
    assert_eq!(picker_step(&devices, 2, Key::Down), PickerStep::Moved(2));
    assert_eq!(picker_step(&devices, 1, Key::End), PickerStep::Moved(2));
    assert_eq!(picker_step(&devices, 2, Key::Home), PickerStep::Moved(0));
    assert_eq!(picker_step(&devices, 2, Key::Enter), PickerStep::Selected(6));
    assert_eq!(picker_step(&devices, 1, Key::Char(' ')), PickerStep::Selected(9));
    assert_eq!(picker_step(&devices, 1, Key::Char('q')), PickerStep::Cancelled);
    assert_eq!(picker_step(&devices, 1, Key::Char('x')), PickerStep::Moved(1));
}

#[test]
fn keys_change_the_live_settings() {
    let mut s = LiveState::new(ColorMode::TrueColor, 98, false, 7);
    assert_eq!(s.rotation, 3);
    assert_eq!(s.handle_key(Key::Char('2')), KeyAction::Nothing);
    assert_eq!(s.rotation, 0);
    s.handle_key(Key::Right);
    assert_eq!(s.brightness, 100);
    s.handle_key(Key::Char('1'));
    assert!(s.invert);
    assert_eq!(s.handle_key(Key::Up), KeyAction::ContrastUp);
    assert_eq!(s.handle_key(Key::Down), KeyAction::ContrastDown);
    assert_eq!(s.handle_key(Key::Char('3')), KeyAction::ToggleRecording);
    assert_eq!(s.handle_key(Key::Char('4')), KeyAction::CaptureScreenshots);
    s.handle_key(Key::Char('5'));
    assert_eq!(s.preset, Preset::Max);
    assert_eq!(s.color_mode, ColorMode::Ansi256);
    assert!(s.recording_options.compress && s.recording_options.skip_identical);
    s.handle_key(Key::Char('c'));
    assert!(s.open_picker);
    assert_eq!(s.handle_key(Key::Char('q')), KeyAction::Quit);
}

#[test]
fn overlays_take_the_keys_while_shown() {
    let mut s = LiveState::new(ColorMode::TrueColor, 0, false, 0);
    s.handle_key(Key::Char('h'));
    assert!(s.show_help);
    assert_eq!(s.handle_key(Key::Char('1')), KeyAction::Nothing);
    assert!(!s.invert);
    assert_eq!(s.handle_key(Key::Char('q')), KeyAction::Nothing);
    assert!(!s.show_help);

    s.handle_key(Key::Char('s'));
    assert!(s.show_settings);
    s.handle_key(Key::Char('1'));
    assert_eq!(s.color_mode, ColorMode::Ansi256);
    s.handle_key(Key::Char('2'));
    assert!(!s.recording_options.compress);
    s.handle_key(Key::Char('3'));
    assert!(!s.recording_options.skip_identical);
    s.handle_key(Key::Char('4'));
    assert_eq!(s.preset, Preset::Max);
    s.handle_key(Key::Esc);
    assert!(!s.show_settings);
}

#[test]
fn brightness_steps_stay_within_bounds() {
    let mut s = LiveState::new(ColorMode::Off, -97, false, 0);
    s.handle_key(Key::Left);
    assert_eq!(s.brightness, -100);
    s.handle_key(Key::Left);
    assert_eq!(s.brightness, -100);
    s.handle_key(Key::Right);
    assert_eq!(s.brightness, -95);
}

#[test]
fn four_quarter_turns_and_two_inversions_return() {
    let mut s = LiveState::new(ColorMode::Gray, 10, true, 2);
    let start = s;
    for _ in 0..4 {
        s.handle_key(Key::Char('2'));
    }
    s.handle_key(Key::Char('1'));
    s.handle_key(Key::Char('1'));
    assert_eq!(s, start);
}

#[test]
fn presets_cycle_through_eight_with_their_labels() {
    let mut p = Preset::Raw;
    let mut labels = Vec::new();
    for _ in 0..8 {
        labels.push(p.label());
        p = p.next();
    }
    assert_eq!(p, Preset::Raw);
    assert_eq!(
        labels,
        vec!["Raw", "Max", "Gray", "Ascii", "Green", "GreenGrad", "Red", "RedGrad"]
    );
}

#[test]
fn overlays_pad_each_line_to_the_width() {
    let s = LiveState::new(ColorMode::Ansi16, 0, false, 0);
    let settings = s.settings_overlay(30);
    let lines: Vec<&str> = settings.lines().collect();
    assert_eq!(lines.len(), 8);
    assert!(lines[2].starts_with("1 color mode: 16c"));
    assert!(lines[3].starts_with("2 compression: on"));
    assert!(lines[5].starts_with("4 preset: Raw"));
    for line in &lines {
        assert_eq!(visible_width(line), 30);
    }
    let help = s.help_overlay(20);
    assert_eq!(help.lines().count(), 12);
    assert!(help.starts_with("ASCII-CAM HELP      \x1b[K"));
    let bar = s.shortcut_line(200);
    assert_eq!(visible_width(&bar), 200);
    assert!(bar.contains(" quit"));
}

#[test]
fn ramp_choice_parses_its_two_names() {
    assert_eq!(RampChoice::parse("long"), Ok(RampChoice::Long));
    assert_eq!(RampChoice::parse("short"), Ok(RampChoice::Short));
    assert_eq!(
        RampChoice::parse("medium"),
        Err("expected long or short, got medium".to_string())
    );
    assert_eq!(RampChoice::Short.ramp(), " .:-=+*#%@");
    assert_eq!(RampChoice::Long.name(), "long");
    assert_eq!("short".parse::<RampChoice>(), Ok(RampChoice::Short));
}

#[test]
fn small_values_read_and_show() {
    assert_eq!(on_off(true), "on");
    assert_eq!(on_off(false), "off");
    assert_eq!(parse_camera_index(" 3\n"), Some(3));
    assert_eq!(parse_camera_index("x"), None);
    assert_eq!(parse_camera_index("4294967296"), None);
}

#[test]
fn key_reader_ignores_release_events() {
    let release = KeyEventKind::Release;

    assert!(!should_forward_key_event(release));
    assert!(should_forward_key_event(KeyEventKind::Press));
    assert!(should_forward_key_event(KeyEventKind::Repeat));
}

#[test]
fn file_names_and_playback_pacing() {
    assert_eq!(recording_file_name(None, 1700000000), "recording-1700000000.ascicam");
    assert_eq!(recording_file_name(Some("mine.ascicam".to_string()), 5), "mine.ascicam");
    assert_eq!(
        screenshot_file_names(42),
        ("screenshot-42.html".to_string(), "snapshot-42.ascicam".to_string())
    );
    assert_eq!(playback_delay(133, 100), 33);
    assert_eq!(playback_delay(100, 133), 0);
    assert_eq!(playback_delay(5000, 0), 1000);
}

#[test]
fn colour_switch_and_camera_choice() {
    assert_eq!(ascii_cam::app::chosen_color_mode(true, ColorMode::Gray), ColorMode::Off);
    assert_eq!(ascii_cam::app::chosen_color_mode(false, ColorMode::Gray), ColorMode::Gray);
    assert_eq!(ascii_cam::app::chosen_camera(Some(2), Some(5)), 2);
    assert_eq!(ascii_cam::app::chosen_camera(None, Some(5)), 5);
    assert_eq!(ascii_cam::app::chosen_camera(None, None), 0);
}
