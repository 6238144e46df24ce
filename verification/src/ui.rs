//! Terminal UI strings: keycap shortcut bars and lines padded, truncated or
//! centred by their visible width, where ANSI control sequences
//! (`ESC [` ... up to an ASCII letter) take no room.

use vstd::prelude::*;
use vstd::string::*;

use crate::text::{chars_of, decimal, lines, push_char, push_decimal, split_lines, string_from_chars, views};

verus! {

/// The escape character.
pub open spec fn esc() -> char {
    '\x1b'
}

/// An ASCII letter, which ends a control sequence.
pub open spec fn is_ascii_letter(c: char) -> bool {
    (65 <= (c as u32) <= 90) || (97 <= (c as u32) <= 122)
}

/// `s` starts a control sequence: `ESC [`.
pub open spec fn starts_csi(s: Seq<char>) -> bool {
    s.len() > 1 && s[0] == esc() && s[1] == '['
}

/// How many characters a control sequence body takes: up to and including the
/// first ASCII letter, or all of `s` when there is none.
pub open spec fn csi_len(s: Seq<char>) -> nat
    decreases s.len(),
{
    if s.len() == 0 {
        0
    } else if is_ascii_letter(s[0]) {
        1
    } else {
        1 + csi_len(s.drop_first())
    }
}

/// `s` holds an ASCII letter.
pub open spec fn has_letter(s: Seq<char>) -> bool {
    exists|i: int| 0 <= i < s.len() && is_ascii_letter(#[trigger] s[i])
}

pub proof fn lemma_csi_len(s: Seq<char>)
    ensures
        csi_len(s) <= s.len(),
        has_letter(s) ==> is_ascii_letter(s[csi_len(s) - 1]) && csi_len(s) >= 1,
        !has_letter(s) ==> csi_len(s) == s.len(),
    decreases s.len(),
{
    if s.len() > 0 && !is_ascii_letter(s[0]) {
        lemma_csi_len(s.drop_first());
        if has_letter(s) {
            let i = choose|i: int| 0 <= i < s.len() && is_ascii_letter(#[trigger] s[i]);
            assert(s.drop_first()[i - 1] == s[i]);
        }
        if has_letter(s.drop_first()) {
            let i = choose|i: int| 0 <= i < s.drop_first().len() && is_ascii_letter(#[trigger] s.drop_first()[i]);
            assert(s[i + 1] == s.drop_first()[i]);
            assert(s[csi_len(s) - 1] == s.drop_first()[csi_len(s.drop_first()) - 1]);
        }
    } else if s.len() > 0 {
        assert(has_letter(s));
    }
}

/// The number of characters of `s` that take room on the terminal.
pub open spec fn visible_count(s: Seq<char>) -> nat
    decreases s.len(),
{
    if s.len() == 0 {
        0
    } else if starts_csi(s) {
        proof {
            lemma_csi_len(s.skip(2));
        }
        visible_count(s.skip(2 + csi_len(s.skip(2)) as int))
    } else {
        1 + visible_count(s.drop_first())
    }
}

/// Every control sequence in `s` ends with a letter.
pub open spec fn csi_closed(s: Seq<char>) -> bool
    decreases s.len(),
{
    if s.len() == 0 {
        true
    } else if starts_csi(s) {
        proof {
            lemma_csi_len(s.skip(2));
        }
        has_letter(s.skip(2)) && csi_closed(s.skip(2 + csi_len(s.skip(2)) as int))
    } else {
        csi_closed(s.drop_first())
    }
}

/// The index just past the control sequence body that starts at `start`.
fn skip_csi_body(v: &Vec<char>, start: usize) -> (j: usize)
    requires
        start <= v@.len(),
    ensures
        j == start + csi_len(v@.skip(start as int)),
        j <= v@.len(),
{
    let n = v.len();
    let mut j = start;
    let mut found = false;
    let ghost body = v@.skip(start as int);
    assert(body =~= v@.skip(j as int));
    while j < n && !found
        invariant
            start <= j <= n == v@.len(),
            body == v@.skip(start as int),
            !found ==> csi_len(body) == (j - start) + csi_len(v@.skip(j as int)),
            found ==> csi_len(body) == j - start,
        decreases n - j,
    {
        let e = v[j];
        let ghost rest = v@.skip(j as int);
        assert(rest.drop_first() =~= v@.skip(j + 1));
        j = j + 1;
        let u = e as u32;
        if (65 <= u && u <= 90) || (97 <= u && u <= 122) {
            found = true;
        }
    }
    if !found {
        assert(v@.skip(j as int) =~= Seq::<char>::empty());
    }
    proof {
        lemma_csi_len(body);
    }
    j
}

/// The text width of a string: its characters outside control sequences.
pub fn visible_width(text: &str) -> (w: usize)
    ensures
        w == visible_count(text@),
{
    let v = chars_of(text);
    let n = v.len();
    let mut width: usize = 0;
    let mut i: usize = 0;
    assert(v@.skip(0) =~= v@);
    while i < n
        invariant
            n == v@.len(),
            i <= n,
            width <= i,
            visible_count(v@) == width + visible_count(v@.skip(i as int)),
        decreases n - i,
    {
        let ghost s = v@.skip(i as int);
        if v[i] == '\x1b' && i + 1 < n && v[i + 1] == '[' {
            assert(starts_csi(s));
            let j = skip_csi_body(&v, i + 2);
            let ghost body = v@.skip(i + 2);
            assert(s.skip(2) =~= body);
            assert(s.skip(2 + csi_len(s.skip(2)) as int) =~= v@.skip(j as int));
            i = j;
        } else {
            assert(!starts_csi(s));
            assert(s.drop_first() =~= v@.skip(i + 1));
            width = width + 1;
            i = i + 1;
        }
    }
    width
}

} // verus!

verus! {

/// `s` cut after `room` visible characters: control sequences are kept, up to
/// the first visible character that no longer fits. Gives the kept characters
/// and how many of them are visible.
pub open spec fn truncated(s: Seq<char>, room: nat) -> (Seq<char>, nat)
    decreases s.len(),
{
    if s.len() == 0 {
        (Seq::empty(), 0)
    } else if starts_csi(s) {
        proof {
            lemma_csi_len(s.skip(2));
        }
        let l = 2 + csi_len(s.skip(2));
        let (o, v) = truncated(s.skip(l as int), room);
        (s.take(l as int) + o, v)
    } else if room > 0 {
        let (o, v) = truncated(s.drop_first(), (room - 1) as nat);
        (seq![s[0]] + o, v + 1)
    } else {
        (Seq::empty(), 0)
    }
}

/// `s` truncated to `width` visible characters, with the attribute reset
/// `ESC [ 0 m` after it when `width` characters were kept.
pub open spec fn truncate_spec(s: Seq<char>, width: nat) -> Seq<char> {
    let (o, v) = truncated(s, width);
    o + if v >= width {
        "\x1b[0m"@
    } else {
        Seq::empty()
    }
}

/// `n` spaces.
pub open spec fn spaces(n: nat) -> Seq<char> {
    Seq::new(n, |i: int| ' ')
}

/// `s` truncated to `width`, padded with spaces to `width` visible characters,
/// and followed by the erase-to-end-of-line `ESC [ K`.
pub open spec fn pad_spec(s: Seq<char>, width: nat) -> Seq<char> {
    let t = truncate_spec(s, width);
    let v = visible_count(t);
    t + (if v < width {
        spaces((width - v) as nat)
    } else {
        Seq::empty()
    }) + "\x1b[K"@
}

fn push_chars(out: &mut String, v: &Vec<char>, a: usize, b: usize)
    requires
        a <= b <= v@.len(),
    ensures
        final(out)@ == old(out)@ + v@.subrange(a as int, b as int),
{
    let mut k = a;
    while k < b
        invariant
            a <= k <= b <= v@.len(),
            out@ == old(out)@ + v@.subrange(a as int, k as int),
        decreases b - k,
    {
        push_char(out, v[k]);
        k = k + 1;
        assert(out@ =~= old(out)@ + v@.subrange(a as int, k as int));
    }
}

pub(crate) fn push_spaces(out: &mut String, n: usize)
    ensures
        final(out)@ == old(out)@ + spaces(n as nat),
{
    let mut k: usize = 0;
    while k < n
        invariant
            k <= n,
            out@ == old(out)@ + spaces(k as nat),
        decreases n - k,
    {
        push_char(out, ' ');
        k = k + 1;
        assert(out@ =~= old(out)@ + spaces(k as nat));
    }
}

/// `text` cut after `width` visible characters, control sequences kept, with a
/// reset when the cut was reached.
pub fn truncate_ansi(text: &str, width: usize) -> (out: String)
    ensures
        out@ == truncate_spec(text@, width as nat),
{
    let v = chars_of(text);
    let n = v.len();
    let mut out = String::new();
    let mut visible: usize = 0;
    let mut i: usize = 0;
    let mut stop = false;
    let ghost r = truncated(v@, width as nat);
    assert(v@.skip(0) =~= v@);
    while i < n && !stop
        invariant
            n == v@.len(),
            i <= n,
            visible <= width,
            r == truncated(v@, width as nat),
            !stop ==> r == (
                out@ + truncated(v@.skip(i as int), (width - visible) as nat).0,
                (visible + truncated(v@.skip(i as int), (width - visible) as nat).1) as nat,
            ),
            stop ==> r == (out@, visible as nat),
        decreases n - i + if stop { 0int } else { 1int },
    {
        let ghost s = v@.skip(i as int);
        let room = width - visible;
        if v[i] == '\x1b' && i + 1 < n && v[i + 1] == '[' {
            assert(starts_csi(s));
            let j = skip_csi_body(&v, i + 2);
            assert(s.skip(2) =~= v@.skip(i + 2));
            push_chars(&mut out, &v, i, j);
            assert(s.take(j - i) =~= v@.subrange(i as int, j as int));
            assert(s.skip(j - i) =~= v@.skip(j as int));
            i = j;
        } else if visible < width {
            assert(!starts_csi(s));
            assert(s.drop_first() =~= v@.skip(i + 1));
            push_char(&mut out, v[i]);
            visible = visible + 1;
            i = i + 1;
        } else {
            assert(!starts_csi(s));
            stop = true;
        }
    }
    if !stop {
        assert(v@.skip(i as int) =~= Seq::<char>::empty());
    }
    if visible >= width {
        out.append("\x1b[0m");
    }
    out
}

/// `line` truncated or padded with spaces to `width` visible characters,
/// followed by the erase-to-end-of-line sequence.
pub fn pad_ansi_line(line: &str, width: usize) -> (out: String)
    ensures
        out@ == pad_spec(line@, width as nat),
{
    let mut out = truncate_ansi(line, width);
    let visible = visible_width(out.as_str());
    if visible < width {
        push_spaces(&mut out, width - visible);
    }
    out.append("\x1b[K");
    assert(out@ =~= pad_spec(line@, width as nat));
    out
}

} // verus!

verus! {

/// `a` followed by `b` does not join a lone escape at the end of `a` with a `[`
/// at the start of `b`.
pub open spec fn joins_cleanly(a: Seq<char>, b: Seq<char>) -> bool {
    a.len() == 0 || a.last() != esc() || b.len() == 0 || b[0] != '['
}

proof fn lemma_csi_len_concat(x: Seq<char>, b: Seq<char>)
    requires
        has_letter(x),
    ensures
        csi_len(x + b) == csi_len(x),
    decreases x.len(),
{
    assert((x + b)[0] == x[0]);
    if !is_ascii_letter(x[0]) {
        let i = choose|i: int| 0 <= i < x.len() && is_ascii_letter(#[trigger] x[i]);
        assert(x.drop_first()[i - 1] == x[i]);
        assert((x + b).drop_first() =~= x.drop_first() + b);
        lemma_csi_len_concat(x.drop_first(), b);
    }
}

proof fn lemma_visible_concat(a: Seq<char>, b: Seq<char>)
    requires
        csi_closed(a),
        joins_cleanly(a, b),
    ensures
        visible_count(a + b) == visible_count(a) + visible_count(b),
        csi_closed(a + b) == csi_closed(b),
    decreases a.len(),
{
    if a.len() == 0 {
        assert(a + b =~= b);
    } else if starts_csi(a) {
        let ab = a + b;
        assert(ab[0] == a[0] && ab[1] == a[1]);
        assert(ab.skip(2) =~= a.skip(2) + b);
        lemma_csi_len(a.skip(2));
        lemma_csi_len_concat(a.skip(2), b);
        let l = 2 + csi_len(a.skip(2));
        assert(ab.skip(l as int) =~= a.skip(l as int) + b);
        let i = choose|i: int| 0 <= i < a.skip(2).len() && is_ascii_letter(#[trigger] a.skip(2)[i]);
        assert(has_letter(ab.skip(2))) by {
            assert(ab.skip(2)[i] == a.skip(2)[i]);
        }
        if a.skip(l as int).len() > 0 {
            assert(a.skip(l as int).last() == a.last());
        } else {
            assert(a[l - 1] == a.skip(2)[csi_len(a.skip(2)) - 1]);
        }
        lemma_visible_concat(a.skip(l as int), b);
    } else {
        let ab = a + b;
        assert(ab[0] == a[0]);
        assert(!starts_csi(ab)) by {
            if a.len() > 1 {
                assert(ab[1] == a[1]);
            } else if a[0] == esc() && b.len() > 0 {
                assert(ab[1] == b[0]);
            }
        }
        assert(ab.drop_first() =~= a.drop_first() + b);
        if a.drop_first().len() > 0 {
            assert(a.drop_first().last() == a.last());
        }
        lemma_visible_concat(a.drop_first(), b);
    }
}

/// A lone control sequence, closed by its letter, takes no room.
proof fn lemma_closed_block(blk: Seq<char>)
    requires
        starts_csi(blk),
        has_letter(blk.skip(2)),
        blk.len() == 2 + csi_len(blk.skip(2)),
    ensures
        csi_closed(blk),
        visible_count(blk) == 0,
{
    let rest = blk.skip(2 + csi_len(blk.skip(2)) as int);
    assert(rest =~= Seq::<char>::empty());
    assert(csi_closed(rest));
    assert(visible_count(rest) == 0);
}

proof fn lemma_truncated(s: Seq<char>, room: nat)
    requires
        csi_closed(s),
    ensures
        ({
            let (o, v) = truncated(s, room);
            &&& visible_count(o) == v
            &&& csi_closed(o)
            &&& v == if room < visible_count(s) {
                room
            } else {
                visible_count(s)
            }
            &&& o.len() <= s.len()
            &&& o == s.take(o.len() as int)
        }),
    decreases s.len(),
{
    if s.len() == 0 {
    } else if starts_csi(s) {
        lemma_csi_len(s.skip(2));
        let l = 2 + csi_len(s.skip(2));
        let (o2, v2) = truncated(s.skip(l as int), room);
        lemma_truncated(s.skip(l as int), room);
        let blk = s.take(l as int);
        assert(blk[l - 1] == s.skip(2)[csi_len(s.skip(2)) - 1]);
        assert(starts_csi(blk));
        assert(blk.skip(2) =~= s.skip(2).take(csi_len(s.skip(2)) as int));
        assert(has_letter(blk.skip(2))) by {
            assert(blk.skip(2)[csi_len(s.skip(2)) - 1] == s.skip(2)[csi_len(s.skip(2)) - 1]);
        }
        lemma_csi_len(blk.skip(2));
        assert(csi_len(blk.skip(2)) == csi_len(s.skip(2))) by {
            assert(s.skip(2) =~= blk.skip(2) + s.skip(l as int));
            lemma_csi_len_concat(blk.skip(2), s.skip(l as int));
        }
        lemma_closed_block(blk);
        lemma_visible_concat(blk, o2);
        assert(blk + o2 =~= s.take((l + o2.len()) as int));
    } else if room > 0 {
        let (o2, v2) = truncated(s.drop_first(), (room - 1) as nat);
        lemma_truncated(s.drop_first(), (room - 1) as nat);
        let one = seq![s[0]];
        assert(!starts_csi(one));
        assert(one.drop_first() =~= Seq::<char>::empty());
        assert(csi_closed(one.drop_first()) && visible_count(one.drop_first()) == 0);
        assert(csi_closed(one));
        assert(visible_count(one) == 1);
        assert(joins_cleanly(one, o2)) by {
            if o2.len() > 0 && s[0] == esc() {
                assert(o2[0] == s.drop_first()[0]);
                assert(s.len() > 1);
            }
        }
        lemma_visible_concat(one, o2);
        assert(one + o2 =~= s.take((1 + o2.len()) as int));
    } else {
    }
}

proof fn lemma_literal_widths()
    ensures
        visible_count("\x1b[0m"@) == 0,
        csi_closed("\x1b[0m"@),
        visible_count("\x1b[K"@) == 0,
        csi_closed("\x1b[K"@),
        "\x1b[0m"@[0] == esc(),
        "\x1b[K"@[0] == esc(),
{
    reveal_strlit("\x1b[0m");
    reveal_strlit("\x1b[K");
    let r = "\x1b[0m"@;
    let k = "\x1b[K"@;
    assert(r.skip(2) =~= seq!['0', 'm']);
    assert(seq!['0', 'm'].drop_first() =~= seq!['m']);
    assert(csi_len(seq!['m']) == 1);
    assert(csi_len(seq!['0', 'm']) == 2);
    assert(has_letter(r.skip(2))) by {
        assert(is_ascii_letter(r.skip(2)[1]));
    }
    lemma_closed_block(r);
    assert(k.skip(2) =~= seq!['K']);
    assert(csi_len(seq!['K']) == 1);
    assert(has_letter(k.skip(2))) by {
        assert(is_ascii_letter(k.skip(2)[0]));
    }
    lemma_closed_block(k);
}

proof fn lemma_spaces(n: nat)
    ensures
        visible_count(spaces(n)) == n,
        csi_closed(spaces(n)),
    decreases n,
{
    if n > 0 {
        assert(spaces(n).drop_first() =~= spaces((n - 1) as nat));
        lemma_spaces((n - 1) as nat);
    }
}

/// A padded line is exactly `width` columns wide, when every control sequence
/// in it is closed by a letter.
pub proof fn lemma_pad_width(s: Seq<char>, width: nat)
    requires
        csi_closed(s),
    ensures
        visible_count(pad_spec(s, width)) == width,
        csi_closed(pad_spec(s, width)),
{
    lemma_literal_widths();
    lemma_truncated(s, width);
    let (o, v) = truncated(s, width);
    let reset = if v >= width {
        "\x1b[0m"@
    } else {
        Seq::<char>::empty()
    };
    lemma_visible_concat(o, reset);
    let t = o + reset;
    assert(t == truncate_spec(s, width));
    let fill = if visible_count(t) < width {
        spaces((width - visible_count(t)) as nat)
    } else {
        Seq::<char>::empty()
    };
    lemma_spaces((width - visible_count(t)) as nat);
    lemma_visible_concat(t, fill);
    lemma_visible_concat(t + fill, "\x1b[K"@);
}

} // verus!

verus! {

/// A key and what it does, as shown in a shortcut bar.
#[derive(Clone, Copy, Debug)]
pub struct Shortcut<'a> {
    pub key: &'a str,
    pub label: &'a str,
}

impl<'a> Shortcut<'a> {
    pub fn new(key: &'a str, label: &'a str) -> (s: Self)
        ensures
            s.key@ == key@,
            s.label@ == label@,
    {
        Shortcut { key, label }
    }
}

/// The keys and labels of `s`.
pub open spec fn shortcut_views(s: Seq<Shortcut<'_>>) -> Seq<(Seq<char>, Seq<char>)> {
    s.map_values(|c: Shortcut<'_>| (c.key@, c.label@))
}

/// The background colour of the `i`-th keycap: eight pastel tones in turn.
pub open spec fn keycap(i: nat) -> (u8, u8, u8) {
    let k = i % 8;
    if k == 0 {
        (191, 197, 255)
    } else if k == 1 {
        (255, 237, 181)
    } else if k == 2 {
        (156, 224, 236)
    } else if k == 3 {
        (202, 170, 246)
    } else if k == 4 {
        (244, 177, 105)
    } else if k == 5 {
        (176, 232, 190)
    } else if k == 6 {
        (255, 184, 208)
    } else {
        (191, 222, 255)
    }
}

/// `ESC [ 48 ; 2 ; r ; g ; b m`: a 24-bit background colour.
pub open spec fn sgr_background(r: nat, g: nat, b: nat) -> Seq<char> {
    "\x1b[48;2;"@ + decimal(r) + ";"@ + decimal(g) + ";"@ + decimal(b) + "m"@
}

/// The `i`-th entry of a shortcut bar: the key on a coloured keycap in dark
/// text, the attributes reset, then a space and the label.
pub open spec fn keycap_segment(i: nat, key: Seq<char>, label: Seq<char>) -> Seq<char> {
    let (r, g, b) = keycap(i);
    sgr_background(r as nat, g as nat, b as nat) + "\x1b[38;2;35;31;48m "@ + key + " \x1b[0m "@
        + label
}

/// The entries of a shortcut bar, two spaces apart.
pub open spec fn bar_text(s: Seq<(Seq<char>, Seq<char>)>) -> Seq<char>
    decreases s.len(),
{
    if s.len() == 0 {
        Seq::empty()
    } else if s.len() == 1 {
        keycap_segment(0, s[0].0, s[0].1)
    } else {
        bar_text(s.drop_last()) + "  "@ + keycap_segment(
            (s.len() - 1) as nat,
            s.last().0,
            s.last().1,
        )
    }
}

pub(crate) fn keycap_exec(i: usize) -> (c: (u8, u8, u8))
    ensures
        c == keycap(i as nat),
{
    let k = i % 8;
    if k == 0 {
        (191, 197, 255)
    } else if k == 1 {
        (255, 237, 181)
    } else if k == 2 {
        (156, 224, 236)
    } else if k == 3 {
        (202, 170, 246)
    } else if k == 4 {
        (244, 177, 105)
    } else if k == 5 {
        (176, 232, 190)
    } else if k == 6 {
        (255, 184, 208)
    } else {
        (191, 222, 255)
    }
}

fn push_keycap_segment(out: &mut String, i: usize, key: &str, label: &str)
    ensures
        final(out)@ == old(out)@ + keycap_segment(i as nat, key@, label@),
{
    let (r, g, b) = keycap_exec(i);
    out.append("\x1b[48;2;");
    push_decimal(out, r as u64);
    out.append(";");
    push_decimal(out, g as u64);
    out.append(";");
    push_decimal(out, b as u64);
    out.append("m");
    out.append("\x1b[38;2;35;31;48m ");
    out.append(key);
    out.append(" \x1b[0m ");
    out.append(label);
    assert(final(out)@ =~= old(out)@ + keycap_segment(i as nat, key@, label@));
}

/// A bar of keycaps: each shortcut's key on a keycap of its own colour, then
/// its label; the entries two spaces apart.
pub fn shortcut_bar(shortcuts: &[Shortcut<'_>]) -> (bar: String)
    ensures
        bar@ == bar_text(shortcut_views(shortcuts@)),
{
    let ghost all = shortcut_views(shortcuts@);
    let mut out = String::new();
    let mut i: usize = 0;
    while i < shortcuts.len()
        invariant
            i <= shortcuts@.len(),
            all == shortcut_views(shortcuts@),
            out@ == bar_text(all.take(i as int)),
        decreases shortcuts@.len() - i,
    {
        let s = shortcuts[i];
        proof {
            assert(all.take(i + 1).drop_last() =~= all.take(i as int));
            assert(all.take(i + 1).last() == (s.key@, s.label@));
            if i == 0 {
                assert(all.take(0) =~= Seq::<(Seq<char>, Seq<char>)>::empty());
            }
        }
        if i > 0 {
            out.append("  ");
        }
        push_keycap_segment(&mut out, i, s.key, s.label);
        i = i + 1;
    }
    assert(all.take(i as int) =~= all);
    out
}

} // verus!

verus! {

/// The spaces put before `s` to centre it in `width` columns: half the room
/// left, rounded down; none when `s` fills the width.
pub open spec fn left_margin(s: Seq<char>, width: nat) -> nat {
    let v = visible_count(s);
    if v < width {
        ((width - v) as nat) / 2
    } else {
        0
    }
}

/// `s` centred in `width` columns, then padded or cut to exactly that width.
pub open spec fn center_spec(s: Seq<char>, width: nat) -> Seq<char> {
    pad_spec(spaces(left_margin(s, width)) + s, width)
}

/// `line` centred in `width` columns by its visible width, padded on the
/// right, cut when it is wider, and followed by the erase-to-end-of-line
/// sequence.
pub fn center_ansi_line(line: &str, width: usize) -> (out: String)
    ensures
        out@ == center_spec(line@, width as nat),
{
    let visible = visible_width(line);
    let left = if visible < width {
        (width - visible) / 2
    } else {
        0
    };
    let mut shifted = String::new();
    push_spaces(&mut shifted, left);
    shifted.append(line);
    assert(shifted@ =~= spaces(left_margin(line@, width as nat)) + line@);
    pad_ansi_line(shifted.as_str(), width)
}

/// The `r`-th of the `rows` lines of a block that centres `ls` vertically and
/// each of its lines horizontally; the rows above and below are blank.
pub open spec fn block_row(ls: Seq<Seq<char>>, width: nat, rows: nat, r: nat) -> Seq<char> {
    let top: nat = if ls.len() < rows {
        ((rows - ls.len()) as nat) / 2
    } else {
        0
    };
    if top <= r < top + ls.len() {
        center_spec(ls[r - top], width)
    } else {
        pad_spec(Seq::empty(), width)
    }
}

/// `rows` joined by `CR LF`.
pub open spec fn join_crlf(rows: Seq<Seq<char>>) -> Seq<char>
    decreases rows.len(),
{
    if rows.len() == 0 {
        Seq::empty()
    } else if rows.len() == 1 {
        rows[0]
    } else {
        join_crlf(rows.drop_last()) + "\r\n"@ + rows.last()
    }
}

/// The whole block: `rows` rows, each `width` columns wide.
pub open spec fn block_spec(text: Seq<char>, width: nat, rows: nat) -> Seq<char> {
    join_crlf(Seq::new(rows, |r: int| block_row(lines(text), width, rows, r as nat)))
}

/// `text` centred in a block of `rows` rows of `width` columns: its lines
/// centred each, the block centred vertically with blank rows above and
/// below, lines past the last row left out; rows joined by `CR LF`.
pub fn center_block(text: &str, width: usize, rows: usize) -> (out: String)
    ensures
        out@ == block_spec(text@, width as nat, rows as nat),
{
    let v = chars_of(text);
    let ls = split_lines(v.as_slice());
    let ghost lv = lines(text@);
    let n = ls.len();
    let top = if n < rows {
        (rows - n) / 2
    } else {
        0
    };
    let ghost all = Seq::new(rows as nat, |r: int| block_row(lv, width as nat, rows as nat, r as nat));
    let mut out = String::new();
    let mut r: usize = 0;
    while r < rows
        invariant
            r <= rows,
            n == ls@.len() == lv.len(),
            views(ls@) == lv,
            top == (if n < rows { ((rows - n) as nat) / 2 } else { 0nat }),
            all == Seq::new(rows as nat, |k: int| block_row(lv, width as nat, rows as nat, k as nat)),
            out@ == join_crlf(all.take(r as int)),
        decreases rows - r,
    {
        proof {
            assert(all.take(r + 1).drop_last() =~= all.take(r as int));
            if r == 0 {
                assert(all.take(0) =~= Seq::<Seq<char>>::empty());
            }
        }
        if r > 0 {
            out.append("\r\n");
        }
        let row = if top <= r && r - top < n {
            let line = string_from_chars(ls[r - top].as_slice());
            proof {
                assert(views(ls@)[r - top] == ls@[r - top]@);
            }
            center_ansi_line(line.as_str(), width)
        } else {
            pad_ansi_line("", width)
        };
        proof {
            if !(top <= r && r - top < n) {
                reveal_strlit("");
                assert(""@ =~= Seq::<char>::empty());
            }
            assert(all.take(r + 1).last() == row@);
        }
        out.append(row.as_str());
        r = r + 1;
    }
    assert(all.take(r as int) =~= all);
    out
}

} // verus!

verus! {

/// A centred line is exactly `width` columns wide, when every control
/// sequence in it is closed by a letter.
pub proof fn lemma_center_width(s: Seq<char>, width: nat)
    requires
        csi_closed(s),
    ensures
        visible_count(center_spec(s, width)) == width,
        csi_closed(center_spec(s, width)),
{
    let sp = spaces(left_margin(s, width));
    lemma_spaces(left_margin(s, width));
    assert(joins_cleanly(sp, s)) by {
        if sp.len() > 0 {
            assert(sp.last() == ' ');
        }
    }
    lemma_visible_concat(sp, s);
    lemma_pad_width(sp + s, width);
}

/// Every row of a centred block is exactly `width` columns wide, when every
/// control sequence in each line of the text is closed by a letter.
pub proof fn lemma_block_rows_width(text: Seq<char>, width: nat, rows: nat, r: nat)
    requires
        r < rows,
        forall|i: int| 0 <= i < lines(text).len() ==> csi_closed(#[trigger] lines(text)[i]),
    ensures
        visible_count(block_row(lines(text), width, rows, r)) == width,
{
    let ls = lines(text);
    let top: nat = if ls.len() < rows {
        ((rows - ls.len()) as nat) / 2
    } else {
        0
    };
    if top <= r < top + ls.len() {
        assert(csi_closed(ls[r - top]));
        lemma_center_width(ls[r - top], width);
    } else {
        assert(csi_closed(Seq::<char>::empty()));
        lemma_pad_width(Seq::empty(), width);
    }
}

} // verus!

verus! {

/// `s` holds no escape character.
pub open spec fn is_plain(s: Seq<char>) -> bool {
    forall|i: int| 0 <= i < s.len() ==> s[i] != esc()
}

/// `s` holds no ASCII letter.
pub open spec fn no_letters(s: Seq<char>) -> bool {
    forall|i: int| 0 <= i < s.len() ==> !is_ascii_letter(#[trigger] s[i])
}

/// Text without escapes takes a column per character.
pub proof fn lemma_plain_width(s: Seq<char>)
    requires
        is_plain(s),
    ensures
        visible_count(s) == s.len(),
        csi_closed(s),
    decreases s.len(),
{
    if s.len() > 0 {
        assert(s[0] != esc());
        assert(is_plain(s.drop_first())) by {
            assert forall|i: int| 0 <= i < s.drop_first().len() implies s.drop_first()[i] != esc() by {
                assert(s.drop_first()[i] == s[i + 1]);
            }
        }
        lemma_plain_width(s.drop_first());
    }
}

proof fn lemma_csi_len_over(x: Seq<char>, y: Seq<char>)
    requires
        no_letters(x),
    ensures
        csi_len(x + y) == x.len() + csi_len(y),
    decreases x.len(),
{
    if x.len() > 0 {
        assert((x + y)[0] == x[0]);
        assert(!is_ascii_letter(x[0]));
        assert((x + y).drop_first() =~= x.drop_first() + y);
        assert(no_letters(x.drop_first())) by {
            assert forall|i: int| 0 <= i < x.drop_first().len() implies !is_ascii_letter(
                #[trigger] x.drop_first()[i],
            ) by {
                assert(x.drop_first()[i] == x[i + 1]);
            }
        }
        lemma_csi_len_over(x.drop_first(), y);
    } else {
        assert(x + y =~= y);
    }
}

/// A control sequence `ESC [ body m` with no letter in its body takes no room
/// and is closed.
proof fn lemma_sgr_block(body: Seq<char>)
    requires
        no_letters(body),
    ensures
        visible_count(seq![esc(), '['] + body + seq!['m']) == 0,
        csi_closed(seq![esc(), '['] + body + seq!['m']),
{
    let s = seq![esc(), '['] + body + seq!['m'];
    assert(s.skip(2) =~= body + seq!['m']);
    lemma_csi_len_over(body, seq!['m']);
    assert(csi_len(seq!['m']) == 1) by {
        assert(is_ascii_letter('m'));
    }
    assert(has_letter(s.skip(2))) by {
        assert(s.skip(2)[body.len() as int] == 'm');
        assert(is_ascii_letter(s.skip(2)[body.len() as int]));
    }
    lemma_closed_block(s);
}

proof fn lemma_decimal_no_letters(n: nat)
    ensures
        no_letters(decimal(n)),
        is_plain(decimal(n)),
        decimal(n).len() > 0,
    decreases n,
{
    if n >= 10 {
        lemma_decimal_no_letters(n / 10);
        let d = decimal(n / 10).push(crate::text::digit_char(n % 10));
        assert(decimal(n) == d);
        let c = crate::text::digit_char(n % 10);
        assert((c as u32) < 65) by {
            assert(((n % 10 + 48) as u8) < 65);
        }
        assert forall|i: int| 0 <= i < d.len() implies !is_ascii_letter(#[trigger] d[i]) && d[i]
            != esc() by {
            if i < d.len() - 1 {
                assert(d[i] == decimal(n / 10)[i]);
            }
        }
    } else {
        let c = crate::text::digit_char(n);
        assert(((n + 48) as u8) < 65);
        assert((c as u32) < 65);
        assert(c != esc()) by {
            assert((c as u32) >= 48);
        }
    }
}

/// The columns a shortcut bar takes: each key and label, three columns of
/// keycap padding and spacing per entry, and two between entries.
pub open spec fn bar_room(s: Seq<(Seq<char>, Seq<char>)>) -> nat
    decreases s.len(),
{
    if s.len() == 0 {
        0
    } else if s.len() == 1 {
        s[0].0.len() + s[0].1.len() + 3
    } else {
        bar_room(s.drop_last()) + 2 + s.last().0.len() + s.last().1.len() + 3
    }
}

proof fn lemma_segment_width(i: nat, key: Seq<char>, label: Seq<char>)
    requires
        is_plain(key),
        is_plain(label),
    ensures
        visible_count(keycap_segment(i, key, label)) == key.len() + label.len() + 3,
        csi_closed(keycap_segment(i, key, label)),
        keycap_segment(i, key, label).len() > 0,
        keycap_segment(i, key, label)[0] == esc(),
        label.len() == 0 ==> keycap_segment(i, key, label).last() == ' ',
        label.len() > 0 ==> keycap_segment(i, key, label).last() == label.last(),
{
    reveal_strlit("\x1b[48;2;");
    reveal_strlit(";");
    reveal_strlit("m");
    reveal_strlit("\x1b[38;2;35;31;48m ");
    reveal_strlit(" \x1b[0m ");
    let (r, g, b) = keycap(i);
    lemma_decimal_no_letters(r as nat);
    lemma_decimal_no_letters(g as nat);
    lemma_decimal_no_letters(b as nat);
    let body1 = seq!['4', '8', ';', '2', ';'] + decimal(r as nat) + seq![';'] + decimal(g as nat)
        + seq![';'] + decimal(b as nat);
    assert(no_letters(body1)) by {
        assert forall|k: int| 0 <= k < body1.len() implies !is_ascii_letter(#[trigger] body1[k]) by {
            let d1 = decimal(r as nat);
            let d2 = decimal(g as nat);
            let d3 = decimal(b as nat);
            if k < 5 {
            } else if k < 5 + d1.len() {
                assert(body1[k] == d1[k - 5]);
            } else if k == 5 + d1.len() {
            } else if k < 6 + d1.len() + d2.len() {
                assert(body1[k] == d2[k - 6 - d1.len()]);
            } else if k == 6 + d1.len() + d2.len() {
            } else {
                assert(body1[k] == d3[k - 7 - d1.len() - d2.len()]);
            }
        }
    }
    let a = seq![esc(), '['] + body1 + seq!['m'];
    assert(sgr_background(r as nat, g as nat, b as nat) =~= a);
    lemma_sgr_block(body1);
    let body2 = seq!['3', '8', ';', '2', ';', '3', '5', ';', '3', '1', ';', '4', '8'];
    assert(no_letters(body2));
    let bb = seq![esc(), '['] + body2 + seq!['m'];
    lemma_sgr_block(body2);
    let body3 = seq!['0'];
    assert(no_letters(body3));
    let rr = seq![esc(), '['] + body3 + seq!['m'];
    lemma_sgr_block(body3);
    let sp = seq![' '];
    lemma_plain_width(sp);
    lemma_plain_width(key);
    lemma_plain_width(label);
    let seg = keycap_segment(i, key, label);
    assert(seg =~= a + bb + sp + key + sp + rr + sp + label);
    // Left to right, each piece after a closed prefix that does not end in a
    // lone escape.
    lemma_visible_concat(a, bb);
    let p1 = a + bb;
    assert(p1.last() == 'm');
    lemma_visible_concat(p1, sp);
    let p2 = p1 + sp;
    lemma_visible_concat(p2, key);
    let p3 = p2 + key;
    assert(p3.last() != esc()) by {
        if key.len() > 0 {
            assert(p3.last() == key.last());
        } else {
            assert(p3 =~= p2);
        }
    }
    lemma_visible_concat(p3, sp);
    let p4 = p3 + sp;
    lemma_visible_concat(p4, rr);
    let p5 = p4 + rr;
    assert(p5.last() == 'm');
    lemma_visible_concat(p5, sp);
    let p6 = p5 + sp;
    lemma_visible_concat(p6, label);
    assert(seg =~= p6 + label);
    assert(seg[0] == esc());
    if label.len() == 0 {
        assert(seg =~= p6);
    } else {
        assert(seg.last() == label.last());
    }
}

/// A shortcut bar takes exactly `bar_room` columns when no key or label holds
/// an escape character, and every control sequence in it is closed.
pub proof fn lemma_bar_width(s: Seq<(Seq<char>, Seq<char>)>)
    requires
        forall|i: int| 0 <= i < s.len() ==> is_plain(#[trigger] s[i].0) && is_plain(s[i].1),
    ensures
        visible_count(bar_text(s)) == bar_room(s),
        csi_closed(bar_text(s)),
    decreases s.len(),
{
    if s.len() == 1 {
        lemma_segment_width(0, s[0].0, s[0].1);
    } else if s.len() > 1 {
        let p = s.drop_last();
        assert forall|i: int| 0 <= i < p.len() implies is_plain(#[trigger] p[i].0) && is_plain(p[i].1) by {
            assert(p[i] == s[i]);
        }
        lemma_bar_width(p);
        let last = s.last();
        assert(s[s.len() - 1] == last);
        lemma_segment_width((s.len() - 1) as nat, last.0, last.1);
        reveal_strlit("  ");
        let two = seq![' ', ' '];
        assert("  "@ =~= two);
        lemma_plain_width(two);
        let prev = bar_text(p);
        lemma_visible_concat(prev, two);
        lemma_visible_concat(prev + two, keycap_segment((s.len() - 1) as nat, last.0, last.1));
    }
}

/// Truncation keeps `width` columns, or all of a narrower text, when every
/// control sequence in it is closed.
pub proof fn lemma_truncate_width(s: Seq<char>, width: nat)
    requires
        csi_closed(s),
    ensures
        visible_count(truncate_spec(s, width)) == if width < visible_count(s) {
            width
        } else {
            visible_count(s)
        },
        csi_closed(truncate_spec(s, width)),
{
    lemma_literal_widths();
    lemma_truncated(s, width);
    let (o, v) = truncated(s, width);
    let reset = if v >= width {
        "\x1b[0m"@
    } else {
        Seq::<char>::empty()
    };
    lemma_visible_concat(o, reset);
}

} // verus!

verus! {

/// Visible width: text without escapes takes a column per character, such
/// text in front of any `b` adds its length to `b`'s width, and a control
/// sequence `ESC [` parameters and a final letter in front of `b` adds nothing.
pub proof fn lemma_visible_width_laws(a: Seq<char>, b: Seq<char>, params: Seq<char>, letter: char)
    requires
        is_plain(a),
        forall|i: int|
            0 <= i < params.len() ==> (48 <= (#[trigger] params[i] as u32) <= 57 || params[i] == ';'),
        is_ascii_letter(letter),
    ensures
        visible_count(a) == a.len(),
        visible_count(a + b) == a.len() + visible_count(b),
        visible_count(seq![esc(), '['] + params + seq![letter] + b) == visible_count(b),
{
    lemma_plain_width(a);
    assert(joins_cleanly(a, b)) by {
        if a.len() > 0 {
            assert(a.last() == a[a.len() - 1]);
        }
    }
    lemma_visible_concat(a, b);
    let s = seq![esc(), '['] + params + seq![letter] + b;
    assert(no_letters(params)) by {
        assert forall|i: int| 0 <= i < params.len() implies !is_ascii_letter(#[trigger] params[i]) by {
            assert(48 <= (params[i] as u32) <= 57 || params[i] == ';');
        }
    }
    assert(s.skip(2) =~= params + (seq![letter] + b));
    lemma_csi_len_over(params, seq![letter] + b);
    assert(csi_len(seq![letter] + b) == 1) by {
        assert((seq![letter] + b)[0] == letter);
    }
    assert(starts_csi(s));
    assert(s.skip(2 + csi_len(s.skip(2)) as int) =~= b);
}

} // verus!
