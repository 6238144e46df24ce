//! HTML screenshots: a rendered frame as a page of coloured characters.

use vstd::prelude::*;

use crate::color::Rgb;
use crate::render::{row_views, string_views, RenderedFrame};
use crate::text::{chars_of, decimal, push_char, push_decimal};

verus! {

/// `c` as HTML text: the five markup characters as entities, any other
/// character as itself.
pub open spec fn escaped(c: char) -> Seq<char> {
    if c == '&' {
        "&amp;"@
    } else if c == '<' {
        "&lt;"@
    } else if c == '>' {
        "&gt;"@
    } else if c == '"' {
        "&quot;"@
    } else if c == '\'' {
        "&#39;"@
    } else {
        seq![c]
    }
}

/// `ch` escaped for HTML text.
pub fn escape_html_char(ch: char) -> (s: String)
    ensures
        s@ == escaped(ch),
{
    if ch == '&' {
        "&amp;".to_owned()
    } else if ch == '<' {
        "&lt;".to_owned()
    } else if ch == '>' {
        "&gt;".to_owned()
    } else if ch == '"' {
        "&quot;".to_owned()
    } else if ch == '\'' {
        "&#39;".to_owned()
    } else {
        let mut s = String::new();
        push_char(&mut s, ch);
        assert(s@ =~= seq![ch]);
        s
    }
}

/// The page before the frame.
pub open spec fn page_head() -> Seq<char> {
    "<!doctype html><meta charset=\"utf-8\"><title>ascii-cam screenshot</title><style>body{margin:0;background:#050505;color:#eee}pre{font:12px/1 monospace;white-space:pre;margin:16px}</style><pre>\n"@
}

/// One character in its colour.
pub open spec fn span(c: Rgb, ch: char) -> Seq<char> {
    "<span style=\"color:rgb("@ + decimal(c.r as nat) + ","@ + decimal(c.g as nat) + ","@
        + decimal(c.b as nat) + ")\">"@ + escaped(ch) + "</span>"@
}

/// The colour of character `x` of line `y`: from the colour grid where there
/// is one, light grey otherwise.
pub open spec fn cell_color(colors: Option<Seq<Seq<Rgb>>>, y: int, x: int) -> Rgb {
    match colors {
        Some(rows) => rows[y][x],
        None => Rgb { r: 230, g: 230, b: 230 },
    }
}

/// The spans of the first `n` characters of line `y`.
pub open spec fn line_spans(line: Seq<char>, colors: Option<Seq<Seq<Rgb>>>, y: int, n: nat) -> Seq<char>
    decreases n,
{
    if n == 0 {
        Seq::empty()
    } else {
        line_spans(line, colors, y, (n - 1) as nat) + span(cell_color(colors, y, n - 1), line[n - 1])
    }
}

/// The spans of the first `n` lines, `\n` after each line but the last.
pub open spec fn page_body(lines: Seq<Seq<char>>, colors: Option<Seq<Seq<Rgb>>>, n: nat) -> Seq<char>
    decreases n,
{
    if n == 0 {
        Seq::empty()
    } else {
        page_body(lines, colors, (n - 1) as nat) + line_spans(
            lines[n - 1],
            colors,
            n - 1,
            lines[n - 1].len(),
        ) + if n < lines.len() {
            seq!['\n']
        } else {
            Seq::empty()
        }
    }
}

/// The whole screenshot page.
pub open spec fn screenshot_page(f: RenderedFrame) -> Seq<char> {
    page_head() + page_body(f.line_views(), f.color_views(), f.lines@.len()) + "</pre>\n"@
}

fn push_span(out: &mut String, c: Rgb, ch: char)
    ensures
        final(out)@ == old(out)@ + span(c, ch),
{
    out.append("<span style=\"color:rgb(");
    push_decimal(out, c.r as u64);
    out.append(",");
    push_decimal(out, c.g as u64);
    out.append(",");
    push_decimal(out, c.b as u64);
    out.append(")\">");
    let e = escape_html_char(ch);
    out.append(e.as_str());
    out.append("</span>");
    assert(final(out)@ =~= old(out)@ + span(c, ch));
}

/// The HTML page of a screenshot: each character of `frame` in a span of its
/// colour (light grey without colours), escaped, lines as in the frame.
pub fn screenshot_html(frame: &RenderedFrame) -> (html: String)
    requires
        frame.colors_cover_lines(),
    ensures
        html@ == screenshot_page(*frame),
{
    let mut out = "<!doctype html><meta charset=\"utf-8\"><title>ascii-cam screenshot</title><style>body{margin:0;background:#050505;color:#eee}pre{font:12px/1 monospace;white-space:pre;margin:16px}</style><pre>\n".to_owned();
    let ghost lv = frame.line_views();
    let ghost cv = frame.color_views();
    let n = frame.lines.len();
    let mut y: usize = 0;
    while y < n
        invariant
            y <= n == frame.lines@.len() == lv.len(),
            lv == frame.line_views(),
            cv == frame.color_views(),
            frame.colors_cover_lines(),
            out@ == page_head() + page_body(lv, cv, y as nat),
        decreases n - y,
    {
        let line = chars_of(frame.lines[y].as_str());
        assert(line@ == lv[y as int]);
        let ghost start = out@;
        let mut x: usize = 0;
        while x < line.len()
            invariant
                x <= line@.len(),
                y < n == frame.lines@.len() == lv.len(),
                line@ == lv[y as int],
                lv == frame.line_views(),
                cv == frame.color_views(),
                frame.colors_cover_lines(),
                out@ == start + line_spans(line@, cv, y as int, x as nat),
            decreases line@.len() - x,
        {
            let c = match &frame.colors {
                Some(rows) => {
                    assert(rows@[y as int]@.len() >= frame.lines@[y as int]@.len());
                    rows[y][x]
                },
                None => Rgb::new(230, 230, 230),
            };
            assert(c == cell_color(cv, y as int, x as int));
            push_span(&mut out, c, line[x]);
            x = x + 1;
        }
        if y + 1 < n {
            push_char(&mut out, '\n');
        }
        y = y + 1;
        assert(out@ =~= page_head() + page_body(lv, cv, y as nat));
    }
    out.append("</pre>\n");
    out
}

} // verus!

verus! {

/// In a screenshot, each line's spans are, character by character, the
/// character in the colour of its own cell: `rows[y][x]` for character `x` of
/// line `y` of a coloured frame, light grey without colours.
pub proof fn lemma_each_character_in_its_own_colour(
    line: Seq<char>,
    colors: Option<Seq<Seq<Rgb>>>,
    y: int,
    n: nat,
)
    requires
        n <= line.len(),
    ensures
        line_spans(line, colors, y, n) == Seq::new(
            n,
            |x: int|
                span(
                    match colors {
                        Some(rows) => rows[y][x],
                        None => Rgb { r: 230, g: 230, b: 230 },
                    },
                    line[x],
                ),
        ).flatten_alt(),
    decreases n,
{
    let f = |x: int|
        span(
            match colors {
                Some(rows) => rows[y][x],
                None => Rgb { r: 230, g: 230, b: 230 },
            },
            line[x],
        );
    if n > 0 {
        lemma_each_character_in_its_own_colour(line, colors, y, (n - 1) as nat);
        assert(Seq::new(n, f).drop_last() =~= Seq::new((n - 1) as nat, f));
    } else {
        assert(Seq::new(0, f) =~= Seq::<Seq<char>>::empty());
    }
}

} // verus!
