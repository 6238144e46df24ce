//! Rendering camera frames as characters, and the rendered frames themselves.

use vstd::prelude::*;
use vstd::string::*;

use crate::color::{ansi_prefix_of, display_rgb, luma, sgr_rgb, ColorMode, Rgb};
use crate::frame::{at, Frame};
use crate::text::{push_char, push_decimal};

verus! {

/// How pixels become characters.
#[derive(Clone, Copy, Debug, PartialEq, Eq, Structural)]
pub enum RenderMode {
    Ascii,
    Braille,
}

impl RenderMode {
    /// The mode's name.
    pub fn label(self) -> (s: &'static str)
        ensures
            s@ == match self {
                RenderMode::Ascii => "ASCII"@,
                RenderMode::Braille => "Braille"@,
            },
    {
        match self {
            RenderMode::Ascii => "ASCII",
            RenderMode::Braille => "Braille",
        }
    }

    /// The other mode.
    pub fn next(self) -> (m: RenderMode)
        ensures
            m == match self {
                RenderMode::Ascii => RenderMode::Braille,
                RenderMode::Braille => RenderMode::Ascii,
            },
    {
        match self {
            RenderMode::Ascii => RenderMode::Braille,
            RenderMode::Braille => RenderMode::Ascii,
        }
    }
}

/// Why a rendered frame was refused.
#[derive(Clone, Copy, Debug, PartialEq, Eq, Structural)]
pub enum RenderError {
    /// The width or the height is zero.
    ZeroDimensions,
    /// The number of lines is not the height.
    RowCount { rows: usize, expected: usize },
    /// Some line does not have `width` characters.
    LineWidth,
    /// The colour grid is not `height` rows of `width` colours.
    ColorGrid,
}

/// A frame of characters, each optionally coloured.
#[derive(Debug)]
pub struct RenderedFrame {
    pub width: usize,
    pub height: usize,
    pub lines: Vec<String>,
    pub colors: Option<Vec<Vec<Rgb>>>,
    pub terminal_text: Option<String>,
}

/// The characters of each line.
pub open spec fn string_views(v: Seq<String>) -> Seq<Seq<char>> {
    v.map_values(|l: String| l@)
}

/// The colours of each row.
pub open spec fn row_views(v: Seq<Vec<Rgb>>) -> Seq<Seq<Rgb>> {
    v.map_values(|row: Vec<Rgb>| row@)
}

/// The colours of each row of an optional grid.
pub open spec fn opt_row_views(c: Option<Vec<Vec<Rgb>>>) -> Option<Seq<Seq<Rgb>>> {
    match c {
        Some(rows) => Some(row_views(rows@)),
        None => None,
    }
}

/// A grid shape: `height > 0` lines of `width > 0` characters, and when there
/// are colours, `height` rows of `width` colours.
pub open spec fn grid_ok(
    width: nat,
    height: nat,
    lines: Seq<Seq<char>>,
    colors: Option<Seq<Seq<Rgb>>>,
) -> bool {
    &&& width > 0 && height > 0
    &&& lines.len() == height
    &&& forall|y: int| 0 <= y < height ==> #[trigger] lines[y].len() == width
    &&& colors matches Some(rows) ==> {
        &&& rows.len() == height
        &&& forall|y: int| 0 <= y < height ==> #[trigger] rows[y].len() == width
    }
}

/// `lines` joined with `\n`.
pub open spec fn join_newline(lines: Seq<Seq<char>>) -> Seq<char>
    decreases lines.len(),
{
    if lines.len() == 0 {
        Seq::empty()
    } else if lines.len() == 1 {
        lines[0]
    } else {
        join_newline(lines.drop_last()) + seq!['\n'] + lines.last()
    }
}

/// Each character of `line` after the 24-bit colour escape of its colour in `row`.
pub open spec fn colored_row(line: Seq<char>, row: Seq<Rgb>) -> Seq<char>
    decreases line.len(),
{
    if line.len() == 0 {
        Seq::empty()
    } else {
        let x = line.len() - 1;
        colored_row(line.drop_last(), row) + sgr_rgb(row[x].r as nat, row[x].g as nat, row[x].b as nat)
            + seq![line[x]]
    }
}

/// Coloured lines joined with `\n`, followed by the reset `ESC [ 0 m`.
pub open spec fn colored_text(lines: Seq<Seq<char>>, colors: Seq<Seq<Rgb>>) -> Seq<char> {
    join_newline(Seq::new(lines.len(), |y: int| colored_row(lines[y], colors[y]))) + "\x1b[0m"@
}

impl RenderedFrame {
    /// The characters of each line.
    pub open spec fn line_views(&self) -> Seq<Seq<char>> {
        string_views(self.lines@)
    }

    /// The colours of each row, if any.
    pub open spec fn color_views(&self) -> Option<Seq<Seq<Rgb>>> {
        match self.colors {
            Some(rows) => Some(row_views(rows@)),
            None => None,
        }
    }

    /// The text cached by the renderer, if any.
    pub open spec fn cached_text(&self) -> Option<Seq<char>> {
        match self.terminal_text {
            Some(t) => Some(t@),
            None => None,
        }
    }

    /// The frame has the shape that `new` checks.
    pub open spec fn well_formed(&self) -> bool {
        grid_ok(self.width as nat, self.height as nat, self.line_views(), self.color_views())
    }

    /// Colours, where present, cover every character.
    pub open spec fn colors_cover_lines(&self) -> bool {
        self.colors matches Some(rows) ==> {
            &&& rows@.len() >= self.lines@.len()
            &&& forall|y: int|
                0 <= y < self.lines@.len() ==> #[trigger] rows@[y]@.len() >= self.lines@[y]@.len()
        }
    }

    /// What `terminal_text` gives.
    pub open spec fn text_of(&self) -> Seq<char> {
        match self.cached_text() {
            Some(t) => t,
            None => match self.color_views() {
                None => join_newline(self.line_views()),
                Some(rows) => colored_text(self.line_views(), rows),
            },
        }
    }

    /// A frame of `height` lines of `width` characters with optional colours.
    pub fn new(width: usize, height: usize, lines: Vec<String>, colors: Option<Vec<Vec<Rgb>>>) -> (r:
        Result<RenderedFrame, RenderError>)
        ensures
            match r {
                Ok(f) => {
                    &&& grid_ok(width as nat, height as nat, string_views(lines@), f.color_views())
                    &&& f.width == width && f.height == height && f.lines@ == lines@
                    &&& f.colors == colors
                    &&& f.cached_text() is None
                },
                Err(e) => !grid_ok(
                    width as nat,
                    height as nat,
                    string_views(lines@),
                    match colors {
                        Some(rows) => Some(row_views(rows@)),
                        None => None,
                    },
                ) && e == new_error(width, height, string_views(lines@)),
            },
    {
        if width == 0 || height == 0 {
            return Err(RenderError::ZeroDimensions);
        }
        if lines.len() != height {
            return Err(RenderError::RowCount { rows: lines.len(), expected: height });
        }
        let mut y: usize = 0;
        while y < lines.len()
            invariant
                y <= lines.len() == height,
                width > 0 && height > 0,
                forall|k: int| 0 <= k < y ==> #[trigger] lines@[k]@.len() == width,
            decreases lines.len() - y,
        {
            if lines[y].as_str().unicode_len() != width {
                assert(string_views(lines@)[y as int] == lines@[y as int]@);
                assert(string_views(lines@)[y as int].len() != width);
                return Err(RenderError::LineWidth);
            }
            y = y + 1;
        }
        assert forall|k: int| 0 <= k < height implies #[trigger] string_views(lines@)[k].len() == width by {
            assert(string_views(lines@)[k] == lines@[k]@);
        }
        match &colors {
            Some(rows) => {
                if rows.len() != height {
                    assert(row_views(rows@).len() == rows@.len());
                    return Err(RenderError::ColorGrid);
                }
                let mut y: usize = 0;
                while y < rows.len()
                    invariant
                        y <= rows.len() == height,
                        width > 0 && height > 0,
                        colors is Some && colors.unwrap()@ == rows@,
                        lines@.len() == height,
                        forall|k: int| 0 <= k < height ==> #[trigger] string_views(lines@)[k].len() == width,
                        forall|k: int| 0 <= k < y ==> #[trigger] rows@[k]@.len() == width,
                    decreases rows.len() - y,
                {
                    if rows[y].len() != width {
                        assert(row_views(rows@)[y as int] == rows@[y as int]@);
                        assert(row_views(rows@)[y as int].len() != width);
                        return Err(RenderError::ColorGrid);
                    }
                    y = y + 1;
                }
                assert forall|k: int| 0 <= k < height implies #[trigger] row_views(rows@)[k].len() == width by {
                    assert(row_views(rows@)[k] == rows@[k]@);
                }
            },
            None => {},
        }
        Ok(RenderedFrame { width, height, lines, colors, terminal_text: None })
    }
}

/// The error `new` reports for a shape it refuses, checked in the order
/// dimensions, line count, line widths, colours.
pub open spec fn new_error(width: usize, height: usize, lines: Seq<Seq<char>>) -> RenderError {
    if width == 0 || height == 0 {
        RenderError::ZeroDimensions
    } else if lines.len() != height {
        RenderError::RowCount { rows: lines.len() as usize, expected: height }
    } else if exists|y: int| 0 <= y < lines.len() && #[trigger] lines[y].len() != width {
        RenderError::LineWidth
    } else {
        RenderError::ColorGrid
    }
}

} // verus!

verus! {

proof fn lemma_join_push(s: Seq<Seq<char>>, a: Seq<char>)
    ensures
        join_newline(s.push(a)) == if s.len() == 0 {
            a
        } else {
            join_newline(s) + seq!['\n'] + a
        },
{
    assert(s.push(a).drop_last() =~= s);
    if s.len() == 0 {
        assert(s.push(a)[0] == a);
    }
}

proof fn lemma_colored_row_step(line: Seq<char>, row: Seq<Rgb>, x: int)
    requires
        0 <= x < line.len(),
    ensures
        colored_row(line.take(x + 1), row) == colored_row(line.take(x), row) + sgr_rgb(
            row[x].r as nat,
            row[x].g as nat,
            row[x].b as nat,
        ) + seq![line[x]],
{
    assert(line.take(x + 1).drop_last() =~= line.take(x));
}

/// The lines joined with `\n` (`[String]::join("\n")`).
pub fn join_lines(v: &Vec<String>) -> (s: String)
    ensures
        s@ == join_newline(string_views(v@)),
{
    let mut s = String::new();
    let mut y: usize = 0;
    while y < v.len()
        invariant
            y <= v.len(),
            s@ == join_newline(string_views(v@).take(y as int)),
        decreases v.len() - y,
    {
        proof {
            assert(string_views(v@).take(y + 1) =~= string_views(v@).take(y as int).push(v@[y as int]@));
            lemma_join_push(string_views(v@).take(y as int), v@[y as int]@);
        }
        if y > 0 {
            push_char(&mut s, '\n');
        }
        s.append(v[y].as_str());
        y = y + 1;
    }
    assert(string_views(v@).take(y as int) =~= string_views(v@));
    s
}

/// Copies of the lines.
pub fn copy_lines(v: &Vec<String>) -> (w: Vec<String>)
    ensures
        w@ == v@,
{
    let mut w: Vec<String> = Vec::new();
    let mut i: usize = 0;
    while i < v.len()
        invariant
            i <= v.len(),
            w@ == v@.take(i as int),
        decreases v.len() - i,
    {
        w.push(v[i].clone());
        i = i + 1;
        assert(w@ =~= v@.take(i as int));
    }
    assert(v@.take(i as int) =~= v@);
    w
}

/// A copy of a row of colours.
pub fn copy_row(v: &Vec<Rgb>) -> (w: Vec<Rgb>)
    ensures
        w@ == v@,
{
    let mut w: Vec<Rgb> = Vec::new();
    let mut i: usize = 0;
    while i < v.len()
        invariant
            i <= v.len(),
            w@ == v@.take(i as int),
        decreases v.len() - i,
    {
        w.push(v[i]);
        i = i + 1;
        assert(w@ =~= v@.take(i as int));
    }
    assert(v@.take(i as int) =~= v@);
    w
}

/// A copy of a colour grid.
pub fn copy_grid(v: &Vec<Vec<Rgb>>) -> (w: Vec<Vec<Rgb>>)
    ensures
        row_views(w@) == row_views(v@),
{
    let mut w: Vec<Vec<Rgb>> = Vec::new();
    let mut i: usize = 0;
    while i < v.len()
        invariant
            i <= v.len(),
            row_views(w@) == row_views(v@).take(i as int),
        decreases v.len() - i,
    {
        let row = copy_row(&v[i]);
        let ghost old_w = w@;
        assert(row@ == row_views(v@)[i as int]);
        w.push(row);
        assert(w@ == old_w.push(row));
        assert(row_views(w@) =~= row_views(old_w).push(row@));
        i = i + 1;
        assert(row_views(w@) =~= row_views(v@).take(i as int));
    }
    assert(row_views(v@).take(i as int) =~= row_views(v@));
    w
}

/// A copy of an optional colour grid.
pub fn copy_colors(c: &Option<Vec<Vec<Rgb>>>) -> (d: Option<Vec<Vec<Rgb>>>)
    ensures
        match c {
            Some(rows) => d matches Some(copy) && row_views(copy@) == row_views(rows@),
            None => d is None,
        },
{
    match c {
        Some(rows) => Some(copy_grid(rows)),
        None => None,
    }
}

impl RenderedFrame {
    /// A frame with the same dimensions, lines, colours and cached text.
    pub fn duplicate(&self) -> (f: RenderedFrame)
        ensures
            f.width == self.width,
            f.height == self.height,
            f.lines@ == self.lines@,
            f.color_views() == self.color_views(),
            f.cached_text() == self.cached_text(),
    {
        let text = match &self.terminal_text {
            Some(t) => Some(t.clone()),
            None => None,
        };
        RenderedFrame {
            width: self.width,
            height: self.height,
            lines: copy_lines(&self.lines),
            colors: copy_colors(&self.colors),
            terminal_text: text,
        }
    }

    /// The frame, remembering `terminal_text` as its terminal output.
    pub fn with_terminal_text(self, terminal_text: String) -> (f: RenderedFrame)
        ensures
            f.width == self.width,
            f.height == self.height,
            f.lines == self.lines,
            f.colors == self.colors,
            f.cached_text() == Some(terminal_text@),
    {
        let mut f = self;
        f.terminal_text = Some(terminal_text);
        f
    }

    /// The uncoloured lines.
    pub fn plain_lines(&self) -> (v: Vec<String>)
        ensures
            v@ == self.lines@,
    {
        copy_lines(&self.lines)
    }

    /// The frame as terminal output: the cached text when there is one, else the
    /// lines joined with `\n`, each character after its 24-bit colour escape when
    /// the frame has colours, and a final reset.
    pub fn terminal_text(&self) -> (s: String)
        requires
            self.colors_cover_lines(),
        ensures
            s@ == self.text_of(),
    {
        if let Some(text) = &self.terminal_text {
            return text.clone();
        }
        let rows = match &self.colors {
            None => {
                return join_lines(&self.lines);
            },
            Some(rows) => rows,
        };
        let ghost lv = self.line_views();
        let ghost rv = row_views(rows@);
        let ghost f = |k: int| colored_row(lv[k], rv[k]);
        let mut out = String::new();
        let mut y: usize = 0;
        while y < self.lines.len()
            invariant
                y <= self.lines@.len(),
                lv == self.line_views(),
                rv == row_views(rows@),
                self.colors == Some(*rows),
                self.colors_cover_lines(),
                f == (|k: int| colored_row(lv[k], rv[k])),
                out@ == join_newline(Seq::new(y as nat, f)),
            decreases self.lines.len() - y,
        {
            let ghost before = out@;
            if y > 0 {
                push_char(&mut out, '\n');
            }
            let ghost start = out@;
            let line = crate::text::chars_of(self.lines[y].as_str());
            let row = &rows[y];
            let mut x: usize = 0;
            assert(lv[y as int] == line@);
            assert(rv[y as int] == row@);
            assert(line@.take(0) =~= Seq::<char>::empty());
            while x < line.len()
                invariant
                    x <= line.len() <= row@.len(),
                    out@ == start + colored_row(line@.take(x as int), row@),
                decreases line.len() - x,
            {
                let rgb = row[x];
                proof {
                    lemma_colored_row_step(line@, row@, x as int);
                }
                let prefix = ColorMode::TrueColor.ansi_prefix(rgb);
                out.append(prefix.as_str());
                push_char(&mut out, line[x]);
                x = x + 1;
                assert(out@ =~= start + colored_row(line@.take(x as int), row@));
            }
            proof {
                assert(line@.take(x as int) =~= line@);
                assert(Seq::new((y + 1) as nat, f) =~= Seq::new(y as nat, f).push(f(y as int)));
                lemma_join_push(Seq::new(y as nat, f), f(y as int));
                if y > 0 {
                    assert(start =~= before + seq!['\n']);
                }
                assert(out@ =~= join_newline(Seq::new((y + 1) as nat, f)));
            }
            y = y + 1;
        }
        out.append("\x1b[0m");
        assert(Seq::new(self.lines@.len(), f) =~= Seq::new(lv.len(), |k: int| colored_row(lv[k], rv[k])));
        out
    }
}

} // verus!

verus! {

fn same_lines(a: &Vec<String>, b: &Vec<String>) -> (r: bool)
    ensures
        r == (string_views(a@) == string_views(b@)),
{
    if a.len() != b.len() {
        assert(string_views(a@).len() != string_views(b@).len());
        return false;
    }
    let mut i: usize = 0;
    while i < a.len()
        invariant
            i <= a.len() == b.len(),
            forall|k: int| 0 <= k < i ==> #[trigger] a@[k]@ == b@[k]@,
        decreases a.len() - i,
    {
        if a[i] != b[i] {
            assert(string_views(a@)[i as int] != string_views(b@)[i as int]);
            return false;
        }
        i = i + 1;
    }
    assert(string_views(a@) =~= string_views(b@));
    true
}

fn same_row(a: &Vec<Rgb>, b: &Vec<Rgb>) -> (r: bool)
    ensures
        r == (a@ == b@),
{
    if a.len() != b.len() {
        return false;
    }
    let mut i: usize = 0;
    while i < a.len()
        invariant
            i <= a.len() == b.len(),
            forall|k: int| 0 <= k < i ==> a@[k] == b@[k],
        decreases a.len() - i,
    {
        if a[i] != b[i] {
            return false;
        }
        i = i + 1;
    }
    assert(a@ =~= b@);
    true
}

fn same_colors(a: &Option<Vec<Vec<Rgb>>>, b: &Option<Vec<Vec<Rgb>>>) -> (r: bool)
    ensures
        r == (match (a, b) {
            (Some(x), Some(y)) => row_views(x@) == row_views(y@),
            (None, None) => true,
            _ => false,
        }),
{
    match (a, b) {
        (Some(x), Some(y)) => {
            if x.len() != y.len() {
                assert(row_views(x@).len() != row_views(y@).len());
                return false;
            }
            let mut i: usize = 0;
            while i < x.len()
                invariant
                    i <= x.len() == y.len(),
                    a is Some && a.unwrap()@ == x@,
                    b is Some && b.unwrap()@ == y@,
                    forall|k: int| 0 <= k < i ==> #[trigger] x@[k]@ == y@[k]@,
                decreases x.len() - i,
            {
                if !same_row(&x[i], &y[i]) {
                    assert(row_views(x@)[i as int] != row_views(y@)[i as int]);
                    return false;
                }
                i = i + 1;
            }
            assert(row_views(x@) =~= row_views(y@));
            true
        },
        (None, None) => true,
        _ => false,
    }
}

impl PartialEq for RenderedFrame {
    fn eq(&self, other: &Self) -> (r: bool) {
        self.width == other.width && self.height == other.height && same_lines(
            &self.lines,
            &other.lines,
        ) && same_colors(&self.colors, &other.colors)
    }
}

impl vstd::std_specs::cmp::PartialEqSpecImpl for RenderedFrame {
    open spec fn obeys_eq_spec() -> bool {
        true
    }

    /// Frames are equal when their dimensions, lines and colours are; the cached
    /// terminal text does not count.
    open spec fn eq_spec(&self, other: &Self) -> bool {
        &&& self.width == other.width
        &&& self.height == other.height
        &&& self.line_views() == other.line_views()
        &&& self.color_views() == other.color_views()
    }
}

impl Eq for RenderedFrame {
}

impl Clone for RenderedFrame {
    fn clone(&self) -> (f: Self)
        ensures
            f.width == self.width,
            f.height == self.height,
            f.lines@ == self.lines@,
            f.color_views() == self.color_views(),
            f.cached_text() == self.cached_text(),
    {
        self.duplicate()
    }
}

} // verus!

verus! {

/// What a renderer is asked for.
pub struct RenderConfig {
    /// Columns of characters (0 counts as 1).
    pub cols: usize,
    /// Rows of characters (0 counts as 1).
    pub rows: usize,
    /// Characters from darkest to brightest.
    pub ramp: String,
    pub color_mode: ColorMode,
    /// The tone curve: the value each channel value takes after contrast and
    /// brightness, 256 entries.
    pub tone: Vec<u8>,
    /// Dark becomes bright and bright dark.
    pub invert: bool,
    pub mode: RenderMode,
}

/// `n`, or 1 when `n` is 0.
pub open spec fn at_least_one(n: nat) -> nat {
    if n == 0 {
        1
    } else {
        n
    }
}

/// The source coordinate that output coordinate `i` of `out_n` samples from
/// `in_n` source coordinates: `i * (in_n - 1) / max(out_n - 1, 1)`.
pub open spec fn sample(i: nat, out_n: nat, in_n: nat) -> nat {
    let d: nat = if out_n > 1 {
        (out_n - 1) as nat
    } else {
        1
    };
    (i * ((in_n - 1) as nat)) / d
}

/// A colour through the tone curve.
pub open spec fn toned(tone: Seq<u8>, c: Rgb) -> Rgb {
    Rgb { r: tone[c.r as int], g: tone[c.g as int], b: tone[c.b as int] }
}

/// The luma used to pick a character, inverted when asked.
pub open spec fn shade(c: Rgb, invert: bool) -> u8 {
    if invert {
        (255 - luma(c)) as u8
    } else {
        luma(c)
    }
}

/// The ramp position of shade `g` on a ramp whose last index is `max`:
/// `round(g * max / 255)`.
pub open spec fn ramp_index(g: u8, max: nat) -> nat {
    ((2 * g * max + 255) / 510) as nat
}

/// The character and the (toned) colour of ASCII cell `(x, y)`.
pub open spec fn ascii_cell(f: Frame, c: RenderConfig, ramp: Seq<char>, x: nat, y: nat) -> (char, Rgb) {
    let rows = at_least_one(c.rows as nat);
    let cols = at_least_one(c.cols as nat);
    let sy = sample(y, rows, f.height as nat);
    let sx = sample(x, cols, f.width as nat);
    let a = toned(c.tone@, at(f.pixels@, f.width as nat, sx as int, sy as int));
    let max = (ramp.len() - 1) as nat;
    (ramp[ramp_index(shade(a, c.invert), max) as int], a)
}

/// The bit of dot `k` (row `k / 2`, column `k % 2`) of a Braille cell.
pub open spec fn dot_bit(k: nat) -> nat {
    if k == 0 {
        0x01
    } else if k == 1 {
        0x08
    } else if k == 2 {
        0x02
    } else if k == 3 {
        0x10
    } else if k == 4 {
        0x04
    } else if k == 5 {
        0x20
    } else if k == 6 {
        0x40
    } else {
        0x80
    }
}

/// The toned colour under dot `k` of Braille cell `(col, row)`.
pub open spec fn dot_color(f: Frame, c: RenderConfig, col: nat, row: nat, k: nat) -> Rgb {
    let sub_rows = at_least_one(c.rows as nat) * 4;
    let sub_cols = at_least_one(c.cols as nat) * 2;
    let sy = sample(row * 4 + k / 2, sub_rows, f.height as nat);
    let sx = sample(col * 2 + k % 2, sub_cols, f.width as nat);
    toned(c.tone@, at(f.pixels@, f.width as nat, sx as int, sy as int))
}

/// The dot mask and the channel sums over the first `n` dots of a Braille cell;
/// a dot is raised when its shade is at least 128.
pub open spec fn dots_upto(f: Frame, c: RenderConfig, col: nat, row: nat, n: nat) -> (nat, nat, nat, nat)
    decreases n,
{
    if n == 0 {
        (0, 0, 0, 0)
    } else {
        let k = (n - 1) as nat;
        let (m, r, g, b) = dots_upto(f, c, col, row, k);
        let d = dot_color(f, c, col, row, k);
        (
            m + if shade(d, c.invert) >= 128 {
                dot_bit(k)
            } else {
                0
            },
            r + d.r as nat,
            g + d.g as nat,
            b + d.b as nat,
        )
    }
}

/// The character and the mean (toned) colour of Braille cell `(col, row)`.
pub open spec fn braille_cell(f: Frame, c: RenderConfig, col: nat, row: nat) -> (char, Rgb) {
    let (m, r, g, b) = dots_upto(f, c, col, row, 8);
    (((0x2800 + m) as u32) as char, Rgb { r: (r / 8) as u8, g: (g / 8) as u8, b: (b / 8) as u8 })
}

/// The cells a render produces, row by row.
pub open spec fn render_cells(f: Frame, c: RenderConfig) -> Seq<Seq<(char, Rgb)>> {
    let rows = at_least_one(c.rows as nat);
    let cols = at_least_one(c.cols as nat);
    Seq::new(
        rows,
        |y: int|
            Seq::new(
                cols,
                |x: int|
                    match c.mode {
                        RenderMode::Ascii => ascii_cell(f, c, c.ramp@, x as nat, y as nat),
                        RenderMode::Braille => braille_cell(f, c, x as nat, y as nat),
                    },
            ),
    )
}

/// The characters of a grid of cells.
pub open spec fn grid_lines(cells: Seq<Seq<(char, Rgb)>>) -> Seq<Seq<char>> {
    cells.map_values(|row: Seq<(char, Rgb)>| row.map_values(|cell: (char, Rgb)| cell.0))
}

/// The colours a mode shows for a grid of cells; none when colour is off.
pub open spec fn grid_colors(cells: Seq<Seq<(char, Rgb)>>, mode: ColorMode) -> Option<Seq<Seq<Rgb>>> {
    if mode == ColorMode::Off {
        None
    } else {
        Some(
            cells.map_values(
                |row: Seq<(char, Rgb)>| row.map_values(|cell: (char, Rgb)| display_rgb(mode, cell.1)),
            ),
        )
    }
}

/// A row of cells as terminal text: each character after its colour escape.
pub open spec fn row_text(row: Seq<(char, Rgb)>, mode: ColorMode) -> Seq<char> {
    row.map_values(|cell: (char, Rgb)| ansi_prefix_of(mode, cell.1) + seq![cell.0]).flatten_alt()
}

/// A grid of cells as terminal text: rows joined with `\n`; with colour on,
/// characters after their escapes and a final reset.
pub open spec fn grid_text(cells: Seq<Seq<(char, Rgb)>>, mode: ColorMode) -> Seq<char> {
    if mode == ColorMode::Off {
        join_newline(grid_lines(cells))
    } else {
        join_newline(cells.map_values(|row: Seq<(char, Rgb)>| row_text(row, mode))) + "\x1b[0m"@
    }
}

} // verus!

verus! {

/// The character for every brightness `0..=255`: value `v` takes ramp position
/// `v * (len - 1) / 255`.
pub fn build_lut(ramp: &str) -> (lut: Vec<char>)
    requires
        0 < ramp@.len(),
        ramp@.len() * 255 <= usize::MAX,
    ensures
        lut@.len() == 256,
        forall|v: int| 0 <= v < 256 ==> #[trigger] lut@[v] == ramp@[(v * (ramp@.len() - 1)) / 255],
{
    let chars = crate::text::chars_of(ramp);
    let last = chars.len() - 1;
    let mut lut: Vec<char> = Vec::new();
    let mut value: usize = 0;
    while value <= 255
        invariant
            chars@ == ramp@,
            last == chars@.len() - 1,
            last * 255 <= usize::MAX,
            value <= 256,
            lut@.len() == value,
            forall|v: int| 0 <= v < value ==> #[trigger] lut@[v] == ramp@[(v * (ramp@.len() - 1)) / 255],
        decreases 256 - value,
    {
        assert((value * last) / 255 <= last) by (nonlinear_arith)
            requires value <= 255;
        assert(value * last <= 255 * last) by (nonlinear_arith)
            requires value <= 255;
        let index = (value * last) / 255;
        lut.push(chars[index]);
        value = value + 1;
    }
    lut
}

fn sample_exec(i: usize, out_n: usize, in_n: usize) -> (s: usize)
    requires
        in_n > 0,
        i * (in_n - 1) <= usize::MAX,
    ensures
        s == sample(i as nat, out_n as nat, in_n as nat),
        i < out_n ==> s < in_n,
{
    let d: usize = if out_n > 1 { out_n - 1 } else { 1 };
    assert(i < out_n ==> i * (in_n - 1) / (d as int) <= in_n - 1) by (nonlinear_arith)
        requires d == (if out_n > 1 { out_n - 1 } else { 1 }), in_n > 0;
    (i * (in_n - 1)) / d
}

fn toned_exec(tone: &Vec<u8>, c: Rgb) -> (t: Rgb)
    requires
        tone@.len() == 256,
    ensures
        t == toned(tone@, c),
{
    Rgb { r: tone[c.r as usize], g: tone[c.g as usize], b: tone[c.b as usize] }
}

fn shade_exec(c: Rgb, invert: bool) -> (g: u8)
    ensures
        g == shade(c, invert),
{
    let l = c.luminance();
    if invert {
        255 - l
    } else {
        l
    }
}

/// The render's shape: a tone table, a ramp for ASCII, and sample coordinates
/// within machine integers.
pub open spec fn render_ok(f: Frame, c: RenderConfig) -> bool {
    let rows = at_least_one(c.rows as nat);
    let cols = at_least_one(c.cols as nat);
    &&& f.well_formed()
    &&& c.tone@.len() == 256
    &&& c.mode == RenderMode::Ascii ==> c.ramp@.len() > 0
    &&& c.ramp@.len() * 510 <= usize::MAX
    &&& rows * 4 * f.height <= usize::MAX
    &&& cols * 2 * f.width <= usize::MAX
}

} // verus!

verus! {

/// The views of a grid of cells.
pub open spec fn cell_views(cells: Seq<Vec<(char, Rgb)>>) -> Seq<Seq<(char, Rgb)>> {
    cells.map_values(|row: Vec<(char, Rgb)>| row@)
}

proof fn lemma_cell_index(x: nat, y: nat, w: nat, h: nat)
    requires
        x < w,
        y < h,
    ensures
        y * w + x < w * h,
{
    assert(y * w + x < w * h) by (nonlinear_arith)
        requires x < w, y < h;
}

proof fn lemma_sample_fits(i: nat, out_n: nat, in_n: nat)
    requires
        i < out_n,
        out_n * in_n <= usize::MAX,
        in_n > 0,
    ensures
        i * ((in_n - 1) as nat) <= usize::MAX,
{
    assert(i * ((in_n - 1) as nat) <= out_n * in_n) by (nonlinear_arith)
        requires i < out_n, in_n > 0;
}

fn ascii_cell_exec(f: &Frame, c: &RenderConfig, ramp: &Vec<char>, x: usize, y: usize) -> (cell: (
    char,
    Rgb,
))
    requires
        render_ok(*f, *c),
        ramp@ == c.ramp@,
        ramp@.len() > 0,
        x < at_least_one(c.cols as nat),
        y < at_least_one(c.rows as nat),
    ensures
        cell == ascii_cell(*f, *c, c.ramp@, x as nat, y as nat),
{
    let rows: usize = if c.rows == 0 { 1 } else { c.rows };
    let cols: usize = if c.cols == 0 { 1 } else { c.cols };
    proof {
        assert(rows * f.height <= rows * 4 * f.height) by (nonlinear_arith);
        assert(cols * f.width <= cols * 2 * f.width) by (nonlinear_arith);
        lemma_sample_fits(y as nat, rows as nat, f.height as nat);
        lemma_sample_fits(x as nat, cols as nat, f.width as nat);
    }
    let sy = sample_exec(y, rows, f.height);
    let sx = sample_exec(x, cols, f.width);
    proof {
        lemma_cell_index(sx as nat, sy as nat, f.width as nat, f.height as nat);
    }
    let a = toned_exec(&c.tone, f.get(sx, sy));
    let g = shade_exec(a, c.invert);
    let max = ramp.len() - 1;
    assert(2 * g * max + 255 <= 510 * ramp@.len()) by (nonlinear_arith)
        requires g <= 255, max < ramp@.len();
    let idx = (2 * (g as usize) * max + 255) / 510;
    assert(idx <= max) by (nonlinear_arith)
        requires idx == (2 * g * max + 255) / 510, g <= 255;
    (ramp[idx], a)
}

/// The sum of the bits of the first `k` dots.
spec fn raised_limit(k: nat) -> nat {
    if k == 0 {
        0
    } else if k == 1 {
        1
    } else if k == 2 {
        9
    } else if k == 3 {
        11
    } else if k == 4 {
        27
    } else if k == 5 {
        31
    } else if k == 6 {
        63
    } else if k == 7 {
        127
    } else {
        255
    }
}

fn braille_cell_exec(f: &Frame, c: &RenderConfig, col: usize, row: usize) -> (cell: (char, Rgb))
    requires
        render_ok(*f, *c),
        col < at_least_one(c.cols as nat),
        row < at_least_one(c.rows as nat),
    ensures
        cell == braille_cell(*f, *c, col as nat, row as nat),
{
    let rows: usize = if c.rows == 0 { 1 } else { c.rows };
    let cols: usize = if c.cols == 0 { 1 } else { c.cols };
    assert(rows * 4 <= rows * 4 * f.height) by (nonlinear_arith)
        requires f.height > 0;
    assert(cols * 2 <= cols * 2 * f.width) by (nonlinear_arith)
        requires f.width > 0;
    let sub_rows = rows * 4;
    let sub_cols = cols * 2;
    let mut mask: u32 = 0;
    let mut r_sum: u32 = 0;
    let mut g_sum: u32 = 0;
    let mut b_sum: u32 = 0;
    let mut k: usize = 0;
    while k < 8
        invariant
            render_ok(*f, *c),
            rows == at_least_one(c.rows as nat),
            cols == at_least_one(c.cols as nat),
            sub_rows == rows * 4,
            sub_cols == cols * 2,
            col < cols,
            row < rows,
            k <= 8,
            dots_upto(*f, *c, col as nat, row as nat, k as nat) == (
                mask as nat,
                r_sum as nat,
                g_sum as nat,
                b_sum as nat,
            ),
            r_sum <= 255 * k,
            g_sum <= 255 * k,
            b_sum <= 255 * k,
            mask <= raised_limit(k as nat),
        decreases 8 - k,
    {
        let dy = k / 2;
        let dx = k % 2;
        assert(row * 4 + dy < sub_rows);
        assert(col * 2 + dx < sub_cols);
        proof {
            lemma_sample_fits((row * 4 + dy) as nat, sub_rows as nat, f.height as nat);
            lemma_sample_fits((col * 2 + dx) as nat, sub_cols as nat, f.width as nat);
        }
        let sy = sample_exec(row * 4 + dy, sub_rows, f.height);
        let sx = sample_exec(col * 2 + dx, sub_cols, f.width);
        proof {
            lemma_cell_index(sx as nat, sy as nat, f.width as nat, f.height as nat);
        }
        let d = toned_exec(&c.tone, f.get(sx, sy));
        let bit: u32 = if k == 0 {
            0x01
        } else if k == 1 {
            0x08
        } else if k == 2 {
            0x02
        } else if k == 3 {
            0x10
        } else if k == 4 {
            0x04
        } else if k == 5 {
            0x20
        } else if k == 6 {
            0x40
        } else {
            0x80
        };
        if shade_exec(d, c.invert) >= 128 {
            mask = mask + bit;
        }
        r_sum = r_sum + d.r as u32;
        g_sum = g_sum + d.g as u32;
        b_sum = b_sum + d.b as u32;
        k = k + 1;
    }
    let ch = match crate::text::char_from_u32(0x2800 + mask) {
        Some(ch) => ch,
        None => ' ',
    };
    proof {
        vstd::utf8::char_u32_cast(ch, (0x2800 + mask) as u32);
    }
    (ch, Rgb { r: (r_sum / 8) as u8, g: (g_sum / 8) as u8, b: (b_sum / 8) as u8 })
}

} // verus!

verus! {

fn render_grid(f: &Frame, c: &RenderConfig) -> (cells: Vec<Vec<(char, Rgb)>>)
    requires
        render_ok(*f, *c),
    ensures
        cell_views(cells@) == render_cells(*f, *c),
{
    let rows: usize = if c.rows == 0 { 1 } else { c.rows };
    let cols: usize = if c.cols == 0 { 1 } else { c.cols };
    let ramp = crate::text::chars_of(c.ramp.as_str());
    let ghost target = render_cells(*f, *c);
    let mut cells: Vec<Vec<(char, Rgb)>> = Vec::new();
    let mut y: usize = 0;
    while y < rows
        invariant
            render_ok(*f, *c),
            rows == at_least_one(c.rows as nat),
            cols == at_least_one(c.cols as nat),
            ramp@ == c.ramp@,
            target == render_cells(*f, *c),
            y <= rows,
            cells@.len() == y,
            forall|k: int| 0 <= k < y ==> #[trigger] cells@[k]@ == target[k],
        decreases rows - y,
    {
        let mut row: Vec<(char, Rgb)> = Vec::new();
        let mut x: usize = 0;
        while x < cols
            invariant
                render_ok(*f, *c),
                rows == at_least_one(c.rows as nat),
                cols == at_least_one(c.cols as nat),
                ramp@ == c.ramp@,
                target == render_cells(*f, *c),
                y < rows,
                x <= cols,
                row@.len() == x,
                forall|k: int| 0 <= k < x ==> #[trigger] row@[k] == target[y as int][k],
            decreases cols - x,
        {
            let cell = match c.mode {
                RenderMode::Ascii => ascii_cell_exec(f, c, &ramp, x, y),
                RenderMode::Braille => braille_cell_exec(f, c, x, y),
            };
            row.push(cell);
            x = x + 1;
        }
        assert(row@ =~= target[y as int]);
        cells.push(row);
        y = y + 1;
    }
    assert(cell_views(cells@) =~= target);
    cells
}

proof fn lemma_row_text_step(row: Seq<(char, Rgb)>, mode: ColorMode, x: int)
    requires
        0 <= x < row.len(),
    ensures
        row_text(row.take(x + 1), mode) == row_text(row.take(x), mode) + ansi_prefix_of(mode, row[x].1)
            + seq![row[x].0],
{
    let parts = row.map_values(|cell: (char, Rgb)| ansi_prefix_of(mode, cell.1) + seq![cell.0]);
    assert(row.take(x + 1).map_values(|cell: (char, Rgb)| ansi_prefix_of(mode, cell.1) + seq![cell.0]).drop_last()
        =~= row.take(x).map_values(|cell: (char, Rgb)| ansi_prefix_of(mode, cell.1) + seq![cell.0]));
}

/// The frame of a grid of cells: its characters, its colours in `mode`, and
/// its terminal text.
fn assemble(cells: &Vec<Vec<(char, Rgb)>>, cols: usize, rows: usize, mode: ColorMode) -> (f:
    RenderedFrame)
    requires
        cells@.len() == rows > 0,
        cols > 0,
        forall|y: int| 0 <= y < rows ==> #[trigger] cells@[y]@.len() == cols,
    ensures
        f.width == cols,
        f.height == rows,
        f.well_formed(),
        f.line_views() == grid_lines(cell_views(cells@)),
        f.color_views() == grid_colors(cell_views(cells@), mode),
        f.cached_text() == Some(grid_text(cell_views(cells@), mode)),
{
    let ghost cv = cell_views(cells@);
    let ghost gl = grid_lines(cv);
    let ghost texts = if mode == ColorMode::Off {
        gl
    } else {
        cv.map_values(|row: Seq<(char, Rgb)>| row_text(row, mode))
    };
    let ghost colored = cv.map_values(
        |row: Seq<(char, Rgb)>| row.map_values(|cell: (char, Rgb)| display_rgb(mode, cell.1)),
    );
    let mut lines: Vec<String> = Vec::new();
    let mut color_rows: Vec<Vec<Rgb>> = Vec::new();
    let mut terminal = String::new();
    let mut y: usize = 0;
    while y < rows
        invariant
            cells@.len() == rows > 0,
            cols > 0,
            forall|k: int| 0 <= k < rows ==> #[trigger] cells@[k]@.len() == cols,
            cv == cell_views(cells@),
            gl == grid_lines(cv),
            texts == if mode == ColorMode::Off {
                gl
            } else {
                cv.map_values(|row: Seq<(char, Rgb)>| row_text(row, mode))
            },
            colored == cv.map_values(
                |row: Seq<(char, Rgb)>| row.map_values(|cell: (char, Rgb)| display_rgb(mode, cell.1)),
            ),
            y <= rows,
            string_views(lines@) == gl.take(y as int),
            row_views(color_rows@) == colored.take(y as int),
            terminal@ == join_newline(texts.take(y as int)),
        decreases rows - y,
    {
        let ghost before = terminal@;
        if y > 0 {
            crate::text::push_char(&mut terminal, '\n');
        }
        let ghost start = terminal@;
        let row = &cells[y];
        assert(row@ == cv[y as int]);
        let mut line = String::new();
        let mut color_row: Vec<Rgb> = Vec::new();
        let mut x: usize = 0;
        assert(row@.take(0) =~= Seq::<(char, Rgb)>::empty());
        assert(row_text(row@.take(0), mode) =~= Seq::<char>::empty());
        while x < cols
            invariant
                row@.len() == cols,
                x <= cols,
                line@ == row@.take(x as int).map_values(|cell: (char, Rgb)| cell.0),
                color_row@ == row@.take(x as int).map_values(|cell: (char, Rgb)| display_rgb(mode, cell.1)),
                terminal@ == start + if mode == ColorMode::Off {
                    row@.take(x as int).map_values(|cell: (char, Rgb)| cell.0)
                } else {
                    row_text(row@.take(x as int), mode)
                },
            decreases cols - x,
        {
            let (ch, rgb) = row[x];
            proof {
                lemma_row_text_step(row@, mode, x as int);
            }
            crate::text::push_char(&mut line, ch);
            color_row.push(mode.effective_rgb(rgb));
            if mode != ColorMode::Off {
                let prefix = mode.ansi_prefix(rgb);
                terminal.append(prefix.as_str());
            }
            crate::text::push_char(&mut terminal, ch);
            x = x + 1;
            assert(row@.take(x as int).map_values(|cell: (char, Rgb)| cell.0) =~= row@.take(x - 1).map_values(
                |cell: (char, Rgb)| cell.0,
            ).push(ch));
            assert(row@.take(x as int).map_values(|cell: (char, Rgb)| display_rgb(mode, cell.1))
                =~= row@.take(x - 1).map_values(|cell: (char, Rgb)| display_rgb(mode, cell.1)).push(
                display_rgb(mode, rgb),
            ));
            assert(line@ =~= row@.take(x as int).map_values(|cell: (char, Rgb)| cell.0));
            assert(color_row@ =~= row@.take(x as int).map_values(
                |cell: (char, Rgb)| display_rgb(mode, cell.1),
            ));
            assert(terminal@ =~= start + if mode == ColorMode::Off {
                row@.take(x as int).map_values(|cell: (char, Rgb)| cell.0)
            } else {
                row_text(row@.take(x as int), mode)
            });
        }
        assert(row@.take(x as int) =~= row@);
        proof {
            assert(texts.take(y + 1) =~= texts.take(y as int).push(texts[y as int]));
            lemma_join_push(texts.take(y as int), texts[y as int]);
            if y > 0 {
                assert(start =~= before + seq!['\n']);
            }
            assert(texts[y as int] == if mode == ColorMode::Off {
                row@.map_values(|cell: (char, Rgb)| cell.0)
            } else {
                row_text(row@, mode)
            });
            assert(terminal@ =~= join_newline(texts.take(y + 1)));
        }
        let ghost old_lines = lines@;
        let ghost old_colors = color_rows@;
        lines.push(line);
        color_rows.push(color_row);
        y = y + 1;
        assert(string_views(lines@) =~= gl.take(y as int)) by {
            assert(string_views(lines@) =~= string_views(old_lines).push(gl[y - 1]));
        }
        assert(row_views(color_rows@) =~= colored.take(y as int)) by {
            assert(row_views(color_rows@) =~= row_views(old_colors).push(colored[y - 1]));
        }
    }
    assert(gl.take(rows as int) =~= gl);
    assert(colored.take(rows as int) =~= colored);
    assert(texts.take(rows as int) =~= texts);
    let colors = if mode == ColorMode::Off {
        None
    } else {
        Some(color_rows)
    };
    if mode != ColorMode::Off {
        terminal.append("\x1b[0m");
    }
    let f = RenderedFrame { width: cols, height: rows, lines, colors, terminal_text: Some(terminal) };
    assert forall|k: int| 0 <= k < rows implies #[trigger] f.line_views()[k].len() == cols by {
        assert(gl[k] == cv[k].map_values(|cell: (char, Rgb)| cell.0));
    }
    if mode != ColorMode::Off {
        assert forall|k: int| 0 <= k < rows implies #[trigger] f.color_views()->Some_0[k].len() == cols by {
            assert(colored[k] == cv[k].map_values(|cell: (char, Rgb)| display_rgb(mode, cell.1)));
        }
    }
    f
}

/// Renders `frame` as `config` asks: each cell samples the frame at evenly
/// spaced points, passes colours through the tone curve, and becomes a ramp
/// character by its shade (ASCII) or a Braille pattern of the eight dots whose
/// shade is at least 128 coloured by their mean (Braille). The result is
/// `max(cols, 1)` by `max(rows, 1)` and remembers its terminal text.
pub fn render_frame(frame: &Frame, config: &RenderConfig) -> (f: RenderedFrame)
    requires
        render_ok(*frame, *config),
    ensures
        f.width == at_least_one(config.cols as nat),
        f.height == at_least_one(config.rows as nat),
        f.well_formed(),
        f.line_views() == grid_lines(render_cells(*frame, *config)),
        f.color_views() == grid_colors(render_cells(*frame, *config), config.color_mode),
        f.cached_text() == Some(grid_text(render_cells(*frame, *config), config.color_mode)),
{
    let rows: usize = if config.rows == 0 { 1 } else { config.rows };
    let cols: usize = if config.cols == 0 { 1 } else { config.cols };
    let cells = render_grid(frame, config);
    proof {
        assert(cell_views(cells@).len() == cells@.len());
        assert(render_cells(*frame, *config).len() == rows);
        assert forall|y: int| 0 <= y < rows implies #[trigger] cells@[y]@.len() == cols by {
            assert(cell_views(cells@)[y] == cells@[y]@);
        }
    }
    assemble(&cells, cols, rows, config.color_mode)
}

} // verus!

verus! {

/// The long character ramp, darkest first.
pub const RAMP_LONG: &'static str = " .'`^\",:;Il!i><~+_-?][}{1)(|/tfjrxnuvczXYUJCLQ0OZmwqpdbkhao*#MW&8%B@$";

/// The short character ramp, darkest first.
pub const RAMP_SHORT: &'static str = " .:-=+*#%@";

/// Terminal rows above the image (the status bar).
pub const TOP_BAR_LINES: u16 = 1;

/// Terminal rows below the image (the shortcut bar).
pub const BOTTOM_BAR_LINES: u16 = 1;

} // verus!

verus! {

/// The position in a ramp of `n` characters that `build_lut` gives to value
/// `v`.
pub open spec fn lut_index(v: int, n: nat) -> int {
    (v * (n - 1)) / 255
}

/// The lookup table sends the darkest value to the first character and the
/// brightest to the last, stays within the ramp, and never sends a brighter
/// value to an earlier character.
pub proof fn lemma_lut_order(n: nat, v: int, w: int)
    requires
        n > 0,
        0 <= v <= w <= 255,
    ensures
        lut_index(0, n) == 0,
        lut_index(255, n) == n - 1,
        0 <= lut_index(v, n) <= lut_index(w, n) < n,
{
    let m = (n - 1) as int;
    assert(v * m <= w * m) by (nonlinear_arith)
        requires
            0 <= v <= w,
            m >= 0,
    ;
    assert(0 <= v * m) by (nonlinear_arith)
        requires
            0 <= v,
            m >= 0,
    ;
    vstd::arithmetic::div_mod::lemma_div_is_ordered(v * m, w * m, 255);
    assert(w * m <= 255 * m) by (nonlinear_arith)
        requires
            w <= 255,
            m >= 0,
    ;
    vstd::arithmetic::div_mod::lemma_div_is_ordered(w * m, 255 * m, 255);
    assert((255 * m) / 255 == m) by (nonlinear_arith);
    vstd::arithmetic::div_mod::lemma_div_pos_is_pos(v * m, 255);
}

/// Unicode's number (1 to 8) of the dot in sub-row `dy` and sub-column `dx` of
/// a Braille cell: dots 1, 2 and 3 run down the left column, 4, 5 and 6 down
/// the right one, and dots 7 and 8 sit below them, left and right.
pub open spec fn braille_dot_number(dy: nat, dx: nat) -> nat {
    if dy < 3 {
        1 + dy + 3 * dx
    } else {
        7 + dx
    }
}

/// The sample in sub-row `dy`, sub-column `dx` of Braille cell `(col, row)` is
/// bright enough (shade at least 128) to raise its dot.
pub open spec fn dot_raised(f: Frame, c: RenderConfig, col: nat, row: nat, dy: nat, dx: nat) -> bool {
    shade(dot_color(f, c, col, row, dy * 2 + dx), c.invert) >= 128
}

proof fn lemma_mask_bits(
    b0: bool,
    b1: bool,
    b2: bool,
    b3: bool,
    b4: bool,
    b5: bool,
    b6: bool,
    b7: bool,
    m: u32,
) by (bit_vector)
    requires
        m == (if b0 { 1u32 } else { 0u32 }) + (if b1 { 8u32 } else { 0u32 }) + (if b2 { 2u32 } else {
            0u32
        }) + (if b3 { 16u32 } else { 0u32 }) + (if b4 { 4u32 } else { 0u32 }) + (if b5 {
            32u32
        } else {
            0u32
        }) + (if b6 { 64u32 } else { 0u32 }) + (if b7 { 128u32 } else { 0u32 }),
    ensures
        m < 256,
        ((m >> 0u32) & 1 == 1) == b0,
        ((m >> 3u32) & 1 == 1) == b1,
        ((m >> 1u32) & 1 == 1) == b2,
        ((m >> 4u32) & 1 == 1) == b3,
        ((m >> 2u32) & 1 == 1) == b4,
        ((m >> 5u32) & 1 == 1) == b5,
        ((m >> 6u32) & 1 == 1) == b6,
        ((m >> 7u32) & 1 == 1) == b7,
{
}

/// The dot mask of a Braille cell, dot by dot.
proof fn lemma_dot_mask(f: Frame, c: RenderConfig, col: nat, row: nat)
    ensures
        dots_upto(f, c, col, row, 8).0 == (if dot_raised(f, c, col, row, 0, 0) { 1nat } else { 0nat })
            + (if dot_raised(f, c, col, row, 0, 1) { 8nat } else { 0nat }) + (if dot_raised(
            f,
            c,
            col,
            row,
            1,
            0,
        ) { 2nat } else { 0nat }) + (if dot_raised(f, c, col, row, 1, 1) { 16nat } else { 0nat })
            + (if dot_raised(f, c, col, row, 2, 0) { 4nat } else { 0nat }) + (if dot_raised(
            f,
            c,
            col,
            row,
            2,
            1,
        ) { 32nat } else { 0nat }) + (if dot_raised(f, c, col, row, 3, 0) { 64nat } else { 0nat })
            + (if dot_raised(f, c, col, row, 3, 1) { 128nat } else { 0nat }),
{
    assert(dots_upto(f, c, col, row, 1).0 == dots_upto(f, c, col, row, 0).0 + if dot_raised(f, c, col, row, 0, 0) { 1nat } else { 0nat });
    assert(dots_upto(f, c, col, row, 2).0 == dots_upto(f, c, col, row, 1).0 + if dot_raised(f, c, col, row, 0, 1) { 8nat } else { 0nat });
    assert(dots_upto(f, c, col, row, 3).0 == dots_upto(f, c, col, row, 2).0 + if dot_raised(f, c, col, row, 1, 0) { 2nat } else { 0nat });
    assert(dots_upto(f, c, col, row, 4).0 == dots_upto(f, c, col, row, 3).0 + if dot_raised(f, c, col, row, 1, 1) { 16nat } else { 0nat });
    assert(dots_upto(f, c, col, row, 5).0 == dots_upto(f, c, col, row, 4).0 + if dot_raised(f, c, col, row, 2, 0) { 4nat } else { 0nat });
    assert(dots_upto(f, c, col, row, 6).0 == dots_upto(f, c, col, row, 5).0 + if dot_raised(f, c, col, row, 2, 1) { 32nat } else { 0nat });
    assert(dots_upto(f, c, col, row, 7).0 == dots_upto(f, c, col, row, 6).0 + if dot_raised(f, c, col, row, 3, 0) { 64nat } else { 0nat });
    assert(dots_upto(f, c, col, row, 8).0 == dots_upto(f, c, col, row, 7).0 + if dot_raised(f, c, col, row, 3, 1) { 128nat } else { 0nat });
}

/// A Braille cell is a character of the Braille Patterns block, U+2800 plus a
/// bit per dot, and dot number `d` (bit `d - 1`) is raised exactly when the
/// sample under it is bright: for instance the top-left sample alone gives
/// U+2801 and the one below it alone gives U+2802.
pub proof fn lemma_braille_dots(f: Frame, c: RenderConfig, col: nat, row: nat, dy: nat, dx: nat)
    requires
        dy < 4,
        dx < 2,
    ensures
        0x2800 <= (braille_cell(f, c, col, row).0 as u32) <= 0x28ff,
        (((((braille_cell(f, c, col, row).0 as u32) - 0x2800) as u32) >> ((braille_dot_number(dy, dx)
            - 1) as u32)) & 1 == 1) == dot_raised(f, c, col, row, dy, dx),
{
    lemma_dot_mask(f, c, col, row);
    let m = dots_upto(f, c, col, row, 8).0;
    let mu = m as u32;
    lemma_mask_bits(
        dot_raised(f, c, col, row, 0, 0),
        dot_raised(f, c, col, row, 0, 1),
        dot_raised(f, c, col, row, 1, 0),
        dot_raised(f, c, col, row, 1, 1),
        dot_raised(f, c, col, row, 2, 0),
        dot_raised(f, c, col, row, 2, 1),
        dot_raised(f, c, col, row, 3, 0),
        dot_raised(f, c, col, row, 3, 1),
        mu,
    );
    let ch = braille_cell(f, c, col, row).0;
    assert(ch as u32 == 0x2800 + m);
    assert((((ch as u32) - 0x2800) as u32) == mu);
}

} // verus!
