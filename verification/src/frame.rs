//! Camera frames: a grid of colours in row-major order.

use vstd::prelude::*;

use crate::color::Rgb;

verus! {

/// A camera frame.
#[derive(Clone, Debug, PartialEq, Eq)]
pub struct Frame {
    pub width: usize,
    pub height: usize,
    pub pixels: Vec<Rgb>,
}

/// Why a frame was refused.
#[derive(Clone, Copy, Debug, PartialEq, Eq, Structural)]
pub enum FrameError {
    /// The width or the height is zero.
    ZeroDimensions,
    /// The pixel count is not `width * height`.
    PixelCount { actual: usize, expected: usize },
    /// An RGB24 buffer whose length is not `3 * width * height`.
    Rgb24Length { actual: usize, expected: usize },
}

/// The pixel at column `x`, row `y` of a `width`-wide grid.
pub open spec fn at(px: Seq<Rgb>, width: nat, x: int, y: int) -> Rgb {
    px[y * width + x]
}

/// The colour that pads a rotated grid.
pub open spec fn black() -> Rgb {
    Rgb { r: 0, g: 0, b: 0 }
}

/// A grid turned counter-clockwise `turns` quarter turns (taken modulo 4): the
/// new width, height and pixels. A quarter turn moves the pixel at `(x, y)` to
/// `(y, width - 1 - x)`; three move it to `(height - 1 - y, x)`; a half turn
/// reverses the pixels. Pixels past `width * height` come out black after a
/// quarter turn.
pub open spec fn rotation(width: nat, height: nat, px: Seq<Rgb>, turns: nat) -> (nat, nat, Seq<Rgb>) {
    let t = turns % 4;
    if t == 0 {
        (width, height, px)
    } else if t == 2 {
        (width, height, px.reverse())
    } else if t == 1 {
        (
            height,
            width,
            Seq::new(
                px.len(),
                |i: int|
                    if i < width * height {
                        at(px, width, width - 1 - i / (height as int), i % (height as int))
                    } else {
                        black()
                    },
            ),
        )
    } else {
        (
            height,
            width,
            Seq::new(
                px.len(),
                |i: int|
                    if i < width * height {
                        at(px, width, i / (height as int), height - 1 - i % (height as int))
                    } else {
                        black()
                    },
            ),
        )
    }
}

impl Frame {
    /// `width * height` pixels.
    pub open spec fn well_formed(&self) -> bool {
        self.width > 0 && self.height > 0 && self.pixels@.len() == self.width * self.height
    }

    /// A frame from its pixels, refused unless both dimensions are non-zero and
    /// there are `width * height` pixels.
    pub fn new(width: usize, height: usize, pixels: Vec<Rgb>) -> (r: Result<Frame, FrameError>)
        requires
            width > 0 && height > 0 ==> width * height <= usize::MAX,
        ensures
            width == 0 || height == 0 ==> r == Err::<Frame, FrameError>(FrameError::ZeroDimensions),
            width > 0 && height > 0 && pixels@.len() != width * height ==> r == Err::<Frame, FrameError>(
                FrameError::PixelCount { actual: pixels@.len() as usize, expected: (width * height) as usize },
            ),
            width > 0 && height > 0 && pixels@.len() == width * height ==> (r matches Ok(f) && f.width
                == width && f.height == height && f.pixels@ == pixels@),
    {
        if width == 0 || height == 0 {
            return Err(FrameError::ZeroDimensions);
        }
        if pixels.len() != width * height {
            return Err(FrameError::PixelCount { actual: pixels.len(), expected: width * height });
        }
        Ok(Frame { width, height, pixels })
    }

    /// A frame from packed RGB24 bytes.
    pub fn from_rgb24(width: usize, height: usize, bytes: &[u8]) -> (r: Result<Frame, FrameError>)
        requires
            width * height * 3 <= usize::MAX,
        ensures
            bytes@.len() != width * height * 3 ==> r == Err::<Frame, FrameError>(
                FrameError::Rgb24Length { actual: bytes@.len() as usize, expected: (width * height * 3) as usize },
            ),
            bytes@.len() == width * height * 3 && (width == 0 || height == 0) ==> r == Err::<
                Frame,
                FrameError,
            >(FrameError::ZeroDimensions),
            bytes@.len() == width * height * 3 && width > 0 && height > 0 ==> (r matches Ok(f) && f.width
                == width && f.height == height && f.pixels@.len() == width * height && forall|i: int|
                0 <= i < width * height ==> #[trigger] f.pixels@[i] == (Rgb {
                    r: bytes@[3 * i],
                    g: bytes@[3 * i + 1],
                    b: bytes@[3 * i + 2],
                })),
    {
        assert(width * height * 3 == 3 * (width * height)) by (nonlinear_arith);
        if bytes.len() != width * height * 3 {
            return Err(FrameError::Rgb24Length { actual: bytes.len(), expected: width * height * 3 });
        }
        let n = width * height;
        let mut pixels: Vec<Rgb> = Vec::new();
        let mut i: usize = 0;
        while i < n
            invariant
                i <= n,
                bytes@.len() == 3 * n,
                3 * n <= usize::MAX,
                pixels@.len() == i,
                forall|j: int|
                    0 <= j < i ==> #[trigger] pixels@[j] == (Rgb {
                        r: bytes@[3 * j],
                        g: bytes@[3 * j + 1],
                        b: bytes@[3 * j + 2],
                    }),
            decreases n - i,
        {
            pixels.push(Rgb { r: bytes[3 * i], g: bytes[3 * i + 1], b: bytes[3 * i + 2] });
            i = i + 1;
        }
        Frame::new(width, height, pixels)
    }

    /// The pixel at column `x`, row `y`.
    pub fn get(&self, x: usize, y: usize) -> (c: Rgb)
        requires
            y * self.width + x < self.pixels@.len(),
        ensures
            c == at(self.pixels@, self.width as nat, x as int, y as int),
    {
        let _n = self.pixels.len();
        self.pixels[y * self.width + x]
    }
}

} // verus!

verus! {

proof fn lemma_quarter_index(i: int, w: int, h: int)
    requires
        0 <= i < w * h,
        w > 0,
        h > 0,
    ensures
        0 <= i / h < w,
        0 <= i % h < h,
        (i % h) * w + (w - 1 - i / h) < w * h,
        (h - 1 - i % h) * w + i / h < w * h,
{
    vstd::arithmetic::div_mod::lemma_fundamental_div_mod(i, h);
    let q = i / h;
    let r = i % h;
    assert(q < w) by (nonlinear_arith)
        requires i == h * q + r, 0 <= r < h, i < w * h, h > 0;
    assert(q >= 0) by (nonlinear_arith)
        requires i == h * q + r, 0 <= r < h, i >= 0, h > 0;
    assert(r * w + (w - 1 - q) < w * h) by (nonlinear_arith)
        requires 0 <= r < h, 0 <= q < w;
    assert((h - 1 - r) * w + q < w * h) by (nonlinear_arith)
        requires 0 <= r < h, 0 <= q < w;
}

impl Frame {
    /// The frame turned counter-clockwise by `turns_ccw` quarter turns.
    pub fn rotate(&self, turns_ccw: u8) -> (f: Frame)
        requires
            turns_ccw % 4 == 1 || turns_ccw % 4 == 3 ==> self.pixels@.len() >= self.width * self.height,
        ensures
            (f.width as nat, f.height as nat, f.pixels@) == rotation(
                self.width as nat,
                self.height as nat,
                self.pixels@,
                turns_ccw as nat,
            ),
    {
        let t = turns_ccw % 4;
        let n = self.pixels.len();
        let w = self.width;
        let h = self.height;
        let mut pixels: Vec<Rgb> = Vec::new();
        if t == 0 || t == 2 {
            let mut i: usize = 0;
            while i < n
                invariant
                    i <= n == self.pixels@.len(),
                    t == turns_ccw % 4,
                    t == 0 || t == 2,
                    pixels@.len() == i,
                    forall|j: int|
                        0 <= j < i ==> #[trigger] pixels@[j] == if t == 0 {
                            self.pixels@[j]
                        } else {
                            self.pixels@[n - 1 - j]
                        },
                decreases n - i,
            {
                if t == 0 {
                    pixels.push(self.pixels[i]);
                } else {
                    pixels.push(self.pixels[n - 1 - i]);
                }
                i = i + 1;
            }
            if t == 0 {
                assert(pixels@ =~= self.pixels@);
            } else {
                assert(pixels@ =~= self.pixels@.reverse());
            }
            return Frame { width: w, height: h, pixels };
        }
        let mut i: usize = 0;
        while i < n
            invariant
                i <= n == self.pixels@.len(),
                n >= w * h,
                w == self.width,
                h == self.height,
                t == turns_ccw % 4,
                t == 1 || t == 3,
                pixels@.len() == i,
                forall|j: int|
                    0 <= j < i ==> #[trigger] pixels@[j] == rotation(
                        w as nat,
                        h as nat,
                        self.pixels@,
                        turns_ccw as nat,
                    ).2[j],
            decreases n - i,
        {
            if i < w * h {
                proof {
                    lemma_quarter_index(i as int, w as int, h as int);
                }
                let x = i / h;
                let y = i % h;
                if t == 1 {
                    pixels.push(self.pixels[y * w + (w - 1 - x)]);
                } else {
                    pixels.push(self.pixels[(h - 1 - y) * w + x]);
                }
            } else {
                pixels.push(Rgb { r: 0, g: 0, b: 0 });
            }
            i = i + 1;
        }
        assert(pixels@ =~= rotation(w as nat, h as nat, self.pixels@, turns_ccw as nat).2);
        Frame { width: h, height: w, pixels }
    }
}

} // verus!

verus! {

proof fn lemma_split(k: int, d: int, q: int, r: int)
    requires
        d > 0,
        0 <= r < d,
        k == q * d + r,
    ensures
        k / d == q,
        k % d == r,
{
    vstd::arithmetic::div_mod::lemma_fundamental_div_mod_converse(k, d, q, r);
}

proof fn lemma_cell(j: int, w: int, h: int)
    requires
        0 <= j < w * h,
        w > 0,
        h > 0,
    ensures
        0 <= j / w < h,
        0 <= j % w < w,
        j == (j / w) * w + j % w,
{
    vstd::arithmetic::div_mod::lemma_fundamental_div_mod(j, w);
    let a = j / w;
    let b = j % w;
    assert(0 <= a < h) by (nonlinear_arith)
        requires j == w * a + b, 0 <= b < w, 0 <= j < w * h, w > 0;
    assert(j == a * w + b) by (nonlinear_arith)
        requires j == w * a + b;
}

/// A quarter turn counter-clockwise followed by three more returns a well-formed
/// grid to where it was.
pub proof fn lemma_rotate_quarter_then_three(width: nat, height: nat, px: Seq<Rgb>)
    requires
        width > 0,
        height > 0,
        px.len() == width * height,
    ensures
        ({
            let (w1, h1, p1) = rotation(width, height, px, 1);
            rotation(w1, h1, p1, 3)
        }) == (width, height, px),
{
    let (w1, h1, p1) = rotation(width, height, px, 1);
    let (w2, h2, p2) = rotation(w1, h1, p1, 3);
    let w = width as int;
    let h = height as int;
    assert(h * w == w * h) by (nonlinear_arith);
    assert forall|j: int| 0 <= j < px.len() implies #[trigger] p2[j] == px[j] by {
        lemma_cell(j, w, h);
        let a = j / w;
        let b = j % w;
        let k = (w - 1 - b) * h + a;
        assert(0 <= k < w * h) by (nonlinear_arith)
            requires 0 <= a < h, 0 <= b < w, k == (w - 1 - b) * h + a;
        lemma_split(k, h, w - 1 - b, a);
        assert(p2[j] == p1[k]);
    }
    assert(p2 =~= px);
}

/// Three quarter turns counter-clockwise followed by one more returns a
/// well-formed grid to where it was.
pub proof fn lemma_rotate_three_then_quarter(width: nat, height: nat, px: Seq<Rgb>)
    requires
        width > 0,
        height > 0,
        px.len() == width * height,
    ensures
        ({
            let (w1, h1, p1) = rotation(width, height, px, 3);
            rotation(w1, h1, p1, 1)
        }) == (width, height, px),
{
    let (w1, h1, p1) = rotation(width, height, px, 3);
    let (w2, h2, p2) = rotation(w1, h1, p1, 1);
    let w = width as int;
    let h = height as int;
    assert(h * w == w * h) by (nonlinear_arith);
    assert forall|j: int| 0 <= j < px.len() implies #[trigger] p2[j] == px[j] by {
        lemma_cell(j, w, h);
        let a = j / w;
        let b = j % w;
        let k = b * h + (h - 1 - a);
        assert(0 <= k < w * h) by (nonlinear_arith)
            requires 0 <= a < h, 0 <= b < w, k == b * h + (h - 1 - a);
        lemma_split(k, h, b, h - 1 - a);
        assert(p2[j] == p1[k]);
    }
    assert(p2 =~= px);
}

/// Two quarter turns are a half turn.
pub proof fn lemma_two_quarters_make_a_half(width: nat, height: nat, px: Seq<Rgb>)
    requires
        width > 0,
        height > 0,
        px.len() == width * height,
    ensures
        ({
            let (w1, h1, p1) = rotation(width, height, px, 1);
            rotation(w1, h1, p1, 1)
        }) == rotation(width, height, px, 2),
{
    let (w1, h1, p1) = rotation(width, height, px, 1);
    let (w2, h2, p2) = rotation(w1, h1, p1, 1);
    let w = width as int;
    let h = height as int;
    let n = w * h;
    assert(h * w == w * h) by (nonlinear_arith);
    assert forall|j: int| 0 <= j < px.len() implies #[trigger] p2[j] == px.reverse()[j] by {
        lemma_cell(j, w, h);
        let a = j / w;
        let b = j % w;
        let k = b * h + (h - 1 - a);
        assert(0 <= k < w * h) by (nonlinear_arith)
            requires 0 <= a < h, 0 <= b < w, k == b * h + (h - 1 - a);
        lemma_split(k, h, b, h - 1 - a);
        assert(p2[j] == p1[k]);
        assert((h - 1 - a) * w + (w - 1 - b) == n - 1 - j) by (nonlinear_arith)
            requires n == w * h, j == a * w + b;
    }
    assert(p2 =~= px.reverse());
}

/// Two half turns return a grid to where it was.
pub proof fn lemma_half_turn_twice(width: nat, height: nat, px: Seq<Rgb>)
    ensures
        ({
            let (w1, h1, p1) = rotation(width, height, px, 2);
            rotation(w1, h1, p1, 2)
        }) == (width, height, px),
{
    assert(px.reverse().reverse() =~= px);
}

} // verus!

verus! {

/// `g` turned `t` quarter turns.
pub open spec fn rot(g: (nat, nat, Seq<Rgb>), t: nat) -> (nat, nat, Seq<Rgb>) {
    rotation(g.0, g.1, g.2, t)
}

/// `g` is a grid of `g.0` by `g.1` pixels, neither side zero.
pub open spec fn full_grid(g: (nat, nat, Seq<Rgb>)) -> bool {
    g.0 > 0 && g.1 > 0 && g.2.len() == g.0 * g.1
}

proof fn lemma_rot_full(g: (nat, nat, Seq<Rgb>), t: nat)
    requires
        full_grid(g),
    ensures
        full_grid(rot(g, t)),
{
    assert(g.1 * g.0 == g.0 * g.1) by (nonlinear_arith);
    assert(g.2.reverse().len() == g.2.len());
}

proof fn lemma_rot_basics(g: (nat, nat, Seq<Rgb>))
    requires
        full_grid(g),
    ensures
        rot(rot(g, 1), 3) == g,
        rot(rot(g, 3), 1) == g,
        rot(rot(g, 1), 1) == rot(g, 2),
        rot(rot(g, 2), 2) == g,
        rot(g, 0) == g,
{
    lemma_rotate_quarter_then_three(g.0, g.1, g.2);
    lemma_rotate_three_then_quarter(g.0, g.1, g.2);
    lemma_two_quarters_make_a_half(g.0, g.1, g.2);
    lemma_half_turn_twice(g.0, g.1, g.2);
}

proof fn lemma_quarter_then_half(g: (nat, nat, Seq<Rgb>))
    requires
        full_grid(g),
    ensures
        rot(rot(g, 1), 2) == rot(g, 3),
{
    let x = rot(g, 3);
    lemma_rot_full(g, 3);
    lemma_rot_basics(g);
    lemma_rot_basics(x);
    lemma_rot_full(x, 2);
    lemma_rot_basics(rot(x, 2));
}

/// Turning a full grid `a` quarter turns and then `b` more is turning it
/// `a + b` quarter turns, counted modulo four.
pub proof fn lemma_rotation_compose(g: (nat, nat, Seq<Rgb>), a: nat, b: nat)
    requires
        full_grid(g),
    ensures
        rot(rot(g, a), b) == rot(g, (a + b) % 4),
{
    let a4 = a % 4;
    let b4 = b % 4;
    assert((a4 + b4) % 4 == (a + b) % 4) by {
        vstd::arithmetic::div_mod::lemma_add_mod_noop(a as int, b as int, 4);
    }
    assert(rot(g, a) == rot(g, a4));
    assert(rot(rot(g, a), b) == rot(rot(g, a), b4));
    assert(rot(g, (a + b) % 4) == rot(g, (a4 + b4) % 4)) by {
        assert(((a4 + b4) % 4) % 4 == (a4 + b4) % 4);
    }
    lemma_rot_basics(g);
    lemma_rot_full(g, 1);
    lemma_rot_full(g, 2);
    lemma_rot_full(g, 3);
    let x = rot(g, 3);
    lemma_rot_basics(x);
    lemma_quarter_then_half(g);
    lemma_quarter_then_half(x);
    lemma_rot_basics(rot(g, 1));
    lemma_rot_basics(rot(g, 2));
    lemma_rot_basics(x);
    if a4 == 0 {
        assert(rot(g, a4) == g);
        assert(rot(g, b4) == rot(g, (a4 + b4) % 4));
    } else if b4 == 0 {
        assert(rot(rot(g, a4), 0) == rot(g, a4));
    } else if a4 == 1 && b4 == 1 {
    } else if a4 == 1 && b4 == 2 {
    } else if a4 == 1 && b4 == 3 {
    } else if a4 == 2 && b4 == 1 {
        // g is x turned once, so a half turn of g is x turned three times.
        assert(rot(g, 2) == rot(rot(x, 1), 2));
        assert(rot(rot(g, 2), 1) == rot(rot(x, 3), 1));
    } else if a4 == 2 && b4 == 2 {
    } else if a4 == 2 && b4 == 3 {
        assert(rot(g, 2) == rot(rot(g, 1), 1));
        lemma_rot_basics(rot(g, 1));
    } else if a4 == 3 && b4 == 1 {
    } else if a4 == 3 && b4 == 2 {
        assert(rot(g, 1) == rot(rot(x, 1), 1));
    } else {
        assert(rot(g, 2) == rot(rot(x, 1), 2));
    }
}

} // verus!
