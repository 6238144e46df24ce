//! Colours and the terminal colour modes.

use vstd::arithmetic::div_mod::lemma_div_denominator;
use vstd::arithmetic::power2::{lemma_pow2_unfold, pow2};
use vstd::prelude::*;
use vstd::string::*;

use crate::text::{decimal, push_decimal};

verus! {

/// A 24-bit colour.
#[derive(Clone, Copy, Debug, PartialEq, Eq, Structural)]
pub struct Rgb {
    pub r: u8,
    pub g: u8,
    pub b: u8,
}

/// How characters are coloured on the terminal.
#[derive(Clone, Copy, Debug, PartialEq, Eq, Structural)]
pub enum ColorMode {
    Off,
    TrueColor,
    Ansi256,
    Ansi16,
    Gray,
    Green,
    GreenGradient,
    Red,
    RedGradient,
}

/// How many times `n` must be halved to fall below 2^24.
pub open spec fn sig_shift(n: nat) -> nat
    decreases n,
{
    if n < 0x100_0000 {
        0
    } else {
        1 + sig_shift(n / 2)
    }
}

/// `n` rounded to the nearest multiple of `2^s`, ties to the even multiple.
pub open spec fn round_half_even_at(n: nat, s: nat) -> nat {
    if s == 0 {
        n
    } else {
        let p = pow2(s);
        let q = n / p;
        let r = n % p;
        if r > p / 2 || (r == p / 2 && q % 2 == 1) {
            (q + 1) * p
        } else {
            q * p
        }
    }
}

/// `n` rounded to 24 significant bits, ties to even: the rounding of
/// single-precision arithmetic, on a value counted in a fixed power-of-two unit.
pub open spec fn round24(n: nat) -> nat {
    round_half_even_at(n, sig_shift(n))
}

/// The weights 0.299, 0.587 and 0.114 as single-precision values, in units of 2^-27.
pub open spec fn red_weight() -> nat {
    40131100
}

pub open spec fn green_weight() -> nat {
    78785808
}

pub open spec fn blue_weight() -> nat {
    15300821
}

/// Luma `0.299 r + 0.587 g + 0.114 b` evaluated in single precision (the red
/// and green terms as one fused multiply-add), in units of 2^-27.
pub open spec fn luma_units(r: nat, g: nat, b: nat) -> nat {
    let green = round24(green_weight() * g);
    let red_green = round24(red_weight() * r + green);
    let blue = round24(blue_weight() * b);
    round24(red_green + blue)
}

/// The luma of a colour, truncated to an integer and clamped to 255.
pub open spec fn luma(c: Rgb) -> u8 {
    let whole = luma_units(c.r as nat, c.g as nat, c.b as nat) / pow2(27);
    if whole > 255 {
        255
    } else {
        whole as u8
    }
}

proof fn lemma_pow2_values()
    ensures
        pow2(0) == 1,
        pow2(27) == 0x800_0000,
{
    vstd::arithmetic::power2::lemma2_to64();
}

/// Rounds `n` to 24 significant bits, ties to even.
fn round_to_24_bits(n: u64) -> (out: u64)
    requires
        n < 0x10_0000_0000_0000,
    ensures
        out as nat == round24(n as nat),
        out <= 2 * n,
{
    let mut m = n;
    let mut p: u64 = 1;
    let ghost mut s: nat = 0;
    proof {
        lemma_pow2_values();
    }
    while m >= 0x100_0000
        invariant
            n < 0x10_0000_0000_0000,
            p as nat == pow2(s),
            m as nat == n as nat / pow2(s),
            sig_shift(n as nat) == s + sig_shift(m as nat),
            p <= n + 1,
            p >= 1,
            m >= 1 ==> p <= n,
            s > 0 ==> m >= 0x80_0000,
        decreases m,
    {
        proof {
            lemma_pow2_unfold(s + 1);
            lemma_div_denominator(n as int, p as int, 2);
            assert(m * p <= n) by (nonlinear_arith)
                requires m as nat == n as nat / p as nat, p >= 1;
            assert(2 * p <= n) by (nonlinear_arith)
                requires m * p <= n, m >= 2, p >= 1;
        }
        m = m / 2;
        p = p * 2;
        proof {
            s = s + 1;
        }
        proof {
            if m >= 1 {
                assert(m * p <= n) by (nonlinear_arith)
                    requires m as nat == n as nat / p as nat, p >= 1;
            }
        }
    }
    assert(sig_shift(m as nat) == 0);
    if p == 1 {
        assert(s == 0) by {
            if s > 0 {
                lemma_pow2_unfold(s);
                vstd::arithmetic::power2::lemma_pow2_pos((s - 1) as nat);
            }
        }
        return n;
    }
    assert(s > 0) by {
        if s == 0 {
        }
    }
    proof {
        lemma_pow2_unfold(s);
    }
    let q = n / p;
    let r = n % p;
    let half = p / 2;
    assert(q * p <= n) by (nonlinear_arith)
        requires q == n / p, p >= 1;
    assert(q * p + p <= 2 * n) by (nonlinear_arith)
        requires q == n / p, p >= 1, p <= n;
    assert((q + 1) * p == q * p + p) by (nonlinear_arith);
    if r > half || (r == half && q % 2 == 1) {
        (q + 1) * p
    } else {
        q * p
    }
}

impl Rgb {
    /// A colour from its channels.
    pub fn new(r: u8, g: u8, b: u8) -> (c: Rgb)
        ensures
            c == (Rgb { r, g, b }),
    {
        Rgb { r, g, b }
    }

    /// Perceived brightness, `0.299 r + 0.587 g + 0.114 b` in single precision,
    /// truncated and clamped to `0..=255`.
    pub fn luminance(self) -> (l: u8)
        ensures
            l == luma(self),
    {
        let green = round_to_24_bits(78785808 * (self.g as u64));
        let red_green = round_to_24_bits(40131100 * (self.r as u64) + green);
        let blue = round_to_24_bits(15300821 * (self.b as u64));
        let total = round_to_24_bits(red_green + blue);
        proof {
            lemma_pow2_values();
        }
        let whole = total / 0x800_0000;
        if whole > 255 {
            255
        } else {
            whole as u8
        }
    }
}

} // verus!

verus! {

/// The cube level (0..=5) of a channel in the 6x6x6 colour cube: `round(v * 5 / 255)`.
pub open spec fn cube_level(v: u8) -> u8 {
    ((10 * v + 255) / 510) as u8
}

/// The step (0..=23) of a luma on the 24-step grey ramp: `round(l * 23 / 255)`.
pub open spec fn gray_step(l: u8) -> u8 {
    ((46 * l + 255) / 510) as u8
}

/// The channel value of a grey step: `round(step * 255 / 23)`.
pub open spec fn gray_level(step: u8) -> u8 {
    ((510 * step + 23) / 46) as u8
}

/// A channel as seen by the 16-colour palette: on above 85.
pub open spec fn bright_channel(v: u8) -> u8 {
    if v > 85 {
        255
    } else {
        0
    }
}

/// The larger of a luma and the floor 20 used by the gradient modes.
pub open spec fn gradient_level(c: Rgb) -> u8 {
    if luma(c) > 20 {
        luma(c)
    } else {
        20
    }
}

/// The colour a mode displays for `c`.
pub open spec fn display_rgb(mode: ColorMode, c: Rgb) -> Rgb {
    match mode {
        ColorMode::Off | ColorMode::TrueColor => c,
        ColorMode::Ansi256 => Rgb {
            r: (cube_level(c.r) * 51) as u8,
            g: (cube_level(c.g) * 51) as u8,
            b: (cube_level(c.b) * 51) as u8,
        },
        ColorMode::Ansi16 => Rgb { r: bright_channel(c.r), g: bright_channel(c.g), b: bright_channel(c.b) },
        ColorMode::Gray => {
            let v = gray_level(gray_step(luma(c)));
            Rgb { r: v, g: v, b: v }
        },
        ColorMode::Green => Rgb { r: 0, g: 255, b: 0 },
        ColorMode::GreenGradient => Rgb { r: 0, g: gradient_level(c), b: 0 },
        ColorMode::Red => Rgb { r: 255, g: 0, b: 0 },
        ColorMode::RedGradient => Rgb { r: gradient_level(c), g: 0, b: 0 },
    }
}

/// The 16-colour foreground code of `c`: 30 plus red, green and blue bits, moved
/// to the bright range (+60) when the mean channel exceeds 127 and it is not black.
pub open spec fn ansi16_code(c: Rgb) -> nat {
    let code: nat = 30nat + (if c.b > 85 { 4nat } else { 0nat }) + (if c.g > 85 {
        2nat
    } else {
        0nat
    }) + (if c.r > 85 {
        1nat
    } else {
        0nat
    });
    let brightness = (c.r + c.g + c.b) / 3;
    if brightness > 127 && code != 30 {
        code + 60
    } else {
        code
    }
}

/// `ESC [ 38 ; 2 ; r ; g ; b m`: a 24-bit foreground colour.
pub open spec fn sgr_rgb(r: nat, g: nat, b: nat) -> Seq<char> {
    "\x1b[38;2;"@ + decimal(r) + ";"@ + decimal(g) + ";"@ + decimal(b) + "m"@
}

/// `ESC [ 38 ; 5 ; n m`: a 256-colour foreground colour.
pub open spec fn sgr_indexed(n: nat) -> Seq<char> {
    "\x1b[38;5;"@ + decimal(n) + "m"@
}

/// The escape sequence a mode writes before a character of colour `c`.
pub open spec fn ansi_prefix_of(mode: ColorMode, c: Rgb) -> Seq<char> {
    match mode {
        ColorMode::Off => Seq::empty(),
        ColorMode::TrueColor => sgr_rgb(c.r as nat, c.g as nat, c.b as nat),
        ColorMode::Ansi256 => sgr_indexed(
            (16 + 36 * cube_level(c.r) + 6 * cube_level(c.g) + cube_level(c.b)) as nat,
        ),
        ColorMode::Ansi16 => "\x1b["@ + decimal(ansi16_code(c)) + "m"@,
        ColorMode::Gray => sgr_indexed((232 + gray_step(luma(c))) as nat),
        ColorMode::Green => sgr_rgb(0, 255, 0),
        ColorMode::GreenGradient => sgr_rgb(0, gradient_level(c) as nat, 0),
        ColorMode::Red => sgr_rgb(255, 0, 0),
        ColorMode::RedGradient => sgr_rgb(gradient_level(c) as nat, 0, 0),
    }
}

/// The mode's short name on the status bar.
pub open spec fn mode_label(m: ColorMode) -> Seq<char> {
    match m {
        ColorMode::Off => "Off"@,
        ColorMode::TrueColor => "24bit"@,
        ColorMode::Ansi256 => "256c"@,
        ColorMode::Ansi16 => "16c"@,
        ColorMode::Gray => "Gray"@,
        ColorMode::Green => "Green"@,
        ColorMode::GreenGradient => "GreenGrad"@,
        ColorMode::Red => "Red"@,
        ColorMode::RedGradient => "RedGrad"@,
    }
}

/// The mode after `m` in the settings cycle TrueColor, Ansi256, Ansi16, Gray,
/// Green, GreenGradient, Red, RedGradient, Off.
pub open spec fn next_mode(m: ColorMode) -> ColorMode {
    match m {
        ColorMode::TrueColor => ColorMode::Ansi256,
        ColorMode::Ansi256 => ColorMode::Ansi16,
        ColorMode::Ansi16 => ColorMode::Gray,
        ColorMode::Gray => ColorMode::Green,
        ColorMode::Green => ColorMode::GreenGradient,
        ColorMode::GreenGradient => ColorMode::Red,
        ColorMode::Red => ColorMode::RedGradient,
        ColorMode::RedGradient => ColorMode::Off,
        ColorMode::Off => ColorMode::TrueColor,
    }
}

/// `next_mode` applied `n` times.
pub open spec fn next_mode_n(m: ColorMode, n: nat) -> ColorMode
    decreases n,
{
    if n == 0 {
        m
    } else {
        next_mode_n(next_mode(m), (n - 1) as nat)
    }
}

/// Cycling the colour mode nine times returns to the starting mode, and no
/// shorter positive number of steps does.
pub proof fn lemma_color_cycle_period(m: ColorMode)
    ensures
        next_mode_n(m, 9) == m,
        forall|k: nat| 0 < k < 9 ==> #[trigger] next_mode_n(m, k) != m,
{
    reveal_with_fuel(next_mode_n, 10);
}

fn cube_level_exec(v: u8) -> (l: u8)
    ensures
        l == cube_level(v),
        l <= 5,
{
    ((10 * (v as u32) + 255) / 510) as u8
}

fn gray_step_exec(l: u8) -> (s: u8)
    ensures
        s == gray_step(l),
        s <= 23,
{
    ((46 * (l as u32) + 255) / 510) as u8
}

fn gray_level_exec(step: u8) -> (v: u8)
    requires
        step <= 23,
    ensures
        v == gray_level(step),
{
    ((510 * (step as u32) + 23) / 46) as u8
}

fn gradient_level_exec(c: Rgb) -> (v: u8)
    ensures
        v == gradient_level(c),
{
    let l = c.luminance();
    if l > 20 {
        l
    } else {
        20
    }
}

fn push_sgr_rgb(s: &mut String, r: u8, g: u8, b: u8)
    ensures
        final(s)@ == old(s)@ + sgr_rgb(r as nat, g as nat, b as nat),
{
    s.append("\x1b[38;2;");
    push_decimal(s, r as u64);
    s.append(";");
    push_decimal(s, g as u64);
    s.append(";");
    push_decimal(s, b as u64);
    s.append("m");
    assert(final(s)@ =~= old(s)@ + sgr_rgb(r as nat, g as nat, b as nat));
}

fn push_sgr_indexed(s: &mut String, n: u64)
    ensures
        final(s)@ == old(s)@ + sgr_indexed(n as nat),
{
    s.append("\x1b[38;5;");
    push_decimal(s, n);
    s.append("m");
    assert(final(s)@ =~= old(s)@ + sgr_indexed(n as nat));
}

impl ColorMode {
    /// The next mode in the settings cycle.
    pub fn next(self) -> (m: ColorMode)
        ensures
            m == next_mode(self),
    {
        match self {
            ColorMode::TrueColor => ColorMode::Ansi256,
            ColorMode::Ansi256 => ColorMode::Ansi16,
            ColorMode::Ansi16 => ColorMode::Gray,
            ColorMode::Gray => ColorMode::Green,
            ColorMode::Green => ColorMode::GreenGradient,
            ColorMode::GreenGradient => ColorMode::Red,
            ColorMode::Red => ColorMode::RedGradient,
            ColorMode::RedGradient => ColorMode::Off,
            ColorMode::Off => ColorMode::TrueColor,
        }
    }

    /// The mode's short name on the status bar.
    pub fn label(self) -> (s: &'static str)
        ensures
            s@ == mode_label(self),
    {
        match self {
            ColorMode::Off => "Off",
            ColorMode::TrueColor => "24bit",
            ColorMode::Ansi256 => "256c",
            ColorMode::Ansi16 => "16c",
            ColorMode::Gray => "Gray",
            ColorMode::Green => "Green",
            ColorMode::GreenGradient => "GreenGrad",
            ColorMode::Red => "Red",
            ColorMode::RedGradient => "RedGrad",
        }
    }

    /// The colour this mode shows for `rgb`.
    pub fn effective_rgb(self, rgb: Rgb) -> (c: Rgb)
        ensures
            c == display_rgb(self, rgb),
    {
        match self {
            ColorMode::Off | ColorMode::TrueColor => rgb,
            ColorMode::Ansi256 => {
                let ri = cube_level_exec(rgb.r);
                let gi = cube_level_exec(rgb.g);
                let bi = cube_level_exec(rgb.b);
                Rgb::new(ri * 51, gi * 51, bi * 51)
            },
            ColorMode::Ansi16 => {
                let r = if rgb.r > 85 { 255 } else { 0 };
                let g = if rgb.g > 85 { 255 } else { 0 };
                let b = if rgb.b > 85 { 255 } else { 0 };
                Rgb::new(r, g, b)
            },
            ColorMode::Gray => {
                let step = gray_step_exec(rgb.luminance());
                let value = gray_level_exec(step);
                Rgb::new(value, value, value)
            },
            ColorMode::Green => Rgb::new(0, 255, 0),
            ColorMode::GreenGradient => Rgb::new(0, gradient_level_exec(rgb), 0),
            ColorMode::Red => Rgb::new(255, 0, 0),
            ColorMode::RedGradient => Rgb::new(gradient_level_exec(rgb), 0, 0),
        }
    }

    /// The escape sequence that colours a character `rgb` in this mode.
    pub fn ansi_prefix(self, rgb: Rgb) -> (s: String)
        ensures
            s@ == ansi_prefix_of(self, rgb),
    {
        let mut s = String::new();
        match self {
            ColorMode::Off => {},
            ColorMode::TrueColor => push_sgr_rgb(&mut s, rgb.r, rgb.g, rgb.b),
            ColorMode::Ansi256 => {
                let ri = cube_level_exec(rgb.r) as u64;
                let gi = cube_level_exec(rgb.g) as u64;
                let bi = cube_level_exec(rgb.b) as u64;
                push_sgr_indexed(&mut s, 16 + 36 * ri + 6 * gi + bi);
            },
            ColorMode::Ansi16 => {
                let brightness = (rgb.r as u16 + rgb.g as u16 + rgb.b as u16) / 3;
                let mut code: u64 = 30 + (if rgb.b > 85 { 4 } else { 0 }) + (if rgb.g > 85 {
                    2
                } else {
                    0
                }) + (if rgb.r > 85 { 1 } else { 0 });
                if brightness > 127 && code != 30 {
                    code = code + 60;
                }
                s.append("\x1b[");
                push_decimal(&mut s, code);
                s.append("m");
            },
            ColorMode::Gray => {
                let step = gray_step_exec(rgb.luminance()) as u64;
                push_sgr_indexed(&mut s, 232 + step);
            },
            ColorMode::Green => push_sgr_rgb(&mut s, 0, 255, 0),
            ColorMode::GreenGradient => push_sgr_rgb(&mut s, 0, gradient_level_exec(rgb), 0),
            ColorMode::Red => push_sgr_rgb(&mut s, 255, 0, 0),
            ColorMode::RedGradient => push_sgr_rgb(&mut s, gradient_level_exec(rgb), 0, 0),
        }
        assert(s@ =~= ansi_prefix_of(self, rgb));
        s
    }
}

} // verus!

verus! {

/// The colour a mode displays is the colour its escape names. The 24-bit
/// modes write exactly the displayed channels; the 256-colour mode writes the
/// cube entry of the displayed colour, whose channels are steps of 51; the
/// 16-colour mode writes the palette bits of the displayed colour, whose
/// channels are fully off or on; the grey mode displays a grey; no colour
/// writes nothing and shows the colour as it is. The colour-named modes stay
/// in their channel: red modes show only red, green modes only green, the
/// plain ones at full strength and the gradients at least at 20.
pub proof fn lemma_escape_names_the_displayed_colour(mode: ColorMode, c: Rgb)
    ensures
        ({
            let d = display_rgb(mode, c);
            &&& (mode == ColorMode::TrueColor || mode == ColorMode::Green || mode
                == ColorMode::GreenGradient || mode == ColorMode::Red || mode
                == ColorMode::RedGradient) ==> ansi_prefix_of(mode, c) == sgr_rgb(
                d.r as nat,
                d.g as nat,
                d.b as nat,
            )
            &&& mode == ColorMode::TrueColor ==> d == c
            &&& mode == ColorMode::Ansi256 ==> {
                &&& d.r % 51 == 0 && d.g % 51 == 0 && d.b % 51 == 0
                &&& ansi_prefix_of(mode, c) == sgr_indexed(
                    (16 + 36 * (d.r / 51) + 6 * (d.g / 51) + d.b / 51) as nat,
                )
            }
            &&& mode == ColorMode::Ansi16 ==> {
                &&& (d.r == 0 || d.r == 255) && (d.g == 0 || d.g == 255) && (d.b == 0 || d.b == 255)
                &&& ansi16_code(c) % 10 == d.r / 255 + 2 * (d.g / 255) + 4 * (d.b / 255)
            }
            &&& mode == ColorMode::Gray ==> d.r == d.g && d.g == d.b
            &&& mode == ColorMode::Off ==> ansi_prefix_of(mode, c).len() == 0 && d == c
            &&& (mode == ColorMode::Red || mode == ColorMode::RedGradient) ==> d.g == 0 && d.b == 0
                && d.r >= 20
            &&& (mode == ColorMode::Green || mode == ColorMode::GreenGradient) ==> d.r == 0 && d.b
                == 0 && d.g >= 20
            &&& mode == ColorMode::Red ==> d.r == 255
            &&& mode == ColorMode::Green ==> d.g == 255
            &&& (mode == ColorMode::RedGradient ==> d.r == gradient_level(c))
            &&& (mode == ColorMode::GreenGradient ==> d.g == gradient_level(c))
            &&& gradient_level(c) >= luma(c) && gradient_level(c) >= 20
        }),
{
    let d = display_rgb(mode, c);
    if mode == ColorMode::Ansi256 {
        let (r, g, b) = (cube_level(c.r), cube_level(c.g), cube_level(c.b));
        assert(r <= 5 && g <= 5 && b <= 5);
        assert((r * 51) as u8 == r * 51);
        assert((g * 51) as u8 == g * 51);
        assert((b * 51) as u8 == b * 51);
        assert((r * 51) / 51 == r && (r * 51) % 51 == 0) by (nonlinear_arith)
            requires r <= 5;
        assert((g * 51) / 51 == g && (g * 51) % 51 == 0) by (nonlinear_arith)
            requires g <= 5;
        assert((b * 51) / 51 == b && (b * 51) % 51 == 0) by (nonlinear_arith)
            requires b <= 5;
    }
    if mode == ColorMode::Off {
        reveal_strlit("");
    }
}

} // verus!
