//! Camera capture through `ffmpeg`: the platform and resolution choices, the
//! `ffmpeg` command line, and what the library reads from `ffmpeg`'s reports
//! and from the device directory (camera lists and supported video sizes).

use vstd::prelude::*;

use crate::text::{
    chars_of, contains, contains_chars, decimal, first_index_of, find_char, last_index_of, lines,
    occurs_at_exec,
    parse_uint, parse_unsigned, push_decimal, rfind_char, split_lines, string_from_chars,
    sub_chars, trim, trim_chars, views,
};

verus! {

/// A camera: its index for `ffmpeg` and a name to show.
#[derive(Clone, Debug, PartialEq, Eq)]
pub struct CameraDevice {
    pub index: u32,
    pub name: String,
}

/// The capture backend: chosen by the host (`Auto`), or named.
#[derive(Clone, Copy, Debug, PartialEq, Eq, Structural)]
pub enum Platform {
    Auto,
    Macos,
    Linux,
}

/// The capture size presets.
#[derive(Clone, Copy, Debug, PartialEq, Eq, Structural)]
pub enum Resolution {
    Low,
    Medium,
    High,
}

/// What can stop the capture setup.
#[derive(Clone, Copy, Debug, PartialEq, Eq, Structural)]
pub enum CaptureError {
    UnsupportedPlatform,
}

/// `p` with `Auto` resolved for a host that is macOS or not.
pub open spec fn detected(p: Platform, host_is_macos: bool) -> Platform {
    match p {
        Platform::Auto => if host_is_macos {
            Platform::Macos
        } else {
            Platform::Linux
        },
        other => other,
    }
}

impl Platform {
    /// The platform itself, or for `Auto` the host's: macOS where the host is
    /// macOS, Linux elsewhere.
    pub fn detect(self, host_is_macos: bool) -> (p: Platform)
        ensures
            p == detected(self, host_is_macos),
            p != Platform::Auto,
    {
        match self {
            Platform::Auto => if host_is_macos {
                Platform::Macos
            } else {
                Platform::Linux
            },
            other => other,
        }
    }
}

impl Resolution {
    /// The capture width and height of the preset.
    pub fn dimensions(self) -> (d: (usize, usize))
        ensures
            d == match self {
                Resolution::Low => (320usize, 240usize),
                Resolution::Medium => (640usize, 480usize),
                Resolution::High => (1280usize, 720usize),
            },
    {
        match self {
            Resolution::Low => (320, 240),
            Resolution::Medium => (640, 480),
            Resolution::High => (1280, 720),
        }
    }
}

/// The platform to capture on: the detected one, which is always macOS or
/// Linux.
pub fn ensure_supported_platform(platform: Platform, host_is_macos: bool) -> (r: Result<
    Platform,
    CaptureError,
>)
    ensures
        r == Ok::<Platform, CaptureError>(detected(platform, host_is_macos)),
{
    let p = platform.detect(host_is_macos);
    if p == Platform::Linux || p == Platform::Macos {
        Ok(p)
    } else {
        Err(CaptureError::UnsupportedPlatform)
    }
}

} // verus!

verus! {

/// The arguments before the input: quiet output, no terminal input.
pub open spec fn ffmpeg_prelude() -> Seq<Seq<char>> {
    seq!["-hide_banner"@, "-nostdin"@, "-loglevel"@, "error"@]
}

/// `width` `x` `height`.
pub open spec fn size_arg(width: nat, height: nat) -> Seq<char> {
    decimal(width) + "x"@ + decimal(height)
}

/// The input arguments: AVFoundation with NV12 pixels on macOS, the
/// `/dev/video` device through V4L2 otherwise.
pub open spec fn ffmpeg_input(
    platform: Platform,
    camera: nat,
    fps: nat,
    width: nat,
    height: nat,
) -> Seq<Seq<char>> {
    match platform {
        Platform::Macos => seq![
            "-f"@,
            "avfoundation"@,
            "-framerate"@,
            decimal(fps),
            "-video_size"@,
            size_arg(width, height),
            "-pixel_format"@,
            "nv12"@,
            "-i"@,
            decimal(camera),
        ],
        _ => seq![
            "-f"@,
            "v4l2"@,
            "-framerate"@,
            decimal(fps),
            "-video_size"@,
            size_arg(width, height),
            "-i"@,
            "/dev/video"@ + decimal(camera),
        ],
    }
}

/// The output arguments: mirrored raw RGB24 frames on standard output, no
/// audio.
pub open spec fn ffmpeg_output() -> Seq<Seq<char>> {
    seq!["-vf"@, "hflip"@, "-f"@, "rawvideo"@, "-pix_fmt"@, "rgb24"@, "-an"@, "pipe:1"@]
}

/// The whole `ffmpeg` command line.
pub open spec fn ffmpeg_args(
    platform: Platform,
    camera: nat,
    fps: nat,
    width: nat,
    height: nat,
) -> Seq<Seq<char>> {
    ffmpeg_prelude() + ffmpeg_input(platform, camera, fps, width, height) + ffmpeg_output()
}

/// The views of a list of strings.
pub open spec fn string_seq_views(v: Seq<String>) -> Seq<Seq<char>> {
    v.map_values(|s: String| s@)
}

fn push_arg(args: &mut Vec<String>, s: &str)
    ensures
        string_seq_views(final(args)@) == string_seq_views(old(args)@).push(s@),
{
    args.push(s.to_owned());
    assert(string_seq_views(args@) =~= string_seq_views(old(args)@).push(s@));
}

fn push_string_arg(args: &mut Vec<String>, s: String)
    ensures
        string_seq_views(final(args)@) == string_seq_views(old(args)@).push(s@),
{
    args.push(s);
    assert(string_seq_views(args@) =~= string_seq_views(old(args)@).push(s@));
}

fn decimal_string(n: u64) -> (s: String)
    ensures
        s@ == decimal(n as nat),
{
    let mut s = String::new();
    push_decimal(&mut s, n);
    assert(s@ =~= decimal(n as nat));
    s
}

/// The `ffmpeg` arguments that stream camera `camera` at `fps` frames per
/// second and `width` x `height` as mirrored raw RGB24 frames on standard
/// output, for the platform as detected on a host that is macOS or not.
pub fn build_ffmpeg_args(
    platform: Platform,
    camera: u32,
    fps: u8,
    width: usize,
    height: usize,
    host_is_macos: bool,
) -> (args: Vec<String>)
    ensures
        string_seq_views(args@) == ffmpeg_args(
            detected(platform, host_is_macos),
            camera as nat,
            fps as nat,
            width as nat,
            height as nat,
        ),
{
    let mut args: Vec<String> = Vec::new();
    push_arg(&mut args, "-hide_banner");
    push_arg(&mut args, "-nostdin");
    push_arg(&mut args, "-loglevel");
    push_arg(&mut args, "error");
    let mut size = decimal_string(width as u64);
    size.append("x");
    push_decimal(&mut size, height as u64);
    assert(size@ =~= size_arg(width as nat, height as nat));
    let platform = platform.detect(host_is_macos);
    match platform {
        Platform::Macos => {
            push_arg(&mut args, "-f");
            push_arg(&mut args, "avfoundation");
            push_arg(&mut args, "-framerate");
            push_string_arg(&mut args, decimal_string(fps as u64));
            push_arg(&mut args, "-video_size");
            push_string_arg(&mut args, size);
            push_arg(&mut args, "-pixel_format");
            push_arg(&mut args, "nv12");
            push_arg(&mut args, "-i");
            push_string_arg(&mut args, decimal_string(camera as u64));
        },
        _ => {
            push_arg(&mut args, "-f");
            push_arg(&mut args, "v4l2");
            push_arg(&mut args, "-framerate");
            push_string_arg(&mut args, decimal_string(fps as u64));
            push_arg(&mut args, "-video_size");
            push_string_arg(&mut args, size);
            push_arg(&mut args, "-i");
            let mut dev = "/dev/video".to_owned();
            push_decimal(&mut dev, camera as u64);
            push_string_arg(&mut args, dev);
        },
    }
    push_arg(&mut args, "-vf");
    push_arg(&mut args, "hflip");
    push_arg(&mut args, "-f");
    push_arg(&mut args, "rawvideo");
    push_arg(&mut args, "-pix_fmt");
    push_arg(&mut args, "rgb24");
    push_arg(&mut args, "-an");
    push_arg(&mut args, "pipe:1");
    assert(string_seq_views(args@) =~= ffmpeg_args(
        platform,
        camera as nat,
        fps as nat,
        width as nat,
        height as nat,
    ));
    args
}

} // verus!

verus! {

/// The index and name of an `ffmpeg` AVFoundation device line
/// `... [index] name`: the number in the last bracket pair, and the trimmed
/// text after it, which must not be empty.
pub open spec fn device_entry(line: Seq<char>) -> Option<(nat, Seq<char>)> {
    match last_index_of(line, '[') {
        None => None,
        Some(bs) => {
            let after = line.skip(bs + 1 as int);
            match first_index_of(after, ']') {
                None => None,
                Some(re) => match parse_unsigned(after.take(re as int), 0xffff_ffff) {
                    None => None,
                    Some(idx) => {
                        let name = trim(after.skip(re + 1 as int));
                        if name.len() > 0 {
                            Some((idx, name))
                        } else {
                            None
                        }
                    },
                },
            }
        },
    }
}

/// The devices listed in `ls` between the video-device header and the
/// audio-device header; `in_video` says whether the video header was seen.
pub open spec fn video_devices(ls: Seq<Seq<char>>, in_video: bool) -> Seq<(nat, Seq<char>)>
    decreases ls.len(),
{
    if ls.len() == 0 {
        seq![]
    } else if contains(ls[0], "AVFoundation video devices:"@) {
        video_devices(ls.drop_first(), true)
    } else if contains(ls[0], "AVFoundation audio devices:"@) {
        seq![]
    } else if !in_video {
        video_devices(ls.drop_first(), false)
    } else {
        match device_entry(ls[0]) {
            Some(d) => seq![d] + video_devices(ls.drop_first(), true),
            None => video_devices(ls.drop_first(), true),
        }
    }
}

/// The indexes and names of a list of cameras.
pub open spec fn device_views(v: Seq<CameraDevice>) -> Seq<(nat, Seq<char>)> {
    v.map_values(|d: CameraDevice| (d.index as nat, d.name@))
}

fn device_entry_exec(line: &Vec<char>) -> (r: Option<(u32, Vec<char>)>)
    ensures
        r matches Some((i, n)) ==> device_entry(line@) == Some((i as nat, n@)),
        r is None ==> device_entry(line@) is None,
{
    let n = line.len();
    let bs = match rfind_char(line.as_slice(), '[') {
        Some(b) => b,
        None => return None,
    };
    let ghost after = line@.skip(bs + 1);
    assert(after =~= line@.subrange(bs + 1, n as int));
    let be = match find_char(line.as_slice(), bs + 1, ']') {
        Some(e) => e,
        None => return None,
    };
    let digits = sub_chars(line.as_slice(), bs + 1, be);
    assert(digits@ =~= after.take(be - (bs + 1)));
    let idx = match parse_uint(digits.as_slice(), 0xffff_ffff) {
        Some(i) => i,
        None => return None,
    };
    let rest = sub_chars(line.as_slice(), be + 1, n);
    assert(rest@ =~= after.skip(be - (bs + 1) + 1));
    let name = trim_chars(rest.as_slice());
    if name.len() > 0 {
        Some((idx as u32, name))
    } else {
        None
    }
}

/// The video devices that `ffmpeg -f avfoundation -list_devices true` reports:
/// the entries after the video-device header and before the audio-device
/// header, in order; lines without an index in brackets or without a name
/// are skipped.
pub fn parse_avfoundation_video_devices(stderr: &str) -> (devices: Vec<CameraDevice>)
    ensures
        device_views(devices@) == video_devices(lines(stderr@), false),
{
    let v = chars_of(stderr);
    let ls = split_lines(v.as_slice());
    let ghost lv = lines(stderr@);
    let video_header = chars_of("AVFoundation video devices:");
    let audio_header = chars_of("AVFoundation audio devices:");
    let mut devices: Vec<CameraDevice> = Vec::new();
    let mut in_video = false;
    let mut i: usize = 0;
    let mut done = false;
    assert(lv.skip(0) =~= lv);
    assert(device_views(devices@) + video_devices(lv, false) =~= video_devices(lv, false));
    while i < ls.len() && !done
        invariant
            i <= ls@.len(),
            views(ls@) == lv,
            lv.len() == ls@.len(),
            video_header@ == "AVFoundation video devices:"@,
            audio_header@ == "AVFoundation audio devices:"@,
            !done ==> video_devices(lv, false) == device_views(devices@) + video_devices(
                lv.skip(i as int),
                in_video,
            ),
            done ==> video_devices(lv, false) == device_views(devices@),
        decreases ls@.len() - i + if done { 0int } else { 1int },
    {
        let line = &ls[i];
        let ghost rest = lv.skip(i as int);
        proof {
            assert(views(ls@)[i as int] == ls@[i as int]@);
            assert(rest[0] == line@);
            assert(rest.drop_first() =~= lv.skip(i + 1));
        }
        if contains_chars(line.as_slice(), video_header.as_slice()) {
            in_video = true;
        } else if contains_chars(line.as_slice(), audio_header.as_slice()) {
            done = true;
            assert(device_views(devices@) + Seq::<(nat, Seq<char>)>::empty() =~= device_views(
                devices@,
            ));
        } else if in_video {
            match device_entry_exec(line) {
                Some((index, name)) => {
                    let d = CameraDevice { index, name: string_from_chars(name.as_slice()) };
                    let ghost before = device_views(devices@);
                    devices.push(d);
                    assert(device_views(devices@) =~= before.push((index as nat, name@)));
                    assert(before + (seq![(index as nat, name@)] + video_devices(
                        lv.skip(i + 1),
                        true,
                    )) =~= before.push((index as nat, name@)) + video_devices(lv.skip(i + 1), true));
                },
                None => {},
            }
        }
        i = i + 1;
    }
    if !done {
        assert(lv.skip(i as int) =~= Seq::<Seq<char>>::empty());
        assert(device_views(devices@) + Seq::<(nat, Seq<char>)>::empty() =~= device_views(
            devices@,
        ));
    }
    devices
}

} // verus!

verus! {

/// The size at the start of a mode `W x H @ ...`: two numbers that fit in
/// `usize`, before the first `x` and between it and the first `@`.
pub open spec fn mode_of(t: Seq<char>) -> Option<(nat, nat)> {
    match (first_index_of(t, 'x'), first_index_of(t, '@')) {
        (Some(xi), Some(ai)) => if xi < ai {
            match (
                parse_unsigned(t.take(xi as int), usize::MAX as nat),
                parse_unsigned(t.subrange(xi + 1 as int, ai as int), usize::MAX as nat),
            ) {
                (Some(w), Some(h)) => Some((w, h)),
                _ => None,
            }
        } else {
            None
        },
        _ => None,
    }
}

/// The size an `ffmpeg` "supported modes" line lists: the mode in the
/// trimmed text after the line's first `]`.
pub open spec fn mode_of_line(line: Seq<char>) -> Option<(nat, nat)> {
    match first_index_of(line, ']') {
        None => None,
        Some(b) => mode_of(trim(line.skip(b + 1 as int))),
    }
}

/// The sizes the lines list, each once, in the order of first appearance.
pub open spec fn supported_sizes(ls: Seq<Seq<char>>) -> Seq<(nat, nat)>
    decreases ls.len(),
{
    if ls.len() == 0 {
        seq![]
    } else {
        let prev = supported_sizes(ls.drop_last());
        match mode_of_line(ls.last()) {
            Some(m) => if prev.contains(m) {
                prev
            } else {
                prev.push(m)
            },
            None => prev,
        }
    }
}

/// Sizes as pairs of naturals.
pub open spec fn size_views(v: Seq<(usize, usize)>) -> Seq<(nat, nat)> {
    v.map_values(|p: (usize, usize)| (p.0 as nat, p.1 as nat))
}

fn mode_of_exec(t: &Vec<char>) -> (r: Option<(usize, usize)>)
    ensures
        r matches Some((w, h)) ==> mode_of(t@) == Some((w as nat, h as nat)),
        r is None ==> mode_of(t@) is None,
{
    let xi = match find_char(t.as_slice(), 0, 'x') {
        Some(i) => i,
        None => {
            assert(t@.subrange(0, t@.len() as int) =~= t@);
            return None;
        },
    };
    let ai = match find_char(t.as_slice(), 0, '@') {
        Some(i) => i,
        None => {
            assert(t@.subrange(0, t@.len() as int) =~= t@);
            return None;
        },
    };
    assert(t@.subrange(0, t@.len() as int) =~= t@);
    if xi >= ai {
        return None;
    }
    let wd = sub_chars(t.as_slice(), 0, xi);
    assert(wd@ =~= t@.take(xi as int));
    let hd = sub_chars(t.as_slice(), xi + 1, ai);
    let w = parse_uint(wd.as_slice(), usize::MAX as u64);
    let h = parse_uint(hd.as_slice(), usize::MAX as u64);
    match (w, h) {
        (Some(w), Some(h)) => Some((w as usize, h as usize)),
        _ => None,
    }
}

fn mode_of_line_exec(line: &Vec<char>) -> (r: Option<(usize, usize)>)
    ensures
        r matches Some((w, h)) ==> mode_of_line(line@) == Some((w as nat, h as nat)),
        r is None ==> mode_of_line(line@) is None,
{
    assert(line@.subrange(0, line@.len() as int) =~= line@);
    match find_char(line.as_slice(), 0, ']') {
        None => None,
        Some(b) => {
            let rest = sub_chars(line.as_slice(), b + 1, line.len());
            assert(rest@ =~= line@.skip(b + 1));
            let t = trim_chars(rest.as_slice());
            mode_of_exec(&t)
        },
    }
}

fn contains_size(v: &Vec<(usize, usize)>, m: (usize, usize)) -> (b: bool)
    ensures
        b == size_views(v@).contains((m.0 as nat, m.1 as nat)),
{
    let mut k: usize = 0;
    while k < v.len()
        invariant
            k <= v@.len(),
            forall|j: int| 0 <= j < k ==> size_views(v@)[j] != (m.0 as nat, m.1 as nat),
        decreases v@.len() - k,
    {
        if v[k].0 == m.0 && v[k].1 == m.1 {
            assert(size_views(v@)[k as int] == (m.0 as nat, m.1 as nat));
            return true;
        }
        k = k + 1;
    }
    false
}

/// The video sizes that `ffmpeg` reports as supported after refusing a size:
/// each `W x H @ ...` mode once, in the order listed.
pub fn parse_supported_video_sizes(stderr: &str) -> (sizes: Vec<(usize, usize)>)
    ensures
        size_views(sizes@) == supported_sizes(lines(stderr@)),
{
    let v = chars_of(stderr);
    let ls = split_lines(v.as_slice());
    let ghost lv = lines(stderr@);
    let mut sizes: Vec<(usize, usize)> = Vec::new();
    let mut i: usize = 0;
    assert(lv.take(0) =~= Seq::<Seq<char>>::empty());
    while i < ls.len()
        invariant
            i <= ls@.len(),
            views(ls@) == lv,
            lv.len() == ls@.len(),
            size_views(sizes@) == supported_sizes(lv.take(i as int)),
        decreases ls@.len() - i,
    {
        proof {
            assert(views(ls@)[i as int] == ls@[i as int]@);
            assert(lv.take(i + 1).drop_last() =~= lv.take(i as int));
            assert(lv.take(i + 1).last() == ls@[i as int]@);
        }
        match mode_of_line_exec(&ls[i]) {
            Some(m) => {
                if !contains_size(&sizes, m) {
                    let ghost before = size_views(sizes@);
                    sizes.push(m);
                    assert(size_views(sizes@) =~= before.push((m.0 as nat, m.1 as nat)));
                }
            },
            None => {},
        }
        i = i + 1;
    }
    assert(lv.take(i as int) =~= lv);
    sizes
}

} // verus!

verus! {

/// `s` is at least as wide and as tall as `req`.
pub open spec fn covers(s: (nat, nat), req: (nat, nat)) -> bool {
    s.0 >= req.0 && s.1 >= req.1
}

/// `s` has the aspect ratio of `req`.
pub open spec fn same_aspect(s: (nat, nat), req: (nat, nat)) -> bool {
    s.0 * req.1 == s.1 * req.0
}

/// `a` is a better capture size than `b` for `req`: it keeps the requested
/// aspect ratio where `b` does not, or, on equal terms, has fewer pixels.
pub open spec fn better_size(a: (nat, nat), b: (nat, nat), req: (nat, nat)) -> bool {
    let ka = same_aspect(a, req);
    let kb = same_aspect(b, req);
    (ka && !kb) || (ka == kb && a.0 * a.1 < b.0 * b.1)
}

/// The first of the best sizes in `s` that cover `req`, if any covers it.
pub open spec fn best_size(s: Seq<(nat, nat)>, req: (nat, nat)) -> Option<(nat, nat)>
    decreases s.len(),
{
    if s.len() == 0 {
        None
    } else {
        let prev = best_size(s.drop_last(), req);
        let x = s.last();
        if !covers(x, req) {
            prev
        } else {
            match prev {
                None => Some(x),
                Some(c) => if better_size(x, c, req) {
                    Some(x)
                } else {
                    prev
                },
            }
        }
    }
}

fn area_exec(w: usize, h: usize) -> (a: u128)
    ensures
        a == w * h,
{
    assert((w as int) * (h as int) <= 0xffff_ffff_ffff_ffff * 0xffff_ffff_ffff_ffff) by (nonlinear_arith)
        requires
            (w as int) <= 0xffff_ffff_ffff_ffff,
            (h as int) <= 0xffff_ffff_ffff_ffff,
    ;
    (w as u128) * (h as u128)
}

fn better_size_exec(a: (usize, usize), b: (usize, usize), req: (usize, usize)) -> (r: bool)
    ensures
        r == better_size(
            (a.0 as nat, a.1 as nat),
            (b.0 as nat, b.1 as nat),
            (req.0 as nat, req.1 as nat),
        ),
{
    let ka = area_exec(a.0, req.1) == area_exec(a.1, req.0);
    let kb = area_exec(b.0, req.1) == area_exec(b.1, req.0);
    (ka && !kb) || (ka == kb && area_exec(a.0, a.1) < area_exec(b.0, b.1))
}

/// The capture size to ask for among the sizes a camera supports: of those at
/// least as large as `requested` in both directions, the ones with its aspect
/// ratio first, then the fewest pixels, then the first listed; `None` when no
/// size is large enough.
pub fn choose_supported_video_size(requested: (usize, usize), supported: &[(usize, usize)]) -> (r:
    Option<(usize, usize)>)
    ensures
        r matches Some(s) ==> best_size(size_views(supported@), (
            requested.0 as nat,
            requested.1 as nat,
        )) == Some((s.0 as nat, s.1 as nat)),
        r is None ==> best_size(
            size_views(supported@),
            (requested.0 as nat, requested.1 as nat),
        ) is None,
{
    let ghost req = (requested.0 as nat, requested.1 as nat);
    let ghost all = size_views(supported@);
    let mut best: Option<(usize, usize)> = None;
    let mut i: usize = 0;
    assert(all.take(0) =~= Seq::<(nat, nat)>::empty());
    while i < supported.len()
        invariant
            i <= supported@.len(),
            req == (requested.0 as nat, requested.1 as nat),
            all == size_views(supported@),
            best matches Some(s) ==> best_size(all.take(i as int), req) == Some(
                (s.0 as nat, s.1 as nat),
            ),
            best is None ==> best_size(all.take(i as int), req) is None,
        decreases supported@.len() - i,
    {
        let x = supported[i];
        proof {
            assert(all.take(i + 1).drop_last() =~= all.take(i as int));
            assert(all.take(i + 1).last() == (x.0 as nat, x.1 as nat));
        }
        if x.0 >= requested.0 && x.1 >= requested.1 {
            match best {
                None => {
                    best = Some(x);
                },
                Some(c) => {
                    if better_size_exec(x, c, requested) {
                        best = Some(x);
                    }
                },
            }
        }
        i = i + 1;
    }
    assert(all.take(i as int) =~= all);
    best
}

/// The chosen size is listed, covers the request, and no listed size that
/// covers the request is better; exactly when some listed size covers it.
pub proof fn lemma_best_size_is_best(s: Seq<(nat, nat)>, req: (nat, nat))
    ensures
        best_size(s, req) is None <==> forall|i: int| 0 <= i < s.len() ==> !covers(#[trigger] s[i], req),
        best_size(s, req) matches Some(b) ==> {
            &&& s.contains(b)
            &&& covers(b, req)
            &&& forall|i: int| 0 <= i < s.len() && covers(#[trigger] s[i], req) ==> !better_size(s[i], b, req)
        },
    decreases s.len(),
{
    if s.len() > 0 {
        let p = s.drop_last();
        lemma_best_size_is_best(p, req);
        assert forall|i: int| 0 <= i < p.len() implies #[trigger] p[i] == s[i] by {}
        let x = s.last();
        assert(s[s.len() - 1] == x);
        match best_size(p, req) {
            Some(c) => {
                let k = choose|k: int| 0 <= k < p.len() && p[k] == c;
                assert(s[k] == c);
                if covers(x, req) && better_size(x, c, req) {
                    assert forall|i: int| 0 <= i < s.len() && covers(#[trigger] s[i], req) implies !better_size(s[i], x, req) by {
                        if i < s.len() - 1 {
                            assert(s[i] == p[i]);
                            assert(!better_size(p[i], c, req));
                            assert((x.0 * x.1 < c.0 * c.1) || (same_aspect(x, req) && !same_aspect(c, req)));
                        }
                    }
                } else {
                    assert forall|i: int| 0 <= i < s.len() && covers(#[trigger] s[i], req) implies !better_size(s[i], c, req) by {
                        if i < s.len() - 1 {
                            assert(s[i] == p[i]);
                        }
                    }
                }
            },
            None => {
                assert forall|i: int| 0 <= i < s.len() - 1 implies !covers(#[trigger] s[i], req) by {
                    assert(s[i] == p[i]);
                }
                if covers(x, req) {
                    assert forall|i: int| 0 <= i < s.len() && covers(#[trigger] s[i], req) implies !better_size(s[i], x, req) by {
                        if i < s.len() - 1 {
                            assert(s[i] == p[i]);
                        }
                    }
                }
            },
        }
    }
}

} // verus!

verus! {

/// The camera a `/dev` entry names: `video` and an index that fits in `u32`;
/// its name is the trimmed sysfs name where it could be read, its device path
/// otherwise.
pub open spec fn dev_camera(file_name: Seq<char>, sys_name: Option<Seq<char>>) -> Option<
    (nat, Seq<char>),
> {
    if file_name.len() >= 5 && file_name.take(5) == "video"@ {
        match parse_unsigned(file_name.skip(5), 0xffff_ffff) {
            Some(index) => Some(
                (
                    index,
                    match sys_name {
                        Some(n) => trim(n),
                        None => "/dev/"@ + file_name,
                    },
                ),
            ),
            None => None,
        }
    } else {
        None
    }
}

/// The cameras of the entries, in the order of the entries.
pub open spec fn dev_cameras(entries: Seq<(Seq<char>, Option<Seq<char>>)>) -> Seq<
    (nat, Seq<char>),
>
    decreases entries.len(),
{
    if entries.len() == 0 {
        seq![]
    } else {
        let prev = dev_cameras(entries.drop_last());
        match dev_camera(entries.last().0, entries.last().1) {
            Some(d) => prev.push(d),
            None => prev,
        }
    }
}

/// `d` put into `s` after every entry whose index is not larger.
pub open spec fn insert_by_index(s: Seq<(nat, Seq<char>)>, d: (nat, Seq<char>)) -> Seq<
    (nat, Seq<char>),
>
    decreases s.len(),
{
    if s.len() == 0 {
        seq![d]
    } else if s.last().0 <= d.0 {
        s.push(d)
    } else {
        insert_by_index(s.drop_last(), d).push(s.last())
    }
}

/// `s` sorted by index, entries with equal indexes kept in their order.
pub open spec fn sort_by_index(s: Seq<(nat, Seq<char>)>) -> Seq<(nat, Seq<char>)>
    decreases s.len(),
{
    if s.len() == 0 {
        seq![]
    } else {
        insert_by_index(sort_by_index(s.drop_last()), s.last())
    }
}

/// The indexes never decrease along `s`.
pub open spec fn sorted_by_index(s: Seq<(nat, Seq<char>)>) -> bool {
    forall|i: int, j: int| 0 <= i <= j < s.len() ==> s[i].0 <= s[j].0
}

/// Directory entries with the text of their sysfs name file where it was
/// read.
pub open spec fn entry_views(v: Seq<(String, Option<String>)>) -> Seq<(Seq<char>, Option<Seq<char>>)> {
    v.map_values(
        |e: (String, Option<String>)|
            (
                e.0@,
                match e.1 {
                    Some(n) => Some(n@),
                    None => None,
                },
            ),
    )
}

proof fn lemma_insert_at(s: Seq<(nat, Seq<char>)>, d: (nat, Seq<char>), k: int)
    requires
        0 <= k <= s.len(),
        forall|j: int| k <= j < s.len() ==> s[j].0 > d.0,
        k > 0 ==> s[k - 1].0 <= d.0,
    ensures
        insert_by_index(s, d) == s.insert(k, d),
    decreases s.len(),
{
    if s.len() == 0 {
        assert(s.insert(k, d) =~= seq![d]);
    } else if s.last().0 <= d.0 {
        assert(k == s.len());
        assert(s.insert(k, d) =~= s.push(d));
    } else {
        lemma_insert_at(s.drop_last(), d, k);
        assert(s.insert(k, d) =~= s.drop_last().insert(k, d).push(s.last()));
    }
}

fn dev_camera_exec(file_name: &String, sys_name: &Option<String>) -> (r: Option<CameraDevice>)
    ensures
        r matches Some(c) ==> dev_camera(
            file_name@,
            match sys_name {
                Some(n) => Some(n@),
                None => None,
            },
        ) == Some((c.index as nat, c.name@)),
        r is None ==> dev_camera(
            file_name@,
            match sys_name {
                Some(n) => Some(n@),
                None => None,
            },
        ) is None,
{
    let v = chars_of(file_name.as_str());
    let prefix = chars_of("video");
    proof {
        reveal_strlit("video");
    }
    if v.len() < 5 || !occurs_at_exec(v.as_slice(), prefix.as_slice(), 0) {
        proof {
            if v@.len() >= 5 && v@.take(5) == "video"@ {
                assert(v@.subrange(0, 5) =~= v@.take(5));
            }
        }
        return None;
    }
    assert(v@.take(5) =~= v@.subrange(0, 5));
    let digits = sub_chars(v.as_slice(), 5, v.len());
    assert(digits@ =~= v@.skip(5));
    let index = match parse_uint(digits.as_slice(), 0xffff_ffff) {
        Some(i) => i as u32,
        None => return None,
    };
    let name = match sys_name {
        Some(n) => {
            let t = trim_chars(chars_of(n.as_str()).as_slice());
            string_from_chars(t.as_slice())
        },
        None => {
            let mut p = "/dev/".to_owned();
            p.append(file_name.as_str());
            p
        },
    };
    Some(CameraDevice { index, name })
}

/// The cameras among the `/dev` entries (`video` and an index), named by
/// their sysfs name where one was read and by their device path otherwise,
/// sorted by index; entries with equal indexes keep their order.
pub fn cameras_from_dev_entries(entries: &[(String, Option<String>)]) -> (devices: Vec<
    CameraDevice,
>)
    ensures
        device_views(devices@) == sort_by_index(dev_cameras(entry_views(entries@))),
{
    let ghost ev = entry_views(entries@);
    let mut devices: Vec<CameraDevice> = Vec::new();
    let mut i: usize = 0;
    assert(ev.take(0) =~= Seq::<(Seq<char>, Option<Seq<char>>)>::empty());
    while i < entries.len()
        invariant
            i <= entries@.len(),
            ev == entry_views(entries@),
            device_views(devices@) == sort_by_index(dev_cameras(ev.take(i as int))),
        decreases entries@.len() - i,
    {
        let ghost before = device_views(devices@);
        let ghost prev = dev_cameras(ev.take(i as int));
        proof {
            assert(ev.take(i + 1).drop_last() =~= ev.take(i as int));
            assert(ev.take(i + 1).last() == ev[i as int]);
            assert(ev[i as int] == (
                entries@[i as int].0@,
                match entries@[i as int].1 {
                    Some(n) => Some(n@),
                    None => None,
                },
            ));
        }
        match dev_camera_exec(&entries[i].0, &entries[i].1) {
            Some(d) => {
                let ghost dv = (d.index as nat, d.name@);
                assert(prev.push(dv).drop_last() =~= prev);
                assert(dev_cameras(ev.take(i + 1)) == prev.push(dv));
                let mut k = devices.len();
                while k > 0 && devices[k - 1].index > d.index
                    invariant
                        k <= devices@.len(),
                        dv.0 == d.index,
                        device_views(devices@) == before,
                        forall|j: int| k <= j < before.len() ==> before[j].0 > dv.0,
                    decreases k,
                {
                    assert(before[k - 1].0 == devices@[k - 1].index);
                    k = k - 1;
                }
                proof {
                    lemma_insert_at(before, dv, k as int);
                }
                devices.insert(k, d);
                assert(device_views(devices@) =~= before.insert(k as int, dv));
            },
            None => {},
        }
        i = i + 1;
    }
    assert(ev.take(i as int) =~= ev);
    devices
}

proof fn lemma_insert_sorted(s: Seq<(nat, Seq<char>)>, d: (nat, Seq<char>))
    requires
        sorted_by_index(s),
    ensures
        sorted_by_index(insert_by_index(s, d)),
        insert_by_index(s, d).to_multiset() == s.to_multiset().insert(d),
        insert_by_index(s, d).len() == s.len() + 1,
        forall|i: int| 0 <= i < insert_by_index(s, d).len() ==> (#[trigger] insert_by_index(s, d)[i] == d || s.contains(insert_by_index(s, d)[i])),
    decreases s.len(),
{
    broadcast use vstd::seq_lib::group_to_multiset_ensures;
    if s.len() == 0 {
        assert(seq![d] =~= Seq::<(nat, Seq<char>)>::empty().push(d));
    } else if s.last().0 <= d.0 {
    } else {
        let p = s.drop_last();
        assert(sorted_by_index(p));
        lemma_insert_sorted(p, d);
        let q = insert_by_index(p, d);
        assert(s =~= p.push(s.last()));
        assert forall|i: int| 0 <= i < q.len() implies #[trigger] q[i].0 <= s.last().0 by {
            if q[i] != d {
                let k = choose|k: int| 0 <= k < p.len() && p[k] == q[i];
                assert(s[k] == p[k]);
            }
        }
        assert forall|i: int| 0 <= i < q.push(s.last()).len() implies (#[trigger] q.push(s.last())[i] == d || s.contains(q.push(s.last())[i])) by {
            if i < q.len() && q[i] != d {
                let k = choose|k: int| 0 <= k < p.len() && p[k] == q[i];
                assert(s[k] == p[k]);
            } else if i == q.len() {
                assert(s[s.len() - 1] == s.last());
            }
        }
    }
}

/// The cameras come out sorted by index, and they are the cameras of the
/// entries, each as often as it occurs there.
pub proof fn lemma_cameras_sorted(s: Seq<(nat, Seq<char>)>)
    ensures
        sorted_by_index(sort_by_index(s)),
        sort_by_index(s).to_multiset() == s.to_multiset(),
    decreases s.len(),
{
    broadcast use vstd::seq_lib::group_to_multiset_ensures;
    if s.len() > 0 {
        lemma_cameras_sorted(s.drop_last());
        lemma_insert_sorted(sort_by_index(s.drop_last()), s.last());
        assert(s =~= s.drop_last().push(s.last()));
    }
}

} // verus!

verus! {

/// How much of `ffmpeg`'s error output is kept.
pub const STDERR_LIMIT: usize = 16384;

/// Appends `chunk` to the kept error output and drops the oldest bytes beyond
/// the limit.
pub fn append_stderr_tail(buffer: &mut Vec<u8>, chunk: &[u8])
    requires
        old(buffer)@.len() + chunk@.len() <= usize::MAX,
    ensures
        final(buffer)@ == {
            let all = old(buffer)@ + chunk@;
            if all.len() > STDERR_LIMIT {
                all.skip(all.len() - STDERR_LIMIT)
            } else {
                all
            }
        },
{
    let ghost all = buffer@ + chunk@;
    let mut i: usize = 0;
    while i < chunk.len()
        invariant
            i <= chunk@.len(),
            buffer@ == old(buffer)@ + chunk@.take(i as int),
        decreases chunk@.len() - i,
    {
        buffer.push(chunk[i]);
        i = i + 1;
        assert(buffer@ =~= old(buffer)@ + chunk@.take(i as int));
    }
    assert(chunk@.take(i as int) =~= chunk@);
    if buffer.len() > STDERR_LIMIT {
        let excess = buffer.len() - STDERR_LIMIT;
        let mut kept: Vec<u8> = Vec::new();
        let mut k = excess;
        while k < buffer.len()
            invariant
                excess <= k <= buffer@.len(),
                buffer@ == all,
                kept@ == all.subrange(excess as int, k as int),
            decreases buffer@.len() - k,
        {
            kept.push(buffer[k]);
            k = k + 1;
            assert(kept@ =~= all.subrange(excess as int, k as int));
        }
        *buffer = kept;
        assert(buffer@ =~= all.skip(all.len() - STDERR_LIMIT));
    }
}

/// The message when `ffmpeg` stops before a whole frame: the exit status
/// where one was seen, and the trimmed error output where there is any.
pub open spec fn failure_message(status: Option<Seq<char>>, stderr: Seq<char>) -> Seq<char> {
    "ffmpeg closed before producing a complete RGB frame"@ + (match status {
        Some(s) => " (status: "@ + s + ")"@,
        None => Seq::empty(),
    }) + if trim(stderr).len() > 0 {
        "\nffmpeg stderr:\n"@ + trim(stderr)
    } else {
        Seq::empty()
    }
}

/// Explains why no frame could be read from `ffmpeg`.
pub fn capture_failure_message(status: Option<String>, stderr: &str) -> (m: String)
    ensures
        m@ == failure_message(
            match status {
                Some(s) => Some(s@),
                None => None,
            },
            stderr@,
        ),
{
    let mut m = "ffmpeg closed before producing a complete RGB frame".to_owned();
    let ghost st = match &status {
        Some(s) => Some(s@),
        None => None,
    };
    if let Some(s) = &status {
        m.append(" (status: ");
        m.append(s.as_str());
        m.append(")");
    }
    let t = trim_chars(chars_of(stderr).as_slice());
    if t.len() > 0 {
        m.append("\nffmpeg stderr:\n");
        let ts = string_from_chars(t.as_slice());
        m.append(ts.as_str());
    }
    assert(m@ =~= failure_message(st, stderr@));
    m
}

} // verus!

verus! {

/// A requested size that the camera lists is the size chosen, when neither
/// of its sides is zero.
pub proof fn lemma_listed_request_is_chosen(s: Seq<(nat, nat)>, req: (nat, nat))
    requires
        s.contains(req),
        req.0 > 0,
        req.1 > 0,
    ensures
        best_size(s, req) == Some(req),
{
    lemma_best_size_is_best(s, req);
    let k = choose|k: int| 0 <= k < s.len() && s[k] == req;
    assert(covers(s[k], req));
    let b = best_size(s, req)->0;
    assert(!better_size(req, b, req));
    assert(same_aspect(req, req)) by (nonlinear_arith);
    assert(same_aspect(b, req));
    assert(b.0 * b.1 <= req.0 * req.1);
    assert(b.0 >= req.0 && b.1 >= req.1);
    assert(b.0 == req.0 && b.1 == req.1) by (nonlinear_arith)
        requires
            b.0 >= req.0 > 0,
            b.1 >= req.1 > 0,
            b.0 * b.1 <= req.0 * req.1,
    ;
}

} // verus!

verus! {

/// The `ffmpeg` command line asks for what was requested on every platform:
/// after the quiet-output prelude comes the input format, then `-framerate`
/// with the requested frames per second and `-video_size` with the requested
/// width and height; the input is the camera's index on macOS and its
/// `/dev/video` device elsewhere; and the output is always mirrored raw RGB24
/// on standard output.
pub proof fn lemma_ffmpeg_args_carry_the_request(
    platform: Platform,
    camera: nat,
    fps: nat,
    width: nat,
    height: nat,
)
    ensures
        ({
            let a = ffmpeg_args(platform, camera, fps, width, height);
            let n = a.len();
            &&& a.subrange(0, 4) == seq!["-hide_banner"@, "-nostdin"@, "-loglevel"@, "error"@]
            &&& a[4] == "-f"@
            &&& a[6] == "-framerate"@
            &&& a[7] == decimal(fps)
            &&& a[8] == "-video_size"@
            &&& a[9] == decimal(width) + "x"@ + decimal(height)
            &&& a.subrange(n - 8, n as int) == seq![
                "-vf"@,
                "hflip"@,
                "-f"@,
                "rawvideo"@,
                "-pix_fmt"@,
                "rgb24"@,
                "-an"@,
                "pipe:1"@,
            ]
            &&& platform == Platform::Macos ==> {
                &&& n == 22
                &&& a[5] == "avfoundation"@
                &&& a[10] == "-pixel_format"@ && a[11] == "nv12"@
                &&& a[12] == "-i"@ && a[13] == decimal(camera)
            }
            &&& platform != Platform::Macos ==> {
                &&& n == 20
                &&& a[5] == "v4l2"@
                &&& a[10] == "-i"@ && a[11] == "/dev/video"@ + decimal(camera)
            }
        }),
{
    let a = ffmpeg_args(platform, camera, fps, width, height);
    let n = a.len();
    assert(a.subrange(0, 4) =~= seq!["-hide_banner"@, "-nostdin"@, "-loglevel"@, "error"@]);
    assert(a.subrange(n - 8, n as int) =~= ffmpeg_output());
}

} // verus!
