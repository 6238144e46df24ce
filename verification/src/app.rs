//! The interactive camera's decisions: command-line values, presets, what
//! each key does to the live view, the camera picker, and the text of the
//! overlays and of recording playback.

use vstd::prelude::*;

use crate::capture::CameraDevice;
use crate::color::{
    ansi_prefix_of, display_rgb, lemma_escape_names_the_displayed_colour, mode_label, next_mode,
    sgr_indexed, sgr_rgb, ColorMode, Rgb,
};
use crate::recording::RecordingOptions;
use crate::capture::string_seq_views;
use crate::render::{join_newline, RenderedFrame, RAMP_LONG, RAMP_SHORT};
use crate::text::{
    chars_of, decimal, lines, parse_uint, parse_unsigned, push_decimal, split_lines,
    string_from_chars, trim, trim_chars, views,
};
use crate::ui::{
    bar_text, center_ansi_line, center_spec, csi_closed, keycap, keycap_exec, lemma_pad_width,
    pad_ansi_line, pad_spec,
    push_spaces, sgr_background, shortcut_bar, shortcut_views, spaces, visible_count,
    visible_width, Shortcut,
};

verus! {

/// The `serve` subcommand's settings.
#[derive(Clone, Debug)]
pub struct ServeArgs {
    pub port: u16,
    pub bind: String,
    pub local: bool,
    pub token: Option<String>,
    pub cols: usize,
    pub rows: usize,
    pub clear_each_frame: bool,
}

/// The subcommands.
#[derive(Clone, Debug)]
pub enum Command {
    /// Broadcast ASCII frames over HTTP (curl or browser).
    Serve(ServeArgs),
}

/// Which character ramp to draw with.
#[derive(Clone, Copy, Debug, PartialEq, Eq, Structural)]
pub enum RampChoice {
    Long,
    Short,
}

impl RampChoice {
    /// Reads `long` or `short`; anything else is refused with a message that
    /// names it.
    pub fn parse(value: &str) -> (r: Result<RampChoice, String>)
        ensures
            value@ == "long"@ ==> r == Ok::<RampChoice, String>(RampChoice::Long),
            value@ == "short"@ ==> r == Ok::<RampChoice, String>(RampChoice::Short),
            value@ != "long"@ && value@ != "short"@ ==> (r matches Err(m) && m@
                == "expected long or short, got "@ + value@),
    {
        proof {
            reveal_strlit("long");
            reveal_strlit("short");
            assert("long"@.len() != "short"@.len());
        }
        if crate::text::str_eq(value, "long") {
            Ok(RampChoice::Long)
        } else if crate::text::str_eq(value, "short") {
            Ok(RampChoice::Short)
        } else {
            let mut m = "expected long or short, got ".to_owned();
            m.append(value);
            Err(m)
        }
    }

    /// The name the command line uses.
    pub fn name(self) -> (s: &'static str)
        ensures
            s@ == match self {
                RampChoice::Long => "long"@,
                RampChoice::Short => "short"@,
            },
    {
        match self {
            RampChoice::Long => "long",
            RampChoice::Short => "short",
        }
    }

    /// The characters of the ramp, darkest first.
    pub fn ramp(self) -> (s: &'static str)
        ensures
            s@ == match self {
                RampChoice::Long => RAMP_LONG@,
                RampChoice::Short => RAMP_SHORT@,
            },
    {
        match self {
            RampChoice::Long => RAMP_LONG,
            RampChoice::Short => RAMP_SHORT,
        }
    }
}

impl std::str::FromStr for RampChoice {
    type Err = String;

    fn from_str(value: &str) -> (r: Result<Self, Self::Err>)
        ensures
            value@ == "long"@ ==> r == Ok::<RampChoice, String>(RampChoice::Long),
            value@ == "short"@ ==> r == Ok::<RampChoice, String>(RampChoice::Short),
            value@ != "long"@ && value@ != "short"@ ==> (r matches Err(m) && m@
                == "expected long or short, got "@ + value@),
    {
        RampChoice::parse(value)
    }
}

/// A named set of colour and recording settings.
#[derive(Clone, Copy, Debug, PartialEq, Eq, Structural)]
pub enum Preset {
    Raw,
    Max,
    Gray,
    Ascii,
    Green,
    GreenGradient,
    Red,
    RedGradient,
}

/// The preset after `p` in the cycle Raw, Max, Gray, Ascii, Green,
/// GreenGradient, Red, RedGradient.
pub open spec fn next_preset(p: Preset) -> Preset {
    match p {
        Preset::Raw => Preset::Max,
        Preset::Max => Preset::Gray,
        Preset::Gray => Preset::Ascii,
        Preset::Ascii => Preset::Green,
        Preset::Green => Preset::GreenGradient,
        Preset::GreenGradient => Preset::Red,
        Preset::Red => Preset::RedGradient,
        Preset::RedGradient => Preset::Raw,
    }
}

/// `next_preset` applied `n` times.
pub open spec fn next_preset_n(p: Preset, n: nat) -> Preset
    decreases n,
{
    if n == 0 {
        p
    } else {
        next_preset_n(next_preset(p), (n - 1) as nat)
    }
}

/// The preset's name in the status bar and the settings.
pub open spec fn preset_label(p: Preset) -> Seq<char> {
    match p {
        Preset::Raw => "Raw"@,
        Preset::Max => "Max"@,
        Preset::Gray => "Gray"@,
        Preset::Ascii => "Ascii"@,
        Preset::Green => "Green"@,
        Preset::GreenGradient => "GreenGrad"@,
        Preset::Red => "Red"@,
        Preset::RedGradient => "RedGrad"@,
    }
}

impl Preset {
    /// The next preset in the cycle.
    pub fn next(self) -> (p: Preset)
        ensures
            p == next_preset(self),
    {
        match self {
            Preset::Raw => Preset::Max,
            Preset::Max => Preset::Gray,
            Preset::Gray => Preset::Ascii,
            Preset::Ascii => Preset::Green,
            Preset::Green => Preset::GreenGradient,
            Preset::GreenGradient => Preset::Red,
            Preset::Red => Preset::RedGradient,
            Preset::RedGradient => Preset::Raw,
        }
    }

    /// The preset's name.
    pub fn label(self) -> (s: &'static str)
        ensures
            s@ == preset_label(self),
    {
        match self {
            Preset::Raw => "Raw",
            Preset::Max => "Max",
            Preset::Gray => "Gray",
            Preset::Ascii => "Ascii",
            Preset::Green => "Green",
            Preset::GreenGradient => "GreenGrad",
            Preset::Red => "Red",
            Preset::RedGradient => "RedGrad",
        }
    }
}

/// Cycling the presets eight times returns to the starting preset, and no
/// shorter positive number of steps does.
pub proof fn lemma_preset_cycle_period(p: Preset)
    ensures
        next_preset_n(p, 8) == p,
        forall|k: nat| 0 < k < 8 ==> #[trigger] next_preset_n(p, k) != p,
{
    reveal_with_fuel(next_preset_n, 9);
}

/// `on` or `off`.
pub fn on_off(value: bool) -> (s: &'static str)
    ensures
        s@ == if value {
            "on"@
        } else {
            "off"@
        },
{
    if value {
        "on"
    } else {
        "off"
    }
}

/// What to do with a rendered frame while recording.
#[derive(Clone, Copy, Debug, PartialEq, Eq, Structural)]
pub enum RecordingFrameAction {
    Write,
    Stop,
}

/// Stop a recording when the frame's dimensions differ from the recording's;
/// write the frame otherwise.
pub fn recording_frame_action(
    recording_dimensions: Option<(usize, usize)>,
    frame_dimensions: (usize, usize),
) -> (a: RecordingFrameAction)
    ensures
        a == (if recording_dimensions matches Some(d) && d != frame_dimensions {
            RecordingFrameAction::Stop
        } else {
            RecordingFrameAction::Write
        }),
{
    match recording_dimensions {
        Some(d) => if d.0 != frame_dimensions.0 || d.1 != frame_dimensions.1 {
            RecordingFrameAction::Stop
        } else {
            RecordingFrameAction::Write
        },
        None => RecordingFrameAction::Write,
    }
}

} // verus!

verus! {

/// A key press, as far as the camera's controls tell keys apart.
#[derive(Clone, Copy, Debug, PartialEq, Eq, Structural)]
pub enum Key {
    Char(char),
    Up,
    Down,
    Left,
    Right,
    Esc,
    Enter,
    Home,
    End,
    Other,
}

/// The settings of the live view that keys change.
#[derive(Clone, Copy, Debug, PartialEq, Eq, Structural)]
pub struct LiveState {
    pub color_mode: ColorMode,
    pub preset: Preset,
    pub brightness: i16,
    pub invert: bool,
    pub rotation: u8,
    pub recording_options: RecordingOptions,
    pub show_help: bool,
    pub show_settings: bool,
    pub open_picker: bool,
}

/// What a key asks of the program beyond the settings it changes.
#[derive(Clone, Copy, Debug, PartialEq, Eq, Structural)]
pub enum KeyAction {
    /// Nothing more.
    Nothing,
    /// Leave the program.
    Quit,
    /// Start a recording, or stop the one running.
    ToggleRecording,
    /// Save an HTML screenshot and a one-frame recording.
    CaptureScreenshots,
    /// Raise the contrast a step.
    ContrastUp,
    /// Lower the contrast a step.
    ContrastDown,
}

/// The state with preset `p` chosen: its colour mode, and for Raw and Max its
/// recording options too.
pub open spec fn with_preset(s: LiveState, p: Preset) -> LiveState {
    let s = LiveState { preset: p, ..s };
    match p {
        Preset::Raw => LiveState {
            color_mode: ColorMode::TrueColor,
            recording_options: RecordingOptions {
                compress: false,
                skip_identical: false,
                ..s.recording_options
            },
            ..s
        },
        Preset::Max => LiveState {
            color_mode: ColorMode::Ansi256,
            recording_options: RecordingOptions {
                compress: true,
                skip_identical: true,
                ..s.recording_options
            },
            ..s
        },
        Preset::Gray => LiveState { color_mode: ColorMode::Gray, ..s },
        Preset::Ascii => LiveState { color_mode: ColorMode::Off, ..s },
        Preset::Green => LiveState { color_mode: ColorMode::Green, ..s },
        Preset::GreenGradient => LiveState { color_mode: ColorMode::GreenGradient, ..s },
        Preset::Red => LiveState { color_mode: ColorMode::Red, ..s },
        Preset::RedGradient => LiveState { color_mode: ColorMode::RedGradient, ..s },
    }
}

/// A key in the settings overlay: close it, cycle the colour mode, toggle
/// compression or skipping identical frames, or go to the next preset.
pub open spec fn settings_step(s: LiveState, k: Key) -> LiveState {
    match k {
        Key::Esc => LiveState { show_settings: false, ..s },
        Key::Char(c) => if c == 's' {
            LiveState { show_settings: false, ..s }
        } else if c == '1' {
            LiveState { color_mode: next_mode(s.color_mode), ..s }
        } else if c == '2' {
            LiveState {
                recording_options: RecordingOptions {
                    compress: !s.recording_options.compress,
                    ..s.recording_options
                },
                ..s
            }
        } else if c == '3' {
            LiveState {
                recording_options: RecordingOptions {
                    skip_identical: !s.recording_options.skip_identical,
                    ..s.recording_options
                },
                ..s
            }
        } else if c == '4' {
            with_preset(s, next_preset(s.preset))
        } else {
            s
        },
        _ => s,
    }
}

/// A key in the live view: with the help shown, `h`, Esc or `q` closes it and
/// nothing else happens; with the settings shown, the key goes to them;
/// otherwise `q` quits, `h` and `s` open the help and the settings, `1`
/// toggles inversion, `2` rotates a quarter turn, `3` and `4` record and
/// capture, `5` cycles the preset, `c` opens the camera picker, Up and Down
/// step the contrast, and Right and Left step the brightness by 5 within
/// -100..=100.
pub open spec fn key_step(s: LiveState, k: Key) -> (LiveState, KeyAction) {
    if s.show_help {
        if k == Key::Char('h') || k == Key::Esc || k == Key::Char('q') {
            (LiveState { show_help: false, ..s }, KeyAction::Nothing)
        } else {
            (s, KeyAction::Nothing)
        }
    } else if s.show_settings {
        (settings_step(s, k), KeyAction::Nothing)
    } else {
        match k {
            Key::Char(c) => if c == 'q' {
                (s, KeyAction::Quit)
            } else if c == 'h' {
                (LiveState { show_help: true, ..s }, KeyAction::Nothing)
            } else if c == 's' {
                (LiveState { show_settings: true, ..s }, KeyAction::Nothing)
            } else if c == '1' {
                (LiveState { invert: !s.invert, ..s }, KeyAction::Nothing)
            } else if c == '2' {
                (LiveState { rotation: ((s.rotation + 1) % 4) as u8, ..s }, KeyAction::Nothing)
            } else if c == '3' {
                (s, KeyAction::ToggleRecording)
            } else if c == '4' {
                (s, KeyAction::CaptureScreenshots)
            } else if c == '5' {
                (with_preset(s, next_preset(s.preset)), KeyAction::Nothing)
            } else if c == 'c' {
                (LiveState { open_picker: true, ..s }, KeyAction::Nothing)
            } else {
                (s, KeyAction::Nothing)
            },
            Key::Up => (s, KeyAction::ContrastUp),
            Key::Down => (s, KeyAction::ContrastDown),
            Key::Right => (
                LiveState {
                    brightness: if s.brightness + 5 < 100 {
                        (s.brightness + 5) as i16
                    } else {
                        100i16
                    },
                    ..s
                },
                KeyAction::Nothing,
            ),
            Key::Left => (
                LiveState {
                    brightness: if s.brightness - 5 > -100 {
                        (s.brightness - 5) as i16
                    } else {
                        -100i16
                    },
                    ..s
                },
                KeyAction::Nothing,
            ),
            _ => (s, KeyAction::Nothing),
        }
    }
}

impl LiveState {
    /// The settings at start: presets at Raw, default recording options, no
    /// overlay; the rotation is taken modulo four turns.
    pub fn new(color_mode: ColorMode, brightness: i16, invert: bool, rotate: u8) -> (s: LiveState)
        ensures
            s == (LiveState {
                color_mode,
                preset: Preset::Raw,
                brightness,
                invert,
                rotation: rotate % 4,
                recording_options: RecordingOptions {
                    compress: true,
                    skip_identical: true,
                    keyframe_interval: 30,
                },
                show_help: false,
                show_settings: false,
                open_picker: false,
            }),
    {
        LiveState {
            color_mode,
            preset: Preset::Raw,
            brightness,
            invert,
            rotation: rotate % 4,
            recording_options: RecordingOptions::default(),
            show_help: false,
            show_settings: false,
            open_picker: false,
        }
    }

    /// Chooses preset `preset` and the settings that come with it.
    pub fn apply_preset(&mut self, preset: Preset)
        ensures
            *final(self) == with_preset(*old(self), preset),
    {
        self.preset = preset;
        match preset {
            Preset::Raw => {
                self.color_mode = ColorMode::TrueColor;
                self.recording_options.compress = false;
                self.recording_options.skip_identical = false;
            },
            Preset::Max => {
                self.color_mode = ColorMode::Ansi256;
                self.recording_options.compress = true;
                self.recording_options.skip_identical = true;
            },
            Preset::Gray => self.color_mode = ColorMode::Gray,
            Preset::Ascii => self.color_mode = ColorMode::Off,
            Preset::Green => self.color_mode = ColorMode::Green,
            Preset::GreenGradient => self.color_mode = ColorMode::GreenGradient,
            Preset::Red => self.color_mode = ColorMode::Red,
            Preset::RedGradient => self.color_mode = ColorMode::RedGradient,
        }
    }

    /// A key in the settings overlay.
    pub fn handle_settings_key(&mut self, key: Key)
        ensures
            *final(self) == settings_step(*old(self), key),
    {
        match key {
            Key::Esc => self.show_settings = false,
            Key::Char('s') => self.show_settings = false,
            Key::Char('1') => self.color_mode = self.color_mode.next(),
            Key::Char('2') => self.recording_options.compress = !self.recording_options.compress,
            Key::Char('3') => self.recording_options.skip_identical =
                !self.recording_options.skip_identical,
            Key::Char('4') => {
                let p = self.preset.next();
                self.apply_preset(p);
            },
            _ => {},
        }
    }

    /// A key in the live view: changes the settings and says what else to do.
    pub fn handle_key(&mut self, key: Key) -> (a: KeyAction)
        requires
            !old(self).show_help && !old(self).show_settings && key == Key::Right ==> old(
                self,
            ).brightness <= 32762,
            !old(self).show_help && !old(self).show_settings && key == Key::Left ==> old(
                self,
            ).brightness >= -32763,
        ensures
            (*final(self), a) == key_step(*old(self), key),
    {
        if self.show_help {
            match key {
                Key::Char('h') | Key::Esc | Key::Char('q') => self.show_help = false,
                _ => {},
            }
            return KeyAction::Nothing;
        }
        if self.show_settings {
            self.handle_settings_key(key);
            return KeyAction::Nothing;
        }
        match key {
            Key::Char('q') => return KeyAction::Quit,
            Key::Char('h') => self.show_help = true,
            Key::Char('s') => self.show_settings = true,
            Key::Char('1') => self.invert = !self.invert,
            Key::Char('2') => self.rotation = ((self.rotation as u16 + 1) % 4) as u8,
            Key::Char('3') => return KeyAction::ToggleRecording,
            Key::Char('4') => return KeyAction::CaptureScreenshots,
            Key::Char('5') => {
                let p = self.preset.next();
                self.apply_preset(p);
            },
            Key::Char('c') => self.open_picker = true,
            Key::Up => return KeyAction::ContrastUp,
            Key::Down => return KeyAction::ContrastDown,
            Key::Right => {
                let b = self.brightness + 5;
                self.brightness = if b < 100 {
                    b
                } else {
                    100
                };
            },
            Key::Left => {
                let b = self.brightness - 5;
                self.brightness = if b > -100 {
                    b
                } else {
                    -100
                };
            },
            _ => {},
        }
        KeyAction::Nothing
    }
}

/// No key takes the rotation out of the four quarter turns, nor the
/// brightness out of -100..=100 once it is within.
pub proof fn lemma_key_step_keeps_ranges(s: LiveState, k: Key)
    ensures
        s.rotation < 4 ==> key_step(s, k).0.rotation < 4,
        -100 <= s.brightness <= 100 ==> -100 <= key_step(s, k).0.brightness <= 100,
{
}

/// With no overlay shown, four presses of `2` bring the rotation back, and
/// two presses of `1` bring the inversion back.
pub proof fn lemma_rotate_and_invert_return(s: LiveState)
    requires
        !s.show_help,
        !s.show_settings,
        s.rotation < 4,
    ensures
        key_step(key_step(key_step(key_step(s, Key::Char('2')).0, Key::Char('2')).0, Key::Char('2')).0, Key::Char('2')).0 == s,
        key_step(key_step(s, Key::Char('1')).0, Key::Char('1')).0 == s,
{
}

/// While the help is shown, no key but `h`, Esc and `q` changes anything, and
/// no key asks for more than closing it.
pub proof fn lemma_help_holds_keys(s: LiveState, k: Key)
    requires
        s.show_help,
    ensures
        key_step(s, k).1 == KeyAction::Nothing,
        !(k == Key::Char('h') || k == Key::Esc || k == Key::Char('q')) ==> key_step(s, k).0 == s,
        key_step(s, k).0 == s || key_step(s, k).0 == (LiveState { show_help: false, ..s }),
{
}

} // verus!

verus! {

/// Where a key leaves the camera picker.
#[derive(Clone, Copy, Debug, PartialEq, Eq, Structural)]
pub enum PickerStep {
    /// The highlight is now on this row.
    Moved(usize),
    /// The camera with this index was chosen.
    Selected(u32),
    /// The picker was left without a choice.
    Cancelled,
}

/// The first row whose camera has index `current`, if any.
pub open spec fn first_with_index(devices: Seq<CameraDevice>, current: u32) -> Option<nat>
    decreases devices.len(),
{
    if devices.len() == 0 {
        None
    } else if devices[0].index == current {
        Some(0)
    } else {
        match first_with_index(devices.drop_first(), current) {
            Some(i) => Some(i + 1),
            None => None,
        }
    }
}

/// A key in the camera picker of `n` rows with row `selected` highlighted:
/// Up or `k` and Down or `j` move the highlight a row within the list, Home
/// and End go to the first and last row, Enter or space choose, Esc, `q` or
/// `c` cancel, and other keys keep the highlight.
pub open spec fn picker_step_of(indexes: Seq<u32>, selected: nat, k: Key) -> PickerStep {
    let last = (indexes.len() - 1) as nat;
    if k == Key::Up || k == Key::Char('k') {
        PickerStep::Moved(if selected > 0 { (selected - 1) as usize } else { 0 })
    } else if k == Key::Down || k == Key::Char('j') {
        PickerStep::Moved(if selected + 1 < last { (selected + 1) as usize } else { last as usize })
    } else if k == Key::Home {
        PickerStep::Moved(0)
    } else if k == Key::End {
        PickerStep::Moved(last as usize)
    } else if k == Key::Enter || k == Key::Char(' ') {
        PickerStep::Selected(indexes[selected as int])
    } else if k == Key::Esc || k == Key::Char('q') || k == Key::Char('c') {
        PickerStep::Cancelled
    } else {
        PickerStep::Moved(selected as usize)
    }
}

/// The camera indexes of a list of cameras.
pub open spec fn camera_indexes(devices: Seq<CameraDevice>) -> Seq<u32> {
    devices.map_values(|d: CameraDevice| d.index)
}

/// The row to highlight first.
pub fn initial_selection(devices: &[CameraDevice], current: u32) -> (i: usize)
    ensures
        i == match first_with_index(devices@, current) {
            Some(k) => k,
            None => 0,
        },
{
    let mut i: usize = 0;
    assert(devices@.skip(0) =~= devices@);
    while i < devices.len()
        invariant
            i <= devices@.len(),
            first_with_index(devices@, current) == match first_with_index(
                devices@.skip(i as int),
                current,
            ) {
                Some(k) => Some((k + i) as nat),
                None => None,
            },
        decreases devices@.len() - i,
    {
        assert(devices@.skip(i as int).drop_first() =~= devices@.skip(i + 1));
        if devices[i].index == current {
            return i;
        }
        i = i + 1;
    }
    0
}

/// What a key does in the camera picker.
pub fn picker_step(devices: &[CameraDevice], selected: usize, key: Key) -> (s: PickerStep)
    requires
        devices@.len() > 0,
        selected < devices@.len(),
    ensures
        s == picker_step_of(camera_indexes(devices@), selected as nat, key),
{
    let last = devices.len() - 1;
    match key {
        Key::Up | Key::Char('k') => PickerStep::Moved(
            if selected > 0 {
                selected - 1
            } else {
                0
            },
        ),
        Key::Down | Key::Char('j') => PickerStep::Moved(
            if selected + 1 < last {
                selected + 1
            } else {
                last
            },
        ),
        Key::Home => PickerStep::Moved(0),
        Key::End => PickerStep::Moved(last),
        Key::Enter | Key::Char(' ') => PickerStep::Selected(devices[selected].index),
        Key::Esc | Key::Char('q') | Key::Char('c') => PickerStep::Cancelled,
        _ => PickerStep::Moved(selected),
    }
}

/// The highlight never leaves the list.
pub proof fn lemma_picker_stays_in_list(indexes: Seq<u32>, selected: nat, k: Key)
    requires
        indexes.len() > 0,
        selected < indexes.len(),
    ensures
        picker_step_of(indexes, selected, k) matches PickerStep::Moved(r) ==> r < indexes.len(),
        picker_step_of(indexes, selected, k) matches PickerStep::Selected(c) ==> indexes.contains(c),
{
    if picker_step_of(indexes, selected, k) is Selected {
        assert(indexes[selected as int] == indexes[selected as int]);
    }
}

} // verus!

verus! {

/// `d` right-aligned in two columns.
pub open spec fn right_align2(d: Seq<char>) -> Seq<char> {
    if d.len() < 2 {
        seq![' '] + d
    } else {
        d
    }
}

/// The keycap chip with a camera's index, in the `i`-th keycap colour.
pub open spec fn index_chip(i: nat, index: nat) -> Seq<char> {
    let (r, g, b) = keycap(i);
    sgr_background(r as nat, g as nat, b as nat) + "\x1b[38;2;35;31;48m "@ + right_align2(
        decimal(index),
    ) + " \x1b[0m"@
}

/// A picker row before padding: the selection marker, the index chip and the
/// camera's name.
pub open spec fn picker_row_text(i: nat, d: CameraDevice, selected: nat) -> Seq<char> {
    " "@ + (if i == selected {
        "\u{25b6} "@
    } else {
        "  "@
    }) + index_chip(i, d.index as nat) + "  "@ + d.name@ + " "@
}

/// The width of the picker rows: room for the longest name, at least 28.
pub open spec fn picker_row_width(devices: Seq<CameraDevice>) -> nat
    decreases devices.len(),
{
    if devices.len() == 0 {
        28
    } else {
        let w = picker_row_width(devices.drop_last());
        let own = 10 + devices.last().name@.len();
        if own > w {
            own
        } else {
            w
        }
    }
}

/// A picker row padded to `width`, on the highlight colour when selected.
pub open spec fn picker_row(i: nat, d: CameraDevice, selected: nat, width: nat) -> Seq<char> {
    let row = picker_row_text(i, d, selected);
    let v = visible_count(row);
    let padded = row + spaces(if v < width { (width - v) as nat } else { 0 });
    if i == selected {
        "\x1b[48;2;60;55;85m"@ + padded + "\x1b[0m"@
    } else {
        padded
    }
}

/// The shortcuts under the camera list.
pub open spec fn picker_shortcuts() -> Seq<(Seq<char>, Seq<char>)> {
    seq![("\u{2191}\u{2193}"@, "move"@), ("\u{23ce}"@, "select"@), ("esc"@, "cancel"@)]
}

/// The picker's lines: the title, a blank line, the prompt, a blank line, a
/// row per camera, a blank line and the shortcuts.
pub open spec fn picker_lines(devices: Seq<CameraDevice>, selected: nat) -> Seq<Seq<char>> {
    seq![
        "\x1b[1;38;2;156;224;236mASCII-CAM\x1b[0m"@,
        Seq::empty(),
        "\x1b[38;2;200;200;220mSelect a camera\x1b[0m"@,
        Seq::empty(),
    ] + Seq::new(
        devices.len(),
        |i: int| picker_row(i as nat, devices[i], selected, picker_row_width(devices)),
    ) + seq![Seq::empty(), bar_text(picker_shortcuts())]
}

fn push_index_chip(out: &mut String, i: usize, index: u32)
    ensures
        final(out)@ == old(out)@ + index_chip(i as nat, index as nat),
{
    let (r, g, b) = keycap_exec(i);
    out.append("\x1b[48;2;");
    push_decimal(out, r as u64);
    out.append(";");
    push_decimal(out, g as u64);
    out.append(";");
    push_decimal(out, b as u64);
    out.append("m");
    let ghost mid = out@;
    out.append("\x1b[38;2;35;31;48m ");
    let ghost pre = out@;
    if index < 10 {
        out.append(" ");
        proof {
            reveal_with_fuel(decimal, 2);
            reveal_strlit(" ");
            assert(" "@ =~= seq![' ']);
        }
    } else {
        proof {
            lemma_decimal_len_two(index as nat);
        }
    }
    let ghost aligned_start = out@;
    push_decimal(out, index as u64);
    assert(out@.skip(pre.len() as int) =~= right_align2(decimal(index as nat)));
    out.append(" \x1b[0m");
    assert(final(out)@ =~= old(out)@ + index_chip(i as nat, index as nat));
}

proof fn lemma_decimal_len_two(n: nat)
    requires
        n >= 10,
    ensures
        decimal(n).len() >= 2,
    decreases n,
{
    reveal_with_fuel(decimal, 2);
    if n / 10 >= 10 {
        lemma_decimal_len_two(n / 10);
    }
}

fn picker_width_exec(devices: &[CameraDevice]) -> (w: usize)
    requires
        forall|i: int| 0 <= i < devices@.len() ==> devices@[i].name@.len() < usize::MAX - 10,
    ensures
        w == picker_row_width(devices@),
{
    let mut w: usize = 28;
    let mut i: usize = 0;
    assert(devices@.take(0) =~= Seq::<CameraDevice>::empty());
    while i < devices.len()
        invariant
            i <= devices@.len(),
            forall|k: int| 0 <= k < devices@.len() ==> devices@[k].name@.len() < usize::MAX - 10,
            w == picker_row_width(devices@.take(i as int)),
        decreases devices@.len() - i,
    {
        assert(devices@.take(i + 1).drop_last() =~= devices@.take(i as int));
        let n = crate::text::chars_of(devices[i].name.as_str()).len();
        let own = 10 + n;
        if own > w {
            w = own;
        }
        i = i + 1;
    }
    assert(devices@.take(i as int) =~= devices@);
    w
}

/// The lines of the camera picker: a title, a prompt, and a row per camera
/// with a marker on the selected one, its index on a keycap chip and its
/// name, padded to a common width, the selected row on a highlight colour;
/// then the picker's shortcuts.
pub fn camera_picker_lines(devices: &[CameraDevice], selected: usize) -> (lines: Vec<String>)
    requires
        forall|i: int| 0 <= i < devices@.len() ==> devices@[i].name@.len() < usize::MAX - 10,
    ensures
        string_seq_views(lines@) == picker_lines(devices@, selected as nat),
{
    let width = picker_width_exec(devices);
    let mut lines: Vec<String> = Vec::new();
    lines.push("\x1b[1;38;2;156;224;236mASCII-CAM\x1b[0m".to_owned());
    lines.push(String::new());
    lines.push("\x1b[38;2;200;200;220mSelect a camera\x1b[0m".to_owned());
    lines.push(String::new());
    let ghost head = seq![
        "\x1b[1;38;2;156;224;236mASCII-CAM\x1b[0m"@,
        Seq::<char>::empty(),
        "\x1b[38;2;200;200;220mSelect a camera\x1b[0m"@,
        Seq::<char>::empty(),
    ];
    let ghost rowf = |i: int|
        picker_row(i as nat, devices@[i], selected as nat, picker_row_width(devices@));
    assert(string_seq_views(lines@) =~= head);
    let mut i: usize = 0;
    while i < devices.len()
        invariant
            i <= devices@.len(),
            width == picker_row_width(devices@),
            rowf == (|i: int|
                picker_row(i as nat, devices@[i], selected as nat, picker_row_width(devices@))),
            string_seq_views(lines@) == head + Seq::new(i as nat, rowf),
        decreases devices@.len() - i,
    {
        let d = &devices[i];
        let mut row = " ".to_owned();
        if i == selected {
            row.append("\u{25b6} ");
        } else {
            row.append("  ");
        }
        push_index_chip(&mut row, i, d.index);
        row.append("  ");
        row.append(d.name.as_str());
        row.append(" ");
        assert(row@ =~= picker_row_text(i as nat, *d, selected as nat));
        let visible = visible_width(row.as_str());
        let pad = if visible < width {
            width - visible
        } else {
            0
        };
        let mut padded = row;
        push_spaces(&mut padded, pad);
        let line = if i == selected {
            let mut h = "\x1b[48;2;60;55;85m".to_owned();
            h.append(padded.as_str());
            h.append("\x1b[0m");
            h
        } else {
            padded
        };
        assert(line@ =~= rowf(i as int));
        let ghost before = string_seq_views(lines@);
        lines.push(line);
        assert(string_seq_views(lines@) =~= before.push(line@));
        assert(Seq::new((i + 1) as nat, rowf) =~= Seq::new(i as nat, rowf).push(rowf(i as int)));
        i = i + 1;
    }
    lines.push(String::new());
    let shortcuts = vec![
        Shortcut::new("\u{2191}\u{2193}", "move"),
        Shortcut::new("\u{23ce}", "select"),
        Shortcut::new("esc", "cancel"),
    ];
    let bar = shortcut_bar(shortcuts.as_slice());
    let ghost before = string_seq_views(lines@);
    lines.push(bar);
    proof {
        assert(shortcut_views(shortcuts@) =~= picker_shortcuts());
        assert(string_seq_views(lines@) =~= before.push(bar@));
        assert(Seq::new(devices@.len(), rowf) =~= Seq::new(
            devices@.len(),
            |i: int| picker_row(i as nat, devices@[i], selected as nat, picker_row_width(devices@)),
        ));
        assert(string_seq_views(lines@) =~= picker_lines(devices@, selected as nat));
    }
    lines
}

} // verus!

verus! {

/// `n` at least 1.
pub open spec fn at_least_one_usize(n: usize) -> nat {
    if n > 0 {
        n as nat
    } else {
        1
    }
}

/// The playback screen: the frame's first lines, as many as fit, each cut or
/// padded to the width; blank padded rows below until the height is filled;
/// rows joined by `\n`, with no centring and no spacing on top.
pub open spec fn playback_view(text: Seq<char>, cols: usize, rows: usize) -> Seq<char> {
    let w = at_least_one_usize(cols);
    let h = at_least_one_usize(rows);
    let ls = lines(text);
    join_newline(
        Seq::new(
            h,
            |r: int|
                if r < ls.len() {
                    pad_spec(ls[r], w)
                } else {
                    pad_spec(Seq::empty(), w)
                },
        ),
    )
}

/// A recorded frame shown on a terminal of `term_cols` x `term_rows`.
pub fn playback_frame_view(frame: &RenderedFrame, term_cols: usize, term_rows: usize) -> (view:
    String)
    requires
        frame.colors_cover_lines(),
    ensures
        view@ == playback_view(frame.text_of(), term_cols, term_rows),
{
    let width = if term_cols > 0 {
        term_cols
    } else {
        1
    };
    let height = if term_rows > 0 {
        term_rows
    } else {
        1
    };
    let text = frame.terminal_text();
    let v = chars_of(text.as_str());
    let ls = split_lines(v.as_slice());
    let ghost lv = lines(frame.text_of());
    let ghost f = |r: int|
        if r < lv.len() {
            pad_spec(lv[r], width as nat)
        } else {
            pad_spec(Seq::empty(), width as nat)
        };
    let mut out = String::new();
    let mut r: usize = 0;
    while r < height
        invariant
            r <= height,
            views(ls@) == lv,
            lv.len() == ls@.len(),
            f == (|r: int|
                if r < lv.len() {
                    pad_spec(lv[r], width as nat)
                } else {
                    pad_spec(Seq::empty(), width as nat)
                }),
            out@ == join_newline(Seq::new(r as nat, f)),
        decreases height - r,
    {
        let ghost before = out@;
        if r > 0 {
            out.append("\n");
        }
        let ghost start = out@;
        let line = if r < ls.len() {
            let s = string_from_chars(ls[r].as_slice());
            proof {
                assert(views(ls@)[r as int] == ls@[r as int]@);
            }
            pad_ansi_line(s.as_str(), width)
        } else {
            proof {
                reveal_strlit("");
                assert(""@ =~= Seq::<char>::empty());
            }
            pad_ansi_line("", width)
        };
        out.append(line.as_str());
        proof {
            assert(line@ == f(r as int));
            assert(Seq::new((r + 1) as nat, f) =~= Seq::new(r as nat, f).push(f(r as int)));
            reveal_strlit("\n");
            if r > 0 {
                assert(Seq::new((r + 1) as nat, f).drop_last() =~= Seq::new(r as nat, f));
                assert(out@ =~= before + seq!['\n'] + line@);
            } else {
                assert(out@ =~= line@);
            }
        }
        r = r + 1;
    }
    proof {
        assert(Seq::new(height as nat, f) =~= Seq::new(
            at_least_one_usize(term_rows),
            |r: int|
                if r < lv.len() {
                    pad_spec(lv[r], at_least_one_usize(term_cols))
                } else {
                    pad_spec(Seq::empty(), at_least_one_usize(term_cols))
                },
        ));
    }
    out
}

/// Every row of the playback screen is exactly as wide as the terminal, when
/// every control sequence in each line of the frame is closed by a letter.
pub proof fn lemma_playback_rows_width(text: Seq<char>, cols: usize, r: int)
    requires
        0 <= r,
        forall|i: int| 0 <= i < lines(text).len() ==> csi_closed(#[trigger] lines(text)[i]),
    ensures
        visible_count(
            if r < lines(text).len() {
                pad_spec(lines(text)[r], at_least_one_usize(cols))
            } else {
                pad_spec(Seq::empty(), at_least_one_usize(cols))
            },
        ) == at_least_one_usize(cols),
{
    if r < lines(text).len() {
        assert(csi_closed(lines(text)[r]));
        lemma_pad_width(lines(text)[r], at_least_one_usize(cols));
    } else {
        assert(csi_closed(Seq::<char>::empty()));
        lemma_pad_width(Seq::empty(), at_least_one_usize(cols));
    }
}

} // verus!

verus! {

/// The help screen's lines.
pub open spec fn help_lines() -> Seq<Seq<char>> {
    seq![
        "ASCII-CAM HELP"@,
        ""@,
        "1 toggle invert"@,
        "2 rotate 0/90/180/270"@,
        "3 start or stop .ascicam recording"@,
        "4 save HTML screenshot and .ascicam snapshot"@,
        "5 cycle preset"@,
        "c switch camera"@,
        "arrow keys adjust contrast and brightness"@,
        "s settings"@,
        "h close help"@,
        "q quit"@,
    ]
}

/// The settings screen's lines for state `s`.
pub open spec fn settings_lines(s: LiveState) -> Seq<Seq<char>> {
    seq![
        "ASCII-CAM SETTINGS"@,
        ""@,
        "1 color mode: "@ + mode_label(s.color_mode),
        "2 compression: "@ + on_off_spec(s.recording_options.compress),
        "3 skip identical frames: "@ + on_off_spec(s.recording_options.skip_identical),
        "4 preset: "@ + preset_label(s.preset),
        ""@,
        "s or Esc close"@,
    ]
}

/// `on` or `off`.
pub open spec fn on_off_spec(b: bool) -> Seq<char> {
    if b {
        "on"@
    } else {
        "off"@
    }
}

/// Lines each cut or padded to `width`, joined by `\n`.
pub open spec fn overlay_text(ls: Seq<Seq<char>>, width: nat) -> Seq<char> {
    join_newline(Seq::new(ls.len(), |i: int| pad_spec(ls[i], width)))
}

/// The shortcuts of the live view.
pub open spec fn live_shortcuts() -> Seq<(Seq<char>, Seq<char>)> {
    seq![
        ("1"@, "invert"@),
        ("2"@, "rotate"@),
        ("3"@, "record"@),
        ("4"@, "capture"@),
        ("5"@, "preset"@),
        ("c"@, "camera"@),
        ("s"@, "settings"@),
        ("h"@, "help"@),
        ("q"@, "quit"@),
    ]
}

/// `ls` as a screen `width` wide.
pub fn overlay(ls: &Vec<String>, width: usize) -> (out: String)
    ensures
        out@ == overlay_text(string_seq_views(ls@), width as nat),
{
    let ghost lv = string_seq_views(ls@);
    let ghost f = |i: int| pad_spec(lv[i], width as nat);
    let mut out = String::new();
    let mut i: usize = 0;
    while i < ls.len()
        invariant
            i <= ls@.len(),
            lv == string_seq_views(ls@),
            f == (|i: int| pad_spec(lv[i], width as nat)),
            out@ == join_newline(Seq::new(i as nat, f)),
        decreases ls@.len() - i,
    {
        let ghost before = out@;
        if i > 0 {
            out.append("\n");
        }
        let line = pad_ansi_line(ls[i].as_str(), width);
        out.append(line.as_str());
        proof {
            assert(lv[i as int] == ls@[i as int]@);
            assert(Seq::new((i + 1) as nat, f).drop_last() =~= Seq::new(i as nat, f));
            reveal_strlit("\n");
            if i > 0 {
                assert(out@ =~= before + seq!['\n'] + line@);
            } else {
                assert(out@ =~= line@);
            }
        }
        i = i + 1;
    }
    assert(Seq::new(ls@.len(), f) =~= Seq::new(lv.len(), |i: int| pad_spec(lv[i], width as nat)));
    out
}

fn literal_lines(v: Vec<&str>) -> (out: Vec<String>)
    ensures
        string_seq_views(out@) == v@.map_values(|s: &str| s@),
{
    let mut out: Vec<String> = Vec::new();
    let mut i: usize = 0;
    while i < v.len()
        invariant
            i <= v@.len(),
            string_seq_views(out@) == v@.take(i as int).map_values(|s: &str| s@),
        decreases v@.len() - i,
    {
        let ghost before = string_seq_views(out@);
        out.push(v[i].to_owned());
        assert(string_seq_views(out@) =~= before.push(v@[i as int]@));
        assert(v@.take(i + 1).map_values(|s: &str| s@) =~= v@.take(i as int).map_values(
            |s: &str| s@,
        ).push(v@[i as int]@));
        i = i + 1;
    }
    assert(v@.take(i as int) =~= v@);
    out
}

impl LiveState {
    /// The help screen, `term_cols` wide.
    pub fn help_overlay(&self, term_cols: u16) -> (out: String)
        ensures
            out@ == overlay_text(help_lines(), term_cols as nat),
    {
        let ls = literal_lines(
            vec![
                "ASCII-CAM HELP",
                "",
                "1 toggle invert",
                "2 rotate 0/90/180/270",
                "3 start or stop .ascicam recording",
                "4 save HTML screenshot and .ascicam snapshot",
                "5 cycle preset",
                "c switch camera",
                "arrow keys adjust contrast and brightness",
                "s settings",
                "h close help",
                "q quit",
            ],
        );
        assert(string_seq_views(ls@) =~= help_lines());
        overlay(&ls, term_cols as usize)
    }

    /// The settings screen, `term_cols` wide.
    pub fn settings_overlay(&self, term_cols: u16) -> (out: String)
        ensures
            out@ == overlay_text(settings_lines(*self), term_cols as nat),
    {
        let mut mode = "1 color mode: ".to_owned();
        mode.append(self.color_mode.label());
        let mut compress = "2 compression: ".to_owned();
        compress.append(on_off(self.recording_options.compress));
        let mut skip = "3 skip identical frames: ".to_owned();
        skip.append(on_off(self.recording_options.skip_identical));
        let mut preset = "4 preset: ".to_owned();
        preset.append(self.preset.label());
        let ls = vec![
            "ASCII-CAM SETTINGS".to_owned(),
            String::new(),
            mode,
            compress,
            skip,
            preset,
            String::new(),
            "s or Esc close".to_owned(),
        ];
        proof {
            reveal_strlit("");
            assert(""@ =~= Seq::<char>::empty());
        }
        assert(string_seq_views(ls@) =~= settings_lines(*self));
        overlay(&ls, term_cols as usize)
    }

    /// The live view's shortcut bar, centred in `term_cols` columns.
    pub fn shortcut_line(&self, term_cols: u16) -> (out: String)
        ensures
            out@ == center_spec(bar_text(live_shortcuts()), term_cols as nat),
    {
        let shortcuts = vec![
            Shortcut::new("1", "invert"),
            Shortcut::new("2", "rotate"),
            Shortcut::new("3", "record"),
            Shortcut::new("4", "capture"),
            Shortcut::new("5", "preset"),
            Shortcut::new("c", "camera"),
            Shortcut::new("s", "settings"),
            Shortcut::new("h", "help"),
            Shortcut::new("q", "quit"),
        ];
        let bar = shortcut_bar(shortcuts.as_slice());
        assert(shortcut_views(shortcuts@) =~= live_shortcuts());
        center_ansi_line(bar.as_str(), term_cols as usize)
    }
}

} // verus!

verus! {

/// The camera index saved from an earlier session: the trimmed text as a
/// `u32`.
pub fn parse_camera_index(text: &str) -> (r: Option<u32>)
    ensures
        r matches Some(i) ==> parse_unsigned(trim(text@), 0xffff_ffff) == Some(i as nat),
        r is None ==> parse_unsigned(trim(text@), 0xffff_ffff) is None,
{
    let t = trim_chars(chars_of(text).as_slice());
    match parse_uint(t.as_slice(), 0xffff_ffff) {
        Some(i) => Some(i as u32),
        None => None,
    }
}

} // verus!

verus! {

/// The file a recording started at `stamp` goes to when none was named:
/// `recording-` and the stamp, with the `.ascicam` extension.
pub fn recording_file_name(record_path: Option<String>, stamp: u64) -> (name: String)
    ensures
        name@ == match record_path {
            Some(p) => p@,
            None => "recording-"@ + decimal(stamp as nat) + ".ascicam"@,
        },
{
    match record_path {
        Some(p) => p,
        None => {
            let mut n = "recording-".to_owned();
            push_decimal(&mut n, stamp);
            n.append(".ascicam");
            n
        },
    }
}

/// The files of a screenshot taken at `stamp`: the HTML page and the
/// one-frame recording.
pub fn screenshot_file_names(stamp: u64) -> (names: (String, String))
    ensures
        names.0@ == "screenshot-"@ + decimal(stamp as nat) + ".html"@,
        names.1@ == "snapshot-"@ + decimal(stamp as nat) + ".ascicam"@,
{
    let mut html = "screenshot-".to_owned();
    push_decimal(&mut html, stamp);
    html.append(".html");
    let mut snap = "snapshot-".to_owned();
    push_decimal(&mut snap, stamp);
    snap.append(".ascicam");
    (html, snap)
}

/// How long playback waits before a frame: the time since the frame before,
/// at most a second.
pub fn playback_delay(timestamp_ms: u64, last_timestamp_ms: u64) -> (d: u64)
    ensures
        d == if timestamp_ms <= last_timestamp_ms {
            0
        } else if timestamp_ms - last_timestamp_ms > 1000 {
            1000
        } else {
            timestamp_ms - last_timestamp_ms
        },
{
    let delay = if timestamp_ms > last_timestamp_ms {
        timestamp_ms - last_timestamp_ms
    } else {
        0
    };
    if delay > 1000 {
        1000
    } else {
        delay
    }
}

} // verus!

verus! {

/// What a key event reports: a press, a repeat while held, or a release.
#[derive(Clone, Copy, Debug, PartialEq, Eq, Structural)]
pub enum KeyEventKind {
    Press,
    Repeat,
    Release,
}

/// Presses and repeats reach the program; releases do not.
pub fn should_forward_key_event(kind: KeyEventKind) -> (forward: bool)
    ensures
        forward == (kind != KeyEventKind::Release),
{
    match kind {
        KeyEventKind::Press | KeyEventKind::Repeat => true,
        KeyEventKind::Release => false,
    }
}

} // verus!

verus! {

/// The colour mode to start with: none when colour is switched off, the one
/// asked for otherwise.
pub fn chosen_color_mode(no_color: bool, color: ColorMode) -> (m: ColorMode)
    ensures
        m == if no_color {
            ColorMode::Off
        } else {
            color
        },
{
    if no_color {
        ColorMode::Off
    } else {
        color
    }
}

/// The camera to open: the one asked for, else the one saved from the last
/// session, else camera 0.
pub fn chosen_camera(requested: Option<u32>, saved: Option<u32>) -> (c: u32)
    ensures
        c == match requested {
            Some(r) => r,
            None => match saved {
                Some(s) => s,
                None => 0,
            },
        },
{
    match requested {
        Some(r) => r,
        None => match saved {
            Some(s) => s,
            None => 0,
        },
    }
}

} // verus!

verus! {

/// What each preset shows: the colour presets (Gray, Green, GreenGrad, Red,
/// RedGrad) choose the colour mode of the same name; Ascii turns colour off,
/// so no escapes are written; Raw shows every colour as it is in 24-bit
/// escapes and turns compression and frame skipping off; Max writes 256-colour
/// escapes and turns compression and frame skipping on. Nothing else changes.
pub proof fn lemma_presets_choose_their_modes(s: LiveState, p: Preset, c: Rgb)
    ensures
        ({
            let t = with_preset(s, p);
            let m = t.color_mode;
            let d = display_rgb(m, c);
            &&& t.preset == p
            &&& t.brightness == s.brightness && t.invert == s.invert && t.rotation == s.rotation
            &&& t.show_help == s.show_help && t.show_settings == s.show_settings
            &&& t.open_picker == s.open_picker
            &&& t.recording_options.keyframe_interval == s.recording_options.keyframe_interval
            &&& (p == Preset::Gray || p == Preset::Green || p == Preset::GreenGradient || p
                == Preset::Red || p == Preset::RedGradient) ==> mode_label(m) == preset_label(p)
                && t.recording_options == s.recording_options
            &&& p == Preset::Ascii ==> ansi_prefix_of(m, c).len() == 0 && t.recording_options
                == s.recording_options
            &&& p == Preset::Raw ==> {
                &&& d == c
                &&& ansi_prefix_of(m, c) == sgr_rgb(c.r as nat, c.g as nat, c.b as nat)
                &&& !t.recording_options.compress && !t.recording_options.skip_identical
            }
            &&& p == Preset::Max ==> {
                &&& ansi_prefix_of(m, c) == sgr_indexed(
                    (16 + 36 * (d.r / 51) + 6 * (d.g / 51) + d.b / 51) as nat,
                )
                &&& t.recording_options.compress && t.recording_options.skip_identical
            }
        }),
{
    let t = with_preset(s, p);
    lemma_escape_names_the_displayed_colour(t.color_mode, c);
    reveal_strlit("Gray");
    reveal_strlit("Green");
    reveal_strlit("GreenGrad");
    reveal_strlit("Red");
    reveal_strlit("RedGrad");
}

} // verus!
