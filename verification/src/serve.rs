//! The streaming server's decisions: what a frame sends, which colour depth a
//! client asks for, who may watch, where to listen, and the viewer page.

use vstd::prelude::*;

use crate::app::ServeArgs;
use crate::capture::string_seq_views;
use crate::color::ColorMode;
use crate::render::RenderedFrame;
use crate::text::{
    chars_of, decimal, parse_uint, parse_unsigned, push_decimal, split_chars, split_on,
    starts_with, starts_with_chars, str_eq, sub_chars, trim, trim_chars, views,
};

verus! {

/// What a stream does after its receiver reported an error.
#[derive(Debug, Clone, Copy, PartialEq, Eq, Structural)]
pub enum BroadcastOutcome {
    Continue,
    Disconnect,
    End,
}

/// What a frame sends to a stream: an optional full clear, the cursor-home
/// sequence, then the frame's terminal text.
pub open spec fn payload_of(text: Seq<char>, clear: bool) -> Seq<char> {
    (if clear {
        "\x1b[2J"@
    } else {
        Seq::empty()
    }) + "\x1b[H"@ + text
}

/// The bytes of `rendered` for a stream client.
pub fn frame_payload(rendered: &RenderedFrame, clear: bool) -> (out: String)
    requires
        rendered.colors_cover_lines(),
    ensures
        out@ == payload_of(rendered.text_of(), clear),
{
    let mut out = String::new();
    if clear {
        out.append("\x1b[2J");
    }
    out.append("\x1b[H");
    let text = rendered.terminal_text();
    out.append(text.as_str());
    assert(out@ =~= payload_of(rendered.text_of(), clear));
    out
}

/// The colour depth a `bits` value asks for: 0 for none, 8 for 256 colours,
/// 16 for 16 colours, anything else for 24-bit colour.
pub open spec fn mode_for_bits(bits: nat) -> ColorMode {
    if bits == 0 {
        ColorMode::Off
    } else if bits == 8 {
        ColorMode::Ansi256
    } else if bits == 16 {
        ColorMode::Ansi16
    } else {
        ColorMode::TrueColor
    }
}

/// A `bits` value: a `u8` number, surrounding whitespace ignored.
pub open spec fn bits_of(value: Seq<char>) -> Option<nat> {
    parse_unsigned(trim(value), 255)
}

/// The value of the first `;`-separated parameter of `part` that starts with
/// `bits=` after trimming.
pub open spec fn bits_param(params: Seq<Seq<char>>) -> Option<Seq<char>>
    decreases params.len(),
{
    if params.len() == 0 {
        None
    } else if starts_with(trim(params[0]), "bits="@) {
        Some(trim(params[0]).skip(5))
    } else {
        bits_param(params.drop_first())
    }
}

/// The first media range of an `Accept` header whose first `bits=`
/// parameter holds a valid value.
pub open spec fn accept_bits(parts: Seq<Seq<char>>) -> Option<nat>
    decreases parts.len(),
{
    if parts.len() == 0 {
        None
    } else {
        match bits_param(split_on(trim(parts[0]), ';')) {
            Some(v) => match bits_of(v) {
                Some(b) => Some(b),
                None => accept_bits(parts.drop_first()),
            },
            None => accept_bits(parts.drop_first()),
        }
    }
}

/// The colour mode for a stream: the `bits` query when it is a valid number,
/// else the first valid `bits=` parameter of the `Accept` header, else
/// 24-bit colour.
pub open spec fn negotiated_mode(accept: Option<Seq<char>>, bits_query: Option<Seq<char>>) -> ColorMode {
    match bits_query {
        Some(q) if bits_of(q) is Some => mode_for_bits(bits_of(q)->0),
        _ => match accept {
            None => ColorMode::TrueColor,
            Some(a) => match accept_bits(split_on(a, ',')) {
                Some(b) => mode_for_bits(b),
                None => ColorMode::TrueColor,
            },
        },
    }
}

/// A `&str` option as characters.
pub open spec fn opt_view(o: Option<&str>) -> Option<Seq<char>> {
    match o {
        Some(s) => Some(s@),
        None => None,
    }
}

/// Reads a `bits` value.
pub fn parse_bits(value: &str) -> (r: Option<u8>)
    ensures
        r matches Some(b) ==> bits_of(value@) == Some(b as nat),
        r is None ==> bits_of(value@) is None,
{
    let t = trim_chars(chars_of(value).as_slice());
    match parse_uint(t.as_slice(), 255) {
        Some(b) => Some(b as u8),
        None => None,
    }
}

/// The colour mode for a `bits` value.
pub fn color_mode_for_bits(bits: u8) -> (m: ColorMode)
    ensures
        m == mode_for_bits(bits as nat),
{
    match bits {
        0 => ColorMode::Off,
        8 => ColorMode::Ansi256,
        16 => ColorMode::Ansi16,
        _ => ColorMode::TrueColor,
    }
}

fn bits_param_exec(params: &Vec<Vec<char>>) -> (r: Option<Vec<char>>)
    ensures
        r matches Some(v) ==> bits_param(views(params@)) == Some(v@),
        r is None ==> bits_param(views(params@)) is None,
{
    let prefix = chars_of("bits=");
    proof {
        reveal_strlit("bits=");
    }
    let mut i: usize = 0;
    assert(views(params@).skip(0) =~= views(params@));
    while i < params.len()
        invariant
            i <= params@.len(),
            prefix@ == "bits="@,
            prefix@.len() == 5,
            bits_param(views(params@)) == bits_param(views(params@).skip(i as int)),
        decreases params@.len() - i,
    {
        let ghost rest = views(params@).skip(i as int);
        assert(rest[0] == params@[i as int]@);
        assert(rest.drop_first() =~= views(params@).skip(i + 1));
        let t = trim_chars(params[i].as_slice());
        if starts_with_chars(t.as_slice(), prefix.as_slice()) {
            let v = sub_chars(t.as_slice(), 5, t.len());
            assert(v@ =~= t@.skip(5));
            return Some(v);
        }
        i = i + 1;
    }
    assert(views(params@).skip(i as int) =~= Seq::<Seq<char>>::empty());
    None
}

/// The colour mode a stream client asks for, from its `Accept` header and
/// its `bits` query parameter.
pub fn negotiate_color_mode(accept: Option<&str>, bits_query: Option<&str>) -> (m: ColorMode)
    ensures
        m == negotiated_mode(opt_view(accept), opt_view(bits_query)),
{
    if let Some(q) = bits_query {
        if let Some(bits) = parse_bits(q) {
            return color_mode_for_bits(bits);
        }
    }
    let a = match accept {
        Some(a) => a,
        None => return ColorMode::TrueColor,
    };
    let parts = split_chars(chars_of(a).as_slice(), ',');
    let ghost pv = views(parts@);
    let mut i: usize = 0;
    assert(pv.skip(0) =~= pv);
    while i < parts.len()
        invariant
            i <= parts@.len(),
            pv == views(parts@),
            pv == split_on(a@, ','),
            accept == Some(a),
            bits_query matches Some(q) ==> bits_of(q@) is None,
            accept_bits(pv) == accept_bits(pv.skip(i as int)),
        decreases parts@.len() - i,
    {
        let ghost rest = pv.skip(i as int);
        assert(rest[0] == parts@[i as int]@);
        assert(rest.drop_first() =~= pv.skip(i + 1));
        let part = trim_chars(parts[i].as_slice());
        let params = split_chars(part.as_slice(), ';');
        match bits_param_exec(&params) {
            Some(v) => {
                let s = crate::text::string_from_chars(v.as_slice());
                match parse_bits(s.as_str()) {
                    Some(bits) => {
                        assert(accept_bits(pv.skip(i as int)) == Some(bits as nat));
                        return color_mode_for_bits(bits);
                    },
                    None => {},
                }
            },
            None => {},
        }
        i = i + 1;
    }
    assert(pv.skip(i as int) =~= Seq::<Seq<char>>::empty());
    ColorMode::TrueColor
}

/// Whether a viewer may watch: always when no token is required, otherwise
/// exactly when it gives the required token.
pub fn authorized(required: Option<&str>, provided: Option<&str>) -> (ok: bool)
    ensures
        ok == match required {
            None => true,
            Some(expected) => provided matches Some(p) && p@ == expected@,
        },
{
    match required {
        None => true,
        Some(expected) => match provided {
            Some(p) => str_eq(p, expected),
            None => false,
        },
    }
}

/// The address to listen on: the loopback address when `local` is set, the
/// configured bind address otherwise.
pub fn effective_bind(args: &ServeArgs) -> (b: &str)
    ensures
        b@ == if args.local {
            "127.0.0.1"@
        } else {
            args.bind@
        },
{
    if args.local {
        "127.0.0.1"
    } else {
        args.bind.as_str()
    }
}

/// The query string that carries the token in viewer URLs: `?token=` and the
/// token, or nothing without one.
pub fn stream_query_suffix(token: Option<&str>) -> (s: String)
    ensures
        s@ == match token {
            Some(t) => "?token="@ + t@,
            None => Seq::empty(),
        },
{
    match token {
        Some(t) => {
            let mut s = "?token=".to_owned();
            s.append(t);
            s
        },
        None => String::new(),
    }
}

} // verus!

verus! {

/// The kinds of error a broadcast receiver reports.
#[derive(Debug, Clone, Copy, PartialEq, Eq, Structural)]
pub enum RecvErrorKind {
    /// The receiver fell behind and this many messages were lost to it.
    Lagged(u64),
    /// Every sender is gone.
    Closed,
}

#[verifier::external_type_specification]
#[verifier::external_body]
pub struct ExRecvError(tokio::sync::broadcast::error::RecvError);

/// The variant that a `tokio::sync::broadcast::error::RecvError` value holds,
/// with the count of a `Lagged` error.
pub uninterp spec fn recv_error_kind_of(error: tokio::sync::broadcast::error::RecvError) -> RecvErrorKind;

/// Tells apart the two variants of `tokio::sync::broadcast::error::RecvError`:
/// the contract says only that the kind is the one the value holds, which
/// Verus cannot see inside the value.
#[verifier::external_body]
fn recv_error_kind(error: tokio::sync::broadcast::error::RecvError) -> (k: RecvErrorKind)
    ensures
        k == recv_error_kind_of(error),
{
    match error {
        tokio::sync::broadcast::error::RecvError::Lagged(n) => RecvErrorKind::Lagged(n),
        tokio::sync::broadcast::error::RecvError::Closed => RecvErrorKind::Closed,
    }
}

/// What a stream does after a receiver error of kind `kind`.
pub open spec fn outcome_of(kind: RecvErrorKind) -> BroadcastOutcome {
    match kind {
        RecvErrorKind::Lagged(_) => BroadcastOutcome::Disconnect,
        RecvErrorKind::Closed => BroadcastOutcome::End,
    }
}

/// What a stream does after a receiver error of kind `kind`: a receiver that
/// fell behind is disconnected rather than left to buffer, and a closed
/// channel ends the stream.
pub fn outcome_for(kind: RecvErrorKind) -> (o: BroadcastOutcome)
    ensures
        o == outcome_of(kind),
{
    match kind {
        RecvErrorKind::Lagged(_) => BroadcastOutcome::Disconnect,
        RecvErrorKind::Closed => BroadcastOutcome::End,
    }
}

/// What a stream does after a broadcast receive error: a lagged receiver is
/// disconnected and a closed channel ends the stream; it never goes on as if
/// nothing happened.
pub fn broadcast_outcome(error: tokio::sync::broadcast::error::RecvError) -> (o: BroadcastOutcome)
    ensures
        o == outcome_of(recv_error_kind_of(error)),
        o == BroadcastOutcome::Disconnect || o == BroadcastOutcome::End,
{
    outcome_for(recv_error_kind(error))
}

} // verus!

verus! {

/// The addresses to show to viewers: the loopback address and, where one
/// was found, the outbound address when listening on every interface; the
/// bind address otherwise; each with the port.
pub open spec fn hosts_of(bind: Seq<char>, port: nat, outbound_ip: Option<Seq<char>>) -> Seq<
    Seq<char>,
> {
    if bind == "0.0.0.0"@ || bind == "::"@ {
        seq!["127.0.0.1"@ + ":"@ + decimal(port)] + match outbound_ip {
            Some(ip) => seq![ip + ":"@ + decimal(port)],
            None => Seq::empty(),
        }
    } else {
        seq![bind + ":"@ + decimal(port)]
    }
}

fn host_port(host: &str, port: u16) -> (s: String)
    ensures
        s@ == host@ + ":"@ + decimal(port as nat),
{
    let mut s = host.to_owned();
    s.append(":");
    push_decimal(&mut s, port as u64);
    s
}

/// The `host:port` addresses at which viewers can reach the server;
/// `outbound_ip` is the machine's address on the network, where known.
pub fn consumer_hosts(bind: &str, port: u16, outbound_ip: Option<String>) -> (hosts: Vec<String>)
    ensures
        string_seq_views(hosts@) == hosts_of(
            bind@,
            port as nat,
            match outbound_ip {
                Some(ip) => Some(ip@),
                None => None,
            },
        ),
{
    let mut hosts: Vec<String> = Vec::new();
    if str_eq(bind, "0.0.0.0") || str_eq(bind, "::") {
        hosts.push(host_port("127.0.0.1", port));
        if let Some(ip) = outbound_ip {
            hosts.push(host_port(ip.as_str(), port));
        }
    } else {
        hosts.push(host_port(bind, port));
    }
    assert(string_seq_views(hosts@) =~= hosts_of(
        bind@,
        port as nat,
        match outbound_ip {
            Some(ip) => Some(ip@),
            None => None,
        },
    ));
    hosts
}

/// The browser URL and the `curl` command for `host`, and a blank line.
pub open spec fn host_hints(host: Seq<char>, query: Seq<char>) -> Seq<Seq<char>> {
    seq![
        "  Browser:  http://"@ + host + query,
        "  Terminal: curl -N \"http://"@ + host + "/stream"@ + query + "\""@,
        Seq::empty(),
    ]
}

/// The hints for each host in turn.
pub open spec fn hosts_hints(hosts: Seq<Seq<char>>, query: Seq<char>) -> Seq<Seq<char>>
    decreases hosts.len(),
{
    if hosts.len() == 0 {
        Seq::empty()
    } else {
        hosts_hints(hosts.drop_last(), query) + host_hints(hosts.last(), query)
    }
}

/// The lines the server prints at start: a notice, a warning when anyone on
/// the network can watch without a token, and the hints for each address.
pub open spec fn hint_lines(hosts: Seq<Seq<char>>, network_wide: bool, token: Option<Seq<char>>) -> Seq<
    Seq<char>,
> {
    let query = match token {
        Some(t) => "?token="@ + t,
        None => Seq::empty(),
    };
    seq![Seq::empty(), "ascii-cam serve is running (Ctrl+C to stop)"@] + (if network_wide
        && token is None {
        seq!["  warning: no --token set; anyone on your network can watch"@]
    } else {
        Seq::empty()
    }) + seq![Seq::empty()] + hosts_hints(hosts, query)
}

/// Listening on every interface, so that other machines can connect.
pub open spec fn is_network_wide(bind: Seq<char>) -> bool {
    bind == "0.0.0.0"@ || bind == "::"@ || bind == "[::]"@
}

/// The start-up notice for viewers: how to watch from a browser or a
/// terminal at each address, with a warning when no token guards a server
/// open to the network.
pub fn consumer_hints(bind: &str, port: u16, token: Option<&str>, outbound_ip: Option<String>) -> (lines:
    Vec<String>)
    ensures
        string_seq_views(lines@) == hint_lines(
            hosts_of(
                bind@,
                port as nat,
                match outbound_ip {
                    Some(ip) => Some(ip@),
                    None => None,
                },
            ),
            is_network_wide(bind@),
            opt_view(token),
        ),
{
    let query = stream_query_suffix(token);
    let network_wide = str_eq(bind, "0.0.0.0") || str_eq(bind, "::") || str_eq(bind, "[::]");
    let hosts = consumer_hosts(bind, port, outbound_ip);
    let mut lines: Vec<String> = Vec::new();
    lines.push(String::new());
    lines.push("ascii-cam serve is running (Ctrl+C to stop)".to_owned());
    if network_wide && token.is_none() {
        lines.push("  warning: no --token set; anyone on your network can watch".to_owned());
    }
    lines.push(String::new());
    let ghost hv = string_seq_views(hosts@);
    let ghost head = string_seq_views(lines@);
    proof {
        reveal_strlit("");
        assert(""@ =~= Seq::<char>::empty());
        assert(hv.take(0) =~= Seq::<Seq<char>>::empty());
    }
    let mut i: usize = 0;
    while i < hosts.len()
        invariant
            i <= hosts@.len(),
            hv == string_seq_views(hosts@),
            string_seq_views(lines@) == head + hosts_hints(hv.take(i as int), query@),
        decreases hosts@.len() - i,
    {
        let mut browser = "  Browser:  http://".to_owned();
        browser.append(hosts[i].as_str());
        browser.append(query.as_str());
        let mut terminal = "  Terminal: curl -N \"http://".to_owned();
        terminal.append(hosts[i].as_str());
        terminal.append("/stream");
        terminal.append(query.as_str());
        terminal.append("\"");
        let ghost before = string_seq_views(lines@);
        lines.push(browser);
        lines.push(terminal);
        lines.push(String::new());
        proof {
            assert(hv[i as int] == hosts@[i as int]@);
            assert(hv.take(i + 1).drop_last() =~= hv.take(i as int));
            assert(hv.take(i + 1).last() == hv[i as int]);
            assert(string_seq_views(lines@) =~= before + host_hints(hv[i as int], query@));
        }
        i = i + 1;
    }
    assert(hv.take(i as int) =~= hv);
    assert(string_seq_views(lines@) =~= hint_lines(
        hv,
        is_network_wide(bind@),
        opt_view(token),
    ));
    lines
}

} // verus!

verus! {

/// The viewer page before the stream's query string.
pub const VIEWER_HEAD: &'static str = r##"<!doctype html>
<meta charset="utf-8">
<title>ascii-cam</title>
<style>
  body { margin: 0; background: #050505; color: #eee; }
  pre { font: 12px/1 monospace; white-space: pre; margin: 16px; }
</style>
<pre id="screen"></pre>
<script>
const pre = document.getElementById('screen');
const url = '/stream"##;

/// The viewer page after the stream's query string.
pub const VIEWER_TAIL: &'static str = r##"';
const HOME = '\x1b[H';

const PALETTE_16 = [
  [0, 0, 0], [205, 0, 0], [0, 205, 0], [205, 205, 0],
  [0, 0, 238], [205, 0, 205], [0, 205, 205], [229, 229, 229],
  [127, 127, 127], [255, 0, 0], [0, 255, 0], [255, 255, 0],
  [92, 92, 255], [255, 0, 255], [0, 255, 255], [255, 255, 255]
];

function xterm256(n) {
  if (n < 16) return PALETTE_16[n];
  if (n >= 232) { const v = 8 + (n - 232) * 10; return [v, v, v]; }
  n -= 16;
  const conv = (c) => (c === 0 ? 0 : 55 + c * 40);
  return [conv(Math.floor(n / 36)), conv(Math.floor((n % 36) / 6)), conv(n % 6)];
}

function colorFromSgr(codeStr) {
  const parts = codeStr.split(';').map((p) => parseInt(p, 10) || 0);
  const first = parts[0];
  if (codeStr === '' || first === 0) return null;
  if (first === 38 && parts[1] === 2) return [parts[2], parts[3], parts[4]];
  if (first === 38 && parts[1] === 5) return xterm256(parts[2]);
  if (first >= 30 && first <= 37) return PALETTE_16[first - 30];
  if (first >= 90 && first <= 97) return PALETTE_16[first - 90 + 8];
  return undefined;
}

function sameColor(a, b) {
  if (a === null && b === null) return true;
  if (a === null || b === null) return false;
  return a[0] === b[0] && a[1] === b[1] && a[2] === b[2];
}

function renderFrame(frame) {
  frame = frame.replace(/\x1b\[2J/g, '');
  const fragment = document.createDocumentFragment();
  let cur = null;
  let seg = '';
  let last = 0;
  const flush = () => {
    if (!seg) return;
    if (cur) {
      const span = document.createElement('span');
      span.style.color = 'rgb(' + cur[0] + ',' + cur[1] + ',' + cur[2] + ')';
      span.textContent = seg;
      fragment.appendChild(span);
    } else {
      fragment.appendChild(document.createTextNode(seg));
    }
    seg = '';
  };
  const re = /\x1b\[([0-9;]*)m/g;
  for (const m of frame.matchAll(re)) {
    seg += frame.slice(last, m.index);
    last = m.index + m[0].length;
    const next = colorFromSgr(m[1]);
    if (next === undefined || sameColor(next, cur)) continue;
    flush();
    cur = next;
  }
  seg += frame.slice(last);
  flush();
  pre.replaceChildren(fragment);
}

fetch(url).then(async (response) => {
  if (!response.ok) throw new Error('stream failed: ' + response.status);
  const reader = response.body.getReader();
  const decoder = new TextDecoder();
  let buffer = '';
  while (true) {
    const { value, done } = await reader.read();
    if (done) break;
    buffer += decoder.decode(value, { stream: true });
    const last = buffer.lastIndexOf(HOME);
    const prev = last > 0 ? buffer.lastIndexOf(HOME, last - 1) : -1;
    if (prev >= 0) {
      renderFrame(buffer.slice(prev + HOME.length, last));
      buffer = buffer.slice(last);
    }
  }
}).catch((err) => { pre.textContent = String(err); });
</script>
"##;

/// The browser viewer: a page that reads `/stream` with `token_query` and
/// draws each frame in colour.
pub fn viewer_html(token_query: &str) -> (html: String)
    ensures
        html@ == VIEWER_HEAD@ + token_query@ + VIEWER_TAIL@,
{
    let mut html = VIEWER_HEAD.to_owned();
    html.append(token_query);
    html.append(VIEWER_TAIL);
    html
}

} // verus!
