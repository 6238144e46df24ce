# ascii-cam

A real-time ASCII camera for the terminal: it renders a webcam feed captured
through `ffmpeg` as coloured characters, records and plays back `.ascicam`
files, saves HTML screenshots, and can stream the frames over HTTP to
browsers and `curl`.

## Layout

- `src/` is the verified library, checked by Verus:
  - `color.rs`: colours, the luminance, the colour modes and their escape
    sequences;
  - `frame.rs`: camera frames and their rotations;
  - `render.rs`: rendering frames as ASCII or Braille character grids;
  - `recording.rs`: the `.ascicam` format (keyframes, deltas, skip records,
    zlib compression), with its round-trip law for frames of ASCII text;
    each payload written must fit the 32-bit length field, and a compressed
    payload must inflate back to itself, which the encoder ensures of every
    payload it compresses;
  - `ui.rs`: keycap bars and lines padded, cut and centred by visible width;
  - `capture.rs`: the `ffmpeg` command line and what is read from its
    reports and from `/dev`;
  - `app.rs`: what each key does, the camera picker, overlays and playback;
  - `serve.rs`: the streaming server's payloads, colour negotiation,
    tokens and viewer page;
  - `screenshot.rs`: HTML screenshots;
  - `text.rs`: character-level helpers.
- `app/` is the program around it: command-line parsing, the camera process,
  the terminal, files, the HTTP server, and the floating-point parts (tone
  curve, render size, frame rate).
- `tests/` exercises the library.
