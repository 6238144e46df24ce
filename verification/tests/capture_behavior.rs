use ascii_cam::capture::{
    append_stderr_tail, capture_failure_message, STDERR_LIMIT,
    build_ffmpeg_args, cameras_from_dev_entries, choose_supported_video_size,
    ensure_supported_platform, parse_avfoundation_video_devices, parse_supported_video_sizes,
    Platform, Resolution,
};

#[test]
fn macos_ffmpeg_args_use_supported_avfoundation_input_format() {
    let args = build_ffmpeg_args(Platform::Macos, 0, 30, 640, 480, true);

    assert!(args.windows(2).any(|pair| pair == ["-f", "avfoundation"]));
    assert!(
        args.windows(2)
            .any(|pair| pair == ["-pixel_format", "nv12"])
    );
    assert!(args.windows(2).any(|pair| pair == ["-pix_fmt", "rgb24"]));
    assert!(
        !args
            .windows(2)
            .any(|pair| pair == ["-pixel_format", "yuyv422"])
    );
}

#[test]
fn linux_ffmpeg_args_use_v4l2_device_and_rgb24_output() {
    let args = build_ffmpeg_args(Platform::Linux, 2, 30, 320, 240, false);

    assert!(args.windows(2).any(|pair| pair == ["-f", "v4l2"]));
    assert!(args.windows(2).any(|pair| pair == ["-i", "/dev/video2"]));
    assert!(args.windows(2).any(|pair| pair == ["-pix_fmt", "rgb24"]));
}

#[test]
fn parses_only_avfoundation_video_devices() {
    let stderr = r#"
[AVFoundation indev @ 0x123] AVFoundation video devices:
[AVFoundation indev @ 0x123] [0] FaceTime HD Camera
[AVFoundation indev @ 0x123] [1] OBS Virtual Camera
[AVFoundation indev @ 0x123] AVFoundation audio devices:
[AVFoundation indev @ 0x123] [0] MacBook Pro Microphone
"#;

    let devices = parse_avfoundation_video_devices(stderr);

    assert_eq!(devices.len(), 2);
    assert_eq!(devices[0].index, 0);
    assert_eq!(devices[0].name, "FaceTime HD Camera");
    assert_eq!(devices[1].index, 1);
    assert_eq!(devices[1].name, "OBS Virtual Camera");
}

#[test]
fn parses_supported_video_sizes_from_ffmpeg_stderr() {
    let stderr = r#"
[in#0 @ 0x831030000] Selected video size (640x480) is not supported by the device.
[in#0 @ 0x831030000] Supported modes:
[in#0 @ 0x831030000]   1280x720@[30.000030 30.000030]fps
[in#0 @ 0x831030000]   1280x720@[25.000000 25.000000]fps
[in#0 @ 0x831030000]   1920x1080@[30.000030 30.000030]fps
"#;

    let sizes = parse_supported_video_sizes(stderr);

    assert_eq!(sizes, vec![(1280, 720), (1920, 1080)]);
}

#[test]
fn chooses_smallest_supported_video_size_that_satisfies_request() {
    let supported = [(1280, 720), (1920, 1080), (3840, 2160)];

    assert_eq!(
        choose_supported_video_size((640, 480), &supported),
        Some((1280, 720))
    );
    assert_eq!(
        choose_supported_video_size((1920, 1080), &supported),
        Some((1920, 1080))
    );
}

#[test]
fn chooses_supported_video_size_with_matching_aspect_when_available() {
    let supported = [(1280, 720), (1280, 960), (1920, 1080)];

    assert_eq!(
        choose_supported_video_size((640, 480), &supported),
        Some((1280, 960))
    );
}

#[test]
fn no_supported_size_when_none_is_large_enough() {
    let supported = [(320, 240), (640, 360)];
    assert_eq!(choose_supported_video_size((640, 480), &supported), None);
    assert_eq!(choose_supported_video_size((1, 1), &[]), None);
}

#[test]
fn equal_sizes_keep_the_first_listed() {
    let supported = [(1200, 800), (1000, 960), (1600, 1200)];
    // Neither of the first two has the 4:3 ratio and both have 960000 pixels;
    // the 4:3 size is preferred over both.
    assert_eq!(
        choose_supported_video_size((640, 480), &supported),
        Some((1600, 1200))
    );
    let supported = [(1200, 800), (1000, 960)];
    assert_eq!(
        choose_supported_video_size((640, 480), &supported),
        Some((1200, 800))
    );
}

#[test]
fn device_lines_without_a_name_or_index_are_skipped() {
    let stderr = "AVFoundation video devices:\n[x] [7]   Spaced Cam  \n[dev] [8]\n[dev] [abc] Nope\n[dev] [+9] Plus";
    let devices = parse_avfoundation_video_devices(stderr);
    assert_eq!(devices.len(), 2);
    assert_eq!(devices[0].index, 7);
    assert_eq!(devices[0].name, "Spaced Cam");
    assert_eq!(devices[1].index, 9);
    assert_eq!(devices[1].name, "Plus");
    assert!(parse_avfoundation_video_devices("[0] Before any header").is_empty());
}

#[test]
fn ffmpeg_args_are_the_whole_command_line() {
    let args = build_ffmpeg_args(Platform::Linux, 12, 25, 1280, 720, false);
    assert_eq!(
        args,
        vec![
            "-hide_banner", "-nostdin", "-loglevel", "error", "-f", "v4l2", "-framerate", "25",
            "-video_size", "1280x720", "-i", "/dev/video12", "-vf", "hflip", "-f", "rawvideo",
            "-pix_fmt", "rgb24", "-an", "pipe:1",
        ]
    );
    let mac = build_ffmpeg_args(Platform::Macos, 1, 30, 640, 480, true);
    assert_eq!(mac[8..14], ["-video_size", "640x480", "-pixel_format", "nv12", "-i", "1"]);
}

#[test]
fn platforms_and_resolutions() {
    assert_eq!(Platform::Auto.detect(true), Platform::Macos);
    assert_eq!(Platform::Auto.detect(false), Platform::Linux);
    assert_eq!(Platform::Linux.detect(true), Platform::Linux);
    assert_eq!(ensure_supported_platform(Platform::Auto, false), Ok(Platform::Linux));
    assert_eq!(Resolution::Low.dimensions(), (320, 240));
    assert_eq!(Resolution::Medium.dimensions(), (640, 480));
    assert_eq!(Resolution::High.dimensions(), (1280, 720));
}

#[test]
fn linux_devices_are_found_named_and_sorted() {
    let entries = vec![
        ("video2".to_string(), Some("USB Cam\n".to_string())),
        ("null".to_string(), None),
        ("video0".to_string(), None),
        ("videox".to_string(), None),
        ("video1".to_string(), Some("  Built-in  ".to_string())),
    ];
    let devices = cameras_from_dev_entries(&entries);
    assert_eq!(devices.len(), 3);
    assert_eq!((devices[0].index, devices[0].name.as_str()), (0, "/dev/video0"));
    assert_eq!((devices[1].index, devices[1].name.as_str()), (1, "Built-in"));
    assert_eq!((devices[2].index, devices[2].name.as_str()), (2, "USB Cam"));
}

#[test]
fn stderr_tail_keeps_the_newest_bytes() {
    let mut kept = vec![1u8; STDERR_LIMIT - 2];
    append_stderr_tail(&mut kept, &[7, 8, 9, 10]);
    assert_eq!(kept.len(), STDERR_LIMIT);
    assert_eq!(&kept[STDERR_LIMIT - 4..], &[7, 8, 9, 10]);
    assert_eq!(kept[0], 1);
    let mut small = vec![1u8];
    append_stderr_tail(&mut small, &[2]);
    assert_eq!(small, vec![1, 2]);
    assert_eq!(
        capture_failure_message(Some("exit status: 1".to_string()), "  boom \n"),
        "ffmpeg closed before producing a complete RGB frame (status: exit status: 1)\nffmpeg stderr:\nboom"
    );
    assert_eq!(
        capture_failure_message(None, " \n"),
        "ffmpeg closed before producing a complete RGB frame"
    );
}

#[test]
fn auto_platform_builds_the_host_command_line() {
    assert_eq!(
        build_ffmpeg_args(Platform::Auto, 3, 30, 640, 480, true),
        build_ffmpeg_args(Platform::Macos, 3, 30, 640, 480, true)
    );
    assert_eq!(
        build_ffmpeg_args(Platform::Auto, 3, 30, 640, 480, false),
        build_ffmpeg_args(Platform::Linux, 3, 30, 640, 480, false)
    );
    assert_eq!(build_ffmpeg_args(Platform::Auto, 3, 30, 640, 480, true)[5], "avfoundation");
    // A named platform does not depend on the host.
    assert_eq!(
        build_ffmpeg_args(Platform::Linux, 3, 30, 640, 480, true),
        build_ffmpeg_args(Platform::Linux, 3, 30, 640, 480, false)
    );
}
