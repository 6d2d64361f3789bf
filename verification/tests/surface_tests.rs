use blit::surface::{
    encoder_dimensions, expected_rgba_len, next_encoder_attempt, search_failure, h264_stream_contains_idr, prepare_frame, rgb_to_u, rgb_to_v,
    rgb_to_y, rgba_to_nv12, rgba_to_yuv420, validate_surface_dimensions, SurfaceEncoderPreference,
    SurfaceH264EncoderPreference, SurfaceQuality,
};

#[test]
fn surface_encoder_preference_parser_accepts_known_values() {
    assert_eq!(
        SurfaceH264EncoderPreference::parse("h264-software"),
        Some(SurfaceH264EncoderPreference::H264Software)
    );
    assert_eq!(
        SurfaceH264EncoderPreference::parse("h264-vaapi"),
        Some(SurfaceH264EncoderPreference::H264Vaapi)
    );
    assert_eq!(
        SurfaceH264EncoderPreference::parse("nvenc-av1"),
        Some(SurfaceH264EncoderPreference::NvencAV1)
    );
    assert_eq!(SurfaceH264EncoderPreference::parse("bogus"), None);
}

#[test]
fn surface_encoder_preference_parse_list() {
    let list = SurfaceH264EncoderPreference::parse_list("nvenc-h265, av1, h264-software").unwrap();
    assert_eq!(list, vec![
        SurfaceH264EncoderPreference::NvencH265,
        SurfaceH264EncoderPreference::AV1,
        SurfaceH264EncoderPreference::H264Software,
    ]);
    assert!(SurfaceH264EncoderPreference::parse_list("bogus").is_err());
}

#[test]
fn rgba_to_yuv420_black_pixels_match_video_range_black() {
    let rgba = [0u8, 0, 0, 255].repeat(4);
    let yuv = rgba_to_yuv420(&rgba, 2, 2);
    assert_eq!(yuv, vec![16, 16, 16, 16, 128, 128]);
}

#[test]
fn rgba_to_nv12_black_pixels_match_video_range_black() {
    let rgba = [0u8, 0, 0, 255].repeat(4);
    let mut y_plane = vec![0u8; 4];
    let mut uv_plane = vec![0u8; 2];

    rgba_to_nv12(&rgba, 2, 2, &mut y_plane, 2, &mut uv_plane, 2).unwrap();

    assert_eq!(y_plane, vec![16, 16, 16, 16]);
    assert_eq!(uv_plane, vec![128, 128]);
}

#[test]
fn idr_nal_units_are_detected() {
    assert!(h264_stream_contains_idr(&[0, 0, 0, 1, 0x65, 0x88, 0x84]));
    assert!(h264_stream_contains_idr(&[0, 0, 1, 0x65, 0x00]));
    assert!(!h264_stream_contains_idr(&[0, 0, 0, 1, 0x41, 0x9a]));
}

#[test]
fn idr_scan_resumes_after_the_header_byte() {
    assert!(!h264_stream_contains_idr(&[0, 0, 1, 0, 0, 1, 0x65]));
    assert!(!h264_stream_contains_idr(&[]));
    assert!(!h264_stream_contains_idr(&[0, 0, 1]));
    assert!(h264_stream_contains_idr(&[9, 9, 0, 0, 1, 0x25]));
}

#[test]
fn parse_list_skips_empty_items_and_reports_unknown() {
    assert_eq!(SurfaceEncoderPreference::parse_list(" , av1,,").unwrap(), vec![SurfaceEncoderPreference::AV1]);
    assert_eq!(SurfaceEncoderPreference::parse_list("").unwrap(), vec![]);
    assert_eq!(
        SurfaceEncoderPreference::parse_list("av1, h263").unwrap_err(),
        "unknown encoder: h263".to_string()
    );
    assert_eq!(SurfaceEncoderPreference::parse("  hevc-nvenc "), Some(SurfaceEncoderPreference::NvencH265));
}

#[test]
fn defaults_and_dimension_limits() {
    let d = SurfaceEncoderPreference::defaults();
    assert_eq!(d.len(), 7);
    assert_eq!(
        d,
        vec![
            SurfaceEncoderPreference::NvencAV1,
            SurfaceEncoderPreference::AV1,
            SurfaceEncoderPreference::NvencH265,
            SurfaceEncoderPreference::H265Vaapi,
            SurfaceEncoderPreference::NvencH264,
            SurfaceEncoderPreference::H264Vaapi,
            SurfaceEncoderPreference::H264Software,
        ]
    );
    assert_eq!(SurfaceEncoderPreference::max_dimensions_for_list(&d), Some((3840, 2160)));
    assert_eq!(
        SurfaceEncoderPreference::max_dimensions_for_list(&[SurfaceEncoderPreference::AV1]),
        None
    );
    assert_eq!(SurfaceEncoderPreference::H265Vaapi.max_dimensions(), None);
    assert!(SurfaceEncoderPreference::AV1.supported_by_mask(0, 1, 2, 4));
    assert!(SurfaceEncoderPreference::AV1.supported_by_mask(4, 1, 2, 4));
    assert!(!SurfaceEncoderPreference::NvencH264.supported_by_mask(6, 1, 2, 4));
}

#[test]
fn quality_presets() {
    assert_eq!(SurfaceQuality::parse("high"), Some(SurfaceQuality::High));
    assert_eq!(SurfaceQuality::parse(" high"), None);
    assert_eq!(SurfaceQuality::default_quality(), SurfaceQuality::Medium);
    assert_eq!(SurfaceQuality::Low.av1_quantizer(), 180);
    assert_eq!(SurfaceQuality::Lossless.av1_min_quantizer(), 0);
    assert_eq!(SurfaceQuality::High.av1_speed(), 8);
}

#[test]
fn colour_conversion_exact_values() {
    assert_eq!(rgb_to_y(255, 255, 255), 235);
    assert_eq!(rgb_to_u(255, 255, 255), 128);
    assert_eq!(rgb_to_v(255, 0, 0), 240);
    assert_eq!(rgb_to_u(0, 0, 255), 240);
    assert_eq!(rgb_to_y(0, 0, 0), 16);
}

#[test]
fn dimension_checks() {
    assert_eq!(expected_rgba_len(2, 3), Some(24));
    assert!(validate_surface_dimensions(0, 5, SurfaceEncoderPreference::AV1).is_err());
    assert_eq!(
        validate_surface_dimensions(5, 0, SurfaceEncoderPreference::AV1).unwrap_err(),
        "surface encoder requires non-zero dimensions"
    );
    assert!(validate_surface_dimensions(3, 5, SurfaceEncoderPreference::AV1).is_ok());
    assert_eq!(encoder_dimensions(SurfaceEncoderPreference::H264Software, 3, 5), (4, 6));
    assert_eq!(encoder_dimensions(SurfaceEncoderPreference::AV1, 3, 5), (3, 5));
}

#[test]
fn prepare_frame_pads_odd_source_by_edge_duplication() {
    // a 1x1 red source for a 2x2 encoder
    let src = [1u8, 2, 3, 4];
    let out = prepare_frame(&src, 2, 2).unwrap();
    assert_eq!(out, [1u8, 2, 3, 4].repeat(4));
    // a 3x1 source (width - 1 == 3) for a 4x2 encoder
    let src: Vec<u8> = (0u8..12).collect();
    let out = prepare_frame(&src, 4, 2).unwrap();
    let mut want = Vec::new();
    for _ in 0..2 {
        want.extend_from_slice(&[0, 1, 2, 3, 4, 5, 6, 7, 8, 9, 10, 11, 8, 9, 10, 11]);
    }
    assert_eq!(out, want);
    // exact size passes through
    let exact = vec![7u8; 16];
    assert_eq!(prepare_frame(&exact, 2, 2).unwrap(), exact);
    assert_eq!(prepare_frame(&[], 2, 2), None);
}

#[test]
fn encoder_attempts_skip_what_the_client_lacks() {
    let prefs = [
        SurfaceEncoderPreference::NvencAV1,
        SurfaceEncoderPreference::H265Vaapi,
        SurfaceEncoderPreference::H264Vaapi,
        SurfaceEncoderPreference::H264Software,
    ];
    assert_eq!(next_encoder_attempt(&prefs, 1, 1, 2, 4, 0), Some(2));
    assert_eq!(next_encoder_attempt(&prefs, 1, 1, 2, 4, 3), Some(3));
    assert_eq!(next_encoder_attempt(&prefs, 1, 1, 2, 4, 4), None);
    assert_eq!(next_encoder_attempt(&prefs, 0, 1, 2, 4, 1), Some(1));
    assert_eq!(next_encoder_attempt(&prefs, 4, 1, 2, 4, 1), None);
    assert_eq!(next_encoder_attempt(&prefs, 4, 1, 2, 4, 9), None);
}

#[test]
fn encoder_search_errors() {
    assert_eq!(search_failure(None), "no encoders configured");
    assert_eq!(search_failure(Some("no device".to_string())), "no device");
}
