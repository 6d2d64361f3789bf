use blit::dmabuf::{read_le_u16, read_nv12_dmabuf, read_p010_dmabuf, read_packed_rgba_dmabuf, yuv420_to_rgb, PixelFormat};

#[test]
fn xrgb_dmabuf_forces_opaque_alpha() {
    let pixels = [
        0x10, 0x20, 0x30, 0x00, //
        0x40, 0x50, 0x60, 0x7f,
    ];

    let rgba = read_packed_rgba_dmabuf(&pixels, 8, 2, 1, false, PixelFormat::Xrgb8888).unwrap();

    assert_eq!(rgba, vec![0x30, 0x20, 0x10, 0xff, 0x60, 0x50, 0x40, 0xff]);
}

#[test]
fn nv12_black_decodes_to_opaque_black() {
    let y_plane = [16, 16, 16, 16];
    let uv_plane = [128, 128];

    let rgba = read_nv12_dmabuf(&y_plane, 2, &uv_plane, 2, 2, 2, false).unwrap();

    assert_eq!(rgba, vec![0, 0, 0, 255].repeat(4));
}

#[test]
fn p010_white_decodes_to_opaque_white() {
    let y_plane = [0x00, 0xeb, 0x00, 0xeb, 0x00, 0xeb, 0x00, 0xeb];
    let uv_plane = [0x00, 0x80, 0x00, 0x80];

    let rgba = read_p010_dmabuf(&y_plane, 4, &uv_plane, 4, 2, 2, false).unwrap();

    assert_eq!(rgba, vec![255, 255, 255, 255].repeat(4));
}

#[test]
fn packed_formats_and_inversion() {
    let pixels = [1u8, 2, 3, 4, 5, 6, 7, 8];
    // two rows of one pixel, read bottom-up
    let rgba = read_packed_rgba_dmabuf(&pixels, 4, 1, 2, true, PixelFormat::Abgr8888).unwrap();
    assert_eq!(rgba, vec![5, 6, 7, 8, 1, 2, 3, 4]);
    let rgba = read_packed_rgba_dmabuf(&pixels, 4, 1, 2, false, PixelFormat::Argb8888).unwrap();
    assert_eq!(rgba, vec![3, 2, 1, 4, 7, 6, 5, 8]);
    assert_eq!(read_packed_rgba_dmabuf(&pixels, 4, 1, 2, false, PixelFormat::Nv12), None);
    assert_eq!(read_packed_rgba_dmabuf(&pixels, 8, 1, 2, false, PixelFormat::Xbgr8888), None);
    assert_eq!(read_packed_rgba_dmabuf(&pixels, 4, 0, 2, false, PixelFormat::Other), Some(vec![]));
}

#[test]
fn odd_sides_are_refused() {
    assert_eq!(read_nv12_dmabuf(&[0; 9], 3, &[0; 9], 3, 3, 2, false), None);
    assert_eq!(read_p010_dmabuf(&[0; 16], 4, &[0; 16], 4, 2, 1, false), None);
}

#[test]
fn yuv_conversion_values() {
    assert_eq!(yuv420_to_rgb(235, 128, 128), [255, 255, 255]);
    assert_eq!(yuv420_to_rgb(16, 128, 128), [0, 0, 0]);
    assert_eq!(yuv420_to_rgb(0, 128, 128), [0, 0, 0]);
    assert_eq!(read_le_u16(&[0x34, 0x12, 0x99], 0), Some(0x1234));
    assert_eq!(read_le_u16(&[0x34, 0x12], 1), None);
    assert_eq!(read_le_u16(&[0x34, 0x12], usize::MAX), None);
}
