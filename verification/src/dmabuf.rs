//! Reading client buffers back as RGBA: packed 32-bit RGB formats,
//! NV12 and P010, with the video-range BT.601 YUV to RGB conversion.
use vstd::prelude::*;

verus! {

/// The pixel layouts of a client buffer.
#[derive(Clone, Copy, Debug, PartialEq, Eq, Structural)]
pub enum PixelFormat {
    Argb8888,
    Xrgb8888,
    Abgr8888,
    Xbgr8888,
    Nv12,
    P010,
    Other,
}

/// `x` clamped into `0..=255`.
pub open spec fn clamp255(x: int) -> u8 {
    if x < 0 {
        0
    } else if x > 255 {
        255
    } else {
        x as u8
    }
}

/// Video-range BT.601 YUV to RGB.
pub open spec fn yuv_rgb(y: u8, u: u8, v: u8) -> Seq<u8> {
    let yy = if y as int - 16 < 0 {
        0
    } else {
        y as int - 16
    };
    let uu = u as int - 128;
    let vv = v as int - 128;
    seq![
        clamp255((298 * yy + 409 * vv + 128) / 256),
        clamp255((298 * yy - 100 * uu - 208 * vv + 128) / 256),
        clamp255((298 * yy + 516 * uu + 128) / 256),
    ]
}

/// Converts one video-range YUV sample to RGB.
pub fn yuv420_to_rgb(y: u8, u: u8, v: u8) -> (r: [u8; 3])
    ensures
        r@ == yuv_rgb(y, u, v),
{
    let y0 = y as i32 - 16;
    let yi = if y0 < 0 {
        0
    } else {
        y0
    };
    let ui = u as i32 - 128;
    let vi = v as i32 - 128;
    let sr = 298 * yi + 409 * vi + 128;
    let sg = 298 * yi - 100 * ui - 208 * vi + 128;
    let sb = 298 * yi + 516 * ui + 128;
    assert((sr >> 8u32) == sr / 256) by (bit_vector);
    assert((sg >> 8u32) == sg / 256) by (bit_vector);
    assert((sb >> 8u32) == sb / 256) by (bit_vector);
    let tr = sr >> 8;
    let tg = sg >> 8;
    let tb = sb >> 8;
    let r: u8 = if tr < 0 {
        0
    } else if tr > 255 {
        255
    } else {
        tr as u8
    };
    let g: u8 = if tg < 0 {
        0
    } else if tg > 255 {
        255
    } else {
        tg as u8
    };
    let b: u8 = if tb < 0 {
        0
    } else if tb > 255 {
        255
    } else {
        tb as u8
    };
    let out = [r, g, b];
    assert(out@ =~= yuv_rgb(y, u, v)) by {
        assert(out@ =~= seq![r, g, b]);
    }
    out
}

/// The little-endian `u16` at `offset`, if both bytes exist.
pub fn read_le_u16(bytes: &[u8], offset: usize) -> (r: Option<u16>)
    ensures
        r == (if offset + 2 <= bytes@.len() {
            Some((bytes@[offset as int] as int + 256 * bytes@[offset + 1] as int) as u16)
        } else {
            None::<u16>
        }),
{
    let n = bytes.len();
    let end = match offset.checked_add(2) {
        Some(e) => e,
        None => return None,
    };
    if end > bytes.len() {
        return None;
    }
    let lo = bytes[offset];
    let hi = bytes[offset + 1];
    let v = (lo as u16) | ((hi as u16) << 8u16);
    assert(v == lo as int + 256 * hi as int) by (bit_vector)
        requires
            v == (lo as u16) | ((hi as u16) << 8u16),
    ;
    Some(v)
}

/// A `w` x `h` RGBA image whose byte `k` of pixel (`row`, `col`) is `f(row, col, k)`.
pub open spec fn pixel_image(w: int, h: int, f: spec_fn(int, int, int) -> u8) -> Seq<u8> {
    Seq::new((w * h * 4) as nat, |i: int| f((i / 4) / w, (i / 4) % w, i % 4))
}

proof fn lemma_div_mod_row(i: int, w: int, row: int)
    requires
        w > 0,
        row * w <= i < row * w + w,
    ensures
        i / w == row,
        i % w == i - row * w,
{
    vstd::arithmetic::div_mod::lemma_fundamental_div_mod_converse(i, w, row, i - row * w);
}

/// Appending the four bytes of pixel (`row`, `col`) to the image up to it
/// gives the image up to the next pixel.
proof fn lemma_push_pixel(
    w: int,
    h: int,
    f: spec_fn(int, int, int) -> u8,
    row: int,
    col: int,
    s: Seq<u8>,
)
    requires
        0 <= row < h,
        0 <= col < w,
        s == pixel_image(w, h, f).take((row * w + col) * 4),
    ensures
        s + seq![f(row, col, 0), f(row, col, 1), f(row, col, 2), f(row, col, 3)] == pixel_image(
            w,
            h,
            f,
        ).take((row * w + col + 1) * 4),
{
    let p = row * w + col;
    assert(0 <= row * w) by (nonlinear_arith)
        requires
            0 <= row,
            0 <= w,
    ;
    assert(p < w * h) by (nonlinear_arith)
        requires
            p == row * w + col,
            0 <= row < h,
            0 <= col < w,
    ;
    lemma_div_mod_row(p, w, row);
    lemma_div_mod_row(p * 4, 4, p);
    lemma_div_mod_row(p * 4 + 1, 4, p);
    lemma_div_mod_row(p * 4 + 2, 4, p);
    lemma_div_mod_row(p * 4 + 3, 4, p);
    assert(s + seq![f(row, col, 0), f(row, col, 1), f(row, col, 2), f(row, col, 3)]
        =~= pixel_image(w, h, f).take((p + 1) * 4));
}

proof fn lemma_row_done(w: int, row: int)
    ensures
        (row * w + w) * 4 == (row + 1) * w * 4,
{
    assert((row * w + w) * 4 == (row + 1) * w * 4) by (nonlinear_arith);
}

proof fn lemma_image_done(w: int, h: int, f: spec_fn(int, int, int) -> u8)
    requires
        0 <= w,
        0 <= h,
    ensures
        pixel_image(w, h, f).take(h * w * 4) == pixel_image(w, h, f),
{
    assert(h * w * 4 == w * h * 4) by (nonlinear_arith);
    assert(pixel_image(w, h, f).take(h * w * 4) =~= pixel_image(w, h, f));
}

/// The buffer row that holds image row `row`.
pub open spec fn source_row(h: int, inverted: bool, row: int) -> int {
    if inverted {
        h - 1 - row
    } else {
        row
    }
}

/// Whether every image row of a packed buffer lies inside it.
pub open spec fn packed_rows_fit(len: int, stride: int, w: int, h: int, inverted: bool) -> bool {
    forall|row: int| 0 <= row < h ==> #[trigger] source_row(h, inverted, row) * stride + w * 4 <= len
}

/// Whether a format is a packed 32-bit RGB format.
pub open spec fn is_packed(f: PixelFormat) -> bool {
    f == PixelFormat::Argb8888 || f == PixelFormat::Xrgb8888 || f == PixelFormat::Abgr8888 || f
        == PixelFormat::Xbgr8888
}

/// Byte `k` of the RGBA pixel (`row`, `col`) of a packed buffer.
pub open spec fn packed_byte(
    plane: Seq<u8>,
    stride: int,
    h: int,
    inverted: bool,
    format: PixelFormat,
    row: int,
    col: int,
    k: int,
) -> u8 {
    let i = source_row(h, inverted, row) * stride + col * 4;
    match format {
        PixelFormat::Argb8888 | PixelFormat::Xrgb8888 => {
            if k == 0 {
                plane[i + 2]
            } else if k == 1 {
                plane[i + 1]
            } else if k == 2 {
                plane[i]
            } else if format == PixelFormat::Argb8888 {
                plane[i + 3]
            } else {
                255
            }
        },
        _ => {
            if k < 3 {
                plane[i + k]
            } else if format == PixelFormat::Abgr8888 {
                plane[i + 3]
            } else {
                255
            }
        },
    }
}

/// Reads a packed 32-bit RGB buffer (rows `stride` bytes apart, bottom-up
/// when `y_inverted`) as RGBA; the X formats read as opaque.  `None` when
/// a row lies outside the buffer or the format is not a packed one.
pub fn read_packed_rgba_dmabuf(
    plane_data: &[u8],
    stride: usize,
    width: usize,
    height: usize,
    y_inverted: bool,
    format: PixelFormat,
) -> (r: Option<Vec<u8>>)
    requires
        width * height * 4 <= isize::MAX,
        height > 0 ==> (height - 1) * stride + width * 4 <= usize::MAX,
    ensures
        ({
            let ok = packed_rows_fit(plane_data@.len() as int, stride as int, width as int, height as int, y_inverted)
                && (width * height == 0 || is_packed(format));
            &&& (r is Some <==> ok)
            &&& (r matches Some(v) ==> v@ == pixel_image(
                width as int,
                height as int,
                |row: int, col: int, k: int|
                    packed_byte(plane_data@, stride as int, height as int, y_inverted, format, row, col, k),
            ))
        }),
{
    let ghost w = width as int;
    let ghost h = height as int;
    let ghost f = |row: int, col: int, k: int|
        packed_byte(plane_data@, stride as int, h, y_inverted, format, row, col, k);
    let plen = plane_data.len();
    let mut rgba: Vec<u8> = Vec::new();
    let mut row: usize = 0;
    while row < height
        invariant
            w == width,
            h == height,
            f == (|row: int, col: int, k: int|
                packed_byte(plane_data@, stride as int, h, y_inverted, format, row, col, k)),
            width * height * 4 <= isize::MAX,
            height > 0 ==> (height - 1) * stride + width * 4 <= usize::MAX,
            plen == plane_data@.len(),
            row <= height,
            forall|r: int| 0 <= r < row ==> #[trigger] source_row(h, y_inverted, r) * stride + w * 4 <= plane_data@.len(),
            row > 0 && width > 0 ==> is_packed(format),
            rgba@ == pixel_image(w, h, f).take(row * w * 4),
        decreases height - row,
    {
        let src_row = if y_inverted {
            height - 1 - row
        } else {
            row
        };
        assert(src_row * stride <= (height - 1) * stride) by (nonlinear_arith)
            requires
                src_row <= height - 1,
        ;
        let row_start = src_row * stride;
        let row_end = row_start + (width * 4);
        if row_end > plane_data.len() {
            assert(source_row(h, y_inverted, row as int) == src_row);
            return None;
        }
        let mut col: usize = 0;
        while col < width
            invariant
                w == width,
                h == height,
                f == (|row: int, col: int, k: int|
                    packed_byte(plane_data@, stride as int, h, y_inverted, format, row, col, k)),
                row < height,
                src_row == source_row(h, y_inverted, row as int),
                row_start == src_row * stride,
                row_start + width * 4 <= plane_data@.len(),
                plen == plane_data@.len(),
                col <= width,
                col > 0 ==> is_packed(format),
                row > 0 && width > 0 ==> is_packed(format),
                rgba@ == pixel_image(w, h, f).take((row * w + col) * 4),
            decreases width - col,
        {
            let i = row_start + col * 4;
            let ghost before = rgba@;
            match format {
                PixelFormat::Argb8888 => {
                    rgba.push(plane_data[i + 2]);
                    rgba.push(plane_data[i + 1]);
                    rgba.push(plane_data[i]);
                    rgba.push(plane_data[i + 3]);
                },
                PixelFormat::Xrgb8888 => {
                    rgba.push(plane_data[i + 2]);
                    rgba.push(plane_data[i + 1]);
                    rgba.push(plane_data[i]);
                    rgba.push(255);
                },
                PixelFormat::Abgr8888 => {
                    rgba.push(plane_data[i]);
                    rgba.push(plane_data[i + 1]);
                    rgba.push(plane_data[i + 2]);
                    rgba.push(plane_data[i + 3]);
                },
                PixelFormat::Xbgr8888 => {
                    rgba.push(plane_data[i]);
                    rgba.push(plane_data[i + 1]);
                    rgba.push(plane_data[i + 2]);
                    rgba.push(255);
                },
                _ => {
                    assert(width * height > 0) by (nonlinear_arith)
                        requires
                            col < width,
                            row < height,
                    ;
                    return None;
                },
            }
            proof {
                lemma_push_pixel(w, h, f, row as int, col as int, before);
                assert(rgba@ =~= before + seq![
                    f(row as int, col as int, 0),
                    f(row as int, col as int, 1),
                    f(row as int, col as int, 2),
                    f(row as int, col as int, 3),
                ]);
            }
            col += 1;
        }
        proof {
            lemma_row_done(w, row as int);
        }
        row += 1;
    }
    proof {
        lemma_image_done(w, h, f);
        if width * height != 0 {
            assert(width > 0 && height > 0);
        }
    }
    Some(rgba)
}

/// Whether every row of an NV12 buffer (luma rows `y_stride` apart,
/// chroma rows `uv_stride` apart, one chroma row per two luma rows) lies
/// inside its plane.
pub open spec fn nv12_rows_fit(
    y_len: int,
    y_stride: int,
    uv_len: int,
    uv_stride: int,
    w: int,
    h: int,
    inverted: bool,
    bytes_per_sample: int,
) -> bool {
    forall|row: int|
        0 <= row < h ==> {
            let sr = #[trigger] source_row(h, inverted, row);
            &&& sr * y_stride + w * bytes_per_sample <= y_len
            &&& (sr / 2) * uv_stride + w * bytes_per_sample <= uv_len
        }
}

/// Byte `k` of the RGBA pixel (`row`, `col`) of an NV12 buffer.
pub open spec fn nv12_byte(
    y_plane: Seq<u8>,
    y_stride: int,
    uv_plane: Seq<u8>,
    uv_stride: int,
    h: int,
    inverted: bool,
    row: int,
    col: int,
    k: int,
) -> u8 {
    let sr = source_row(h, inverted, row);
    let y = y_plane[sr * y_stride + col];
    let uv = (sr / 2) * uv_stride + (col / 2) * 2;
    if k < 3 {
        yuv_rgb(y, uv_plane[uv], uv_plane[uv + 1])[k]
    } else {
        255
    }
}

/// Reads an NV12 buffer as opaque RGBA.  `None` when a side is odd or a
/// row lies outside its plane.
pub fn read_nv12_dmabuf(
    y_plane: &[u8],
    y_stride: usize,
    uv_plane: &[u8],
    uv_stride: usize,
    width: usize,
    height: usize,
    y_inverted: bool,
) -> (r: Option<Vec<u8>>)
    requires
        width * height * 4 <= isize::MAX,
        height > 0 ==> (height - 1) * y_stride + width <= usize::MAX,
        height > 0 ==> ((height - 1) / 2) * uv_stride + width <= usize::MAX,
    ensures
        ({
            let ok = width % 2 == 0 && height % 2 == 0 && nv12_rows_fit(
                y_plane@.len() as int,
                y_stride as int,
                uv_plane@.len() as int,
                uv_stride as int,
                width as int,
                height as int,
                y_inverted,
                1,
            );
            &&& (r is Some <==> ok)
            &&& (r matches Some(v) ==> v@ == pixel_image(
                width as int,
                height as int,
                |row: int, col: int, k: int|
                    nv12_byte(
                        y_plane@,
                        y_stride as int,
                        uv_plane@,
                        uv_stride as int,
                        height as int,
                        y_inverted,
                        row,
                        col,
                        k,
                    ),
            ))
        }),
{
    if width % 2 != 0 || height % 2 != 0 {
        return None;
    }
    let ghost w = width as int;
    let ghost h = height as int;
    let ghost f = |row: int, col: int, k: int|
        nv12_byte(y_plane@, y_stride as int, uv_plane@, uv_stride as int, h, y_inverted, row, col, k);
    let ylen = y_plane.len();
    let uvlen = uv_plane.len();
    let mut rgba: Vec<u8> = Vec::new();
    let mut row: usize = 0;
    while row < height
        invariant
            w == width,
            h == height,
            width % 2 == 0,
            f == (|row: int, col: int, k: int|
                nv12_byte(y_plane@, y_stride as int, uv_plane@, uv_stride as int, h, y_inverted, row, col, k)),
            height > 0 ==> (height - 1) * y_stride + width <= usize::MAX,
            height > 0 ==> ((height - 1) / 2) * uv_stride + width <= usize::MAX,
            ylen == y_plane@.len(),
            uvlen == uv_plane@.len(),
            row <= height,
            forall|r: int|
                0 <= r < row ==> {
                    let sr = #[trigger] source_row(h, y_inverted, r);
                    &&& sr * y_stride + w <= y_plane@.len()
                    &&& (sr / 2) * uv_stride + w <= uv_plane@.len()
                },
            rgba@ == pixel_image(w, h, f).take(row * w * 4),
        decreases height - row,
    {
        let src_row = if y_inverted {
            height - 1 - row
        } else {
            row
        };
        assert(src_row * y_stride <= (height - 1) * y_stride) by (nonlinear_arith)
            requires
                src_row <= height - 1,
        ;
        assert((src_row / 2) * uv_stride <= ((height - 1) / 2) * uv_stride) by (nonlinear_arith)
            requires
                src_row <= height - 1,
        ;
        let y_row_start = src_row * y_stride;
        let y_row_end = y_row_start + width;
        if y_row_end > y_plane.len() {
            assert(source_row(h, y_inverted, row as int) == src_row);
            return None;
        }
        let uv_row_start = (src_row / 2) * uv_stride;
        let uv_row_end = uv_row_start + width;
        if uv_row_end > uv_plane.len() {
            assert(source_row(h, y_inverted, row as int) == src_row);
            return None;
        }
        let mut col: usize = 0;
        while col < width
            invariant
                w == width,
                h == height,
                width % 2 == 0,
                f == (|row: int, col: int, k: int|
                    nv12_byte(y_plane@, y_stride as int, uv_plane@, uv_stride as int, h, y_inverted, row, col, k)),
                row < height,
                src_row == source_row(h, y_inverted, row as int),
                y_row_start == src_row * y_stride,
                uv_row_start == (src_row / 2) * uv_stride,
                y_row_start + width <= y_plane@.len(),
                uv_row_start + width <= uv_plane@.len(),
                ylen == y_plane@.len(),
                uvlen == uv_plane@.len(),
                col <= width,
                rgba@ == pixel_image(w, h, f).take((row * w + col) * 4),
            decreases width - col,
        {
            let y = y_plane[y_row_start + col];
            let uv_idx = uv_row_start + (col / 2) * 2;
            let u = uv_plane[uv_idx];
            let v = uv_plane[uv_idx + 1];
            let rgb = yuv420_to_rgb(y, u, v);
            let ghost before = rgba@;
            rgba.push(rgb[0]);
            rgba.push(rgb[1]);
            rgba.push(rgb[2]);
            rgba.push(255);
            proof {
                lemma_push_pixel(w, h, f, row as int, col as int, before);
                assert(rgba@ =~= before + seq![
                    f(row as int, col as int, 0),
                    f(row as int, col as int, 1),
                    f(row as int, col as int, 2),
                    f(row as int, col as int, 3),
                ]);
            }
            col += 1;
        }
        proof {
            lemma_row_done(w, row as int);
        }
        row += 1;
    }
    proof {
        lemma_image_done(w, h, f);
    }
    Some(rgba)
}

/// The high byte of the little-endian 16-bit sample at `i`.
pub open spec fn p010_sample(plane: Seq<u8>, i: int) -> u8 {
    plane[i + 1]
}

/// Byte `k` of the RGBA pixel (`row`, `col`) of a P010 buffer: each
/// 16-bit sample contributes its high byte.
pub open spec fn p010_byte(
    y_plane: Seq<u8>,
    y_stride: int,
    uv_plane: Seq<u8>,
    uv_stride: int,
    h: int,
    inverted: bool,
    row: int,
    col: int,
    k: int,
) -> u8 {
    let sr = source_row(h, inverted, row);
    let y = p010_sample(y_plane, sr * y_stride + col * 2);
    let uv = (sr / 2) * uv_stride + (col / 2) * 4;
    if k < 3 {
        yuv_rgb(y, p010_sample(uv_plane, uv), p010_sample(uv_plane, uv + 2))[k]
    } else {
        255
    }
}

/// The high byte of a 16-bit sample.
fn high_byte(x: u16) -> (r: u8)
    ensures
        r == x / 256,
{
    assert((x >> 8u16) == x / 256) by (bit_vector);
    (x >> 8) as u8
}

/// The high byte of the little-endian 16-bit sample at `i`.
fn p010_high(plane: &[u8], i: usize) -> (r: u8)
    requires
        i + 2 <= plane@.len(),
    ensures
        r == p010_sample(plane@, i as int),
{
    match read_le_u16(plane, i) {
        Some(x) => {
            let ghost lo = plane@[i as int];
            let ghost hi = plane@[i + 1];
            assert((lo as int + 256 * hi as int) / 256 == hi as int);
            high_byte(x)
        },
        None => {
            assert(false);
            0
        },
    }
}

/// Reads a P010 buffer (10-bit samples in the high bits of little-endian
/// 16-bit words) as opaque RGBA.  `None` when a side is odd or a row lies
/// outside its plane.
pub fn read_p010_dmabuf(
    y_plane: &[u8],
    y_stride: usize,
    uv_plane: &[u8],
    uv_stride: usize,
    width: usize,
    height: usize,
    y_inverted: bool,
) -> (r: Option<Vec<u8>>)
    requires
        width * height * 4 <= isize::MAX,
        height > 0 ==> (height - 1) * y_stride + width * 2 <= usize::MAX,
        height > 0 ==> ((height - 1) / 2) * uv_stride + width * 2 <= usize::MAX,
    ensures
        ({
            let ok = width % 2 == 0 && height % 2 == 0 && nv12_rows_fit(
                y_plane@.len() as int,
                y_stride as int,
                uv_plane@.len() as int,
                uv_stride as int,
                width as int,
                height as int,
                y_inverted,
                2,
            );
            &&& (r is Some <==> ok)
            &&& (r matches Some(v) ==> v@ == pixel_image(
                width as int,
                height as int,
                |row: int, col: int, k: int|
                    p010_byte(
                        y_plane@,
                        y_stride as int,
                        uv_plane@,
                        uv_stride as int,
                        height as int,
                        y_inverted,
                        row,
                        col,
                        k,
                    ),
            ))
        }),
{
    if width % 2 != 0 || height % 2 != 0 {
        return None;
    }
    let ghost w = width as int;
    let ghost h = height as int;
    let ghost f = |row: int, col: int, k: int|
        p010_byte(y_plane@, y_stride as int, uv_plane@, uv_stride as int, h, y_inverted, row, col, k);
    let ylen = y_plane.len();
    let uvlen = uv_plane.len();
    let mut rgba: Vec<u8> = Vec::new();
    let mut row: usize = 0;
    while row < height
        invariant
            w == width,
            h == height,
            width % 2 == 0,
            f == (|row: int, col: int, k: int|
                p010_byte(y_plane@, y_stride as int, uv_plane@, uv_stride as int, h, y_inverted, row, col, k)),
            height > 0 ==> (height - 1) * y_stride + width * 2 <= usize::MAX,
            height > 0 ==> ((height - 1) / 2) * uv_stride + width * 2 <= usize::MAX,
            ylen == y_plane@.len(),
            uvlen == uv_plane@.len(),
            row <= height,
            forall|r: int|
                0 <= r < row ==> {
                    let sr = #[trigger] source_row(h, y_inverted, r);
                    &&& sr * y_stride + w * 2 <= y_plane@.len()
                    &&& (sr / 2) * uv_stride + w * 2 <= uv_plane@.len()
                },
            rgba@ == pixel_image(w, h, f).take(row * w * 4),
        decreases height - row,
    {
        let src_row = if y_inverted {
            height - 1 - row
        } else {
            row
        };
        assert(src_row * y_stride <= (height - 1) * y_stride) by (nonlinear_arith)
            requires
                src_row <= height - 1,
        ;
        assert((src_row / 2) * uv_stride <= ((height - 1) / 2) * uv_stride) by (nonlinear_arith)
            requires
                src_row <= height - 1,
        ;
        let y_row_start = src_row * y_stride;
        let y_row_end = y_row_start + width * 2;
        if y_row_end > y_plane.len() {
            assert(source_row(h, y_inverted, row as int) == src_row);
            return None;
        }
        let uv_row_start = (src_row / 2) * uv_stride;
        let uv_row_end = uv_row_start + width * 2;
        if uv_row_end > uv_plane.len() {
            assert(source_row(h, y_inverted, row as int) == src_row);
            return None;
        }
        let mut col: usize = 0;
        while col < width
            invariant
                w == width,
                h == height,
                width % 2 == 0,
                f == (|row: int, col: int, k: int|
                    p010_byte(y_plane@, y_stride as int, uv_plane@, uv_stride as int, h, y_inverted, row, col, k)),
                row < height,
                src_row == source_row(h, y_inverted, row as int),
                y_row_start == src_row * y_stride,
                uv_row_start == (src_row / 2) * uv_stride,
                y_row_start + width * 2 <= y_plane@.len(),
                uv_row_start + width * 2 <= uv_plane@.len(),
                ylen == y_plane@.len(),
                uvlen == uv_plane@.len(),
                col <= width,
                rgba@ == pixel_image(w, h, f).take((row * w + col) * 4),
            decreases width - col,
        {
            let y = p010_high(y_plane, y_row_start + col * 2);
            let uv_idx = uv_row_start + (col / 2) * 4;
            let u = p010_high(uv_plane, uv_idx);
            let v = p010_high(uv_plane, uv_idx + 2);
            let rgb = yuv420_to_rgb(y, u, v);
            let ghost before = rgba@;
            rgba.push(rgb[0]);
            rgba.push(rgb[1]);
            rgba.push(rgb[2]);
            rgba.push(255);
            proof {
                lemma_push_pixel(w, h, f, row as int, col as int, before);
                assert(rgba@ =~= before + seq![
                    f(row as int, col as int, 0),
                    f(row as int, col as int, 1),
                    f(row as int, col as int, 2),
                    f(row as int, col as int, 3),
                ]);
            }
            col += 1;
        }
        proof {
            lemma_row_done(w, row as int);
        }
        row += 1;
    }
    proof {
        lemma_image_done(w, h, f);
    }
    Some(rgba)
}

} // verus!
