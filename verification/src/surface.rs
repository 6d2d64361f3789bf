//! Surface encoding: the choice of video encoder, the quality presets,
//! the dimension checks, and the colour-space conversion that feeds the
//! encoders (RGBA to planar YUV 4:2:0 and to NV12), plus the scan of an
//! H.264 byte stream for an IDR picture.
use vstd::prelude::*;
use crate::text::{
    append_chars, append_str, dec, dec_u64, chars_eq_str, chars_of, is_ws, split_chars, split_seq, string_of, trim,
    trim_chars, trim_end, trim_start, trim_str, views,
};

verus! {

broadcast use vstd::string::group_string_axioms;

// ─────────────────────────── encoder preferences ───────────────────────────

/// A video encoder that a surface stream may use.
#[derive(Clone, Copy, Debug, PartialEq, Eq, Structural)]
pub enum SurfaceEncoderPreference {
    H264Software,
    H264Vaapi,
    H265Vaapi,
    NvencH264,
    NvencH265,
    NvencAV1,
    AV1,
}

/// The name under which the encoder choice was first known.
pub type SurfaceH264EncoderPreference = SurfaceEncoderPreference;

/// The codec family an encoder produces.
#[derive(Clone, Copy, Debug, PartialEq, Eq, Structural)]
pub enum CodecFamily {
    H264,
    H265,
    AV1,
}

/// The codec family of the stream an encoder produces.
pub open spec fn family_of(p: SurfaceEncoderPreference) -> CodecFamily {
    match p {
        SurfaceEncoderPreference::H264Software | SurfaceEncoderPreference::H264Vaapi
        | SurfaceEncoderPreference::NvencH264 => CodecFamily::H264,
        SurfaceEncoderPreference::H265Vaapi | SurfaceEncoderPreference::NvencH265 => CodecFamily::H265,
        SurfaceEncoderPreference::AV1 | SurfaceEncoderPreference::NvencAV1 => CodecFamily::AV1,
    }
}

/// openh264's limit: 3840x2160.
pub const H264_MAX_WIDTH: u16 = 3840;

pub const H264_MAX_HEIGHT: u16 = 2160;

/// The encoder that each accepted name denotes.
pub open spec fn preference_named(n: Seq<char>) -> Option<SurfaceEncoderPreference> {
    if n == "h264-software"@ || n == "software"@ {
        Some(SurfaceEncoderPreference::H264Software)
    } else if n == "h264-vaapi"@ || n == "vaapi"@ {
        Some(SurfaceEncoderPreference::H264Vaapi)
    } else if n == "h265-vaapi"@ || n == "hevc-vaapi"@ {
        Some(SurfaceEncoderPreference::H265Vaapi)
    } else if n == "nvenc-h264"@ || n == "h264-nvenc"@ {
        Some(SurfaceEncoderPreference::NvencH264)
    } else if n == "nvenc-h265"@ || n == "h265-nvenc"@ || n == "nvenc-hevc"@ || n
        == "hevc-nvenc"@ {
        Some(SurfaceEncoderPreference::NvencH265)
    } else if n == "nvenc-av1"@ || n == "av1-nvenc"@ {
        Some(SurfaceEncoderPreference::NvencAV1)
    } else if n == "av1"@ {
        Some(SurfaceEncoderPreference::AV1)
    } else {
        None
    }
}

/// What `parse_list` gives for the trimmed items of a comma-separated list:
/// empty items are skipped, and the first unknown one is reported.
pub open spec fn preference_list(items: Seq<Seq<char>>) -> Result<
    Seq<SurfaceEncoderPreference>,
    Seq<char>,
>
    decreases items.len(),
{
    if items.len() == 0 {
        Ok(Seq::empty())
    } else {
        let t = items[0];
        let rest = preference_list(items.drop_first());
        if t.len() == 0 {
            rest
        } else {
            match preference_named(t) {
                None => Err("unknown encoder: "@ + t),
                Some(p) => match rest {
                    Ok(v) => Ok(seq![p] + v),
                    Err(e) => Err(e),
                },
            }
        }
    }
}

/// The trimmed pieces of `s` between commas.
pub open spec fn trimmed_items(s: Seq<char>) -> Seq<Seq<char>> {
    split_seq(s, ',').map_values(|p: Seq<char>| trim(p))
}

/// The rank of an encoder's codec in the default order: AV1, then H.265,
/// then H.264.
pub open spec fn codec_rank(p: SurfaceEncoderPreference) -> int {
    match family_of(p) {
        CodecFamily::AV1 => 0,
        CodecFamily::H265 => 1,
        CodecFamily::H264 => 2,
    }
}

/// Whether an encoder runs on hardware (NVENC or VA-API).
pub open spec fn is_hardware(p: SurfaceEncoderPreference) -> bool {
    !(p is H264Software || p is AV1)
}

/// The preference order used when none is configured: every AV1 encoder
/// before every H.265 one, before every H.264 one; hardware before
/// software within each codec.
pub open spec fn default_preferences() -> Seq<SurfaceEncoderPreference> {
    seq![
        SurfaceEncoderPreference::NvencAV1,
        SurfaceEncoderPreference::AV1,
        SurfaceEncoderPreference::NvencH265,
        SurfaceEncoderPreference::H265Vaapi,
        SurfaceEncoderPreference::NvencH264,
        SurfaceEncoderPreference::H264Vaapi,
        SurfaceEncoderPreference::H264Software,
    ]
}

/// The largest surface an encoder accepts, if it has a limit.
pub open spec fn max_dims(p: SurfaceEncoderPreference) -> Option<(u16, u16)> {
    match p {
        SurfaceEncoderPreference::H264Software | SurfaceEncoderPreference::H264Vaapi
        | SurfaceEncoderPreference::NvencH264 => Some((H264_MAX_WIDTH, H264_MAX_HEIGHT)),
        _ => None,
    }
}

pub open spec fn min_u16(a: u16, b: u16) -> u16 {
    if a <= b {
        a
    } else {
        b
    }
}

/// The tightest limit over the first `n` preferences.
pub open spec fn max_dims_prefix(prefs: Seq<SurfaceEncoderPreference>, n: int) -> Option<(u16, u16)>
    decreases n,
{
    if n <= 0 {
        None
    } else {
        let acc = max_dims_prefix(prefs, n - 1);
        match max_dims(prefs[n - 1]) {
            None => acc,
            Some((w, h)) => match acc {
                None => Some((w, h)),
                Some((rw, rh)) => Some((min_u16(rw, w), min_u16(rh, h))),
            },
        }
    }
}

/// Whether a client's codec bitmask admits encoder `p`; a mask of zero
/// admits every encoder.
pub open spec fn admitted(p: SurfaceEncoderPreference, codec_support: u8, h264_bit: u8, h265_bit: u8, av1_bit: u8) -> bool {
    codec_support == 0 || (codec_support & match family_of(p) {
        CodecFamily::H264 => h264_bit,
        CodecFamily::H265 => h265_bit,
        CodecFamily::AV1 => av1_bit,
    }) != 0
}

/// The error of an encoder search that set up nothing: the last attempt's
/// error, or `no encoders configured` when nothing was tried.
pub fn search_failure(last_err: Option<String>) -> (r: String)
    ensures
        r@ == match last_err {
            Some(e) => e@,
            None => "no encoders configured"@,
        },
{
    match last_err {
        Some(e) => e,
        None => string_of(chars_of("no encoders configured").as_slice()),
    }
}

/// Which preference to try next when setting up an encoder: the first one
/// at or after `from` that the client admits. Preferences are tried in
/// order until one sets up; `None` means the search is over.
pub fn next_encoder_attempt(
    prefs: &[SurfaceEncoderPreference],
    codec_support: u8,
    h264_bit: u8,
    h265_bit: u8,
    av1_bit: u8,
    from: usize,
) -> (r: Option<usize>)
    ensures
        r is None ==> forall|i: int| from <= i < prefs@.len() ==> !admitted(#[trigger] prefs@[i], codec_support, h264_bit, h265_bit, av1_bit),
        r matches Some(i) ==> from <= i < prefs@.len() && admitted(prefs@[i as int], codec_support, h264_bit, h265_bit, av1_bit)
            && forall|m: int| from <= m < i ==> !admitted(#[trigger] prefs@[m], codec_support, h264_bit, h265_bit, av1_bit),
{
    let mut i = from;
    while i < prefs.len()
        invariant
            from <= i,
            forall|m: int| from <= m < i ==> !admitted(#[trigger] prefs@[m], codec_support, h264_bit, h265_bit, av1_bit),
        decreases prefs@.len() - i,
    {
        if prefs[i].supported_by_mask(codec_support, h264_bit, h265_bit, av1_bit) {
            return Some(i);
        }
        i += 1;
    }
    None
}

impl SurfaceEncoderPreference {
    /// The encoder named by `value` (surrounding white space ignored).
    pub fn parse(value: &str) -> (r: Option<Self>)
        ensures
            r == preference_named(trim(value@)),
    {
        let t = trim_str(value);
        let n = t.as_slice();
        if chars_eq_str(n, "h264-software") || chars_eq_str(n, "software") {
            Some(Self::H264Software)
        } else if chars_eq_str(n, "h264-vaapi") || chars_eq_str(n, "vaapi") {
            Some(Self::H264Vaapi)
        } else if chars_eq_str(n, "h265-vaapi") || chars_eq_str(n, "hevc-vaapi") {
            Some(Self::H265Vaapi)
        } else if chars_eq_str(n, "nvenc-h264") || chars_eq_str(n, "h264-nvenc") {
            Some(Self::NvencH264)
        } else if chars_eq_str(n, "nvenc-h265") || chars_eq_str(n, "h265-nvenc") || chars_eq_str(
            n,
            "nvenc-hevc",
        ) || chars_eq_str(n, "hevc-nvenc") {
            Some(Self::NvencH265)
        } else if chars_eq_str(n, "nvenc-av1") || chars_eq_str(n, "av1-nvenc") {
            Some(Self::NvencAV1)
        } else if chars_eq_str(n, "av1") {
            Some(Self::AV1)
        } else {
            None
        }
    }

    /// A comma-separated list of encoder names, in order; empty items are
    /// skipped and the first unknown name is an error.
    pub fn parse_list(value: &str) -> (r: Result<Vec<Self>, String>)
        ensures
            match preference_list(trimmed_items(value@)) {
                Ok(v) => r matches Ok(w) && w@ == v,
                Err(e) => r matches Err(m) && m@ == e,
            },
    {
        let cs = chars_of(value);
        let pieces = split_chars(cs.as_slice(), ',');
        let ghost items = trimmed_items(value@);
        let mut result: Vec<Self> = Vec::new();
        assert(items.skip(0) =~= items);
        proof {
            match preference_list(items) {
                Ok(v) => {
                    assert(result@ + v =~= v);
                },
                Err(e) => {},
            }
        }
        let mut i: usize = 0;
        while i < pieces.len()
            invariant
                i <= pieces@.len(),
                views(pieces@) == split_seq(value@, ','),
                items == trimmed_items(value@),
                items.len() == pieces@.len(),
                preference_list(items) == (match preference_list(items.skip(i as int)) {
                    Ok(v) => Ok(result@ + v),
                    Err(e) => Err(e),
                }),
            decreases pieces.len() - i,
        {
            let item = trim_chars(pieces[i].as_slice());
            let ghost rest = items.skip(i as int);
            let ghost p = views(pieces@)[i as int];
            assert(p == pieces@[i as int]@);
            assert(rest[0] == items[i as int]);
            assert(items[i as int] == trim(p));
            assert(item@ == trim(p));
            assert(rest.drop_first() =~= items.skip(i + 1));
            proof {
                trim_idempotent(p);
            }
            if item.len() == 0 {
                assert(preference_list(rest) == preference_list(items.skip(i + 1)));
            } else {
                let s = string_of(item.as_slice());
                match Self::parse(s.as_str()) {
                    None => {
                        let mut msg = chars_of("unknown encoder: ");
                        append_chars(&mut msg, item.as_slice());
                        assert(preference_list(rest) == Err::<Seq<SurfaceEncoderPreference>, Seq<char>>("unknown encoder: "@ + item@));
                        return Err(string_of(msg.as_slice()));
                    },
                    Some(pref) => {
                        let ghost before = result@;
                        result.push(pref);
                        proof {
                            match preference_list(items.skip(i + 1)) {
                                Ok(v) => {
                                    assert(preference_list(rest) == Ok::<Seq<SurfaceEncoderPreference>, Seq<char>>(seq![pref] + v));
                                    assert(result@ + v =~= before + (seq![pref] + v));
                                },
                                Err(e) => {
                                    assert(preference_list(rest) == Err::<Seq<SurfaceEncoderPreference>, Seq<char>>(e));
                                },
                            }
                        }
                    },
                }
            }
            i += 1;
        }
        assert(items.skip(i as int) =~= Seq::<Seq<char>>::empty());
        assert(result@ + Seq::<SurfaceEncoderPreference>::empty() =~= result@);
        Ok(result)
    }

    /// AV1 > H.265 > H.264, hardware before software.
    pub fn defaults() -> (r: Vec<Self>)
        ensures
            r@ == default_preferences(),
            r@.len() == 7,
            forall|p: SurfaceEncoderPreference| #[trigger] r@.contains(p),
            forall|i: int, j: int|
                0 <= i < j < r@.len() ==> #[trigger] r@[i] != #[trigger] r@[j] && (codec_rank(r@[i]) < codec_rank(r@[j])
                    || (codec_rank(r@[i]) == codec_rank(r@[j]) && (is_hardware(r@[i]) || !is_hardware(r@[j])))),
    {
        let r = vec![
            Self::NvencAV1,
            Self::AV1,
            Self::NvencH265,
            Self::H265Vaapi,
            Self::NvencH264,
            Self::H264Vaapi,
            Self::H264Software,
        ];
        assert(r@ =~= default_preferences());
        assert forall|p: SurfaceEncoderPreference| #[trigger] r@.contains(p) by {
            match p {
                Self::NvencAV1 => assert(r@[0] == p),
                Self::AV1 => assert(r@[1] == p),
                Self::NvencH265 => assert(r@[2] == p),
                Self::H265Vaapi => assert(r@[3] == p),
                Self::NvencH264 => assert(r@[4] == p),
                Self::H264Vaapi => assert(r@[5] == p),
                Self::H264Software => assert(r@[6] == p),
            }
        }
        assert forall|i: int, j: int|
            0 <= i < j < r@.len() implies #[trigger] r@[i] != #[trigger] r@[j] && (codec_rank(r@[i]) < codec_rank(r@[j])
                || (codec_rank(r@[i]) == codec_rank(r@[j]) && (is_hardware(r@[i]) || !is_hardware(r@[j])))) by {
            assert(r@[0] == Self::NvencAV1 && r@[1] == Self::AV1 && r@[2] == Self::NvencH265 && r@[3] == Self::H265Vaapi
                && r@[4] == Self::NvencH264 && r@[5] == Self::H264Vaapi && r@[6] == Self::H264Software);
        }
        r
    }

    /// The codec family of the stream this encoder produces.
    pub fn codec_family(self) -> (r: CodecFamily)
        ensures
            r == family_of(self),
    {
        match self {
            Self::H264Software | Self::H264Vaapi | Self::NvencH264 => CodecFamily::H264,
            Self::H265Vaapi | Self::NvencH265 => CodecFamily::H265,
            Self::AV1 | Self::NvencAV1 => CodecFamily::AV1,
        }
    }

    /// Whether a client's codec bitmask admits this encoder; a mask of zero
    /// admits every encoder.  The three bits are the protocol's bits for
    /// H.264, H.265 and AV1.
    pub fn supported_by_mask(self, codec_support: u8, h264_bit: u8, h265_bit: u8, av1_bit: u8) -> (r: bool)
        ensures
            r == admitted(self, codec_support, h264_bit, h265_bit, av1_bit),
    {
        if codec_support == 0 {
            return true;
        }
        match self.codec_family() {
            CodecFamily::H264 => codec_support & h264_bit != 0,
            CodecFamily::H265 => codec_support & h265_bit != 0,
            CodecFamily::AV1 => codec_support & av1_bit != 0,
        }
    }

    /// The largest surface this encoder accepts, or `None` without a limit.
    pub fn max_dimensions(self) -> (r: Option<(u16, u16)>)
        ensures
            r == max_dims(self),
    {
        match self {
            Self::H264Software | Self::H264Vaapi | Self::NvencH264 => Some(
                (H264_MAX_WIDTH, H264_MAX_HEIGHT),
            ),
            Self::H265Vaapi | Self::NvencH265 | Self::NvencAV1 | Self::AV1 => None,
        }
    }

    /// The tightest limit over a list of preferences.
    pub fn max_dimensions_for_list(prefs: &[Self]) -> (r: Option<(u16, u16)>)
        ensures
            r == max_dims_prefix(prefs@, prefs@.len() as int),
    {
        let mut result: Option<(u16, u16)> = None;
        let mut i: usize = 0;
        while i < prefs.len()
            invariant
                i <= prefs@.len(),
                result == max_dims_prefix(prefs@, i as int),
            decreases prefs.len() - i,
        {
            if let Some((w, h)) = prefs[i].max_dimensions() {
                result = Some(
                    match result {
                        Some((rw, rh)) => (
                            if rw <= w {
                                rw
                            } else {
                                w
                            },
                            if rh <= h {
                                rh
                            } else {
                                h
                            },
                        ),
                        None => (w, h),
                    },
                );
            }
            i += 1;
        }
        result
    }
}

/// `trim` leaves an already trimmed text unchanged.
pub proof fn trim_idempotent(t: Seq<char>)
    ensures
        trim(trim(t)) == trim(t),
{
    lemma_trim_shape(t);
    lemma_trim_shape(trim(t));
}

/// A trimmed text neither starts nor ends with white space, and trimming
/// such a text changes nothing.
pub proof fn lemma_trim_shape(t: Seq<char>)
    ensures
        trim(t).len() > 0 ==> !is_ws(trim(t)[0]) && !is_ws(trim(t).last()),
        (t.len() == 0 || (!is_ws(t[0]) && !is_ws(t.last()))) ==> trim(t) == t,
{
    lemma_trim_start_shape(t);
    lemma_trim_end_shape(trim_start(t));
    if t.len() == 0 || (!is_ws(t[0]) && !is_ws(t.last())) {
        assert(trim_start(t) == t);
    }
}

pub proof fn lemma_trim_start_shape(t: Seq<char>)
    ensures
        trim_start(t).len() > 0 ==> !is_ws(trim_start(t)[0]),
        trim_start(t).len() <= t.len(),
        trim_start(t) == t.subrange(t.len() - trim_start(t).len(), t.len() as int),
    decreases t.len(),
{
    if t.len() > 0 && is_ws(t[0]) {
        lemma_trim_start_shape(t.drop_first());
        assert(t.drop_first().subrange(
            t.drop_first().len() - trim_start(t).len(),
            t.drop_first().len() as int,
        ) =~= t.subrange(t.len() - trim_start(t).len(), t.len() as int));
    } else {
        assert(t.subrange(0, t.len() as int) =~= t);
    }
}

pub proof fn lemma_trim_end_shape(t: Seq<char>)
    ensures
        trim_end(t).len() > 0 ==> !is_ws(trim_end(t).last()),
        trim_end(t).len() <= t.len(),
        trim_end(t) == t.subrange(0, trim_end(t).len() as int),
        trim_end(t).len() > 0 && t.len() > 0 && !is_ws(t[0]) ==> !is_ws(trim_end(t)[0]),
        t.len() > 0 && !is_ws(t[0]) ==> trim_end(t).len() > 0,
    decreases t.len(),
{
    if t.len() > 0 && is_ws(t.last()) {
        lemma_trim_end_shape(t.drop_last());
        assert(t.drop_last().subrange(0, trim_end(t).len() as int) =~= t.subrange(
            0,
            trim_end(t).len() as int,
        ));
    } else {
        assert(t.subrange(0, t.len() as int) =~= t);
    }
}

// ───────────────────────────── quality presets ─────────────────────────────

/// Video quality preset; higher quality costs more CPU.
#[derive(Clone, Copy, Debug, PartialEq, Eq, Structural)]
pub enum SurfaceQuality {
    Low,
    Medium,
    High,
    Lossless,
}

impl SurfaceQuality {
    /// The preset with exactly this name.
    pub fn parse(value: &str) -> (r: Option<Self>)
        ensures
            r == (if value@ == "low"@ {
                Some(SurfaceQuality::Low)
            } else if value@ == "medium"@ {
                Some(SurfaceQuality::Medium)
            } else if value@ == "high"@ {
                Some(SurfaceQuality::High)
            } else if value@ == "lossless"@ {
                Some(SurfaceQuality::Lossless)
            } else {
                None
            }),
    {
        let cs = chars_of(value);
        let n = cs.as_slice();
        if chars_eq_str(n, "low") {
            Some(Self::Low)
        } else if chars_eq_str(n, "medium") {
            Some(Self::Medium)
        } else if chars_eq_str(n, "high") {
            Some(Self::High)
        } else if chars_eq_str(n, "lossless") {
            Some(Self::Lossless)
        } else {
            None
        }
    }

    /// The default preset.
    pub fn default_quality() -> (r: Self)
        ensures
            r == SurfaceQuality::Medium,
    {
        Self::Medium
    }

    /// rav1e speed preset (0 slowest and best, 10 fastest).
    pub fn av1_speed(self) -> (r: u8)
        ensures
            r == (match self {
                SurfaceQuality::Low => 10u8,
                SurfaceQuality::Medium => 10u8,
                SurfaceQuality::High => 8u8,
                SurfaceQuality::Lossless => 6u8,
            }),
    {
        match self {
            Self::Low => 10,
            Self::Medium => 10,
            Self::High => 8,
            Self::Lossless => 6,
        }
    }

    /// rav1e quantizer (0 lossless, 255 worst).
    pub fn av1_quantizer(self) -> (r: usize)
        ensures
            r == (match self {
                SurfaceQuality::Low => 180usize,
                SurfaceQuality::Medium => 120usize,
                SurfaceQuality::High => 80usize,
                SurfaceQuality::Lossless => 40usize,
            }),
    {
        match self {
            Self::Low => 180,
            Self::Medium => 120,
            Self::High => 80,
            Self::Lossless => 40,
        }
    }

    /// rav1e minimum quantizer.
    pub fn av1_min_quantizer(self) -> (r: u8)
        ensures
            r == (match self {
                SurfaceQuality::Low => 120u8,
                SurfaceQuality::Medium => 80u8,
                SurfaceQuality::High => 40u8,
                SurfaceQuality::Lossless => 0u8,
            }),
    {
        match self {
            Self::Low => 120,
            Self::Medium => 80,
            Self::High => 40,
            Self::Lossless => 0,
        }
    }
}

// ───────────────────────────── dimensions ─────────────────────────────

/// Bytes in a `width` x `height` RGBA image, if that fits in `usize`.
pub fn expected_rgba_len(width: u32, height: u32) -> (r: Option<usize>)
    ensures
        r == (if width * height * 4 <= usize::MAX {
            Some((width * height * 4) as usize)
        } else {
            None::<usize>
        }),
{
    let w = width as usize;
    let h = height as usize;
    let wh = match w.checked_mul(h) {
        Some(v) => v,
        None => {
            assert(w * h * 4 >= w * h) by (nonlinear_arith);
            return None;
        },
    };
    wh.checked_mul(4)
}

/// Why a surface cannot be encoded at all.
pub open spec fn dimension_error(width: u32, height: u32) -> Option<Seq<char>> {
    if width == 0 || height == 0 {
        Some("surface encoder requires non-zero dimensions"@)
    } else if width * height * 4 > usize::MAX {
        Some(
            "surface encoder dimensions overflow for "@ + dec(width as nat) + "x"@ + dec(
                height as nat,
            ),
        )
    } else {
        None
    }
}

/// Checks that a surface of these dimensions can be encoded: both sides
/// non-zero and the RGBA buffer size representable.  Odd sides are fine.
pub fn validate_surface_dimensions(
    width: u32,
    height: u32,
    preference: SurfaceEncoderPreference,
) -> (r: Result<(), String>)
    ensures
        match dimension_error(width, height) {
            None => r is Ok,
            Some(e) => r matches Err(m) && m@ == e,
        },
{
    let _ = preference;
    if width == 0 || height == 0 {
        let m = chars_of("surface encoder requires non-zero dimensions");
        return Err(string_of(m.as_slice()));
    }
    match expected_rgba_len(width, height) {
        Some(_) => Ok(()),
        None => {
            let mut m = chars_of("surface encoder dimensions overflow for ");
            let wd = dec_u64(width as u64);
            append_chars(&mut m, wd.as_slice());
            append_str(&mut m, "x");
            let hd = dec_u64(height as u64);
            append_chars(&mut m, hd.as_slice());
            Err(string_of(m.as_slice()))
        },
    }
}

/// Whether an encoder works on even dimensions only (and pads odd ones).
pub open spec fn pads_to_even(p: SurfaceEncoderPreference) -> bool {
    match p {
        SurfaceEncoderPreference::AV1 | SurfaceEncoderPreference::NvencAV1 => false,
        _ => true,
    }
}

/// `x` rounded up to an even number.
pub open spec fn round_even(x: int) -> int {
    if x % 2 == 1 {
        x + 1
    } else {
        x
    }
}

/// The dimensions an encoder operates at for a surface: H.264 and H.265
/// round each side up to an even number, AV1 takes the surface as it is.
pub fn encoder_dimensions(pref: SurfaceEncoderPreference, width: u32, height: u32) -> (r: (u32, u32))
    requires
        pads_to_even(pref) ==> width < u32::MAX && height < u32::MAX,
    ensures
        r == (if pads_to_even(pref) {
            (round_even(width as int) as u32, round_even(height as int) as u32)
        } else {
            (width, height)
        }),
{
    match pref {
        SurfaceEncoderPreference::AV1 | SurfaceEncoderPreference::NvencAV1 => (width, height),
        _ => {
            let w = (width + 1) & !1u32;
            let h = (height + 1) & !1u32;
            assert(((width + 1) as u32 & !1u32) == (if width % 2 == 1 { (width + 1) as u32 } else { width })) by (bit_vector)
                requires width < 0xffff_ffffu32;
            assert(((height + 1) as u32 & !1u32) == (if height % 2 == 1 { (height + 1) as u32 } else { height })) by (bit_vector)
                requires height < 0xffff_ffffu32;
            (w, h)
        },
    }
}

// ─────────────────────────── colour conversion ───────────────────────────

/// `x` clamped into `0..=255`.
pub open spec fn clamp_u8(x: int) -> u8 {
    if x < 0 {
        0
    } else if x > 255 {
        255
    } else {
        x as u8
    }
}

/// BT.601 video-range luma of an RGB colour.
pub open spec fn y_of(r: int, g: int, b: int) -> u8 {
    clamp_u8((66 * r + 129 * g + 25 * b + 128) / 256 + 16)
}

/// BT.601 video-range blue-difference chroma of an RGB colour.
pub open spec fn u_of(r: int, g: int, b: int) -> u8 {
    clamp_u8((-38 * r - 74 * g + 112 * b + 128) / 256 + 128)
}

/// BT.601 video-range red-difference chroma of an RGB colour.
pub open spec fn v_of(r: int, g: int, b: int) -> u8 {
    clamp_u8((112 * r - 94 * g - 18 * b + 128) / 256 + 128)
}

pub open spec fn fits_i32(x: int) -> bool {
    i32::MIN <= x <= i32::MAX
}

/// Every intermediate of `y_of` fits in `i32`.
pub open spec fn y_fits(r: int, g: int, b: int) -> bool {
    fits_i32(66 * r) && fits_i32(129 * g) && fits_i32(66 * r + 129 * g) && fits_i32(25 * b)
        && fits_i32(66 * r + 129 * g + 25 * b) && fits_i32(66 * r + 129 * g + 25 * b + 128)
}

/// Every intermediate of `u_of` fits in `i32`.
pub open spec fn u_fits(r: int, g: int, b: int) -> bool {
    fits_i32(-38 * r) && fits_i32(74 * g) && fits_i32(-38 * r - 74 * g) && fits_i32(112 * b)
        && fits_i32(-38 * r - 74 * g + 112 * b) && fits_i32(-38 * r - 74 * g + 112 * b + 128)
}

/// Every intermediate of `v_of` fits in `i32`.
pub open spec fn v_fits(r: int, g: int, b: int) -> bool {
    fits_i32(112 * r) && fits_i32(94 * g) && fits_i32(112 * r - 94 * g) && fits_i32(18 * b)
        && fits_i32(112 * r - 94 * g - 18 * b) && fits_i32(112 * r - 94 * g - 18 * b + 128)
}

/// Luma of an RGB colour.
pub fn rgb_to_y(r: i32, g: i32, b: i32) -> (res: u8)
    requires
        y_fits(r as int, g as int, b as int),
    ensures
        res == y_of(r as int, g as int, b as int),
{
    let s = (66 * r) + (129 * g) + (25 * b) + 128;
    assert((s >> 8u32) == s / 256) by (bit_vector);
    let t = (s >> 8) + 16;
    if t < 0 {
        0
    } else if t > 255 {
        255
    } else {
        t as u8
    }
}

/// Blue-difference chroma of an RGB colour.
pub fn rgb_to_u(r: i32, g: i32, b: i32) -> (res: u8)
    requires
        u_fits(r as int, g as int, b as int),
    ensures
        res == u_of(r as int, g as int, b as int),
{
    let s = (-38 * r) - (74 * g) + (112 * b) + 128;
    assert((s >> 8u32) == s / 256) by (bit_vector);
    let t = (s >> 8) + 128;
    if t < 0 {
        0
    } else if t > 255 {
        255
    } else {
        t as u8
    }
}

/// Red-difference chroma of an RGB colour.
pub fn rgb_to_v(r: i32, g: i32, b: i32) -> (res: u8)
    requires
        v_fits(r as int, g as int, b as int),
    ensures
        res == v_of(r as int, g as int, b as int),
{
    let s = (112 * r) - (94 * g) - (18 * b) + 128;
    assert((s >> 8u32) == s / 256) by (bit_vector);
    let t = (s >> 8) + 128;
    if t < 0 {
        0
    } else if t > 255 {
        255
    } else {
        t as u8
    }
}

/// Index of the red byte of pixel (`row`, `col`) in an RGBA image `width` wide.
pub open spec fn px(width: int, row: int, col: int) -> int {
    (row * width + col) * 4
}

/// Luma of pixel (`row`, `col`).
pub open spec fn y_at(rgba: Seq<u8>, width: int, row: int, col: int) -> u8 {
    let i = px(width, row, col);
    y_of(rgba[i] as int, rgba[i + 1] as int, rgba[i + 2] as int)
}

pub open spec fn u_at(rgba: Seq<u8>, width: int, row: int, col: int) -> u8 {
    let i = px(width, row, col);
    u_of(rgba[i] as int, rgba[i + 1] as int, rgba[i + 2] as int)
}

pub open spec fn v_at(rgba: Seq<u8>, width: int, row: int, col: int) -> u8 {
    let i = px(width, row, col);
    v_of(rgba[i] as int, rgba[i + 1] as int, rgba[i + 2] as int)
}

/// Mean blue-difference chroma of the 2x2 block whose top-left pixel is (`row`, `col`).
#[verifier::opaque]
pub open spec fn u_block(rgba: Seq<u8>, width: int, row: int, col: int) -> u8 {
    ((u_at(rgba, width, row, col) + u_at(rgba, width, row, col + 1) + u_at(
        rgba,
        width,
        row + 1,
        col,
    ) + u_at(rgba, width, row + 1, col + 1)) / 4) as u8
}

/// Mean red-difference chroma of the 2x2 block whose top-left pixel is (`row`, `col`).
#[verifier::opaque]
pub open spec fn v_block(rgba: Seq<u8>, width: int, row: int, col: int) -> u8 {
    ((v_at(rgba, width, row, col) + v_at(rgba, width, row, col + 1) + v_at(
        rgba,
        width,
        row + 1,
        col,
    ) + v_at(rgba, width, row + 1, col + 1)) / 4) as u8
}

/// The three colour components of a pixel.
pub fn rgba_components(rgba: &[u8], width: usize, row: usize, col: usize) -> (r: (i32, i32, i32))
    requires
        px(width as int, row as int, col as int) + 2 < rgba@.len(),
    ensures
        r.0 == rgba@[px(width as int, row as int, col as int)] as i32,
        r.1 == rgba@[px(width as int, row as int, col as int) + 1] as i32,
        r.2 == rgba@[px(width as int, row as int, col as int) + 2] as i32,
{
    let n = rgba.len();
    proof {
        assert(0 <= row * width) by (nonlinear_arith);
        assert(row * width + col <= usize::MAX);
    }
    let i = (row * width + col) * 4;
    (rgba[i] as i32, rgba[i + 1] as i32, rgba[i + 2] as i32)
}

proof fn lemma_byte_fits(r: int, g: int, b: int)
    requires
        0 <= r <= 255,
        0 <= g <= 255,
        0 <= b <= 255,
    ensures
        y_fits(r, g, b),
        u_fits(r, g, b),
        v_fits(r, g, b),
{
}

// ───────────────────────────── planar YUV 4:2:0 ─────────────────────────────

/// The luma plane of a `w` x `h` RGBA image, row by row.
pub open spec fn y_plane(rgba: Seq<u8>, w: int, h: int) -> Seq<u8> {
    Seq::new((w * h) as nat, |i: int| y_at(rgba, w, i / w, i % w))
}

/// The subsampled blue-difference plane: one value per 2x2 block.
pub open spec fn u_plane(rgba: Seq<u8>, w: int, h: int) -> Seq<u8> {
    Seq::new(((w / 2) * (h / 2)) as nat, |k: int| u_block(rgba, w, 2 * (k / (w / 2)), 2 * (k % (w / 2))))
}

/// The subsampled red-difference plane: one value per 2x2 block.
pub open spec fn v_plane(rgba: Seq<u8>, w: int, h: int) -> Seq<u8> {
    Seq::new(((w / 2) * (h / 2)) as nat, |k: int| v_block(rgba, w, 2 * (k / (w / 2)), 2 * (k % (w / 2))))
}

/// I420 layout: the luma plane, then the U plane, then the V plane.
pub open spec fn yuv420(rgba: Seq<u8>, w: int, h: int) -> Seq<u8> {
    y_plane(rgba, w, h) + u_plane(rgba, w, h) + v_plane(rgba, w, h)
}

/// Every pixel of a `w` x `h` image can be read from a buffer of `len` bytes.
pub open spec fn frame_readable(len: int, w: int, h: int) -> bool {
    w * h == 0 || 4 * (w * h) - 2 < len
}

/// Both sides even, unless the image is empty.
pub open spec fn even_frame(w: int, h: int) -> bool {
    w * h == 0 || (w % 2 == 0 && h % 2 == 0)
}

/// Appending row `q` to the first `q` rows of a row-major table of `n`
/// columns gives its first `q + 1` rows.
proof fn lemma_extend_plane(f: spec_fn(int, int) -> u8, n: int, q: int, s: Seq<u8>, row: Seq<u8>)
    requires
        n > 0,
        q >= 0,
        s == Seq::new((q * n) as nat, |k: int| f(k / n, k % n)),
        row == Seq::new(n as nat, |j: int| f(q, j)),
    ensures
        s + row == Seq::new(((q + 1) * n) as nat, |k: int| f(k / n, k % n)),
{
    assert(q * n + n == (q + 1) * n) by (nonlinear_arith);
    assert(0 <= q * n) by (nonlinear_arith)
        requires
            q >= 0,
            n > 0,
    ;
    assert forall|k: int| 0 <= k < (q + 1) * n implies #[trigger] (s + row)[k] == f(k / n, k % n) by {
        if k >= q * n {
            lemma_div_mod_row(k, n, q);
        }
    }
    assert(s + row =~= Seq::new(((q + 1) * n) as nat, |k: int| f(k / n, k % n)));
}

proof fn lemma_div_mod_row(i: int, w: int, row: int)
    requires
        w > 0,
        row * w <= i < row * w + w,
    ensures
        i / w == row,
        i % w == i - row * w,
{
    vstd::arithmetic::div_mod::lemma_fundamental_div_mod_converse(i, w, row, i - row * w);
}

/// A pixel strictly inside the image lies inside the readable buffer.
proof fn lemma_px_in(len: int, w: int, h: int, row: int, col: int)
    requires
        frame_readable(len, w, h),
        0 <= row < h,
        0 <= col < w,
    ensures
        0 <= px(w, row, col),
        px(w, row, col) + 2 < len,
{
    assert(0 <= row * w) by (nonlinear_arith)
        requires
            0 <= row,
            0 <= w,
    ;
    assert(row * w + col < w * h) by (nonlinear_arith)
        requires
            0 <= row < h,
            0 <= col < w,
    ;
}

/// Appends the luma of each pixel of row `row`.
fn push_y_row(rgba: &[u8], width: usize, height: usize, row: usize, out: &mut Vec<u8>)
    requires
        frame_readable(rgba@.len() as int, width as int, height as int),
        row < height,
    ensures
        final(out)@ == old(out)@ + Seq::new(width as nat, |c: int| y_at(rgba@, width as int, row as int, c)),
{
    let mut col: usize = 0;
    while col < width
        invariant
            frame_readable(rgba@.len() as int, width as int, height as int),
            row < height,
            col <= width,
            out@ == old(out)@ + Seq::new(col as nat, |c: int| y_at(rgba@, width as int, row as int, c)),
        decreases width - col,
    {
        proof {
            lemma_px_in(rgba@.len() as int, width as int, height as int, row as int, col as int);
            lemma_byte_fits(
                rgba@[px(width as int, row as int, col as int)] as int,
                rgba@[px(width as int, row as int, col as int) + 1] as int,
                rgba@[px(width as int, row as int, col as int) + 2] as int,
            );
        }
        let (r, g, b) = rgba_components(rgba, width, row, col);
        let y = rgb_to_y(r, g, b);
        out.push(y);
        assert(out@ =~= old(out)@ + Seq::new((col + 1) as nat, |c: int| y_at(rgba@, width as int, row as int, c)));
        col += 1;
    }
}

/// The mean chroma of the 2x2 block at (`row`, `col`).
fn uv_block(rgba: &[u8], width: usize, height: usize, row: usize, col: usize) -> (r: (u8, u8))
    requires
        frame_readable(rgba@.len() as int, width as int, height as int),
        row + 1 < height,
        col + 1 < width,
    ensures
        r.0 == u_block(rgba@, width as int, row as int, col as int),
        r.1 == v_block(rgba@, width as int, row as int, col as int),
{
    let mut u_sum: u32 = 0;
    let mut v_sum: u32 = 0;
    let ghost us: Seq<int> = seq![];
    let ghost vs: Seq<int> = seq![];
    let mut dy: usize = 0;
    while dy < 2
        invariant
            frame_readable(rgba@.len() as int, width as int, height as int),
            row + 1 < height,
            col + 1 < width,
            dy <= 2,
            dy == 0 ==> u_sum == 0 && v_sum == 0,
            dy == 1 ==> u_sum == u_at(rgba@, width as int, row as int, col as int) + u_at(
                rgba@,
                width as int,
                row as int,
                col + 1,
            ) && v_sum == v_at(rgba@, width as int, row as int, col as int) + v_at(
                rgba@,
                width as int,
                row as int,
                col + 1,
            ),
            dy == 2 ==> u_sum == u_at(rgba@, width as int, row as int, col as int) + u_at(
                rgba@,
                width as int,
                row as int,
                col + 1,
            ) + u_at(rgba@, width as int, row + 1, col as int) + u_at(
                rgba@,
                width as int,
                row + 1,
                col + 1,
            ) && v_sum == v_at(rgba@, width as int, row as int, col as int) + v_at(
                rgba@,
                width as int,
                row as int,
                col + 1,
            ) + v_at(rgba@, width as int, row + 1, col as int) + v_at(
                rgba@,
                width as int,
                row + 1,
                col + 1,
            ),
        decreases 2 - dy,
    {
        let mut dx: usize = 0;
        let u0 = u_sum;
        let v0 = v_sum;
        while dx < 2
            invariant
                frame_readable(rgba@.len() as int, width as int, height as int),
                row + 1 < height,
                col + 1 < width,
                dy < 2,
                dx <= 2,
                u0 <= 510,
                v0 <= 510,
                dx == 0 ==> u_sum == u0 && v_sum == v0,
                dx == 1 ==> u_sum == u0 + u_at(rgba@, width as int, row + dy, col as int) && v_sum
                    == v0 + v_at(rgba@, width as int, row + dy, col as int),
                dx == 2 ==> u_sum == u0 + u_at(rgba@, width as int, row + dy, col as int) + u_at(
                    rgba@,
                    width as int,
                    row + dy,
                    col + 1,
                ) && v_sum == v0 + v_at(rgba@, width as int, row + dy, col as int) + v_at(
                    rgba@,
                    width as int,
                    row + dy,
                    col + 1,
                ),
            decreases 2 - dx,
        {
            proof {
                lemma_px_in(
                    rgba@.len() as int,
                    width as int,
                    height as int,
                    (row + dy) as int,
                    (col + dx) as int,
                );
                let i = px(width as int, (row + dy) as int, (col + dx) as int);
                lemma_byte_fits(rgba@[i] as int, rgba@[i + 1] as int, rgba@[i + 2] as int);
            }
            let (r, g, b) = rgba_components(rgba, width, row + dy, col + dx);
            u_sum = u_sum + rgb_to_u(r, g, b) as u32;
            v_sum = v_sum + rgb_to_v(r, g, b) as u32;
            dx += 1;
        }
        dy += 1;
    }
    proof {
        reveal(u_block);
        reveal(v_block);
    }
    ((u_sum / 4) as u8, (v_sum / 4) as u8)
}

/// Appends the block chroma of each 2x2 block of the row pair starting at `row`.
fn push_uv_row(
    rgba: &[u8],
    width: usize,
    height: usize,
    row: usize,
    us: &mut Vec<u8>,
    vs: &mut Vec<u8>,
)
    requires
        frame_readable(rgba@.len() as int, width as int, height as int),
        row + 1 < height,
        width % 2 == 0,
    ensures
        final(us)@ == old(us)@ + Seq::new((width / 2) as nat, |j: int| u_block(rgba@, width as int, row as int, 2 * j)),
        final(vs)@ == old(vs)@ + Seq::new((width / 2) as nat, |j: int| v_block(rgba@, width as int, row as int, 2 * j)),
{
    let mut col: usize = 0;
    while col < width
        invariant
            frame_readable(rgba@.len() as int, width as int, height as int),
            row + 1 < height,
            width % 2 == 0,
            col % 2 == 0,
            col <= width,
            us@ == old(us)@ + Seq::new((col / 2) as nat, |j: int| u_block(rgba@, width as int, row as int, 2 * j)),
            vs@ == old(vs)@ + Seq::new((col / 2) as nat, |j: int| v_block(rgba@, width as int, row as int, 2 * j)),
        decreases width - col,
    {
        let (u, v) = uv_block(rgba, width, height, row, col);
        us.push(u);
        vs.push(v);
        assert(us@ =~= old(us)@ + Seq::new(((col + 2) / 2) as nat, |j: int| u_block(rgba@, width as int, row as int, 2 * j)));
        assert(vs@ =~= old(vs)@ + Seq::new(((col + 2) / 2) as nat, |j: int| v_block(rgba@, width as int, row as int, 2 * j)));
        col += 2;
    }
}

/// Converts an RGBA image to planar I420: the luma of every pixel, then
/// the mean blue-difference and red-difference chroma of every 2x2 block.
pub fn rgba_to_yuv420(rgba: &[u8], width: usize, height: usize) -> (r: Vec<u8>)
    requires
        frame_readable(rgba@.len() as int, width as int, height as int),
        even_frame(width as int, height as int),
    ensures
        r@ == yuv420(rgba@, width as int, height as int),
{
    let ghost w = width as int;
    let ghost h = height as int;
    let mut ys: Vec<u8> = Vec::new();
    let mut row: usize = 0;
    if width > 0 {
        while row < height
            invariant
                frame_readable(rgba@.len() as int, w, h),
                width == w,
                height == h,
                w > 0,
                row <= height,
                ys@ == Seq::new((row * w) as nat, |i: int| y_at(rgba@, w, i / w, i % w)),
            decreases height - row,
        {
            let ghost before = ys@;
            push_y_row(rgba, width, height, row, &mut ys);
            assert(row * w + w == (row + 1) * w) by (nonlinear_arith);
            assert forall|i: int| 0 <= i < (row + 1) * w implies #[trigger] ys@[i] == y_at(
                rgba@,
                w,
                i / w,
                i % w,
            ) by {
                if i >= row * w {
                    lemma_div_mod_row(i, w, row as int);
                }
            }
            assert(ys@ =~= Seq::new(((row + 1) * w) as nat, |i: int| y_at(rgba@, w, i / w, i % w)));
            row += 1;
        }
    }
    assert(ys@ =~= y_plane(rgba@, w, h)) by {
        assert(h * w == w * h) by (nonlinear_arith);
        if width == 0 {
            assert(w * h == 0);
        }
    }
    let mut us: Vec<u8> = Vec::new();
    let mut vs: Vec<u8> = Vec::new();
    let ghost uw = w / 2;
    if width >= 2 && height >= 2 {
        assert(w * h > 0) by (nonlinear_arith)
            requires
                w >= 2,
                h >= 2,
        ;
        row = 0;
        while row < height
            invariant
                frame_readable(rgba@.len() as int, w, h),
                width == w,
                height == h,
                w % 2 == 0,
                h % 2 == 0,
                uw == w / 2,
                uw > 0,
                row % 2 == 0,
                row <= height,
                us@ == Seq::new(((row / 2) * uw) as nat, |k: int| u_block(rgba@, w, 2 * (k / uw), 2 * (k % uw))),
                vs@ == Seq::new(((row / 2) * uw) as nat, |k: int| v_block(rgba@, w, 2 * (k / uw), 2 * (k % uw))),
            decreases height - row,
        {
            let ghost q = row as int / 2;
            let ghost u0 = us@;
            let ghost v0 = vs@;
            push_uv_row(rgba, width, height, row, &mut us, &mut vs);
            assert((row + 2) / 2 == q + 1);
            proof {
                let fu = |a: int, b: int| u_block(rgba@, w, 2 * a, 2 * b);
                let fv = |a: int, b: int| v_block(rgba@, w, 2 * a, 2 * b);
                assert(u0 =~= Seq::new((q * uw) as nat, |k: int| fu(k / uw, k % uw)));
                assert(v0 =~= Seq::new((q * uw) as nat, |k: int| fv(k / uw, k % uw)));
                let ur = Seq::new(uw as nat, |j: int| u_block(rgba@, w, row as int, 2 * j));
                let vr = Seq::new(uw as nat, |j: int| v_block(rgba@, w, row as int, 2 * j));
                assert(ur =~= Seq::new(uw as nat, |j: int| fu(q, j)));
                assert(vr =~= Seq::new(uw as nat, |j: int| fv(q, j)));
                lemma_extend_plane(fu, uw, q, u0, ur);
                lemma_extend_plane(fv, uw, q, v0, vr);
                assert(us@ =~= Seq::new(((q + 1) * uw) as nat, |k: int| u_block(rgba@, w, 2 * (k / uw), 2 * (k % uw))));
                assert(vs@ =~= Seq::new(((q + 1) * uw) as nat, |k: int| v_block(rgba@, w, 2 * (k / uw), 2 * (k % uw))));
            }
            row += 2;
        }
        assert((row / 2) * uw == uw * (h / 2)) by (nonlinear_arith)
            requires
                row == h,
        ;
        assert(us@ =~= u_plane(rgba@, w, h));
        assert(vs@ =~= v_plane(rgba@, w, h));
    } else {
        assert(uw * (h / 2) == 0) by (nonlinear_arith)
            requires
                w < 2 || h < 2,
                uw == w / 2,
                w >= 0,
                h >= 0,
        ;
        assert(us@ =~= u_plane(rgba@, w, h));
        assert(vs@ =~= v_plane(rgba@, w, h));
    }
    let mut out = ys;
    let mut i: usize = 0;
    let ghost y0 = out@;
    while i < us.len()
        invariant
            i <= us@.len(),
            out@ == y0 + us@.take(i as int),
        decreases us.len() - i,
    {
        out.push(us[i]);
        assert(us@.take(i as int).push(us@[i as int]) =~= us@.take(i + 1));
        i += 1;
    }
    assert(us@.take(us@.len() as int) =~= us@);
    let ghost y1 = out@;
    i = 0;
    while i < vs.len()
        invariant
            i <= vs@.len(),
            out@ == y1 + vs@.take(i as int),
        decreases vs.len() - i,
    {
        out.push(vs[i]);
        assert(vs@.take(i as int).push(vs@[i as int]) =~= vs@.take(i + 1));
        i += 1;
    }
    assert(vs@.take(vs@.len() as int) =~= vs@);
    out
}

// ───────────────────────────── NV12 ─────────────────────────────

/// `plane` after row `r` of the luma of `rgba` is written at `r * stride`.
pub open spec fn write_y_row(plane: Seq<u8>, rgba: Seq<u8>, w: int, stride: int, r: int) -> Seq<u8> {
    Seq::new(
        plane.len(),
        |i: int|
            if r * stride <= i < r * stride + w {
                y_at(rgba, w, r, i - r * stride)
            } else {
                plane[i]
            },
    )
}

/// `plane` after rows `0..n` of the luma are written, in order.
pub open spec fn y_rows(plane: Seq<u8>, rgba: Seq<u8>, w: int, stride: int, n: int) -> Seq<u8>
    decreases n,
{
    if n <= 0 {
        plane
    } else {
        write_y_row(y_rows(plane, rgba, w, stride, n - 1), rgba, w, stride, n - 1)
    }
}

/// The first row in `r..h` whose span `[row * stride, row * stride + w)`
/// passes the end of a plane of `len` bytes (or `h` if none does).
pub open spec fn first_short_row(len: int, w: int, stride: int, r: int, h: int) -> int
    decreases h - r,
{
    if r >= h {
        h
    } else if r * stride + w > len {
        r
    } else {
        first_short_row(len, w, stride, r + 1, h)
    }
}

/// Writes the luma of an RGBA image into an NV12 luma plane whose rows are
/// `y_stride` bytes apart.  Fails (`None`) when the plane is shorter than
/// `y_stride * height`, or stops with `None` at the first row that would
/// run past its end.
pub fn write_nv12_y_plane(
    rgba: &[u8],
    width: usize,
    height: usize,
    y_plane: &mut Vec<u8>,
    y_stride: usize,
) -> (r: Option<()>)
    requires
        frame_readable(rgba@.len() as int, width as int, height as int),
        old(y_plane)@.len() + width <= usize::MAX,
    ensures
        final(y_plane)@.len() == old(y_plane)@.len(),
        ({
            let len = old(y_plane)@.len() as int;
            if y_stride * height > len {
                r is None && final(y_plane)@ == old(y_plane)@
            } else {
                let done = first_short_row(len, width as int, y_stride as int, 0, height as int);
                &&& (r is Some <==> done == height)
                &&& final(y_plane)@ == y_rows(old(y_plane)@, rgba@, width as int, y_stride as int, done)
            }
        }),
{
    let ghost len = y_plane@.len() as int;
    let need = match y_stride.checked_mul(height) {
        Some(n) => n,
        None => return None,
    };
    if y_plane.len() < need {
        return None;
    }
    let mut row: usize = 0;
    while row < height
        invariant
            frame_readable(rgba@.len() as int, width as int, height as int),
            len == old(y_plane)@.len(),
            y_plane@.len() == len,
            len + width <= usize::MAX,
            y_stride * height <= len,
            row <= height,
            first_short_row(len, width as int, y_stride as int, 0, height as int)
                == first_short_row(len, width as int, y_stride as int, row as int, height as int),
            y_plane@ == y_rows(old(y_plane)@, rgba@, width as int, y_stride as int, row as int),
        decreases height - row,
    {
        assert(row * y_stride <= y_stride * height) by (nonlinear_arith)
            requires
                row <= height,
        ;
        let row_start = row * y_stride;
        let row_end = row_start + width;
        if row_end > y_plane.len() {
            return None;
        }
        let ghost start = y_plane@;
        let mut col: usize = 0;
        while col < width
            invariant
                frame_readable(rgba@.len() as int, width as int, height as int),
                row < height,
                row_start == row * y_stride,
                row_start + width <= len,
                len + width <= usize::MAX,
                y_plane@.len() == len,
                col <= width,
                y_plane@ == Seq::new(
                    len as nat,
                    |i: int|
                        if row_start <= i < row_start + col {
                            y_at(rgba@, width as int, row as int, i - row_start)
                        } else {
                            start[i]
                        },
                ),
            decreases width - col,
        {
            proof {
                lemma_px_in(rgba@.len() as int, width as int, height as int, row as int, col as int);
                let i = px(width as int, row as int, col as int);
                lemma_byte_fits(rgba@[i] as int, rgba@[i + 1] as int, rgba@[i + 2] as int);
            }
            let (r, g, b) = rgba_components(rgba, width, row, col);
            let y = rgb_to_y(r, g, b);
            y_plane.set(row_start + col, y);
            assert(y_plane@ =~= Seq::new(
                len as nat,
                |i: int|
                    if row_start <= i < row_start + col + 1 {
                        y_at(rgba@, width as int, row as int, i - row_start)
                    } else {
                        start[i]
                    },
            ));
            col += 1;
        }
        assert(y_plane@ =~= write_y_row(start, rgba@, width as int, y_stride as int, row as int));
        row += 1;
    }
    Some(())
}

/// `plane` after the chroma of the row pair starting at row `2 * j` is
/// written at `j * stride`: U and V interleaved, one pair per 2x2 block.
pub open spec fn write_uv_row(plane: Seq<u8>, rgba: Seq<u8>, w: int, stride: int, j: int) -> Seq<u8> {
    Seq::new(
        plane.len(),
        |i: int|
            if j * stride <= i < j * stride + w {
                let c = i - j * stride;
                if c % 2 == 0 {
                    u_block(rgba, w, 2 * j, c)
                } else {
                    v_block(rgba, w, 2 * j, c - 1)
                }
            } else {
                plane[i]
            },
    )
}

/// `plane` with the first `col` bytes of the chroma row pair `j` written at `rs`.
#[verifier::opaque]
pub open spec fn uv_partial(plane: Seq<u8>, rgba: Seq<u8>, w: int, j: int, rs: int, col: int) -> Seq<u8> {
    Seq::new(
        plane.len(),
        |i: int|
            if rs <= i < rs + col {
                let c = i - rs;
                if c % 2 == 0 {
                    u_block(rgba, w, 2 * j, c)
                } else {
                    v_block(rgba, w, 2 * j, c - 1)
                }
            } else {
                plane[i]
            },
    )
}

proof fn lemma_uv_step(prev: Seq<u8>, next: Seq<u8>, start: Seq<u8>, rgba: Seq<u8>, w: int, j: int, rs: int, col: int)
    requires
        col % 2 == 0,
        0 <= rs,
        0 <= col,
        rs + col + 1 < start.len(),
        prev == uv_partial(start, rgba, w, j, rs, col),
        next == prev.update(rs + col, u_block(rgba, w, 2 * j, col)).update(
            rs + col + 1,
            v_block(rgba, w, 2 * j, col),
        ),
    ensures
        next == uv_partial(start, rgba, w, j, rs, col + 2),
{
    reveal(uv_partial);
    assert forall|i: int| 0 <= i < next.len() implies #[trigger] next[i] == uv_partial(
        start,
        rgba,
        w,
        j,
        rs,
        col + 2,
    )[i] by {
        if i == rs + col + 1 {
            assert((i - rs) % 2 == 1);
        } else if i == rs + col {
            assert((i - rs) % 2 == 0);
        }
    }
    assert(next =~= uv_partial(start, rgba, w, j, rs, col + 2));
}

/// `plane` after the row pairs `0..n` are written, in order.
pub open spec fn uv_rows(plane: Seq<u8>, rgba: Seq<u8>, w: int, stride: int, n: int) -> Seq<u8>
    decreases n,
{
    if n <= 0 {
        plane
    } else {
        write_uv_row(uv_rows(plane, rgba, w, stride, n - 1), rgba, w, stride, n - 1)
    }
}

/// Writes the chroma of the row pair starting at `row` at `row_start`.
#[verifier::rlimit(40)]
fn write_uv_pair_row(
    rgba: &[u8],
    width: usize,
    rows: usize,
    row: usize,
    uv_plane: &mut Vec<u8>,
    row_start: usize,
)
    requires
        frame_readable(rgba@.len() as int, width as int, rows as int),
        row + 1 < rows,
        row % 2 == 0,
        width % 2 == 0,
        row_start + width <= old(uv_plane)@.len(),
    ensures
        final(uv_plane)@ == uv_partial(old(uv_plane)@, rgba@, width as int, (row / 2) as int, row_start as int, width as int),
{
    let plen = uv_plane.len();
    let ghost start = uv_plane@;
    let ghost j = row / 2;
    let mut col: usize = 0;
    assert(uv_plane@ =~= uv_partial(start, rgba@, width as int, j as int, row_start as int, 0)) by {
        reveal(uv_partial);
    }
    while col < width
        invariant
            frame_readable(rgba@.len() as int, width as int, rows as int),
            row + 1 < rows,
            width % 2 == 0,
            col % 2 == 0,
            col <= width,
            j == row / 2,
            row % 2 == 0,
            row_start + width <= start.len(),
            start.len() == plen,
            uv_plane@.len() == start.len(),
            uv_plane@ == uv_partial(start, rgba@, width as int, j as int, row_start as int, col as int),
        decreases width - col,
    {
        assert(col + 1 < width);
        let (u, v) = uv_block(rgba, width, rows, row, col);
        let ghost prev = uv_plane@;
        assert(prev.len() == start.len());
        uv_plane.set(row_start + col, u);
        uv_plane.set(row_start + col + 1, v);
        proof {
            assert(2 * j == row);
            lemma_uv_step(prev, uv_plane@, start, rgba@, width as int, j as int, row_start as int, col as int);
        }
        col += 2;
    }
}

/// Writes the interleaved chroma of an RGBA image into an NV12 chroma
/// plane whose rows are `uv_stride` bytes apart.  Fails (`None`) when the
/// plane is shorter than `uv_stride * (height / 2)`, or stops with `None`
/// at the first row pair that would run past its end.
pub fn write_nv12_uv_plane(
    rgba: &[u8],
    width: usize,
    height: usize,
    uv_plane: &mut Vec<u8>,
    uv_stride: usize,
) -> (r: Option<()>)
    requires
        frame_readable(rgba@.len() as int, width as int, round_even(height as int)),
        height > 0 ==> width % 2 == 0,
        old(uv_plane)@.len() + width <= usize::MAX,
    ensures
        final(uv_plane)@.len() == old(uv_plane)@.len(),
        ({
            let len = old(uv_plane)@.len() as int;
            let pairs = round_even(height as int) / 2;
            if uv_stride * (height / 2) > len {
                r is None && final(uv_plane)@ == old(uv_plane)@
            } else {
                let done = first_short_row(len, width as int, uv_stride as int, 0, pairs);
                &&& (r is Some <==> done == pairs)
                &&& final(uv_plane)@ == uv_rows(old(uv_plane)@, rgba@, width as int, uv_stride as int, done)
            }
        }),
{
    let rlen = rgba.len();
    let ghost len = uv_plane@.len() as int;
    let ghost h2 = round_even(height as int);
    let need = match uv_stride.checked_mul(height / 2) {
        Some(n) => n,
        None => return None,
    };
    if uv_plane.len() < need {
        return None;
    }
    let pairs: usize = height / 2 + height % 2;
    assert(pairs == h2 / 2);
    let mut j: usize = 0;
    while j < pairs
        invariant
            frame_readable(rlen as int, width as int, h2),
            rlen == rgba@.len(),
            h2 == round_even(height as int),
            pairs == h2 / 2,
            height > 0 ==> width % 2 == 0,
            len == old(uv_plane)@.len(),
            uv_plane@.len() == len,
            len + width <= usize::MAX,
            uv_stride * (height / 2) <= len,
            j <= pairs,
            first_short_row(len, width as int, uv_stride as int, 0, pairs as int)
                == first_short_row(len, width as int, uv_stride as int, j as int, pairs as int),
            uv_plane@ == uv_rows(old(uv_plane)@, rgba@, width as int, uv_stride as int, j as int),
        decreases pairs - j,
    {
        assert(j * uv_stride <= len) by (nonlinear_arith)
            requires
                j < pairs,
                pairs == height / 2 + height % 2,
                uv_stride * (height / 2) <= len,
                len + width <= usize::MAX,
                0 <= uv_stride,
        ;
        let row_start = j * uv_stride;
        let row_end = row_start + width;
        if row_end > uv_plane.len() {
            return None;
        }
        let row = 2 * j;
        if width > 0 {
            assert(h2 <= 4 * (width * h2)) by (nonlinear_arith)
                requires
                    width >= 1,
                    h2 >= 0,
            ;
            assert(4 * h2 <= 4 * (width * h2)) by (nonlinear_arith)
                requires
                    width >= 1,
                    h2 >= 0,
            ;
            assert(row + 2 <= h2);
            let rows2 = row + 2;
            assert(width * rows2 <= width * h2) by (nonlinear_arith)
                requires
                    rows2 <= h2,
                    width >= 0,
            ;
            let ghost start = uv_plane@;
            write_uv_pair_row(rgba, width, rows2, row, uv_plane, row_start);
            assert(row / 2 == j);
            assert(uv_plane@ =~= write_uv_row(start, rgba@, width as int, uv_stride as int, j as int)) by {
                reveal(uv_partial);
            }
        } else {
            assert(uv_plane@ =~= write_uv_row(uv_plane@, rgba@, width as int, uv_stride as int, j as int));
        }
        j += 1;
    }
    Some(())
}

/// Converts an RGBA image to NV12: the luma plane, then (only if that
/// succeeded) the interleaved chroma plane.
pub fn rgba_to_nv12(
    rgba: &[u8],
    width: usize,
    height: usize,
    y_plane: &mut Vec<u8>,
    y_stride: usize,
    uv_plane: &mut Vec<u8>,
    uv_stride: usize,
) -> (r: Option<()>)
    requires
        frame_readable(rgba@.len() as int, width as int, round_even(height as int)),
        height > 0 ==> width % 2 == 0,
        old(y_plane)@.len() + width <= usize::MAX,
        old(uv_plane)@.len() + width <= usize::MAX,
    ensures
        ({
            let ylen = old(y_plane)@.len() as int;
            let y_ok = y_stride * height <= ylen && first_short_row(
                ylen,
                width as int,
                y_stride as int,
                0,
                height as int,
            ) == height;
            let y_done = if y_stride * height > ylen {
                0
            } else {
                first_short_row(ylen, width as int, y_stride as int, 0, height as int)
            };
            let uvlen = old(uv_plane)@.len() as int;
            let pairs = round_even(height as int) / 2;
            let uv_ok = uv_stride * (height / 2) <= uvlen && first_short_row(
                uvlen,
                width as int,
                uv_stride as int,
                0,
                pairs,
            ) == pairs;
            let uv_done = if uv_stride * (height / 2) > uvlen {
                0
            } else {
                first_short_row(uvlen, width as int, uv_stride as int, 0, pairs)
            };
            &&& final(y_plane)@ == y_rows(old(y_plane)@, rgba@, width as int, y_stride as int, y_done)
            &&& (y_ok ==> final(uv_plane)@ == uv_rows(
                old(uv_plane)@,
                rgba@,
                width as int,
                uv_stride as int,
                uv_done,
            ))
            &&& (!y_ok ==> final(uv_plane)@ == old(uv_plane)@)
            &&& (r is Some <==> y_ok && uv_ok)
        }),
{
    proof {
        if height % 2 == 1 {
            assert(width * height <= width * (height + 1)) by (nonlinear_arith)
                requires
                    width >= 0,
            ;
        }
    }
    let yr = write_nv12_y_plane(rgba, width, height, y_plane, y_stride);
    if yr.is_none() {
        return None;
    }
    write_nv12_uv_plane(rgba, width, height, uv_plane, uv_stride)
}

// ───────────────────────────── H.264 stream scan ─────────────────────────────

/// Whether `d[i..]` begins with `pat`.
pub open spec fn starts_at(d: Seq<u8>, i: int, pat: Seq<u8>) -> bool {
    0 <= i && i + pat.len() <= d.len() && d.subrange(i, i + pat.len()) == pat
}

/// Length of the Annex B start code at `i` (4 for `00 00 00 01`, 3 for
/// `00 00 01`, 0 for none).
pub open spec fn start_code_at(d: Seq<u8>, i: int) -> int {
    if starts_at(d, i, seq![0u8, 0u8, 0u8, 1u8]) {
        4
    } else if starts_at(d, i, seq![0u8, 0u8, 1u8]) {
        3
    } else {
        0
    }
}

/// The scan from index `i`: at each start code, the NAL header byte after
/// it decides (type 5 is an IDR slice), and the scan resumes after that
/// header byte; elsewhere it moves on by one byte.
pub open spec fn idr_from(d: Seq<u8>, i: int) -> bool
    decreases d.len() + 1 - i,
{
    if i < 0 || i >= d.len() {
        false
    } else {
        let sc = start_code_at(d, i);
        if sc == 0 {
            idr_from(d, i + 1)
        } else {
            let h = i + sc;
            if h < d.len() && d[h] & 0x1f == 5 {
                true
            } else {
                idr_from(d, h + 1)
            }
        }
    }
}

/// Whether an Annex B H.264 byte stream holds an IDR slice.
pub fn h264_stream_contains_idr(data: &[u8]) -> (r: bool)
    ensures
        r == idr_from(data@, 0),
{
    let n = data.len();
    let mut i: usize = 0;
    while i < n
        invariant
            n == data@.len(),
            i <= n + 1,
            idr_from(data@, 0) == idr_from(data@, i as int),
        decreases n + 1 - i,
    {
        let four = n - i > 3 && data[i] == 0 && data[i + 1] == 0 && data[i + 2] == 0 && data[i
            + 3] == 1;
        let three = n - i > 2 && data[i] == 0 && data[i + 1] == 0 && data[i + 2] == 1;
        proof {
            if i + 3 < n {
                assert(four == (data@.subrange(i as int, i + 4) =~= seq![0u8, 0u8, 0u8, 1u8]));
            } else {
                assert(!starts_at(data@, i as int, seq![0u8, 0u8, 0u8, 1u8]));
            }
            if i + 2 < n {
                assert(three == (data@.subrange(i as int, i + 3) =~= seq![0u8, 0u8, 1u8]));
            } else {
                assert(!starts_at(data@, i as int, seq![0u8, 0u8, 1u8]));
            }
        }
        let start_code_len: usize = if four {
            4
        } else if three {
            3
        } else {
            0
        };
        assert(start_code_len == start_code_at(data@, i as int));
        if start_code_len == 0 {
            i += 1;
        } else {
            let nal_header = i + start_code_len;
            if nal_header < n && (data[nal_header] & 0x1f) == 5 {
                return true;
            }
            let ghost next = nal_header + 1;
            i = nal_header.saturating_add(1);
            assert(idr_from(data@, next) == idr_from(data@, i as int));
        }
    }
    false
}

// ───────────────────────────── frame padding ─────────────────────────────

/// The width of the source image inside a buffer of `total` pixels for an
/// encoder `w` wide: the encoder width itself, or one less (an odd surface
/// rounded up), whichever divides the pixel count first.
pub open spec fn source_width(total: int, w: int) -> Option<int> {
    if w > 0 && total % w == 0 {
        Some(w)
    } else if w - 1 > 0 && total % (w - 1) == 0 {
        Some(w - 1)
    } else {
        None
    }
}

/// A `dw` x `dh` RGBA image made from the `sw` x `sh` image in `rgba`,
/// the last column and row repeated to fill the extra space.
pub open spec fn padded(rgba: Seq<u8>, sw: int, sh: int, dw: int, dh: int) -> Seq<u8> {
    Seq::new(
        (dw * dh * 4) as nat,
        |i: int|
            {
                let p = i / 4;
                let row = p / dw;
                let col = p % dw;
                let sr = if row < sh - 1 {
                    row
                } else {
                    sh - 1
                };
                let sc = if col < sw - 1 {
                    col
                } else {
                    sw - 1
                };
                rgba[(sr * sw + sc) * 4 + i % 4]
            },
    )
}

/// The frame an encoder `w` x `h` is given for `rgba`: the buffer itself
/// when it has the encoder's size, else the source image padded by edge
/// duplication; `None` when the size overflows or the source dimensions
/// cannot be recovered.
pub open spec fn prepared_frame(rgba: Seq<u8>, w: int, h: int) -> Option<Seq<u8>> {
    if w * h * 4 > usize::MAX {
        None
    } else if rgba.len() == w * h * 4 {
        Some(rgba)
    } else {
        let total = rgba.len() as int / 4;
        if total == 0 {
            None
        } else {
            match source_width(total, w) {
                None => None,
                Some(sw) => {
                    let sh = total / sw;
                    if sh == 0 {
                        None
                    } else {
                        Some(padded(rgba, sw, sh, w, h))
                    }
                },
            }
        }
    }
}

proof fn lemma_clamped_in(sr: int, sc: int, sw: int, sh: int, total: int)
    requires
        0 <= sr < sh,
        0 <= sc < sw,
        sw * sh <= total,
    ensures
        0 <= sr * sw + sc < total,
{
    assert(sr * sw + sc < sw * sh) by (nonlinear_arith)
        requires
            0 <= sr < sh,
            0 <= sc < sw,
    ;
    assert(0 <= sr * sw) by (nonlinear_arith)
        requires
            0 <= sr,
            0 <= sw,
    ;
}

/// The frame handed to the encoder: the input itself when it already has
/// the encoder's dimensions, otherwise the source image (whose width is
/// the encoder's or one less) with its last column and row repeated.
pub fn prepare_frame(rgba: &[u8], width: u32, height: u32) -> (r: Option<Vec<u8>>)
    requires
        width > 0,
    ensures
        match prepared_frame(rgba@, width as int, height as int) {
            None => r is None,
            Some(f) => r matches Some(v) && v@ == f,
        },
{
    let enc_len = match expected_rgba_len(width, height) {
        Some(v) => v,
        None => return None,
    };
    let len = rgba.len();
    if len == enc_len {
        let mut v: Vec<u8> = Vec::new();
        let mut i: usize = 0;
        while i < len
            invariant
                len == rgba@.len(),
                i <= len,
                v@ == rgba@.take(i as int),
            decreases len - i,
        {
            v.push(rgba[i]);
            assert(rgba@.take(i as int).push(rgba@[i as int]) =~= rgba@.take(i + 1));
            i += 1;
        }
        assert(rgba@.take(len as int) =~= rgba@);
        return Some(v);
    }
    let total_px = len / 4;
    if total_px == 0 {
        return None;
    }
    let w = width as usize;
    let src_w: usize = if total_px % w == 0 {
        w
    } else if w - 1 > 0 && total_px % (w - 1) == 0 {
        w - 1
    } else {
        return None;
    };
    let src_h = total_px / src_w;
    if src_h == 0 {
        return None;
    }
    let dst_w = width as usize;
    let dst_h = height as usize;
    let ghost sw = src_w as int;
    let ghost sh = src_h as int;
    let ghost dw = dst_w as int;
    let ghost dh = dst_h as int;
    proof {
        vstd::arithmetic::div_mod::lemma_fundamental_div_mod(total_px as int, src_w as int);
        assert(sw * sh <= total_px) by (nonlinear_arith)
            requires
                sh == total_px as int / sw,
                sw > 0,
                total_px as int == sw * (total_px as int / sw) + total_px as int % sw,
                total_px as int % sw == 0,
        ;
        assert(dw * dh * 4 == enc_len);
    }
    let mut out: Vec<u8> = Vec::new();
    let mut row: usize = 0;
    while row < dst_h
        invariant
            len == rgba@.len(),
            total_px == len / 4,
            sw == src_w,
            sh == src_h,
            dw == dst_w,
            dh == dst_h,
            sw > 0,
            sh > 0,
            dw > 0,
            sw * sh <= total_px,
            dw * dh * 4 == enc_len,
            row <= dst_h,
            out@ == padded(rgba@, sw, sh, dw, dh).take(row * dw * 4),
        decreases dst_h - row,
    {
        let src_row = if row < src_h - 1 {
            row
        } else {
            src_h - 1
        };
        let mut col: usize = 0;
        while col < dst_w
            invariant
                len == rgba@.len(),
                total_px == len / 4,
                sw == src_w,
                sh == src_h,
                dw == dst_w,
                dh == dst_h,
                sw > 0,
                sh > 0,
                dw > 0,
                sw * sh <= total_px,
                dw * dh * 4 == enc_len,
                row < dst_h,
                src_row == (if row < sh - 1 {
                    row as int
                } else {
                    sh - 1
                }),
                col <= dst_w,
                out@ == padded(rgba@, sw, sh, dw, dh).take((row * dw + col) * 4),
            decreases dst_w - col,
        {
            let src_col = if col < src_w - 1 {
                col
            } else {
                src_w - 1
            };
            proof {
                lemma_clamped_in(src_row as int, src_col as int, sw, sh, total_px as int);
            }
            let si = (src_row * src_w + src_col) * 4;
            let ghost p = row * dw + col;
            proof {
                assert(p < dw * dh) by (nonlinear_arith)
                    requires
                        p == row * dw + col,
                        row < dh,
                        col < dw,
                ;
                lemma_div_mod_row(p, dw, row as int);
            }
            let mut k: usize = 0;
            while k < 4
                invariant
                    len == rgba@.len(),
                    total_px == len / 4,
                    si + 4 <= len,
                    si == (src_row * src_w + src_col) * 4,
                    p == row * dw + col,
                    p < dw * dh,
                    p / dw == row,
                    p % dw == col,
                    dw == dst_w,
                    dh == dst_h,
                    sw == src_w,
                    sh == src_h,
                    src_row == (if row < sh - 1 {
                        row as int
                    } else {
                        sh - 1
                    }),
                    src_col == (if col < sw - 1 {
                        col as int
                    } else {
                        sw - 1
                    }),
                    k <= 4,
                    out@ == padded(rgba@, sw, sh, dw, dh).take(p * 4 + k),
                decreases 4 - k,
            {
                let ghost i = p * 4 + k;
                assert(i / 4 == p && i % 4 == k) by {
                    lemma_div_mod_row(i, 4, p);
                }
                assert(i < dw * dh * 4);
                out.push(rgba[si + k]);
                assert(out@ =~= padded(rgba@, sw, sh, dw, dh).take(p * 4 + k + 1));
                k += 1;
            }
            col += 1;
        }
        assert((row * dw + dw) * 4 == (row + 1) * dw * 4) by (nonlinear_arith);
        row += 1;
    }
    assert(padded(rgba@, sw, sh, dw, dh).take(dh * dw * 4) =~= padded(rgba@, sw, sh, dw, dh)) by {
        assert(dh * dw * 4 == dw * dh * 4) by (nonlinear_arith);
    }
    Some(out)
}

} // verus!
