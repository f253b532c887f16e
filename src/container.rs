//! Frame records: the tagged fields of a frame, then its residual payload.
use vstd::prelude::*;
use crate::bits::{packed_len, valid_width};
use crate::codec::{decode_image_data, decoded_value, decodes_in_range, payload_residuals};
use crate::fields::{CptvError, FieldType, field_of, le_u32_at, read_le_u32, signed32, to_signed32};
use crate::frame::{FrameData, seq_max, seq_min};
use crate::header::{Parsed, Step, next_field, read_field};

verus! {

/// What a frame's fields hold; the temperatures as IEEE-754 bit patterns.
pub ghost struct FrameMeta {
    pub time_on: u32,
    pub bit_width: u8,
    pub frame_size: u32,
    pub last_ffc_time: Option<u32>,
    pub last_ffc_temp_c: Option<u32>,
    pub frame_temp_c: Option<u32>,
    pub is_background_frame: bool,
}

/// A decoded frame: its fields and its pixels. The temperatures hold
/// IEEE-754 bit patterns.
#[derive(Clone)]
pub struct CptvFrame {
    pub time_on: u32,
    pub bit_width: u8,
    pub frame_size: u32,
    pub last_ffc_time: Option<u32>,
    pub last_ffc_temp_c: Option<u32>,
    pub frame_temp_c: Option<u32>,
    pub is_background_frame: bool,
    pub image_data: FrameData,
    /// The codes of the fields read that a frame does not use, in the order
    /// they came; they are skipped, and kept here to be reported.
    pub skipped_fields: Vec<u8>,
}

impl CptvFrame {
    /// The frame's fields.
    pub open spec fn meta(&self) -> FrameMeta {
        FrameMeta {
            time_on: self.time_on,
            bit_width: self.bit_width,
            frame_size: self.frame_size,
            last_ffc_time: self.last_ffc_time,
            last_ffc_temp_c: self.last_ffc_temp_c,
            frame_temp_c: self.frame_temp_c,
            is_background_frame: self.is_background_frame,
        }
    }

    /// An empty frame of no pixels.
    pub fn new() -> (r: CptvFrame)
        ensures
            r.meta() == default_meta(),
            r.image_data.wf(),
            r.image_data@.pixels.len() == 0,
            r.skipped_fields@ == Seq::<u8>::empty(),
    {
        CptvFrame::new_with_dimensions(0, 0)
    }

    /// A frame of `width` × `height` zero pixels and no fields read.
    pub fn new_with_dimensions(width: usize, height: usize) -> (r: CptvFrame)
        requires
            width * height <= usize::MAX,
        ensures
            r.meta() == default_meta(),
            r.image_data.wf(),
            r.image_data@.width == width,
            r.image_data@.height == height,
            r.image_data@.pixels == Seq::new((width * height) as nat, |i: int| 0u16),
            r.skipped_fields@ == Seq::<u8>::empty(),
    {
        CptvFrame {
            time_on: 0,
            bit_width: 0,
            frame_size: 0,
            last_ffc_time: None,
            last_ffc_temp_c: None,
            frame_temp_c: None,
            is_background_frame: false,
            image_data: FrameData::with_dimensions(width, height),
            skipped_fields: Vec::new(),
        }
    }

    /// Applies the frame field with `code` whose value is `v`.
    pub fn apply_field(&mut self, code: u8, v: &[u8]) -> (r: Result<(), CptvError>)
        ensures
            final(self).image_data == old(self).image_data,
            final(self).skipped_fields == old(self).skipped_fields,
            match apply_frame_field(old(self).meta(), code, v@) {
                Ok(m) => r is Ok && final(self).meta() == m,
                Err(x) => r == Err::<(), CptvError>(x),
            },
    {
        let f = FieldType::from(code);
        let short = Err(CptvError::MalformedField(code));
        let n = v.len();
        match f {
            FieldType::TimeOn => {
                if n < 4 { return short; }
                self.time_on = read_le_u32(v, 0);
            },
            FieldType::BitsPerPixel => {
                if n < 1 { return short; }
                self.bit_width = v[0];
            },
            FieldType::FrameSize => {
                if n < 4 { return short; }
                self.frame_size = read_le_u32(v, 0);
            },
            FieldType::LastFfcTime => {
                if n < 4 { return short; }
                self.last_ffc_time = Some(read_le_u32(v, 0));
            },
            FieldType::FrameTempC => {
                if n < 4 { return short; }
                self.frame_temp_c = Some(read_le_u32(v, 0));
            },
            FieldType::LastFfcTempC => {
                if n < 4 { return short; }
                self.last_ffc_temp_c = Some(read_le_u32(v, 0));
            },
            FieldType::BackgroundFrame => {
                if n < 1 { return short; }
                self.is_background_frame = v[0] == 1;
            },
            _ => {},
        }
        Ok(())
    }
}

/// A frame's fields before any is read.
pub open spec fn default_meta() -> FrameMeta {
    FrameMeta {
        time_on: 0,
        bit_width: 0,
        frame_size: 0,
        last_ffc_time: None,
        last_ffc_temp_c: None,
        frame_temp_c: None,
        is_background_frame: false,
    }
}

/// A frame's fields after one with `code` and value `v`; a code frames do
/// not use leaves them as they are.
pub open spec fn apply_frame_field(m: FrameMeta, code: u8, v: Seq<u8>) -> Result<FrameMeta, CptvError> {
    let f = field_of(code);
    let short = Err(CptvError::MalformedField(code));
    if f == FieldType::TimeOn {
        if v.len() >= 4 { Ok(FrameMeta { time_on: le_u32_at(v, 0), ..m }) } else { short }
    } else if f == FieldType::BitsPerPixel {
        if v.len() >= 1 { Ok(FrameMeta { bit_width: v[0], ..m }) } else { short }
    } else if f == FieldType::FrameSize {
        if v.len() >= 4 { Ok(FrameMeta { frame_size: le_u32_at(v, 0), ..m }) } else { short }
    } else if f == FieldType::LastFfcTime {
        if v.len() >= 4 { Ok(FrameMeta { last_ffc_time: Some(le_u32_at(v, 0)), ..m }) } else { short }
    } else if f == FieldType::FrameTempC {
        if v.len() >= 4 { Ok(FrameMeta { frame_temp_c: Some(le_u32_at(v, 0)), ..m }) } else { short }
    } else if f == FieldType::LastFfcTempC {
        if v.len() >= 4 { Ok(FrameMeta { last_ffc_temp_c: Some(le_u32_at(v, 0)), ..m }) } else { short }
    } else if f == FieldType::BackgroundFrame {
        if v.len() >= 1 { Ok(FrameMeta { is_background_frame: v[0] == 1, ..m }) } else { short }
    } else {
        Ok(m)
    }
}

/// Whether a frame takes a value from a field with `code`.
pub open spec fn frame_reads(code: u8) -> bool {
    let f = field_of(code);
    f == FieldType::TimeOn
        || f == FieldType::BitsPerPixel
        || f == FieldType::FrameSize
        || f == FieldType::LastFfcTime
        || f == FieldType::FrameTempC
        || f == FieldType::LastFfcTempC
        || f == FieldType::BackgroundFrame
}

/// Whether a frame takes a value from a field with `code`.
pub fn frame_uses(code: u8) -> (r: bool)
    ensures
        r == frame_reads(code),
{
    match FieldType::from(code) {
        FieldType::TimeOn
            | FieldType::BitsPerPixel
            | FieldType::FrameSize
            | FieldType::LastFfcTime
            | FieldType::FrameTempC
            | FieldType::LastFfcTempC
            | FieldType::BackgroundFrame => true,
        _ => false,
    }
}

/// The codes a frame skips among the first `k` fields from offset `start`.
pub open spec fn frame_skipped(s: Seq<u8>, start: int, k: nat) -> Seq<u8>
    decreases k,
{
    if k == 0 {
        Seq::empty()
    } else {
        let before = frame_skipped(s, start, (k - 1) as nat);
        match frame_fields(s, start, (k - 1) as nat) {
            Step::Done(_, p) => if p + 2 <= s.len() && !frame_reads(s[p + 1]) {
                before.push(s[p + 1])
            } else {
                before
            },
            _ => before,
        }
    }
}

/// A frame's fields after the first `k` fields from offset `start`.
pub open spec fn frame_fields(s: Seq<u8>, start: int, k: nat) -> Step<FrameMeta>
    decreases k,
{
    if k == 0 {
        Step::Done(default_meta(), start)
    } else {
        match frame_fields(s, start, (k - 1) as nat) {
            Step::Done(m, p) => match next_field(s, p) {
                Step::Done((code, v), e) => match apply_frame_field(m, code, s.subrange(v, e)) {
                    Ok(m2) => Step::Done(m2, e),
                    Err(x) => Step::Fail(x),
                },
                Step::Need(e) => Step::Need(e),
                Step::Fail(x) => Step::Fail(x),
            },
            other => other,
        }
    }
}

/// Once the frame fields stop at a missing byte or an error, reading more
/// fields stops there too.
pub proof fn lemma_frame_fields_stuck(s: Seq<u8>, start: int, k: nat, m: nat)
    requires
        k <= m,
        !(frame_fields(s, start, k) is Done),
    ensures
        frame_fields(s, start, m) == frame_fields(s, start, k),
    decreases m - k,
{
    if k < m {
        lemma_frame_fields_stuck(s, start, k, (m - 1) as nat);
    }
}

/// The payload size a frame of `n` pixels packed at `w` bits calls for.
pub open spec fn expected_frame_size(n: nat, w: u8) -> int {
    4 + packed_len((n - 1) as nat, w) as int
}

/// The pixels that the payload at `p` rebuilds on `prev`.
pub open spec fn payload_pixels(
    s: Seq<u8>,
    p: int,
    m: FrameMeta,
    w: nat,
    h: nat,
    prev: Option<Seq<u16>>,
) -> Seq<u16> {
    let rs = payload_residuals(
        signed32(le_u32_at(s, p)),
        s.subrange(p + 4, p + m.frame_size),
        m.bit_width,
        w * h,
    );
    Seq::new(w * h, |q: int| decoded_value(prev, rs, w as int, q) as u16)
}

/// The frame whose payload starts at `p`, once its fields `m` are read.
pub open spec fn frame_payload_spec(
    s: Seq<u8>,
    p: int,
    m: FrameMeta,
    w: nat,
    h: nat,
    prev: Option<Seq<u16>>,
) -> Step<(FrameMeta, Seq<u16>)> {
    if !valid_width(m.bit_width) {
        Step::Fail(CptvError::InvalidBitWidth(m.bit_width))
    } else if w * h == 0 || m.frame_size != expected_frame_size(w * h, m.bit_width) {
        Step::Fail(CptvError::FrameSizeMismatch)
    } else if p + m.frame_size > s.len() {
        Step::Need(p + m.frame_size)
    } else if !decodes_in_range(
        prev,
        payload_residuals(
            signed32(le_u32_at(s, p)),
            s.subrange(p + 4, p + m.frame_size),
            m.bit_width,
            w * h,
        ),
        w as int,
        (w * h) as int,
    ) {
        Step::Fail(CptvError::PixelRangeViolation)
    } else {
        Step::Done((m, payload_pixels(s, p, m, w, h, prev)), p + m.frame_size)
    }
}

/// The frame record at offset `start` of a clip of `w` × `h` pixels, rebuilt
/// on the previous frame's pixels `prev`.
pub open spec fn frame_spec(s: Seq<u8>, start: int, w: nat, h: nat, prev: Option<Seq<u16>>) -> Step<
    (FrameMeta, Seq<u16>),
> {
    if start + 1 > s.len() {
        Step::Need(start + 1)
    } else if s[start] != 70 {  // 'F'
        Step::Fail(CptvError::UnexpectedTag(s[start]))
    } else if start + 2 > s.len() {
        Step::Need(start + 2)
    } else {
        match frame_fields(s, start + 2, s[start + 1] as nat) {
            Step::Done(m, p) => frame_payload_spec(s, p, m, w, h, prev),
            Step::Need(e) => Step::Need(e),
            Step::Fail(x) => Step::Fail(x),
        }
    }
}

/// Whether an exec frame parse outcome is the step `st` on `s`.
pub open spec fn frame_outcome(r: Parsed<CptvFrame>, st: Step<(FrameMeta, Seq<u16>)>, s: Seq<u8>) -> bool {
    match st {
        Step::Done((m, px), e) => r matches Parsed::Done(f, q) && f.meta() == m
            && f.image_data.wf() && f.image_data@.pixels == px && f.image_data@.min == seq_min(px)
            && f.image_data@.max == seq_max(px) && q == e && q <= s.len(),
        Step::Need(e) => e > s.len() && (r matches Parsed::Need(k) && k == e - s.len()),
        Step::Fail(x) => r == Parsed::<CptvFrame>::Failed(x),
    }
}

/// The pixels of an optional previous frame.
pub open spec fn prev_pixels(prev: Option<&CptvFrame>) -> Option<Seq<u16>> {
    match prev {
        Some(f) => Some(f.image_data@.pixels),
        None => None,
    }
}

/// Parses the frame record at offset `start` of `s` for a clip of
/// `width` × `height` pixels and rebuilds its pixels on `prev_frame`.
#[verifier::spinoff_prover]
pub fn decode_frame(
    s: &[u8],
    start: usize,
    width: u32,
    height: u32,
    prev_frame: Option<&CptvFrame>,
) -> (r: Parsed<CptvFrame>)
    requires
        start <= s@.len(),
        prev_frame matches Some(f) ==> f.image_data@.pixels.len() == width * height,
    ensures
        r matches Parsed::Done(_, q) ==> start < q,
        r matches Parsed::Done(f, _) ==> f.skipped_fields@ == frame_skipped(
            s@,
            start + 2,
            s@[start + 1] as nat,
        ),
        frame_outcome(
            r,
            frame_spec(s@, start as int, width as nat, height as nat, prev_pixels(prev_frame)),
            s@,
        ),
{
    let n = s.len();
    if start == n {
        return Parsed::Need(1);
    }
    if s[start] != 70 {
        return Parsed::Failed(CptvError::UnexpectedTag(s[start]));
    }
    if n - start < 2 {
        return Parsed::Need(1);
    }
    let count = s[start + 1];
    let mut frame = CptvFrame::new();
    let mut p: usize = start + 2;
    let mut k: u8 = 0;
    while k < count
        invariant
            n == s@.len(),
            start + 2 <= p <= n,
            s@[start as int] == 70,
            count == s@[start + 1],
            k <= count,
            frame_fields(s@, start + 2, k as nat) == Step::Done(frame.meta(), p as int),
            frame.skipped_fields@ == frame_skipped(s@, start + 2, k as nat),
        decreases count - k,
    {
        proof {
            reveal_with_fuel(frame_fields, 2);
        }
        match read_field(s, p) {
            Parsed::Done((l, code, v), e) => {
                let value = &s[v..e];
                match frame.apply_field(code, value) {
                    Ok(()) => {},
                    Err(x) => {
                        proof {
                            lemma_frame_fields_stuck(s@, start + 2, (k + 1) as nat, count as nat);
                        }
                        return Parsed::Failed(x);
                    },
                }
                if !frame_uses(code) {
                    frame.skipped_fields.push(code);
                }
                p = e;
            },
            Parsed::Need(m) => {
                proof {
                    lemma_frame_fields_stuck(s@, start + 2, (k + 1) as nat, count as nat);
                }
                return Parsed::Need(m);
            },
            Parsed::Failed(x) => {
                return Parsed::Failed(x);
            },
        }
        k = k + 1;
    }
    let bw = frame.bit_width;
    if bw != 8 && bw != 16 {
        return Parsed::Failed(CptvError::InvalidBitWidth(bw));
    }
    proof {
        assert(width as int * height as int <= 0xFFFF_FFFF * 0xFFFF_FFFF) by (nonlinear_arith)
            requires
                width <= 0xFFFF_FFFF,
                height <= 0xFFFF_FFFF,
        ;
    }
    let pixels: u64 = width as u64 * height as u64;
    if pixels == 0 {
        return Parsed::Failed(CptvError::FrameSizeMismatch);
    }
    if pixels > 0xFFFF_FFFF {
        return Parsed::Failed(CptvError::FrameSizeMismatch);
    }
    let packed: u64 = if bw == 8 { pixels - 1 } else { 2 * (pixels - 1) };
    if frame.frame_size as u64 != 4 + packed {
        return Parsed::Failed(CptvError::FrameSizeMismatch);
    }
    let size = frame.frame_size as usize;
    if n - p < size {
        return Parsed::Need(size - (n - p));
    }
    let first = to_signed32(read_le_u32(s, p));
    let tail = &s[p + 4..p + size];
    let w = width as usize;
    let h = height as usize;
    proof {
        assert(w * h == pixels);
    }
    let prev_image = match prev_frame {
        Some(f) => Some(&f.image_data),
        None => None,
    };
    match decode_image_data(tail, first, w, h, bw, prev_image) {
        Some(image) => {
            frame.image_data = image;
            proof {
                let px = payload_pixels(s@, p as int, frame.meta(), width as nat, height as nat,
                    prev_pixels(prev_frame));
                assert(frame.image_data@.pixels =~= px);
            }
            Parsed::Done(frame, p + size)
        },
        None => Parsed::Failed(CptvError::PixelRangeViolation),
    }
}

} // verus!
