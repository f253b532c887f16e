//! The clip header and the streaming parse of a byte stream's magic,
//! version and header fields.
use vstd::prelude::*;
use crate::fields::{
    CptvError, FieldType, field_of, le_u32_at, le_u64_at, read_le_u32, read_le_u64,
    text_from_bytes, text_of,
};

verus! {

/// The outcome of one parse attempt on the bytes received so far.
#[derive(Debug)]
pub enum Parsed<T> {
    /// A value, and the offset just past it.
    Done(T, usize),
    /// The bytes end too early; holds how many more are needed at least.
    Need(usize),
    /// The bytes cannot start a valid clip.
    Failed(CptvError),
}

/// What a parse of a sequence of bytes yields.
pub ghost enum Step<T> {
    Done(T, int),
    Need(int),
    Fail(CptvError),
}

/// The next field's code and value span at `p`: length byte, code byte, value.
pub open spec fn next_field(s: Seq<u8>, p: int) -> Step<(u8, int)> {
    if p + 2 > s.len() {
        Step::Need(p + 2)
    } else if p + 2 + s[p] > s.len() {
        Step::Need(p + 2 + s[p])
    } else {
        Step::Done((s[p + 1], p + 2), p + 2 + s[p])
    }
}

/// The length, code and value offset of the field at `p`.
pub fn read_field(s: &[u8], p: usize) -> (r: Parsed<(u8, u8, usize)>)
    requires
        p <= s@.len(),
    ensures
        match next_field(s@, p as int) {
            Step::Done((code, v), e) => r matches Parsed::Done((l, c, vs), q) && c == code
                && vs == v && q == e && l == s@[p as int] && e == v + l,
            Step::Need(e) => r == Parsed::<(u8, u8, usize)>::Need((e - s@.len()) as usize),
            Step::Fail(_) => false,
        },
{
    let n = s.len();
    if n - p < 2 {
        return Parsed::Need(2 - (n - p));
    }
    let l = s[p];
    if n - p - 2 < l as usize {
        return Parsed::Need(l as usize - (n - p - 2));
    }
    Parsed::Done((l, s[p + 1], p + 2), p + 2 + l as usize)
}

/// What a version 2 header holds; text as characters, the floating-point
/// fields as their IEEE-754 bit patterns.
pub ghost struct HeaderView {
    pub timestamp: u64,
    pub width: u32,
    pub height: u32,
    pub compression: u8,
    pub device_name: Seq<char>,
    pub fps: u8,
    pub brand: Option<Seq<char>>,
    pub model: Option<Seq<char>>,
    pub device_id: Option<u32>,
    pub serial_number: Option<u32>,
    pub firmware_version: Option<Seq<char>>,
    pub motion_config: Option<Seq<char>>,
    pub preview_secs: Option<u8>,
    pub latitude: Option<u32>,
    pub longitude: Option<u32>,
    pub loc_timestamp: Option<u64>,
    pub altitude: Option<u32>,
    pub accuracy: Option<u32>,
    pub has_background_frame: bool,
}

/// The header of a version 2 clip. The floating-point fields (`latitude`,
/// `longitude`, `altitude`, `accuracy`) hold their IEEE-754 bit patterns.
#[derive(Clone, Debug)]
pub struct Cptv2Header {
    pub timestamp: u64,
    pub width: u32,
    pub height: u32,
    pub compression: u8,
    pub device_name: String,
    pub fps: u8,
    pub brand: Option<String>,
    pub model: Option<String>,
    pub device_id: Option<u32>,
    pub serial_number: Option<u32>,
    pub firmware_version: Option<String>,
    pub motion_config: Option<String>,
    pub preview_secs: Option<u8>,
    pub latitude: Option<u32>,
    pub longitude: Option<u32>,
    pub loc_timestamp: Option<u64>,
    pub altitude: Option<u32>,
    pub accuracy: Option<u32>,
    pub has_background_frame: bool,
    /// The codes of the fields read that a header does not use, in the
    /// order they came; they are skipped, and kept here to be reported.
    pub skipped_fields: Vec<u8>,
}

/// The characters of an optional text.
pub open spec fn opt_text(o: Option<String>) -> Option<Seq<char>> {
    match o {
        Some(t) => Some(t@),
        None => None,
    }
}

impl View for Cptv2Header {
    type V = HeaderView;

    open spec fn view(&self) -> HeaderView {
        HeaderView {
            timestamp: self.timestamp,
            width: self.width,
            height: self.height,
            compression: self.compression,
            device_name: self.device_name@,
            fps: self.fps,
            brand: opt_text(self.brand),
            model: opt_text(self.model),
            device_id: self.device_id,
            serial_number: self.serial_number,
            firmware_version: opt_text(self.firmware_version),
            motion_config: opt_text(self.motion_config),
            preview_secs: self.preview_secs,
            latitude: self.latitude,
            longitude: self.longitude,
            loc_timestamp: self.loc_timestamp,
            altitude: self.altitude,
            accuracy: self.accuracy,
            has_background_frame: self.has_background_frame,
        }
    }
}

/// The header before any field is read: 9 frames a second, all else empty.
pub open spec fn default_header() -> HeaderView {
    HeaderView {
        timestamp: 0,
        width: 0,
        height: 0,
        compression: 0,
        device_name: Seq::empty(),
        fps: 9,
        brand: None,
        model: None,
        device_id: None,
        serial_number: None,
        firmware_version: None,
        motion_config: None,
        preview_secs: None,
        latitude: None,
        longitude: None,
        loc_timestamp: None,
        altitude: None,
        accuracy: None,
        has_background_frame: false,
    }
}

/// The header after a field with `code` and value `v`; a code the header
/// does not use leaves it as it is.
pub open spec fn apply_header_field(h: HeaderView, code: u8, v: Seq<u8>) -> Result<HeaderView, CptvError> {
    let f = field_of(code);
    let short = Err(CptvError::MalformedField(code));
    if f == FieldType::Timestamp {
        if v.len() >= 8 { Ok(HeaderView { timestamp: le_u64_at(v, 0), ..h }) } else { short }
    } else if f == FieldType::Width {
        if v.len() >= 4 { Ok(HeaderView { width: le_u32_at(v, 0), ..h }) } else { short }
    } else if f == FieldType::Height {
        if v.len() >= 4 { Ok(HeaderView { height: le_u32_at(v, 0), ..h }) } else { short }
    } else if f == FieldType::Compression {
        if v.len() >= 1 { Ok(HeaderView { compression: v[0], ..h }) } else { short }
    } else if f == FieldType::DeviceName {
        Ok(HeaderView { device_name: text_of(v), ..h })
    } else if f == FieldType::FrameRate {
        if v.len() >= 1 { Ok(HeaderView { fps: v[0], ..h }) } else { short }
    } else if f == FieldType::CameraSerial {
        if v.len() >= 4 { Ok(HeaderView { serial_number: Some(le_u32_at(v, 0)), ..h }) } else { short }
    } else if f == FieldType::FirmwareVersion {
        Ok(HeaderView { firmware_version: Some(text_of(v)), ..h })
    } else if f == FieldType::Model {
        Ok(HeaderView { model: Some(text_of(v)), ..h })
    } else if f == FieldType::Brand {
        Ok(HeaderView { brand: Some(text_of(v)), ..h })
    } else if f == FieldType::DeviceID {
        if v.len() >= 4 { Ok(HeaderView { device_id: Some(le_u32_at(v, 0)), ..h }) } else { short }
    } else if f == FieldType::MotionConfig {
        Ok(HeaderView { motion_config: Some(text_of(v)), ..h })
    } else if f == FieldType::PreviewSecs {
        if v.len() >= 1 { Ok(HeaderView { preview_secs: Some(v[0]), ..h }) } else { short }
    } else if f == FieldType::Latitude {
        if v.len() >= 4 { Ok(HeaderView { latitude: Some(le_u32_at(v, 0)), ..h }) } else { short }
    } else if f == FieldType::Longitude {
        if v.len() >= 4 { Ok(HeaderView { longitude: Some(le_u32_at(v, 0)), ..h }) } else { short }
    } else if f == FieldType::LocTimestamp {
        if v.len() >= 8 { Ok(HeaderView { loc_timestamp: Some(le_u64_at(v, 0)), ..h }) } else { short }
    } else if f == FieldType::Altitude {
        if v.len() >= 4 { Ok(HeaderView { altitude: Some(le_u32_at(v, 0)), ..h }) } else { short }
    } else if f == FieldType::Accuracy {
        if v.len() >= 4 { Ok(HeaderView { accuracy: Some(le_u32_at(v, 0)), ..h }) } else { short }
    } else if f == FieldType::BackgroundFrame {
        if v.len() >= 1 { Ok(HeaderView { has_background_frame: v[0] == 1, ..h }) } else { short }
    } else {
        Ok(h)
    }
}

/// Whether a header takes a value from a field with `code`.
pub open spec fn header_reads(code: u8) -> bool {
    let f = field_of(code);
    f == FieldType::Timestamp
        || f == FieldType::Width
        || f == FieldType::Height
        || f == FieldType::Compression
        || f == FieldType::DeviceName
        || f == FieldType::FrameRate
        || f == FieldType::CameraSerial
        || f == FieldType::FirmwareVersion
        || f == FieldType::Model
        || f == FieldType::Brand
        || f == FieldType::DeviceID
        || f == FieldType::MotionConfig
        || f == FieldType::PreviewSecs
        || f == FieldType::Latitude
        || f == FieldType::Longitude
        || f == FieldType::LocTimestamp
        || f == FieldType::Altitude
        || f == FieldType::Accuracy
        || f == FieldType::BackgroundFrame
}

/// Whether a header takes a value from a field with `code`.
pub fn header_uses(code: u8) -> (r: bool)
    ensures
        r == header_reads(code),
{
    match FieldType::from(code) {
        FieldType::Timestamp
            | FieldType::Width
            | FieldType::Height
            | FieldType::Compression
            | FieldType::DeviceName
            | FieldType::FrameRate
            | FieldType::CameraSerial
            | FieldType::FirmwareVersion
            | FieldType::Model
            | FieldType::Brand
            | FieldType::DeviceID
            | FieldType::MotionConfig
            | FieldType::PreviewSecs
            | FieldType::Latitude
            | FieldType::Longitude
            | FieldType::LocTimestamp
            | FieldType::Altitude
            | FieldType::Accuracy
            | FieldType::BackgroundFrame => true,
        _ => false,
    }
}

/// The codes a header skips among the first `k` fields from offset `start`.
pub open spec fn header_skipped(s: Seq<u8>, start: int, k: nat) -> Seq<u8>
    decreases k,
{
    if k == 0 {
        Seq::empty()
    } else {
        let before = header_skipped(s, start, (k - 1) as nat);
        match header_fields(s, start, (k - 1) as nat) {
            Step::Done(_, p) => if p + 2 <= s.len() && !header_reads(s[p + 1]) {
                before.push(s[p + 1])
            } else {
                before
            },
            _ => before,
        }
    }
}

/// The header after the first `k` fields from offset `start`.
pub open spec fn header_fields(s: Seq<u8>, start: int, k: nat) -> Step<HeaderView>
    decreases k,
{
    if k == 0 {
        Step::Done(default_header(), start)
    } else {
        match header_fields(s, start, (k - 1) as nat) {
            Step::Done(h, p) => match next_field(s, p) {
                Step::Done((code, v), e) => match apply_header_field(h, code, s.subrange(v, e)) {
                    Ok(h2) => Step::Done(h2, e),
                    Err(x) => Step::Fail(x),
                },
                Step::Need(e) => Step::Need(e),
                Step::Fail(x) => Step::Fail(x),
            },
            other => other,
        }
    }
}

/// The magic, version and header at the start of a clip's bytes.
pub open spec fn clip_header_spec(s: Seq<u8>) -> Step<HeaderView> {
    if s.len() < 4 {
        Step::Need(4)
    } else if !(s[0] == 67 && s[1] == 80 && s[2] == 84 && s[3] == 86) {  // "CPTV"
        Step::Fail(CptvError::BadMagic)
    } else if s.len() < 5 {
        Step::Need(5)
    } else if s[4] != 2 {
        Step::Fail(CptvError::UnknownVersion(s[4]))
    } else {
        header_v2_spec(s, 5)
    }
}

/// The version 2 header section at `start`: its tag `H`, its field count
/// and its fields.
pub open spec fn header_v2_spec(s: Seq<u8>, start: int) -> Step<HeaderView> {
    if s.len() < start + 1 {
        Step::Need(start + 1)
    } else if s[start] != 72 {  // 'H'
        Step::Fail(CptvError::UnexpectedTag(s[start]))
    } else if s.len() < start + 2 {
        Step::Need(start + 2)
    } else {
        header_fields(s, start + 2, s[start + 1] as nat)
    }
}

/// Whether an exec parse outcome is the header step `st` on `s`.
pub open spec fn header_outcome(r: Parsed<Cptv2Header>, st: Step<HeaderView>, s: Seq<u8>) -> bool {
    match st {
        Step::Done(h, e) => r matches Parsed::Done(x, q) && x@ == h && q == e && q <= s.len(),
        Step::Need(e) => e > s.len() && (r matches Parsed::Need(k) && k == e - s.len()),
        Step::Fail(x) => r == Parsed::<Cptv2Header>::Failed(x),
    }
}

impl Cptv2Header {
    /// The header before any field is read.
    pub fn new() -> (r: Cptv2Header)
        ensures
            r@ == default_header(),
            r.skipped_fields@ == Seq::<u8>::empty(),
    {
        Cptv2Header {
            timestamp: 0,
            width: 0,
            height: 0,
            compression: 0,
            device_name: String::new(),
            fps: 9,
            brand: None,
            model: None,
            device_id: None,
            serial_number: None,
            firmware_version: None,
            motion_config: None,
            preview_secs: None,
            latitude: None,
            longitude: None,
            loc_timestamp: None,
            altitude: None,
            accuracy: None,
            has_background_frame: false,
            skipped_fields: Vec::new(),
        }
    }

    /// Applies the field with `code` whose value is `v`.
    pub fn apply_field(&mut self, code: u8, v: &[u8]) -> (r: Result<(), CptvError>)
        ensures
            final(self).skipped_fields == old(self).skipped_fields,
            match apply_header_field(old(self)@, code, v@) {
                Ok(h) => r is Ok && final(self)@ == h,
                Err(x) => r == Err::<(), CptvError>(x),
            },
    {
        let f = FieldType::from(code);
        let short = Err(CptvError::MalformedField(code));
        let n = v.len();
        match f {
            FieldType::Timestamp => {
                if n < 8 { return short; }
                self.timestamp = read_le_u64(v, 0);
            },
            FieldType::Width => {
                if n < 4 { return short; }
                self.width = read_le_u32(v, 0);
            },
            FieldType::Height => {
                if n < 4 { return short; }
                self.height = read_le_u32(v, 0);
            },
            FieldType::Compression => {
                if n < 1 { return short; }
                self.compression = v[0];
            },
            FieldType::DeviceName => {
                self.device_name = text_from_bytes(v);
            },
            FieldType::FrameRate => {
                if n < 1 { return short; }
                self.fps = v[0];
            },
            FieldType::CameraSerial => {
                if n < 4 { return short; }
                self.serial_number = Some(read_le_u32(v, 0));
            },
            FieldType::FirmwareVersion => {
                self.firmware_version = Some(text_from_bytes(v));
            },
            FieldType::Model => {
                self.model = Some(text_from_bytes(v));
            },
            FieldType::Brand => {
                self.brand = Some(text_from_bytes(v));
            },
            FieldType::DeviceID => {
                if n < 4 { return short; }
                self.device_id = Some(read_le_u32(v, 0));
            },
            FieldType::MotionConfig => {
                self.motion_config = Some(text_from_bytes(v));
            },
            FieldType::PreviewSecs => {
                if n < 1 { return short; }
                self.preview_secs = Some(v[0]);
            },
            FieldType::Latitude => {
                if n < 4 { return short; }
                self.latitude = Some(read_le_u32(v, 0));
            },
            FieldType::Longitude => {
                if n < 4 { return short; }
                self.longitude = Some(read_le_u32(v, 0));
            },
            FieldType::LocTimestamp => {
                if n < 8 { return short; }
                self.loc_timestamp = Some(read_le_u64(v, 0));
            },
            FieldType::Altitude => {
                if n < 4 { return short; }
                self.altitude = Some(read_le_u32(v, 0));
            },
            FieldType::Accuracy => {
                if n < 4 { return short; }
                self.accuracy = Some(read_le_u32(v, 0));
            },
            FieldType::BackgroundFrame => {
                if n < 1 { return short; }
                self.has_background_frame = v[0] == 1;
            },
            _ => {},
        }
        Ok(())
    }
}

/// Parses the magic, the version and the header at the start of `s`.
pub fn decode_cptv_header(s: &[u8]) -> (r: Parsed<Cptv2Header>)
    ensures
        header_outcome(r, clip_header_spec(s@), s@),
        r matches Parsed::Done(_, q) ==> 7 <= q,
        r matches Parsed::Done(x, _) ==> x.skipped_fields@ == header_skipped(s@, 7, s@[6] as nat),
{
    let n = s.len();
    if n < 4 {
        return Parsed::Need(4 - n);
    }
    if !(s[0] == 67 && s[1] == 80 && s[2] == 84 && s[3] == 86) {
        return Parsed::Failed(CptvError::BadMagic);
    }
    if n < 5 {
        return Parsed::Need(5 - n);
    }
    if s[4] != 2 {
        return Parsed::Failed(CptvError::UnknownVersion(s[4]));
    }
    decode_cptv2_header(s, 5)
}

/// Parses the version 2 header section at offset `start` of `s`.
#[verifier::spinoff_prover]
pub fn decode_cptv2_header(s: &[u8], start: usize) -> (r: Parsed<Cptv2Header>)
    requires
        start <= s@.len(),
    ensures
        header_outcome(r, header_v2_spec(s@, start as int), s@),
        r matches Parsed::Done(_, q) ==> start + 2 <= q,
        r matches Parsed::Done(x, _) ==> x.skipped_fields@ == header_skipped(
            s@,
            start + 2,
            s@[start + 1] as nat,
        ),
{
    let n = s.len();
    if n - start < 1 {
        return Parsed::Need(1);
    }
    if s[start] != 72 {
        return Parsed::Failed(CptvError::UnexpectedTag(s[start]));
    }
    if n - start < 2 {
        return Parsed::Need(1);
    }
    let count = s[start + 1];
    let mut h = Cptv2Header::new();
    let mut p: usize = start + 2;
    let mut k: u8 = 0;
    while k < count
        invariant
            n == s@.len(),
            k <= count,
            start + 2 <= p <= n,
            header_fields(s@, start + 2, k as nat) == Step::Done(h@, p as int),
            h.skipped_fields@ == header_skipped(s@, start + 2, k as nat),
            count == s@[start + 1],
            header_v2_spec(s@, start as int) == header_fields(s@, start + 2, count as nat),
        decreases count - k,
    {
        proof {
            reveal_with_fuel(header_fields, 2);
        }
        match read_field(s, p) {
            Parsed::Done((l, code, v), e) => {
                let value = &s[v..e];
                match h.apply_field(code, value) {
                    Ok(()) => {},
                    Err(x) => {
                        proof {
                            lemma_header_fields_stuck(s@, start + 2, (k + 1) as nat, count as nat);
                        }
                        return Parsed::Failed(x);
                    },
                }
                if !header_uses(code) {
                    h.skipped_fields.push(code);
                }
                p = e;
            },
            Parsed::Need(m) => {
                proof {
                    lemma_header_fields_stuck(s@, start + 2, (k + 1) as nat, count as nat);
                }
                return Parsed::Need(m);
            },
            Parsed::Failed(x) => {
                return Parsed::Failed(x);
            },
        }
        k = k + 1;
    }
    Parsed::Done(h, p)
}

/// Once the header fields stop at a missing byte or an error, reading more
/// fields stops there too.
pub proof fn lemma_header_fields_stuck(s: Seq<u8>, start: int, k: nat, m: nat)
    requires
        k <= m,
        !(header_fields(s, start, k) is Done),
    ensures
        header_fields(s, start, m) == header_fields(s, start, k),
    decreases m - k,
{
    if k < m {
        lemma_header_fields_stuck(s, start, k, (m - 1) as nat);
    }
}

} // verus!
