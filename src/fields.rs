//! The field codes of headers and frames, the errors of the container, and
//! little-endian reads of field values.
use vstd::prelude::*;
use vstd::utf8::{decode_utf8, valid_utf8};

verus! {

/// What a clip fails on. Running out of bytes is no error: it is reported
/// apart, and the parse is retried once more bytes have come.
#[derive(Clone, Copy, Debug, PartialEq, Eq, Structural)]
pub enum CptvError {
    /// The stream does not start with the four bytes `CPTV`.
    BadMagic,
    /// The container version is not 2.
    UnknownVersion(u8),
    /// A section starts with another byte than its tag (`H` or `F`).
    UnexpectedTag(u8),
    /// A field's value is too short for its type; holds the field code.
    MalformedField(u8),
    /// A frame's bits per pixel is neither 8 nor 16.
    InvalidBitWidth(u8),
    /// A frame's declared payload size is not the one its pixel count and
    /// width call for (or the clip has no pixels).
    FrameSizeMismatch,
    /// A rebuilt pixel lies outside the 16-bit range.
    PixelRangeViolation,
    /// The bytes ended, and no more will come, before the header did.
    TransportExhausted,
    /// A frame after the first is flagged as a background frame.
    MisplacedBackgroundFrame,
}

/// The meaning of a one-byte field code.
#[derive(Clone, Copy, Debug, PartialEq, Eq, Structural)]
pub enum FieldType {
    Header,
    Timestamp,
    Width,
    Height,
    Compression,
    DeviceName,
    MotionConfig,
    PreviewSecs,
    Latitude,
    Longitude,
    LocTimestamp,
    Altitude,
    Accuracy,
    Model,
    Brand,
    DeviceID,
    FirmwareVersion,
    CameraSerial,
    FrameRate,
    BackgroundFrame,
    MinValue,
    MaxValue,
    TableOfContents,
    NumFrames,
    FramesPerIframe,
    FrameHeader,
    BitsPerPixel,
    FrameSize,
    LastFfcTime,
    FrameTempC,
    LastFfcTempC,
    TimeOn,
    Unknown,
}

/// The field type a code stands for.
pub open spec fn field_of(c: u8) -> FieldType {
    if c == 72 { FieldType::Header }  // 'H'
    else if c == 84 { FieldType::Timestamp }  // 'T'
    else if c == 88 { FieldType::Width }  // 'X'
    else if c == 89 { FieldType::Height }  // 'Y'
    else if c == 67 { FieldType::Compression }  // 'C'
    else if c == 68 { FieldType::DeviceName }  // 'D'
    else if c == 77 { FieldType::MotionConfig }  // 'M'
    else if c == 80 { FieldType::PreviewSecs }  // 'P'
    else if c == 76 { FieldType::Latitude }  // 'L'
    else if c == 79 { FieldType::Longitude }  // 'O'
    else if c == 83 { FieldType::LocTimestamp }  // 'S'
    else if c == 65 { FieldType::Altitude }  // 'A'
    else if c == 85 { FieldType::Accuracy }  // 'U'
    else if c == 69 { FieldType::Model }  // 'E'
    else if c == 66 { FieldType::Brand }  // 'B'
    else if c == 73 { FieldType::DeviceID }  // 'I'
    else if c == 86 { FieldType::FirmwareVersion }  // 'V'
    else if c == 78 { FieldType::CameraSerial }  // 'N'
    else if c == 90 { FieldType::FrameRate }  // 'Z'
    else if c == 103 { FieldType::BackgroundFrame }  // 'g'
    else if c == 82 { FieldType::MinValue }  // 'R'
    else if c == 87 || c == 75 { FieldType::MaxValue }  // 'W' 'K'
    else if c == 81 { FieldType::TableOfContents }  // 'Q'
    else if c == 74 { FieldType::NumFrames }  // 'J'
    else if c == 71 { FieldType::FramesPerIframe }  // 'G'
    else if c == 70 { FieldType::FrameHeader }  // 'F'
    else if c == 119 { FieldType::BitsPerPixel }  // 'w'
    else if c == 102 { FieldType::FrameSize }  // 'f'
    else if c == 99 { FieldType::LastFfcTime }  // 'c'
    else if c == 97 { FieldType::FrameTempC }  // 'a'
    else if c == 98 { FieldType::LastFfcTempC }  // 'b'
    else if c == 116 { FieldType::TimeOn }  // 't'
    else { FieldType::Unknown }
}

/// The code written for a field type.
pub open spec fn code_of(f: FieldType) -> u8 {
    match f {
        FieldType::Header => 72,  // 'H'
        FieldType::Timestamp => 84,  // 'T'
        FieldType::Width => 88,  // 'X'
        FieldType::Height => 89,  // 'Y'
        FieldType::Compression => 67,  // 'C'
        FieldType::DeviceName => 68,  // 'D'
        FieldType::MotionConfig => 77,  // 'M'
        FieldType::PreviewSecs => 80,  // 'P'
        FieldType::Latitude => 76,  // 'L'
        FieldType::Longitude => 79,  // 'O'
        FieldType::LocTimestamp => 83,  // 'S'
        FieldType::Altitude => 65,  // 'A'
        FieldType::Accuracy => 85,  // 'U'
        FieldType::Model => 69,  // 'E'
        FieldType::Brand => 66,  // 'B'
        FieldType::DeviceID => 73,  // 'I'
        FieldType::FirmwareVersion => 86,  // 'V'
        FieldType::CameraSerial => 78,  // 'N'
        FieldType::FrameRate => 90,  // 'Z'
        FieldType::BackgroundFrame => 103,  // 'g'
        FieldType::MinValue => 82,  // 'R'
        FieldType::MaxValue => 87,  // 'W'
        FieldType::TableOfContents => 81,  // 'Q'
        FieldType::NumFrames => 74,  // 'J'
        FieldType::FramesPerIframe => 71,  // 'G'
        FieldType::FrameHeader => 70,  // 'F'
        FieldType::BitsPerPixel => 119,  // 'w'
        FieldType::FrameSize => 102,  // 'f'
        FieldType::LastFfcTime => 99,  // 'c'
        FieldType::FrameTempC => 97,  // 'a'
        FieldType::LastFfcTempC => 98,  // 'b'
        FieldType::TimeOn => 116,  // 't'
        FieldType::Unknown => 59,  // ';'
    }
}

impl FieldType {
    /// The code written for this field type.
    pub fn code(&self) -> (r: u8)
        ensures
            r == code_of(*self),
    {
        match self {
            FieldType::Header => 72u8,  // 'H'
            FieldType::Timestamp => 84u8,  // 'T'
            FieldType::Width => 88u8,  // 'X'
            FieldType::Height => 89u8,  // 'Y'
            FieldType::Compression => 67u8,  // 'C'
            FieldType::DeviceName => 68u8,  // 'D'
            FieldType::MotionConfig => 77u8,  // 'M'
            FieldType::PreviewSecs => 80u8,  // 'P'
            FieldType::Latitude => 76u8,  // 'L'
            FieldType::Longitude => 79u8,  // 'O'
            FieldType::LocTimestamp => 83u8,  // 'S'
            FieldType::Altitude => 65u8,  // 'A'
            FieldType::Accuracy => 85u8,  // 'U'
            FieldType::Model => 69u8,  // 'E'
            FieldType::Brand => 66u8,  // 'B'
            FieldType::DeviceID => 73u8,  // 'I'
            FieldType::FirmwareVersion => 86u8,  // 'V'
            FieldType::CameraSerial => 78u8,  // 'N'
            FieldType::FrameRate => 90u8,  // 'Z'
            FieldType::BackgroundFrame => 103u8,  // 'g'
            FieldType::MinValue => 82u8,  // 'R'
            FieldType::MaxValue => 87u8,  // 'W'
            FieldType::TableOfContents => 81u8,  // 'Q'
            FieldType::NumFrames => 74u8,  // 'J'
            FieldType::FramesPerIframe => 71u8,  // 'G'
            FieldType::FrameHeader => 70u8,  // 'F'
            FieldType::BitsPerPixel => 119u8,  // 'w'
            FieldType::FrameSize => 102u8,  // 'f'
            FieldType::LastFfcTime => 99u8,  // 'c'
            FieldType::FrameTempC => 97u8,  // 'a'
            FieldType::LastFfcTempC => 98u8,  // 'b'
            FieldType::TimeOn => 116u8,  // 't'
            FieldType::Unknown => 59u8,  // ';'
        }
    }
}

impl From<u8> for FieldType {
    fn from(val: u8) -> (r: FieldType) {
        if val == 72u8 { FieldType::Header }  // 'H'
        else if val == 84u8 { FieldType::Timestamp }  // 'T'
        else if val == 88u8 { FieldType::Width }  // 'X'
        else if val == 89u8 { FieldType::Height }  // 'Y'
        else if val == 67u8 { FieldType::Compression }  // 'C'
        else if val == 68u8 { FieldType::DeviceName }  // 'D'
        else if val == 77u8 { FieldType::MotionConfig }  // 'M'
        else if val == 80u8 { FieldType::PreviewSecs }  // 'P'
        else if val == 76u8 { FieldType::Latitude }  // 'L'
        else if val == 79u8 { FieldType::Longitude }  // 'O'
        else if val == 83u8 { FieldType::LocTimestamp }  // 'S'
        else if val == 65u8 { FieldType::Altitude }  // 'A'
        else if val == 85u8 { FieldType::Accuracy }  // 'U'
        else if val == 69u8 { FieldType::Model }  // 'E'
        else if val == 66u8 { FieldType::Brand }  // 'B'
        else if val == 73u8 { FieldType::DeviceID }  // 'I'
        else if val == 86u8 { FieldType::FirmwareVersion }  // 'V'
        else if val == 78u8 { FieldType::CameraSerial }  // 'N'
        else if val == 90u8 { FieldType::FrameRate }  // 'Z'
        else if val == 103u8 { FieldType::BackgroundFrame }  // 'g'
        else if val == 82u8 { FieldType::MinValue }  // 'R'
        else if val == 87u8 || val == 75u8 { FieldType::MaxValue }  // 'W' 'K'
        else if val == 81u8 { FieldType::TableOfContents }  // 'Q'
        else if val == 74u8 { FieldType::NumFrames }  // 'J'
        else if val == 71u8 { FieldType::FramesPerIframe }  // 'G'
        else if val == 70u8 { FieldType::FrameHeader }  // 'F'
        else if val == 119u8 { FieldType::BitsPerPixel }  // 'w'
        else if val == 102u8 { FieldType::FrameSize }  // 'f'
        else if val == 99u8 { FieldType::LastFfcTime }  // 'c'
        else if val == 97u8 { FieldType::FrameTempC }  // 'a'
        else if val == 98u8 { FieldType::LastFfcTempC }  // 'b'
        else if val == 116u8 { FieldType::TimeOn }  // 't'
        else { FieldType::Unknown }
    }
}

impl vstd::std_specs::convert::FromSpecImpl<u8> for FieldType {
    open spec fn obeys_from_spec() -> bool {
        true
    }

    open spec fn from_spec(v: u8) -> FieldType {
        field_of(v)
    }
}

/// Every field type but `Unknown` is read back from the code written for it.
pub proof fn lemma_code_round_trip(f: FieldType)
    requires
        f != FieldType::Unknown,
    ensures
        field_of(code_of(f)) == f,
{
}

/// The little-endian `u32` in bytes `i` .. `i + 3` of `s`.
pub open spec fn le_u32_at(s: Seq<u8>, i: int) -> u32 {
    (s[i] as int + s[i + 1] as int * 256 + s[i + 2] as int * 65536 + s[i + 3] as int
        * 16777216) as u32
}

/// The little-endian `u64` in bytes `i` .. `i + 7` of `s`.
pub open spec fn le_u64_at(s: Seq<u8>, i: int) -> u64 {
    (le_u32_at(s, i) as int + le_u32_at(s, i + 4) as int * 4294967296) as u64
}

/// The little-endian `u32` at `at`.
pub fn read_le_u32(s: &[u8], at: usize) -> (r: u32)
    requires
        at + 4 <= s@.len(),
    ensures
        r == le_u32_at(s@, at as int),
{
    s[at] as u32 + s[at + 1] as u32 * 256 + s[at + 2] as u32 * 65536 + s[at + 3] as u32 * 16777216
}

/// The little-endian `u64` at `at`.
pub fn read_le_u64(s: &[u8], at: usize) -> (r: u64)
    requires
        at + 8 <= s@.len(),
    ensures
        r == le_u64_at(s@, at as int),
{
    let len = s.len();
    assert(at + 4 < len);
    read_le_u32(s, at) as u64 + read_le_u32(s, at + 4) as u64 * 4294967296
}

/// The signed value of a 32-bit two's-complement pattern.
pub open spec fn signed32(u: u32) -> i32 {
    if u < 0x8000_0000 { u as i32 } else { (u as int - 0x1_0000_0000) as i32 }
}

/// The 32-bit two's-complement pattern of `v`.
pub open spec fn twos32(v: i32) -> u32 {
    if v >= 0 { v as u32 } else { (v as int + 0x1_0000_0000) as u32 }
}

/// The signed value of the 32-bit pattern `u`.
pub fn to_signed32(u: u32) -> (r: i32)
    ensures
        r == signed32(u),
{
    if u < 0x8000_0000 { u as i32 } else { (u as i64 - 0x1_0000_0000) as i32 }
}

/// The 32-bit two's-complement pattern of `v`.
pub fn to_twos32(v: i32) -> (r: u32)
    ensures
        r == twos32(v),
{
    if v >= 0 { v as u32 } else { (v as i64 + 0x1_0000_0000) as u32 }
}

/// Text decoded from bytes that are not valid UTF-8, with each invalid
/// sequence replaced by U+FFFD.
pub uninterp spec fn utf8_lossy(b: Seq<u8>) -> Seq<char>;

/// The text in a field's bytes: what they encode when they are valid UTF-8.
pub open spec fn text_of(b: Seq<u8>) -> Seq<char> {
    if valid_utf8(b) {
        decode_utf8(b)
    } else {
        utf8_lossy(b)
    }
}

/// Relies on `String::from_utf8_lossy`: valid UTF-8 comes back as the text
/// it encodes; otherwise the text depends on the bytes alone.
#[verifier::external_body]
pub(crate) fn text_from_bytes(b: &[u8]) -> (r: String)
    ensures
        r@ == (if valid_utf8(b@) { decode_utf8(b@) } else { utf8_lossy(b@) }),
{
    String::from_utf8_lossy(b).into_owned()
}

} // verus!
