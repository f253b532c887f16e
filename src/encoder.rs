//! Writing clips: the header, and each frame as its residuals packed at the
//! narrowest admitted width.
use vstd::prelude::*;
use vstd::utf8::encode_utf8;
use crate::bits::{all_fit, pack_bits_fast, pack_spec, packed_len, valid_width};
use crate::codec::{delta_encode_frame_data, max_abs_tail, residual, residuals_spec, slice_pixels};
use crate::container::CptvFrame;
use crate::fields::{FieldType, code_of, to_twos32, twos32};
use crate::header::Cptv2Header;

verus! {

/// A field on the wire: its length, its code, its value.
pub open spec fn field_bytes(code: u8, v: Seq<u8>) -> Seq<u8> {
    seq![v.len() as u8, code] + v
}

/// The little-endian bytes of a `u32`.
pub open spec fn u32_le(v: u32) -> Seq<u8> {
    seq![
        (v % 256) as u8,
        ((v / 256) % 256) as u8,
        ((v / 65536) % 256) as u8,
        (v / 16777216) as u8,
    ]
}

/// The little-endian bytes of a `u64`.
pub open spec fn u64_le(v: u64) -> Seq<u8> {
    u32_le((v % 4294967296) as u32) + u32_le((v / 4294967296) as u32)
}

/// The little-endian bytes of `v`.
pub fn u32_le_bytes(v: u32) -> (r: Vec<u8>)
    ensures
        r@ == u32_le(v),
{
    let mut r: Vec<u8> = Vec::new();
    r.push((v % 256) as u8);
    r.push(((v / 256) % 256) as u8);
    r.push(((v / 65536) % 256) as u8);
    r.push((v / 16777216) as u8);
    assert(r@ =~= u32_le(v));
    r
}

/// The little-endian bytes of `v`.
pub fn u64_le_bytes(v: u64) -> (r: Vec<u8>)
    ensures
        r@ == u64_le(v),
{
    let mut r = u32_le_bytes((v % 4294967296) as u32);
    let mut hi = u32_le_bytes((v / 4294967296) as u32);
    r.append(&mut hi);
    r
}

/// Appends a field with `code` and value `value`, counts it, and returns
/// where its value starts.
pub fn push_field(output: &mut Vec<u8>, value: &[u8], code: FieldType, count: &mut u8) -> (r: usize)
    requires
        value@.len() <= 255,
        *old(count) < 255,
        old(output)@.len() + 2 + value@.len() <= usize::MAX,
    ensures
        final(output)@ == old(output)@ + field_bytes(code_of(code), value@),
        *final(count) == *old(count) + 1,
        r == old(output)@.len() + 2,
{
    output.push(value.len() as u8);
    output.push(code.code());
    let at = output.len();
    output.extend_from_slice(value);
    *count = *count + 1;
    assert(output@ =~= old(output)@ + field_bytes(code_of(code), value@));
    at
}

/// Appends a text field with `code`, its value the UTF-8 bytes of `value`.
pub fn push_string(output: &mut Vec<u8>, value: &str, code: FieldType, count: &mut u8)
    requires
        encode_utf8(value@).len() <= 255,
        *old(count) < 255,
        old(output)@.len() + 2 + encode_utf8(value@).len() <= usize::MAX,
    ensures
        final(output)@ == old(output)@ + field_bytes(code_of(code), encode_utf8(value@)),
        *final(count) == *old(count) + 1,
{
    let bytes = value.as_bytes();
    push_field(output, bytes, code, count);
}

/// The field for an optional number given as its bytes.
pub open spec fn opt_field(code: u8, v: Option<Seq<u8>>) -> Seq<u8> {
    match v {
        Some(b) => field_bytes(code, b),
        None => Seq::empty(),
    }
}

/// The UTF-8 bytes of an optional text.
pub open spec fn opt_text_bytes(o: Option<String>) -> Option<Seq<u8>> {
    match o {
        Some(t) => Some(encode_utf8(t@)),
        None => None,
    }
}

/// The little-endian bytes of an optional `u32`.
pub open spec fn opt_u32(o: Option<u32>) -> Option<Seq<u8>> {
    match o {
        Some(v) => Some(u32_le(v)),
        None => None,
    }
}

/// The byte of an optional `u8`.
pub open spec fn opt_u8(o: Option<u8>) -> Option<Seq<u8>> {
    match o {
        Some(v) => Some(seq![v]),
        None => None,
    }
}

/// The little-endian bytes of an optional `u64`.
pub open spec fn opt_u64(o: Option<u64>) -> Option<Seq<u8>> {
    match o {
        Some(v) => Some(u64_le(v)),
        None => None,
    }
}

/// The fields every header writes: timestamp, width, height, compression,
/// frame rate and device name.
pub open spec fn header_required_bytes(h: Cptv2Header) -> Seq<u8> {
    field_bytes(84, u64_le(h.timestamp)) + field_bytes(88, u32_le(h.width)) + field_bytes(
        89,
        u32_le(h.height),
    ) + field_bytes(67, seq![h.compression]) + field_bytes(90, seq![h.fps]) + field_bytes(
        68,
        encode_utf8(h.device_name@),
    )
}

/// The optional device fields that are present.
pub open spec fn header_device_bytes(h: Cptv2Header) -> Seq<u8> {
    opt_field(66, opt_text_bytes(h.brand)) + opt_field(69, opt_text_bytes(h.model)) + opt_field(
        73,
        opt_u32(h.device_id),
    ) + opt_field(78, opt_u32(h.serial_number)) + opt_field(
        86,
        opt_text_bytes(h.firmware_version),
    ) + opt_field(77, opt_text_bytes(h.motion_config))
}

/// The optional recording fields that are present.
pub open spec fn header_recording_bytes(h: Cptv2Header) -> Seq<u8> {
    opt_field(80, opt_u8(h.preview_secs)) + opt_field(76, opt_u32(h.latitude)) + opt_field(
        79,
        opt_u32(h.longitude),
    ) + opt_field(83, opt_u64(h.loc_timestamp)) + opt_field(65, opt_u32(h.altitude)) + opt_field(
        85,
        opt_u32(h.accuracy),
    ) + opt_field(103, if h.has_background_frame { Some(seq![1u8]) } else { None })
}

/// The header's fields in the order they are written: the required ones,
/// then each optional field that is present.
pub open spec fn header_fields_bytes(h: Cptv2Header) -> Seq<u8> {
    header_required_bytes(h) + header_device_bytes(h) + header_recording_bytes(h)
}

/// How many optional device fields are present.
pub open spec fn device_field_count(h: Cptv2Header) -> nat {
    (if h.brand is Some { 1nat } else { 0 }) + (if h.model is Some { 1nat } else { 0 }) + (
    if h.device_id is Some { 1nat } else { 0 }) + (if h.serial_number is Some { 1nat } else { 0 })
        + (if h.firmware_version is Some { 1nat } else { 0 }) + (if h.motion_config is Some {
        1nat
    } else { 0 })
}

/// How many optional recording fields are present.
pub open spec fn recording_field_count(h: Cptv2Header) -> nat {
    (if h.preview_secs is Some { 1nat } else { 0 }) + (if h.latitude is Some { 1nat } else { 0 })
        + (if h.longitude is Some { 1nat } else { 0 }) + (if h.loc_timestamp is Some {
        1nat
    } else { 0 }) + (if h.altitude is Some { 1nat } else { 0 }) + (if h.accuracy is Some {
        1nat
    } else { 0 }) + (if h.has_background_frame { 1nat } else { 0 })
}

/// How many fields the header writes.
pub open spec fn header_field_count(h: Cptv2Header) -> nat {
    6 + device_field_count(h) + recording_field_count(h)
}

/// Every text of the header fits a field.
pub open spec fn header_texts_fit(h: Cptv2Header) -> bool {
    &&& encode_utf8(h.device_name@).len() <= 255
    &&& h.brand matches Some(t) ==> encode_utf8(t@).len() <= 255
    &&& h.model matches Some(t) ==> encode_utf8(t@).len() <= 255
    &&& h.firmware_version matches Some(t) ==> encode_utf8(t@).len() <= 255
    &&& h.motion_config matches Some(t) ==> encode_utf8(t@).len() <= 255
}

/// The bytes that start a version 2 clip with header `h`.
pub open spec fn header_bytes(h: Cptv2Header) -> Seq<u8> {
    seq![67u8, 80u8, 84u8, 86u8, 2u8, 72u8, header_field_count(h) as u8] + header_fields_bytes(h)
}

/// The field for an optional text, as bytes of its own.
fn opt_text_field(value: &Option<String>, code: FieldType) -> (r: (Vec<u8>, u8))
    requires
        value matches Some(t) ==> encode_utf8(t@).len() <= 255,
    ensures
        r.0@ == opt_field(code_of(code), opt_text_bytes(*value)),
        r.0@.len() <= 257,
        r.1 == if value is Some { 1u8 } else { 0u8 },
{
    let mut out: Vec<u8> = Vec::new();
    let mut count: u8 = 0;
    match value {
        Some(t) => {
            push_string(&mut out, t.as_str(), code, &mut count);
            assert(out@ =~= field_bytes(code_of(code), encode_utf8(t@)));
        },
        None => {
            assert(out@ =~= Seq::<u8>::empty());
        },
    }
    (out, count)
}

/// The field for an optional number given as its bytes, as bytes of its own.
fn opt_bytes_field(value: Option<Vec<u8>>, code: FieldType) -> (r: (Vec<u8>, u8))
    requires
        value matches Some(b) ==> b@.len() <= 8,
    ensures
        r.0@ == opt_field(
            code_of(code),
            match value {
                Some(b) => Some(b@),
                None => None,
            },
        ),
        r.0@.len() <= 10,
        r.1 == if value is Some { 1u8 } else { 0u8 },
{
    let mut out: Vec<u8> = Vec::new();
    let mut count: u8 = 0;
    match value {
        Some(b) => {
            push_field(&mut out, b.as_slice(), code, &mut count);
            assert(out@ =~= field_bytes(code_of(code), b@));
        },
        None => {
            assert(out@ =~= Seq::<u8>::empty());
        },
    }
    (out, count)
}

fn required_fields(header: &Cptv2Header) -> (r: Vec<u8>)
    requires
        encode_utf8(header.device_name@).len() <= 255,
    ensures
        r@ == header_required_bytes(*header),
        r@.len() <= 400,
{
    let mut out: Vec<u8> = Vec::new();
    let mut count: u8 = 0;
    let b = u64_le_bytes(header.timestamp);
    push_field(&mut out, b.as_slice(), FieldType::Timestamp, &mut count);
    assert(out@ =~= field_bytes(84, u64_le(header.timestamp)));
    let b = u32_le_bytes(header.width);
    push_field(&mut out, b.as_slice(), FieldType::Width, &mut count);
    let b = u32_le_bytes(header.height);
    push_field(&mut out, b.as_slice(), FieldType::Height, &mut count);
    let b = vec![header.compression];
    push_field(&mut out, b.as_slice(), FieldType::Compression, &mut count);
    let b = vec![header.fps];
    push_field(&mut out, b.as_slice(), FieldType::FrameRate, &mut count);
    push_string(&mut out, header.device_name.as_str(), FieldType::DeviceName, &mut count);
    out
}

#[verifier::spinoff_prover]
fn device_fields(header: &Cptv2Header) -> (r: (Vec<u8>, u8))
    requires
        header_texts_fit(*header),
    ensures
        r.0@ == header_device_bytes(*header),
        r.0@.len() <= 1600,
        r.1 == device_field_count(*header),
{
    let (mut out, n1) = opt_text_field(&header.brand, FieldType::Brand);
    let (mut b, n2) = opt_text_field(&header.model, FieldType::Model);
    out.append(&mut b);
    let v = match header.device_id { Some(x) => Some(u32_le_bytes(x)), None => None };
    let (mut b, n3) = opt_bytes_field(v, FieldType::DeviceID);
    out.append(&mut b);
    let v = match header.serial_number { Some(x) => Some(u32_le_bytes(x)), None => None };
    let (mut b, n4) = opt_bytes_field(v, FieldType::CameraSerial);
    out.append(&mut b);
    let (mut b, n5) = opt_text_field(&header.firmware_version, FieldType::FirmwareVersion);
    out.append(&mut b);
    let (mut b, n6) = opt_text_field(&header.motion_config, FieldType::MotionConfig);
    out.append(&mut b);
    (out, n1 + n2 + n3 + n4 + n5 + n6)
}

#[verifier::spinoff_prover]
fn location_fields(header: &Cptv2Header) -> (r: (Vec<u8>, u8))
    ensures
        r.0@ == opt_field(80, opt_u8(header.preview_secs)) + opt_field(76, opt_u32(header.latitude))
            + opt_field(79, opt_u32(header.longitude)) + opt_field(
            83,
            opt_u64(header.loc_timestamp),
        ),
        r.0@.len() <= 40,
        r.1 == (if header.preview_secs is Some { 1nat } else { 0 }) + (if header.latitude is Some {
            1nat
        } else { 0 }) + (if header.longitude is Some { 1nat } else { 0 }) + (
        if header.loc_timestamp is Some { 1nat } else { 0 }),
{
    let v = match header.preview_secs { Some(x) => Some(vec![x]), None => None };
    let (mut out, n1) = opt_bytes_field(v, FieldType::PreviewSecs);
    let v = match header.latitude { Some(x) => Some(u32_le_bytes(x)), None => None };
    let (mut b, n2) = opt_bytes_field(v, FieldType::Latitude);
    out.append(&mut b);
    let v = match header.longitude { Some(x) => Some(u32_le_bytes(x)), None => None };
    let (mut b, n3) = opt_bytes_field(v, FieldType::Longitude);
    out.append(&mut b);
    let v = match header.loc_timestamp { Some(x) => Some(u64_le_bytes(x)), None => None };
    let (mut b, n4) = opt_bytes_field(v, FieldType::LocTimestamp);
    out.append(&mut b);
    (out, n1 + n2 + n3 + n4)
}

#[verifier::spinoff_prover]
fn recording_fields(header: &Cptv2Header) -> (r: (Vec<u8>, u8))
    ensures
        r.0@ == header_recording_bytes(*header),
        r.0@.len() <= 100,
        r.1 == recording_field_count(*header),
{
    let (mut out, n1) = location_fields(header);
    let v = match header.altitude { Some(x) => Some(u32_le_bytes(x)), None => None };
    let (mut b, n5) = opt_bytes_field(v, FieldType::Altitude);
    out.append(&mut b);
    let v = match header.accuracy { Some(x) => Some(u32_le_bytes(x)), None => None };
    let (mut b, n6) = opt_bytes_field(v, FieldType::Accuracy);
    out.append(&mut b);
    let v = if header.has_background_frame { Some(vec![1u8]) } else { None };
    let (mut b, n7) = opt_bytes_field(v, FieldType::BackgroundFrame);
    out.append(&mut b);
    (out, n1 + n5 + n6 + n7)
}

/// Writes the magic, the version and the header's fields.
#[verifier::spinoff_prover]
pub fn push_header(output: &mut Vec<u8>, header: &Cptv2Header)
    requires
        header_texts_fit(*header),
        old(output)@.len() + 8192 <= usize::MAX,
    ensures
        final(output)@ == old(output)@ + header_bytes(*header),
{
    let mut out = required_fields(header);
    let (mut dev, n_dev) = device_fields(header);
    let (mut rec, n_rec) = recording_fields(header);
    out.append(&mut dev);
    out.append(&mut rec);
    let count: u8 = 6 + n_dev + n_rec;
    output.push(67);
    output.push(80);
    output.push(84);
    output.push(86);
    output.push(2);
    output.push(72);
    output.push(count);
    output.append(&mut out);
    assert(output@ =~= old(output)@ + header_bytes(*header));
}

/// A frame's payload: the first residual whole, little-endian, then the
/// rest packed at `w` bits.
pub open spec fn payload_bytes(d: Seq<i32>, w: u8) -> Seq<u8> {
    u32_le(twos32(d[0])) + pack_spec(d.skip(1), w)
}

/// A frame's fields in the order they are written: payload size, bits per
/// pixel, time on, then the calibration time and background flag when
/// present.
pub open spec fn frame_fields_bytes(f: CptvFrame, w: u8, size: u32) -> Seq<u8> {
    field_bytes(102, u32_le(size)) + field_bytes(119, seq![w]) + field_bytes(116, u32_le(f.time_on))
        + opt_field(99, opt_u32(f.last_ffc_time)) + opt_field(
        103,
        if f.is_background_frame { Some(seq![1u8]) } else { None },
    )
}

/// How many fields a frame writes.
pub open spec fn frame_field_count(f: CptvFrame) -> nat {
    3 + (if f.last_ffc_time is Some { 1nat } else { 0 }) + (if f.is_background_frame {
        1nat
    } else { 0 })
}

/// The record of frame `f` with residuals `d` packed at `w` bits.
pub open spec fn frame_record_bytes(f: CptvFrame, d: Seq<i32>, w: u8) -> Seq<u8> {
    seq![70u8, frame_field_count(f) as u8] + frame_fields_bytes(
        f,
        w,
        payload_bytes(d, w).len() as u32,
    ) + payload_bytes(d, w)
}

fn frame_fields_vec(frame: &CptvFrame, bits_per_pixel: u8, size: u32) -> (r: (Vec<u8>, u8))
    ensures
        r.0@ == frame_fields_bytes(*frame, bits_per_pixel, size),
        r.0@.len() <= 40,
        r.1 == frame_field_count(*frame),
{
    let mut out: Vec<u8> = Vec::new();
    let mut count: u8 = 0;
    let b = u32_le_bytes(size);
    push_field(&mut out, b.as_slice(), FieldType::FrameSize, &mut count);
    assert(out@ =~= field_bytes(102, u32_le(size)));
    let b = vec![bits_per_pixel];
    push_field(&mut out, b.as_slice(), FieldType::BitsPerPixel, &mut count);
    let b = u32_le_bytes(frame.time_on);
    push_field(&mut out, b.as_slice(), FieldType::TimeOn, &mut count);
    let v = match frame.last_ffc_time { Some(x) => Some(u32_le_bytes(x)), None => None };
    let (mut b, n1) = opt_bytes_field(v, FieldType::LastFfcTime);
    out.append(&mut b);
    let v = if frame.is_background_frame { Some(vec![1u8]) } else { None };
    let (mut b, n2) = opt_bytes_field(v, FieldType::BackgroundFrame);
    out.append(&mut b);
    (out, count + n1 + n2)
}

/// Appends the record of `frame`: its fields, then its residuals, the first
/// whole and the rest packed at `bits_per_pixel`.
#[verifier::spinoff_prover]
pub fn pack_frame(
    frame_bytes: &mut Vec<u8>,
    frame: &CptvFrame,
    delta_encoded_frame: &[i32],
    bits_per_pixel: u8,
)
    requires
        valid_width(bits_per_pixel),
        delta_encoded_frame@.len() >= 1,
        all_fit(delta_encoded_frame@.skip(1), bits_per_pixel),
        4 + packed_len((delta_encoded_frame@.len() - 1) as nat, bits_per_pixel) <= u32::MAX,
        old(frame_bytes)@.len() + 4 * delta_encoded_frame@.len() + 64 <= usize::MAX,
    ensures
        final(frame_bytes)@ == old(frame_bytes)@ + frame_record_bytes(
            *frame,
            delta_encoded_frame@,
            bits_per_pixel,
        ),
{
    let ghost d = delta_encoded_frame@;
    let mut payload = u32_le_bytes(to_twos32(delta_encoded_frame[0]));
    let rest = &delta_encoded_frame[1..delta_encoded_frame.len()];
    assert(rest@ == d.skip(1));
    pack_bits_fast(rest, &mut payload, bits_per_pixel);
    assert(payload@ == payload_bytes(d, bits_per_pixel));
    let size = payload.len() as u32;
    let (mut fields, count) = frame_fields_vec(frame, bits_per_pixel, size);
    frame_bytes.push(70);
    frame_bytes.push(count);
    frame_bytes.append(&mut fields);
    frame_bytes.append(&mut payload);
    assert(frame_bytes@ =~= old(frame_bytes)@ + frame_record_bytes(*frame, d, bits_per_pixel));
}

/// The residuals of `frame` against `prev_frame` (or an all-zero frame),
/// written into the first slots of `output` (one per pixel; the rest stay as
/// they were), and the packing width for all but the first.
pub fn delta_encode_frame(prev_frame: Option<&CptvFrame>, frame: &CptvFrame, output: &mut Vec<i32>) -> (r: u8)
    requires
        frame.image_data.wf(),
        prev_frame matches Some(p) ==> p.image_data@.pixels.len() == frame.image_data@.pixels.len(),
        old(output)@.len() >= frame.image_data@.pixels.len(),
    ensures
        ({
            let w = frame.image_data@.width;
            let n = frame.image_data@.pixels.len();
            let pv = crate::container::prev_pixels(prev_frame);
            &&& final(output)@.len() == old(output)@.len()
            &&& final(output)@.subrange(n as int, old(output)@.len() as int) == old(
                output,
            )@.subrange(n as int, old(output)@.len() as int)
            &&& forall|i: int|
                0 <= i < n ==> #[trigger] final(output)@[i] as int == residual(
                    pv,
                    frame.image_data@.pixels,
                    w as int,
                    i,
                )
            &&& r == crate::codec::frame_width(
                residuals_spec(pv, frame.image_data@.pixels, w as int, n),
                n as int,
            )
        }),
{
    let prev = match prev_frame {
        Some(p) => Some(p.image_data.data()),
        None => None,
    };
    assert(slice_pixels(prev) == crate::container::prev_pixels(prev_frame));
    delta_encode_frame_data(
        prev,
        frame.image_data.data(),
        output,
        frame.image_data.width(),
        frame.image_data.height(),
    )
}

/// Whether every residual of `curr` against `prev` after the first fits in
/// 16 signed bits, as the format needs.
pub open spec fn residuals_fit(prev: Option<Seq<u16>>, curr: Seq<u16>, w: int) -> bool {
    max_abs_tail(residuals_spec(prev, curr, w, curr.len()), curr.len() as int) <= 32767
}

/// Encodes `frame` against `prev_frame` and appends its record; counts the
/// frame under its packing width (8 bits first, then 16).
#[verifier::spinoff_prover]
pub fn push_frame(
    output: &mut Vec<u8>,
    frame: &CptvFrame,
    prev_frame: Option<&CptvFrame>,
    bit_widths: &mut [i32; 2],
    scratch: &mut Vec<i32>,
)
    requires
        frame.image_data.wf(),
        frame.image_data@.pixels.len() >= 1,
        frame.image_data@.pixels.len() <= 0x7FFF_0000,
        prev_frame matches Some(p) ==> p.image_data@.pixels.len() == frame.image_data@.pixels.len(),
        residuals_fit(
            crate::container::prev_pixels(prev_frame),
            frame.image_data@.pixels,
            frame.image_data@.width as int,
        ),
        old(output)@.len() + 4 * frame.image_data@.pixels.len() + 64 <= usize::MAX,
        old(bit_widths)[0] < i32::MAX,
        old(bit_widths)[1] < i32::MAX,
        old(scratch)@.len() >= frame.image_data@.pixels.len(),
    ensures
        ({
            let w = frame.image_data@.width as int;
            let px = frame.image_data@.pixels;
            let pv = crate::container::prev_pixels(prev_frame);
            let bw = crate::codec::frame_width(residuals_spec(pv, px, w, px.len()), px.len() as int);
            &&& final(scratch)@.len() == old(scratch)@.len()
            &&& forall|i: int| 0 <= i < px.len() ==> #[trigger] final(scratch)@[i] as int == residual(pv, px, w, i)
            &&& final(output)@ == old(output)@ + frame_record_bytes(
                *frame,
                final(scratch)@.subrange(0, px.len() as int),
                bw,
            )
            &&& bw == 8 ==> final(bit_widths)[0] == old(bit_widths)[0] + 1 && final(bit_widths)[1] == old(bit_widths)[1]
            &&& bw == 16 ==> final(bit_widths)[1] == old(bit_widths)[1] + 1 && final(bit_widths)[0] == old(bit_widths)[0]
        }),
{
    let bits_per_pixel = delta_encode_frame(prev_frame, frame, scratch);
    let ghost w = frame.image_data@.width as int;
    let ghost px = frame.image_data@.pixels;
    let ghost pv = crate::container::prev_pixels(prev_frame);
    let n = frame.image_data.data().len();
    let used = &scratch.as_slice()[0..n];
    proof {
        let rs = residuals_spec(pv, px, w, px.len());
        let tail = used@.skip(1);
        assert forall|i: int| 0 <= i < tail.len() implies crate::bits::fits_width(
            #[trigger] tail[i] as int,
            bits_per_pixel,
        ) by {
            crate::codec::lemma_max_abs_tail_bounds(rs, px.len() as int, i + 1);
            assert(tail[i] == scratch@[i + 1]);
        }
    }
    pack_frame(output, frame, used, bits_per_pixel);
    if bits_per_pixel == 8 {
        bit_widths.set(0, bit_widths[0] + 1);
    } else {
        bit_widths.set(1, bit_widths[1] + 1);
    }
}

/// Encodes `next` against `prev` (or an all-zero frame), both given as
/// little-endian 16-bit pixels, and packs all residuals after the first at
/// 16 bits. Returns that width and the payload.
#[verifier::spinoff_prover]
pub fn get_packed_frame_data(prev: Option<&[u8]>, next: &[u8], width: usize, height: usize) -> (r: (
    u8,
    Vec<u8>,
))
    requires
        next@.len() >= 2 * (width * height),
        prev matches Some(p) ==> p@.len() >= 2 * (width * height),
        width * height >= 1,
        2 * (width * height) <= 0x7FFF_0000,
        residuals_fit(
            pixels_of_bytes(opt_bytes(prev)),
            le_pixels(next@.subrange(0, 2 * (width * height))),
            width as int,
        ),
    ensures
        r.0 == 16,
        ({
            let pv = pixels_of_bytes(opt_bytes(prev));
            let curr = le_pixels(next@.subrange(0, 2 * (width * height)));
            let d = Seq::new(curr.len(), |i: int| residual(pv, curr, width as int, i) as i32);
            r.1@ == payload_bytes(d, 16)
        }),
{
    let n = width * height;
    let curr = pixels_from_le(&next[0..2 * n]);
    let prev_px = match prev {
        Some(p) => Some(pixels_from_le(p)),
        None => None,
    };
    let prev_ref = match &prev_px {
        Some(p) => Some(p.as_slice()),
        None => None,
    };
    let mut delta: Vec<i32> = vec![0i32; n];
    let ghost pv = pixels_of_bytes(opt_bytes(prev));
    assert(slice_pixels(prev_ref) == pv);
    delta_encode_frame_data(prev_ref, curr.as_slice(), &mut delta, width, height);
    let ghost d = Seq::new(n as nat, |i: int| residual(pv, curr@, width as int, i) as i32);
    proof {
        assert(delta@ =~= d);
        let rs = residuals_spec(pv, curr@, width as int, n as nat);
        let tail = delta@.skip(1);
        assert forall|i: int| 0 <= i < tail.len() implies crate::bits::fits_width(
            #[trigger] tail[i] as int,
            16,
        ) by {
            crate::codec::lemma_max_abs_tail_bounds(rs, n as int, i + 1);
            assert(tail[i] == delta@[i + 1]);
        }
    }
    let mut output = u32_le_bytes(to_twos32(delta[0]));
    let rest = &delta.as_slice()[1..delta.len()];
    assert(rest@ == delta@.skip(1));
    pack_bits_fast(rest, &mut output, 16);
    (16, output)
}

/// The bytes of an optional slice.
pub open spec fn opt_bytes(o: Option<&[u8]>) -> Option<Seq<u8>> {
    match o {
        Some(b) => Some(b@),
        None => None,
    }
}

/// Pixels read from little-endian byte pairs.
pub open spec fn le_pixels(b: Seq<u8>) -> Seq<u16> {
    Seq::new(b.len() / 2, |i: int| (b[2 * i] as int + 256 * b[2 * i + 1] as int) as u16)
}

/// The pixels of optional little-endian bytes.
pub open spec fn pixels_of_bytes(o: Option<Seq<u8>>) -> Option<Seq<u16>> {
    match o {
        Some(b) => Some(le_pixels(b)),
        None => None,
    }
}

/// Pixels read from little-endian byte pairs.
pub fn pixels_from_le(b: &[u8]) -> (r: Vec<u16>)
    ensures
        r@ == le_pixels(b@),
{
    let len = b.len();
    let n = len / 2;
    let mut out: Vec<u16> = Vec::new();
    let mut i: usize = 0;
    while i < n
        invariant
            n == b@.len() / 2,
            len == b@.len(),
            2 * n <= len,
            i <= n,
            out@.len() == i,
            forall|j: int| 0 <= j < i ==> out@[j] == (b@[2 * j] as int + 256 * b@[2 * j + 1] as int) as u16,
        decreases n - i,
    {
        let v = b[2 * i] as u16 + 256 * b[2 * i + 1] as u16;
        out.push(v);
        i = i + 1;
    }
    assert(out@ =~= le_pixels(b@));
    out
}

} // verus!
