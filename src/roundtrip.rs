//! What the encoder writes, the decoder reads back unchanged.
use vstd::prelude::*;
use crate::bits::{pack_spec, packed_len};
use crate::codec::{
    decoded_value, lemma_payload_round_trip, lemma_residuals_reproduce,
    payload_residuals, residual, residuals_spec, frame_width, max_abs_tail,
};
use crate::container::{
    CptvFrame, FrameMeta, apply_frame_field, default_meta, frame_fields, frame_payload_spec,
    frame_spec, payload_pixels,
};
use crate::encoder::{
    field_bytes, frame_field_count, frame_fields_bytes, frame_record_bytes, opt_field, opt_u32,
    payload_bytes, residuals_fit, u32_le,
};
use crate::fields::{le_u32_at, signed32, twos32};
use crate::decoder::{last_pixels, lemma_stream_next, lemma_stream_prefix_stable, stream_spec, FrameRecord};
use crate::encoder::{
    header_bytes, header_device_bytes, header_field_count, header_fields_bytes,
    header_recording_bytes, header_required_bytes, header_texts_fit, opt_text_bytes, opt_u64,
    opt_u8, u64_le,
};
use crate::fields::{le_u64_at, text_of};
use crate::header::{
    Cptv2Header, HeaderView, Step, apply_header_field, clip_header_spec, default_header,
    header_fields, header_v2_spec, next_field,
};
use vstd::utf8::{encode_utf8, encode_utf8_decode_utf8, encode_utf8_valid_utf8};

verus! {

/// Reading back the little-endian bytes of a `u32` gives the `u32`.
pub proof fn lemma_u32_le_round_trip(v: u32)
    ensures
        le_u32_at(u32_le(v), 0) == v,
{
    let b0 = v % 256;
    let b1 = (v / 256) % 256;
    let b2 = (v / 65536) % 256;
    let b3 = v / 16777216;
    assert(b0 + b1 * 256 + b2 * 65536 + b3 * 16777216 == v) by (bit_vector)
        requires
            b0 == v % 256,
            b1 == (v / 256) % 256,
            b2 == (v / 65536) % 256,
            b3 == v / 16777216,
    ;
}

/// A 32-bit value survives its two's-complement pattern.
pub proof fn lemma_twos32_round_trip(v: i32)
    ensures
        signed32(twos32(v)) == v,
{
}

/// The parts of a concatenation stand at their offsets.
proof fn lemma_split(s: Seq<u8>, a: int, x: Seq<u8>, y: Seq<u8>)
    requires
        0 <= a,
        a + x.len() + y.len() <= s.len(),
        s.subrange(a, a + x.len() + y.len()) == x + y,
    ensures
        s.subrange(a, a + x.len()) == x,
        s.subrange(a + x.len(), a + x.len() + y.len()) == y,
{
    assert(s.subrange(a, a + x.len()) =~= (x + y).subrange(0, x.len() as int));
    assert(s.subrange(a + x.len(), a + x.len() + y.len()) =~= (x + y).subrange(
        x.len() as int,
        (x.len() + y.len()) as int,
    ));
    assert((x + y).subrange(0, x.len() as int) =~= x);
    assert((x + y).subrange(x.len() as int, (x.len() + y.len()) as int) =~= y);
}

/// One more field read from bytes that hold it.
proof fn lemma_field_step(s: Seq<u8>, start: int, k: nat, m: FrameMeta, p: int, code: u8, v: Seq<u8>)
    requires
        0 <= p,
        v.len() <= 255,
        p + 2 + v.len() <= s.len(),
        frame_fields(s, start, k) == Step::Done(m, p),
        s.subrange(p, p + 2 + v.len()) == field_bytes(code, v),
        apply_frame_field(m, code, v) is Ok,
    ensures
        frame_fields(s, start, k + 1) == Step::Done(
            apply_frame_field(m, code, v)->Ok_0,
            p + 2 + v.len(),
        ),
{
    let fb = field_bytes(code, v);
    assert(s[p] == fb[0]);
    assert(s[p + 1] == fb[1]);
    assert(s.subrange(p + 2, p + 2 + v.len()) =~= v) by {
        assert forall|i: int| 0 <= i < v.len() implies s.subrange(p + 2, p + 2 + v.len())[i]
            == v[i] by {
            assert(s[p + 2 + i] == fb[2 + i]);
        }
    }
    assert(next_field(s, p) == Step::Done((code, p + 2), p + 2 + v.len()));
    assert(((k + 1) - 1) as nat == k);
}

/// The fields a frame record carries once its fields are read back.
pub open spec fn written_meta(f: CptvFrame, w: u8, size: u32) -> FrameMeta {
    FrameMeta {
        time_on: f.time_on,
        bit_width: w,
        frame_size: size,
        last_ffc_time: f.last_ffc_time,
        last_ffc_temp_c: None,
        frame_temp_c: None,
        is_background_frame: f.is_background_frame,
    }
}

#[verifier::spinoff_prover]
proof fn lemma_fields_read_back(s: Seq<u8>, start: int, f: CptvFrame, w: u8, size: u32)
    requires
        0 <= start,
        start + frame_fields_bytes(f, w, size).len() <= s.len(),
        s.subrange(start, start + frame_fields_bytes(f, w, size).len()) == frame_fields_bytes(
            f,
            w,
            size,
        ),
    ensures
        frame_fields(s, start, frame_field_count(f)) == Step::Done(
            written_meta(f, w, size),
            start + frame_fields_bytes(f, w, size).len(),
        ),
{
    let f1 = field_bytes(102, u32_le(size));
    let f2 = field_bytes(119, seq![w]);
    let f3 = field_bytes(116, u32_le(f.time_on));
    let o4 = opt_field(99, opt_u32(f.last_ffc_time));
    let o5 = opt_field(103, if f.is_background_frame { Some(seq![1u8]) } else { None });
    let all = frame_fields_bytes(f, w, size);
    assert(all == f1 + f2 + f3 + o4 + o5);
    lemma_split(s, start, f1 + f2 + f3 + o4, o5);
    lemma_split(s, start, f1 + f2 + f3, o4);
    lemma_split(s, start, f1 + f2, f3);
    lemma_split(s, start, f1, f2);
    lemma_u32_le_round_trip(size);
    lemma_u32_le_round_trip(f.time_on);
    let m0 = default_meta();
    assert(frame_fields(s, start, 0) == Step::Done(m0, start));
    let m1 = FrameMeta { frame_size: size, ..m0 };
    lemma_field_step(s, start, 0, m0, start, 102, u32_le(size));
    let p1 = start + f1.len();
    let m2 = FrameMeta { bit_width: w, ..m1 };
    lemma_field_step(s, start, 1, m1, p1, 119, seq![w]);
    let p2 = p1 + f2.len();
    let m3 = FrameMeta { time_on: f.time_on, ..m2 };
    lemma_field_step(s, start, 2, m2, p2, 116, u32_le(f.time_on));
    let p3 = p2 + f3.len();
    let k3: nat = 3;
    let (m4, p4, k4) = match f.last_ffc_time {
        Some(c) => {
            lemma_u32_le_round_trip(c);
            lemma_field_step(s, start, k3, m3, p3, 99, u32_le(c));
            (FrameMeta { last_ffc_time: Some(c), ..m3 }, p3 + o4.len(), 4nat)
        },
        None => {
            (m3, p3, 3nat)
        },
    };
    assert(frame_fields(s, start, k4) == Step::Done(m4, p4));
    if f.is_background_frame {
        lemma_field_step(s, start, k4, m4, p4, 103, seq![1u8]);
        assert(frame_fields(s, start, k4 + 1) == Step::Done(
            FrameMeta { is_background_frame: true, ..m4 },
            p4 + o5.len(),
        ));
    }
}

/// A frame record written by the encoder for `f` on the previous frame
/// `prev` reads back as `f`: the same pixels, time, calibration time and
/// background flag, for every frame whose residuals after the first fit in
/// 16 signed bits.
#[verifier::spinoff_prover]
pub proof fn lemma_frame_round_trip(
    s: Seq<u8>,
    start: int,
    f: CptvFrame,
    prev: Option<Seq<u16>>,
    w: nat,
    h: nat,
    d: Seq<i32>,
)
    requires
        0 <= start,
        w > 0,
        h > 0,
        f.image_data@.pixels.len() == w * h,
        prev matches Some(p) ==> p.len() == w * h,
        residuals_fit(prev, f.image_data@.pixels, w as int),
        d.len() == w * h,
        forall|i: int| 0 <= i < w * h ==> #[trigger] d[i] as int == residual(
            prev,
            f.image_data@.pixels,
            w as int,
            i,
        ),
        4 + packed_len((w * h - 1) as nat, 16) <= u32::MAX,
        ({
            let bw = frame_width(
                residuals_spec(prev, f.image_data@.pixels, w as int, w * h),
                (w * h) as int,
            );
            let rec = frame_record_bytes(f, d, bw);
            &&& start + rec.len() <= s.len()
            &&& s.subrange(start, start + rec.len()) == rec
        }),
    ensures
        ({
            let bw = frame_width(
                residuals_spec(prev, f.image_data@.pixels, w as int, w * h),
                (w * h) as int,
            );
            let rec = frame_record_bytes(f, d, bw);
            let size = payload_bytes(d, bw).len() as u32;
            frame_spec(s, start, w, h, prev) == Step::Done(
                (written_meta(f, bw, size), f.image_data@.pixels),
                start + rec.len(),
            )
        }),
{
    let px = f.image_data@.pixels;
    let n = w * h;
    let rs = residuals_spec(prev, px, w as int, n);
    let bw = frame_width(rs, n as int);
    let pay = payload_bytes(d, bw);
    let size = pay.len() as u32;
    let fields = frame_fields_bytes(f, bw, size);
    let rec = frame_record_bytes(f, d, bw);
    let head = seq![70u8, frame_field_count(f) as u8];
    assert(n >= 1) by (nonlinear_arith)
        requires
            w > 0,
            h > 0,
            n == w * h,
    ;
    assert(pay.len() == 4 + packed_len((n - 1) as nat, bw));
    assert(rec == head + fields + pay);
    lemma_split(s, start, head + fields, pay);
    lemma_split(s, start, head, fields);
    assert(s[start] == 70);
    assert(s[start + 1] == frame_field_count(f) as u8);
    assert(s.subrange(start + 2, start + 2 + fields.len()) == fields);
    lemma_fields_read_back(s, start + 2, f, bw, size);
    let p = start + 2 + fields.len();
    let m = written_meta(f, bw, size);
    // The payload: the first residual, then the packed rest.
    let first = u32_le(twos32(d[0]));
    let tail = pack_spec(d.skip(1), bw);
    assert(pay == first + tail);
    lemma_split(s, p, first, tail);
    lemma_u32_le_round_trip(twos32(d[0]));
    assert(le_u32_at(s, p) == le_u32_at(first, 0)) by {
        assert(s.subrange(p, p + 4) == first);
        assert(s[p] == first[0]);
        assert(s[p + 1] == first[1]);
        assert(s[p + 2] == first[2]);
        assert(s[p + 3] == first[3]);
    }
    lemma_twos32_round_trip(d[0]);
    assert(s.subrange(p + 4, p + size) == tail);
    lemma_payload_round_trip(prev, px, w as int, h as int, d);
    lemma_residuals_reproduce(prev, px, w as int, h as int);
    let got = payload_residuals(signed32(le_u32_at(s, p)), s.subrange(p + 4, p + size), bw, n);
    assert(got == rs);
    assert(payload_pixels(s, p, m, w, h, prev) =~= px) by {
        assert forall|q: int| 0 <= q < n implies #[trigger] payload_pixels(s, p, m, w, h, prev)[q]
            == px[q] by {
            assert(decoded_value(prev, rs, w as int, q) == px[q] as int);
        }
    }
    assert(frame_payload_spec(s, p, m, w, h, prev) == Step::Done((m, px), p + size));
}

/// The residuals the encoder writes for pixels `px` on `prev`.
pub open spec fn encoded_residuals(prev: Option<Seq<u16>>, px: Seq<u16>, w: nat) -> Seq<i32> {
    Seq::new(px.len(), |i: int| residual(prev, px, w as int, i) as i32)
}

/// The width the encoder packs `px` on `prev` at.
pub open spec fn encoded_width(prev: Option<Seq<u16>>, px: Seq<u16>, w: nat) -> u8 {
    frame_width(residuals_spec(prev, px, w as int, px.len()), px.len() as int)
}

/// The record the encoder writes for `f` on the previous pixels `prev`.
pub open spec fn encoded_record(f: CptvFrame, prev: Option<Seq<u16>>, w: nat) -> Seq<u8> {
    let px = f.image_data@.pixels;
    frame_record_bytes(f, encoded_residuals(prev, px, w), encoded_width(prev, px, w))
}

/// The previous pixels for frame `i` of `fs`.
pub open spec fn prev_of(fs: Seq<CptvFrame>, i: int) -> Option<Seq<u16>> {
    if i == 0 { None } else { Some(fs[i - 1].image_data@.pixels) }
}

/// A header's bytes followed by the records of the first `k` frames of `fs`.
pub open spec fn clip_bytes(head: Seq<u8>, fs: Seq<CptvFrame>, w: nat, k: nat) -> Seq<u8>
    decreases k,
{
    if k == 0 {
        head
    } else {
        clip_bytes(head, fs, w, (k - 1) as nat) + encoded_record(
            fs[k - 1],
            prev_of(fs, k - 1),
            w,
        )
    }
}

/// What the first `k` frames of `fs` read back as.
pub open spec fn read_back(fs: Seq<CptvFrame>, w: nat, k: nat) -> Seq<FrameRecord> {
    Seq::new(
        k,
        |i: int| {
            let px = fs[i].image_data@.pixels;
            let bw = encoded_width(prev_of(fs, i), px, w);
            let size = payload_bytes(encoded_residuals(prev_of(fs, i), px, w), bw).len() as u32;
            (written_meta(fs[i], bw, size), px)
        },
    )
}

/// Whether `fs` can be written as a clip of `w` × `h` pixels: every frame
/// has that many pixels, only the first may be a background frame, and every
/// residual after the first of each frame fits in 16 signed bits.
pub open spec fn encodable(fs: Seq<CptvFrame>, w: nat, h: nat) -> bool {
    &&& w > 0
    &&& h > 0
    &&& 4 + packed_len((w * h - 1) as nat, 16) <= u32::MAX
    &&& forall|i: int| 0 <= i < fs.len() ==> (#[trigger] fs[i]).image_data@.pixels.len() == w * h
    &&& forall|i: int| 0 < i < fs.len() ==> !(#[trigger] fs[i]).is_background_frame
    &&& forall|i: int|
        0 <= i < fs.len() ==> residuals_fit(
            #[trigger] prev_of(fs, i),
            fs[i].image_data@.pixels,
            w as int,
        )
}

/// A clip written by the encoder decodes to the frames it was written from:
/// for every header that reads as `w` × `h` and every sequence of frames
/// whose residuals fit in 16 bits, the decoded pixels equal the originals,
/// frame for frame, and so do their time, calibration time and background
/// flag.
#[verifier::spinoff_prover]
pub proof fn lemma_clip_round_trip(head: Seq<u8>, hv: HeaderView, fs: Seq<CptvFrame>, k: nat)
    requires
        clip_header_spec(head) == Step::Done(hv, head.len() as int),
        encodable(fs, hv.width as nat, hv.height as nat),
        k <= fs.len(),
    ensures
        stream_spec(clip_bytes(head, fs, hv.width as nat, k), k) == Step::Done(
            (hv, read_back(fs, hv.width as nat, k)),
            clip_bytes(head, fs, hv.width as nat, k).len() as int,
        ),
    decreases k,
{
    let w = hv.width as nat;
    let h = hv.height as nat;
    if k == 0 {
        assert(read_back(fs, w, 0) =~= Seq::<FrameRecord>::empty());
    } else {
        let j = (k - 1) as nat;
        lemma_clip_round_trip(head, hv, fs, j);
        let s = clip_bytes(head, fs, w, j);
        let f = fs[j as int];
        let prev = prev_of(fs, j as int);
        let px = f.image_data@.pixels;
        let d = encoded_residuals(prev, px, w);
        let rec = encoded_record(f, prev, w);
        let s2 = s + rec;
        assert(clip_bytes(head, fs, w, k) == s2);
        lemma_stream_prefix_stable(s, rec, j);
        let fsj = read_back(fs, w, j);
        assert(last_pixels(fsj) == prev) by {
            if j > 0 {
                assert(fsj.last().1 == fs[j - 1].image_data@.pixels);
            }
        }
        lemma_stream_next(s2, j, hv, fsj, s.len() as int);
        assert(s2.subrange(s.len() as int, (s.len() + rec.len()) as int) =~= rec);
        assert(prev matches Some(q) ==> q.len() == w * h) by {
            if j > 0 {
                assert(fs[j - 1].image_data@.pixels.len() == w * h);
            }
        }
        assert(residuals_fit(prev_of(fs, j as int), px, w as int));
        assert(px.len() == w * h);
        lemma_frame_round_trip(s2, s.len() as int, f, prev, w, h, d);
        assert(read_back(fs, w, k) =~= fsj.push(read_back(fs, w, k)[j as int]));
    }
}

/// Reading back the little-endian bytes of a `u64` gives the `u64`.
pub proof fn lemma_u64_le_round_trip(v: u64)
    ensures
        le_u64_at(u64_le(v), 0) == v,
{
    let lo = (v % 4294967296) as u32;
    let hi = (v / 4294967296) as u32;
    let b = u64_le(v);
    lemma_u32_le_round_trip(lo);
    lemma_u32_le_round_trip(hi);
    assert(le_u32_at(b, 0) == le_u32_at(u32_le(lo), 0));
    assert(le_u32_at(b, 4) == le_u32_at(u32_le(hi), 0));
    vstd::arithmetic::div_mod::lemma_fundamental_div_mod(v as int, 4294967296);
}

/// The text in the UTF-8 bytes of `t` is `t`.
pub proof fn lemma_text_round_trip(t: Seq<char>)
    ensures
        text_of(encode_utf8(t)) == t,
{
    encode_utf8_valid_utf8(t);
    encode_utf8_decode_utf8(t);
}

/// One more header field read from bytes that hold it.
proof fn lemma_header_step(s: Seq<u8>, start: int, k: nat, h: HeaderView, p: int, code: u8, v: Seq<u8>)
    requires
        0 <= p,
        v.len() <= 255,
        p + 2 + v.len() <= s.len(),
        header_fields(s, start, k) == Step::Done(h, p),
        s.subrange(p, p + 2 + v.len()) == field_bytes(code, v),
        apply_header_field(h, code, v) is Ok,
    ensures
        header_fields(s, start, k + 1) == Step::Done(
            apply_header_field(h, code, v)->Ok_0,
            p + 2 + v.len(),
        ),
{
    let fb = field_bytes(code, v);
    assert(s[p] == fb[0]);
    assert(s[p + 1] == fb[1]);
    assert(s.subrange(p + 2, p + 2 + v.len()) =~= v) by {
        assert forall|i: int| 0 <= i < v.len() implies #[trigger] s.subrange(
            p + 2,
            p + 2 + v.len(),
        )[i] == v[i] by {
            assert(s[p + 2 + i] == fb[2 + i]);
        }
    }
    assert(next_field(s, p) == Step::Done((code, p + 2), p + 2 + v.len()));
    assert(((k + 1) - 1) as nat == k);
}

/// An optional header field read back, or nothing when it is absent; what
/// follows it stands right after.
proof fn lemma_opt_chain(
    s: Seq<u8>,
    start: int,
    k: nat,
    h: HeaderView,
    p: int,
    code: u8,
    ov: Option<Seq<u8>>,
    h2: HeaderView,
    rest: Seq<u8>,
) -> (r: nat)
    requires
        0 <= p,
        p + opt_field(code, ov).len() + rest.len() <= s.len(),
        s.subrange(p, p + opt_field(code, ov).len() + rest.len()) == opt_field(code, ov) + rest,
        header_fields(s, start, k) == Step::Done(h, p),
        match ov {
            Some(v) => v.len() <= 255 && apply_header_field(h, code, v) == Ok::<
                HeaderView,
                crate::fields::CptvError,
            >(h2),
            None => h2 == h,
        },
    ensures
        header_fields(s, start, r) == Step::Done(h2, p + opt_field(code, ov).len()),
        r == k + if ov is Some { 1nat } else { 0nat },
        s.subrange(
            p + opt_field(code, ov).len(),
            p + opt_field(code, ov).len() + rest.len(),
        ) == rest,
{
    lemma_split(s, p, opt_field(code, ov), rest);
    match ov {
        Some(v) => {
            lemma_header_step(s, start, k, h, p, code, v);
            k + 1
        },
        None => k,
    }
}

proof fn lemma_apply_text(h: HeaderView, code: u8, t: Option<String>)
    requires
        code == 66 || code == 69 || code == 86 || code == 77,
    ensures
        t matches Some(x) ==> apply_header_field(h, code, encode_utf8(x@)) == Ok::<
            HeaderView,
            crate::fields::CptvError,
        >(
            if code == 66 {
                HeaderView { brand: Some(x@), ..h }
            } else if code == 69 {
                HeaderView { model: Some(x@), ..h }
            } else if code == 86 {
                HeaderView { firmware_version: Some(x@), ..h }
            } else {
                HeaderView { motion_config: Some(x@), ..h }
            },
        ),
{
    if let Some(x) = t {
        lemma_text_round_trip(x@);
    }
}

#[verifier::spinoff_prover]
proof fn lemma_required_read_back(s: Seq<u8>, start: int, hd: Cptv2Header) -> (r: HeaderView)
    requires
        0 <= start,
        encode_utf8(hd.device_name@).len() <= 255,
        start + header_required_bytes(hd).len() <= s.len(),
        s.subrange(start, start + header_required_bytes(hd).len()) == header_required_bytes(hd),
    ensures
        header_fields(s, start, 6) == Step::Done(r, start + header_required_bytes(hd).len()),
        r == (HeaderView {
            timestamp: hd.timestamp,
            width: hd.width,
            height: hd.height,
            compression: hd.compression,
            fps: hd.fps,
            device_name: hd.device_name@,
            ..default_header()
        }),
{
    let f1 = field_bytes(84, u64_le(hd.timestamp));
    let f2 = field_bytes(88, u32_le(hd.width));
    let f3 = field_bytes(89, u32_le(hd.height));
    let f4 = field_bytes(67, seq![hd.compression]);
    let f5 = field_bytes(90, seq![hd.fps]);
    let f6 = field_bytes(68, encode_utf8(hd.device_name@));
    lemma_split(s, start, f1 + f2 + f3 + f4 + f5, f6);
    lemma_split(s, start, f1 + f2 + f3 + f4, f5);
    lemma_split(s, start, f1 + f2 + f3, f4);
    lemma_split(s, start, f1 + f2, f3);
    lemma_split(s, start, f1, f2);
    lemma_u64_le_round_trip(hd.timestamp);
    lemma_u32_le_round_trip(hd.width);
    lemma_u32_le_round_trip(hd.height);
    lemma_text_round_trip(hd.device_name@);
    let h0 = default_header();
    let h1 = HeaderView { timestamp: hd.timestamp, ..h0 };
    lemma_header_step(s, start, 0, h0, start, 84, u64_le(hd.timestamp));
    let p1 = start + f1.len();
    let h2 = HeaderView { width: hd.width, ..h1 };
    lemma_header_step(s, start, 1, h1, p1, 88, u32_le(hd.width));
    let p2 = p1 + f2.len();
    let h3 = HeaderView { height: hd.height, ..h2 };
    lemma_header_step(s, start, 2, h2, p2, 89, u32_le(hd.height));
    let p3 = p2 + f3.len();
    let h4 = HeaderView { compression: hd.compression, ..h3 };
    lemma_header_step(s, start, 3, h3, p3, 67, seq![hd.compression]);
    let p4 = p3 + f4.len();
    let h5 = HeaderView { fps: hd.fps, ..h4 };
    lemma_header_step(s, start, 4, h4, p4, 90, seq![hd.fps]);
    let p5 = p4 + f5.len();
    let h6 = HeaderView { device_name: hd.device_name@, ..h5 };
    lemma_header_step(s, start, 5, h5, p5, 68, encode_utf8(hd.device_name@));
    h6
}

/// The first three optional device fields a header writes, when present.
pub open spec fn device_a_bytes(hd: Cptv2Header) -> Seq<u8> {
    opt_field(66, opt_text_bytes(hd.brand)) + opt_field(69, opt_text_bytes(hd.model)) + opt_field(
        73,
        opt_u32(hd.device_id),
    )
}

/// The last three optional device fields a header writes, when present.
pub open spec fn device_b_bytes(hd: Cptv2Header) -> Seq<u8> {
    opt_field(78, opt_u32(hd.serial_number)) + opt_field(86, opt_text_bytes(hd.firmware_version))
        + opt_field(77, opt_text_bytes(hd.motion_config))
}

#[verifier::rlimit(100)]
#[verifier::spinoff_prover]
proof fn lemma_device_a_read_back(
    s: Seq<u8>,
    start: int,
    k: nat,
    h: HeaderView,
    p: int,
    hd: Cptv2Header,
    rest: Seq<u8>,
) -> (r: (HeaderView, nat))
    requires
        0 <= p,
        header_texts_fit(hd),
        p + device_a_bytes(hd).len() + rest.len() <= s.len(),
        s.subrange(p, p + device_a_bytes(hd).len() + rest.len()) == device_a_bytes(hd) + rest,
        header_fields(s, start, k) == Step::Done(h, p),
        h.brand is None,
        h.model is None,
        h.device_id is None,
    ensures
        header_fields(s, start, r.1) == Step::Done(r.0, p + device_a_bytes(hd).len()),
        r.1 == k + (if hd.brand is Some { 1nat } else { 0 }) + (if hd.model is Some {
            1nat
        } else { 0 }) + (if hd.device_id is Some { 1nat } else { 0 }),
        s.subrange(p + device_a_bytes(hd).len(), p + device_a_bytes(hd).len() + rest.len())
            == rest,
        r.0 == (HeaderView {
            brand: crate::header::opt_text(hd.brand),
            model: crate::header::opt_text(hd.model),
            device_id: hd.device_id,
            ..h
        }),
{
    let o1 = opt_field(66, opt_text_bytes(hd.brand));
    let o2 = opt_field(69, opt_text_bytes(hd.model));
    let o3 = opt_field(73, opt_u32(hd.device_id));
    assert(device_a_bytes(hd) + rest =~= o1 + (o2 + (o3 + rest)));
    let h1 = HeaderView { brand: crate::header::opt_text(hd.brand), ..h };
    let h2 = HeaderView { model: crate::header::opt_text(hd.model), ..h1 };
    let h3 = HeaderView { device_id: hd.device_id, ..h2 };
    lemma_apply_text(h, 66, hd.brand);
    lemma_apply_text(h1, 69, hd.model);
    if let Some(v) = hd.device_id { lemma_u32_le_round_trip(v); }
    let p1 = p + o1.len();
    let p2 = p1 + o2.len();
    let k1 = lemma_opt_chain(s, start, k, h, p, 66, opt_text_bytes(hd.brand), h1, o2 + (o3 + rest));
    let k2 = lemma_opt_chain(s, start, k1, h1, p1, 69, opt_text_bytes(hd.model), h2, o3 + rest);
    let k3 = lemma_opt_chain(s, start, k2, h2, p2, 73, opt_u32(hd.device_id), h3, rest);
    (h3, k3)
}

#[verifier::rlimit(100)]
#[verifier::spinoff_prover]
proof fn lemma_device_b_read_back(
    s: Seq<u8>,
    start: int,
    k: nat,
    h: HeaderView,
    p: int,
    hd: Cptv2Header,
    rest: Seq<u8>,
) -> (r: (HeaderView, nat))
    requires
        0 <= p,
        header_texts_fit(hd),
        p + device_b_bytes(hd).len() + rest.len() <= s.len(),
        s.subrange(p, p + device_b_bytes(hd).len() + rest.len()) == device_b_bytes(hd) + rest,
        header_fields(s, start, k) == Step::Done(h, p),
        h.serial_number is None,
        h.firmware_version is None,
        h.motion_config is None,
    ensures
        header_fields(s, start, r.1) == Step::Done(r.0, p + device_b_bytes(hd).len()),
        r.1 == k + (if hd.serial_number is Some { 1nat } else { 0 }) + (
        if hd.firmware_version is Some { 1nat } else { 0 }) + (if hd.motion_config is Some {
            1nat
        } else { 0 }),
        s.subrange(p + device_b_bytes(hd).len(), p + device_b_bytes(hd).len() + rest.len())
            == rest,
        r.0 == (HeaderView {
            serial_number: hd.serial_number,
            firmware_version: crate::header::opt_text(hd.firmware_version),
            motion_config: crate::header::opt_text(hd.motion_config),
            ..h
        }),
{
    let o4 = opt_field(78, opt_u32(hd.serial_number));
    let o5 = opt_field(86, opt_text_bytes(hd.firmware_version));
    let o6 = opt_field(77, opt_text_bytes(hd.motion_config));
    assert(device_b_bytes(hd) + rest =~= o4 + (o5 + (o6 + rest)));
    let h4 = HeaderView { serial_number: hd.serial_number, ..h };
    let h5 = HeaderView { firmware_version: crate::header::opt_text(hd.firmware_version), ..h4 };
    let h6 = HeaderView { motion_config: crate::header::opt_text(hd.motion_config), ..h5 };
    lemma_apply_text(h4, 86, hd.firmware_version);
    lemma_apply_text(h5, 77, hd.motion_config);
    if let Some(v) = hd.serial_number { lemma_u32_le_round_trip(v); }
    let p4 = p + o4.len();
    let p5 = p4 + o5.len();
    let k4 = lemma_opt_chain(s, start, k, h, p, 78, opt_u32(hd.serial_number), h4, o5 + (o6 + rest));
    let k5 = lemma_opt_chain(s, start, k4, h4, p4, 86, opt_text_bytes(hd.firmware_version), h5, o6 + rest);
    let k6 = lemma_opt_chain(s, start, k5, h5, p5, 77, opt_text_bytes(hd.motion_config), h6, rest);
    (h6, k6)
}

/// The location fields a header writes, when present.
pub open spec fn location_bytes(hd: Cptv2Header) -> Seq<u8> {
    opt_field(80, opt_u8(hd.preview_secs)) + opt_field(76, opt_u32(hd.latitude)) + opt_field(
        79,
        opt_u32(hd.longitude),
    ) + opt_field(83, opt_u64(hd.loc_timestamp))
}

/// The remaining recording fields a header writes, when present.
pub open spec fn extra_bytes(hd: Cptv2Header) -> Seq<u8> {
    opt_field(65, opt_u32(hd.altitude)) + opt_field(85, opt_u32(hd.accuracy)) + opt_field(
        103,
        if hd.has_background_frame { Some(seq![1u8]) } else { None },
    )
}

#[verifier::rlimit(100)]
#[verifier::spinoff_prover]
proof fn lemma_location_read_back(
    s: Seq<u8>,
    start: int,
    k: nat,
    h: HeaderView,
    p: int,
    hd: Cptv2Header,
    rest: Seq<u8>,
) -> (r: (HeaderView, nat))
    requires
        0 <= p,
        p + location_bytes(hd).len() + rest.len() <= s.len(),
        s.subrange(p, p + location_bytes(hd).len() + rest.len()) == location_bytes(hd) + rest,
        header_fields(s, start, k) == Step::Done(h, p),
        h.preview_secs is None,
        h.latitude is None,
        h.longitude is None,
        h.loc_timestamp is None,
    ensures
        header_fields(s, start, r.1) == Step::Done(r.0, p + location_bytes(hd).len()),
        r.1 == k + (if hd.preview_secs is Some { 1nat } else { 0 }) + (if hd.latitude is Some {
            1nat
        } else { 0 }) + (if hd.longitude is Some { 1nat } else { 0 }) + (
        if hd.loc_timestamp is Some { 1nat } else { 0 }),
        s.subrange(p + location_bytes(hd).len(), p + location_bytes(hd).len() + rest.len())
            == rest,
        r.0 == (HeaderView {
            preview_secs: hd.preview_secs,
            latitude: hd.latitude,
            longitude: hd.longitude,
            loc_timestamp: hd.loc_timestamp,
            ..h
        }),
{
    let o1 = opt_field(80, opt_u8(hd.preview_secs));
    let o2 = opt_field(76, opt_u32(hd.latitude));
    let o3 = opt_field(79, opt_u32(hd.longitude));
    let o4 = opt_field(83, opt_u64(hd.loc_timestamp));
    assert(location_bytes(hd) + rest =~= o1 + (o2 + (o3 + (o4 + rest))));
    if let Some(v) = hd.latitude { lemma_u32_le_round_trip(v); }
    if let Some(v) = hd.longitude { lemma_u32_le_round_trip(v); }
    if let Some(v) = hd.loc_timestamp { lemma_u64_le_round_trip(v); }
    let h1 = HeaderView { preview_secs: hd.preview_secs, ..h };
    let h2 = HeaderView { latitude: hd.latitude, ..h1 };
    let h3 = HeaderView { longitude: hd.longitude, ..h2 };
    let h4 = HeaderView { loc_timestamp: hd.loc_timestamp, ..h3 };
    let p1 = p + o1.len();
    let p2 = p1 + o2.len();
    let p3 = p2 + o3.len();
    let k1 = lemma_opt_chain(s, start, k, h, p, 80, opt_u8(hd.preview_secs), h1, o2 + (o3 + (o4 + rest)));
    let k2 = lemma_opt_chain(s, start, k1, h1, p1, 76, opt_u32(hd.latitude), h2, o3 + (o4 + rest));
    let k3 = lemma_opt_chain(s, start, k2, h2, p2, 79, opt_u32(hd.longitude), h3, o4 + rest);
    let k4 = lemma_opt_chain(s, start, k3, h3, p3, 83, opt_u64(hd.loc_timestamp), h4, rest);
    (h4, k4)
}

#[verifier::rlimit(100)]
#[verifier::spinoff_prover]
proof fn lemma_extra_read_back(
    s: Seq<u8>,
    start: int,
    k: nat,
    h: HeaderView,
    p: int,
    hd: Cptv2Header,
) -> (r: (HeaderView, nat))
    requires
        0 <= p,
        p + extra_bytes(hd).len() <= s.len(),
        s.subrange(p, p + extra_bytes(hd).len()) == extra_bytes(hd),
        header_fields(s, start, k) == Step::Done(h, p),
        h.altitude is None,
        h.accuracy is None,
        !h.has_background_frame,
    ensures
        header_fields(s, start, r.1) == Step::Done(r.0, p + extra_bytes(hd).len()),
        r.1 == k + (if hd.altitude is Some { 1nat } else { 0 }) + (if hd.accuracy is Some {
            1nat
        } else { 0 }) + (if hd.has_background_frame { 1nat } else { 0 }),
        r.0 == (HeaderView {
            altitude: hd.altitude,
            accuracy: hd.accuracy,
            has_background_frame: hd.has_background_frame,
            ..h
        }),
{
    let bg: Option<Seq<u8>> = if hd.has_background_frame { Some(seq![1u8]) } else { None };
    let o5 = opt_field(65, opt_u32(hd.altitude));
    let o6 = opt_field(85, opt_u32(hd.accuracy));
    let o7 = opt_field(103, bg);
    let e = Seq::<u8>::empty();
    assert(extra_bytes(hd) =~= o5 + (o6 + (o7 + e)));
    if let Some(v) = hd.altitude { lemma_u32_le_round_trip(v); }
    if let Some(v) = hd.accuracy { lemma_u32_le_round_trip(v); }
    let h5 = HeaderView { altitude: hd.altitude, ..h };
    let h6 = HeaderView { accuracy: hd.accuracy, ..h5 };
    let h7 = HeaderView { has_background_frame: hd.has_background_frame, ..h6 };
    let p5 = p + o5.len();
    let p6 = p5 + o6.len();
    let k5 = lemma_opt_chain(s, start, k, h, p, 65, opt_u32(hd.altitude), h5, o6 + (o7 + e));
    let k6 = lemma_opt_chain(s, start, k5, h5, p5, 85, opt_u32(hd.accuracy), h6, o7 + e);
    let k7 = lemma_opt_chain(s, start, k6, h6, p6, 103, bg, h7, e);
    (h7, k7)
}

proof fn lemma_header_layout(hd: Cptv2Header)
    ensures
        header_bytes(hd) == seq![67u8, 80u8, 84u8, 86u8, 2u8, 72u8, header_field_count(hd) as u8] + (
        header_required_bytes(hd) + (header_device_bytes(hd) + (location_bytes(hd) + extra_bytes(
            hd,
        )))),
{
    assert(header_recording_bytes(hd) =~= location_bytes(hd) + extra_bytes(hd));
    assert(header_bytes(hd) =~= seq![67u8, 80u8, 84u8, 86u8, 2u8, 72u8, header_field_count(hd) as u8]
        + (header_required_bytes(hd) + (header_device_bytes(hd) + (location_bytes(hd)
        + extra_bytes(hd)))));
}

proof fn lemma_fields_layout(hd: Cptv2Header)
    ensures
        header_required_bytes(hd) + (header_device_bytes(hd) + (location_bytes(hd) + extra_bytes(
            hd,
        ))) == header_required_bytes(hd) + (device_a_bytes(hd) + (device_b_bytes(hd) + (
        location_bytes(hd) + extra_bytes(hd)))),
        header_device_bytes(hd) == device_a_bytes(hd) + device_b_bytes(hd),
        header_fields_bytes(hd).len() == header_required_bytes(hd).len() + device_a_bytes(hd).len()
            + device_b_bytes(hd).len() + location_bytes(hd).len() + extra_bytes(hd).len(),
{
    assert(header_device_bytes(hd) =~= device_a_bytes(hd) + device_b_bytes(hd));
    assert(header_recording_bytes(hd) =~= location_bytes(hd) + extra_bytes(hd));
    assert(header_device_bytes(hd) + (location_bytes(hd) + extra_bytes(hd)) =~= device_a_bytes(hd)
        + (device_b_bytes(hd) + (location_bytes(hd) + extra_bytes(hd))));
}

/// The fields of a header the encoder wrote read back as that header.
#[verifier::spinoff_prover]
#[verifier::rlimit(100)]
proof fn lemma_header_fields_read_back(s: Seq<u8>, hd: Cptv2Header)
    requires
        header_texts_fit(hd),
        s.len() == 7 + header_fields_bytes(hd).len(),
        s.subrange(7, s.len() as int) == header_required_bytes(hd) + (header_device_bytes(hd) + (
        location_bytes(hd) + extra_bytes(hd))),
    ensures
        header_fields(s, 7, header_field_count(hd)) == Step::Done(hd@, s.len() as int),
{
    let req = header_required_bytes(hd);
    let da = device_a_bytes(hd);
    let db = device_b_bytes(hd);
    let loc = location_bytes(hd);
    let ext = extra_bytes(hd);
    lemma_fields_layout(hd);
    lemma_split(s, 7, req, da + (db + (loc + ext)));
    let p1 = 7 + req.len() as int;
    let h6 = lemma_required_read_back(s, 7, hd);
    let (h9, k9) = lemma_device_a_read_back(s, 7, 6, h6, p1, hd, db + (loc + ext));
    let p2 = p1 + da.len() as int;
    let (h12, k12) = lemma_device_b_read_back(s, 7, k9, h9, p2, hd, loc + ext);
    let p3 = p2 + db.len() as int;
    let (h16, k16) = lemma_location_read_back(s, 7, k12, h12, p3, hd, ext);
    let p4 = p3 + loc.len() as int;
    let (h19, k19) = lemma_extra_read_back(s, 7, k16, h16, p4, hd);
    assert(h19 == hd@);
}

proof fn lemma_field_count_bound(hd: Cptv2Header)
    ensures
        crate::encoder::device_field_count(hd) <= 6,
        crate::encoder::recording_field_count(hd) <= 7,
        header_field_count(hd) <= 19,
{
}

#[verifier::rlimit(100)]
#[verifier::spinoff_prover]
proof fn lemma_clip_header_read_back(s: Seq<u8>, hd: Cptv2Header)
    requires
        header_texts_fit(hd),
        s == seq![67u8, 80u8, 84u8, 86u8, 2u8, 72u8, header_field_count(hd) as u8] + (
        header_required_bytes(hd) + (header_device_bytes(hd) + (location_bytes(hd) + extra_bytes(
            hd,
        )))),
    ensures
        clip_header_spec(s) == Step::Done(hd@, s.len() as int),
{
    let head = seq![67u8, 80u8, 84u8, 86u8, 2u8, 72u8, header_field_count(hd) as u8];
    let rest = header_required_bytes(hd) + (header_device_bytes(hd) + (location_bytes(hd)
        + extra_bytes(hd)));
    lemma_field_count_bound(hd);
    assert(s.subrange(0, s.len() as int) =~= s);
    lemma_split(s, 0, head, rest);
    assert(header_fields_bytes(hd).len() == rest.len()) by {
        assert(header_recording_bytes(hd) =~= location_bytes(hd) + extra_bytes(hd));
    }
    lemma_header_fields_read_back(s, hd);
    assert(s[0] == 67 && s[1] == 80 && s[2] == 84 && s[3] == 86 && s[4] == 2 && s[5] == 72);
    assert(s[6] as nat == header_field_count(hd));
}

/// The header the encoder writes reads back as the same header, every
/// field of it, and ends where the writing ended.
pub proof fn lemma_header_round_trip(hd: Cptv2Header)
    requires
        header_texts_fit(hd),
    ensures
        clip_header_spec(header_bytes(hd)) == Step::Done(hd@, header_bytes(hd).len() as int),
{
    lemma_header_layout(hd);
    lemma_clip_header_read_back(header_bytes(hd), hd);
}

/// Encoding then decoding gives the clip back: the header the encoder
/// writes, followed by the records it writes for a sequence of frames (each
/// on the one before it), decodes to that header and to those frames' pixels,
/// times, calibration times and background flags, frame for frame, for every
/// clip whose texts fit their fields and whose residuals after the first of
/// each frame fit in 16 signed bits.
pub proof fn lemma_encode_decode(hd: Cptv2Header, fs: Seq<CptvFrame>)
    requires
        header_texts_fit(hd),
        encodable(fs, hd.width as nat, hd.height as nat),
    ensures
        stream_spec(clip_bytes(header_bytes(hd), fs, hd.width as nat, fs.len()), fs.len())
            == Step::Done(
            (hd@, read_back(fs, hd.width as nat, fs.len())),
            clip_bytes(header_bytes(hd), fs, hd.width as nat, fs.len()).len() as int,
        ),
{
    lemma_header_round_trip(hd);
    lemma_clip_round_trip(header_bytes(hd), hd@, fs, fs.len());
}

} // verus!
