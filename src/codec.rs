//! Second-order predictive coding of a frame along the snaking scan: the
//! difference from the previous frame, then the difference along the scan.
use vstd::prelude::*;
use crate::bits::{BitUnpacker, fits_width, packed_len, valid_width};
use crate::frame::{FrameData, lemma_snake_pos, snake_offset, snake_pos};

verus! {

/// Pixel `p` of the previous frame, or zero when there is none.
pub open spec fn prev_at(prev: Option<Seq<u16>>, p: int) -> int {
    match prev {
        Some(s) => s[p] as int,
        None => 0,
    }
}

/// The pixels of an optional previous frame given as a slice.
pub open spec fn slice_pixels(prev: Option<&[u16]>) -> Option<Seq<u16>> {
    match prev {
        Some(p) => Some(p@),
        None => None,
    }
}

/// The pixels of an optional previous frame.
pub open spec fn frame_pixels(prev: Option<&FrameData>) -> Option<Seq<u16>> {
    match prev {
        Some(p) => Some(p@.pixels),
        None => None,
    }
}

/// Difference between the frames at scan index `i`.
pub open spec fn frame_delta(prev: Option<Seq<u16>>, curr: Seq<u16>, w: int, i: int) -> int {
    curr[snake_pos(i, w)] as int - prev_at(prev, snake_pos(i, w))
}

/// Residual at scan index `i`: the change of the frame difference along the scan.
pub open spec fn residual(prev: Option<Seq<u16>>, curr: Seq<u16>, w: int, i: int) -> int {
    if i == 0 {
        frame_delta(prev, curr, w, 0)
    } else {
        frame_delta(prev, curr, w, i) - frame_delta(prev, curr, w, i - 1)
    }
}

/// The `n` residuals of `curr` against `prev`.
pub open spec fn residuals_spec(prev: Option<Seq<u16>>, curr: Seq<u16>, w: int, n: nat) -> Seq<int> {
    Seq::new(n, |i: int| residual(prev, curr, w, i))
}

/// Greatest magnitude among `r[1]` .. `r[k - 1]`; the first residual is
/// stored whole and takes no part.
pub open spec fn max_abs_tail(r: Seq<int>, k: int) -> int
    decreases k,
{
    if k <= 1 {
        0
    } else {
        let m = max_abs_tail(r, k - 1);
        let a = if r[k - 1] < 0 { -r[k - 1] } else { r[k - 1] };
        if a > m { a } else { m }
    }
}

/// The packing width for residuals of greatest magnitude `m`: the sign bit
/// and the bits of `m`, rounded up to a whole byte or two.
pub open spec fn width_for(m: int) -> u8 {
    if m <= 127 { 8 } else { 16 }
}

/// The packing width the encoder picks for the residuals `r` of a frame of
/// `n` pixels. A frame of one pixel has no residual to pack past the first,
/// which is stored whole, and is marked 16; otherwise the width follows the
/// greatest magnitude after the first.
pub open spec fn frame_width(r: Seq<int>, n: int) -> u8 {
    if n == 1 {
        16
    } else {
        width_for(max_abs_tail(r, n))
    }
}

/// Sum of `r[0]` .. `r[i]`.
pub open spec fn cum_sum(r: Seq<int>, i: int) -> int
    decreases i,
{
    if i <= 0 {
        r[0]
    } else {
        cum_sum(r, i - 1) + r[i]
    }
}

/// The pixel that decoding residuals `r` puts at grid offset `p`.
pub open spec fn decoded_value(prev: Option<Seq<u16>>, r: Seq<int>, w: int, p: int) -> int {
    prev_at(prev, p) + cum_sum(r, snake_pos(p, w))
}

/// Every pixel that decoding `r` gives lies in the 16-bit range.
pub open spec fn decodes_in_range(prev: Option<Seq<u16>>, r: Seq<int>, w: int, n: int) -> bool {
    forall|p: int| 0 <= p < n ==> 0 <= #[trigger] decoded_value(prev, r, w, p) <= 65535
}

/// The residuals read from a payload: the first stored whole, the rest
/// unpacked at `bit_width`.
pub open spec fn payload_residuals(first: i32, tail: Seq<u8>, bit_width: u8, n: nat) -> Seq<int> {
    seq![first as int] + crate::bits::unpack_spec(tail, bit_width, (n - 1) as nat)
}

/// Writes the residuals of `curr` against `prev` (or against an all-zero
/// frame) into the first `width` × `height` slots of `output`, leaving the
/// rest as they were, and returns the packing width for all but the first.
#[verifier::spinoff_prover]
pub fn delta_encode_frame_data(
    prev_frame: Option<&[u16]>,
    curr: &[u16],
    output: &mut Vec<i32>,
    width: usize,
    height: usize,
) -> (bits_per_pixel: u8)
    requires
        curr@.len() >= width * height,
        prev_frame matches Some(p) ==> p@.len() >= width * height,
        old(output)@.len() >= width * height,
    ensures
        final(output)@.len() == old(output)@.len(),
        final(output)@.subrange(width * height, old(output)@.len() as int) == old(
            output,
        )@.subrange(width * height, old(output)@.len() as int),
        forall|i: int|
            0 <= i < width * height ==> #[trigger] final(output)@[i] as int == residual(
                slice_pixels(prev_frame),
                curr@,
                width as int,
                i,
            ),
        bits_per_pixel == frame_width(
            residuals_spec(slice_pixels(prev_frame), curr@, width as int, (width * height) as nat),
            width * height,
        ),
{
    let ghost pv = slice_pixels(prev_frame);
    let ghost rs = residuals_spec(pv, curr@, width as int, (width * height) as nat);
    let len = curr.len();
    let n = width * height;
    let ghost start = output@;
    let mut max: i32 = 0;
    let mut prev_val: i32 = 0;
    let mut i: usize = 0;
    while i < n
        invariant
            len == curr@.len(),
            n <= len,
            n == width * height,
            pv == slice_pixels(prev_frame),
            rs == residuals_spec(pv, curr@, width as int, n as nat),
            prev_frame matches Some(p) ==> p@.len() >= n,
            i <= n,
            output@.len() == start.len(),
            start.len() >= n,
            forall|j: int| i <= j < start.len() ==> #[trigger] output@[j] == start[j],
            forall|j: int| 0 <= j < i ==> #[trigger] output@[j] as int == rs[j],
            i > 0 ==> prev_val as int == frame_delta(pv, curr@, width as int, i - 1),
            i == 0 ==> prev_val == 0,
            max as int == max_abs_tail(rs, i as int),
            0 <= max <= 131070,
        decreases n - i,
    {
        proof {
            assert(width > 0) by (nonlinear_arith)
                requires
                    i < width * height,
            ;
            lemma_snake_pos(i as int, width as int, height as int);
        }
        let at = snake_offset(i, width, height);
        let before: i32 = match prev_frame {
            Some(p) => p[at] as i32,
            None => 0,
        };
        let val: i32 = curr[at] as i32 - before;
        let delta: i32 = val - prev_val;
        assert(delta as int == rs[i as int]);
        output.set(i, delta);
        if i > 0 {
            let a: i32 = if delta < 0 { -delta } else { delta };
            if a > max {
                max = a;
            }
        }
        prev_val = val;
        i = i + 1;
    }
    assert(output@.subrange(n as int, start.len() as int) =~= start.subrange(n as int, start.len() as int));
    if n == 1 {
        16
    } else if max <= 127 {
        8
    } else {
        16
    }
}

/// Rebuilds a frame from its residuals: the first `first`, the remaining
/// `width` × `height` − 1 packed in `data` at `bit_width`. Each pixel is the
/// previous frame's (or zero) plus the running sum of residuals up to its
/// scan index; a pixel outside the 16-bit range fails the frame.
#[verifier::spinoff_prover]
pub fn decode_image_data(
    data: &[u8],
    first: i32,
    width: usize,
    height: usize,
    bit_width: u8,
    prev_frame: Option<&FrameData>,
) -> (r: Option<FrameData>)
    requires
        valid_width(bit_width),
        width * height > 0,
        width * height <= usize::MAX,
        packed_len((width * height - 1) as nat, bit_width) <= data@.len(),
        prev_frame matches Some(p) ==> p@.pixels.len() == width * height,
    ensures
        ({
            let pv = frame_pixels(prev_frame);
            let rs = payload_residuals(first, data@, bit_width, (width * height) as nat);
            &&& r.is_some() <==> decodes_in_range(pv, rs, width as int, width * height)
            &&& r matches Some(f) ==> {
                &&& f.wf()
                &&& f@.width == width
                &&& f@.height == height
                &&& f@.pixels.len() == width * height
                &&& forall|p: int|
                    0 <= p < width * height ==> #[trigger] f@.pixels[p] as int == decoded_value(
                        pv,
                        rs,
                        width as int,
                        p,
                    )
                &&& f@.min == crate::frame::seq_min(f@.pixels)
                &&& f@.max == crate::frame::seq_max(f@.pixels)
            }
        }),
{
    let ghost pv = frame_pixels(prev_frame);
    let n = width * height;
    let ghost rs = payload_residuals(first, data@, bit_width, n as nat);
    let mut out: Vec<u16> = vec![0u16; n];
    let mut unpacker = BitUnpacker::new(data, bit_width);
    let mut cum: i64 = 0;
    let mut i: usize = 0;
    proof {
        assert(width > 0) by (nonlinear_arith)
            requires
                width * height > 0,
        ;
    }
    while i < n
        invariant
            n == width * height,
            width > 0,
            valid_width(bit_width),
            packed_len((n - 1) as nat, bit_width) <= data@.len(),
            pv == frame_pixels(prev_frame),
            prev_frame matches Some(p) ==> p@.pixels.len() == n,
            rs == payload_residuals(first, data@, bit_width, n as nat),
            i <= n,
            out@.len() == n,
            unpacker.wf(),
            unpacker.width() == bit_width,
            unpacker.source() == data@,
            i > 0 ==> unpacker.position() == i - 1,
            i == 0 ==> unpacker.position() == 0,
            i > 0 ==> cum as int == cum_sum(rs, i - 1),
            i > 0 ==> -65535 <= cum <= 65535,
            forall|j: int|
                0 <= j < i ==> (#[trigger] out@[snake_pos(j, width as int)]) as int == prev_at(
                    pv,
                    snake_pos(j, width as int),
                ) + cum_sum(rs, j),
        decreases n - i,
    {
        proof {
            lemma_snake_pos(i as int, width as int, height as int);
        }
        let r: i64 = if i == 0 {
            first as i64
        } else {
            match unpacker.next() {
                Some(v) => v as i64,
                None => 0,
            }
        };
        proof {
            if i > 0 {
                assert(packed_len(i as nat, bit_width) <= data@.len());
                assert(r as int == rs[i as int]);
            } else {
                assert(r as int == rs[0]);
            }
        }
        cum = if i == 0 { r } else { cum + r };
        let at = snake_offset(i, width, height);
        let before: i64 = match prev_frame {
            Some(p) => p.data()[at] as i64,
            None => 0,
        };
        let v: i64 = before + cum;
        if v < 0 || v > 65535 {
            proof {
                lemma_snake_pos(i as int, width as int, height as int);
                let p = snake_pos(i as int, width as int);
                assert(snake_pos(p, width as int) == i);
                assert(!(0 <= decoded_value(pv, rs, width as int, p) <= 65535));
            }
            return None;
        }
        let ghost old_out = out@;
        out.set(at, v as u16);
        proof {
            assert forall|j: int| 0 <= j < i + 1 implies (#[trigger] out@[snake_pos(
                j,
                width as int,
            )]) as int == prev_at(pv, snake_pos(j, width as int)) + cum_sum(rs, j) by {
                if j < i {
                    lemma_snake_pos(j, width as int, height as int);
                    assert(snake_pos(j, width as int) != at);
                }
            }
        }
        i = i + 1;
    }
    proof {
        assert forall|p: int| 0 <= p < n implies 0 <= #[trigger] decoded_value(
            pv,
            rs,
            width as int,
            p,
        ) <= 65535 && out@[p] as int == decoded_value(pv, rs, width as int, p) by {
            lemma_snake_pos(p, width as int, height as int);
            let j = snake_pos(p, width as int);
            lemma_snake_pos(j, width as int, height as int);
            assert(out@[snake_pos(j, width as int)] as int == prev_at(pv, snake_pos(j, width as int))
                + cum_sum(rs, j));
        }
    }
    Some(FrameData::with_dimensions_and_data(width, height, out.as_slice()))
}

/// The running sum of the residuals up to scan index `i` is the frame
/// difference at `i`.
pub proof fn lemma_cum_sum_is_delta(prev: Option<Seq<u16>>, curr: Seq<u16>, w: int, n: nat, i: int)
    requires
        0 <= i < n,
    ensures
        cum_sum(residuals_spec(prev, curr, w, n), i) == frame_delta(prev, curr, w, i),
    decreases i,
{
    if i > 0 {
        lemma_cum_sum_is_delta(prev, curr, w, n, i - 1);
    }
}

/// Each residual after the first is at most the greatest magnitude in size.
pub proof fn lemma_max_abs_tail_bounds(r: Seq<int>, k: int, i: int)
    requires
        1 <= i < k <= r.len(),
    ensures
        -max_abs_tail(r, k) <= r[i] <= max_abs_tail(r, k),
    decreases k,
{
    if i < k - 1 {
        lemma_max_abs_tail_bounds(r, k - 1, i);
    }
}

/// The residuals of a frame against the previous one reproduce the frame
/// exactly from it: every rebuilt pixel is in range and equals the original.
pub proof fn lemma_residuals_reproduce(prev: Option<Seq<u16>>, curr: Seq<u16>, w: int, h: int)
    requires
        w > 0,
        h >= 0,
        curr.len() == w * h,
        prev matches Some(p) ==> p.len() == w * h,
    ensures
        decodes_in_range(prev, residuals_spec(prev, curr, w, (w * h) as nat), w, w * h),
        forall|p: int|
            0 <= p < w * h ==> #[trigger] decoded_value(
                prev,
                residuals_spec(prev, curr, w, (w * h) as nat),
                w,
                p,
            ) == curr[p] as int,
{
    let n = (w * h) as nat;
    let rs = residuals_spec(prev, curr, w, n);
    assert forall|p: int| 0 <= p < w * h implies #[trigger] decoded_value(prev, rs, w, p)
        == curr[p] as int by {
        lemma_snake_pos(p, w, h);
        let j = snake_pos(p, w);
        lemma_snake_pos(j, w, h);
        lemma_cum_sum_is_delta(prev, curr, w, n, j);
    }
}

/// Storing the first residual whole and packing the rest at the width the
/// encoder picks gives back every residual when read, for every frame whose
/// residuals after the first fit in 16 signed bits.
pub proof fn lemma_payload_round_trip(
    prev: Option<Seq<u16>>,
    curr: Seq<u16>,
    w: int,
    h: int,
    enc: Seq<i32>,
)
    requires
        w > 0,
        h > 0,
        curr.len() == w * h,
        prev matches Some(p) ==> p.len() == w * h,
        enc.len() == w * h,
        forall|i: int| 0 <= i < w * h ==> #[trigger] enc[i] as int == residual(prev, curr, w, i),
        max_abs_tail(residuals_spec(prev, curr, w, (w * h) as nat), w * h) <= 32767,
    ensures
        ({
            let bw = frame_width(residuals_spec(prev, curr, w, (w * h) as nat), w * h);
            payload_residuals(
                enc[0],
                crate::bits::pack_spec(enc.skip(1), bw),
                bw,
                (w * h) as nat,
            ) == residuals_spec(prev, curr, w, (w * h) as nat)
        }),
{
    let n = (w * h) as nat;
    let rs = residuals_spec(prev, curr, w, n);
    let m = max_abs_tail(rs, w * h);
    let bw = frame_width(rs, w * h);
    let tail = enc.skip(1);
    assert(w * h >= 1) by (nonlinear_arith)
        requires
            w > 0,
            h > 0,
    ;
    assert forall|i: int| 0 <= i < tail.len() implies fits_width(#[trigger] tail[i] as int, bw) by {
        lemma_max_abs_tail_bounds(rs, w * h, i + 1);
    }
    crate::bits::lemma_unpack_pack(tail, bw);
    let got = payload_residuals(enc[0], crate::bits::pack_spec(tail, bw), bw, n);
    assert(got =~= rs);
}

/// The residual stream of a frame reproduces it exactly from the frame
/// before it: the first residual stored whole and the rest packed at the
/// width the encoder picks, `decode_image_data` accepts the payload and
/// rebuilds every pixel of `curr`, for every frame whose residuals after the
/// first fit in 16 signed bits.
pub proof fn lemma_decode_reproduces(
    prev: Option<Seq<u16>>,
    curr: Seq<u16>,
    w: int,
    h: int,
    enc: Seq<i32>,
)
    requires
        w > 0,
        h > 0,
        curr.len() == w * h,
        prev matches Some(p) ==> p.len() == w * h,
        enc.len() == w * h,
        forall|i: int| 0 <= i < w * h ==> #[trigger] enc[i] as int == residual(prev, curr, w, i),
        max_abs_tail(residuals_spec(prev, curr, w, (w * h) as nat), w * h) <= 32767,
    ensures
        ({
            let bw = frame_width(residuals_spec(prev, curr, w, (w * h) as nat), w * h);
            let rs = payload_residuals(
                enc[0],
                crate::bits::pack_spec(enc.skip(1), bw),
                bw,
                (w * h) as nat,
            );
            &&& decodes_in_range(prev, rs, w, w * h)
            &&& forall|p: int| 0 <= p < w * h ==> #[trigger] decoded_value(prev, rs, w, p) == curr[p] as int
        }),
{
    lemma_payload_round_trip(prev, curr, w, h, enc);
    lemma_residuals_reproduce(prev, curr, w, h);
}

} // verus!
