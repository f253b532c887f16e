//! Signed residuals packed at 8 or 16 bits per element, most significant
//! byte first, in two's complement.
use vstd::prelude::*;
use vstd::arithmetic::power2::{lemma2_to64, lemma_pow2_adds, lemma_pow2_strictly_increases, pow2};
use vstd::bits::lemma_u64_shl_is_mul;

verus! {

/// The residual widths the format admits.
pub open spec fn valid_width(w: u8) -> bool {
    w == 8 || w == 16
}

/// Bytes taken by `n` elements at width `w`.
pub open spec fn packed_len(n: nat, w: u8) -> nat {
    if w == 8 { n } else { 2 * n }
}

/// `2^w` for the admitted widths.
pub open spec fn modulus(w: u8) -> int {
    if w == 8 { 256 } else { 65536 }
}

/// Whether `v` fits in a signed integer of `w` bits.
pub open spec fn fits_width(v: int, w: u8) -> bool {
    -(modulus(w) / 2) <= v < modulus(w) / 2
}

/// The unsigned `w`-bit pattern that stands for `v` in two's complement.
pub open spec fn twos_pattern(v: int, w: u8) -> int {
    if v >= 0 { v } else { v + modulus(w) }
}

/// The signed value of the `w`-bit pattern `p`.
pub open spec fn signed_of(p: int, w: u8) -> int {
    if p < modulus(w) / 2 { p } else { p - modulus(w) }
}

/// The unsigned pattern of element `i` in `b`, read most significant byte first.
pub open spec fn raw_elem(b: Seq<u8>, w: u8, i: int) -> int {
    if w == 8 {
        b[i] as int
    } else {
        b[2 * i] as int * 256 + b[2 * i + 1] as int
    }
}

/// The first `n` elements that `b` holds at width `w`.
pub open spec fn unpack_spec(b: Seq<u8>, w: u8, n: nat) -> Seq<int> {
    Seq::new(n, |i: int| signed_of(raw_elem(b, w, i), w))
}

/// Byte `j` of the packing of `l` at width `w`.
pub open spec fn packed_byte(l: Seq<i32>, w: u8, j: int) -> u8 {
    if w == 8 {
        twos_pattern(l[j] as int, w) as u8
    } else if j % 2 == 0 {
        (twos_pattern(l[j / 2] as int, w) / 256) as u8
    } else {
        (twos_pattern(l[j / 2] as int, w) % 256) as u8
    }
}

/// The bytes that hold `l` at width `w`.
pub open spec fn pack_spec(l: Seq<i32>, w: u8) -> Seq<u8> {
    Seq::new(packed_len(l.len(), w), |j: int| packed_byte(l, w, j))
}

/// Whether every element of `l` fits in `w` signed bits.
pub open spec fn all_fit(l: Seq<i32>, w: u8) -> bool {
    forall|i: int| 0 <= i < l.len() ==> fits_width(#[trigger] l[i] as int, w)
}

/// The unsigned pattern that stands for `v` in `w`-bit two's complement.
pub open spec fn twos_value(v: int, w: nat) -> int {
    if v >= 0 { v } else { v + pow2(w) }
}

/// The signed value of the `w`-bit two's-complement pattern `p`.
pub open spec fn signed_value(p: int, w: nat) -> int {
    if p < pow2((w - 1) as nat) { p } else { p - pow2(w) }
}

/// Whether `v` fits in a signed integer of `w` bits.
pub open spec fn fits_bits(v: int, w: nat) -> bool {
    -pow2((w - 1) as nat) <= v < pow2((w - 1) as nat)
}

/// At the admitted widths the general two's-complement terms agree with
/// the byte-sized ones.
pub proof fn lemma_valid_width_pow2(w: u8)
    requires
        valid_width(w),
    ensures
        pow2(w as nat) == modulus(w),
        pow2((w - 1) as nat) == modulus(w) / 2,
        forall|v: int| #[trigger] fits_bits(v, w as nat) == fits_width(v, w),
        forall|v: int| #[trigger] twos_value(v, w as nat) == twos_pattern(v, w),
        forall|p: int| #[trigger] signed_value(p, w as nat) == signed_of(p, w),
{
    lemma2_to64();
}

/// `2^k`.
pub fn pow2_u64(k: u8) -> (r: u64)
    requires
        k <= 32,
    ensures
        r as nat == pow2(k as nat),
        r <= 0x1_0000_0000,
{
    proof {
        lemma2_to64();
        if k < 32 {
            lemma_pow2_strictly_increases(k as nat, 32);
        }
        lemma_u64_shl_is_mul(1, k as u64);
    }
    1u64 << (k as u64)
}

/// The two's-complement pattern of `v` at `width` bits.
pub fn twos_comp(v: i32, width: u8) -> (r: u32)
    requires
        1 <= width <= 31,
        fits_bits(v as int, width as nat),
    ensures
        r as int == twos_value(v as int, width as nat),
        (r as nat) < pow2(width as nat),
{
    let m = pow2_u64(width);
    proof {
        lemma_pow2_adds((width - 1) as nat, 1);
        lemma2_to64();
    }
    if v >= 0 {
        v as u32
    } else {
        (v as i64 + m as i64) as u32
    }
}

/// The signed value of the `width`-bit pattern `v`: its top bit counts
/// `-2^(width - 1)`.
pub fn twos_uncomp(v: u32, width: u8) -> (r: i32)
    requires
        1 <= width <= 31,
        (v as nat) < pow2(width as nat),
    ensures
        r as int == signed_value(v as int, width as nat),
        fits_bits(r as int, width as nat),
{
    let half = pow2_u64(width - 1);
    proof {
        lemma_pow2_adds((width - 1) as nat, 1);
        lemma2_to64();
        lemma_pow2_strictly_increases(width as nat, 32);
    }
    if (v as u64) < half {
        v as i32
    } else {
        (v as i64 - 2 * half as i64) as i32
    }
}

/// Reads signed elements of a fixed width from a byte slice.
pub struct BitUnpacker<'a> {
    input: &'a [u8],
    count: usize,
    bit_width: u8,
}

impl<'a> BitUnpacker<'a> {
    /// The width the unpacker reads at.
    pub closed spec fn width(&self) -> u8 {
        self.bit_width
    }

    /// The bytes the unpacker reads from.
    pub closed spec fn source(&self) -> Seq<u8> {
        self.input@
    }

    /// How many elements have been read so far.
    pub closed spec fn position(&self) -> nat {
        self.count as nat
    }

    pub closed spec fn wf(&self) -> bool {
        &&& valid_width(self.bit_width)
        &&& packed_len(self.count as nat, self.bit_width) <= self.input@.len()
    }

    pub fn new(input: &'a [u8], bit_width: u8) -> (r: BitUnpacker<'a>)
        requires
            valid_width(bit_width),
        ensures
            r.wf(),
            r.width() == bit_width,
            r.source() == input@,
            r.position() == 0,
    {
        BitUnpacker { input, count: 0, bit_width }
    }

    /// The next element, or `None` when the input ends before it does.
    pub fn next(&mut self) -> (r: Option<i32>)
        requires
            old(self).wf(),
        ensures
            final(self).wf(),
            final(self).width() == old(self).width(),
            final(self).source() == old(self).source(),
            ({
                let w = old(self).width();
                let k = old(self).position();
                if packed_len(k + 1, w) <= old(self).source().len() {
                    &&& r == Some(signed_of(raw_elem(old(self).source(), w, k as int), w) as i32)
                    &&& final(self).position() == k + 1
                } else {
                    &&& r.is_none()
                    &&& final(self).position() == k
                }
            }),
    {
        proof {
            lemma_valid_width_pow2(self.bit_width);
        }
        if self.bit_width == 8 {
            if self.count < self.input.len() {
                let v = self.input[self.count] as u32;
                self.count = self.count + 1;
                Some(twos_uncomp(v, 8))
            } else {
                None
            }
        } else {
            let n = self.input.len() / 2;
            if self.count < n {
                let at = 2 * self.count;
                let v = self.input[at] as u32 * 256 + self.input[at + 1] as u32;
                self.count = self.count + 1;
                Some(twos_uncomp(v, 16))
            } else {
                None
            }
        }
    }
}

/// The first `n` elements that `input` holds at `bit_width`, or `None` when
/// the input ends before the last of them.
pub fn unpack(input: &[u8], bit_width: u8, n: usize) -> (r: Option<Vec<i32>>)
    requires
        valid_width(bit_width),
    ensures
        r.is_some() <==> packed_len(n as nat, bit_width) <= input@.len(),
        r matches Some(v) ==> v@.map_values(|x: i32| x as int) == unpack_spec(
            input@,
            bit_width,
            n as nat,
        ),
{
    let mut unpacker = BitUnpacker::new(input, bit_width);
    let mut out: Vec<i32> = Vec::new();
    let mut i: usize = 0;
    while i < n
        invariant
            i <= n,
            unpacker.wf(),
            unpacker.width() == bit_width,
            unpacker.source() == input@,
            unpacker.position() == i,
            out@.len() == i,
            forall|j: int|
                0 <= j < i ==> #[trigger] out@[j] as int == signed_of(
                    raw_elem(input@, bit_width, j),
                    bit_width,
                ),
        decreases n - i,
    {
        match unpacker.next() {
            Some(v) => {
                out.push(v);
            },
            None => {
                return None;
            },
        }
        i = i + 1;
    }
    assert(out@.map_values(|x: i32| x as int) =~= unpack_spec(input@, bit_width, n as nat));
    Some(out)
}

/// Appends `input` packed at `width` bits per element, most significant byte first.
pub fn pack_bits_fast(input: &[i32], frame_bytes: &mut Vec<u8>, width: u8)
    requires
        valid_width(width),
        all_fit(input@, width),
    ensures
        final(frame_bytes)@ == old(frame_bytes)@ + pack_spec(input@, width),
{
    let ghost start = frame_bytes@;
    let mut i: usize = 0;
    while i < input.len()
        invariant
            valid_width(width),
            all_fit(input@, width),
            i <= input@.len(),
            frame_bytes@ =~= start + pack_spec(input@.subrange(0, i as int), width),
        decreases input@.len() - i,
    {
        let px = input[i];
        assert(fits_width(input@[i as int] as int, width));
        proof {
            lemma_valid_width_pow2(width);
        }
        let p = twos_comp(px, width);
        let ghost before = input@.subrange(0, i as int);
        let ghost after = input@.subrange(0, i + 1);
        if width == 8 {
            frame_bytes.push(p as u8);
        } else {
            frame_bytes.push((p / 256) as u8);
            frame_bytes.push((p % 256) as u8);
        }
        assert(frame_bytes@ =~= start + pack_spec(after, width)) by {
            assert forall|j: int| 0 <= j < packed_len(before.len(), width) implies
                packed_byte(after, width, j) == packed_byte(before, width, j) by {
                if width == 16 {
                    assert(j / 2 < before.len());
                }
                assert(after[j / 2] == before[j / 2]);
            }
        }
        i = i + 1;
    }
    assert(input@.subrange(0, input@.len() as int) =~= input@);
}

/// The first `i` elements of `l`, their `w`-bit two's-complement patterns
/// written one after another, the first element in the most significant bits.
pub open spec fn concat_value(l: Seq<i32>, w: nat, i: nat) -> int
    decreases i,
{
    if i == 0 {
        0
    } else {
        concat_value(l, w, (i - 1) as nat) * pow2(w) + twos_value(l[i - 1] as int, w)
    }
}

/// The number that bytes `b` spell, the first byte most significant.
pub open spec fn be_value(b: Seq<u8>) -> int
    decreases b.len(),
{
    if b.len() == 0 {
        0
    } else {
        be_value(b.drop_last()) * 256 + b.last() as int
    }
}

/// Whether every element of `l` fits in `w` signed bits.
pub open spec fn all_fit_bits(l: Seq<i32>, w: nat) -> bool {
    forall|i: int| 0 <= i < l.len() ==> fits_bits(#[trigger] l[i] as int, w)
}

proof fn lemma_be_push(b: Seq<u8>, x: u8)
    ensures
        be_value(b.push(x)) == be_value(b) * 256 + x as int,
{
    assert(b.push(x).drop_last() =~= b);
}

/// Appends `input` packed at `width` bits per element through a 32-bit
/// accumulator: each pattern is shifted in below the bits still pending, and
/// whole bytes are flushed from the top; a last partial byte is padded with
/// zero bits. Read as one number, most significant byte first, the appended
/// bytes are the elements' patterns one after another, the first element
/// first, followed by the padding.
#[verifier::spinoff_prover]
pub fn pack_bits(input: &[i32], frame_bytes: &mut Vec<u8>, width: u8)
    requires
        1 <= width <= 24,
        all_fit_bits(input@, width as nat),
        old(frame_bytes)@.len() + 4 * input@.len() + 1 <= usize::MAX,
    ensures
        final(frame_bytes)@.subrange(0, old(frame_bytes)@.len() as int) == old(frame_bytes)@,
        ({
            let a = final(frame_bytes)@.subrange(
                old(frame_bytes)@.len() as int,
                final(frame_bytes)@.len() as int,
            );
            let bits = input@.len() * width;
            &&& a.len() == (bits + 7) / 8
            &&& be_value(a) == concat_value(input@, width as nat, input@.len()) * pow2(
                (8 * a.len() - bits) as nat,
            )
        }),
{
    let ghost start = frame_bytes@;
    let ghost w = width as nat;
    let ghost mut e: Seq<u8> = Seq::empty();
    let ghost mut rest: int = 0;
    let mut scratch: u32 = 0;
    let mut n: u8 = 0;
    let mut i: usize = 0;
    proof {
        lemma2_to64();
    }
    while i < input.len()
        invariant
            1 <= width <= 24,
            w == width as nat,
            all_fit_bits(input@, w),
            start.len() + 4 * input@.len() + 1 <= usize::MAX,
            i <= input@.len(),
            frame_bytes@ == start + e,
            n < 8,
            8 * e.len() + n == i * w,
            0 <= rest < pow2(n as nat),
            scratch as int == rest * pow2((32 - n) as nat),
            concat_value(input@, w, i as nat) == be_value(e) * pow2(n as nat) + rest,
            pow2(8) == 256,
            pow2(24) == 16777216,
            pow2(32) == 0x1_0000_0000,
        decreases input@.len() - i,
    {
        assert(fits_bits(input@[i as int] as int, w));
        let p = twos_comp(input[i], width);
        let sh: u8 = 32 - width - n;
        let m = pow2_u64(sh);
        let ghost np = (n + width) as nat;
        let ghost r2 = rest * pow2(w) + p as int;
        proof {
            vstd::arithmetic::power2::lemma_pow2_pos(sh as nat);
            lemma_pow2_strictly_increases(sh as nat, 32);
            lemma_pow2_adds(w, sh as nat);
            lemma_pow2_adds(n as nat, w);
            lemma_pow2_adds(np, (32 - np) as nat);
            assert(pow2(w) * pow2(sh as nat) == pow2((32 - n) as nat));
            assert(rest * pow2(w) + p < pow2(np)) by (nonlinear_arith)
                requires
                    rest + 1 <= pow2(n as nat),
                    p < pow2(w),
                    pow2(np) == pow2(n as nat) * pow2(w),
            ;
            assert(r2 * pow2(sh as nat) < pow2(32)) by (nonlinear_arith)
                requires
                    r2 < pow2(np),
                    pow2(np) * pow2(sh as nat) == pow2(32),
                    pow2(sh as nat) > 0,
            ;
            assert(scratch as int + p as int * m as int == r2 * pow2(sh as nat)) by (nonlinear_arith)
                requires
                    scratch as int == rest * pow2((32 - n) as nat),
                    pow2((32 - n) as nat) == pow2(w) * pow2(sh as nat),
                    m as int == pow2(sh as nat),
                    r2 == rest * pow2(w) + p,
            ;
            assert(p as int * m as int <= r2 * pow2(sh as nat));
            assert(concat_value(input@, w, (i + 1) as nat) == be_value(e) * pow2(np) + r2) by (nonlinear_arith)
                requires
                    concat_value(input@, w, (i + 1) as nat) == concat_value(input@, w, i as nat) * pow2(w) + p,
                    concat_value(input@, w, i as nat) == be_value(e) * pow2(n as nat) + rest,
                    pow2(np) == pow2(n as nat) * pow2(w),
                    r2 == rest * pow2(w) + p,
            ;
            assert(8 * e.len() + np == (i + 1) * w) by (nonlinear_arith)
                requires
                    8 * e.len() + n == i * w,
                    np == n + w,
            ;
        }
        scratch = scratch + p * (m as u32);
        n = n + width;
        proof {
            rest = r2;
        }
        while n >= 8
            invariant
                1 <= width <= 24,
                n <= 31,
                start.len() + 4 * input@.len() + 1 <= usize::MAX,
                i < input@.len(),
                frame_bytes@ == start + e,
                8 * e.len() + n == (i + 1) * w,
                0 <= rest < pow2(n as nat),
                scratch as int == rest * pow2((32 - n) as nat),
                concat_value(input@, w, (i + 1) as nat) == be_value(e) * pow2(n as nat) + rest,
                w == width as nat,
                pow2(8) == 256,
                pow2(24) == 16777216,
                pow2(32) == 0x1_0000_0000,
            decreases n,
        {
            let ghost d: int = pow2((n - 8) as nat) as int;
            let ghost c: int = pow2((32 - n) as nat) as int;
            proof {
                lemma_pow2_adds((n - 8) as nat, 8);
                lemma_pow2_adds((32 - n) as nat, (n - 8) as nat);
                vstd::arithmetic::power2::lemma_pow2_pos((n - 8) as nat);
                vstd::arithmetic::power2::lemma_pow2_pos((32 - n) as nat);
                vstd::arithmetic::div_mod::lemma_fundamental_div_mod(rest, d);
                vstd::arithmetic::div_mod::lemma_mod_pos_bound(rest, d);
                vstd::arithmetic::div_mod::lemma_div_pos_is_pos(rest, d);
                assert(rest / d < 256) by (nonlinear_arith)
                    requires
                        rest < d * 256,
                        rest == d * (rest / d) + rest % d,
                        0 <= rest % d,
                        d > 0,
                ;
                assert(scratch as int == 16777216 * (rest / d) + (rest % d) * c) by (nonlinear_arith)
                    requires
                        scratch as int == rest * c,
                        rest == d * (rest / d) + rest % d,
                        c * d == 16777216,
                ;
                assert((rest % d) * c < 16777216) by (nonlinear_arith)
                    requires
                        rest % d < d,
                        c * d == 16777216,
                        c > 0,
                ;
            }
            let top: u32 = scratch / 16777216;
            proof {
                vstd::arithmetic::div_mod::lemma_div_multiples_vanish_fancy(
                    rest / d,
                    (rest % d) * c,
                    16777216,
                );
                assert(top as int == rest / d);
                lemma_be_push(e, top as u8);
                assert(concat_value(input@, w, (i + 1) as nat) == be_value(e.push(top as u8)) * d
                    + rest % d) by (nonlinear_arith)
                    requires
                        concat_value(input@, w, (i + 1) as nat) == be_value(e) * pow2(n as nat)
                            + rest,
                        pow2(n as nat) == d * 256,
                        be_value(e.push(top as u8)) == be_value(e) * 256 + top,
                        top == rest / d,
                        rest == d * (rest / d) + rest % d,
                ;
                lemma_pow2_adds((32 - n) as nat, 8);
                assert(((32 - n) + 8) as nat == (32 - (n - 8)) as nat);
                assert(((rest % d) * c) * 256 == (rest % d) * pow2((32 - (n - 8)) as nat))
                    by (nonlinear_arith)
                    requires
                        c * 256 == pow2((32 - (n - 8)) as nat),
                ;
            }
            frame_bytes.push(top as u8);
            scratch = (scratch - top * 16777216) * 256;
            n = n - 8;
            proof {
                e = e.push(top as u8);
                rest = rest % d;
            }
        }
        i = i + 1;
    }
    let ghost bits = input@.len() * w;
    if n > 0 {
        let ghost c: int = pow2((8 - n) as nat) as int;
        proof {
            lemma_pow2_adds((8 - n) as nat, 24);
            lemma_pow2_adds((8 - n) as nat, n as nat);
            assert(((8 - n) + 24) as nat == (32 - n) as nat);
            vstd::arithmetic::div_mod::lemma_div_multiples_vanish(rest * c, 16777216);
            assert(scratch as int == 16777216 * (rest * c)) by (nonlinear_arith)
                requires
                    scratch as int == rest * pow2((32 - n) as nat),
                    pow2((32 - n) as nat) == c * 16777216,
            ;
            assert(rest * c < 256) by (nonlinear_arith)
                requires
                    rest < pow2(n as nat),
                    c * pow2(n as nat) == 256,
                    c > 0,
            ;
        }
        let top: u32 = scratch / 16777216;
        proof {
            lemma_be_push(e, top as u8);
            assert(be_value(e.push(top as u8)) == concat_value(input@, w, input@.len()) * c)
                by (nonlinear_arith)
                requires
                    concat_value(input@, w, input@.len()) == be_value(e) * pow2(n as nat) + rest,
                    be_value(e.push(top as u8)) == be_value(e) * 256 + top,
                    top == rest * c,
                    c * pow2(n as nat) == 256,
            ;
        }
        frame_bytes.push(top as u8);
        proof {
            e = e.push(top as u8);
            assert(8 * e.len() - bits == 8 - n);
            assert(((8 * e.len() - bits) as nat) == (8 - n) as nat);
            assert(be_value(e) == concat_value(input@, w, input@.len()) * pow2(
                (8 * e.len() - bits) as nat,
            ));
        }
    } else {
        proof {
            assert(8 * e.len() - bits == 0);
            lemma2_to64();
            assert(rest == 0);
            assert(i == input@.len());
            assert(concat_value(input@, w, input@.len()) == be_value(e) * pow2(0) + 0);
            assert(((8 * e.len() - bits) as nat) == 0);
            assert(be_value(e) == concat_value(input@, w, input@.len()) * pow2(0));
        }
    }
    proof {
        lemma2_to64();
        assert(frame_bytes@.subrange(0, start.len() as int) =~= start);
        assert(frame_bytes@.subrange(start.len() as int, frame_bytes@.len() as int) =~= e);
    }
}

/// Unpacking what was packed gives back the original list, for every list
/// whose elements fit the width.
pub proof fn lemma_unpack_pack(l: Seq<i32>, w: u8)
    requires
        valid_width(w),
        all_fit(l, w),
    ensures
        unpack_spec(pack_spec(l, w), w, l.len()) == l.map_values(|x: i32| x as int),
{
    let b = pack_spec(l, w);
    assert forall|i: int| 0 <= i < l.len() implies signed_of(raw_elem(b, w, i), w) == l[i] as int by {
        assert(fits_width(l[i] as int, w));
        let p = twos_pattern(l[i] as int, w);
        if w == 16 {
            assert((2 * i) / 2 == i);
            assert((2 * i + 1) / 2 == i);
            assert((2 * i) % 2 == 0);
            assert((2 * i + 1) % 2 == 1);
            assert(p / 256 * 256 + p % 256 == p);
        }
    }
    assert(unpack_spec(b, w, l.len()) =~= l.map_values(|x: i32| x as int));
}

} // verus!
