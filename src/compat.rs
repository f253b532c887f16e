//! Forward compatibility: a field whose code the reader does not know is
//! skipped by its length and changes nothing that is decoded.
use vstd::prelude::*;
use crate::container::{apply_frame_field, frame_fields, frame_payload_spec, frame_spec};
use crate::decoder::{last_pixels, stream_spec};
use crate::encoder::field_bytes;
use crate::fields::{FieldType, field_of, le_u32_at};
use crate::header::{HeaderView, Step, apply_header_field, clip_header_spec, header_fields, next_field};

verus! {

/// A parse outcome with every offset moved `d` places on.
pub open spec fn shifted<T>(st: Step<T>, d: int) -> Step<T> {
    match st {
        Step::Done(x, p) => Step::Done(x, p + d),
        Step::Need(e) => Step::Need(e + d),
        Step::Fail(x) => Step::Fail(x),
    }
}

/// `s2` holds the bytes of `s` from offset `a` on, `d` places later, and
/// nothing after them.
pub open spec fn moved(s: Seq<u8>, s2: Seq<u8>, a: int, d: int) -> bool {
    &&& 0 <= d
    &&& s2.len() == s.len() + d
    &&& forall|i: int| a <= i < s.len() ==> #[trigger] s2[i + d] == s[i]
}

proof fn lemma_next_field_moved(s: Seq<u8>, s2: Seq<u8>, a: int, d: int, p: int)
    requires
        0 <= a <= p,
        moved(s, s2, a, d),
    ensures
        match next_field(s, p) {
            Step::Done((c, v), e) => {
                &&& next_field(s2, p + d) == Step::Done((c, v + d), e + d)
                &&& s2.subrange(v + d, e + d) == s.subrange(v, e)
                &&& p < v <= e
            },
            Step::Need(e) => next_field(s2, p + d) == Step::<(u8, int)>::Need(e + d),
            Step::Fail(_) => false,
        },
{
    if p + 2 <= s.len() {
        assert(s2[p + d] == s[p]);
        assert(s2[p + 1 + d] == s[p + 1]);
        if p + 2 + s[p] <= s.len() {
            assert(s2.subrange(p + 2 + d, p + 2 + s[p] + d) =~= s.subrange(p + 2, p + 2 + s[p]))
                by {
                assert forall|i: int| 0 <= i < s[p] implies #[trigger] s2.subrange(
                    p + 2 + d,
                    p + 2 + s[p] + d,
                )[i] == s.subrange(p + 2, p + 2 + s[p])[i] by {
                    assert(s2[p + 2 + i + d] == s[p + 2 + i]);
                }
            }
        }
    }
}

proof fn lemma_frame_fields_moved(s: Seq<u8>, s2: Seq<u8>, a: int, d: int, start: int, k: nat)
    requires
        0 <= a <= start,
        moved(s, s2, a, d),
    ensures
        frame_fields(s2, start + d, k) == shifted(frame_fields(s, start, k), d),
        frame_fields(s, start, k) matches Step::Done(_, p) ==> start <= p,
    decreases k,
{
    if k > 0 {
        lemma_frame_fields_moved(s, s2, a, d, start, (k - 1) as nat);
        if let Step::Done(m, p) = frame_fields(s, start, (k - 1) as nat) {
            lemma_next_field_moved(s, s2, a, d, p);
        }
    }
}

proof fn lemma_payload_moved(
    s: Seq<u8>,
    s2: Seq<u8>,
    a: int,
    d: int,
    p: int,
    m: crate::container::FrameMeta,
    w: nat,
    h: nat,
    prev: Option<Seq<u16>>,
)
    requires
        0 <= a <= p,
        moved(s, s2, a, d),
    ensures
        frame_payload_spec(s2, p + d, m, w, h, prev) == shifted(
            frame_payload_spec(s, p, m, w, h, prev),
            d,
        ),
{
    let fs = m.frame_size as int;
    if p + fs <= s.len() && fs >= 4 {
        assert(le_u32_at(s2, p + d) == le_u32_at(s, p)) by {
            assert(s2[p + d] == s[p]);
            assert(s2[p + 1 + d] == s[p + 1]);
            assert(s2[p + 2 + d] == s[p + 2]);
            assert(s2[p + 3 + d] == s[p + 3]);
        }
        assert(s2.subrange(p + d + 4, p + d + fs) =~= s.subrange(p + 4, p + fs)) by {
            assert forall|i: int| 0 <= i < fs - 4 implies #[trigger] s2.subrange(
                p + d + 4,
                p + d + fs,
            )[i] == s.subrange(p + 4, p + fs)[i] by {
                assert(s2[p + 4 + i + d] == s[p + 4 + i]);
            }
        }
    }
}

/// A frame record reads the same wherever its bytes stand.
pub proof fn lemma_frame_moved(
    s: Seq<u8>,
    s2: Seq<u8>,
    a: int,
    d: int,
    start: int,
    w: nat,
    h: nat,
    prev: Option<Seq<u16>>,
)
    requires
        0 <= a <= start,
        moved(s, s2, a, d),
    ensures
        frame_spec(s2, start + d, w, h, prev) == shifted(frame_spec(s, start, w, h, prev), d),
        frame_spec(s, start, w, h, prev) matches Step::Done(_, e) ==> start <= e,
{
    if start + 2 <= s.len() {
        assert(s2[start + d] == s[start]);
        assert(s2[start + 1 + d] == s[start + 1]);
        let k = s[start + 1] as nat;
        lemma_frame_fields_moved(s, s2, a, d, start + 2, k);
        if let Step::Done(m, p) = frame_fields(s, start + 2, k) {
            lemma_payload_moved(s, s2, a, d, p, m, w, h, prev);
        }
    } else if start + 1 <= s.len() {
        assert(s2[start + d] == s[start]);
    }
}

/// The frames of a stream read the same when everything from the first
/// frame on stands `d` places later behind the same header.
proof fn lemma_frames_moved(s: Seq<u8>, s2: Seq<u8>, p: int, d: int, hv: HeaderView, k: nat)
    requires
        0 <= p,
        moved(s, s2, p, d),
        clip_header_spec(s) == Step::Done(hv, p),
        clip_header_spec(s2) == Step::Done(hv, p + d),
    ensures
        stream_spec(s2, k) == shifted(stream_spec(s, k), d),
        stream_spec(s, k) matches Step::Done(_, e) ==> p <= e,
    decreases k,
{
    if k > 0 {
        lemma_frames_moved(s, s2, p, d, hv, (k - 1) as nat);
        if let Step::Done((h, fs), e) = stream_spec(s, (k - 1) as nat) {
            lemma_frame_moved(s, s2, p, d, e, h.width as nat, h.height as nat, last_pixels(fs));
        }
    }
}

proof fn lemma_header_fields_agree(s: Seq<u8>, s2: Seq<u8>, start: int, k: nat)
    requires
        0 <= start,
        header_fields(s, start, k) is Done,
        forall|i: int| start <= i < header_fields(s, start, k)->Done_1 ==> #[trigger] s2[i] == s[i],
        header_fields(s, start, k)->Done_1 <= s2.len(),
    ensures
        header_fields(s2, start, k) == header_fields(s, start, k),
        start <= header_fields(s, start, k)->Done_1 <= s.len() || k == 0,
    decreases k,
{
    if k > 0 {
        let prev = header_fields(s, start, (k - 1) as nat);
        if let Step::Done(h, p) = prev {
            let l = s[p];
            assert(p + 2 + l == header_fields(s, start, k)->Done_1);
            lemma_header_fields_agree(s, s2, start, (k - 1) as nat);
            assert(s2[p] == s[p]);
            assert(s2[p + 1] == s[p + 1]);
            assert(s2.subrange(p + 2, p + 2 + l) =~= s.subrange(p + 2, p + 2 + l));
        }
    }
}

proof fn lemma_frame_fields_agree(s: Seq<u8>, s2: Seq<u8>, start: int, k: nat)
    requires
        0 <= start,
        frame_fields(s, start, k) is Done,
        forall|i: int| start <= i < frame_fields(s, start, k)->Done_1 ==> #[trigger] s2[i] == s[i],
        frame_fields(s, start, k)->Done_1 <= s2.len(),
    ensures
        frame_fields(s2, start, k) == frame_fields(s, start, k),
        start <= frame_fields(s, start, k)->Done_1 <= s.len() || k == 0,
    decreases k,
{
    if k > 0 {
        let prev = frame_fields(s, start, (k - 1) as nat);
        if let Step::Done(m, p) = prev {
            let l = s[p];
            assert(p + 2 + l == frame_fields(s, start, k)->Done_1);
            lemma_frame_fields_agree(s, s2, start, (k - 1) as nat);
            assert(s2[p] == s[p]);
            assert(s2[p + 1] == s[p + 1]);
            assert(s2.subrange(p + 2, p + 2 + l) =~= s.subrange(p + 2, p + 2 + l));
        }
    }
}

/// `s` with the field of `code` and value `v` put in at offset `p`, and the
/// field count at offset `c` raised by one.
pub open spec fn with_field(s: Seq<u8>, c: int, p: int, code: u8, v: Seq<u8>) -> Seq<u8> {
    s.subrange(0, p).update(c, (s[c] + 1) as u8) + field_bytes(code, v) + s.subrange(
        p,
        s.len() as int,
    )
}

proof fn lemma_with_field_bytes(s: Seq<u8>, c: int, p: int, code: u8, v: Seq<u8>)
    requires
        0 <= c < p <= s.len(),
        v.len() <= 255,
    ensures
        ({
            let s2 = with_field(s, c, p, code, v);
            let d = 2 + v.len() as int;
            &&& s2[c] == (s[c] + 1) as u8
            &&& forall|i: int| 0 <= i < p && i != c ==> #[trigger] s2[i] == s[i]
            &&& s2.subrange(p, p + d) == field_bytes(code, v)
            &&& moved(s, s2, p, d)
        }),
{
    let s2 = with_field(s, c, p, code, v);
    let fb = field_bytes(code, v);
    let d = 2 + v.len() as int;
    assert(s2.subrange(p, p + d) =~= fb);
    assert forall|i: int| p <= i < s.len() implies #[trigger] s2[i + d] == s[i] by {
        assert(s2[i + d] == s.subrange(p, s.len() as int)[i - p]);
    }
}

proof fn lemma_frame_fields_insert(
    s: Seq<u8>,
    s2: Seq<u8>,
    start: int,
    j: nat,
    pj: int,
    d: int,
    t: nat,
)
    requires
        0 <= start <= pj,
        frame_fields(s, start, j) is Done,
        frame_fields(s, start, j)->Done_1 == pj,
        frame_fields(s2, start, j + 1) == Step::Done(frame_fields(s, start, j)->Done_0, pj + d),
        moved(s, s2, pj, d),
    ensures
        frame_fields(s2, start, j + 1 + t) == shifted(frame_fields(s, start, j + t), d),
        frame_fields(s, start, j + t) matches Step::Done(_, p) ==> pj <= p,
    decreases t,
{
    if t > 0 {
        lemma_frame_fields_insert(s, s2, start, j, pj, d, (t - 1) as nat);
        assert((j + 1 + t - 1) as nat == j + 1 + (t - 1) as nat);
        assert((j + t - 1) as nat == j + (t - 1) as nat);
        if let Step::Done(m, p) = frame_fields(s, start, j + (t - 1) as nat) {
            lemma_next_field_moved(s, s2, pj, d, p);
        }
    }
}

proof fn lemma_header_fields_insert(
    s: Seq<u8>,
    s2: Seq<u8>,
    start: int,
    j: nat,
    pj: int,
    d: int,
    t: nat,
)
    requires
        0 <= start <= pj,
        header_fields(s, start, j) is Done,
        header_fields(s, start, j)->Done_1 == pj,
        header_fields(s2, start, j + 1) == Step::Done(header_fields(s, start, j)->Done_0, pj + d),
        moved(s, s2, pj, d),
    ensures
        header_fields(s2, start, j + 1 + t) == shifted(header_fields(s, start, j + t), d),
        header_fields(s, start, j + t) matches Step::Done(_, p) ==> pj <= p,
    decreases t,
{
    if t > 0 {
        lemma_header_fields_insert(s, s2, start, j, pj, d, (t - 1) as nat);
        assert((j + 1 + t - 1) as nat == j + 1 + (t - 1) as nat);
        assert((j + t - 1) as nat == j + (t - 1) as nat);
        if let Step::Done(m, p) = header_fields(s, start, j + (t - 1) as nat) {
            lemma_next_field_moved(s, s2, pj, d, p);
        }
    }
}

/// Putting a field of an unknown code among a frame's fields, after any `j`
/// of them, and counting it, leaves the frame read from the record as it
/// was: the same fields and pixels (or the same error), the record ending
/// that many bytes later.
pub proof fn lemma_unknown_frame_field(
    s: Seq<u8>,
    start: int,
    j: nat,
    code: u8,
    v: Seq<u8>,
    w: nat,
    h: nat,
    prev: Option<Seq<u16>>,
)
    requires
        0 <= start,
        start + 2 <= s.len(),
        s[start] == 70,
        s[start + 1] < 255,
        j <= s[start + 1],
        frame_fields(s, start + 2, s[start + 1] as nat) is Done,
        field_of(code) == FieldType::Unknown,
        v.len() <= 255,
    ensures
        frame_fields(s, start + 2, j) is Done,
        ({
            let pj = frame_fields(s, start + 2, j)->Done_1;
            frame_spec(with_field(s, start + 1, pj, code, v), start, w, h, prev) == shifted(
                frame_spec(s, start, w, h, prev),
                2 + v.len() as int,
            )
        }),
{
    let k = s[start + 1] as nat;
    if !(frame_fields(s, start + 2, j) is Done) {
        crate::container::lemma_frame_fields_stuck(s, start + 2, j, k);
    }
    let mj = frame_fields(s, start + 2, j)->Done_0;
    let pj = frame_fields(s, start + 2, j)->Done_1;
    lemma_frame_fields_moved(s, s, start + 2, 0, start + 2, j);
    let m = frame_fields(s, start + 2, k)->Done_0;
    let p = frame_fields(s, start + 2, k)->Done_1;
    lemma_frame_fields_agree(s, s, start + 2, k);
    lemma_frame_fields_agree(s, s, start + 2, j);
    let s2 = with_field(s, start + 1, pj, code, v);
    let d = 2 + v.len() as int;
    lemma_with_field_bytes(s, start + 1, pj, code, v);
    lemma_frame_fields_agree(s, s2, start + 2, j);
    let fb = field_bytes(code, v);
    assert(s2[pj] == fb[0]);
    assert(s2[pj + 1] == fb[1]);
    assert(s2.subrange(pj + 2, pj + d) =~= v) by {
        assert forall|i: int| 0 <= i < v.len() implies #[trigger] s2.subrange(pj + 2, pj + d)[i]
            == v[i] by {
            assert(s2[pj + 2 + i] == fb[2 + i]);
        }
    }
    assert(apply_frame_field(mj, code, v) == Ok::<crate::container::FrameMeta, crate::fields::CptvError>(mj));
    assert(frame_fields(s2, start + 2, j + 1) == Step::Done(mj, pj + d));
    lemma_frame_fields_insert(s, s2, start + 2, j, pj, d, (k - j) as nat);
    assert(j + 1 + (k - j) as nat == k + 1);
    assert(j + (k - j) as nat == k);
    assert(frame_fields(s2, start + 2, k + 1) == Step::Done(m, p + d));
    assert(s2[start] == 70);
    assert(s2[start + 1] == k + 1);
    lemma_payload_moved(s, s2, pj, d, p, m, w, h, prev);
}

/// Putting a field of an unknown code among the header's fields, after any
/// `j` of them, and counting it, changes neither the header nor any frame
/// decoded after it: every parse of the stream comes out the same, that many
/// bytes later.
pub proof fn lemma_unknown_header_field(s: Seq<u8>, j: nat, code: u8, v: Seq<u8>, k: nat)
    requires
        clip_header_spec(s) is Done,
        s[6] < 255,
        j <= s[6],
        field_of(code) == FieldType::Unknown,
        v.len() <= 255,
    ensures
        header_fields(s, 7, j) is Done,
        ({
            let pj = header_fields(s, 7, j)->Done_1;
            let s2 = with_field(s, 6, pj, code, v);
            &&& clip_header_spec(s2) == shifted(clip_header_spec(s), 2 + v.len() as int)
            &&& stream_spec(s2, k) == shifted(stream_spec(s, k), 2 + v.len() as int)
        }),
{
    let n = s[6] as nat;
    let hv = clip_header_spec(s)->Done_0;
    let p = clip_header_spec(s)->Done_1;
    assert(s.len() >= 7);
    assert(header_fields(s, 7, n) == Step::Done(hv, p));
    if !(header_fields(s, 7, j) is Done) {
        crate::header::lemma_header_fields_stuck(s, 7, j, n);
    }
    let hj = header_fields(s, 7, j)->Done_0;
    let pj = header_fields(s, 7, j)->Done_1;
    lemma_header_fields_agree(s, s, 7, n);
    lemma_header_fields_agree(s, s, 7, j);
    let s2 = with_field(s, 6, pj, code, v);
    let d = 2 + v.len() as int;
    lemma_with_field_bytes(s, 6, pj, code, v);
    assert(s2[0] == s[0] && s2[1] == s[1] && s2[2] == s[2] && s2[3] == s[3] && s2[4] == s[4] && s2[5]
        == s[5]);
    lemma_header_fields_agree(s, s2, 7, j);
    let fb = field_bytes(code, v);
    assert(s2[pj] == fb[0]);
    assert(s2[pj + 1] == fb[1]);
    assert(s2.subrange(pj + 2, pj + d) =~= v) by {
        assert forall|i: int| 0 <= i < v.len() implies #[trigger] s2.subrange(pj + 2, pj + d)[i]
            == v[i] by {
            assert(s2[pj + 2 + i] == fb[2 + i]);
        }
    }
    assert(apply_header_field(hj, code, v) == Ok::<HeaderView, crate::fields::CptvError>(hj));
    assert(header_fields(s2, 7, j + 1) == Step::Done(hj, pj + d));
    lemma_header_fields_insert(s, s2, 7, j, pj, d, (n - j) as nat);
    assert(j + 1 + (n - j) as nat == n + 1);
    assert(j + (n - j) as nat == n);
    assert(header_fields(s2, 7, n + 1) == Step::Done(hv, p + d));
    assert(clip_header_spec(s2) == Step::Done(hv, p + d));
    assert(moved(s, s2, p, d));
    lemma_frames_moved(s, s2, p, d, hv, k);
}

} // verus!
