//! The resumable streaming decoder: bytes arrive in pieces, each parse
//! attempt is a function of the bytes received so far, and an attempt that
//! runs out of bytes changes nothing.
use vstd::prelude::*;
use crate::container::{
    CptvFrame, FrameMeta, decode_frame, frame_fields, frame_payload_spec, frame_spec, prev_pixels,
};
use crate::fields::CptvError;
use crate::frame::{seq_max, seq_min};
use crate::header::{
    Cptv2Header, HeaderView, Parsed, Step, clip_header_spec, decode_cptv_header, header_fields,
    next_field,
};
use crate::stats::{ClipStats, running_stats, stat_of};

verus! {

/// A decoded frame as the stream determines it: its fields and its pixels.
pub type FrameRecord = (FrameMeta, Seq<u16>);

/// The pixels of the last frame of `fs`, if any.
pub open spec fn last_pixels(fs: Seq<FrameRecord>) -> Option<Seq<u16>> {
    if fs.len() == 0 {
        None
    } else {
        Some(fs.last().1)
    }
}

/// The header and the first `k` frames of the clip whose bytes begin with
/// `s`; each frame is rebuilt on the one before it. Only the first frame may
/// be a background frame.
pub open spec fn stream_spec(s: Seq<u8>, k: nat) -> Step<(HeaderView, Seq<FrameRecord>)>
    decreases k,
{
    if k == 0 {
        match clip_header_spec(s) {
            Step::Done(h, p) => Step::Done((h, Seq::empty()), p),
            Step::Need(e) => Step::Need(e),
            Step::Fail(x) => Step::Fail(x),
        }
    } else {
        match stream_spec(s, (k - 1) as nat) {
            Step::Done((h, fs), p) => match frame_spec(
                s,
                p,
                h.width as nat,
                h.height as nat,
                last_pixels(fs),
            ) {
                Step::Done(f, e) => if fs.len() > 0 && f.0.is_background_frame {
                    Step::Fail(CptvError::MisplacedBackgroundFrame)
                } else {
                    Step::Done((h, fs.push(f)), e)
                },
                Step::Need(e) => Step::Need(e),
                Step::Fail(x) => Step::Fail(x),
            },
            other => other,
        }
    }
}

/// The fields and pixels of decoded frames.
pub open spec fn frame_records(fs: Seq<CptvFrame>) -> Seq<FrameRecord> {
    fs.map_values(|f: CptvFrame| (f.meta(), f.image_data@.pixels))
}

proof fn lemma_add_agrees(s: Seq<u8>, t: Seq<u8>, a: int, b: int)
    requires
        0 <= a <= b <= s.len(),
    ensures
        (s + t).subrange(a, b) == s.subrange(a, b),
        forall|i: int| a <= i < b ==> (s + t)[i] == s[i],
{
    assert((s + t).subrange(a, b) =~= s.subrange(a, b));
}

proof fn lemma_next_field_stable(s: Seq<u8>, t: Seq<u8>, p: int)
    requires
        0 <= p,
        !(next_field(s, p) is Need),
    ensures
        next_field(s + t, p) == next_field(s, p),
        next_field(s, p) matches Step::Done((_, v), e) ==> (s + t).subrange(v, e) == s.subrange(v, e)
            && p < v <= e <= s.len(),
{
    lemma_add_agrees(s, t, p, p + 2);
    if p + 2 + s[p] <= s.len() {
        lemma_add_agrees(s, t, p + 2, p + 2 + s[p]);
    }
}

proof fn lemma_header_fields_stable(s: Seq<u8>, t: Seq<u8>, start: int, k: nat)
    requires
        0 <= start,
        !(header_fields(s, start, k) is Need),
    ensures
        header_fields(s + t, start, k) == header_fields(s, start, k),
        header_fields(s, start, k) matches Step::Done(_, p) ==> start <= p,
    decreases k,
{
    if k > 0 {
        let prev = header_fields(s, start, (k - 1) as nat);
        if !(prev is Need) {
            lemma_header_fields_stable(s, t, start, (k - 1) as nat);
            if let Step::Done(h, p) = prev {
                lemma_next_field_stable(s, t, p);
            }
        }
    }
}

proof fn lemma_frame_fields_stable(s: Seq<u8>, t: Seq<u8>, start: int, k: nat)
    requires
        0 <= start,
        !(frame_fields(s, start, k) is Need),
    ensures
        frame_fields(s + t, start, k) == frame_fields(s, start, k),
        frame_fields(s, start, k) matches Step::Done(_, p) ==> start <= p,
    decreases k,
{
    if k > 0 {
        let prev = frame_fields(s, start, (k - 1) as nat);
        if !(prev is Need) {
            lemma_frame_fields_stable(s, t, start, (k - 1) as nat);
            if let Step::Done(m, p) = prev {
                lemma_next_field_stable(s, t, p);
            }
        }
    }
}

proof fn lemma_frame_stable(s: Seq<u8>, t: Seq<u8>, start: int, w: nat, h: nat, prev: Option<Seq<u16>>)
    requires
        0 <= start,
        !(frame_spec(s, start, w, h, prev) is Need),
    ensures
        frame_spec(s + t, start, w, h, prev) == frame_spec(s, start, w, h, prev),
        frame_spec(s, start, w, h, prev) matches Step::Done(_, e) ==> start <= e,
{
    lemma_add_agrees(s, t, start, start + 1);
    if start + 2 <= s.len() {
        lemma_add_agrees(s, t, start, start + 2);
        let k = s[start + 1] as nat;
        let ff = frame_fields(s, start + 2, k);
        if !(ff is Need) {
            lemma_frame_fields_stable(s, t, start + 2, k);
            if let Step::Done(m, p) = ff {
                if p + m.frame_size <= s.len() && m.frame_size >= 4 {
                    lemma_add_agrees(s, t, p, p + m.frame_size);
                    lemma_add_agrees(s, t, p + 4, p + m.frame_size);
                }
                if !(frame_payload_spec(s, p, m, w, h, prev) is Need) {
                    assert(frame_payload_spec(s + t, p, m, w, h, prev) == frame_payload_spec(
                        s,
                        p,
                        m,
                        w,
                        h,
                        prev,
                    ));
                }
            }
        }
    }
}

proof fn lemma_clip_header_stable(s: Seq<u8>, t: Seq<u8>)
    requires
        !(clip_header_spec(s) is Need),
    ensures
        clip_header_spec(s + t) == clip_header_spec(s),
        clip_header_spec(s) matches Step::Done(_, p) ==> 7 <= p,
{
    if s.len() >= 4 {
        lemma_add_agrees(s, t, 0, 4);
    }
    if s.len() >= 7 {
        lemma_add_agrees(s, t, 0, 7);
        if s[0] == 67 && s[1] == 80 && s[2] == 84 && s[3] == 86 && s[4] == 2 && s[5] == 72 {
            lemma_header_fields_stable(s, t, 7, s[6] as nat);
        }
    }
}

/// Decoding is a function of the bytes received: once the header and the
/// first `k` frames (or an error) are determined by a prefix of the stream,
/// any bytes that arrive after it leave them as they are. So every split of
/// the stream into pieces decodes to the same frames as the whole.
pub proof fn lemma_stream_prefix_stable(s: Seq<u8>, t: Seq<u8>, k: nat)
    requires
        !(stream_spec(s, k) is Need),
    ensures
        stream_spec(s + t, k) == stream_spec(s, k),
        stream_spec(s, k) matches Step::Done(_, p) ==> 7 <= p,
    decreases k,
{
    if k == 0 {
        lemma_clip_header_stable(s, t);
    } else {
        let prev = stream_spec(s, (k - 1) as nat);
        if !(prev is Need) {
            lemma_stream_prefix_stable(s, t, (k - 1) as nat);
            if let Step::Done((h, fs), p) = prev {
                lemma_frame_stable(s, t, p, h.width as nat, h.height as nat, last_pixels(fs));
            }
        }
    }
}

/// One more frame read after the first `k`.
pub proof fn lemma_stream_next(s: Seq<u8>, k: nat, h: HeaderView, fs: Seq<FrameRecord>, p: int)
    requires
        stream_spec(s, k) == Step::Done((h, fs), p),
    ensures
        stream_spec(s, k + 1) == match frame_spec(
            s,
            p,
            h.width as nat,
            h.height as nat,
            last_pixels(fs),
        ) {
            Step::Done(f, e) => if fs.len() > 0 && f.0.is_background_frame {
                Step::Fail(CptvError::MisplacedBackgroundFrame)
            } else {
                Step::Done((h, fs.push(f)), e)
            },
            Step::Need(e) => Step::Need(e),
            Step::Fail(x) => Step::Fail(x),
        },
{
    assert(((k + 1) - 1) as nat == k);
}

/// What a request for the next frame came to.
#[derive(Clone, Copy, Debug, PartialEq, Eq, Structural)]
pub enum DecodeStatus {
    /// A visible frame was decoded; holds its visible index.
    Frame(usize),
    /// The bytes so far end inside the next record; holds how many more are
    /// needed at least.
    NeedMoreBytes(usize),
    /// The bytes end inside the next record and no more will come.
    StreamEnded,
    /// The clip is corrupt; it stays so.
    Failed(CptvError),
}

/// Decodes a clip from bytes that arrive piece by piece.
pub struct CptvPlayerContext {
    decoded: Vec<u8>,
    header: Option<Cptv2Header>,
    cursor: usize,
    frames: Vec<CptvFrame>,
    stats: ClipStats,
    stream_ended: bool,
    error: Option<CptvError>,
}

impl CptvPlayerContext {
    /// The bytes received so far.
    pub closed spec fn bytes(&self) -> Seq<u8> {
        self.decoded@
    }

    /// The decoded frames, background frame included.
    pub closed spec fn frames_view(&self) -> Seq<CptvFrame> {
        self.frames@
    }

    /// The header, once it has been parsed.
    pub closed spec fn header_view(&self) -> Option<HeaderView> {
        match self.header {
            Some(h) => Some(h@),
            None => None,
        }
    }

    /// The error the clip failed on, if it did.
    pub closed spec fn error_view(&self) -> Option<CptvError> {
        self.error
    }

    /// Whether the transport said no more bytes will come.
    pub closed spec fn ended(&self) -> bool {
        self.stream_ended
    }

    /// The offset in the bytes where the next record starts.
    pub closed spec fn cursor_view(&self) -> nat {
        self.cursor as nat
    }

    /// The clip's range kept so far.
    pub closed spec fn stats_view(&self) -> (u16, u16) {
        (self.stats.min_value, self.stats.max_value)
    }

    pub closed spec fn wf(&self) -> bool {
        &&& self.cursor <= self.decoded@.len()
        &&& self.frames@.len() <= self.cursor
        &&& (self.stats.min_value, self.stats.max_value) == running_stats(
            self.frames@.map_values(|f: CptvFrame| stat_of(f)),
        )
        &&& forall|i: int|
            0 <= i < self.frames@.len() ==> {
                let f = #[trigger] self.frames@[i];
                &&& f.image_data.wf()
                &&& f.image_data@.min == seq_min(f.image_data@.pixels)
                &&& f.image_data@.max == seq_max(f.image_data@.pixels)
            }
        &&& forall|i: int|
            0 <= i < self.frames@.len() ==> match self.header {
                Some(h) => (#[trigger] self.frames@[i]).image_data@.pixels.len() == h.width as nat
                    * h.height as nat,
                None => true,
            }
        &&& match self.header {
            None => {
                &&& self.frames@.len() == 0
                &&& self.cursor == 0
                &&& self.error matches Some(e) ==> clip_header_spec(self.decoded@) == Step::<
                    HeaderView,
                >::Fail(e)
            },
            Some(h) => {
                &&& stream_spec(self.decoded@, self.frames@.len()) == Step::Done(
                    (h@, frame_records(self.frames@)),
                    self.cursor as int,
                )
                &&& self.error matches Some(e) ==> stream_spec(
                    self.decoded@,
                    self.frames@.len() + 1,
                ) == Step::<(HeaderView, Seq<FrameRecord>)>::Fail(e)
            },
        }
    }

    /// A decoder that has received nothing.
    pub fn new() -> (r: CptvPlayerContext)
        ensures
            r.wf(),
            r.bytes() == Seq::<u8>::empty(),
            r.frames_view().len() == 0,
            r.header_view().is_none(),
            r.error_view().is_none(),
            !r.ended(),
    {
        let r = CptvPlayerContext {
            decoded: Vec::new(),
            header: None,
            cursor: 0,
            frames: Vec::new(),
            stats: ClipStats::new(),
            stream_ended: false,
            error: None,
        };
        assert(r.frames@.map_values(|f: CptvFrame| stat_of(f)) =~= Seq::<crate::stats::FrameStat>::empty());
        r
    }

    /// Appends bytes that arrived; what was decoded stays as it is.
    pub fn append_bytes(&mut self, bytes: &[u8])
        requires
            old(self).wf(),
        ensures
            final(self).wf(),
            final(self).bytes() == old(self).bytes() + bytes@,
            final(self).frames_view() == old(self).frames_view(),
            final(self).header_view() == old(self).header_view(),
            final(self).error_view() == old(self).error_view(),
            final(self).ended() == old(self).ended(),
            final(self).cursor_view() == old(self).cursor_view(),
            final(self).stats_view() == old(self).stats_view(),
    {
        let ghost s = self.decoded@;
        self.decoded.extend_from_slice(bytes);
        proof {
            let k = self.frames@.len();
            if self.header is None {
                if self.error is Some {
                    lemma_clip_header_stable(s, bytes@);
                }
            } else {
                lemma_stream_prefix_stable(s, bytes@, k);
                if self.error is Some {
                    lemma_stream_prefix_stable(s, bytes@, k + 1);
                }
            }
            assert(self.decoded@ == s + bytes@);
            assert(self.cursor <= self.decoded@.len());
        }
    }

    /// Records that no more bytes will arrive.
    pub fn end_stream(&mut self)
        requires
            old(self).wf(),
        ensures
            final(self).wf(),
            final(self).ended(),
            final(self).bytes() == old(self).bytes(),
            final(self).frames_view() == old(self).frames_view(),
            final(self).header_view() == old(self).header_view(),
            final(self).error_view() == old(self).error_view(),
            final(self).stats_view() == old(self).stats_view(),
    {
        self.stream_ended = true;
    }

    /// How many leading frames are background frames: one when the first
    /// decoded frame is flagged so, else none.
    pub open spec fn bg_offset(&self) -> nat {
        if self.frames_view().len() > 0 && self.frames_view()[0].is_background_frame {
            1
        } else {
            0
        }
    }

    /// Where the next parse attempt runs out of bytes, if it does.
    pub open spec fn pending_need(&self) -> Option<int> {
        if self.header_view() is None {
            match clip_header_spec(self.bytes()) {
                Step::Need(e) => Some(e),
                _ => None,
            }
        } else {
            match stream_spec(self.bytes(), self.frames_view().len() + 1) {
                Step::Need(e) => Some(e),
                _ => None,
            }
        }
    }

    /// Every frame `b` holds from `a`'s last one up to `upto` is a background
    /// frame.
    pub open spec fn added_background(a: CptvPlayerContext, b: CptvPlayerContext, upto: int) -> bool {
        forall|j: int|
            a.frames_view().len() <= j < upto ==> (#[trigger] b.frames_view()[j]).is_background_frame
    }

    /// When the header was known and no frame was added, the next record
    /// still starts where it did and the clip's range is as it was.
    pub open spec fn nothing_new(a: CptvPlayerContext, b: CptvPlayerContext) -> bool {
        a.header_view() is Some && b.frames_view().len() == a.frames_view().len() ==> {
            &&& b.cursor_view() == a.cursor_view()
            &&& b.stats_view() == a.stats_view()
        }
    }

    /// The frames `d` holds are the ones its bytes determine, and its range
    /// is the one kept over them.
    pub open spec fn holds_stream(d: CptvPlayerContext) -> bool {
        &&& d.header_view() matches Some(h) ==> stream_spec(d.bytes(), d.frames_view().len())
            == Step::Done((h, frame_records(d.frames_view())), d.cursor_view() as int)
        &&& d.stats_view() == running_stats(d.frames_view().map_values(|f: CptvFrame| stat_of(f)))
        &&& forall|j: int|
            0 <= j < d.frames_view().len() ==> {
                let f = #[trigger] d.frames_view()[j];
                &&& f.image_data@.min == seq_min(f.image_data@.pixels)
                &&& f.image_data@.max == seq_max(f.image_data@.pixels)
            }
    }

    /// What a request for the next frame leaves behind, from `a` to `b`:
    /// the bytes stay, frames are only added, a known header stays, an error
    /// is given again, and the status says what stopped decoding.
    pub open spec fn fetch_outcome(a: CptvPlayerContext, b: CptvPlayerContext, r: DecodeStatus) -> bool {
        &&& b.wf()
        &&& b.bytes() == a.bytes()
        &&& b.ended() == a.ended()
        &&& b.frames_view().len() <= b.bytes().len()
        &&& a.frames_view().len() <= b.frames_view().len()
        &&& b.frames_view().subrange(0, a.frames_view().len() as int) == a.frames_view()
        &&& a.header_view() is Some ==> b.header_view() == a.header_view()
        &&& a.error_view() matches Some(e) ==> r == DecodeStatus::Failed(e) && b.frames_view()
            == a.frames_view()
        &&& match r {
            DecodeStatus::Frame(i) => {
                &&& b.frames_view().len() > a.frames_view().len()
                &&& !b.frames_view().last().is_background_frame
                &&& Self::added_background(a, b, b.frames_view().len() - 1)
                &&& i + b.bg_offset() == b.frames_view().len() - 1
                &&& b.error_view() is None
            },
            DecodeStatus::NeedMoreBytes(k) => {
                &&& !b.ended()
                &&& b.error_view() is None
                &&& k > 0
                &&& b.pending_need() == Some(b.bytes().len() + k)
                &&& Self::added_background(a, b, b.frames_view().len() as int)
                &&& Self::nothing_new(a, b)
            },
            DecodeStatus::StreamEnded => {
                &&& b.ended()
                &&& b.error_view() is None
                &&& b.pending_need() is Some
                &&& Self::added_background(a, b, b.frames_view().len() as int)
                &&& Self::nothing_new(a, b)
                &&& Self::holds_stream(b)
            },
            DecodeStatus::Failed(e) => {
                &&& b.error_view() == Some(e)
                &&& Self::added_background(a, b, b.frames_view().len() as int)
            },
        }
    }

    /// The measure that each step of decoding lowers.
    closed spec fn remaining(&self) -> int {
        (if self.header is None { 1int } else { 0int }) + self.decoded@.len() - self.cursor
    }

    /// One parse attempt: the header, or else the next frame record. `None`
    /// when it made progress that is not yet a visible frame.
    #[verifier::spinoff_prover]
    fn advance(&mut self) -> (r: Option<DecodeStatus>)
        requires
            old(self).wf(),
        ensures
            r matches Some(st) ==> Self::fetch_outcome(*old(self), *final(self), st),
            r is None ==> {
                &&& final(self).wf()
                &&& final(self).bytes() == old(self).bytes()
                &&& final(self).ended() == old(self).ended()
                &&& old(self).frames_view().len() <= final(self).frames_view().len()
                &&& final(self).frames_view().subrange(0, old(self).frames_view().len() as int)
                    == old(self).frames_view()
                &&& old(self).header_view() is Some ==> final(self).header_view() == old(
                    self,
                ).header_view()
                &&& final(self).error_view() is None
                &&& old(self).error_view() is None
                &&& Self::added_background(*old(self), *final(self), final(self).frames_view().len() as int)
                &&& (old(self).header_view() is Some ==> final(self).frames_view().len()
                    > old(self).frames_view().len())
                &&& 0 <= final(self).remaining() < old(self).remaining()
            },
    {
        proof {
            assert(self.frames@.subrange(0, self.frames@.len() as int) =~= self.frames@);
        }
        if let Some(e) = self.error {
            return Some(DecodeStatus::Failed(e));
        }
        if self.header.is_none() {
            self.advance_header()
        } else {
            self.advance_frame()
        }
    }

    /// One attempt at the header.
    fn advance_header(&mut self) -> (r: Option<DecodeStatus>)
        requires
            old(self).wf(),
            old(self).header is None,
            old(self).error is None,
        ensures
            r matches Some(st) ==> Self::fetch_outcome(*old(self), *final(self), st),
            r is None ==> {
                &&& final(self).wf()
                &&& final(self).bytes() == old(self).bytes()
                &&& final(self).ended() == old(self).ended()
                &&& final(self).frames_view() == old(self).frames_view()
                &&& final(self).error_view() is None
                &&& final(self).header_view() is Some
                &&& 0 <= final(self).remaining() < old(self).remaining()
            },
    {
        proof {
            assert(self.frames@.subrange(0, self.frames@.len() as int) =~= self.frames@);
        }
        match decode_cptv_header(self.decoded.as_slice()) {
            Parsed::Done(h, p) => {
                self.header = Some(h);
                self.cursor = p;
                assert(frame_records(self.frames@) =~= Seq::<FrameRecord>::empty());
                None
            },
            Parsed::Need(k) => {
                if self.stream_ended {
                    return Some(DecodeStatus::StreamEnded);
                }
                Some(DecodeStatus::NeedMoreBytes(k))
            },
            Parsed::Failed(e) => {
                self.error = Some(e);
                Some(DecodeStatus::Failed(e))
            },
        }
    }

    /// Parses the header if it is not known yet. `None` once it is known;
    /// otherwise what stopped it, as for a frame.
    pub fn fetch_header(&mut self) -> (r: Option<DecodeStatus>)
        requires
            old(self).wf(),
        ensures
            r matches Some(st) ==> Self::fetch_outcome(*old(self), *final(self), st),
            r is None ==> {
                &&& final(self).wf()
                &&& final(self).bytes() == old(self).bytes()
                &&& final(self).ended() == old(self).ended()
                &&& final(self).frames_view() == old(self).frames_view()
                &&& final(self).error_view() is None
                &&& final(self).header_view() is Some
                &&& old(self).header_view() is Some ==> final(self).header_view() == old(
                    self,
                ).header_view()
            },
    {
        proof {
            assert(self.frames@.subrange(0, self.frames@.len() as int) =~= self.frames@);
        }
        if let Some(e) = self.error {
            return Some(DecodeStatus::Failed(e));
        }
        if self.header.is_some() {
            return None;
        }
        self.advance_header()
    }

    /// One attempt at the next frame record, once the header is known.
    #[verifier::rlimit(40)]
    #[verifier::spinoff_prover]
    fn advance_frame(&mut self) -> (r: Option<DecodeStatus>)
        requires
            old(self).wf(),
            old(self).header is Some,
            old(self).error is None,
        ensures
            r matches Some(st) ==> Self::fetch_outcome(*old(self), *final(self), st),
            r is None ==> {
                &&& final(self).wf()
                &&& final(self).bytes() == old(self).bytes()
                &&& final(self).ended() == old(self).ended()
                &&& old(self).frames_view().len() <= final(self).frames_view().len()
                &&& final(self).frames_view().subrange(0, old(self).frames_view().len() as int)
                    == old(self).frames_view()
                &&& final(self).header_view() == old(self).header_view()
                &&& final(self).error_view() is None
                &&& Self::added_background(*old(self), *final(self), final(self).frames_view().len() as int)
                &&& (old(self).header_view() is Some ==> final(self).frames_view().len()
                    > old(self).frames_view().len())
                &&& 0 <= final(self).remaining() < old(self).remaining()
            },
    {
        let ghost old_frames = self.frames@;
        proof {
            assert(self.frames@.subrange(0, self.frames@.len() as int) =~= self.frames@);
        }
        let (width, height) = match &self.header {
            Some(h) => (h.width, h.height),
            None => (0, 0),
        };
        let count = self.frames.len();
        let ghost records = frame_records(self.frames@);
        let ghost hv = self.header_view()->Some_0;
        let prev: Option<&CptvFrame> = if count > 0 {
            Some(&self.frames[count - 1])
        } else {
            None
        };
        proof {
            if count > 0 {
                assert(records.last() == (self.frames@[count - 1].meta(), self.frames@[count
                    - 1].image_data@.pixels));
            }
            assert(last_pixels(records) == prev_pixels(prev));
            lemma_stream_next(self.decoded@, count as nat, hv, records, self.cursor as int);
        }
        match decode_frame(self.decoded.as_slice(), self.cursor, width, height, prev) {
            Parsed::Done(f, q) => {
                if count > 0 && f.is_background_frame {
                    self.error = Some(CptvError::MisplacedBackgroundFrame);
                    return Some(DecodeStatus::Failed(CptvError::MisplacedBackgroundFrame));
                }
                let ghost stats_before = self.frames@.map_values(|f: CptvFrame| stat_of(f));
                self.stats.update(&f);
                let bg = f.is_background_frame;
                self.frames.push(f);
                self.cursor = q;
                proof {
                    assert(self.frames@.map_values(|f: CptvFrame| stat_of(f)).drop_last()
                        =~= stats_before);
                    assert(frame_records(self.frames@) =~= records.push(
                        (f.meta(), f.image_data@.pixels),
                    ));
                    assert(self.frames@.subrange(0, old_frames.len() as int) =~= old_frames);
                }
                if bg {
                    return None;
                }
                let visible = if self.frames[0].is_background_frame {
                    count - 1
                } else {
                    count
                };
                Some(DecodeStatus::Frame(visible))
            },
            Parsed::Need(k) => {
                if self.stream_ended {
                    return Some(DecodeStatus::StreamEnded);
                }
                Some(DecodeStatus::NeedMoreBytes(k))
            },
            Parsed::Failed(e) => {
                self.error = Some(e);
                Some(DecodeStatus::Failed(e))
            },
        }
    }

    /// Decodes up to the next visible frame. A background frame is decoded
    /// and kept as the reference for the frame after it, and decoding goes
    /// on. Running out of bytes changes nothing; an error is kept and given
    /// again on every later call.
    #[verifier::spinoff_prover]
    pub fn fetch_raw_frame(&mut self) -> (r: DecodeStatus)
        requires
            old(self).wf(),
        ensures
            Self::fetch_outcome(*old(self), *final(self), r),
    {
        let ghost old_frames = self.frames@;
        let ghost old_header = self.header_view();
        loop
            invariant
                self.wf(),
                self.decoded@ == old(self).decoded@,
                self.stream_ended == old(self).stream_ended,
                old_frames == old(self).frames@,
                old_header == old(self).header_view(),
                old_frames.len() <= self.frames@.len(),
                self.frames@.subrange(0, old_frames.len() as int) == old_frames,
                old_header is Some ==> self.header_view() == old_header,
                self.error == old(self).error,
                self.error is Some ==> self.frames@ == old_frames,
                forall|j: int|
                    old_frames.len() <= j < self.frames@.len() ==> (
                    #[trigger] self.frames@[j]).is_background_frame,
                old_header is Some && self.frames@.len() == old_frames.len() ==> self.cursor == old(
                    self,
                ).cursor && self.stats == old(self).stats,
            decreases self.remaining(),
        {
            let ghost before = self.frames@;
            match self.advance() {
                Some(st) => {
                    proof {
                        assert(self.frames@.subrange(0, old_frames.len() as int) =~= old_frames) by {
                            assert(self.frames@.subrange(0, before.len() as int) == before);
                        }
                        assert forall|j: int|
                            old_frames.len() <= j < before.len() implies (
                            #[trigger] self.frames@[j]).is_background_frame by {
                            assert(self.frames@.subrange(0, before.len() as int)[j] == before[j]);
                        }
                    }
                    return st;
                },
                None => {
                    proof {
                        assert(self.frames@.subrange(0, old_frames.len() as int) =~= old_frames) by {
                            assert(self.frames@.subrange(0, before.len() as int) == before);
                        }
                        assert forall|j: int|
                            old_frames.len() <= j < before.len() implies (
                            #[trigger] self.frames@[j]).is_background_frame by {
                            assert(self.frames@.subrange(0, before.len() as int)[j] == before[j]);
                        }
                    }
                },
            }
        }
    }

    /// How many frames have been decoded, a background frame included.
    pub fn get_total_frames(&self) -> (r: usize)
        ensures
            r == self.frames_view().len(),
    {
        self.frames.len()
    }

    /// How many frames the clip has, background frame included, once the
    /// stream is complete.
    pub fn total_frames(&self) -> (r: Option<usize>)
        ensures
            r == if self.ended() { Some(self.frames_view().len() as usize) } else { None },
    {
        if self.stream_ended {
            Some(self.frames.len())
        } else {
            None
        }
    }

    /// Frames per independently decodable block: every frame of a version 2
    /// clip depends on the one before it, so the whole clip is one block of
    /// one frame at a time.
    pub fn get_frames_per_iframe(&self) -> (r: u8)
        ensures
            r == 1,
    {
        1
    }

    /// Visible frame `n`, if it has been decoded; a background frame is not
    /// counted.
    pub fn get_frame_header_n(&self, n: usize) -> (r: Option<&CptvFrame>)
        ensures
            r.is_some() <==> n + self.bg_offset() < self.frames_view().len(),
            r matches Some(f) ==> *f == self.frames_view()[n + self.bg_offset()],
    {
        let count = self.frames.len();
        let skip: usize = if count > 0 && self.frames[0].is_background_frame {
            1
        } else {
            0
        };
        if n < count - skip {
            Some(&self.frames[n + skip])
        } else {
            None
        }
    }

    /// The pixels of visible frame `n`, or none if it has not been decoded.
    pub fn get_raw_frame_n(&self, n: usize) -> (r: &[u16])
        ensures
            r@ == if n + self.bg_offset() < self.frames_view().len() {
                self.frames_view()[n + self.bg_offset()].image_data@.pixels
            } else {
                Seq::empty()
            },
    {
        match self.get_frame_header_n(n) {
            Some(f) => f.image_data.data(),
            None => {
                let empty: &[u16] = &[];
                assert(empty@ =~= Seq::<u16>::empty());
                empty
            },
        }
    }

    /// The background frame, if the clip starts with one.
    pub fn background_frame(&self) -> (r: Option<&CptvFrame>)
        ensures
            r.is_some() <==> self.bg_offset() == 1,
            r matches Some(f) ==> *f == self.frames_view()[0],
    {
        if self.frames.len() > 0 && self.frames[0].is_background_frame {
            Some(&self.frames[0])
        } else {
            None
        }
    }

    /// The pixels of the background frame, or none if the clip has none.
    pub fn get_background_frame(&self) -> (r: &[u16])
        ensures
            r@ == if self.bg_offset() == 1 {
                self.frames_view()[0].image_data@.pixels
            } else {
                Seq::empty()
            },
    {
        match self.background_frame() {
            Some(f) => f.image_data.data(),
            None => {
                let empty: &[u16] = &[];
                assert(empty@ =~= Seq::<u16>::empty());
                empty
            },
        }
    }

    /// The header, once it has been parsed.
    pub fn get_header(&self) -> (r: Option<&Cptv2Header>)
        ensures
            match r {
                Some(h) => self.header_view() == Some(h@),
                None => self.header_view().is_none(),
            },
    {
        match &self.header {
            Some(h) => Some(h),
            None => None,
        }
    }

    /// The error the clip failed on, if it did.
    pub fn error(&self) -> (r: Option<CptvError>)
        ensures
            r == self.error_view(),
    {
        self.error
    }

    /// The least pixel value over the frames that take part in the range.
    pub fn get_min_value(&self) -> (r: u16)
        ensures
            r == self.stats_view().0,
    {
        self.stats.min_value
    }

    /// The greatest pixel value over the frames that take part in the range.
    pub fn get_max_value(&self) -> (r: u16)
        ensures
            r == self.stats_view().1,
    {
        self.stats.max_value
    }

    /// Whether the transport has said that no more bytes will come.
    pub fn stream_complete(&self) -> (r: bool)
        ensures
            r == self.ended(),
    {
        self.stream_ended
    }

    /// The clip's width.
    pub fn get_width(&self) -> (r: u32)
        requires
            self.header_view() is Some,
        ensures
            r == self.header_view()->Some_0.width,
    {
        match &self.header {
            Some(h) => h.width,
            None => 0,
        }
    }

    /// The clip's height.
    pub fn get_height(&self) -> (r: u32)
        requires
            self.header_view() is Some,
        ensures
            r == self.header_view()->Some_0.height,
    {
        match &self.header {
            Some(h) => h.height,
            None => 0,
        }
    }

    /// The clip's frame rate.
    pub fn get_frame_rate(&self) -> (r: u8)
        requires
            self.header_view() is Some,
        ensures
            r == self.header_view()->Some_0.fps,
    {
        match &self.header {
            Some(h) => h.fps,
            None => 0,
        }
    }

    /// How many frames the clip has, background frame included, once the
    /// stream is complete; zero before.
    pub fn get_num_frames(&self) -> (r: usize)
        ensures
            r == if self.ended() { self.frames_view().len() } else { 0 },
    {
        if self.stream_ended {
            self.frames.len()
        } else {
            0
        }
    }

    /// Whether visible frame `n` has been decoded, or the stream is complete
    /// so that no more frames will come.
    pub fn try_goto_loaded_frame(&self, n: usize) -> (r: bool)
        ensures
            r == (n + self.bg_offset() < self.frames_view().len() || self.ended()),
    {
        match self.get_frame_header_n(n) {
            Some(_) => true,
            None => self.stream_ended,
        }
    }

    /// How many bytes have been received.
    pub fn get_bytes_loaded(&self) -> (r: usize)
        ensures
            r == self.bytes().len(),
    {
        self.decoded.len()
    }
}

/// A decoded version 2 clip: its header and its frames, background frame
/// included.
pub struct Cptv2 {
    pub meta: Cptv2Header,
    pub frames: Vec<CptvFrame>,
}

/// Decodes a whole clip held in `input`: its header and every complete
/// frame, background frame included. A clip that ends inside a record gives
/// the frames before it.
pub fn decode_cptv(input: &[u8]) -> (r: Result<Cptv2, CptvError>)
    ensures
        match r {
            Ok(clip) => {
                &&& stream_spec(input@, clip.frames@.len()) matches Step::Done((hv, recs), _)
                &&& hv == clip.meta@
                &&& recs == frame_records(clip.frames@)
                &&& stream_spec(input@, clip.frames@.len() + 1) is Need
            },
            Err(e) => {
                ||| e == CptvError::TransportExhausted && clip_header_spec(input@) is Need
                ||| clip_header_spec(input@) == Step::<HeaderView>::Fail(e)
                ||| exists|k: nat|
                    stream_spec(input@, k) == Step::<(HeaderView, Seq<FrameRecord>)>::Fail(e)
            },
        },
{
    let mut d = CptvPlayerContext::new();
    d.append_bytes(input);
    d.end_stream();
    assert(d.decoded@ =~= input@);
    loop
        invariant
            d.wf(),
            d.decoded@ == input@,
            d.stream_ended,
            d.error is None,
        ensures
            d.wf(),
            d.decoded@ == input@,
            d.error is None,
            d.pending_need() is Some,
        decreases input@.len() - d.frames@.len(),
    {
        let before = d.frames.len();
        match d.fetch_raw_frame() {
            DecodeStatus::Frame(_) => {},
            DecodeStatus::NeedMoreBytes(_) => {
                return Err(CptvError::TransportExhausted);
            },
            DecodeStatus::StreamEnded => {
                break;
            },
            DecodeStatus::Failed(e) => {
                proof {
                    if d.header is Some {
                        let k: nat = (d.frames@.len() + 1) as nat;
                        assert(stream_spec(input@, k) == Step::<
                            (HeaderView, Seq<FrameRecord>),
                        >::Fail(e));
                    }
                }
                return Err(e);
            },
        }
    }
    match d.header {
        Some(h) => Ok(Cptv2 { meta: h, frames: d.frames }),
        None => Err(CptvError::TransportExhausted),
    }
}

/// The first `j` frames of a stream are the first `j` of its first `k`.
pub proof fn lemma_stream_prefix_frames(s: Seq<u8>, k: nat, j: nat)
    requires
        j <= k,
        stream_spec(s, k) is Done,
    ensures
        stream_spec(s, j) is Done,
        stream_spec(s, j)->Done_0.0 == stream_spec(s, k)->Done_0.0,
        stream_spec(s, j)->Done_0.1 == stream_spec(s, k)->Done_0.1.subrange(0, j as int),
        stream_spec(s, k)->Done_0.1.len() == k,
    decreases k,
{
    if k > 0 {
        let prev = stream_spec(s, (k - 1) as nat);
        assert(prev is Done);
        if j < k {
            lemma_stream_prefix_frames(s, (k - 1) as nat, j);
            let fs = prev->Done_0.1;
            let fk = stream_spec(s, k)->Done_0.1;
            assert(fk.subrange(0, j as int) =~= fs.subrange(0, j as int));
        } else {
            lemma_stream_prefix_frames(s, (k - 1) as nat, (k - 1) as nat);
            assert(stream_spec(s, k)->Done_0.1.subrange(0, k as int) =~= stream_spec(s, k)->Done_0.1);
        }
    } else {
        assert(stream_spec(s, 0)->Done_0.1.subrange(0, 0) =~= stream_spec(s, 0)->Done_0.1);
    }
}

/// Streaming equivalence: of two decoders, one fed a prefix of what the
/// other was fed, however either got its bytes in pieces, the first holds the
/// first frames of the second, equal field for field and pixel for pixel;
/// fed the same bytes and holding as many frames, they hold the same ones.
pub proof fn lemma_streaming_equivalence(a: CptvPlayerContext, b: CptvPlayerContext)
    requires
        a.wf(),
        b.wf(),
        a.header_view() is Some,
        b.header_view() is Some,
        a.bytes().len() <= b.bytes().len(),
        b.bytes().subrange(0, a.bytes().len() as int) == a.bytes(),
        a.frames_view().len() <= b.frames_view().len(),
    ensures
        a.header_view() == b.header_view(),
        frame_records(b.frames_view()).subrange(0, a.frames_view().len() as int) == frame_records(
            a.frames_view(),
        ),
{
    let sa = a.bytes();
    let sb = b.bytes();
    let ka = a.frames_view().len();
    let kb = b.frames_view().len();
    let rest = sb.subrange(sa.len() as int, sb.len() as int);
    assert(sa + rest =~= sb);
    lemma_stream_prefix_stable(sa, rest, ka);
    lemma_stream_prefix_frames(sb, kb, ka);
}

/// Once a stream fails or runs short after `k` frames, reading more frames
/// stops there too.
pub proof fn lemma_stream_stuck(s: Seq<u8>, k: nat, m: nat)
    requires
        k <= m,
        !(stream_spec(s, k) is Done),
    ensures
        stream_spec(s, m) == stream_spec(s, k),
    decreases m - k,
{
    if k < m {
        lemma_stream_stuck(s, k, (m - 1) as nat);
    }
}

/// The bytes of a stream fix how many frames it holds: two counts after
/// which the next record cannot be read are the same count.
pub proof fn lemma_stream_count_unique(s: Seq<u8>, k1: nat, k2: nat)
    requires
        stream_spec(s, k1) is Done,
        !(stream_spec(s, k1 + 1) is Done),
        stream_spec(s, k2) is Done,
        !(stream_spec(s, k2 + 1) is Done),
    ensures
        k1 == k2,
{
    if k1 < k2 {
        lemma_stream_stuck(s, k1 + 1, k2);
    } else if k2 < k1 {
        lemma_stream_stuck(s, k2 + 1, k1);
    }
}

/// Streaming equivalence at the end of a stream: two decoders that received
/// the same bytes, however they were split into pieces, and that both
/// reported the end of the stream, hold the same header, the same frames,
/// field for field and pixel for pixel, and the same clip range.
pub proof fn lemma_stream_end_equivalence(a: CptvPlayerContext, b: CptvPlayerContext)
    requires
        CptvPlayerContext::holds_stream(a),
        CptvPlayerContext::holds_stream(b),
        a.bytes() == b.bytes(),
        a.header_view() is Some,
        b.header_view() is Some,
        a.pending_need() is Some,
        b.pending_need() is Some,
    ensures
        a.header_view() == b.header_view(),
        frame_records(a.frames_view()) == frame_records(b.frames_view()),
        a.stats_view() == b.stats_view(),
{
    let s = a.bytes();
    lemma_stream_count_unique(s, a.frames_view().len(), b.frames_view().len());
    let fa = a.frames_view();
    let fb = b.frames_view();
    let ra = frame_records(fa);
    let rb = frame_records(fb);
    assert forall|j: int| 0 <= j < fa.len() implies #[trigger] stat_of(fa[j]) == stat_of(fb[j]) by {
        assert(ra[j] == rb[j]);
    }
    assert(fa.map_values(|f: CptvFrame| stat_of(f)) =~= fb.map_values(|f: CptvFrame| stat_of(f)));
}

/// The clip range a decoder keeps is the range over exactly the decoded
/// frames that take part in it.
pub proof fn lemma_decoder_stats(d: CptvPlayerContext)
    requires
        d.wf(),
    ensures
        d.stats_view() == crate::stats::range_of(
            d.frames_view().map_values(|f: CptvFrame| stat_of(f)).filter(
                |f: crate::stats::FrameStat| crate::stats::contributes(f),
            ),
        ),
{
    crate::stats::lemma_stats_exclusion(d.frames_view().map_values(|f: CptvFrame| stat_of(f)));
}

} // verus!
