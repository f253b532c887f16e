//! Clip-wide pixel range, kept as frames decode. Frames whose minimum is
//! zero are taken for glitched reads, and frames within five seconds after a
//! flat-field calibration are left out, unless they are background frames.
use vstd::prelude::*;
use crate::container::CptvFrame;

verus! {

/// How long after a flat-field calibration a frame is left out, in ms.
pub const FFC_WINDOW_MS: u32 = 5000;

/// What the statistics read of a frame.
pub ghost struct FrameStat {
    pub min: u16,
    pub max: u16,
    pub time_on: u32,
    pub last_ffc_time: Option<u32>,
    pub is_background_frame: bool,
}

/// The statistics' reading of a decoded frame.
pub open spec fn stat_of(f: CptvFrame) -> FrameStat {
    FrameStat {
        min: f.image_data@.min,
        max: f.image_data@.max,
        time_on: f.time_on,
        last_ffc_time: f.last_ffc_time,
        is_background_frame: f.is_background_frame,
    }
}

/// Whether a frame was taken less than the window after the last calibration.
pub open spec fn within_ffc(time_on: u32, last_ffc_time: Option<u32>) -> bool {
    match last_ffc_time {
        Some(c) => (time_on as int - c as int) < (FFC_WINDOW_MS as int),
        None => false,
    }
}

/// Whether a frame takes part in the clip's range.
pub open spec fn contributes(f: FrameStat) -> bool {
    f.min != 0 && (f.is_background_frame || !within_ffc(f.time_on, f.last_ffc_time))
}

/// The smallest minimum and greatest maximum over `fs`, starting from
/// `(u16::MAX, 0)`.
pub open spec fn range_of(fs: Seq<FrameStat>) -> (u16, u16)
    decreases fs.len(),
{
    if fs.len() == 0 {
        (u16::MAX, 0)
    } else {
        let (lo, hi) = range_of(fs.drop_last());
        let f = fs.last();
        (if f.min < lo { f.min } else { lo }, if f.max > hi { f.max } else { hi })
    }
}

/// The range as kept frame by frame: each frame widens it when it takes part.
pub open spec fn running_stats(fs: Seq<FrameStat>) -> (u16, u16)
    decreases fs.len(),
{
    if fs.len() == 0 {
        (u16::MAX, 0)
    } else {
        let (lo, hi) = running_stats(fs.drop_last());
        let f = fs.last();
        if contributes(f) {
            (if f.min < lo { f.min } else { lo }, if f.max > hi { f.max } else { hi })
        } else {
            (lo, hi)
        }
    }
}

/// The range kept frame by frame is the range over exactly the frames that
/// take part: nonzero minimum, and a background frame or one taken at least
/// the window after the last calibration (or with none recorded).
pub proof fn lemma_stats_exclusion(fs: Seq<FrameStat>)
    ensures
        running_stats(fs) == range_of(fs.filter(|f: FrameStat| contributes(f))),
    decreases fs.len(),
{
    reveal(Seq::filter);
    if fs.len() > 0 {
        lemma_stats_exclusion(fs.drop_last());
        let sub = fs.drop_last().filter(|f: FrameStat| contributes(f));
        if contributes(fs.last()) {
            assert(sub.push(fs.last()).drop_last() =~= sub);
        }
    }
}

/// Whether `frame` takes part in the clip's range.
pub fn frame_contributes(frame: &CptvFrame) -> (r: bool)
    ensures
        r == contributes(stat_of(*frame)),
{
    let within = match frame.last_ffc_time {
        Some(c) => (frame.time_on as i64 - c as i64) < FFC_WINDOW_MS as i64,
        None => false,
    };
    frame.image_data.min() != 0 && (frame.is_background_frame || !within)
}

/// The clip's pixel range over the frames that take part.
#[derive(Clone, Copy, Debug, PartialEq, Eq, Structural)]
pub struct ClipStats {
    pub min_value: u16,
    pub max_value: u16,
}

impl ClipStats {
    /// The range before any frame: `u16::MAX` to `0`.
    pub fn new() -> (r: ClipStats)
        ensures
            (r.min_value, r.max_value) == running_stats(Seq::empty()),
    {
        ClipStats { min_value: u16::MAX, max_value: 0 }
    }

    /// Widens the range by `frame` when it takes part.
    pub fn update(&mut self, frame: &CptvFrame)
        ensures
            ({
                let f = stat_of(*frame);
                let lo = old(self).min_value;
                let hi = old(self).max_value;
                (final(self).min_value, final(self).max_value) == if contributes(f) {
                    (if f.min < lo { f.min } else { lo }, if f.max > hi { f.max } else { hi })
                } else {
                    (lo, hi)
                }
            }),
    {
        if frame_contributes(frame) {
            let lo = frame.image_data.min();
            let hi = frame.image_data.max();
            if lo < self.min_value {
                self.min_value = lo;
            }
            if hi > self.max_value {
                self.max_value = hi;
            }
        }
    }
}

} // verus!
