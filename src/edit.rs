//! Cuts, tracks and the timeline that owns them. Clips live outside the
//! library; cuts name them by handle.
use vstd::prelude::*;
use crate::index::{CutRef, RegionIndex, RegionModel, indexes, lists_active, reports_invalid, all_valid};

verus! {

/// A point in time, counted in ticks. Callers that hold seconds convert them
/// into ticks before they reach the library; any tick count is finite.
pub type Time = i64;

/// A stable handle into a clip registry that lives outside the timeline.
#[derive(Clone, Copy, Debug, PartialEq, Eq, Structural)]
pub struct ClipId(pub usize);

/// Why a cut was refused.
#[derive(Clone, Copy, Debug, PartialEq, Eq, Structural)]
pub enum ConstraintViolation {
    /// The input time lies after the output time.
    InvertedRange,
    /// The end of the absolute active window does not fit in a `Time`.
    WindowOutOfRange,
}

/// A cut slices a clip between an input time and an output time, and places
/// that slice on a track at an instance time.
#[derive(Clone, Copy, Debug, PartialEq, Eq, Structural)]
pub struct Cut {
    pub in_time: Time,
    pub out_time: Time,
    pub inst_time: Time,
    pub clip: ClipId,
}

/// First instant of the cut's absolute active window.
pub open spec fn window_start(c: Cut) -> int {
    c.inst_time as int
}

/// First instant after the cut's absolute active window (half-open end).
pub open spec fn window_end(c: Cut) -> int {
    c.inst_time + (c.out_time - c.in_time)
}

/// A cut that the library accepts: ordered range, representable window end.
pub open spec fn cut_is_valid(c: Cut) -> bool {
    &&& c.in_time <= c.out_time
    &&& window_end(c) <= i64::MAX
}

/// Why a cut with these times is refused, if it is.
pub open spec fn violation_of(c: Cut) -> Option<ConstraintViolation> {
    if c.in_time > c.out_time {
        Some(ConstraintViolation::InvertedRange)
    } else if window_end(c) > i64::MAX {
        Some(ConstraintViolation::WindowOutOfRange)
    } else {
        None
    }
}

/// Whether the cut's absolute active window holds the instant `t`.
pub open spec fn window_contains(c: Cut, t: int) -> bool {
    window_start(c) <= t < window_end(c)
}

/// Checks a cut's times; `None` when the cut is valid.
pub fn check_cut(c: &Cut) -> (r: Option<ConstraintViolation>)
    ensures
        r == violation_of(*c),
        r.is_none() <==> cut_is_valid(*c),
{
    if c.in_time > c.out_time {
        Some(ConstraintViolation::InvertedRange)
    } else {
        let end: i128 = c.inst_time as i128 + (c.out_time as i128 - c.in_time as i128);
        if end > i64::MAX as i128 {
            Some(ConstraintViolation::WindowOutOfRange)
        } else {
            None
        }
    }
}

impl Cut {
    /// Builds a cut; fails, without reordering or clamping anything, when
    /// `in_time > out_time` or when the window end does not fit in a `Time`.
    pub fn new(in_time: Time, out_time: Time, inst_time: Time, clip: ClipId) -> (r: Result<Cut, ConstraintViolation>)
        ensures
            ({
                let c = Cut { in_time, out_time, inst_time, clip };
                match violation_of(c) {
                    Some(v) => r == Err::<Cut, ConstraintViolation>(v),
                    None => r == Ok::<Cut, ConstraintViolation>(c),
                }
            }),
    {
        let c = Cut { in_time, out_time, inst_time, clip };
        match check_cut(&c) {
            Some(v) => Err(v),
            None => Ok(c),
        }
    }

    /// The clip's local time at global time `t`: `in_time + (t - inst_time)`.
    pub fn local_time_at(&self, t: Time) -> (r: Time)
        requires
            window_contains(*self, t as int),
        ensures
            r == self.in_time + (t - self.inst_time),
            self.in_time <= r < self.out_time,
    {
        let d: i128 = t as i128 - self.inst_time as i128;
        (self.in_time as i128 + d) as i64
    }
}

} // verus!

verus! {

/// An append-only, insertion-ordered list of cuts. Overlapping cuts are
/// allowed.
#[derive(Clone, Debug)]
pub struct Track {
    cuts: Vec<Cut>,
}

impl View for Track {
    type V = Seq<Cut>;

    closed spec fn view(&self) -> Seq<Cut> {
        self.cuts@
    }
}

impl Track {
    /// An empty track.
    pub fn new() -> (r: Track)
        ensures
            r@ == Seq::<Cut>::empty(),
    {
        Track { cuts: Vec::new() }
    }

    /// Appends a cut; nothing is checked or reordered.
    pub fn add_cut(&mut self, cut: Cut)
        ensures
            final(self)@ == old(self)@.push(cut),
    {
        self.cuts.push(cut);
    }

    /// A track holding these cuts, in this order.
    pub fn from_cuts(cuts: &[Cut]) -> (r: Track)
        ensures
            r@ == cuts@,
    {
        let mut v: Vec<Cut> = Vec::new();
        let mut i: usize = 0;
        while i < cuts.len()
            invariant
                i <= cuts@.len(),
                v@ == cuts@.subrange(0, i as int),
            decreases cuts@.len() - i,
        {
            v.push(cuts[i]);
            i += 1;
            assert(v@ =~= cuts@.subrange(0, i as int));
        }
        assert(v@ =~= cuts@);
        Track { cuts: v }
    }

    /// Number of cuts.
    pub fn len(&self) -> (r: usize)
        ensures
            r == self@.len(),
    {
        self.cuts.len()
    }

    /// A track with the same cuts.
    pub fn duplicate(&self) -> (r: Track)
        ensures
            r@ == self@,
    {
        Track::from_cuts(self.cuts.as_slice())
    }

    /// The cuts, in insertion order.
    pub fn cuts(&self) -> (r: &Vec<Cut>)
        ensures
            r@ == self@,
    {
        &self.cuts
    }
}

/// The cuts of each track, track by track.
pub open spec fn tracks_view(ts: Seq<Track>) -> Seq<Seq<Cut>> {
    ts.map_values(|t: Track| t@)
}

/// Why a timeline cannot answer, or could not build its index.
#[derive(Clone, Debug)]
pub enum TimelineError {
    /// Exactly one cut of the timeline is invalid: which one, and why.
    ConstraintViolation(CutRef, ConstraintViolation),
    /// Several cuts are invalid: all of them, in ascending order.
    BuildFailure(Vec<CutRef>),
    /// The index was never built, was invalidated by a change, or failed to
    /// build.
    IndexNotReady,
}

/// Tracks of cuts, and the region index derived from them. Any change to the
/// tracks discards the index until it is built again; a build that fails
/// leaves no index.
pub struct Timeline {
    tracks: Vec<Track>,
    index: Option<RegionIndex>,
}

impl View for Timeline {
    type V = Seq<Seq<Cut>>;

    closed spec fn view(&self) -> Seq<Seq<Cut>> {
        tracks_view(self.tracks@)
    }
}

impl Timeline {
    #[verifier::type_invariant]
    spec fn inv(&self) -> bool {
        match self.index {
            Some(x) => x.source() == tracks_view(self.tracks@) && indexes(tracks_view(self.tracks@), x@),
            None => true,
        }
    }

    /// Whether the index is built and reflects the current tracks.
    pub closed spec fn is_ready(&self) -> bool {
        self.index.is_some()
    }

    /// The regions of the built index.
    pub closed spec fn index_view(&self) -> Seq<RegionModel> {
        self.index.unwrap()@
    }

    /// A timeline without tracks and without index.
    pub fn new() -> (r: Timeline)
        ensures
            r@ == Seq::<Seq<Cut>>::empty(),
            !r.is_ready(),
    {
        Timeline { tracks: Vec::new(), index: None }
    }

    /// A timeline holding copies of these tracks, without index.
    pub fn from_tracks(tracks: &[Track]) -> (r: Timeline)
        ensures
            r@ == tracks_view(tracks@),
            !r.is_ready(),
    {
        let mut v: Vec<Track> = Vec::new();
        let mut i: usize = 0;
        while i < tracks.len()
            invariant
                i <= tracks@.len(),
                v@.len() == i,
                forall|j: int| 0 <= j < i ==> (#[trigger] v@[j])@ == tracks@[j]@,
            decreases tracks@.len() - i,
        {
            let t = tracks[i].duplicate();
            v.push(t);
            i += 1;
        }
        assert(tracks_view(v@) =~= tracks_view(tracks@));
        Timeline { tracks: v, index: None }
    }

    /// Appends a track; the index is discarded.
    pub fn add_track(&mut self, track: Track)
        ensures
            final(self)@ == old(self)@.push(track@),
            !final(self).is_ready(),
    {
        self.index = None;
        let mut tracks: Vec<Track> = Vec::new();
        std::mem::swap(&mut self.tracks, &mut tracks);
        tracks.push(track);
        self.tracks = tracks;
        assert(tracks_view(self.tracks@) =~= old(self)@.push(track@));
    }

    /// Builds the index from the current tracks and swaps it in. On failure
    /// no index is left: queries then report that the index is not ready.
    pub fn build_index(&mut self) -> (r: Result<(), TimelineError>)
        ensures
            final(self)@ == old(self)@,
            r.is_ok() <==> all_valid(old(self)@),
            r.is_ok() <==> final(self).is_ready(),
            match r {
                Ok(_) => indexes(final(self)@, final(self).index_view()),
                Err(e) => reports_invalid(old(self)@, e),
            },
    {
        match RegionIndex::build(&self.tracks) {
            Ok(x) => {
                self.index = Some(x);
                Ok(())
            },
            Err(e) => {
                self.index = None;
                Err(e)
            },
        }
    }

    /// The cuts active at `t`, in ascending order, when the index is ready.
    pub fn cuts_at(&self, t: Time) -> (r: Result<Vec<CutRef>, TimelineError>)
        ensures
            r.is_ok() <==> self.is_ready(),
            match r {
                Ok(v) => lists_active(self@, v@, t as int),
                Err(e) => e is IndexNotReady,
            },
    {
        proof {
            use_type_invariant(self);
        }
        match &self.index {
            Some(x) => Ok(x.cuts_at(t)),
            None => Err(TimelineError::IndexNotReady),
        }
    }

    /// Like `cuts_at`, with a cursor that speeds up queries at increasing
    /// times; the answer does not depend on the cursor.
    pub fn cuts_at_from(&self, t: Time, cursor: &mut usize) -> (r: Result<Vec<CutRef>, TimelineError>)
        ensures
            r.is_ok() <==> self.is_ready(),
            match r {
                Ok(v) => lists_active(self@, v@, t as int),
                Err(e) => e is IndexNotReady,
            },
    {
        proof {
            use_type_invariant(self);
        }
        match &self.index {
            Some(x) => Ok(x.cuts_at_from(t, cursor)),
            None => Err(TimelineError::IndexNotReady),
        }
    }

    /// The tracks, in the order they were added.
    pub fn tracks(&self) -> (r: &Vec<Track>)
        ensures
            tracks_view(r@) == self@,
    {
        &self.tracks
    }
}

} // verus!
