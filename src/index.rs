//! The region index: a sorted sequence of disjoint time intervals, each
//! tagged with the constant set of cuts active over it.
use vstd::prelude::*;
use crate::edit::{Cut, Time, TimelineError, Track, tracks_view, violation_of, window_contains, window_end, window_start, cut_is_valid};

verus! {

/// Names one cut of a timeline: its track's position and its position in
/// that track.
#[derive(Clone, Copy, Debug, PartialEq, Eq, Structural)]
pub struct CutRef {
    pub track: usize,
    pub cut: usize,
}

/// Whether `r` names a cut of `tracks`.
pub open spec fn names_cut(tracks: Seq<Seq<Cut>>, r: CutRef) -> bool {
    r.track < tracks.len() && r.cut < tracks[r.track as int].len()
}

/// The cut that `r` names.
pub open spec fn cut_of(tracks: Seq<Seq<Cut>>, r: CutRef) -> Cut {
    tracks[r.track as int][r.cut as int]
}

/// The brute-force answer: the cut named by `r` is active at `t`.
pub open spec fn is_active(tracks: Seq<Seq<Cut>>, r: CutRef, t: int) -> bool {
    names_cut(tracks, r) && window_contains(cut_of(tracks, r), t)
}

/// Every cut of every track is valid.
pub open spec fn all_valid(tracks: Seq<Seq<Cut>>) -> bool {
    forall|r: CutRef| names_cut(tracks, r) ==> cut_is_valid(#[trigger] cut_of(tracks, r))
}

/// Order of cut references: by track, then by position in the track.
pub open spec fn ref_less(a: CutRef, b: CutRef) -> bool {
    a.track < b.track || (a.track == b.track && a.cut < b.cut)
}

/// Strictly ascending cut references (hence without repetition).
pub open spec fn refs_ascending(s: Seq<CutRef>) -> bool {
    forall|i: int, j: int| 0 <= i < j < s.len() ==> ref_less(#[trigger] s[i], #[trigger] s[j])
}

/// `s` lists, in ascending order, exactly the cuts active at `t`.
pub open spec fn lists_active(tracks: Seq<Seq<Cut>>, s: Seq<CutRef>, t: int) -> bool {
    &&& refs_ascending(s)
    &&& forall|r: CutRef| #[trigger] s.contains(r) <==> is_active(tracks, r, t)
}

/// The set of active cuts differs between `t - 1` and `t`.
pub open spec fn changes_at(tracks: Seq<Seq<Cut>>, t: int) -> bool {
    exists|r: CutRef| is_active(tracks, r, t - 1) != #[trigger] is_active(tracks, r, t)
}

/// Inserts `r` into an ascending list, keeping it ascending.
fn insert_ref(v: &mut Vec<CutRef>, r: CutRef)
    requires
        refs_ascending(old(v)@),
    ensures
        refs_ascending(final(v)@),
        forall|x: CutRef| #[trigger] final(v)@.contains(x) <==> (old(v)@.contains(x) || x == r),
{
    let mut i: usize = 0;
    while i < v.len() && (v[i].track < r.track || (v[i].track == r.track && v[i].cut < r.cut))
        invariant
            i <= v@.len(),
            forall|j: int| 0 <= j < i ==> ref_less(#[trigger] v@[j], r),
        decreases v@.len() - i,
    {
        i += 1;
    }
    if i < v.len() && v[i].track == r.track && v[i].cut == r.cut {
        assert(v@[i as int] == r);
        assert(v@.contains(r));
        return;
    }
    let ghost pre = v@;
    v.insert(i, r);
    assert forall|x: CutRef| #[trigger] v@.contains(x) <==> (pre.contains(x) || x == r) by {
        if v@.contains(x) {
            let j = choose|j: int| 0 <= j < v@.len() && v@[j] == x;
            if j < i {
                assert(pre[j] == x);
            } else if j > i {
                assert(pre[j - 1] == x);
            }
        }
        if pre.contains(x) {
            let j = choose|j: int| 0 <= j < pre.len() && pre[j] == x;
            if j < i {
                assert(v@[j] == x);
            } else {
                assert(v@[j + 1] == x);
            }
        }
        if x == r {
            assert(v@[i as int] == r);
        }
    }
}

/// Removes `r` from an ascending list, keeping it ascending.
fn remove_ref(v: &mut Vec<CutRef>, r: CutRef)
    requires
        refs_ascending(old(v)@),
    ensures
        refs_ascending(final(v)@),
        forall|x: CutRef| #[trigger] final(v)@.contains(x) <==> (old(v)@.contains(x) && x != r),
{
    let mut i: usize = 0;
    while i < v.len() && !(v[i].track == r.track && v[i].cut == r.cut)
        invariant
            i <= v@.len(),
            forall|j: int| 0 <= j < i ==> #[trigger] v@[j] != r,
        decreases v@.len() - i,
    {
        i += 1;
    }
    if i == v.len() {
        assert forall|x: CutRef| #[trigger] v@.contains(x) implies x != r by {
            let j = choose|j: int| 0 <= j < v@.len() && v@[j] == x;
        }
        return;
    }
    let ghost pre = v@;
    v.remove(i);
    assert forall|x: CutRef| #[trigger] v@.contains(x) <==> (pre.contains(x) && x != r) by {
        if v@.contains(x) {
            let j = choose|j: int| 0 <= j < v@.len() && v@[j] == x;
            if j < i {
                assert(pre[j] == x);
                assert(ref_less(pre[j], pre[i as int]));
            } else {
                assert(pre[j + 1] == x);
                assert(ref_less(pre[i as int], pre[j + 1]));
            }
        }
        if pre.contains(x) && x != r {
            let j = choose|j: int| 0 <= j < pre.len() && pre[j] == x;
            if j < i {
                assert(v@[j] == x);
            } else {
                assert(j != i);
                assert(v@[j - 1] == x);
            }
        }
    }
}

/// Every element of `s.push(x)` is an element of `s` or `x`.
proof fn lemma_contains_push<A>(s: Seq<A>, x: A)
    ensures
        forall|e: A| #[trigger] s.push(x).contains(e) <==> (s.contains(e) || e == x),
{
    assert forall|e: A| #[trigger] s.push(x).contains(e) <==> (s.contains(e) || e == x) by {
        if s.push(x).contains(e) {
            let j = choose|j: int| 0 <= j < s.push(x).len() && s.push(x)[j] == e;
            if j < s.len() {
                assert(s[j] == e);
            }
        }
        if s.contains(e) {
            let j = choose|j: int| 0 <= j < s.len() && s[j] == e;
            assert(s.push(x)[j] == e);
        }
        if e == x {
            assert(s.push(x)[s.len() as int] == e);
        }
    }
}

/// A prefix extended by one more element of the same sequence.
proof fn lemma_prefix_grows<A>(s: Seq<A>, i: int)
    requires
        0 <= i < s.len(),
    ensures
        forall|e: A| #[trigger] s.subrange(0, i + 1).contains(e) <==> (s.subrange(0, i).contains(e) || e == s[i]),
{
    assert(s.subrange(0, i + 1) =~= s.subrange(0, i).push(s[i]));
    lemma_contains_push(s.subrange(0, i), s[i]);
}

/// One boundary of a cut's active window: its start or its end.
#[derive(Clone, Copy, Debug, PartialEq, Eq, Structural)]
struct Event {
    time: Time,
    is_start: bool,
    cut: CutRef,
}

/// Event order: by time; at equal times, ends before starts.
spec fn event_le(a: Event, b: Event) -> bool {
    a.time < b.time || (a.time == b.time && (!a.is_start || b.is_start))
}

spec fn events_sorted(s: Seq<Event>) -> bool {
    forall|i: int, j: int| 0 <= i < j < s.len() ==> event_le(#[trigger] s[i], #[trigger] s[j])
}

fn event_le_exec(a: &Event, b: &Event) -> (r: bool)
    ensures
        r == event_le(*a, *b),
{
    a.time < b.time || (a.time == b.time && (!a.is_start || b.is_start))
}

/// Merges two sorted event lists.
fn merge_events(a: Vec<Event>, b: Vec<Event>) -> (r: Vec<Event>)
    requires
        events_sorted(a@),
        events_sorted(b@),
    ensures
        events_sorted(r@),
        forall|e: Event| #[trigger] r@.contains(e) <==> (a@.contains(e) || b@.contains(e)),
{
    let mut r: Vec<Event> = Vec::new();
    let mut i: usize = 0;
    let mut j: usize = 0;
    while i < a.len() || j < b.len()
        invariant
            i <= a@.len(),
            j <= b@.len(),
            events_sorted(a@),
            events_sorted(b@),
            events_sorted(r@),
            forall|p: int, q: int| 0 <= p < r@.len() && i <= q < a@.len() ==> event_le(#[trigger] r@[p], #[trigger] a@[q]),
            forall|p: int, q: int| 0 <= p < r@.len() && j <= q < b@.len() ==> event_le(#[trigger] r@[p], #[trigger] b@[q]),
            forall|e: Event| #[trigger] r@.contains(e) <==> (a@.subrange(0, i as int).contains(e) || b@.subrange(0, j as int).contains(e)),
        decreases a@.len() - i + b@.len() - j,
    {
        let ghost pre = r@;
        if j >= b.len() || (i < a.len() && event_le_exec(&a[i], &b[j])) {
            let x = a[i];
            proof {
                lemma_contains_push(pre, x);
                lemma_prefix_grows(a@, i as int);
                assert forall|q: int| j <= q < b@.len() implies event_le(x, #[trigger] b@[q]) by {
                    if q > j {
                        assert(event_le(b@[j as int], b@[q]));
                    }
                }
            }
            r.push(x);
            i += 1;
            assert forall|p: int, q: int| 0 <= p < r@.len() && i <= q < a@.len() implies event_le(#[trigger] r@[p], #[trigger] a@[q]) by {
                if p < pre.len() {
                    assert(r@[p] == pre[p]);
                } else {
                    assert(event_le(a@[i - 1], a@[q]));
                }
            }
            assert forall|p: int, q: int| 0 <= p < r@.len() && j <= q < b@.len() implies event_le(#[trigger] r@[p], #[trigger] b@[q]) by {
                if p < pre.len() {
                    assert(r@[p] == pre[p]);
                }
            }
        } else {
            let x = b[j];
            proof {
                lemma_contains_push(pre, x);
                lemma_prefix_grows(b@, j as int);
                assert forall|q: int| i <= q < a@.len() implies event_le(x, #[trigger] a@[q]) by {
                    if q > i {
                        assert(event_le(a@[i as int], a@[q]));
                    }
                }
            }
            r.push(x);
            j += 1;
            assert forall|p: int, q: int| 0 <= p < r@.len() && j <= q < b@.len() implies event_le(#[trigger] r@[p], #[trigger] b@[q]) by {
                if p < pre.len() {
                    assert(r@[p] == pre[p]);
                } else {
                    assert(event_le(b@[j - 1], b@[q]));
                }
            }
            assert forall|p: int, q: int| 0 <= p < r@.len() && i <= q < a@.len() implies event_le(#[trigger] r@[p], #[trigger] a@[q]) by {
                if p < pre.len() {
                    assert(r@[p] == pre[p]);
                }
            }
        }
    }
    assert(a@.subrange(0, a@.len() as int) =~= a@);
    assert(b@.subrange(0, b@.len() as int) =~= b@);
    r
}

/// Sorts events by `event_le` (merge sort).
fn sort_events(v: Vec<Event>) -> (r: Vec<Event>)
    ensures
        events_sorted(r@),
        forall|e: Event| #[trigger] r@.contains(e) <==> v@.contains(e),
    decreases v@.len(),
{
    if v.len() <= 1 {
        return v;
    }
    let mid: usize = v.len() / 2;
    let mut left: Vec<Event> = Vec::new();
    let mut right: Vec<Event> = Vec::new();
    let mut i: usize = 0;
    while i < v.len()
        invariant
            mid < v@.len(),
            i <= v@.len(),
            i <= mid ==> left@ == v@.subrange(0, i as int) && right@.len() == 0,
            i > mid ==> left@ == v@.subrange(0, mid as int) && right@ == v@.subrange(mid as int, i as int),
        decreases v@.len() - i,
    {
        if i < mid {
            left.push(v[i]);
            assert(left@ =~= v@.subrange(0, i + 1));
        } else {
            right.push(v[i]);
            assert(right@ =~= v@.subrange(mid as int, i + 1));
        }
        i += 1;
    }
    assert(v@ =~= left@ + right@);
    let ls = sort_events(left);
    let rs = sort_events(right);
    let r = merge_events(ls, rs);
    assert forall|e: Event| #[trigger] r@.contains(e) <==> v@.contains(e) by {
        if v@.contains(e) {
            let k = choose|k: int| 0 <= k < v@.len() && v@[k] == e;
            if k < mid {
                assert(left@[k] == e);
            } else {
                assert(right@[k - mid] == e);
            }
        }
        if left@.contains(e) {
            let k = choose|k: int| 0 <= k < left@.len() && left@[k] == e;
            assert(v@[k] == e);
        }
        if right@.contains(e) {
            let k = choose|k: int| 0 <= k < right@.len() && right@[k] == e;
            assert(v@[k + mid] == e);
        }
    }
    r
}

/// The cut named by `r` exists and has a non-empty window.
spec fn has_window(tracks: Seq<Seq<Cut>>, r: CutRef) -> bool {
    names_cut(tracks, r) && cut_of(tracks, r).in_time < cut_of(tracks, r).out_time
}

spec fn start_event(tracks: Seq<Seq<Cut>>, r: CutRef) -> Event {
    Event { time: window_start(cut_of(tracks, r)) as i64, is_start: true, cut: r }
}

spec fn end_event(tracks: Seq<Seq<Cut>>, r: CutRef) -> Event {
    Event { time: window_end(cut_of(tracks, r)) as i64, is_start: false, cut: r }
}

/// `e` is the start or the end of a non-empty window of a valid cut.
spec fn event_of(tracks: Seq<Seq<Cut>>, e: Event) -> bool {
    &&& has_window(tracks, e.cut)
    &&& cut_is_valid(cut_of(tracks, e.cut))
    &&& e == (if e.is_start { start_event(tracks, e.cut) } else { end_event(tracks, e.cut) })
}

spec fn events_sound(tracks: Seq<Seq<Cut>>, ev: Seq<Event>) -> bool {
    forall|i: int| 0 <= i < ev.len() ==> event_of(tracks, #[trigger] ev[i])
}

spec fn events_complete(tracks: Seq<Seq<Cut>>, ev: Seq<Event>) -> bool {
    forall|r: CutRef| #[trigger] has_window(tracks, r) ==> ev.contains(start_event(tracks, r)) && ev.contains(end_event(tracks, r))
}

/// Both boundary events of every cut with a non-empty window.
fn collect_events(tracks: &Vec<Track>) -> (ev: Vec<Event>)
    requires
        all_valid(tracks_view(tracks@)),
    ensures
        events_sound(tracks_view(tracks@), ev@),
        events_complete(tracks_view(tracks@), ev@),
{
    let ghost tv = tracks_view(tracks@);
    let mut ev: Vec<Event> = Vec::new();
    let mut ti: usize = 0;
    while ti < tracks.len()
        invariant
            tv == tracks_view(tracks@),
            all_valid(tv),
            ti <= tracks@.len(),
            events_sound(tv, ev@),
            forall|r: CutRef| #[trigger] has_window(tv, r) && r.track < ti ==> ev@.contains(start_event(tv, r)) && ev@.contains(end_event(tv, r)),
        decreases tracks@.len() - ti,
    {
        let cuts = tracks[ti].cuts();
        assert(cuts@ == tv[ti as int]);
        let mut ci: usize = 0;
        while ci < cuts.len()
            invariant
                tv == tracks_view(tracks@),
                all_valid(tv),
                ti < tracks@.len(),
                cuts@ == tv[ti as int],
                ci <= cuts@.len(),
                events_sound(tv, ev@),
                forall|r: CutRef| #[trigger] has_window(tv, r) && (r.track < ti || (r.track == ti && r.cut < ci)) ==> ev@.contains(start_event(tv, r)) && ev@.contains(end_event(tv, r)),
            decreases cuts@.len() - ci,
        {
            let c = cuts[ci];
            let ghost r = CutRef { track: ti, cut: ci };
            assert(cut_of(tv, r) == c);
            assert(cut_is_valid(cut_of(tv, r)));
            if c.in_time < c.out_time {
                let end: i64 = (c.inst_time as i128 + (c.out_time as i128 - c.in_time as i128)) as i64;
                let s = Event { time: c.inst_time, is_start: true, cut: CutRef { track: ti, cut: ci } };
                let e = Event { time: end, is_start: false, cut: CutRef { track: ti, cut: ci } };
                assert(s == start_event(tv, r));
                assert(e == end_event(tv, r));
                let ghost pre = ev@;
                ev.push(s);
                ev.push(e);
                proof {
                    lemma_contains_push(pre, s);
                    lemma_contains_push(pre.push(s), e);
                    assert(ev@ == pre.push(s).push(e));
                    assert forall|i: int| 0 <= i < ev@.len() implies event_of(tv, #[trigger] ev@[i]) by {
                        if i < pre.len() {
                            assert(ev@[i] == pre[i]);
                        }
                    }
                }
            }
            ci += 1;
        }
        ti += 1;
    }
    ev
}

/// In sorted events, the prefix that ends at `k` (at the end of a run of equal
/// times) holds exactly the events no later than `ev[k]`.
proof fn lemma_prefix_by_time(ev: Seq<Event>, k: int, e: Event)
    requires
        events_sorted(ev),
        0 <= k,
        k + 1 < ev.len(),
        ev[k].time < ev[k + 1].time,
        ev.contains(e),
    ensures
        ev.subrange(0, k + 1).contains(e) <==> e.time <= ev[k].time,
        e.time <= ev[k].time || e.time >= ev[k + 1].time,
{
    let j = choose|j: int| 0 <= j < ev.len() && ev[j] == e;
    if j < k {
        assert(event_le(ev[j], ev[k]));
    }
    if j > k + 1 {
        assert(event_le(ev[k + 1], ev[j]));
    }
    if j <= k {
        assert(ev.subrange(0, k + 1)[j] == e);
    }
    if ev.subrange(0, k + 1).contains(e) {
        let pre = ev.subrange(0, k + 1);
        let i = choose|i: int| 0 <= i < pre.len() && pre[i] == e;
        assert(ev[i] == e);
        if i < k {
            assert(event_le(ev[i], ev[k]));
        }
    }
}

/// The set of active cuts changes at the time of every boundary event.
proof fn lemma_changes_at_event(tracks: Seq<Seq<Cut>>, e: Event)
    requires
        event_of(tracks, e),
    ensures
        changes_at(tracks, e.time as int),
{
    let r = e.cut;
    if e.is_start {
        assert(is_active(tracks, r, e.time as int) != is_active(tracks, r, e.time - 1));
    } else {
        assert(is_active(tracks, r, e.time as int) != is_active(tracks, r, e.time - 1));
    }
}

/// A maximal time interval `[in_time, out_time)` over which the set of active
/// cuts, listed in ascending order, is constant and non-empty.
#[derive(Clone, Debug)]
pub struct Region {
    pub in_time: Time,
    pub out_time: Time,
    pub cuts: Vec<CutRef>,
}

/// A region as plain values: start, end, active cuts.
pub type RegionModel = (Time, Time, Seq<CutRef>);

impl View for Region {
    type V = RegionModel;

    open spec fn view(&self) -> RegionModel {
        (self.in_time, self.out_time, self.cuts@)
    }
}

/// The regions' views, in order.
pub open spec fn regions_view(rs: Seq<Region>) -> Seq<RegionModel> {
    rs.map_values(|g: Region| g@)
}

/// A region is non-empty in time and in cuts, lists the active cuts at each of
/// its instants, and cannot be extended: the active set changes at both ends.
pub open spec fn region_ok(tracks: Seq<Seq<Cut>>, g: RegionModel) -> bool {
    &&& g.0 < g.1
    &&& g.2.len() > 0
    &&& forall|t: int| g.0 <= t < g.1 ==> #[trigger] lists_active(tracks, g.2, t)
    &&& changes_at(tracks, g.0 as int)
    &&& changes_at(tracks, g.1 as int)
}

/// Regions ascend in time and do not overlap.
pub open spec fn regions_ordered(rs: Seq<RegionModel>) -> bool {
    forall|i: int, j: int| 0 <= i < j < rs.len() ==> (#[trigger] rs[i]).1 <= (#[trigger] rs[j]).0
}

/// Position of the region holding `t`.
pub open spec fn region_holds(rs: Seq<RegionModel>, i: int, t: int) -> bool {
    0 <= i < rs.len() && rs[i].0 <= t < rs[i].1
}

/// Some cut is active at `t`.
pub open spec fn some_active(tracks: Seq<Seq<Cut>>, t: int) -> bool {
    exists|r: CutRef| #[trigger] is_active(tracks, r, t)
}

/// Every instant at which some cut is active lies in some region.
pub open spec fn regions_cover(tracks: Seq<Seq<Cut>>, rs: Seq<RegionModel>) -> bool {
    forall|t: int| #[trigger] some_active(tracks, t) ==> exists|i: int| region_holds(rs, i, t)
}

/// `rs` is the region index of `tracks`.
pub open spec fn indexes(tracks: Seq<Seq<Cut>>, rs: Seq<RegionModel>) -> bool {
    &&& forall|i: int| 0 <= i < rs.len() ==> region_ok(tracks, #[trigger] rs[i])
    &&& regions_ordered(rs)
    &&& regions_cover(tracks, rs)
}

fn copy_refs(v: &Vec<CutRef>) -> (r: Vec<CutRef>)
    ensures
        r@ == v@,
{
    let mut r: Vec<CutRef> = Vec::new();
    let mut i: usize = 0;
    while i < v.len()
        invariant
            i <= v@.len(),
            r@ == v@.subrange(0, i as int),
        decreases v@.len() - i,
    {
        r.push(v[i]);
        i += 1;
        assert(r@ =~= v@.subrange(0, i as int));
    }
    assert(r@ =~= v@);
    r
}

/// Sweeps sorted boundary events, keeping the ascending set of active cuts,
/// and emits a region at the end of each run of equal times where that set is
/// non-empty.
fn sweep(ev: &Vec<Event>, Ghost(tv): Ghost<Seq<Seq<Cut>>>) -> (rs: Vec<Region>)
    requires
        all_valid(tv),
        events_sorted(ev@),
        events_sound(tv, ev@),
        events_complete(tv, ev@),
    ensures
        indexes(tv, regions_view(rs@)),
{
    let n = ev.len();
    let mut active: Vec<CutRef> = Vec::new();
    let mut rs: Vec<Region> = Vec::new();
    let ghost mut cov: int = if n > 0 { ev@[0].time as int } else { 0 };
    let mut k: usize = 0;
    while k < n
        invariant
            n == ev@.len(),
            all_valid(tv),
            events_sorted(ev@),
            events_sound(tv, ev@),
            events_complete(tv, ev@),
            k <= n,
            refs_ascending(active@),
            forall|r: CutRef| #[trigger] active@.contains(r) <==> (has_window(tv, r)
                && ev@.subrange(0, k as int).contains(start_event(tv, r))
                && !ev@.subrange(0, k as int).contains(end_event(tv, r))),
            forall|i: int| 0 <= i < rs@.len() ==> region_ok(tv, #[trigger] regions_view(rs@)[i]),
            regions_ordered(regions_view(rs@)),
            k < n ==> forall|i: int| 0 <= i < rs@.len() ==> (#[trigger] regions_view(rs@)[i]).1 <= ev@[k as int].time,
            n > 0 ==> cov == ev@[if k < n { k as int } else { n - 1 }].time,
            n > 0 ==> forall|t: int| ev@[0].time <= t < cov && #[trigger] some_active(tv, t)
                ==> exists|i: int| region_holds(regions_view(rs@), i, t),
        decreases n - k,
    {
        let x = ev[k];
        assert(event_of(tv, ev@[k as int]));
        proof {
            lemma_prefix_grows(ev@, k as int);
        }
        let ghost pre = active@;
        if x.is_start {
            insert_ref(&mut active, x.cut);
            proof {
                assert forall|r: CutRef| #[trigger] active@.contains(r) <==> (has_window(tv, r)
                    && ev@.subrange(0, k + 1).contains(start_event(tv, r))
                    && !ev@.subrange(0, k + 1).contains(end_event(tv, r))) by {
                    if r == x.cut && ev@.subrange(0, k as int).contains(end_event(tv, r)) {
                        let sub = ev@.subrange(0, k as int);
                        let j = choose|j: int| 0 <= j < sub.len() && sub[j] == end_event(tv, r);
                        assert(ev@[j] == end_event(tv, r));
                        assert(event_le(ev@[j], ev@[k as int]));
                    }
                }
            }
        } else {
            remove_ref(&mut active, x.cut);
        }
        assert(forall|r: CutRef| #[trigger] active@.contains(r) <==> (has_window(tv, r)
            && ev@.subrange(0, k + 1).contains(start_event(tv, r))
            && !ev@.subrange(0, k + 1).contains(end_event(tv, r))));
        let ghost rs_pre = regions_view(rs@);
        if k + 1 < n && ev[k + 1].time != x.time {
            let y = ev[k + 1];
            assert(event_le(ev@[k as int], ev@[k + 1]));
            assert(event_of(tv, ev@[k + 1]));
            proof {
                lemma_changes_at_event(tv, x);
                lemma_changes_at_event(tv, y);
                assert forall|r: CutRef| has_window(tv, r) implies
                    (ev@.subrange(0, k + 1).contains(start_event(tv, r)) <==> window_start(cut_of(tv, r)) <= x.time)
                    && (ev@.subrange(0, k + 1).contains(end_event(tv, r)) <==> window_end(cut_of(tv, r)) <= x.time)
                    && (window_start(cut_of(tv, r)) <= x.time || window_start(cut_of(tv, r)) >= y.time)
                    && (window_end(cut_of(tv, r)) <= x.time || window_end(cut_of(tv, r)) >= y.time) by {
                    assert(has_window(tv, r));
                    assert(cut_is_valid(cut_of(tv, r)));
                    lemma_prefix_by_time(ev@, k as int, start_event(tv, r));
                    lemma_prefix_by_time(ev@, k as int, end_event(tv, r));
                }
                assert forall|t: int, r: CutRef| x.time <= t < y.time implies
                    (#[trigger] active@.contains(r) <==> #[trigger] is_active(tv, r, t)) by {
                    if names_cut(tv, r) {
                        assert(cut_is_valid(cut_of(tv, r)));
                        if has_window(tv, r) {
                            assert(has_window(tv, r));
                        }
                    }
                }
            }
            if active.len() > 0 {
                let g = Region { in_time: x.time, out_time: y.time, cuts: copy_refs(&active) };
                rs.push(g);
                proof {
                    assert(regions_view(rs@) =~= rs_pre.push(g@));
                    assert forall|t: int| g@.0 <= t < g@.1 implies #[trigger] lists_active(tv, g@.2, t) by {
                        assert forall|r: CutRef| #[trigger] g@.2.contains(r) <==> is_active(tv, r, t) by {
                            assert(active@.contains(r) <==> is_active(tv, r, t));
                        }
                    }
                    assert(region_ok(tv, g@));
                    assert forall|i: int| 0 <= i < rs@.len() implies region_ok(tv, #[trigger] regions_view(rs@)[i]) by {
                        if i < rs_pre.len() {
                            assert(regions_view(rs@)[i] == rs_pre[i]);
                        }
                    }
                    assert forall|i: int, j: int| 0 <= i < j < rs@.len() implies
                        (#[trigger] regions_view(rs@)[i]).1 <= (#[trigger] regions_view(rs@)[j]).0 by {
                        if j < rs_pre.len() {
                            assert(regions_view(rs@)[i] == rs_pre[i]);
                            assert(regions_view(rs@)[j] == rs_pre[j]);
                        } else {
                            assert(regions_view(rs@)[i] == rs_pre[i]);
                        }
                    }
                    assert forall|t: int| ev@[0].time <= t < y.time && #[trigger] some_active(tv, t)
                        implies exists|i: int| region_holds(regions_view(rs@), i, t) by {
                        if t < x.time {
                            let i = choose|i: int| region_holds(rs_pre, i, t);
                            assert(regions_view(rs@)[i] == rs_pre[i]);
                            assert(region_holds(regions_view(rs@), i, t));
                        } else {
                            assert(region_holds(regions_view(rs@), rs_pre.len() as int, t));
                        }
                    }
                }
            } else {
                proof {
                    assert forall|t: int| ev@[0].time <= t < y.time && #[trigger] some_active(tv, t)
                        implies exists|i: int| region_holds(regions_view(rs@), i, t) by {
                        if t >= x.time {
                            let r = choose|r: CutRef| #[trigger] is_active(tv, r, t);
                            assert(active@.contains(r));
                        }
                    }
                }
            }
            proof {
                cov = y.time as int;
            }
        } else {
            if k + 1 < n {
                assert(event_le(ev@[k as int], ev@[k + 1]));
            }
        }
        k += 1;
    }
    proof {
        let rv = regions_view(rs@);
        assert forall|t: int| #[trigger] some_active(tv, t) implies exists|i: int| region_holds(rv, i, t) by {
            let r = choose|r: CutRef| #[trigger] is_active(tv, r, t);
            assert(cut_is_valid(cut_of(tv, r)));
            assert(has_window(tv, r));
            let js = choose|j: int| 0 <= j < ev@.len() && ev@[j] == start_event(tv, r);
            let je = choose|j: int| 0 <= j < ev@.len() && ev@[j] == end_event(tv, r);
            if js > 0 {
                assert(event_le(ev@[0], ev@[js]));
            }
            if je < n - 1 {
                assert(event_le(ev@[je], ev@[n - 1]));
            }
        }
    }
    rs
}

/// `s` lists, in ascending order, exactly the invalid cuts of `tracks`.
pub open spec fn lists_invalid(tracks: Seq<Seq<Cut>>, s: Seq<CutRef>) -> bool {
    &&& refs_ascending(s)
    &&& forall|r: CutRef| #[trigger] s.contains(r) <==> (names_cut(tracks, r) && !cut_is_valid(cut_of(tracks, r)))
}

/// `e` reports the invalid cuts of `tracks`: one alone as a constraint
/// violation, several together as a build failure.
pub open spec fn reports_invalid(tracks: Seq<Seq<Cut>>, e: TimelineError) -> bool {
    match e {
        TimelineError::ConstraintViolation(r, v) => lists_invalid(tracks, seq![r]) && violation_of(cut_of(tracks, r)) == Some(v),
        TimelineError::BuildFailure(rs) => rs@.len() >= 2 && lists_invalid(tracks, rs@),
        TimelineError::IndexNotReady => false,
    }
}

/// The invalid cuts of `tracks`, in ascending order.
fn invalid_cuts(tracks: &Vec<Track>) -> (r: Vec<CutRef>)
    ensures
        lists_invalid(tracks_view(tracks@), r@),
{
    let ghost tv = tracks_view(tracks@);
    let mut bad: Vec<CutRef> = Vec::new();
    let mut ti: usize = 0;
    while ti < tracks.len()
        invariant
            tv == tracks_view(tracks@),
            ti <= tracks@.len(),
            refs_ascending(bad@),
            forall|x: CutRef| #[trigger] bad@.contains(x) ==> x.track < ti,
            forall|x: CutRef| #[trigger] bad@.contains(x) <==> (x.track < ti && names_cut(tv, x) && !cut_is_valid(cut_of(tv, x))),
        decreases tracks@.len() - ti,
    {
        let cuts = tracks[ti].cuts();
        assert(cuts@ == tv[ti as int]);
        let mut ci: usize = 0;
        while ci < cuts.len()
            invariant
                tv == tracks_view(tracks@),
                ti < tracks@.len(),
                cuts@ == tv[ti as int],
                ci <= cuts@.len(),
                refs_ascending(bad@),
                forall|x: CutRef| #[trigger] bad@.contains(x) ==> ref_less(x, CutRef { track: ti, cut: ci }),
                forall|x: CutRef| #[trigger] bad@.contains(x) <==> ((x.track < ti || (x.track == ti && x.cut < ci))
                    && names_cut(tv, x) && !cut_is_valid(cut_of(tv, x))),
            decreases cuts@.len() - ci,
        {
            let r = CutRef { track: ti, cut: ci };
            assert(cut_of(tv, r) == cuts@[ci as int]);
            if crate::edit::check_cut(&cuts[ci]).is_some() {
                let ghost pre = bad@;
                bad.push(r);
                proof {
                    lemma_contains_push(pre, r);
                    assert forall|i: int, j: int| 0 <= i < j < bad@.len() implies ref_less(#[trigger] bad@[i], #[trigger] bad@[j]) by {
                        if j == pre.len() {
                            assert(pre.contains(pre[i]));
                        } else {
                            assert(bad@[i] == pre[i] && bad@[j] == pre[j]);
                        }
                    }
                }
            }
            ci += 1;
        }
        ti += 1;
    }
    bad
}

/// The regions of a timeline, built from its tracks, with the tracks they
/// were built from.
pub struct RegionIndex {
    regions: Vec<Region>,
    source: Ghost<Seq<Seq<Cut>>>,
}

impl View for RegionIndex {
    type V = Seq<RegionModel>;

    closed spec fn view(&self) -> Seq<RegionModel> {
        regions_view(self.regions@)
    }
}

impl RegionIndex {
    /// The cuts of each track that the index was built from.
    pub closed spec fn source(&self) -> Seq<Seq<Cut>> {
        self.source@
    }

    #[verifier::type_invariant]
    spec fn inv(&self) -> bool {
        indexes(self.source@, regions_view(self.regions@))
    }

    /// Builds the index of `tracks`; fails when a cut is invalid, reporting
    /// every invalid cut.
    pub fn build(tracks: &Vec<Track>) -> (r: Result<RegionIndex, TimelineError>)
        ensures
            r.is_ok() <==> all_valid(tracks_view(tracks@)),
            match r {
                Ok(x) => x.source() == tracks_view(tracks@) && indexes(tracks_view(tracks@), x@),
                Err(e) => reports_invalid(tracks_view(tracks@), e),
            },
    {
        let ghost tv = tracks_view(tracks@);
        let bad = invalid_cuts(tracks);
        if bad.len() == 1 {
            let r = bad[0];
            assert(bad@.contains(r));
            let v = crate::edit::check_cut(&tracks[r.track].cuts()[r.cut]);
            assert(seq![r] =~= bad@);
            return Err(TimelineError::ConstraintViolation(r, v.unwrap()));
        } else if bad.len() > 1 {
            assert(bad@.contains(bad@[0]));
            return Err(TimelineError::BuildFailure(bad));
        }
        assert forall|r: CutRef| names_cut(tv, r) implies cut_is_valid(#[trigger] cut_of(tv, r)) by {
            assert(!bad@.contains(r));
        }
        let ev = collect_events(tracks);
        let sorted = sort_events(ev);
        assert(events_sound(tv, sorted@)) by {
            assert forall|i: int| 0 <= i < sorted@.len() implies event_of(tv, #[trigger] sorted@[i]) by {
                assert(sorted@.contains(sorted@[i]));
                let j = choose|j: int| 0 <= j < ev@.len() && ev@[j] == sorted@[i];
                assert(event_of(tv, ev@[j]));
            }
        }
        let regions = sweep(&sorted, Ghost(tv));
        Ok(RegionIndex { regions, source: Ghost(tv) })
    }

    /// Position of the region holding `t`, by binary search.
    fn locate(&self, t: Time) -> (r: Option<usize>)
        ensures
            match r {
                Some(i) => region_holds(self@, i as int, t as int),
                None => forall|i: int| !region_holds(self@, i, t as int),
            },
    {
        proof {
            use_type_invariant(self);
        }
        let ghost rv = regions_view(self.regions@);
        let n = self.regions.len();
        let mut lo: usize = 0;
        let mut hi: usize = n;
        while lo < hi
            invariant
                n == rv.len(),
                rv == regions_view(self.regions@),
                indexes(self.source@, rv),
                lo <= hi <= n,
                forall|j: int| 0 <= j < lo ==> (#[trigger] rv[j]).0 <= t,
                forall|j: int| hi <= j < n ==> (#[trigger] rv[j]).0 > t,
            decreases hi - lo,
        {
            let mid = lo + (hi - lo) / 2;
            assert(rv[mid as int] == self.regions@[mid as int]@);
            if self.regions[mid].in_time <= t {
                assert forall|j: int| 0 <= j < mid + 1 implies (#[trigger] rv[j]).0 <= t by {
                    if j < mid {
                        assert(region_ok(self.source@, rv[j]));
                        assert(rv[j].1 <= rv[mid as int].0);
                    }
                }
                lo = mid + 1;
            } else {
                assert forall|j: int| mid <= j < n implies (#[trigger] rv[j]).0 > t by {
                    if j > mid {
                        assert(region_ok(self.source@, rv[mid as int]));
                        assert(region_ok(self.source@, rv[j]));
                    }
                }
                hi = mid;
            }
        }
        if lo > 0 {
            assert(rv[lo - 1] == self.regions@[lo - 1]@);
        }
        if lo > 0 && t < self.regions[lo - 1].out_time {
            Some(lo - 1)
        } else {
            assert forall|i: int| !region_holds(rv, i, t as int) by {
                if region_holds(rv, i, t as int) && i < lo - 1 {
                    assert(rv[i].1 <= rv[lo - 1].0);
                }
            }
            None
        }
    }

    /// The answer for `t`, given the region that holds `t`, or `None` when no
    /// region does.
    fn cuts_of_region(&self, found: Option<usize>, t: Time) -> (r: Vec<CutRef>)
        requires
            match found {
                Some(i) => region_holds(self@, i as int, t as int),
                None => forall|i: int| !region_holds(self@, i, t as int),
            },
        ensures
            lists_active(self.source(), r@, t as int),
    {
        proof {
            use_type_invariant(self);
        }
        let ghost rv = regions_view(self.regions@);
        match found {
            Some(i) => {
                assert(rv[i as int] == self.regions@[i as int]@);
                assert(region_ok(self.source@, rv[i as int]));
                copy_refs(&self.regions[i].cuts)
            },
            None => {
                assert(rv == self@);
                assert(!some_active(self.source@, t as int)) by {
                    if some_active(self.source@, t as int) {
                        let i = choose|i: int| region_holds(rv, i, t as int);
                        assert(!region_holds(self@, i, t as int));
                    }
                }
                let r: Vec<CutRef> = Vec::new();
                assert(forall|x: CutRef| !(#[trigger] r@.contains(x)));
                r
            },
        }
    }

    /// The cuts active at `t`, in ascending order; empty in a gap or outside
    /// every region. Found by binary search over the regions.
    pub fn cuts_at(&self, t: Time) -> (r: Vec<CutRef>)
        ensures
            lists_active(self.source(), r@, t as int),
    {
        let found = self.locate(t);
        self.cuts_of_region(found, t)
    }

    /// Like `cuts_at`, but first tries the region at `*cursor` and the one
    /// after it, so that queries at increasing times mostly skip the search.
    /// `*cursor` is left at the region that held `t`; any value is accepted.
    pub fn cuts_at_from(&self, t: Time, cursor: &mut usize) -> (r: Vec<CutRef>)
        ensures
            lists_active(self.source(), r@, t as int),
    {
        let n = self.regions.len();
        let c = *cursor;
        let mut found: Option<usize> = None;
        if c < n && self.regions[c].in_time <= t && t < self.regions[c].out_time {
            assert(self@[c as int] == self.regions@[c as int]@);
            found = Some(c);
        } else if c < n && c + 1 < n && self.regions[c + 1].in_time <= t && t < self.regions[c + 1].out_time {
            assert(self@[c + 1] == self.regions@[c + 1]@);
            found = Some(c + 1);
        } else {
            found = self.locate(t);
        }
        if let Some(i) = found {
            *cursor = i;
        }
        self.cuts_of_region(found, t)
    }

    /// The regions, ascending in time.
    pub fn regions(&self) -> (r: &Vec<Region>)
        ensures
            regions_view(r@) == self@,
    {
        &self.regions
    }
}

} // verus!
