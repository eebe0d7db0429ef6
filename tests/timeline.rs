use spectra::edit::{ClipId, ConstraintViolation, Cut, Time, Timeline, TimelineError, Track};
use spectra::gpu::{GPUError, TargetError};
use spectra::index::{CutRef, RegionIndex};

fn cut(in_time: Time, out_time: Time, inst_time: Time) -> Cut {
    Cut::new(in_time, out_time, inst_time, ClipId(0)).unwrap()
}

fn refs(pairs: &[(usize, usize)]) -> Vec<CutRef> {
    pairs.iter().map(|&(track, cut)| CutRef { track, cut }).collect()
}

fn ready(tracks: &[Track]) -> Timeline {
    let mut tl = Timeline::from_tracks(tracks);
    tl.build_index().unwrap();
    tl
}

// Times below are in milliseconds.

#[test]
fn worked_scenario_two_tracks() {
    let a = Track::from_cuts(&[cut(0, 2000, 0)]);
    let b = Track::from_cuts(&[cut(0, 3000, 1000)]);
    let tl = ready(&[a, b]);
    assert_eq!(tl.cuts_at(500).unwrap(), refs(&[(0, 0)]));
    assert_eq!(tl.cuts_at(1500).unwrap(), refs(&[(0, 0), (1, 0)]));
    assert_eq!(tl.cuts_at(3000).unwrap(), refs(&[(1, 0)]));
    assert_eq!(tl.cuts_at(4000).unwrap(), refs(&[]));
    assert_eq!(tl.cuts_at(-1000).unwrap(), refs(&[]));

    let idx = RegionIndex::build(tl.tracks()).unwrap();
    let regions: Vec<(Time, Time, Vec<CutRef>)> =
        idx.regions().iter().map(|g| (g.in_time, g.out_time, g.cuts.clone())).collect();
    assert_eq!(
        regions,
        vec![
            (0, 1000, refs(&[(0, 0)])),
            (1000, 2000, refs(&[(0, 0), (1, 0)])),
            (2000, 4000, refs(&[(1, 0)])),
        ]
    );
}

#[test]
fn window_end_is_exclusive() {
    let tl = ready(&[Track::from_cuts(&[cut(0, 1000, 2000)])]);
    assert_eq!(tl.cuts_at(2000).unwrap(), refs(&[(0, 0)]));
    assert_eq!(tl.cuts_at(2999).unwrap(), refs(&[(0, 0)]));
    assert_eq!(tl.cuts_at(3000).unwrap(), refs(&[]));
    assert_eq!(tl.cuts_at(1999).unwrap(), refs(&[]));
}

#[test]
fn end_before_start_at_shared_instant() {
    let t = Track::from_cuts(&[cut(0, 1000, 0), cut(0, 1000, 1000)]);
    let tl = ready(&[t]);
    assert_eq!(tl.cuts_at(999).unwrap(), refs(&[(0, 0)]));
    assert_eq!(tl.cuts_at(1000).unwrap(), refs(&[(0, 1)]));
}

#[test]
fn zero_length_cut_is_never_returned() {
    let t = Track::from_cuts(&[cut(500, 500, 100), cut(0, 100, 100)]);
    let tl = ready(&[t]);
    for q in [99, 100, 150, 199, 200, 600] {
        assert!(!tl.cuts_at(q).unwrap().contains(&CutRef { track: 0, cut: 0 }));
    }
    let only_empty = ready(&[Track::from_cuts(&[cut(3, 3, 0)])]);
    assert!(RegionIndex::build(only_empty.tracks()).unwrap().regions().is_empty());
    assert_eq!(only_empty.cuts_at(0).unwrap(), refs(&[]));
}

#[test]
fn inverted_cut_is_refused() {
    assert_eq!(Cut::new(2000, 1000, 0, ClipId(0)), Err(ConstraintViolation::InvertedRange));
    assert_eq!(Cut::new(2, 1, 0, ClipId(0)), Err(ConstraintViolation::InvertedRange));
    assert_eq!(
        Cut::new(1000, 2000, 5, ClipId(7)),
        Ok(Cut { in_time: 1000, out_time: 2000, inst_time: 5, clip: ClipId(7) })
    );
}

#[test]
fn window_end_must_fit() {
    assert_eq!(Cut::new(0, 10, i64::MAX - 5, ClipId(0)), Err(ConstraintViolation::WindowOutOfRange));
    assert!(Cut::new(0, 5, i64::MAX - 5, ClipId(0)).is_ok());
    assert!(Cut::new(i64::MIN, i64::MAX, i64::MIN, ClipId(0)).is_ok());
}

#[test]
fn local_time_follows_the_cut() {
    let c = cut(300, 900, 1000);
    assert_eq!(c.local_time_at(1000), 300);
    assert_eq!(c.local_time_at(1250), 550);
    assert_eq!(c.local_time_at(1599), 899);
}

#[test]
fn queries_fail_closed_until_built() {
    let mut tl = Timeline::new();
    assert!(matches!(tl.cuts_at(0), Err(TimelineError::IndexNotReady)));
    tl.add_track(Track::from_cuts(&[cut(0, 10, 0)]));
    assert!(matches!(tl.cuts_at(5), Err(TimelineError::IndexNotReady)));
    tl.build_index().unwrap();
    assert_eq!(tl.cuts_at(5).unwrap(), refs(&[(0, 0)]));
    tl.add_track(Track::from_cuts(&[cut(0, 10, 0)]));
    assert!(matches!(tl.cuts_at(5), Err(TimelineError::IndexNotReady)));
    tl.build_index().unwrap();
    assert_eq!(tl.cuts_at(5).unwrap(), refs(&[(0, 0), (1, 0)]));
}

#[test]
fn one_invalid_cut_is_a_constraint_violation() {
    let mut t = Track::new();
    t.add_cut(cut(0, 10, 0));
    t.add_cut(Cut { in_time: 5, out_time: 1, inst_time: 0, clip: ClipId(1) });
    let mut tl = Timeline::new();
    tl.add_track(t);
    match tl.build_index() {
        Err(TimelineError::ConstraintViolation(r, v)) => {
            assert_eq!(r, CutRef { track: 0, cut: 1 });
            assert_eq!(v, ConstraintViolation::InvertedRange);
        }
        other => panic!("unexpected {:?}", other),
    }
    assert!(matches!(tl.cuts_at(5), Err(TimelineError::IndexNotReady)));
}

#[test]
fn several_invalid_cuts_are_batched() {
    let mut t0 = Track::new();
    t0.add_cut(Cut { in_time: 5, out_time: 1, inst_time: 0, clip: ClipId(0) });
    t0.add_cut(cut(0, 10, 0));
    let mut t1 = Track::new();
    t1.add_cut(Cut { in_time: 0, out_time: 10, inst_time: i64::MAX, clip: ClipId(0) });
    let mut tl = Timeline::from_tracks(&[t0, t1]);
    match tl.build_index() {
        Err(TimelineError::BuildFailure(list)) => assert_eq!(list, refs(&[(0, 0), (1, 0)])),
        other => panic!("unexpected {:?}", other),
    }
    assert!(matches!(tl.cuts_at(5), Err(TimelineError::IndexNotReady)));
}

#[test]
fn a_failed_build_discards_the_previous_index() {
    let mut tl = ready(&[Track::from_cuts(&[cut(0, 10, 0)])]);
    let mut bad = Track::new();
    bad.add_cut(Cut { in_time: 9, out_time: 1, inst_time: 0, clip: ClipId(0) });
    tl.add_track(bad);
    assert!(tl.build_index().is_err());
    assert!(matches!(tl.cuts_at(5), Err(TimelineError::IndexNotReady)));
}

#[test]
fn overlapping_cuts_on_one_track() {
    let t = Track::from_cuts(&[cut(0, 100, 0), cut(0, 100, 50)]);
    let tl = ready(&[t]);
    assert_eq!(tl.cuts_at(75).unwrap(), refs(&[(0, 0), (0, 1)]));
    assert_eq!(tl.cuts_at(125).unwrap(), refs(&[(0, 1)]));
}

#[test]
fn regions_are_sorted_disjoint_and_non_empty() {
    let tracks = pseudo_random_tracks(7, 5, 6);
    let idx = RegionIndex::build(&tracks).unwrap();
    let rs = idx.regions();
    for g in rs.iter() {
        assert!(g.in_time < g.out_time);
        assert!(!g.cuts.is_empty());
    }
    for w in rs.windows(2) {
        assert!(w[0].out_time <= w[1].in_time);
        if w[0].out_time == w[1].in_time {
            assert_ne!(w[0].cuts, w[1].cuts);
        }
    }
}

#[test]
fn rebuilding_gives_the_same_regions() {
    let tracks = pseudo_random_tracks(11, 4, 8);
    let a = RegionIndex::build(&tracks).unwrap();
    let b = RegionIndex::build(&tracks).unwrap();
    let view = |x: &RegionIndex| -> Vec<(Time, Time, Vec<CutRef>)> {
        x.regions().iter().map(|g| (g.in_time, g.out_time, g.cuts.clone())).collect()
    };
    assert_eq!(view(&a), view(&b));
}

fn pseudo_random_tracks(seed: u64, n_tracks: usize, n_cuts: usize) -> Vec<Track> {
    let mut state = seed;
    let mut next = move |m: u64| {
        state = state.wrapping_mul(6364136223846793005).wrapping_add(1442695040888963407);
        (state >> 33) % m
    };
    let mut tracks = Vec::new();
    for _ in 0..n_tracks {
        let mut t = Track::new();
        for _ in 0..n_cuts {
            let in_time = next(20) as i64;
            let len = next(15) as i64;
            let inst = next(60) as i64 - 10;
            t.add_cut(cut(in_time, in_time + len, inst));
        }
        tracks.push(t);
    }
    tracks
}

#[test]
fn index_agrees_with_brute_force_scan() {
    for seed in 1..40u64 {
        let tracks = pseudo_random_tracks(seed, 1 + (seed as usize % 4), 1 + (seed as usize % 7));
        let tl = ready(&tracks);
        for q in -20..80i64 {
            let mut expected = Vec::new();
            for (ti, t) in tracks.iter().enumerate() {
                for (ci, c) in t.cuts().iter().enumerate() {
                    if c.inst_time <= q && q < c.inst_time + (c.out_time - c.in_time) {
                        expected.push(CutRef { track: ti, cut: ci });
                    }
                }
            }
            assert_eq!(tl.cuts_at(q).unwrap(), expected, "seed {} time {}", seed, q);
        }
    }
}

#[test]
fn target_error_converts_into_gpu_error() {
    let te = TargetError::Incomplete("missing attachment".to_string());
    assert_eq!(GPUError::from(te.clone()), GPUError::TargetError(te));
    let tex = TargetError::TextureError("bad format".to_string());
    let g: GPUError = tex.clone().into();
    assert_eq!(g, GPUError::TargetError(tex));
}

#[test]
fn cursor_queries_match_plain_queries() {
    let tracks = pseudo_random_tracks(5, 3, 6);
    let tl = ready(&tracks);
    let mut cursor = 0usize;
    for q in -20..80i64 {
        assert_eq!(tl.cuts_at_from(q, &mut cursor).unwrap(), tl.cuts_at(q).unwrap(), "time {}", q);
    }
    for stale in [0usize, 3, 1000, usize::MAX] {
        let mut c = stale;
        for q in [70i64, 10, 40, -5, 25] {
            assert_eq!(tl.cuts_at_from(q, &mut c).unwrap(), tl.cuts_at(q).unwrap());
        }
    }
    let mut c = 0usize;
    assert!(matches!(Timeline::new().cuts_at_from(0, &mut c), Err(TimelineError::IndexNotReady)));
}
