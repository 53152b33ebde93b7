use hybrid_stages::runs::Counter;
use hybrid_stages::sympatch::{should_push, PathTracker, SymPatchStage, Verdict};

fn tracker() -> PathTracker {
    PathTracker {
        path_hits: vec![0, 5, 8],
        stuck_path: 0,
        stuck_threshold: 10,
    }
}

fn stage() -> SymPatchStage {
    SymPatchStage::new(&mut Counter::new())
}

const NOTHING: Verdict = Verdict {
    push: None,
    cycle_reset: false,
};

#[test]
fn draws_are_judged_as_doubles_are() {
    let scale = 1.0 / (1u64 << 53) as f64;
    for queue_len in 0..20usize {
        let threshold = 0.8 - (queue_len as f64) * 0.1;
        let edge = (threshold.max(0.0) / scale) as u64;
        for k in edge.saturating_sub(3)..edge + 4 {
            let draw = (k << 11) | (k & 0x7ff);
            let probability = scale * ((draw >> 11) as f64);
            assert_eq!(should_push(draw, queue_len), probability < threshold, "{} {}", queue_len, k);
        }
        assert!(!should_push(u64::MAX, queue_len));
        assert_eq!(should_push(0, queue_len), queue_len < 8);
    }
}

#[test]
fn stages_are_named_in_order() {
    let mut ids = Counter::new();
    assert_eq!(SymPatchStage::new(&mut ids).name(), "sympatch:0");
    assert_eq!(SymPatchStage::new(&mut ids).name(), "sympatch:1");
}

#[test]
fn a_path_below_the_threshold_is_only_counted() {
    let mut t = tracker();
    assert_eq!(stage().sympatch(&mut t, 42, 1, 0), NOTHING);
    assert_eq!((t.path_hits, t.stuck_path), (vec![0, 6, 8], 0));
}

#[test]
fn a_path_that_reaches_the_threshold_is_stuck() {
    let mut t = tracker();
    let mut s = stage();
    assert_eq!(s.sympatch(&mut t, 42, 2, 100), NOTHING);
    let stuck = Verdict {
        push: Some(42),
        cycle_reset: true,
    };
    assert_eq!(s.sympatch(&mut t, 42, 2, 100), stuck);
    assert_eq!((t.path_hits.clone(), t.stuck_path), (vec![0, 5, 10], 2));
    assert_eq!(s.sympatch(&mut t, 42, 2, 100), NOTHING);
    assert_eq!((t.path_hits, t.stuck_path), (vec![0, 5, 10], 2));
}

#[test]
fn the_draw_decides_on_the_stuck_path() {
    let mut t = tracker();
    let mut s = stage();
    let push = Verdict {
        push: Some(3),
        cycle_reset: false,
    };
    assert_eq!(s.sympatch_drawn(&mut t, 3, 0, 0, 0), push);
    assert_eq!(s.sympatch_drawn(&mut t, 3, 0, 0, u64::MAX), NOTHING);
    assert_eq!(s.sympatch_drawn(&mut t, 3, 0, 8, 0), NOTHING);
}

#[test]
fn chance_goes_both_ways() {
    let mut t = tracker();
    let mut s = stage();
    let pushed = (0..2000)
        .filter(|_| s.sympatch(&mut t, 3, 0, 3).push.is_some())
        .count();
    assert!(pushed > 600 && pushed < 1400, "{}", pushed);
    assert_eq!(t.path_hits, vec![0, 5, 8]);
}

#[test]
fn a_stuck_path_need_not_have_hits() {
    let mut t = tracker();
    t.stuck_path = 1000;
    assert_eq!(stage().sympatch(&mut t, 3, 1000, 8), NOTHING);
}
