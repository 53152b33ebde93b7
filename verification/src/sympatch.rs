//! The scheduling stage: which test cases are queued for concolic execution.

use vstd::prelude::*;
use crate::runs;
use crate::runs::{stage_name, Counter};

verus! {

/// The kind of this stage.
pub const SYMPATCH_STAGE_NAME: &'static str = "sympatch";

/// How often each path was taken, and which path the fuzzer is stuck on.
#[derive(Debug)]
pub struct PathTracker {
    pub path_hits: Vec<usize>,
    pub stuck_path: usize,
    pub stuck_threshold: usize,
}

/// What a tracker says.
#[verifier::ext_equal]
pub struct TrackerView {
    pub path_hits: Seq<usize>,
    pub stuck_path: usize,
    pub stuck_threshold: usize,
}

impl View for PathTracker {
    type V = TrackerView;

    open spec fn view(&self) -> TrackerView {
        TrackerView {
            path_hits: self.path_hits@,
            stuck_path: self.stuck_path,
            stuck_threshold: self.stuck_threshold,
        }
    }
}

/// What is to be done about a test case: first the queueing, then the reset.
#[derive(Clone, Copy, Debug, PartialEq, Eq, Structural)]
pub struct Verdict {
    /// Queue this test case.
    pub push: Option<usize>,
    /// Start a new cycle of the tracker.
    pub cycle_reset: bool,
}

/// The probability with which a test case on the stuck path is queued, in units of
/// 2<sup>-53</sup>: 0.8 - 0.1 * `queue_len`, each step rounded to a double.
pub open spec fn push_threshold(queue_len: nat) -> nat {
    if queue_len == 0 {
        7205759403792794
    } else if queue_len == 1 {
        6305039478318695
    } else if queue_len == 2 {
        5404319552844596
    } else if queue_len == 3 {
        4503599627370496
    } else if queue_len == 4 {
        3602879701896397
    } else if queue_len == 5 {
        2702159776422298
    } else if queue_len == 6 {
        1801439850948198
    } else if queue_len == 7 {
        900719925474099
    } else {
        0
    }
}

/// The probability that a random word stands for, in units of 2<sup>-53</sup>: its upper 53 bits.
pub open spec fn probability(draw: u64) -> nat {
    draw as nat / 2048
}

/// A test case on the stuck path is queued if the drawn probability is below the threshold.
pub open spec fn draw_pushes(draw: u64, queue_len: nat) -> bool {
    probability(draw) < push_threshold(queue_len)
}

/// The verdict on test case `id` on the stuck path.
pub open spec fn stuck_verdict(id: usize, queue_len: nat, draw: u64) -> Verdict {
    Verdict {
        push: if draw_pushes(draw, queue_len) {
            Some(id)
        } else {
            None
        },
        cycle_reset: false,
    }
}

/// The tracker when a test case on `path`, which is not the stuck one, was counted: the path
/// is stuck if its hits reach the threshold.
pub open spec fn counted(t: TrackerView, path: int) -> TrackerView {
    let hits = (t.path_hits[path] + 1) as usize;
    TrackerView {
        path_hits: t.path_hits.update(path, hits),
        stuck_path: if hits >= t.stuck_threshold {
            path as usize
        } else {
            t.stuck_path
        },
        stuck_threshold: t.stuck_threshold,
    }
}

/// The verdict on a test case whose path was counted: queue it and reset if the path is now
/// stuck.
pub open spec fn counted_verdict(t: TrackerView, id: usize, path: int) -> Verdict {
    let stuck = t.path_hits[path] + 1 >= t.stuck_threshold;
    Verdict {
        push: if stuck {
            Some(id)
        } else {
            None
        },
        cycle_reset: stuck,
    }
}

/// The tracker after a test case on `path`.
pub open spec fn tracker_after(t: TrackerView, path: usize) -> TrackerView {
    if path == t.stuck_path {
        t
    } else {
        counted(t, path as int)
    }
}

/// The verdict on test case `id` on `path`, with `queue_len` test cases queued.
pub open spec fn verdict(
    t: TrackerView,
    id: usize,
    path: usize,
    queue_len: nat,
    draw: u64,
) -> Verdict {
    if path == t.stuck_path {
        stuck_verdict(id, queue_len, draw)
    } else {
        counted_verdict(t, id, path as int)
    }
}

/// The hits of `path` can be counted.
pub open spec fn countable(t: TrackerView, path: usize) -> bool {
    path < t.path_hits.len() && t.path_hits[path as int] < usize::MAX
}

/// Calls `rand::random`, which hands out a random 64-bit word. Nothing is claimed of the word:
/// each is possible.
#[verifier::external_body]
fn random_word() -> (r: u64) {
    rand::random()
}

/// Decides whether a test case on the stuck path is queued, from a random word.
pub fn should_push(draw: u64, queue_len: usize) -> (r: bool)
    ensures
        r == draw_pushes(draw, queue_len as nat),
        r == (queue_len < 8 && draw / 2048 < seq![
                7205759403792794u64,
                6305039478318695,
                5404319552844596,
                4503599627370496,
                3602879701896397,
                2702159776422298,
                1801439850948198,
                900719925474099,
            ][queue_len as int]),
{
    let limit: u64 = if queue_len == 0 {
        7205759403792794
    } else if queue_len == 1 {
        6305039478318695
    } else if queue_len == 2 {
        5404319552844596
    } else if queue_len == 3 {
        4503599627370496
    } else if queue_len == 4 {
        3602879701896397
    } else if queue_len == 5 {
        2702159776422298
    } else if queue_len == 6 {
        1801439850948198
    } else if queue_len == 7 {
        900719925474099
    } else {
        0
    };
    draw / 2048 < limit
}

/// The scheduling stage.
#[derive(Debug)]
pub struct SymPatchStage {
    pub name: String,
}

impl SymPatchStage {
    /// A stage with the next number.
    pub fn new(ids: &mut Counter) -> (r: SymPatchStage)
        requires
            old(ids).next < usize::MAX,
        ensures
            r.name@ == runs::numbered_name(SYMPATCH_STAGE_NAME@, old(ids).next as nat),
            final(ids).next == old(ids).next + 1,
    {
        let id = ids.take();
        SymPatchStage { name: stage_name(SYMPATCH_STAGE_NAME, id) }
    }

    /// The name of the stage.
    pub fn name(&self) -> (r: &String)
        ensures
            *r == self.name,
    {
        &self.name
    }

    /// Judges test case `id` on `path`, with `queue_len` test cases queued. A test case on the
    /// stuck path leaves the tracker alone and is queued by chance; which way chance goes for a
    /// given draw is what [`sympatch_drawn`](Self::sympatch_drawn) says.
    pub fn sympatch(
        &mut self,
        tracker: &mut PathTracker,
        id: usize,
        path: usize,
        queue_len: usize,
    ) -> (r: Verdict)
        requires
            path != old(tracker).stuck_path ==> countable(old(tracker)@, path),
        ensures
            final(tracker)@ == tracker_after(old(tracker)@, path),
            exists|draw: u64|
                r == #[trigger] verdict(old(tracker)@, id, path, queue_len as nat, draw),
            path != old(tracker).stuck_path ==> r == counted_verdict(
                old(tracker)@,
                id,
                path as int,
            ),
            path != old(tracker).stuck_path ==> {
                let hits = old(tracker).path_hits@[path as int] + 1;
                &&& final(tracker).path_hits@ == old(tracker).path_hits@.update(
                    path as int,
                    hits as usize,
                )
                &&& final(tracker).stuck_path == if hits >= old(tracker).stuck_threshold {
                    path
                } else {
                    old(tracker).stuck_path
                }
                &&& r.push == if hits >= old(tracker).stuck_threshold {
                    Some(id)
                } else {
                    None
                }
                &&& r.cycle_reset <==> hits >= old(tracker).stuck_threshold
            },
            path == old(tracker).stuck_path ==> final(tracker).path_hits@ == old(
                tracker,
            ).path_hits@ && final(tracker).stuck_path == path && !r.cycle_reset,
            final(tracker).stuck_threshold == old(tracker).stuck_threshold,
            path == old(tracker).stuck_path && r.push is Some ==> r.push == Some(id) && queue_len
                < 8,
            *final(self) == *old(self),
    {
        let draw = if path == tracker.stuck_path {
            random_word()
        } else {
            0
        };
        self.sympatch_drawn(tracker, id, path, queue_len, draw)
    }

    /// Judges test case `id` on `path`, where chance gives `draw`.
    pub fn sympatch_drawn(
        &mut self,
        tracker: &mut PathTracker,
        id: usize,
        path: usize,
        queue_len: usize,
        draw: u64,
    ) -> (r: Verdict)
        requires
            path != old(tracker).stuck_path ==> countable(old(tracker)@, path),
        ensures
            final(tracker)@ == tracker_after(old(tracker)@, path),
            r == verdict(old(tracker)@, id, path, queue_len as nat, draw),
            path != old(tracker).stuck_path ==> {
                let hits = old(tracker).path_hits@[path as int] + 1;
                &&& final(tracker).path_hits@ == old(tracker).path_hits@.update(
                    path as int,
                    hits as usize,
                )
                &&& final(tracker).stuck_path == if hits >= old(tracker).stuck_threshold {
                    path
                } else {
                    old(tracker).stuck_path
                }
                &&& r.push == if hits >= old(tracker).stuck_threshold {
                    Some(id)
                } else {
                    None
                }
                &&& r.cycle_reset <==> hits >= old(tracker).stuck_threshold
            },
            path == old(tracker).stuck_path ==> final(tracker).path_hits@ == old(
                tracker,
            ).path_hits@ && final(tracker).stuck_path == path && !r.cycle_reset,
            final(tracker).stuck_threshold == old(tracker).stuck_threshold,
            path == old(tracker).stuck_path ==> (r.push is Some <==> queue_len < 8 && draw / 2048
                < seq![
                    7205759403792794u64,
                    6305039478318695,
                    5404319552844596,
                    4503599627370496,
                    3602879701896397,
                    2702159776422298,
                    1801439850948198,
                    900719925474099,
                ][queue_len as int]),
            path == old(tracker).stuck_path && r.push is Some ==> r.push == Some(id),
            *final(self) == *old(self),
    {
        if path == tracker.stuck_path {
            let push = if should_push(draw, queue_len) {
                Some(id)
            } else {
                None
            };
            return Verdict { push, cycle_reset: false };
        }
        let hits = tracker.path_hits[path] + 1;
        tracker.path_hits.set(path, hits);
        if hits >= tracker.stuck_threshold {
            tracker.stuck_path = path;
            Verdict { push: Some(id), cycle_reset: true }
        } else {
            Verdict { push: None, cycle_reset: false }
        }
    }
}

/// The threshold is 0.8 - 0.1 * `queue_len` up to rounding, which moves it by less than one unit.
pub proof fn law_threshold_is_close(queue_len: nat)
    requires
        queue_len <= 8,
    ensures
        -10 < 10 * push_threshold(queue_len) - (8 - queue_len) * 0x20_0000_0000_0000 < 10,
{
    let q = queue_len as int;
    assert((8 - q) * 0x20_0000_0000_0000 == 8 * 0x20_0000_0000_0000 - q * 0x20_0000_0000_0000);
    if q == 0 {
    } else if q == 1 {
    } else if q == 2 {
    } else if q == 3 {
    } else if q == 4 {
    } else if q == 5 {
    } else if q == 6 {
    } else if q == 7 {
    }
}

/// The longer the queue, the less often is a test case queued.
pub proof fn law_longer_queue_pushes_less(draw: u64, shorter: nat, longer: nat)
    requires
        shorter <= longer,
        draw_pushes(draw, longer),
    ensures
        draw_pushes(draw, shorter),
{
}

/// With eight or more test cases queued, no test case on the stuck path is queued.
pub proof fn law_full_queue_takes_no_more(
    t: TrackerView,
    id: usize,
    queue_len: nat,
    draw: u64,
)
    requires
        queue_len >= 8,
    ensures
        verdict(t, id, t.stuck_path, queue_len, draw).push is None,
{
}

/// With fewer than eight test cases queued, both outcomes are possible on the stuck path.
pub proof fn law_chance_decides(queue_len: nat)
    requires
        queue_len < 8,
    ensures
        draw_pushes(0, queue_len),
        !draw_pushes(u64::MAX, queue_len),
{
}

/// The tracker after `n` test cases on `path`.
pub open spec fn tracker_after_many(t: TrackerView, path: usize, n: nat) -> TrackerView
    decreases n,
{
    if n == 0 {
        t
    } else {
        tracker_after(tracker_after_many(t, path, (n - 1) as nat), path)
    }
}

/// A path that is not stuck is only counted until its hits reach the threshold: `n` test cases
/// that stay below it add `n` to its hits, and change nothing else.
pub proof fn law_below_threshold_only_counts(t: TrackerView, path: usize, n: nat)
    requires
        path != t.stuck_path,
        countable(t, path),
        t.path_hits[path as int] + n < t.stuck_threshold,
    ensures
        tracker_after_many(t, path, n) == (TrackerView {
            path_hits: t.path_hits.update(path as int, (t.path_hits[path as int] + n) as usize),
            ..t
        }),
    decreases n,
{
    if n > 0 {
        law_below_threshold_only_counts(t, path, (n - 1) as nat);
        let before = tracker_after_many(t, path, (n - 1) as nat);
        assert(before.path_hits[path as int] == t.path_hits[path as int] + n - 1);
    }
    assert(tracker_after_many(t, path, n) =~= (TrackerView {
        path_hits: t.path_hits.update(path as int, (t.path_hits[path as int] + n) as usize),
        ..t
    }));
}

/// The test case that brings a path to the threshold makes it the stuck path, is queued, and
/// starts a new cycle; from then on test cases on that path leave the tracker as it is.
pub proof fn law_threshold_makes_path_stuck(
    t: TrackerView,
    id: usize,
    path: usize,
    queue_len: nat,
    draw: u64,
)
    requires
        path != t.stuck_path,
        countable(t, path),
        t.path_hits[path as int] + 1 >= t.stuck_threshold,
    ensures
        verdict(t, id, path, queue_len, draw) == (Verdict { push: Some(id), cycle_reset: true }),
        tracker_after(t, path).stuck_path == path,
        tracker_after(tracker_after(t, path), path) == tracker_after(t, path),
{
}

/// A draw stands for its upper bits: the probability in units of 2<sup>-53</sup> is the draw in
/// units of 2<sup>-64</sup>, rounded down.
pub proof fn law_probability_of_draw(draw: u64)
    ensures
        2048 * probability(draw) <= draw < 2048 * probability(draw) + 2048,
        probability(draw) < 0x20_0000_0000_0000,
{
}

/// On the stuck path, whatever the length of the queue, the test case is queued exactly if the
/// drawn probability is below the threshold; the tracker is not reset, and does not change.
pub proof fn law_stuck_path_queues_below_threshold(
    t: TrackerView,
    id: usize,
    queue_len: nat,
    draw: u64,
)
    ensures
        verdict(t, id, t.stuck_path, queue_len, draw).push == Some(id) <==> probability(draw)
            < push_threshold(queue_len),
        verdict(t, id, t.stuck_path, queue_len, draw).push is None <==> probability(draw)
            >= push_threshold(queue_len),
        !verdict(t, id, t.stuck_path, queue_len, draw).cycle_reset,
        tracker_after(t, t.stuck_path) == t,
{
}

/// The threshold falls with each queued test case by 0.1, up to rounding, down to none at eight.
pub proof fn law_threshold_falls_evenly(queue_len: nat)
    ensures
        queue_len < 8 ==> -2 < push_threshold(queue_len) - push_threshold(queue_len + 1)
            - 900719925474099 < 3,
        queue_len >= 8 ==> push_threshold(queue_len) == 0,
{
}

/// Counting a path touches nothing but its hits, which grow by one, and the stuck path, which
/// becomes this one if the hits reach the threshold and stays else. Exactly then the test case is
/// queued, and the tracker reset.
pub proof fn law_counting_a_path(
    t: TrackerView,
    id: usize,
    path: usize,
    queue_len: nat,
    draw: u64,
    other: int,
)
    requires
        path != t.stuck_path,
        countable(t, path),
        0 <= other < t.path_hits.len(),
        other != path,
    ensures
        ({
            let after = tracker_after(t, path);
            let v = verdict(t, id, path, queue_len, draw);
            let reached = t.path_hits[path as int] + 1 >= t.stuck_threshold;
            &&& after.path_hits.len() == t.path_hits.len()
            &&& after.path_hits[path as int] == t.path_hits[path as int] + 1
            &&& after.path_hits[other] == t.path_hits[other]
            &&& after.stuck_threshold == t.stuck_threshold
            &&& reached ==> after.stuck_path == path && v.push == Some(id) && v.cycle_reset
            &&& !reached ==> after.stuck_path == t.stuck_path && v.push is None && !v.cycle_reset
        }),
{
}

} // verus!
