//! The tap-tempo estimator: from taps in rhythm to a tempo.
//!
//! Time is a reading of a monotonic clock in milliseconds. The estimator is
//! modelled by its session: the times of the taps that followed each other
//! without a break. What it returns is a function of the session alone.

use vstd::prelude::*;
use crate::power::{lemma_ten_to_zero, ten_to};
use crate::tempo::Tempo;

verus! {

/// The longest pause, in milliseconds, that a session survives.
pub const SESSION_TIMEOUT_MS: u64 = 2000;

/// The number of intervals, at most, that an estimate averages.
pub const WINDOW: usize = 8;

/// Whether a tap at `now` carries the session on: there is an earlier tap, and
/// `now` lies no earlier than it and no more than the timeout after it.
pub open spec fn continues(session: Seq<u64>, now: u64) -> bool {
    &&& session.len() > 0
    &&& session.last() <= now
    &&& now - session.last() <= SESSION_TIMEOUT_MS
}

/// The session once a tap at `now` is recorded: carried on, or begun anew
/// with that tap alone.
pub open spec fn session_after(session: Seq<u64>, now: u64) -> Seq<u64> {
    if continues(session, now) {
        session.push(now)
    } else {
        seq![now]
    }
}

/// Whether the taps are in order of time and no pause exceeds the timeout.
pub open spec fn is_session(session: Seq<u64>) -> bool {
    forall|i: int|
        0 <= i < session.len() - 1 ==> {
            &&& #[trigger] session[i] <= session[i + 1]
            &&& session[i + 1] - session[i] <= SESSION_TIMEOUT_MS
        }
}

/// The time from each tap to the next.
pub open spec fn intervals(session: Seq<u64>) -> Seq<int> {
    if session.len() == 0 {
        Seq::empty()
    } else {
        Seq::new((session.len() - 1) as nat, |i: int| session[i + 1] - session[i])
    }
}

/// The intervals that an estimate may use: those longer than nothing.
pub open spec fn usable(gaps: Seq<int>) -> Seq<int> {
    gaps.filter(|gap: int| gap > 0)
}

/// The last `WINDOW` of `gaps`, or all of them where there are fewer.
pub open spec fn recent(gaps: Seq<int>) -> Seq<int> {
    if gaps.len() <= WINDOW {
        gaps
    } else {
        gaps.skip(gaps.len() - WINDOW)
    }
}

/// The intervals that the estimate of a session averages.
pub open spec fn window(session: Seq<u64>) -> Seq<int> {
    recent(usable(intervals(session)))
}

/// The sum of `gaps`.
pub open spec fn total(gaps: Seq<int>) -> int
    decreases gaps.len(),
{
    if gaps.len() == 0 {
        0
    } else {
        total(gaps.drop_last()) + gaps.last()
    }
}

/// The tempo that a session shows, in beats per minute: 60000 divided by the
/// mean of the intervals in its window; none while the window is empty.
pub open spec fn estimate(session: Seq<u64>) -> Option<real> {
    let gaps = window(session);
    if gaps.len() == 0 {
        None
    } else {
        Some(60000real / (total(gaps) as real / gaps.len() as real))
    }
}

/// A count of taps as the estimator reports it: exact up to `u64::MAX`.
pub open spec fn clipped(count: nat) -> u64 {
    if count <= u64::MAX {
        count as u64
    } else {
        u64::MAX
    }
}

/// Stored gaps as the integers they stand for.
spec fn as_ints(gaps: Seq<u64>) -> Seq<int> {
    Seq::new(gaps.len(), |i: int| gaps[i] as int)
}

/// A session of one tap has no interval.
proof fn lemma_window_of_first_tap(now: u64)
    ensures
        window(seq![now]) =~= Seq::<int>::empty(),
{
    reveal(Seq::filter);
    assert(intervals(seq![now]) =~= Seq::<int>::empty());
}

/// How the window moves when a tap carries the session on.
proof fn lemma_window_of_next_tap(session: Seq<u64>, now: u64)
    requires
        session.len() > 0,
    ensures
        ({
            let gap = now - session.last();
            let before = window(session);
            window(session.push(now)) =~= if gap <= 0 {
                before
            } else if before.len() < WINDOW {
                before.push(gap)
            } else {
                before.skip(1).push(gap)
            }
        }),
{
    reveal(Seq::filter);
    let gap = now - session.last();
    let gaps = intervals(session);
    assert(intervals(session.push(now)) =~= gaps.push(gap));
    assert(gaps.push(gap).drop_last() =~= gaps);
    let kept = usable(gaps);
    if gap > 0 {
        assert(usable(gaps.push(gap)) == kept.push(gap));
        if kept.len() < WINDOW {
            assert(recent(kept.push(gap)) =~= recent(kept).push(gap));
        } else {
            assert(recent(kept.push(gap)) =~= recent(kept).skip(1).push(gap));
        }
    } else {
        assert(usable(gaps.push(gap)) == kept);
    }
}

/// The sum of gaps that each lie within the timeout.
proof fn lemma_total_bounds(gaps: Seq<int>)
    requires
        forall|i: int| 0 <= i < gaps.len() ==> 0 < #[trigger] gaps[i] <= SESSION_TIMEOUT_MS,
    ensures
        gaps.len() <= total(gaps) <= gaps.len() * SESSION_TIMEOUT_MS,
    decreases gaps.len(),
{
    if gaps.len() > 0 {
        lemma_total_bounds(gaps.drop_last());
    }
}

/// Every interval in the window of a session is positive and within the
/// timeout.
proof fn lemma_window_bounds(session: Seq<u64>)
    requires
        is_session(session),
    ensures
        forall|i: int|
            0 <= i < window(session).len() ==> 0 < #[trigger] window(session)[i]
                <= SESSION_TIMEOUT_MS,
{
    let gaps = intervals(session);
    let kept = usable(gaps);
    let positive = |gap: int| gap > 0;
    assert forall|i: int| 0 <= i < kept.len() implies 0 < #[trigger] kept[i]
        <= SESSION_TIMEOUT_MS by {
        gaps.lemma_filter_pred(positive, i);
        assert(kept.contains(kept[i]));
        gaps.lemma_filter_contains_rev(positive, kept[i]);
        let k = choose|k: int| 0 <= k < gaps.len() && gaps[k] == kept[i];
        assert(session[k] <= session[k + 1]);
    }
}

/// After a reset, or before any tap, the first tap opens a session of its
/// own, which counts one tap and shows no tempo yet.
pub proof fn law_first_tap(now: u64)
    ensures
        session_after(Seq::empty(), now) == seq![now],
        clipped(session_after(Seq::empty(), now).len()) == 1,
        estimate(session_after(Seq::empty(), now)) is None,
{
    lemma_window_of_first_tap(now);
}

/// A session shows a tempo only once it holds two taps.
pub proof fn law_estimate_needs_two_taps(session: Seq<u64>)
    requires
        session.len() < 2,
    ensures
        estimate(session) is None,
{
    reveal(Seq::filter);
    assert(intervals(session) =~= Seq::<int>::empty());
}

/// The tempo that a session shows is positive and finite: between 30 and
/// 60000 beats per minute, the tempos of the longest and of the shortest
/// interval that an estimate may use.
pub proof fn law_estimate_in_range(session: Seq<u64>)
    requires
        is_session(session),
        estimate(session) is Some,
    ensures
        30real <= estimate(session).unwrap() <= 60000real,
{
    let gaps = window(session);
    lemma_window_bounds(session);
    lemma_total_bounds(gaps);
    let sum = total(gaps);
    let count = gaps.len() as int;
    assert(30real <= 60000real / (sum as real / count as real) <= 60000real) by (nonlinear_arith)
        requires
            0 < count <= sum <= count * 2000,
    ;
}

/// A tap that comes later than the timeout after the one before it opens a
/// session of its own, as a first tap does: it counts one tap and shows no
/// tempo yet.
pub proof fn law_timeout_starts_anew(session: Seq<u64>, now: u64)
    requires
        session.len() > 0,
        now - session.last() > SESSION_TIMEOUT_MS,
    ensures
        session_after(session, now) == session_after(Seq::empty(), now),
        clipped(session_after(session, now).len()) == 1,
        estimate(session_after(session, now)) is None,
{
    lemma_window_of_first_tap(now);
}

/// Two taps `gap` milliseconds apart, where `gap` is positive and within the
/// timeout, show a tempo of 60000 divided by `gap`.
pub proof fn law_two_taps(first: u64, second: u64)
    requires
        first < second,
        second - first <= SESSION_TIMEOUT_MS,
    ensures
        session_after(session_after(Seq::empty(), first), second) == seq![first, second],
        estimate(seq![first, second]) == Some(60000real / (second - first) as real),
{
    let gap = second - first;
    assert(seq![first].push(second) =~= seq![first, second]);
    lemma_window_of_first_tap(first);
    lemma_window_of_next_tap(seq![first], second);
    let gaps = window(seq![first, second]);
    assert(gaps =~= seq![gap]);
    assert(gaps.drop_last() =~= Seq::<int>::empty());
    assert(total(gaps) == gap) by {
        reveal_with_fuel(total, 2);
    }
    assert(gap as real / 1int as real == gap as real);
}

/// Where every gap is positive, every gap is usable.
proof fn lemma_all_usable(gaps: Seq<int>)
    requires
        forall|i: int| 0 <= i < gaps.len() ==> #[trigger] gaps[i] > 0,
    ensures
        usable(gaps) == gaps,
    decreases gaps.len(),
{
    reveal(Seq::filter);
    if gaps.len() > 0 {
        lemma_all_usable(gaps.drop_last());
        assert(gaps.drop_last().push(gaps.last()) =~= gaps);
    }
}

/// The sum of gaps that are all alike.
proof fn lemma_total_of_equal_gaps(gaps: Seq<int>, gap: int)
    requires
        forall|i: int| 0 <= i < gaps.len() ==> #[trigger] gaps[i] == gap,
    ensures
        total(gaps) == gaps.len() * gap,
    decreases gaps.len(),
{
    if gaps.len() > 0 {
        lemma_total_of_equal_gaps(gaps.drop_last(), gap);
        assert(total(gaps) == gaps.len() * gap) by (nonlinear_arith)
            requires
                total(gaps) == (gaps.len() - 1) * gap + gap,
        ;
    }
}

/// Taps that follow each other at one steady interval show the tempo of that
/// interval: 60000 divided by it.
pub proof fn law_steady_taps(session: Seq<u64>, gap: int)
    requires
        session.len() >= 2,
        gap > 0,
        forall|i: int| 0 <= i < session.len() - 1 ==> #[trigger] session[i + 1] - session[i] == gap,
    ensures
        estimate(session) == Some(60000real / gap as real),
{
    let gaps = intervals(session);
    assert forall|i: int| 0 <= i < gaps.len() implies #[trigger] gaps[i] == gap by {
        assert(session[i + 1] - session[i] == gap);
    }
    lemma_all_usable(gaps);
    let kept = window(session);
    assert forall|i: int| 0 <= i < kept.len() implies #[trigger] kept[i] == gap by {
        if gaps.len() > WINDOW {
            assert(kept[i] == gaps[i + gaps.len() - WINDOW]);
        }
    }
    lemma_total_of_equal_gaps(kept, gap);
    let count = kept.len() as int;
    let sum = total(kept);
    assert(60000real / (sum as real / count as real) == 60000real / gap as real)
        by (nonlinear_arith)
        requires
            count > 0,
            gap > 0,
            sum == count * gap,
    ;
}

/// A session stays a session whatever tap is recorded, and is never empty
/// afterwards.
pub proof fn law_session_is_kept(session: Seq<u64>, now: u64)
    requires
        is_session(session),
    ensures
        is_session(session_after(session, now)),
        session_after(session, now).len() >= 1,
        session_after(session, now).last() == now,
{
}

/// Turns a stream of taps into a tempo.
pub struct TapEstimator {
    taps: u64,
    last: u64,
    gaps: Vec<u64>,
    session: Ghost<Seq<u64>>,
}

impl View for TapEstimator {
    type V = Seq<u64>;

    /// The times of the taps of the current session, oldest first.
    closed spec fn view(&self) -> Seq<u64> {
        self.session@
    }
}

impl TapEstimator {
    #[verifier::type_invariant]
    closed spec fn wf(self) -> bool {
        let session = self.session@;
        &&& is_session(session)
        &&& self.taps == clipped(session.len())
        &&& session.len() > 0 ==> self.last == session.last()
        &&& as_ints(self.gaps@) == window(session)
        &&& self.gaps@.len() <= WINDOW
        &&& forall|i: int|
            0 <= i < self.gaps@.len() ==> 0 < #[trigger] self.gaps@[i] <= SESSION_TIMEOUT_MS
    }

    /// An estimator that has seen no tap.
    pub fn new() -> (estimator: TapEstimator)
        ensures
            estimator@ == Seq::<u64>::empty(),
    {
        proof {
            reveal(Seq::filter);
            assert(as_ints(Seq::empty()) =~= window(Seq::empty()));
        }
        TapEstimator { taps: 0, last: 0, gaps: Vec::new(), session: Ghost(Seq::empty()) }
    }

    /// Forgets the session; the next tap is a first tap again.
    pub fn reset(&mut self)
        ensures
            final(self)@ == Seq::<u64>::empty(),
    {
        proof {
            reveal(Seq::filter);
            assert(as_ints(Seq::empty()) =~= window(Seq::empty()));
        }
        let session: Ghost<Seq<u64>> = Ghost(Seq::empty());
        *self = TapEstimator { taps: 0, last: 0, gaps: Vec::new(), session };
    }

    /// The number of taps in the current session; it stops counting at
    /// `u64::MAX`.
    pub fn tap_count(&self) -> (count: u64)
        ensures
            count == clipped(self@.len()),
    {
        proof {
            use_type_invariant(self);
        }
        self.taps
    }

    /// Records a tap at `now` and returns the tempo that the session then
    /// shows.
    ///
    /// The tap carries the session on if it comes no earlier than the tap
    /// before it and within the timeout; else it opens a new session. A tap
    /// at the very time of the one before it is counted, and leaves the
    /// estimate as it was.
    pub fn tap(&mut self, now: u64) -> (tempo: Option<Tempo>)
        ensures
            final(self)@ == session_after(old(self)@, now),
            is_session(final(self)@),
            match tempo {
                Some(t) => t.wf() && estimate(final(self)@) == Some(t.value()),
                None => estimate(final(self)@) is None,
            },
    {
        proof {
            use_type_invariant(&*self);
        }
        let ghost before = self.session@;
        if self.taps == 0 || now < self.last || now - self.last > SESSION_TIMEOUT_MS {
            proof {
                lemma_window_of_first_tap(now);
                assert(as_ints(Seq::empty()) =~= window(seq![now]));
            }
            let session: Ghost<Seq<u64>> = Ghost(Seq::empty().push(now));
            *self = TapEstimator { taps: 1, last: now, gaps: Vec::new(), session };
            return None;
        }
        let gap: u64 = now - self.last;
        let taps: u64 = if self.taps < u64::MAX {
            self.taps + 1
        } else {
            self.taps
        };
        let gaps: Vec<u64> = if gap > 0 {
            shifted(&self.gaps, gap)
        } else {
            copied(&self.gaps)
        };
        proof {
            lemma_window_of_next_tap(before, now);
            assert(as_ints(gaps@) =~= window(before.push(now)));
        }
        let tempo = mean_tempo(&gaps);
        let session: Ghost<Seq<u64>> = Ghost(before.push(now));
        *self = TapEstimator { taps, last: now, gaps, session };
        tempo
    }
}

/// A copy of `gaps`.
fn copied(gaps: &Vec<u64>) -> (copy: Vec<u64>)
    ensures
        copy@ == gaps@,
{
    let mut copy: Vec<u64> = Vec::new();
    let mut i: usize = 0;
    while i < gaps.len()
        invariant
            i <= gaps@.len(),
            copy@ == gaps@.take(i as int),
        decreases gaps@.len() - i,
    {
        copy.push(gaps[i]);
        i += 1;
        assert(copy@ =~= gaps@.take(i as int));
    }
    assert(gaps@.take(i as int) =~= gaps@);
    copy
}

/// The window after `gap` has come in: `gaps` with `gap` at its end, and
/// without its oldest entry where it was full.
fn shifted(gaps: &Vec<u64>, gap: u64) -> (window: Vec<u64>)
    requires
        gaps@.len() <= WINDOW,
    ensures
        window@ == if gaps@.len() < WINDOW {
            gaps@.push(gap)
        } else {
            gaps@.skip(1).push(gap)
        },
{
    let start: usize = if gaps.len() < WINDOW {
        0
    } else {
        1
    };
    let mut window: Vec<u64> = Vec::new();
    let mut i: usize = start;
    while i < gaps.len()
        invariant
            start <= i <= gaps@.len(),
            window@ == gaps@.subrange(start as int, i as int),
        decreases gaps@.len() - i,
    {
        window.push(gaps[i]);
        i += 1;
        assert(window@ =~= gaps@.subrange(start as int, i as int));
    }
    window.push(gap);
    assert(gaps@.subrange(0, gaps@.len() as int) =~= gaps@);
    assert(gaps@.len() >= 1 ==> gaps@.subrange(1, gaps@.len() as int) =~= gaps@.skip(1));
    window
}

/// The tempo whose beat is the mean of `gaps`, given in milliseconds.
fn mean_tempo(gaps: &Vec<u64>) -> (tempo: Option<Tempo>)
    requires
        gaps@.len() <= WINDOW,
        forall|i: int| 0 <= i < gaps@.len() ==> 0 < #[trigger] gaps@[i] <= SESSION_TIMEOUT_MS,
    ensures
        gaps@.len() == 0 <==> tempo is None,
        tempo is Some ==> tempo.unwrap().wf() && tempo.unwrap().value() == 60000real / (total(
            as_ints(gaps@),
        ) as real / gaps@.len() as real),
{
    let count: usize = gaps.len();
    if count == 0 {
        return None;
    }
    let ghost ints = as_ints(gaps@);
    let mut sum: u64 = 0;
    let mut i: usize = 0;
    while i < count
        invariant
            i <= count,
            count == gaps@.len(),
            count <= WINDOW,
            ints == as_ints(gaps@),
            forall|k: int| 0 <= k < gaps@.len() ==> 0 < #[trigger] gaps@[k] <= SESSION_TIMEOUT_MS,
            sum == total(ints.take(i as int)),
            i <= sum <= i * SESSION_TIMEOUT_MS,
        decreases count - i,
    {
        assert(ints.take(i + 1).drop_last() =~= ints.take(i as int));
        sum = sum + gaps[i];
        i += 1;
    }
    assert(ints.take(count as int) =~= ints);
    let numerator: u64 = 60000 * (count as u64);
    let tempo = Tempo::from_parts(numerator, sum);
    proof {
        let n = count as int;
        let s = sum as int;
        lemma_ten_to_zero();
        let one = ten_to(0);
        assert(((60000 * n) as real / s as real) * one == 60000real / (s as real / n as real))
            by (nonlinear_arith)
            requires
                n > 0,
                s > 0,
                one == 1real,
        ;
    }
    Some(tempo)
}

} // verus!
