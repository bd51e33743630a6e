//! How stable a component is: how likely it is to stay unchanged over a period.
//!
//! Package updates are taken to follow a Poisson distribution. With `changes` updates over
//! `span_secs` seconds the chance of no update within `STABILITY_PERIOD_DAYS` days is
//! `exp(-rate * STABILITY_PERIOD_DAYS)`, where `rate` is the number of updates per day. The
//! chance itself is a real number; here a value is kept by what it is computed from, which is
//! enough to order two of them exactly.

use vstd::prelude::*;

verus! {

/// Seconds in a day.
pub const SECS_PER_DAY: u64 = 86400;

/// How far back changes are counted, in days.
pub const STABILITY_LOOKBACK_DAYS: u64 = 365;

/// The period over which a component is asked to stay unchanged, in days.
pub const STABILITY_PERIOD_DAYS: u64 = 7;

/// The chance of a component to stay unchanged over `STABILITY_PERIOD_DAYS`.
#[derive(Debug, Clone, Copy, PartialEq, Eq, Structural)]
pub enum Stability {
    /// It changed within the last day, or nothing is known of it: the chance is 0.
    Unstable,
    /// It had `changes` changes, the first of them `span_secs` seconds ago: the chance is
    /// `exp(-7 * changes / (span_secs / 86400))`.
    Poisson { changes: u64, span_secs: u64 },
    /// It had no change in the last `STABILITY_LOOKBACK_DAYS`: the chance is taken as 0.99,
    /// which is above what any change within that time leaves.
    VeryStable,
}

/// The earliest time that is still counted.
pub open spec fn lookback_start(now: u64) -> int {
    if now < STABILITY_LOOKBACK_DAYS * SECS_PER_DAY {
        0
    } else {
        now - STABILITY_LOOKBACK_DAYS * SECS_PER_DAY
    }
}

/// The times that are counted: those of the changelog, or else the build time, as far as they
/// are not too long ago.
pub open spec fn relevant_times(changelog_times: Seq<u64>, buildtime: u64, now: u64) -> Seq<u64> {
    let times = if changelog_times.len() == 0 {
        seq![buildtime]
    } else {
        changelog_times
    };
    times.filter(|t: u64| t >= lookback_start(now))
}

/// The smallest of some times.
pub open spec fn oldest(times: Seq<u64>) -> u64
    decreases times.len(),
{
    if times.len() <= 1 {
        times[0]
    } else if times.last() < oldest(times.drop_last()) {
        times.last()
    } else {
        oldest(times.drop_last())
    }
}

/// The stability that follows from the times that are counted.
pub open spec fn stability_of_times(times: Seq<u64>, now: u64) -> Stability {
    if times.len() == 0 {
        Stability::VeryStable
    } else if now - oldest(times) < SECS_PER_DAY {
        Stability::Unstable
    } else {
        Stability::Poisson {
            changes: times.len() as u64,
            span_secs: (now - oldest(times)) as u64,
        }
    }
}

/// The stability of a package.
pub open spec fn stability_of(changelog_times: Seq<u64>, buildtime: u64, now: u64) -> Stability {
    stability_of_times(relevant_times(changelog_times, buildtime, now), now)
}

impl Stability {
    /// A rate has a span to be taken over.
    pub open spec fn wf(self) -> bool {
        match self {
            Stability::Poisson { changes, span_secs } => changes > 0 && span_secs > 0,
            _ => true,
        }
    }

    /// Whether the chance of `self` is below that of `other`. Of two rates the higher leaves
    /// the lower chance.
    pub open spec fn below(self, other: Stability) -> bool {
        match (self, other) {
            (Stability::Unstable, Stability::Unstable) => false,
            (Stability::Unstable, _) => true,
            (
                Stability::Poisson { changes: c1, span_secs: s1 },
                Stability::Poisson { changes: c2, span_secs: s2 },
            ) => c1 * s2 > c2 * s1,
            (Stability::Poisson { .. }, Stability::VeryStable) => true,
            _ => false,
        }
    }

    /// Whether the two are the same chance.
    pub open spec fn same_chance(self, other: Stability) -> bool {
        !self.below(other) && !other.below(self)
    }

    /// The lower of two chances, the first of them where they are the same.
    pub open spec fn lower_of(self, other: Stability) -> Stability {
        if other.below(self) {
            other
        } else {
            self
        }
    }

    /// Whether `self` comes before `other`: by the chance, and where that is the same, by the
    /// shorter span.
    pub open spec fn precedes(self, other: Stability) -> bool {
        self.below(other) || (!other.below(self) && match (self, other) {
            (
                Stability::Poisson { span_secs: s1, .. },
                Stability::Poisson { span_secs: s2, .. },
            ) => s1 < s2,
            _ => false,
        })
    }

    /// The one of the two that comes first.
    pub open spec fn first_of(self, other: Stability) -> Stability {
        if other.precedes(self) {
            other
        } else {
            self
        }
    }

    /// Whether the chance of `self` is below that of `other`.
    pub fn is_below(self, other: Stability) -> (r: bool)
        ensures
            r == self.below(other),
    {
        match (self, other) {
            (Stability::Unstable, Stability::Unstable) => false,
            (Stability::Unstable, _) => true,
            (
                Stability::Poisson { changes: c1, span_secs: s1 },
                Stability::Poisson { changes: c2, span_secs: s2 },
            ) => {
                assert(0 <= c1 * s2 <= u64::MAX * u64::MAX) by (nonlinear_arith)
                    requires
                        0 <= c1 <= u64::MAX,
                        0 <= s2 <= u64::MAX,
                ;
                assert(0 <= c2 * s1 <= u64::MAX * u64::MAX) by (nonlinear_arith)
                    requires
                        0 <= c2 <= u64::MAX,
                        0 <= s1 <= u64::MAX,
                ;
                (c1 as u128) * (s2 as u128) > (c2 as u128) * (s1 as u128)
            },
            (Stability::Poisson { .. }, Stability::VeryStable) => true,
            _ => false,
        }
    }

    /// The lower of two chances, the first of them where they are the same.
    pub fn lower(self, other: Stability) -> (r: Stability)
        ensures
            r == self.lower_of(other),
    {
        if other.is_below(self) {
            other
        } else {
            self
        }
    }

    /// The one of the two with the lower chance, and where that is the same, with the shorter
    /// span. It does not matter which of them comes first.
    pub fn first(self, other: Stability) -> (r: Stability)
        ensures
            r == self.first_of(other),
    {
        if self.is_below(other) || other.is_below(self) {
            return self.lower(other);
        }
        match (self, other) {
            (
                Stability::Poisson { span_secs: s1, .. },
                Stability::Poisson { span_secs: s2, .. },
            ) => if s2 < s1 {
                other
            } else {
                self
            },
            _ => self,
        }
    }
}

/// Of three chances, if the first is not above the second and the second not above the third,
/// the first is not above the third.
pub proof fn chance_order_transitive(a: Stability, b: Stability, c: Stability)
    requires
        a.wf(),
        b.wf(),
        c.wf(),
        !b.below(a),
        !c.below(b),
    ensures
        !c.below(a),
{
    match (a, b, c) {
        (
            Stability::Poisson { changes: c1, span_secs: s1 },
            Stability::Poisson { changes: c2, span_secs: s2 },
            Stability::Poisson { changes: c3, span_secs: s3 },
        ) => {
            assert(c3 * s1 <= c1 * s3) by (nonlinear_arith)
                requires
                    c2 * s1 <= c1 * s2,
                    c3 * s2 <= c2 * s3,
                    c1 > 0,
                    s1 > 0,
                    c2 > 0,
                    s2 > 0,
                    c3 > 0,
                    s3 > 0,
            {
                assert((c3 * s2) * s1 <= (c2 * s3) * s1);
                assert((c2 * s1) * s3 <= (c1 * s2) * s3);
                assert((c3 * s1) * s2 <= (c1 * s3) * s2);
            }
        },
        _ => {},
    }
}

/// Of two stabilities one comes before the other, unless they are equal.
pub proof fn order_is_total(a: Stability, b: Stability)
    requires
        a.wf(),
        b.wf(),
    ensures
        !(a.precedes(b) && b.precedes(a)),
        a != b ==> a.precedes(b) || b.precedes(a),
        a.first_of(b) == b.first_of(a),
{
    match (a, b) {
        (
            Stability::Poisson { changes: c1, span_secs: s1 },
            Stability::Poisson { changes: c2, span_secs: s2 },
        ) => {
            if s1 == s2 && c1 * s2 == c2 * s1 {
                assert(c1 == c2) by (nonlinear_arith)
                    requires
                        c1 * s2 == c2 * s1,
                        s1 == s2,
                        s1 > 0,
                ;
            }
        },
        _ => {},
    }
}

/// Of three stabilities, if the second does not come before the first and the third not before
/// the second, the third does not come before the first.
pub proof fn order_is_transitive(a: Stability, b: Stability, c: Stability)
    requires
        a.wf(),
        b.wf(),
        c.wf(),
        !b.precedes(a),
        !c.precedes(b),
    ensures
        !c.precedes(a),
{
    chance_order_transitive(a, b, c);
    if c.precedes(a) && !a.below(c) {
        // all three have the same chance
        chance_order_transitive(c, a, b);
        chance_order_transitive(b, c, a);
    }
}

/// With the same span more changes leave a lower chance, and with the same changes a longer
/// span leaves a higher one.
pub proof fn chance_falls_with_rate(changes: u64, more: u64, span_secs: u64, longer: u64)
    requires
        0 < changes < more,
        0 < span_secs < longer,
    ensures
        (Stability::Poisson { changes: more, span_secs }).below(
            (Stability::Poisson { changes, span_secs }),
        ),
        (Stability::Poisson { changes, span_secs }).below(
            (Stability::Poisson { changes, span_secs: longer }),
        ),
{
    assert(more * span_secs > changes * span_secs) by (nonlinear_arith)
        requires
            changes < more,
            0 < span_secs,
    ;
    assert(changes * longer > changes * span_secs) by (nonlinear_arith)
        requires
            span_secs < longer,
            0 < changes,
    ;
}

/// `oldest` is one of the times, and none is smaller.
pub proof fn oldest_is_least(times: Seq<u64>)
    requires
        times.len() > 0,
    ensures
        times.contains(oldest(times)),
        forall|i: int| 0 <= i < times.len() ==> oldest(times) <= #[trigger] times[i],
    decreases times.len(),
{
    if times.len() == 1 {
        assert(times.contains(times[0]));
    } else {
        let front = times.drop_last();
        oldest_is_least(front);
        assert(times.contains(times.last()));
        let k = choose|k: int| 0 <= k < front.len() && front[k] == oldest(front);
        assert(times[k] == oldest(front));
        assert forall|i: int| 0 <= i < times.len() implies oldest(times) <= #[trigger] times[i] by {
            if i < front.len() {
                assert(front[i] == times[i]);
            }
        }
    }
}

/// A rate is taken over at least a day and at most the lookback period. Its chance is then at
/// most `exp(-7 / 365)`, which is below 0.99.
pub proof fn span_is_within_lookback(changelog_times: Seq<u64>, buildtime: u64, now: u64)
    requires
        changelog_times.len() <= u64::MAX,
    ensures
        stability_of(changelog_times, buildtime, now) matches Stability::Poisson {
            changes,
            span_secs,
        } ==> changes >= 1 && SECS_PER_DAY <= span_secs <= STABILITY_LOOKBACK_DAYS * SECS_PER_DAY,
{
    let times = relevant_times(changelog_times, buildtime, now);
    if times.len() > 0 {
        oldest_is_least(times);
        let k = choose|k: int| 0 <= k < times.len() && times[k] == oldest(times);
        let all = if changelog_times.len() == 0 {
            seq![buildtime]
        } else {
            changelog_times
        };
        all.lemma_filter_len(|t: u64| t >= lookback_start(now));
        all.lemma_filter_pred(|t: u64| t >= lookback_start(now), k);
    }
}

/// Calculate stability from changelog timestamps and build time.
///
/// The lookback period is limited to `STABILITY_LOOKBACK_DAYS`. If there are no changelog
/// entries, the build time is used as a fallback.
pub fn calculate_stability(changelog_times: &[u64], buildtime: u64, now: u64) -> (r: Stability)
    ensures
        r == stability_of(changelog_times@, buildtime, now),
        r.wf(),
{
    let start: u64 = now.saturating_sub(STABILITY_LOOKBACK_DAYS * SECS_PER_DAY);
    let ghost counted = |t: u64| t >= lookback_start(now);
    let ghost times = if changelog_times@.len() == 0 {
        seq![buildtime]
    } else {
        changelog_times@
    };
    let fallback = [buildtime];
    let list: &[u64] = if changelog_times.len() == 0 {
        &fallback
    } else {
        changelog_times
    };
    assert(list@ =~= times);
    let mut changes: u64 = 0;
    let mut first: u64 = 0;
    let mut i: usize = 0;
    assert(times.take(0).filter(counted) =~= seq![]) by {
        reveal(Seq::filter);
    }
    while i < list.len()
        invariant
            i <= list@.len(),
            list@ == times,
            start == lookback_start(now),
            counted == (|t: u64| t >= lookback_start(now)),
            changes <= i,
            changes == times.take(i as int).filter(counted).len(),
            changes > 0 ==> first == oldest(times.take(i as int).filter(counted)),
        decreases list@.len() - i,
    {
        let t = list[i];
        proof {
            reveal(Seq::filter);
            assert(times.take(i + 1).drop_last() =~= times.take(i as int));
            assert(times.take(i + 1).last() == t);
            let seen = times.take(i as int).filter(counted);
            assert(seen.push(t).drop_last() =~= seen);
        }
        if t >= start {
            if changes == 0 || t < first {
                first = t;
            }
            changes = changes + 1;
        }
        i += 1;
    }
    assert(times.take(i as int) =~= times);
    if changes == 0 {
        return Stability::VeryStable;
    }
    let span_secs: u64 = now.saturating_sub(first);
    if span_secs < SECS_PER_DAY {
        Stability::Unstable
    } else {
        Stability::Poisson { changes, span_secs }
    }
}

/// How many of the times are no more than 365 days ago.
pub open spec fn changes_within_a_year(times: Seq<u64>, now: u64) -> nat
    decreases times.len(),
{
    if times.len() == 0 {
        0
    } else if now <= times.last() + 365 * 86400 {
        changes_within_a_year(times.drop_last(), now) + 1
    } else {
        changes_within_a_year(times.drop_last(), now)
    }
}

proof fn lemma_counted(times: Seq<u64>, now: u64)
    ensures
        times.filter(|t: u64| t >= lookback_start(now)).len() == changes_within_a_year(times, now),
        changes_within_a_year(times, now) <= times.len(),
    decreases times.len(),
{
    reveal(Seq::filter);
    if times.len() > 0 {
        lemma_counted(times.drop_last(), now);
    }
}

proof fn lemma_filtered(times: Seq<u64>, now: u64)
    ensures
        ({
            let counted = times.filter(|t: u64| t >= lookback_start(now));
            &&& forall|i: int|
                0 <= i < times.len() && now <= #[trigger] times[i] + 365 * 86400
                    ==> counted.contains(times[i])
            &&& forall|t: u64| #[trigger]
                counted.contains(t) ==> now <= t + 365 * 86400 && times.contains(t)
        }),
    decreases times.len(),
{
    reveal(Seq::filter);
    let counted = times.filter(|t: u64| t >= lookback_start(now));
    if times.len() > 0 {
        let front = times.drop_last();
        let before = front.filter(|t: u64| t >= lookback_start(now));
        lemma_filtered(front, now);
        assert forall|i: int|
            0 <= i < times.len() && now <= #[trigger] times[i] + 365 * 86400 implies counted.contains(
            times[i],
        ) by {
            if i < front.len() {
                assert(front[i] == times[i]);
                assert(before.contains(times[i]));
                let k = choose|k: int| 0 <= k < before.len() && before[k] == times[i];
                assert(counted[k] == times[i]);
            } else {
                assert(counted[before.len() as int] == times[i]);
            }
        }
        assert forall|t: u64| #[trigger] counted.contains(t) implies now <= t + 365 * 86400
            && times.contains(t) by {
            let k = choose|k: int| 0 <= k < counted.len() && counted[k] == t;
            if k < before.len() {
                assert(before[k] == t);
                assert(before.contains(t));
                let m = choose|m: int| 0 <= m < front.len() && front[m] == t;
                assert(times[m] == t);
            } else {
                assert(times[times.len() - 1] == t);
            }
        }
    }
}

/// What a changelog makes of the stability. All of its times of the last 365 days are counted,
/// however many they are, and the oldest of them tells the span. With none of them the package
/// is very stable; with all of them within a day it is unstable.
pub proof fn all_changes_of_a_year_count(times: Seq<u64>, buildtime: u64, now: u64)
    requires
        0 < times.len() <= u64::MAX,
    ensures
        match stability_of(times, buildtime, now) {
            Stability::VeryStable => forall|i: int|
                0 <= i < times.len() ==> now > #[trigger] times[i] + 365 * 86400,
            Stability::Unstable => {
                &&& exists|i: int|
                    0 <= i < times.len() && now <= #[trigger] times[i] + 365 * 86400
                &&& forall|i: int|
                    0 <= i < times.len() && now <= #[trigger] times[i] + 365 * 86400 ==> now
                        < times[i] + 86400
            },
            Stability::Poisson { changes, span_secs } => {
                &&& changes == changes_within_a_year(times, now)
                &&& 86400 <= span_secs
                &&& exists|i: int|
                    0 <= i < times.len() && now <= #[trigger] times[i] + 365 * 86400 && now
                        == times[i] + span_secs
                &&& forall|i: int|
                    0 <= i < times.len() && now <= #[trigger] times[i] + 365 * 86400 ==> now
                        <= times[i] + span_secs
            },
        },
{
    lemma_counted(times, now);
    lemma_filtered(times, now);
    let counted = times.filter(|t: u64| t >= lookback_start(now));
    assert(counted == relevant_times(times, buildtime, now));
    if counted.len() > 0 {
        oldest_is_least(counted);
        let first = oldest(counted);
        assert(times.contains(first));
        let m = choose|m: int| 0 <= m < times.len() && times[m] == first;
        assert(now <= times[m] + 365 * 86400);
        assert forall|i: int| 0 <= i < times.len() && now <= #[trigger] times[i] + 365 * 86400 implies
            first <= times[i] by {
            assert(counted.contains(times[i]));
            let k = choose|k: int| 0 <= k < counted.len() && counted[k] == times[i];
            assert(first <= counted[k]);
        }
    } else {
        assert forall|i: int| 0 <= i < times.len() implies now > #[trigger] times[i] + 365 * 86400 by {
            if now <= times[i] + 365 * 86400 {
                assert(counted.contains(times[i]));
            }
        }
    }
}

/// Without a changelog the build time counts as the only change, and with one it does not count.
pub proof fn build_time_stands_in_for_a_changelog(
    times: Seq<u64>,
    buildtime: u64,
    other: u64,
    now: u64,
)
    ensures
        stability_of(seq![], buildtime, now) == stability_of(seq![buildtime], other, now),
        times.len() > 0 ==> stability_of(times, buildtime, now) == stability_of(times, other, now),
{
}

/// One more change within the span leaves a lower chance.
pub proof fn one_more_change_lowers_the_chance(times: Seq<u64>, buildtime: u64, now: u64, t: u64)
    requires
        0 < times.len() < u64::MAX,
        stability_of(times, buildtime, now) is Poisson,
        now <= t + stability_of(times, buildtime, now)->span_secs,
    ensures
        stability_of(times.push(t), buildtime, now).below(stability_of(times, buildtime, now)),
        stability_of(times.push(t), buildtime, now) == (Stability::Poisson {
            changes: (stability_of(times, buildtime, now)->changes + 1) as u64,
            span_secs: stability_of(times, buildtime, now)->span_secs,
        }),
{
    let more = times.push(t);
    all_changes_of_a_year_count(times, buildtime, now);
    all_changes_of_a_year_count(more, buildtime, now);
    span_is_within_lookback(times, buildtime, now);
    assert(more.drop_last() =~= times);
    lemma_counted(times, now);
    let span = stability_of(times, buildtime, now)->span_secs;
    let i = choose|i: int|
        0 <= i < times.len() && now <= #[trigger] times[i] + 365 * 86400 && now == times[i] + span;
    assert(more[i] == times[i]);
    assert(more[times.len() as int] == t);
    let after = stability_of(more, buildtime, now);
    assert(after is Poisson);
    let k = choose|k: int|
        0 <= k < more.len() && now <= #[trigger] more[k] + 365 * 86400 && now == more[k]
            + after->span_secs;
    if k < times.len() {
        assert(times[k] == more[k]);
    }
    assert(after->span_secs == span);
    chance_falls_with_rate(
        stability_of(times, buildtime, now)->changes,
        after->changes,
        span,
        (span + 1) as u64,
    );
}

/// A change of more than 365 days ago does not count, wherever in the changelog it stands.
pub proof fn old_changes_do_not_count(
    a: Seq<u64>,
    b: Seq<u64>,
    buildtime: u64,
    now: u64,
    t: u64,
)
    requires
        now > t + 365 * 86400,
        a.len() + b.len() > 0,
    ensures
        stability_of(a + seq![t] + b, buildtime, now) == stability_of(a + b, buildtime, now),
    decreases b.len(),
{
    lemma_filter_around(a, b, now, t);
}

proof fn lemma_filter_around(a: Seq<u64>, b: Seq<u64>, now: u64, t: u64)
    requires
        now > t + 365 * 86400,
    ensures
        (a + seq![t] + b).filter(|u: u64| u >= lookback_start(now)) == (a + b).filter(
            |u: u64| u >= lookback_start(now),
        ),
    decreases b.len(),
{
    reveal(Seq::filter);
    let long = a + seq![t] + b;
    let short = a + b;
    if b.len() == 0 {
        assert(long.drop_last() =~= short);
        assert(long.last() == t);
    } else {
        lemma_filter_around(a, b.drop_last(), now, t);
        assert(long.drop_last() =~= a + seq![t] + b.drop_last());
        assert(short.drop_last() =~= a + b.drop_last());
        assert(long.last() == b.last());
        assert(short.last() == b.last());
    }
}

/// Unstable is the lowest chance and very stable the highest; of two rates the one with more
/// changes in the same time is the lower chance. The same rate over a longer time is the same
/// chance.
pub proof fn chances_go_by_the_rate(a: Stability, b: Stability, times: u64)
    requires
        a.wf(),
        b.wf(),
        times > 0,
    ensures
        a.below(b) <==> match (a, b) {
            (
                Stability::Poisson { changes: c1, span_secs: s1 },
                Stability::Poisson { changes: c2, span_secs: s2 },
            ) => c1 * s2 > c2 * s1,
            (Stability::Unstable, _) => !(b is Unstable),
            (_, Stability::VeryStable) => !(a is VeryStable),
            _ => false,
        },
        a matches Stability::Poisson { changes, span_secs } ==> (changes * times <= u64::MAX
            && span_secs * times <= u64::MAX ==> a.same_chance(
            (Stability::Poisson {
                changes: (changes * times) as u64,
                span_secs: (span_secs * times) as u64,
            }),
        )),
{
    match a {
        Stability::Poisson { changes: c, span_secs: s } => {
            assert(c * (s * times) == (c * times) * s) by (nonlinear_arith);
        },
        _ => {},
    }
}

/// `lower_of` and `first_of` give one of the two, with a chance that is not above the other.
/// Of the same chances the first is kept by `lower_of`, and the one with the shorter span by
/// `first_of`.
pub proof fn lower_and_first_choose(a: Stability, b: Stability)
    requires
        a.wf(),
        b.wf(),
    ensures
        a.lower_of(b) == a || a.lower_of(b) == b,
        !a.below(a.lower_of(b)) && !b.below(a.lower_of(b)),
        a.same_chance(b) ==> a.lower_of(b) == a,
        a.first_of(b) == a || a.first_of(b) == b,
        !a.below(a.first_of(b)) && !b.below(a.first_of(b)),
        a is Poisson && b is Poisson && a.same_chance(b) ==> a.first_of(b)->span_secs
            <= a->span_secs && a.first_of(b)->span_secs <= b->span_secs,
{
}

} // verus!
