//! Feedback on skills and the per-skill performance metrics it updates.
//!
//! Ratings (`S`) are averaged and judged by functions the caller passes in; the library
//! keeps the records and the counts.

use vstd::prelude::*;
use crate::experience::ExperienceOutcome;
use crate::generator::{GeneratedSkill, SkillView, mentions_trigger, skill_views};
use crate::seqs::{
    first_index, keyed_positions, lemma_first_index, lemma_first_index_facts, lemma_sort_desc, positions_by_key_desc,
    sort_desc,
};
use crate::stamps::{new_identifier, utc_now_secs, utc_reading, uuid_shaped};
use crate::text::{lowercase, owned, str_eq};

verus! {

/// Where a piece of feedback came from.
#[derive(Debug, Clone, Copy, PartialEq, Eq, Structural)]
pub enum FeedbackType {
    Implicit,
    Explicit,
    OutcomeBased,
}

/// A rating of one use of a skill.
#[derive(Debug, Clone)]
pub struct Feedback<S> {
    pub skill_id: String,
    pub experience_id: String,
    pub feedback_type: FeedbackType,
    pub rating: S,
    pub timestamp: u64,
    pub context_hash: u64,
}

/// A piece of feedback with its strings taken as character sequences.
pub struct FeedbackView<S> {
    pub skill_id: Seq<char>,
    pub experience_id: Seq<char>,
    pub feedback_type: FeedbackType,
    pub rating: S,
    pub timestamp: u64,
    pub context_hash: u64,
}

impl<S> View for Feedback<S> {
    type V = FeedbackView<S>;

    open spec fn view(&self) -> FeedbackView<S> {
        FeedbackView {
            skill_id: self.skill_id@,
            experience_id: self.experience_id@,
            feedback_type: self.feedback_type,
            rating: self.rating,
            timestamp: self.timestamp,
            context_hash: self.context_hash,
        }
    }
}

impl<S: Copy> Feedback<S> {
    /// A copy of this feedback.
    pub fn duplicate(&self) -> (f: Self)
        ensures
            f@ == self@,
    {
        Feedback {
            skill_id: self.skill_id.clone(),
            experience_id: self.experience_id.clone(),
            feedback_type: self.feedback_type,
            rating: self.rating,
            timestamp: self.timestamp,
            context_hash: self.context_hash,
        }
    }
}

/// How a skill has performed.
#[derive(Debug, Clone)]
pub struct PerformanceMetric<S> {
    pub skill_id: String,
    pub total_uses: usize,
    pub successful_uses: usize,
    pub average_rating: S,
    pub average_duration_ms: u64,
    pub context_matches: usize,
    pub last_used: u64,
}

/// A metric with its skill identifier taken as a character sequence.
pub struct MetricView<S> {
    pub skill_id: Seq<char>,
    pub total_uses: usize,
    pub successful_uses: usize,
    pub average_rating: S,
    pub average_duration_ms: u64,
    pub context_matches: usize,
    pub last_used: u64,
}

impl<S> View for PerformanceMetric<S> {
    type V = MetricView<S>;

    open spec fn view(&self) -> MetricView<S> {
        MetricView {
            skill_id: self.skill_id@,
            total_uses: self.total_uses,
            successful_uses: self.successful_uses,
            average_rating: self.average_rating,
            average_duration_ms: self.average_duration_ms,
            context_matches: self.context_matches,
            last_used: self.last_used,
        }
    }
}

/// How long ago a skill was last used.
#[derive(Debug, Clone, Copy, PartialEq, Eq, Structural)]
pub enum Recency {
    /// Within a day (at most 24 whole hours).
    Day,
    /// Within three days (25 to 72 whole hours).
    ThreeDays,
    /// Within a week (73 to 168 whole hours).
    Week,
    /// Longer ago.
    Older,
}

/// How recently something last done at `last_used` was done, seen at the clock reading
/// `reading`: nothing without a reading, or when the reading is earlier than the last use.
pub open spec fn recency_for(last_used: u64, reading: Option<u64>) -> Option<Recency> {
    match reading {
        Some(now) => if now >= last_used {
            Some(recency_of((now - last_used) as nat))
        } else {
            None
        },
        None => None,
    }
}

/// `r` is the effectiveness of the metric `m` seen at the clock reading `reading`: nothing when
/// `recency_for` tells no recency; otherwise what `combine` gives for the success rate, the
/// average rating and the weight `recency_weight` gives the recency.
pub open spec fn effectiveness_for<S, G: Fn(usize, usize) -> S, W: Fn(Recency) -> S, C: Fn(S, S, S) -> S>(
    m: MetricView<S>,
    reading: Option<u64>,
    zero: S,
    rate_of: G,
    recency_weight: W,
    combine: C,
    r: Option<S>,
) -> bool {
    match recency_for(m.last_used, reading) {
        None => r is None,
        Some(recency) => r matches Some(e) && effective_with(m, recency, zero, rate_of, recency_weight, combine, e),
    }
}

/// `e` is what `combine` gives for the success rate of the metric `m`, its average rating and
/// the weight `recency_weight` gives the recency `recency`.
pub open spec fn effective_with<S, G: Fn(usize, usize) -> S, W: Fn(Recency) -> S, C: Fn(S, S, S) -> S>(
    m: MetricView<S>,
    recency: Recency,
    zero: S,
    rate_of: G,
    recency_weight: W,
    combine: C,
    e: S,
) -> bool {
    exists|rate: S, weight: S|
        {
            &&& rate_or_zero(m.successful_uses, m.total_uses, zero, rate_of, rate)
            &&& #[trigger] recency_weight.ensures((recency,), weight)
            &&& #[trigger] combine.ensures((rate, m.average_rating, weight), e)
        }
}

/// `r` is what `rate_of` gives for `part` of `whole`, or `zero` when `whole` is 0.
pub open spec fn rate_or_zero<S, G: Fn(usize, usize) -> S>(part: usize, whole: usize, zero: S, rate_of: G, r: S) -> bool {
    if whole == 0 {
        r == zero
    } else {
        rate_of.ensures((part, whole), r)
    }
}

/// The recency of a use `secs` seconds ago, by whole hours.
pub open spec fn recency_of(secs: nat) -> Recency {
    let hours = secs / 3600;
    if hours <= 24 {
        Recency::Day
    } else if hours <= 72 {
        Recency::ThreeDays
    } else if hours <= 168 {
        Recency::Week
    } else {
        Recency::Older
    }
}

impl<S: Copy> PerformanceMetric<S> {
    /// A copy of this metric.
    pub fn duplicate(&self) -> (m: Self)
        ensures
            m@ == self@,
    {
        PerformanceMetric {
            skill_id: self.skill_id.clone(),
            total_uses: self.total_uses,
            successful_uses: self.successful_uses,
            average_rating: self.average_rating,
            average_duration_ms: self.average_duration_ms,
            context_matches: self.context_matches,
            last_used: self.last_used,
        }
    }

    /// The skill's success rate: what `rate_of` gives for the successful and the total uses,
    /// or `zero` without uses.
    pub fn success_rate<G: Fn(usize, usize) -> S>(&self, zero: S, rate_of: &G) -> (r: S)
        requires
            forall|a: usize, b: usize| rate_of.requires((a, b)),
        ensures
            rate_or_zero(self.successful_uses, self.total_uses, zero, *rate_of, r),
    {
        if self.total_uses == 0 {
            zero
        } else {
            rate_of(self.successful_uses, self.total_uses)
        }
    }

    /// The skill's effectiveness seen at the clock reading `reading` (see `effectiveness_for`).
    pub fn effectiveness_from<G: Fn(usize, usize) -> S, W: Fn(Recency) -> S, C: Fn(S, S, S) -> S>(
        &self,
        reading: Option<u64>,
        zero: S,
        rate_of: &G,
        recency_weight: &W,
        combine: &C,
    ) -> (r: Option<S>)
        requires
            forall|a: usize, b: usize| rate_of.requires((a, b)),
            forall|x: Recency| recency_weight.requires((x,)),
            forall|a: S, b: S, c: S| combine.requires((a, b, c)),
        ensures
            effectiveness_for(self@, reading, zero, *rate_of, *recency_weight, *combine, r),
    {
        match self.recency_from(reading) {
            Some(recency) => {
                let rate = self.success_rate(zero, rate_of);
                let weight = recency_weight(recency);
                let e = combine(rate, self.average_rating, weight);
                assert((*recency_weight).ensures((recency,), weight));
                assert((*combine).ensures((rate, self@.average_rating, weight), e));
                assert(exists|rate: S, weight: S|
                    {
                        &&& rate_or_zero(self@.successful_uses, self@.total_uses, zero, *rate_of, rate)
                        &&& #[trigger] (*recency_weight).ensures((recency,), weight)
                        &&& #[trigger] (*combine).ensures((rate, self@.average_rating, weight), e)
                    });
                assert(effective_with(self@, recency, zero, *rate_of, *recency_weight, *combine, e));
                Some(e)
            },
            None => None,
        }
    }

    /// The skill's effectiveness seen now (see `effectiveness_from`), at the UTC clock reading,
    /// which is missing when the clock reads earlier than the epoch.
    pub fn effectiveness_score<G: Fn(usize, usize) -> S, W: Fn(Recency) -> S, C: Fn(S, S, S) -> S>(
        &self,
        zero: S,
        rate_of: &G,
        recency_weight: &W,
        combine: &C,
    ) -> (r: Option<S>)
        requires
            forall|a: usize, b: usize| rate_of.requires((a, b)),
            forall|x: Recency| recency_weight.requires((x,)),
            forall|a: S, b: S, c: S| combine.requires((a, b, c)),
        ensures
            exists|reading: Option<u64>| #[trigger] effectiveness_for(self@, reading, zero, *rate_of, *recency_weight, *combine, r),
    {
        let reading = utc_reading();
        self.effectiveness_from(reading, zero, rate_of, recency_weight, combine)
    }

    /// How recently the skill was used, seen at time `now` (seconds since the epoch).
    pub fn recency_at(&self, now: u64) -> (r: Recency)
        requires
            now >= self.last_used,
        ensures
            r == recency_of((now - self.last_used) as nat),
    {
        let hours = (now - self.last_used) / 3600;
        if hours <= 24 {
            Recency::Day
        } else if hours <= 72 {
            Recency::ThreeDays
        } else if hours <= 168 {
            Recency::Week
        } else {
            Recency::Older
        }
    }

    /// How recently the skill was used, seen at the clock reading `reading` (see
    /// `recency_for`).
    pub fn recency_from(&self, reading: Option<u64>) -> (r: Option<Recency>)
        ensures
            r == recency_for(self.last_used, reading),
    {
        match reading {
            Some(now) => if now >= self.last_used {
                Some(self.recency_at(now))
            } else {
                None
            },
            None => None,
        }
    }

    /// How recently the skill was used, seen now (see `recency_from`), at the UTC clock
    /// reading, which is missing when the clock reads earlier than the epoch.
    pub fn recency_now(&self) -> (r: Option<Recency>)
        ensures
            exists|reading: Option<u64>| r == #[trigger] recency_for(self.last_used, reading),
    {
        let reading = utc_reading();
        self.recency_from(reading)
    }
}

} // verus!

verus! {

/// Metrics of the skill `id`.
pub open spec fn metric_of_skill<S>(id: Seq<char>) -> spec_fn(MetricView<S>) -> bool {
    |m: MetricView<S>| m.skill_id == id
}

/// Adjustments of the skill `id`.
pub open spec fn adjustment_of_skill<S>(id: Seq<char>) -> spec_fn((Seq<char>, S)) -> bool {
    |a: (Seq<char>, S)| a.0 == id
}

/// A metric for `id` with no uses yet and the rating `zero`.
pub open spec fn fresh_metric<S>(id: Seq<char>, zero: S) -> MetricView<S> {
    MetricView {
        skill_id: id,
        total_uses: 0,
        successful_uses: 0,
        average_rating: zero,
        average_duration_ms: 0,
        context_matches: 0,
        last_used: 0,
    }
}

/// The metrics with the metric of `id` present: as they are, or with a fresh one appended.
pub open spec fn with_metric<S>(st: Seq<MetricView<S>>, id: Seq<char>, zero: S) -> Seq<MetricView<S>> {
    if first_index(st, metric_of_skill(id)) >= 0 {
        st
    } else {
        st.push(fresh_metric(id, zero))
    }
}

/// The position of the metric of `id` in `with_metric(st, id, zero)`.
pub open spec fn metric_position<S>(st: Seq<MetricView<S>>, id: Seq<char>) -> int {
    let i = first_index(st, metric_of_skill(id));
    if i >= 0 {
        i
    } else {
        st.len() as int
    }
}

/// Counting the feedback `fb` takes the metrics `before` to `after`: the skill's metric
/// (fresh with rating `zero` if there was none) has one more use, the rating that
/// `running_average` returned for the old average, the new number of uses and the rating,
/// one more successful use if `is_positive` found the rating positive, and was last used
/// at the feedback's time.
pub open spec fn feedback_update<S, R: Fn(S, usize, S) -> S, P: Fn(S) -> bool>(
    before: Seq<MetricView<S>>,
    fb: FeedbackView<S>,
    after: Seq<MetricView<S>>,
    zero: S,
    running_average: R,
    is_positive: P,
) -> bool {
    let base = with_metric(before, fb.skill_id, zero);
    let i = metric_position(before, fb.skill_id);
    let m = base[i];
    exists|avg: S, positive: bool|
        #[trigger] running_average.ensures((m.average_rating, (m.total_uses + 1) as usize, fb.rating), avg)
            && #[trigger] is_positive.ensures((fb.rating,), positive) && after == base.update(
            i,
            MetricView {
                total_uses: (m.total_uses + 1) as usize,
                average_rating: avg,
                successful_uses: (m.successful_uses + if positive { 1int } else { 0 }) as usize,
                last_used: fb.timestamp,
                ..m
            },
        )
}

/// Whether no two metrics belong to the same skill.
pub open spec fn one_metric_per_skill<S>(metrics: Seq<MetricView<S>>) -> bool {
    forall|i: int, j: int| 0 <= i < j < metrics.len() ==> metrics[i].skill_id != metrics[j].skill_id
}

/// Whether no two adjustments belong to the same skill.
pub open spec fn one_adjustment_per_skill<S>(adjustments: Seq<(Seq<char>, S)>) -> bool {
    forall|i: int, j: int| 0 <= i < j < adjustments.len() ==> adjustments[i].0 != adjustments[j].0
}

/// `after` has the skills of `before`, metric by metric.
pub open spec fn same_skill_ids<S>(before: Seq<MetricView<S>>, after: Seq<MetricView<S>>) -> bool {
    &&& after.len() == before.len()
    &&& forall|k: int| 0 <= k < before.len() ==> #[trigger] after[k].skill_id == before[k].skill_id
}

/// Counting feedback keeps one metric per skill.
proof fn lemma_feedback_update_keeps_one_metric<S, R: Fn(S, usize, S) -> S, P: Fn(S) -> bool>(
    before: Seq<MetricView<S>>,
    fb: FeedbackView<S>,
    after: Seq<MetricView<S>>,
    zero: S,
    running_average: R,
    is_positive: P,
)
    requires
        one_metric_per_skill(before),
        feedback_update(before, fb, after, zero, running_average, is_positive),
    ensures
        one_metric_per_skill(after),
        same_skill_ids(with_metric(before, fb.skill_id, zero), after),
{
    crate::laws::law_one_metric_per_skill(before, fb.skill_id, zero);
    let base = with_metric(before, fb.skill_id, zero);
    let i = metric_position(before, fb.skill_id);
    assert forall|k: int| 0 <= k < base.len() implies #[trigger] after[k].skill_id == base[k].skill_id by {}
    assert forall|a: int, b: int| 0 <= a < b < after.len() implies after[a].skill_id != after[b].skill_id by {
        assert(after[a].skill_id == base[a].skill_id && after[b].skill_id == base[b].skill_id);
    }
}

/// Setting an adjustment keeps one adjustment per skill.
proof fn lemma_set_adjustment_keeps_one<S>(st: Seq<(Seq<char>, S)>, id: Seq<char>, a: S)
    requires
        one_adjustment_per_skill(st),
    ensures
        one_adjustment_per_skill(set_adjustment(st, id, a)),
{
    lemma_first_index_facts(st, adjustment_of_skill(id));
    let r = set_adjustment(st, id, a);
    let i = first_index(st, adjustment_of_skill(id));
    assert forall|x: int, y: int| 0 <= x < y < r.len() implies r[x].0 != r[y].0 by {
        if i < 0 && y == st.len() {
            assert(r[x] == st[x]);
        }
    }
}

/// The feedback received, the metrics of each skill, and the context adjustment of each skill.
pub struct FeedbackLoop<S> {
    feedback_records: Vec<Feedback<S>>,
    skill_metrics: Vec<PerformanceMetric<S>>,
    context_adjustments: Vec<(String, S)>,
}

impl<S: Copy> FeedbackLoop<S> {
    /// The feedback received, in order.
    pub closed spec fn records(&self) -> Seq<FeedbackView<S>> {
        self.feedback_records@.map_values(|f: Feedback<S>| f@)
    }

    /// The metrics, one per skill, in order of the skill's first feedback.
    pub closed spec fn metrics(&self) -> Seq<MetricView<S>> {
        self.skill_metrics@.map_values(|m: PerformanceMetric<S>| m@)
    }

    /// The context adjustments, one per skill, in order of the skill's first adjustment.
    pub closed spec fn adjustments(&self) -> Seq<(Seq<char>, S)> {
        self.context_adjustments@.map_values(|a: (String, S)| (a.0@, a.1))
    }

    /// One metric and one adjustment per skill.
    pub open spec fn well_formed(&self) -> bool {
        one_metric_per_skill(self.metrics()) && one_adjustment_per_skill(self.adjustments())
    }

    /// A loop with no feedback, metrics or adjustments.
    pub fn new() -> (l: Self)
        ensures
            l.well_formed(),
            l.records() == Seq::<FeedbackView<S>>::empty(),
            l.metrics() == Seq::<MetricView<S>>::empty(),
            l.adjustments() == Seq::<(Seq<char>, S)>::empty(),
    {
        let l = FeedbackLoop { feedback_records: Vec::new(), skill_metrics: Vec::new(), context_adjustments: Vec::new() };
        assert(l.records() =~= Seq::<FeedbackView<S>>::empty());
        assert(l.metrics() =~= Seq::<MetricView<S>>::empty());
        assert(l.adjustments() =~= Seq::<(Seq<char>, S)>::empty());
        l
    }

    /// The position of the metric of skill `id`, if there is one.
    fn metric_index(&self, id: &str) -> (r: Option<usize>)
        ensures
            match r {
                Some(j) => j < self.metrics().len() && first_index(self.metrics(), metric_of_skill(id@)) == j,
                None => first_index(self.metrics(), metric_of_skill(id@)) == -1,
            },
    {
        let mut j: usize = 0;
        while j < self.skill_metrics.len()
            invariant
                j <= self.skill_metrics@.len(),
                forall|k: int| 0 <= k < j ==> self.metrics()[k].skill_id != id@,
            decreases self.skill_metrics.len() - j,
        {
            assert(self.metrics()[j as int] == self.skill_metrics@[j as int]@);
            if str_eq(self.skill_metrics[j].skill_id.as_str(), id) {
                proof {
                    lemma_first_index(self.metrics(), metric_of_skill(id@), j as int);
                }
                return Some(j);
            }
            j += 1;
        }
        proof {
            lemma_first_index(self.metrics(), metric_of_skill(id@), -1);
        }
        None
    }

    /// The position of the metric of skill `id`, adding a fresh metric with rating `zero` if
    /// there is none.
    fn metric_entry(&mut self, id: &str, zero: S) -> (j: usize)
        ensures
            final(self).metrics() == with_metric(old(self).metrics(), id@, zero),
            j == metric_position(old(self).metrics(), id@),
            j < final(self).metrics().len(),
            final(self).records() == old(self).records(),
            final(self).adjustments() == old(self).adjustments(),
    {
        match self.metric_index(id) {
            Some(j) => j,
            None => {
                let ghost cur = self.metrics();
                let j = self.skill_metrics.len();
                self.skill_metrics.push(
                    PerformanceMetric {
                        skill_id: owned(id),
                        total_uses: 0,
                        successful_uses: 0,
                        average_rating: zero,
                        average_duration_ms: 0,
                        context_matches: 0,
                        last_used: 0,
                    },
                );
                assert(self.metrics() =~= cur.push(fresh_metric(id@, zero)));
                j
            },
        }
    }

    /// Counts `feedback` in its skill's metric.
    fn update_metrics_from_feedback<R: Fn(S, usize, S) -> S, P: Fn(S) -> bool>(
        &mut self,
        feedback: &Feedback<S>,
        zero: S,
        running_average: &R,
        is_positive: &P,
    )
        requires
            forall|a: S, n: usize, r: S| running_average.requires((a, n, r)),
            forall|r: S| is_positive.requires((r,)),
            ({
                let m = with_metric(old(self).metrics(), feedback@.skill_id, zero)[metric_position(
                    old(self).metrics(),
                    feedback@.skill_id,
                )];
                m.total_uses < usize::MAX && (is_positive.ensures((feedback.rating,), true) ==> m.successful_uses
                    < usize::MAX)
            }),
        ensures
            feedback_update(old(self).metrics(), feedback@, final(self).metrics(), zero, *running_average, *is_positive),
            final(self).records() == old(self).records(),
            final(self).adjustments() == old(self).adjustments(),
    {
        let ghost before = self.metrics();
        let j = self.metric_entry(feedback.skill_id.as_str(), zero);
        let ghost base = self.metrics();
        let mut m = self.skill_metrics[j].duplicate();
        assert(m@ == base[j as int]);
        m.total_uses = m.total_uses + 1;
        let avg = running_average(m.average_rating, m.total_uses, feedback.rating);
        m.average_rating = avg;
        let positive = is_positive(feedback.rating);
        if positive {
            m.successful_uses = m.successful_uses + 1;
        }
        m.last_used = feedback.timestamp;
        self.skill_metrics.set(j, m);
        assert(self.metrics() =~= base.update(
            j as int,
            MetricView {
                total_uses: (base[j as int].total_uses + 1) as usize,
                average_rating: avg,
                successful_uses: (base[j as int].successful_uses + if positive { 1int } else { 0 }) as usize,
                last_used: feedback.timestamp,
                ..base[j as int]
            },
        ));
    }

    /// Records `feedback` and counts it in its skill's metric (see `feedback_update`).
    pub fn record_feedback<R: Fn(S, usize, S) -> S, P: Fn(S) -> bool>(
        &mut self,
        feedback: Feedback<S>,
        zero: S,
        running_average: &R,
        is_positive: &P,
    )
        requires
            forall|a: S, n: usize, r: S| running_average.requires((a, n, r)),
            forall|r: S| is_positive.requires((r,)),
            ({
                let m = with_metric(old(self).metrics(), feedback@.skill_id, zero)[metric_position(
                    old(self).metrics(),
                    feedback@.skill_id,
                )];
                m.total_uses < usize::MAX && (is_positive.ensures((feedback.rating,), true) ==> m.successful_uses
                    < usize::MAX)
            }),
        ensures
            final(self).records() == old(self).records().push(feedback@),
            feedback_update(old(self).metrics(), feedback@, final(self).metrics(), zero, *running_average, *is_positive),
            final(self).adjustments() == old(self).adjustments(),
            old(self).well_formed() ==> final(self).well_formed(),
    {
        let ghost cur = self.records();
        let fb = feedback.duplicate();
        self.feedback_records.push(fb);
        assert(self.records() =~= cur.push(feedback@));
        self.update_metrics_from_feedback(&feedback, zero, running_average, is_positive);
        proof {
            if old(self).well_formed() {
                lemma_feedback_update_keeps_one_metric(
                    old(self).metrics(),
                    feedback@,
                    self.metrics(),
                    zero,
                    *running_average,
                    *is_positive,
                );
            }
        }
    }
}

} // verus!

verus! {

/// `fb` is the feedback that an outcome of the skill `id` gives: its rating is the one
/// `rating_of` returned for the outcome.
pub open spec fn outcome_feedback<S, O: Fn(ExperienceOutcome) -> S>(
    fb: FeedbackView<S>,
    id: Seq<char>,
    outcome: ExperienceOutcome,
    rating_of: O,
) -> bool {
    &&& fb.skill_id == id
    &&& uuid_shaped(fb.experience_id)
    &&& fb.feedback_type == FeedbackType::OutcomeBased
    &&& rating_of.ensures((outcome,), fb.rating)
    &&& fb.context_hash == 0
}

/// Counting a use lasting `duration_ms` in the metric at `i` takes `before` to `after`: one
/// more use, the running mean of the durations (rounded down), and a new last use.
pub open spec fn duration_update<S>(before: Seq<MetricView<S>>, i: int, duration_ms: u64, after: Seq<MetricView<S>>) -> bool {
    let m = before[i];
    let n = m.total_uses + 1;
    &&& 0 <= i < before.len()
    &&& after == before.update(
        i,
        MetricView {
            total_uses: n as usize,
            average_duration_ms: ((m.average_duration_ms * m.total_uses + duration_ms) / n) as u64,
            last_used: after[i].last_used,
            ..m
        },
    )
}

impl<S: Copy> FeedbackLoop<S> {
    /// Records the outcome of a use of the skill `skill_id` lasting `duration_ms`: as
    /// outcome-based feedback rated by `rating_of` (counted as `record_feedback` counts it),
    /// then as one more use in the skill's metric with the running mean duration.
    pub fn update_from_experience<O: Fn(ExperienceOutcome) -> S, R: Fn(S, usize, S) -> S, P: Fn(S) -> bool>(
        &mut self,
        skill_id: &str,
        outcome: ExperienceOutcome,
        duration_ms: u64,
        rating_of: &O,
        zero: S,
        running_average: &R,
        is_positive: &P,
    )
        requires
            forall|o: ExperienceOutcome| rating_of.requires((o,)),
            forall|a: S, n: usize, r: S| running_average.requires((a, n, r)),
            forall|r: S| is_positive.requires((r,)),
            ({
                let m = with_metric(old(self).metrics(), skill_id@, zero)[metric_position(old(self).metrics(), skill_id@)];
                &&& m.total_uses + 2 <= usize::MAX
                &&& forall|r: S|
                    #[trigger] rating_of.ensures((outcome,), r) && is_positive.ensures((r,), true) ==> m.successful_uses
                        < usize::MAX
                &&& m.average_duration_ms * (m.total_uses + 1) + duration_ms <= u64::MAX
            }),
        ensures
            final(self).adjustments() == old(self).adjustments(),
            old(self).well_formed() ==> final(self).well_formed(),
            exists|fb: FeedbackView<S>, mid: Seq<MetricView<S>>|
                #[trigger] outcome_feedback(fb, skill_id@, outcome, *rating_of) && final(self).records() == old(
                    self,
                ).records().push(fb) && feedback_update(
                    old(self).metrics(),
                    fb,
                    mid,
                    zero,
                    *running_average,
                    *is_positive,
                ) && #[trigger] duration_update(mid, metric_position(old(self).metrics(), skill_id@), duration_ms, final(self).metrics()),
    {
        let ghost m0 = self.metrics();
        let rating = rating_of(outcome);
        let feedback = Feedback {
            skill_id: owned(skill_id),
            experience_id: new_identifier(),
            feedback_type: FeedbackType::OutcomeBased,
            rating,
            timestamp: utc_now_secs(),
            context_hash: 0,
        };
        let ghost fb = feedback@;
        self.record_feedback(feedback, zero, running_average, is_positive);
        let ghost mid = self.metrics();
        proof {
            crate::seqs::lemma_first_index_facts(m0, metric_of_skill(skill_id@));
        }
        assert(mid.len() == with_metric(m0, skill_id@, zero).len());
        let j = self.metric_entry(skill_id, zero);
        assert(j == metric_position(m0, skill_id@)) by {
            crate::seqs::lemma_first_index_facts(mid, metric_of_skill(skill_id@));
            let i0 = first_index(m0, metric_of_skill(skill_id@));
            let p = metric_position(m0, skill_id@);
            assert(mid[p].skill_id == skill_id@);
            assert forall|k: int| 0 <= k < p implies mid[k].skill_id != skill_id@ by {
                assert(mid[k] == with_metric(m0, skill_id@, zero)[k]);
                assert(with_metric(m0, skill_id@, zero)[k] == m0[k]);
            }
            lemma_first_index(mid, metric_of_skill(skill_id@), p);
        }
        assert(self.metrics() == mid);
        let mut m = self.skill_metrics[j].duplicate();
        assert(m@ == mid[j as int]);
        let old_total = m.total_uses;
        m.total_uses = old_total + 1;
        let total = m.total_uses as u64;
        m.average_duration_ms = (m.average_duration_ms * (old_total as u64) + duration_ms) / total;
        m.last_used = utc_now_secs();
        let last = m.last_used;
        self.skill_metrics.set(j, m);
        assert(self.metrics() =~= mid.update(
            j as int,
            MetricView {
                total_uses: (mid[j as int].total_uses + 1) as usize,
                average_duration_ms: ((mid[j as int].average_duration_ms * mid[j as int].total_uses + duration_ms) / (
                mid[j as int].total_uses + 1)) as u64,
                last_used: last,
                ..mid[j as int]
            },
        ));
        assert(duration_update(mid, j as int, duration_ms, self.metrics()));
        assert(outcome_feedback(fb, skill_id@, outcome, *rating_of));
    }
}

} // verus!

verus! {

/// The adjustments after setting the adjustment of `id` to `a`: it replaces the skill's
/// adjustment, or is added.
pub open spec fn set_adjustment<S>(st: Seq<(Seq<char>, S)>, id: Seq<char>, a: S) -> Seq<(Seq<char>, S)> {
    let i = first_index(st, adjustment_of_skill(id));
    if i >= 0 {
        st.update(i, (id, a))
    } else {
        st.push((id, a))
    }
}

impl<S: Copy> FeedbackLoop<S> {
    /// The position of the adjustment of skill `id`, if there is one.
    fn adjustment_index(&self, id: &str) -> (r: Option<usize>)
        ensures
            match r {
                Some(j) => j < self.adjustments().len() && first_index(self.adjustments(), adjustment_of_skill(id@)) == j,
                None => first_index(self.adjustments(), adjustment_of_skill(id@)) == -1,
            },
    {
        let mut j: usize = 0;
        while j < self.context_adjustments.len()
            invariant
                j <= self.context_adjustments@.len(),
                forall|k: int| 0 <= k < j ==> self.adjustments()[k].0 != id@,
            decreases self.context_adjustments.len() - j,
        {
            assert(self.adjustments()[j as int].0 == self.context_adjustments@[j as int].0@);
            if str_eq(self.context_adjustments[j].0.as_str(), id) {
                proof {
                    lemma_first_index(self.adjustments(), adjustment_of_skill(id@), j as int);
                }
                return Some(j);
            }
            j += 1;
        }
        proof {
            lemma_first_index(self.adjustments(), adjustment_of_skill(id@), -1);
        }
        None
    }

    /// Sets the context adjustment of the skill `skill_id` to what `adjustment_for` returns
    /// for `context_similarity`.
    pub fn adjust_for_context<T: Fn(S) -> S>(&mut self, skill_id: &str, context_similarity: S, adjustment_for: &T)
        requires
            forall|x: S| adjustment_for.requires((x,)),
        ensures
            final(self).records() == old(self).records(),
            final(self).metrics() == old(self).metrics(),
            old(self).well_formed() ==> final(self).well_formed(),
            exists|a: S|
                #[trigger] adjustment_for.ensures((context_similarity,), a) && final(self).adjustments() == set_adjustment(
                    old(self).adjustments(),
                    skill_id@,
                    a,
                ),
    {
        let adjustment = adjustment_for(context_similarity);
        let ghost cur = self.adjustments();
        proof {
            if old(self).well_formed() {
                lemma_set_adjustment_keeps_one(cur, skill_id@, adjustment);
            }
        }
        match self.adjustment_index(skill_id) {
            Some(j) => {
                self.context_adjustments.set(j, (owned(skill_id), adjustment));
                assert(self.adjustments() =~= cur.update(j as int, (skill_id@, adjustment)));
            },
            None => {
                self.context_adjustments.push((owned(skill_id), adjustment));
                assert(self.adjustments() =~= cur.push((skill_id@, adjustment)));
            },
        }
    }

    /// The context adjustment of the skill `skill_id`, if one was set.
    pub fn context_adjustment(&self, skill_id: &str) -> (r: Option<S>)
        ensures
            ({
                let i = first_index(self.adjustments(), adjustment_of_skill(skill_id@));
                r == if i >= 0 {
                    Some(self.adjustments()[i].1)
                } else {
                    None::<S>
                }
            }),
    {
        match self.adjustment_index(skill_id) {
            Some(j) => Some(self.context_adjustments[j].1),
            None => None,
        }
    }

    /// The metric of the skill `skill_id`, if it has one.
    pub fn get_metrics(&self, skill_id: &str) -> (r: Option<PerformanceMetric<S>>)
        ensures
            ({
                let i = first_index(self.metrics(), metric_of_skill(skill_id@));
                &&& r is Some <==> i >= 0
                &&& r matches Some(m) ==> m@ == self.metrics()[i]
            }),
    {
        match self.metric_index(skill_id) {
            Some(j) => {
                let m = self.skill_metrics[j].duplicate();
                Some(m)
            },
            None => None,
        }
    }

    /// All metrics.
    pub fn get_all_metrics(&self) -> (r: Vec<PerformanceMetric<S>>)
        ensures
            r@.map_values(|m: PerformanceMetric<S>| m@) == self.metrics(),
    {
        let mut r: Vec<PerformanceMetric<S>> = Vec::new();
        let mut i: usize = 0;
        while i < self.skill_metrics.len()
            invariant
                i <= self.skill_metrics@.len(),
                r@.map_values(|m: PerformanceMetric<S>| m@) == self.metrics().take(i as int),
            decreases self.skill_metrics.len() - i,
        {
            let d = self.skill_metrics[i].duplicate();
            let ghost before = r@.map_values(|m: PerformanceMetric<S>| m@);
            r.push(d);
            assert(r@.map_values(|m: PerformanceMetric<S>| m@) =~= before.push(d@));
            assert(self.metrics().take(i + 1) =~= self.metrics().take(i as int).push(self.metrics()[i as int]));
            i += 1;
        }
        assert(self.metrics().take(self.skill_metrics@.len() as int) =~= self.metrics());
        r
    }
}

} // verus!

verus! {

/// The context adjustment of the skill `id` among `adjustments`, if one was set.
pub open spec fn adjustment_for<S>(adjustments: Seq<(Seq<char>, S)>, id: Seq<char>) -> Option<S> {
    let i = first_index(adjustments, adjustment_of_skill(id));
    if i >= 0 {
        Some(adjustments[i].1)
    } else {
        None
    }
}

/// The usage of the skill `id` among `metrics`, if it has a metric: its total and successful
/// uses, its average rating and its last use.
pub open spec fn usage_for<S>(metrics: Seq<MetricView<S>>, id: Seq<char>) -> Option<(usize, usize, S, u64)> {
    let i = first_index(metrics, metric_of_skill(id));
    if i >= 0 {
        Some((metrics[i].total_uses, metrics[i].successful_uses, metrics[i].average_rating, metrics[i].last_used))
    } else {
        None
    }
}

/// `score` is what `score_of` returned for the skill `s` in `context`, given the skill's
/// confidence, its context adjustment, whether the context (in lower case) mentions one of
/// its triggers, and its usage.
pub open spec fn scored_for<S, C: Fn(S, Option<S>, bool, Option<(usize, usize, S, u64)>) -> S>(
    s: SkillView<S>,
    context: Seq<char>,
    adjustments: Seq<(Seq<char>, S)>,
    metrics: Seq<MetricView<S>>,
    score_of: C,
    score: S,
) -> bool {
    score_of.ensures(
        (
            s.confidence,
            adjustment_for(adjustments, s.id),
            mentions_trigger(lowercase(context), s.template.trigger_patterns),
            usage_for(metrics, s.id),
        ),
        score,
    )
}

/// The identifiers of `skills` with their scores, ordered by the keys of the scores, largest
/// first; skills with equal keys keep their order.
pub open spec fn ranked_by<S>(skills: Seq<SkillView<S>>, scores: Seq<S>, keys: Seq<u64>) -> Seq<(Seq<char>, S)> {
    let sorted = sort_desc(keyed_positions(keys));
    Seq::new(sorted.len(), |m: int| (skills[sorted[m].1 as int].id, scores[sorted[m].1 as int]))
}

/// `scores` and `keys` are what `score_of` and `rank_key` returned for each of `skills` in
/// `context` (see `scored_for`).
pub open spec fn scores_for<S, C: Fn(S, Option<S>, bool, Option<(usize, usize, S, u64)>) -> S, K: Fn(S) -> u64>(
    skills: Seq<SkillView<S>>,
    context: Seq<char>,
    adjustments: Seq<(Seq<char>, S)>,
    metrics: Seq<MetricView<S>>,
    score_of: C,
    rank_key: K,
    scores: Seq<S>,
    keys: Seq<u64>,
) -> bool {
    &&& scores.len() == skills.len()
    &&& keys.len() == skills.len()
    &&& forall|i: int|
        0 <= i < skills.len() ==> scored_for(skills[i], context, adjustments, metrics, score_of, #[trigger] scores[i])
            && rank_key.ensures((scores[i],), keys[i])
}

/// `ranked` is the ranking of `skills` for `context`: the identifiers with the scores that
/// `score_of` returned, ordered by the `rank_key` of the scores (see `ranked_by`).
pub open spec fn ranks<S, C: Fn(S, Option<S>, bool, Option<(usize, usize, S, u64)>) -> S, K: Fn(S) -> u64>(
    skills: Seq<SkillView<S>>,
    context: Seq<char>,
    adjustments: Seq<(Seq<char>, S)>,
    metrics: Seq<MetricView<S>>,
    score_of: C,
    rank_key: K,
    ranked: Seq<(Seq<char>, S)>,
) -> bool {
    exists|scores: Seq<S>, keys: Seq<u64>|
        #[trigger] scores_for(skills, context, adjustments, metrics, score_of, rank_key, scores, keys) && ranked
            == ranked_by(skills, scores, keys)
}

/// The view of a ranking.
pub open spec fn ranking_view<S>(r: Seq<(String, S)>) -> Seq<(Seq<char>, S)> {
    r.map_values(|e: (String, S)| (e.0@, e.1))
}

impl<S: Copy> FeedbackLoop<S> {
    /// The usage of the skill `skill_id`, if it has a metric.
    fn usage(&self, skill_id: &str) -> (r: Option<(usize, usize, S, u64)>)
        ensures
            r == usage_for(self.metrics(), skill_id@),
    {
        match self.metric_index(skill_id) {
            Some(j) => {
                let m = &self.skill_metrics[j];
                Some((m.total_uses, m.successful_uses, m.average_rating, m.last_used))
            },
            None => None,
        }
    }

    /// Ranks `skills` for `context`: each skill is scored by `score_of` (see `scored_for`),
    /// and the skills are ordered by the `rank_key` of their scores, largest first, skills
    /// with equal keys in their given order.
    pub fn rank_skills_for_context<C: Fn(S, Option<S>, bool, Option<(usize, usize, S, u64)>) -> S, K: Fn(S) -> u64>(
        &self,
        skills: &[GeneratedSkill<S>],
        context: &str,
        score_of: &C,
        rank_key: &K,
    ) -> (r: Vec<(String, S)>)
        requires
            forall|c: S, a: Option<S>, t: bool, u: Option<(usize, usize, S, u64)>| score_of.requires((c, a, t, u)),
            forall|s: S| rank_key.requires((s,)),
        ensures
            ranks(skill_views(skills@), context@, self.adjustments(), self.metrics(), *score_of, *rank_key, ranking_view(r@)),
    {
        let n = skills.len();
        let mut scores: Vec<S> = Vec::new();
        let mut keys: Vec<u64> = Vec::new();
        let mut i: usize = 0;
        while i < n
            invariant
                n == skills@.len(),
                i <= n,
                scores@.len() == i,
                keys@.len() == i,
                forall|c: S, a: Option<S>, t: bool, u: Option<(usize, usize, S, u64)>| score_of.requires((c, a, t, u)),
                forall|s: S| rank_key.requires((s,)),
                forall|k: int|
                    0 <= k < i ==> scored_for(
                        skills@[k]@,
                        context@,
                        self.adjustments(),
                        self.metrics(),
                        *score_of,
                        #[trigger] scores@[k],
                    ) && rank_key.ensures((scores@[k],), keys@[k]),
            decreases n - i,
        {
            let skill = &skills[i];
            let adjustment = self.context_adjustment(skill.id.as_str());
            let mentioned = skill.matches_context_trigger(context);
            let usage = self.usage(skill.id.as_str());
            let score = score_of(skill.confidence, adjustment, mentioned, usage);
            let key = rank_key(score);
            scores.push(score);
            keys.push(key);
            i += 1;
        }
        let sorted = positions_by_key_desc(&keys);
        let ghost kp = keyed_positions(keys@);
        proof {
            lemma_sort_desc(kp);
        }
        let mut r: Vec<(String, S)> = Vec::new();
        let mut m: usize = 0;
        while m < n
            invariant
                n == sorted@.len(),
                n == skills@.len(),
                n == scores@.len(),
                m <= n,
                sorted@ == sort_desc(kp),
                kp == keyed_positions(keys@),
                keys@.len() == n,
                forall|j: int| 0 <= j < n ==> kp.contains(#[trigger] sorted@[j]),
                ranking_view(r@) == Seq::new(
                    m as nat,
                    |j: int| (skill_views(skills@)[sorted@[j].1 as int].id, scores@[sorted@[j].1 as int]),
                ),
            decreases n - m,
        {
            assert(kp.contains(sorted@[m as int]));
            let idx = sorted[m].1;
            assert(idx < n) by {
                let k = choose|k: int| 0 <= k < kp.len() && kp[k] == sorted@[m as int];
            }
            let id = skills[idx].id.clone();
            let score = scores[idx];
            let ghost before = ranking_view(r@);
            r.push((id, score));
            assert(ranking_view(r@) =~= before.push((skill_views(skills@)[idx as int].id, scores@[idx as int])));
            assert(ranking_view(r@) =~= Seq::new(
                (m + 1) as nat,
                |j: int| (skill_views(skills@)[sorted@[j].1 as int].id, scores@[sorted@[j].1 as int]),
            ));
            m += 1;
        }
        assert(ranking_view(r@) =~= ranked_by(skill_views(skills@), scores@, keys@));
        assert(forall|k: int| 0 <= k < n ==> skills@[k]@ == skill_views(skills@)[k]);
        assert(scores_for(skill_views(skills@), context@, self.adjustments(), self.metrics(), *score_of, *rank_key, scores@, keys@));
        r
    }
}

} // verus!

verus! {

impl<S: Copy> Default for FeedbackLoop<S> {
    /// A loop with no feedback, metrics or adjustments.
    fn default() -> (l: Self)
        ensures
            l.well_formed(),
            l.records() == Seq::<FeedbackView<S>>::empty(),
            l.metrics() == Seq::<MetricView<S>>::empty(),
            l.adjustments() == Seq::<(Seq<char>, S)>::empty(),
    {
        Self::new()
    }
}

impl<S: Copy> FeedbackLoop<S> {
    /// The adjustment of the skill `skill_id` for a context this similar: what `adjust`
    /// returns for the skill's usage and `context_similarity` when the skill has a metric,
    /// `neutral` otherwise.
    pub fn get_skill_adjustment<A: Fn((usize, usize, S, u64), S) -> S>(
        &self,
        skill_id: &str,
        context_similarity: S,
        adjust: &A,
        neutral: S,
    ) -> (r: S)
        requires
            forall|u: (usize, usize, S, u64), c: S| adjust.requires((u, c)),
        ensures
            match usage_for(self.metrics(), skill_id@) {
                Some(u) => adjust.ensures((u, context_similarity), r),
                None => r == neutral,
            },
    {
        match self.usage(skill_id) {
            Some(u) => adjust(u, context_similarity),
            None => neutral,
        }
    }
}

} // verus!
