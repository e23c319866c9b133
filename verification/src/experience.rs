//! Experiences: what was asked, which skill and tools handled it, and how it ended;
//! and the bounded collector that keeps the most recent of them.

use std::collections::VecDeque;
use vstd::prelude::*;
use crate::seqs::{
    count_where, keep, lemma_keep_everything, lemma_keep_len, lemma_keep_push, lemma_sum_prefix, lemma_sum_push, sum_of,
};
use crate::stamps::{new_identifier, system_now_secs, uuid_shaped};
use crate::text::{clone_strings, contains, lowercase, occurs_at, str_contains, str_eq, strs, to_lower};

verus! {

/// How a task execution ended.
#[derive(Debug, Clone, Copy, PartialEq, Eq, Structural)]
pub enum ExperienceOutcome {
    Success,
    PartialSuccess,
    Failure,
    Timeout,
    Cancelled,
}

/// Whether an outcome counts as a success (a full or a partial one).
pub open spec fn outcome_succeeded(o: ExperienceOutcome) -> bool {
    o == ExperienceOutcome::Success || o == ExperienceOutcome::PartialSuccess
}

/// The view of an optional string.
pub open spec fn opt_str(o: Option<String>) -> Option<Seq<char>> {
    match o {
        Some(s) => Some(s@),
        None => None,
    }
}

/// One recorded task execution. `S` is the type of the user's rating.
#[derive(Debug, Clone)]
pub struct Experience<S> {
    pub id: String,
    pub timestamp: u64,
    pub context: String,
    pub intent: String,
    pub skill_used: Option<String>,
    pub tools_used: Vec<String>,
    pub outcome: ExperienceOutcome,
    pub duration_ms: u64,
    pub error: Option<String>,
    pub user_feedback: Option<S>,
    pub session_id: String,
}

/// An experience with its strings taken as character sequences.
pub struct ExperienceView<S> {
    pub id: Seq<char>,
    pub timestamp: u64,
    pub context: Seq<char>,
    pub intent: Seq<char>,
    pub skill_used: Option<Seq<char>>,
    pub tools_used: Seq<Seq<char>>,
    pub outcome: ExperienceOutcome,
    pub duration_ms: u64,
    pub error: Option<Seq<char>>,
    pub user_feedback: Option<S>,
    pub session_id: Seq<char>,
}

impl<S> View for Experience<S> {
    type V = ExperienceView<S>;

    open spec fn view(&self) -> ExperienceView<S> {
        ExperienceView {
            id: self.id@,
            timestamp: self.timestamp,
            context: self.context@,
            intent: self.intent@,
            skill_used: opt_str(self.skill_used),
            tools_used: strs(self.tools_used@),
            outcome: self.outcome,
            duration_ms: self.duration_ms,
            error: opt_str(self.error),
            user_feedback: self.user_feedback,
            session_id: self.session_id@,
        }
    }
}

/// The views of a sequence of experiences.
pub open spec fn views<S>(v: Seq<Experience<S>>) -> Seq<ExperienceView<S>> {
    v.map_values(|e: Experience<S>| e@)
}

/// Copies an optional string.
pub fn clone_opt_string(o: &Option<String>) -> (r: Option<String>)
    ensures
        opt_str(r) == opt_str(*o),
{
    match o {
        Some(s) => Some(s.clone()),
        None => None,
    }
}

impl<S: Copy> Experience<S> {
    /// A new experience with a fresh random identifier, stamped with the current time,
    /// with no error and no rating yet.
    pub fn new(
        context: String,
        intent: String,
        skill_used: Option<String>,
        tools_used: Vec<String>,
        outcome: ExperienceOutcome,
        duration_ms: u64,
        session_id: String,
    ) -> (e: Self)
        ensures
            uuid_shaped(e.id@),
            e.context == context,
            e.intent == intent,
            e.skill_used == skill_used,
            e.tools_used == tools_used,
            e.outcome == outcome,
            e.duration_ms == duration_ms,
            e.error.is_none(),
            e.user_feedback.is_none(),
            e.session_id == session_id,
    {
        let id = new_identifier();
        let timestamp = system_now_secs();
        Self::from_parts(id, timestamp, context, intent, skill_used, tools_used, outcome, duration_ms, session_id)
    }

    /// An experience with the given identifier and timestamp, no error and no rating.
    pub fn from_parts(
        id: String,
        timestamp: u64,
        context: String,
        intent: String,
        skill_used: Option<String>,
        tools_used: Vec<String>,
        outcome: ExperienceOutcome,
        duration_ms: u64,
        session_id: String,
    ) -> (e: Self)
        ensures
            e.id == id,
            e.timestamp == timestamp,
            e.context == context,
            e.intent == intent,
            e.skill_used == skill_used,
            e.tools_used == tools_used,
            e.outcome == outcome,
            e.duration_ms == duration_ms,
            e.error.is_none(),
            e.user_feedback.is_none(),
            e.session_id == session_id,
    {
        Experience {
            id,
            timestamp,
            context,
            intent,
            skill_used,
            tools_used,
            outcome,
            duration_ms,
            error: None,
            user_feedback: None,
            session_id,
        }
    }

    /// The same experience with the error recorded.
    pub fn with_error(self, error: String) -> (e: Self)
        ensures
            e == (Experience { error: Some(error), ..self }),
    {
        let mut e = self;
        e.error = Some(error);
        e
    }

    /// The same experience with the user's rating recorded.
    pub fn with_feedback(self, feedback: S) -> (e: Self)
        ensures
            e == (Experience { user_feedback: Some(feedback), ..self }),
    {
        let mut e = self;
        e.user_feedback = Some(feedback);
        e
    }

    /// Whether the execution succeeded fully or partly.
    pub fn is_successful(&self) -> (b: bool)
        ensures
            b == outcome_succeeded(self.outcome),
    {
        match self.outcome {
            ExperienceOutcome::Success | ExperienceOutcome::PartialSuccess => true,
            _ => false,
        }
    }

    /// The score of this execution: what `average` gives for the rating of its outcome (by
    /// `rating_of`) and the user's rating (the outcome's rating when the user gave none).
    pub fn normalized_score<R: Fn(ExperienceOutcome) -> S, A: Fn(S, S) -> S>(&self, rating_of: &R, average: &A) -> (r: S)
        requires
            forall|o: ExperienceOutcome| rating_of.requires((o,)),
            forall|a: S, b: S| average.requires((a, b)),
        ensures
            exists|base: S|
                #[trigger] rating_of.ensures((self.outcome,), base) && average.ensures(
                    (
                        base,
                        match self.user_feedback {
                            Some(f) => f,
                            None => base,
                        },
                    ),
                    r,
                ),
    {
        let base = rating_of(self.outcome);
        let feedback = match self.user_feedback {
            Some(f) => f,
            None => base,
        };
        average(base, feedback)
    }

    /// A copy of this experience.
    pub fn duplicate(&self) -> (e: Self)
        ensures
            e@ == self@,
    {
        Experience {
            id: self.id.clone(),
            timestamp: self.timestamp,
            context: self.context.clone(),
            intent: self.intent.clone(),
            skill_used: clone_opt_string(&self.skill_used),
            tools_used: clone_strings(&self.tools_used),
            outcome: self.outcome,
            duration_ms: self.duration_ms,
            error: clone_opt_string(&self.error),
            user_feedback: self.user_feedback,
            session_id: self.session_id.clone(),
        }
    }
}

} // verus!

verus! {

/// The entries of a buffer with room for `capacity` after `e` is recorded: the oldest
/// entry leaves first when the buffer is full.
pub open spec fn after_record<S>(entries: Seq<ExperienceView<S>>, capacity: nat, e: ExperienceView<S>) -> Seq<
    ExperienceView<S>,
> {
    (if entries.len() >= capacity && entries.len() > 0 {
        entries.drop_first()
    } else {
        entries
    }).push(e)
}

/// The `count` most recent entries, newest first.
pub open spec fn most_recent<S>(entries: Seq<ExperienceView<S>>, count: nat) -> Seq<ExperienceView<S>> {
    let n = if count < entries.len() { count } else { entries.len() };
    Seq::new(n, |i: int| entries[entries.len() - 1 - i])
}

/// The largest number of entries a buffer with room for `capacity` can hold: at least
/// one, since the newest entry is always kept.
pub open spec fn bound(capacity: nat) -> nat {
    if capacity == 0 { 1 } else { capacity }
}

/// A buffer of the most recent experiences, with room for a fixed number of them,
/// and the identifiers of all experiences ever recorded.
pub struct ExperienceCollector<S> {
    experiences: VecDeque<Experience<S>>,
    max_size: usize,
    session_experiences: Vec<String>,
}

impl<S: Copy> ExperienceCollector<S> {
    /// The stored experiences, oldest first.
    pub closed spec fn entries(&self) -> Seq<ExperienceView<S>> {
        views(self.experiences@)
    }

    /// How many experiences the buffer has room for.
    pub closed spec fn capacity(&self) -> nat {
        self.max_size as nat
    }

    /// The identifiers of all experiences recorded, in order.
    pub closed spec fn recorded_ids(&self) -> Seq<Seq<char>> {
        strs(self.session_experiences@)
    }

    /// The collector holds no more experiences than its bound.
    pub open spec fn within_bound(&self) -> bool {
        self.entries().len() <= bound(self.capacity())
    }

    /// An empty collector with room for `max_size` experiences.
    pub fn new(max_size: usize) -> (c: Self)
        ensures
            c.within_bound(),
            c.entries() == Seq::<ExperienceView<S>>::empty(),
            c.capacity() == max_size,
            c.recorded_ids() == Seq::<Seq<char>>::empty(),
    {
        let c = ExperienceCollector { experiences: VecDeque::new(), max_size, session_experiences: Vec::new() };
        assert(c.entries() =~= Seq::<ExperienceView<S>>::empty());
        assert(c.recorded_ids() =~= Seq::<Seq<char>>::empty());
        c
    }

    /// Records an experience; when the buffer is full the oldest experience leaves.
    pub fn record(&mut self, experience: Experience<S>)
        ensures
            final(self).entries() == after_record(old(self).entries(), old(self).capacity(), experience@),
            final(self).capacity() == old(self).capacity(),
            final(self).recorded_ids() == old(self).recorded_ids().push(experience.id@),
            final(self).within_bound() == old(self).within_bound(),
    {
        let ghost e = experience@;
        let exp_id = experience.id.clone();
        let ghost before = self.entries();
        if self.experiences.len() >= self.max_size {
            if self.experiences.len() > 0 {
                let _oldest = self.experiences.pop_front();
                assert(self.entries() =~= before.drop_first());
            }
        }
        let ghost mid = self.entries();
        self.experiences.push_back(experience);
        assert(self.entries() =~= mid.push(e));
        let ghost ids = self.recorded_ids();
        self.session_experiences.push(exp_id);
        assert(self.recorded_ids() =~= ids.push(e.id));
    }

    /// The `count` most recent experiences, newest first.
    pub fn get_recent(&self, count: usize) -> (r: Vec<Experience<S>>)
        ensures
            views(r@) == most_recent(self.entries(), count as nat),
    {
        let n = self.experiences.len();
        let mut r: Vec<Experience<S>> = Vec::new();
        let mut i: usize = 0;
        while i < count && i < n
            invariant
                n == self.experiences@.len(),
                i <= n,
                views(r@) == most_recent(self.entries(), count as nat).take(i as int),
                i <= count,
            decreases n - i,
        {
            let e = self.experiences[n - 1 - i].duplicate();
            let ghost before = views(r@);
            r.push(e);
            assert(views(r@) =~= before.push(e@));
            assert(most_recent(self.entries(), count as nat).take(i + 1) =~= most_recent(
                self.entries(),
                count as nat,
            ).take(i as int).push(self.entries()[n - 1 - i]));
            i += 1;
        }
        assert(most_recent(self.entries(), count as nat).take(i as int) =~= most_recent(
            self.entries(),
            count as nat,
        ));
        r
    }

    /// The stored experiences that satisfy `p`, decided by `select_it`.
    fn select<F: Fn(&Experience<S>) -> bool>(&self, select_it: F, Ghost(p): Ghost<spec_fn(ExperienceView<S>) -> bool>) -> (r: Vec<
        Experience<S>,
    >)
        requires
            forall|e: &Experience<S>| #[trigger] select_it.requires((e,)),
            forall|e: &Experience<S>, b: bool| #[trigger] select_it.ensures((e,), b) ==> b == p(e@),
        ensures
            views(r@) == keep(self.entries(), p),
    {
        let n = self.experiences.len();
        let mut r: Vec<Experience<S>> = Vec::new();
        let mut i: usize = 0;
        while i < n
            invariant
                n == self.experiences@.len(),
                i <= n,
                forall|e: &Experience<S>| #[trigger] select_it.requires((e,)),
                forall|e: &Experience<S>, b: bool| #[trigger] select_it.ensures((e,), b) ==> b == p(e@),
                views(r@) == keep(self.entries().take(i as int), p),
            decreases n - i,
        {
            let ghost t = self.entries().take(i as int);
            assert(self.entries().take(i + 1) =~= t.push(self.entries()[i as int]));
            proof { lemma_keep_push(t, self.entries()[i as int], p); }
            let e = &self.experiences[i];
            if select_it(e) {
                let d = e.duplicate();
                let ghost before = views(r@);
                r.push(d);
                assert(views(r@) =~= before.push(d@));
            }
            i += 1;
        }
        assert(self.entries().take(n as int) =~= self.entries());
        r
    }
}

} // verus!

verus! {

/// Experiences handled by the skill named `skill`.
pub open spec fn used_skill<S>(skill: Seq<char>) -> spec_fn(ExperienceView<S>) -> bool {
    |e: ExperienceView<S>| e.skill_used == Some(skill)
}

/// Experiences whose intent, in lower case, contains `intent` in lower case.
pub open spec fn intent_matches<S>(intent: Seq<char>) -> spec_fn(ExperienceView<S>) -> bool {
    |e: ExperienceView<S>| contains(lowercase(e.intent), lowercase(intent))
}

/// Experiences that ended in success or partial success.
pub open spec fn succeeded<S>() -> spec_fn(ExperienceView<S>) -> bool {
    |e: ExperienceView<S>| outcome_succeeded(e.outcome)
}

/// Experiences of the session `session`.
pub open spec fn in_session<S>(session: Seq<char>) -> spec_fn(ExperienceView<S>) -> bool {
    |e: ExperienceView<S>| e.session_id == session
}

/// Experiences of any session but `session`.
pub open spec fn outside_session<S>(session: Seq<char>) -> spec_fn(ExperienceView<S>) -> bool {
    |e: ExperienceView<S>| e.session_id != session
}

/// The duration of an experience.
pub open spec fn duration_of<S>() -> spec_fn(ExperienceView<S>) -> nat {
    |e: ExperienceView<S>| e.duration_ms as nat
}

/// Figures over the executions of one skill: counts, the success rate, the mean duration and
/// the mean score.
#[derive(Debug, Clone, Copy, PartialEq)]
pub struct SkillStatistics<S> {
    pub total_executions: usize,
    pub successful_executions: usize,
    pub success_rate: S,
    pub average_duration_ms: u64,
    pub average_score: S,
}

/// `v` are the scores that `score_of` gave the experiences `m`, from their outcome and
/// their rating.
pub open spec fn scored_experiences<S, F: Fn(ExperienceOutcome, Option<S>) -> S>(
    v: Seq<S>,
    m: Seq<ExperienceView<S>>,
    score_of: F,
) -> bool {
    &&& v.len() == m.len()
    &&& forall|i: int| 0 <= i < m.len() ==> score_of.ensures((m[i].outcome, m[i].user_feedback), #[trigger] v[i])
}

/// `s` are the statistics of the executions `m` of one skill: how many there were and how
/// many succeeded, the mean duration rounded down, the success rate that `rate_of` gave the
/// counts and the mean that `mean_of` gave the scores of the executions; with no executions
/// everything is zero.
pub open spec fn statistics_for<
    S,
    G: Fn(usize, usize) -> S,
    F: Fn(ExperienceOutcome, Option<S>) -> S,
    M: Fn(Vec<S>) -> S,
>(m: Seq<ExperienceView<S>>, s: SkillStatistics<S>, zero: S, rate_of: G, score_of: F, mean_of: M) -> bool {
    &&& s.total_executions == m.len()
    &&& s.successful_executions == count_where(m, succeeded())
    &&& s.average_duration_ms == if m.len() == 0 {
        0
    } else {
        (sum_of(m, duration_of()) / m.len()) as u64
    }
    &&& m.len() == 0 ==> s.success_rate == zero && s.average_score == zero
    &&& m.len() > 0 ==> rate_of.ensures((s.successful_executions, s.total_executions), s.success_rate)
    &&& m.len() > 0 ==> exists|v: Vec<S>| #[trigger] scored_experiences(v@, m, score_of) && mean_of.ensures((v,), s.average_score)
}

impl<S: Copy> ExperienceCollector<S> {
    /// The experiences handled by the skill named `skill_name`, oldest first.
    pub fn get_by_skill(&self, skill_name: &str) -> (r: Vec<Experience<S>>)
        ensures
            views(r@) == keep(self.entries(), used_skill(skill_name@)),
    {
        let pick = |e: &Experience<S>| -> (b: bool)
            ensures
                b == (opt_str(e.skill_used) == Some(skill_name@)),
            {
                match &e.skill_used {
                    Some(s) => str_eq(s.as_str(), skill_name),
                    None => false,
                }
            };
        self.select(pick, Ghost(used_skill(skill_name@)))
    }

    /// The experiences whose intent contains `intent`, both taken in lower case.
    pub fn get_by_intent(&self, intent: &str) -> (r: Vec<Experience<S>>)
        ensures
            views(r@) == keep(self.entries(), intent_matches(intent@)),
            intent@.len() == 0 ==> views(r@) == self.entries(),
    {
        let intent_lower = to_lower(intent);
        proof {
            if intent@.len() == 0 {
                assert(lowercase(intent@) =~= Seq::<char>::empty());
                assert forall|e: ExperienceView<S>| #[trigger] intent_matches(intent@)(e) by {
                    assert(lowercase(e.intent).subrange(0, 0) =~= lowercase(intent@));
                    assert(occurs_at(lowercase(e.intent), lowercase(intent@), 0));
                }
                lemma_keep_everything(self.entries(), intent_matches(intent@));
            }
        }
        let pick = |e: &Experience<S>| -> (b: bool)
            ensures
                b == contains(lowercase(e.intent@), lowercase(intent@)),
            {
                let l = to_lower(e.intent.as_str());
                str_contains(l.as_str(), intent_lower.as_str())
            };
        self.select(pick, Ghost(intent_matches(intent@)))
    }

    /// The experiences that ended in success or partial success.
    pub fn get_successful_patterns(&self) -> (r: Vec<Experience<S>>)
        ensures
            views(r@) == keep(self.entries(), succeeded()),
    {
        let pick = |e: &Experience<S>| -> (b: bool)
            ensures
                b == outcome_succeeded(e.outcome),
            { e.is_successful() };
        self.select(pick, Ghost(succeeded()))
    }

    /// The experiences of the session `session_id`.
    pub fn get_session_experiences(&self, session_id: &str) -> (r: Vec<Experience<S>>)
        ensures
            views(r@) == keep(self.entries(), in_session(session_id@)),
    {
        let pick = |e: &Experience<S>| -> (b: bool)
            ensures
                b == (e.session_id@ == session_id@),
            { str_eq(e.session_id.as_str(), session_id) };
        self.select(pick, Ghost(in_session(session_id@)))
    }

    /// The statistics of the stored executions of the skill named `skill_name` (see
    /// `statistics_for`); `score_of` scores an execution by its outcome and rating.
    pub fn get_skill_statistics<G: Fn(usize, usize) -> S, F: Fn(ExperienceOutcome, Option<S>) -> S, M: Fn(Vec<S>) -> S>(
        &self,
        skill_name: &str,
        zero: S,
        rate_of: &G,
        score_of: &F,
        mean_of: &M,
    ) -> (s: SkillStatistics<S>)
        requires
            sum_of(keep(self.entries(), used_skill(skill_name@)), duration_of()) <= u64::MAX,
            forall|a: usize, b: usize| rate_of.requires((a, b)),
            forall|o: ExperienceOutcome, r: Option<S>| score_of.requires((o, r)),
            forall|v: Vec<S>| mean_of.requires((v,)),
        ensures
            statistics_for(keep(self.entries(), used_skill(skill_name@)), s, zero, *rate_of, *score_of, *mean_of),
    {
        let m = self.get_by_skill(skill_name);
        let ghost mv = views(m@);
        let total = m.len();
        if total == 0 {
            return SkillStatistics {
                total_executions: 0,
                successful_executions: 0,
                success_rate: zero,
                average_duration_ms: 0,
                average_score: zero,
            };
        }
        let mut successful: usize = 0;
        let mut total_duration: u64 = 0;
        let mut scores: Vec<S> = Vec::new();
        let mut i: usize = 0;
        while i < total
            invariant
                total == m@.len(),
                mv == views(m@),
                i <= total,
                sum_of(mv, duration_of()) <= u64::MAX,
                successful == count_where(mv.take(i as int), succeeded()),
                total_duration == sum_of(mv.take(i as int), duration_of()),
                forall|o: ExperienceOutcome, r: Option<S>| score_of.requires((o, r)),
                scored_experiences(scores@, mv.take(i as int), *score_of),
            decreases total - i,
        {
            let ghost t = mv.take(i as int);
            assert(mv.take(i + 1) =~= t.push(mv[i as int]));
            proof {
                lemma_keep_push(t, mv[i as int], succeeded());
                lemma_sum_push(t, mv[i as int], duration_of());
                lemma_keep_len(t, succeeded());
                lemma_sum_prefix(mv, i + 1, duration_of());
            }
            assert(mv[i as int] == m@[i as int]@);
            if m[i].is_successful() {
                successful += 1;
            }
            total_duration += m[i].duration_ms;
            let score = score_of(m[i].outcome, m[i].user_feedback);
            scores.push(score);
            assert(scored_experiences(scores@, mv.take(i + 1), *score_of));
            i += 1;
        }
        assert(mv.take(total as int) =~= mv);
        let ghost sv = scores@;
        let success_rate = rate_of(successful, total);
        let average_score = mean_of(scores);
        let s = SkillStatistics {
            total_executions: total,
            successful_executions: successful,
            success_rate,
            average_duration_ms: total_duration / (total as u64),
            average_score,
        };
        assert(scored_experiences(sv, mv, *score_of));
        s
    }

    /// How many experiences are stored.
    pub fn count(&self) -> (n: usize)
        ensures
            n == self.entries().len(),
    {
        self.experiences.len()
    }

    /// Removes the stored experiences of the session `session_id`.
    pub fn clear_session(&mut self, session_id: &str)
        ensures
            final(self).entries() == keep(old(self).entries(), outside_session(session_id@)),
            final(self).capacity() == old(self).capacity(),
            final(self).recorded_ids() == old(self).recorded_ids(),
            old(self).within_bound() ==> final(self).within_bound(),
    {
        let ghost orig = self.entries();
        let ghost p = outside_session::<S>(session_id@);
        let n = self.experiences.len();
        let mut kept: VecDeque<Experience<S>> = VecDeque::new();
        let mut i: usize = 0;
        assert(orig.skip(0) =~= orig);
        assert(views(kept@) =~= keep(orig.take(0), p));
        while i < n
            invariant
                i <= n,
                n == orig.len(),
                self.entries() == orig.skip(i as int),
                views(kept@) == keep(orig.take(i as int), p),
                self.max_size == old(self).max_size,
                self.session_experiences == old(self).session_experiences,
                p == outside_session::<S>(session_id@),
            decreases n - i,
        {
            let ghost t = orig.take(i as int);
            assert(orig.take(i + 1) =~= t.push(orig[i as int]));
            proof { lemma_keep_push(t, orig[i as int], p); }
            let ghost raw = self.experiences@;
            assert(self.entries() == views(raw));
            assert(self.entries().len() == raw.len());
            assert(orig.skip(i as int).len() == orig.len() - i);
            assert(raw.len() == orig.len() - i);
            assert(views(raw)[0] == orig.skip(i as int)[0]);
            let first = self.experiences.pop_front();
            match first {
                Some(e) => {
                    assert(self.experiences@ == raw.subrange(1, raw.len() as int));
                    assert forall|k: int| 0 <= k < raw.len() - 1 implies self.entries()[k] == orig.skip(i + 1)[k] by {
                        assert(views(raw)[k + 1] == orig.skip(i as int)[k + 1]);
                    }
                    assert(self.entries() =~= orig.skip(i + 1));
                    assert(e@ == orig[i as int]);
                    let keep_it = !str_eq(e.session_id.as_str(), session_id);
                    assert(p(orig[i as int]) == keep_it);
                    if keep_it {
                        let ghost before = views(kept@);
                        kept.push_back(e);
                        assert(views(kept@) =~= before.push(orig[i as int]));
                    }
                },
                None => {
                    assert(false);
                },
            }
            i += 1;
        }
        assert(orig.take(n as int) =~= orig);
        self.experiences = kept;
        proof {
            lemma_keep_len(orig, p);
        }
    }
}

} // verus!

verus! {

impl<S: Copy> Default for ExperienceCollector<S> {
    /// An empty collector with room for `MAX_EXPERIENCE_BUFFER` experiences.
    fn default() -> (c: Self)
        ensures
            c.within_bound(),
            c.entries() == Seq::<ExperienceView<S>>::empty(),
            c.capacity() == crate::MAX_EXPERIENCE_BUFFER,
            c.recorded_ids() == Seq::<Seq<char>>::empty(),
    {
        Self::new(crate::MAX_EXPERIENCE_BUFFER)
    }
}

} // verus!
