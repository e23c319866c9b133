//! The learning engine: it records experiences, extracts patterns from the successful
//! ones, generates skills from the patterns, tracks feedback, and keeps learning sessions.
//!
//! Scores (`S`) are computed, averaged, compared and ranked by functions the caller passes in.

use vstd::prelude::*;
use crate::experience::{
    Experience, ExperienceCollector, ExperienceOutcome, ExperienceView, SkillStatistics, after_record, clone_opt_string,
    bound, duration_of, opt_str, statistics_for, succeeded, used_skill, views,
};
use crate::feedback::{
    Feedback, FeedbackLoop, FeedbackType, FeedbackView, MetricView, PerformanceMetric, duration_update, feedback_update,
    metric_of_skill, metric_position, one_adjustment_per_skill, one_metric_per_skill, outcome_feedback, ranking_view, ranks,
    with_metric,
};
use crate::generator::{
    GeneratedSkill, SkillGenerator, SkillView, accepted, deterministic_test, executed, generated_from, skill_id_is,
    lemma_workflow_keyed, skill_views, store_new_skills, suggested, top_skills, workflow_durations_fit,
};
use crate::pattern::{
    Pattern, PatternExtractor, PatternType, PatternView, distinct_ids, extracted_into, extraction_fits,
    lemma_extraction_keeps_tool_keys, of_type, pattern_views, seen_at_least, tool_keys,
};
use crate::seqs::{first_index, keep, lemma_first_index, lemma_keep_members, lemma_sum_prefix, lemma_sum_push, sum_of};
use crate::stamps::{system_now_secs, utc_now_secs, uuid_shaped};
use crate::text::{chars_of, owned, str_eq, strs, string_from_chars, decimal_string, decimal};

verus! {

/// How the engine learns. `S` is the type of scores.
#[derive(Debug, Clone, Copy)]
pub struct LearningConfig<S> {
    pub enabled: bool,
    pub min_pattern_occurrences: usize,
    pub skill_generation_threshold: S,
    pub auto_suggest_threshold: S,
    pub learning_session_timeout_secs: u64,
    pub max_experiences_stored: usize,
    pub auto_extract_interval_secs: u64,
}

/// The default configuration with the given score thresholds: enabled, patterns after 3
/// occurrences, sessions timing out after an hour, 1000 experiences kept, and extraction
/// every 5 minutes.
pub open spec fn default_config<S>(skill_generation_threshold: S, auto_suggest_threshold: S) -> LearningConfig<S> {
    LearningConfig {
        enabled: true,
        min_pattern_occurrences: 3,
        skill_generation_threshold,
        auto_suggest_threshold,
        learning_session_timeout_secs: 3600,
        max_experiences_stored: 1000,
        auto_extract_interval_secs: 300,
    }
}

impl<S: Copy> LearningConfig<S> {
    /// The default configuration with the given score thresholds: enabled, patterns after 3
    /// occurrences, sessions timing out after an hour, 1000 experiences kept, and extraction
    /// every 5 minutes.
    pub fn with_thresholds(skill_generation_threshold: S, auto_suggest_threshold: S) -> (c: Self)
        ensures
            c == default_config(skill_generation_threshold, auto_suggest_threshold),
    {
        LearningConfig {
            enabled: true,
            min_pattern_occurrences: 3,
            skill_generation_threshold,
            auto_suggest_threshold,
            learning_session_timeout_secs: 3600,
            max_experiences_stored: 1000,
            auto_extract_interval_secs: 300,
        }
    }
}

/// Counts that describe what the engine has learned.
#[derive(Debug, Clone, Copy, PartialEq, Eq, Structural)]
pub struct LearningStats {
    pub total_experiences: usize,
    pub total_patterns_discovered: usize,
    pub total_skills_generated: usize,
    pub total_skill_suggestions: usize,
    pub total_feedback_received: usize,
    pub active_sessions: usize,
    pub last_extraction_time: u64,
    pub learning_uptime_secs: u64,
}

/// A skill suggested for a context, with the score it was ranked by.
#[derive(Debug, Clone)]
pub struct LearningSuggestion<S> {
    pub skill: GeneratedSkill<S>,
    pub confidence: S,
    pub reason: String,
    pub context_preview: String,
}

/// A suggestion with its strings taken as character sequences.
pub struct SuggestionView<S> {
    pub skill: SkillView<S>,
    pub confidence: S,
    pub reason: Seq<char>,
    pub context_preview: Seq<char>,
}

impl<S> View for LearningSuggestion<S> {
    type V = SuggestionView<S>;

    open spec fn view(&self) -> SuggestionView<S> {
        SuggestionView {
            skill: self.skill@,
            confidence: self.confidence,
            reason: self.reason@,
            context_preview: self.context_preview@,
        }
    }
}

/// The suggestion of `skill` for `context`, ranked `confidence`.
pub open spec fn suggestion_for<S>(skill: SkillView<S>, confidence: S, context: Seq<char>) -> SuggestionView<S> {
    SuggestionView {
        skill,
        confidence,
        reason: suggestion_reason(skill.template.trigger_patterns.len()),
        context_preview: preview_of(context),
    }
}

/// The reason given for suggesting a skill with `n` trigger patterns.
pub open spec fn suggestion_reason(n: nat) -> Seq<char> {
    "Matched "@ + decimal(n) + " trigger patterns"@
}

/// The first 100 characters of a context.
pub open spec fn preview_of(context: Seq<char>) -> Seq<char> {
    if context.len() <= 100 {
        context
    } else {
        context.take(100)
    }
}

impl<S: Copy> LearningSuggestion<S> {
    /// The suggestion of `skill` for `context`, ranked `confidence`.
    pub fn for_skill(skill: GeneratedSkill<S>, confidence: S, context: &str) -> (s: Self)
        ensures
            s@ == suggestion_for(skill@, confidence, context@),
    {
        let n = skill.template.trigger_patterns.len();
        let reason = crate::pattern::concat(
            crate::pattern::concat(owned("Matched "), decimal_string(n as u64).as_str()),
            " trigger patterns",
        );
        let cs = chars_of(context);
        let mut preview: Vec<char> = Vec::new();
        let mut i: usize = 0;
        while i < cs.len() && i < 100
            invariant
                i <= cs@.len(),
                i <= 100,
                preview@ == cs@.take(i as int),
            decreases cs.len() - i,
        {
            preview.push(cs[i]);
            assert(cs@.take(i + 1) =~= cs@.take(i as int).push(cs@[i as int]));
            i += 1;
        }
        if cs.len() <= 100 {
            assert(cs@.take(i as int) =~= cs@);
        }
        LearningSuggestion { skill, confidence, reason, context_preview: string_from_chars(preview.as_slice()) }
    }
}

/// A learning session.
struct LearningSession {
    session_id: String,
    started_at: u64,
    last_activity: u64,
    experiences_gathered: usize,
}

/// A session with its identifier taken as a character sequence.
pub struct SessionView {
    pub session_id: Seq<char>,
    pub started_at: u64,
    pub last_activity: u64,
    pub experiences_gathered: usize,
}

impl View for LearningSession {
    type V = SessionView;

    closed spec fn view(&self) -> SessionView {
        SessionView {
            session_id: self.session_id@,
            started_at: self.started_at,
            last_activity: self.last_activity,
            experiences_gathered: self.experiences_gathered,
        }
    }
}

/// The sessions after the session `id` starts: a fresh session (no experiences yet, last
/// active when it started) replaces the first session with that identifier, or is added.
pub open spec fn session_started(before: Seq<SessionView>, id: Seq<char>, after: Seq<SessionView>) -> bool {
    let i = first_index(before, session_id_is(id));
    let s = after[if i >= 0 { i } else { before.len() as int }];
    &&& s.session_id == id
    &&& s.started_at == s.last_activity
    &&& s.experiences_gathered == 0
    &&& after == if i >= 0 {
        before.update(i, s)
    } else {
        before.push(s)
    }
}

/// The sessions after the session `id` ends: the first session with that identifier is
/// removed, if there is one.
pub open spec fn session_ended(before: Seq<SessionView>, id: Seq<char>) -> Seq<SessionView> {
    let i = first_index(before, session_id_is(id));
    if i >= 0 {
        before.remove(i)
    } else {
        before
    }
}

/// Sessions with identifier `id`.
pub open spec fn session_id_is(id: Seq<char>) -> spec_fn(SessionView) -> bool {
    |s: SessionView| s.session_id == id
}

} // verus!

verus! {

/// The learning engine: its configuration, its components, its sessions, and when it started.
pub struct LearningEngine<S> {
    config: LearningConfig<S>,
    experience_collector: ExperienceCollector<S>,
    pattern_extractor: PatternExtractor<S>,
    skill_generator: SkillGenerator<S>,
    feedback_loop: FeedbackLoop<S>,
    sessions: Vec<LearningSession>,
    started_at: u64,
}

/// The views of a sequence of sessions.
spec fn session_views(v: Seq<LearningSession>) -> Seq<SessionView> {
    v.map_values(|s: LearningSession| s@)
}

impl<S: Copy> LearningEngine<S> {
    /// The configuration.
    pub closed spec fn configuration(&self) -> LearningConfig<S> {
        self.config
    }

    /// The stored experiences, oldest first.
    pub closed spec fn experiences(&self) -> Seq<ExperienceView<S>> {
        self.experience_collector.entries()
    }

    /// How many experiences the engine keeps.
    pub closed spec fn experience_capacity(&self) -> nat {
        self.experience_collector.capacity()
    }

    /// The identifiers of all experiences recorded.
    pub closed spec fn recorded_ids(&self) -> Seq<Seq<char>> {
        self.experience_collector.recorded_ids()
    }

    /// The stored patterns.
    pub closed spec fn patterns(&self) -> Seq<PatternView<S>> {
        self.pattern_extractor.stored()
    }

    /// How often a pattern must be seen before it is reported.
    pub closed spec fn pattern_threshold(&self) -> nat {
        self.pattern_extractor.threshold()
    }

    /// The generated skills.
    pub closed spec fn skills(&self) -> Seq<SkillView<S>> {
        self.skill_generator.skills()
    }

    /// The confidence a pattern needs to yield a skill.
    pub closed spec fn skill_threshold(&self) -> S {
        self.skill_generator.threshold()
    }

    /// The feedback received.
    pub closed spec fn feedback(&self) -> Seq<FeedbackView<S>> {
        self.feedback_loop.records()
    }

    /// The per-skill metrics.
    pub closed spec fn metrics(&self) -> Seq<MetricView<S>> {
        self.feedback_loop.metrics()
    }

    /// The per-skill context adjustments.
    pub closed spec fn adjustments(&self) -> Seq<(Seq<char>, S)> {
        self.feedback_loop.adjustments()
    }

    /// The sessions, in order of their start.
    pub closed spec fn sessions(&self) -> Seq<SessionView> {
        session_views(self.sessions@)
    }

    /// When the engine started (seconds since the epoch).
    pub closed spec fn start_time(&self) -> u64 {
        self.started_at
    }

    /// The engine's components are consistent: no two stored patterns share an identifier,
    /// every stored tool sequence has a key element, the experience buffer holds no more than
    /// its bound, and each skill has at most one metric and one context adjustment.
    pub closed spec fn well_formed(&self) -> bool {
        &&& self.pattern_extractor.well_formed()
        &&& tool_keys(self.pattern_extractor.stored())
        &&& self.experience_collector.within_bound()
        &&& self.feedback_loop.well_formed()
    }

    /// What a well-formed engine holds: no two stored patterns share an identifier, every
    /// stored tool sequence has a key element, the experience buffer holds no more than its
    /// bound, and each skill has at most one metric and one context adjustment. Every operation
    /// keeps this.
    pub proof fn law_well_formed_state(&self)
        requires
            self.well_formed(),
        ensures
            distinct_ids(self.patterns()),
            tool_keys(self.patterns()),
            self.experiences().len() <= bound(self.experience_capacity()),
            one_metric_per_skill(self.metrics()),
            one_adjustment_per_skill(self.adjustments()),
    {
    }

    /// `a` and `b` hold the same experiences, with room for as many.
    pub open spec fn same_experiences(a: &Self, b: &Self) -> bool {
        &&& a.experiences() == b.experiences()
        &&& a.experience_capacity() == b.experience_capacity()
        &&& a.recorded_ids() == b.recorded_ids()
    }

    /// `a` and `b` hold the same patterns, with the same threshold.
    pub open spec fn same_patterns(a: &Self, b: &Self) -> bool {
        &&& a.patterns() == b.patterns()
        &&& a.pattern_threshold() == b.pattern_threshold()
    }

    /// `a` and `b` hold the same skills, with the same threshold.
    pub open spec fn same_skills(a: &Self, b: &Self) -> bool {
        &&& a.skills() == b.skills()
        &&& a.skill_threshold() == b.skill_threshold()
    }

    /// `a` and `b` hold the same feedback, metrics and adjustments.
    pub open spec fn same_feedback(a: &Self, b: &Self) -> bool {
        &&& a.feedback() == b.feedback()
        &&& a.metrics() == b.metrics()
        &&& a.adjustments() == b.adjustments()
    }

    /// A new engine for `config`: no experiences (with room for the configured number), no
    /// patterns, no skills, no feedback, no sessions; started now.
    pub fn new(config: LearningConfig<S>) -> (e: Self)
        ensures
            e.well_formed(),
            e.configuration() == config,
            e.experiences() == Seq::<ExperienceView<S>>::empty(),
            e.experience_capacity() == config.max_experiences_stored,
            e.recorded_ids() == Seq::<Seq<char>>::empty(),
            e.patterns() == Seq::<PatternView<S>>::empty(),
            e.pattern_threshold() == config.min_pattern_occurrences,
            e.skills() == Seq::<SkillView<S>>::empty(),
            e.skill_threshold() == config.skill_generation_threshold,
            e.feedback() == Seq::<FeedbackView<S>>::empty(),
            e.metrics() == Seq::<MetricView<S>>::empty(),
            e.adjustments() == Seq::<(Seq<char>, S)>::empty(),
            e.sessions() == Seq::<SessionView>::empty(),
    {
        let started_at = system_now_secs();
        let e = LearningEngine {
            config,
            experience_collector: ExperienceCollector::new(config.max_experiences_stored),
            pattern_extractor: PatternExtractor::new(config.min_pattern_occurrences),
            skill_generator: SkillGenerator::new(config.skill_generation_threshold),
            feedback_loop: FeedbackLoop::new(),
            sessions: Vec::new(),
            started_at,
        };
        assert(e.sessions() =~= Seq::<SessionView>::empty());
        e
    }

    /// A new engine with the default configuration for the given score thresholds (see
    /// `LearningConfig::with_thresholds`).
    pub fn with_defaults(skill_generation_threshold: S, auto_suggest_threshold: S) -> (e: Self)
        ensures
            e.well_formed(),
            e.configuration() == default_config(skill_generation_threshold, auto_suggest_threshold),
            e.experiences() == Seq::<ExperienceView<S>>::empty(),
            e.patterns() == Seq::<PatternView<S>>::empty(),
            e.skills() == Seq::<SkillView<S>>::empty(),
            e.feedback() == Seq::<FeedbackView<S>>::empty(),
            e.metrics() == Seq::<MetricView<S>>::empty(),
            e.sessions() == Seq::<SessionView>::empty(),
    {
        Self::new(LearningConfig::with_thresholds(skill_generation_threshold, auto_suggest_threshold))
    }

    /// The position of the session `id`, if there is one.
    fn session_index(&self, id: &str) -> (r: Option<usize>)
        ensures
            match r {
                Some(j) => j < self.sessions().len() && first_index(self.sessions(), session_id_is(id@)) == j,
                None => first_index(self.sessions(), session_id_is(id@)) == -1,
            },
    {
        let mut j: usize = 0;
        while j < self.sessions.len()
            invariant
                j <= self.sessions@.len(),
                forall|k: int| 0 <= k < j ==> self.sessions()[k].session_id != id@,
            decreases self.sessions.len() - j,
        {
            assert(self.sessions()[j as int] == self.sessions@[j as int]@);
            if str_eq(self.sessions[j].session_id.as_str(), id) {
                proof {
                    lemma_first_index(self.sessions(), session_id_is(id@), j as int);
                }
                return Some(j);
            }
            j += 1;
        }
        proof {
            lemma_first_index(self.sessions(), session_id_is(id@), -1);
        }
        None
    }

    /// Starts the session `session_id` now, replacing a session of that identifier.
    pub fn start_session(&mut self, session_id: String)
        ensures
            session_started(old(self).sessions(), session_id@, final(self).sessions()),
            final(self).configuration() == old(self).configuration(),
            final(self).start_time() == old(self).start_time(),
            Self::same_experiences(&*old(self), &*final(self)),
            Self::same_patterns(&*old(self), &*final(self)),
            old(self).well_formed() ==> final(self).well_formed(),
            Self::same_skills(&*old(self), &*final(self)),
            Self::same_feedback(&*old(self), &*final(self)),
    {
        let now = system_now_secs();
        let ghost cur = self.sessions();
        let session = LearningSession { session_id, started_at: now, last_activity: now, experiences_gathered: 0 };
        let ghost sv = session@;
        match self.session_index(session.session_id.as_str()) {
            Some(j) => {
                self.sessions.set(j, session);
                assert(self.sessions() =~= cur.update(j as int, sv));
            },
            None => {
                self.sessions.push(session);
                assert(self.sessions() =~= cur.push(sv));
            },
        }
    }

    /// Ends the session `session_id`, if there is one.
    pub fn end_session(&mut self, session_id: &str)
        ensures
            final(self).sessions() == session_ended(old(self).sessions(), session_id@),
            final(self).configuration() == old(self).configuration(),
            final(self).start_time() == old(self).start_time(),
            Self::same_experiences(&*old(self), &*final(self)),
            Self::same_patterns(&*old(self), &*final(self)),
            old(self).well_formed() ==> final(self).well_formed(),
            Self::same_skills(&*old(self), &*final(self)),
            Self::same_feedback(&*old(self), &*final(self)),
    {
        let ghost cur = self.sessions();
        match self.session_index(session_id) {
            Some(j) => {
                let _s = self.sessions.remove(j);
                assert(self.sessions() =~= cur.remove(j as int));
            },
            None => {},
        }
    }

    /// Whether learning is enabled.
    pub fn is_enabled(&self) -> (b: bool)
        ensures
            b == self.configuration().enabled,
    {
        self.config.enabled
    }

    /// Enables or disables learning.
    pub fn set_enabled(&mut self, enabled: bool)
        ensures
            final(self).configuration() == (LearningConfig { enabled, ..old(self).configuration() }),
            final(self).start_time() == old(self).start_time(),
            final(self).sessions() == old(self).sessions(),
            Self::same_experiences(&*old(self), &*final(self)),
            Self::same_patterns(&*old(self), &*final(self)),
            old(self).well_formed() ==> final(self).well_formed(),
            Self::same_skills(&*old(self), &*final(self)),
            Self::same_feedback(&*old(self), &*final(self)),
    {
        self.config.enabled = enabled;
    }
}

} // verus!

verus! {

/// `e` is the experience recorded for these inputs: a fresh identifier, no error and no
/// rating yet.
pub open spec fn recorded_for<S>(
    e: ExperienceView<S>,
    context: Seq<char>,
    intent: Seq<char>,
    skill_used: Option<Seq<char>>,
    tools_used: Seq<Seq<char>>,
    outcome: ExperienceOutcome,
    duration_ms: u64,
    session_id: Seq<char>,
) -> bool {
    &&& uuid_shaped(e.id)
    &&& e.context == context
    &&& e.intent == intent
    &&& e.skill_used == skill_used
    &&& e.tools_used == tools_used
    &&& e.outcome == outcome
    &&& e.duration_ms == duration_ms
    &&& e.error is None
    &&& e.user_feedback is None
    &&& e.session_id == session_id
}

/// The sessions after an experience of the session `id`: that session, if there is one,
/// has gathered one more experience and a new last activity; the others are unchanged.
pub open spec fn session_touched(before: Seq<SessionView>, id: Seq<char>, after: Seq<SessionView>) -> bool {
    let i = first_index(before, session_id_is(id));
    if i >= 0 {
        after == before.update(
            i,
            SessionView {
                experiences_gathered: (before[i].experiences_gathered + 1) as usize,
                last_activity: after[i].last_activity,
                ..before[i]
            },
        )
    } else {
        after == before
    }
}

/// What feeding back an outcome of the skill `skill` does to the feedback and the metrics:
/// one outcome-based feedback rated by `rating_of`, counted as `FeedbackLoop::record_feedback`
/// counts it, then one more use of the skill lasting `duration_ms`.
pub open spec fn outcome_fed_back<S, O: Fn(ExperienceOutcome) -> S, R: Fn(S, usize, S) -> S, P: Fn(S) -> bool>(
    feedback_before: Seq<FeedbackView<S>>,
    metrics_before: Seq<MetricView<S>>,
    feedback_after: Seq<FeedbackView<S>>,
    metrics_after: Seq<MetricView<S>>,
    skill: Seq<char>,
    outcome: ExperienceOutcome,
    duration_ms: u64,
    rating_of: O,
    zero: S,
    running_average: R,
    is_positive: P,
) -> bool {
    exists|fb: FeedbackView<S>, mid: Seq<MetricView<S>>|
        #[trigger] outcome_feedback(fb, skill, outcome, rating_of) && feedback_after == feedback_before.push(fb)
            && feedback_update(metrics_before, fb, mid, zero, running_average, is_positive)
            && #[trigger] duration_update(mid, metric_position(metrics_before, skill), duration_ms, metrics_after)
}

/// What feeding back an experience that names the skill `skill`, if it names one, does to
/// the feedback and the metrics: nothing without a skill, `outcome_fed_back` with one.
pub open spec fn experience_fed_back<S, O: Fn(ExperienceOutcome) -> S, R: Fn(S, usize, S) -> S, P: Fn(S) -> bool>(
    feedback_before: Seq<FeedbackView<S>>,
    metrics_before: Seq<MetricView<S>>,
    feedback_after: Seq<FeedbackView<S>>,
    metrics_after: Seq<MetricView<S>>,
    skill: Option<Seq<char>>,
    outcome: ExperienceOutcome,
    duration_ms: u64,
    rating_of: O,
    zero: S,
    running_average: R,
    is_positive: P,
) -> bool {
    match skill {
        Some(s) => outcome_fed_back(
            feedback_before,
            metrics_before,
            feedback_after,
            metrics_after,
            s,
            outcome,
            duration_ms,
            rating_of,
            zero,
            running_average,
            is_positive,
        ),
        None => feedback_after == feedback_before && metrics_after == metrics_before,
    }
}

/// Whether the session `id`, if there is one, can count one more experience.
pub open spec fn session_has_room(sessions: Seq<SessionView>, id: Seq<char>) -> bool {
    let i = first_index(sessions, session_id_is(id));
    i >= 0 ==> sessions[i].experiences_gathered < usize::MAX
}

/// Whether the rating `rating_of` gives `outcome` is one that `is_positive` counts as a success.
pub open spec fn counts_as_success<S, O: Fn(ExperienceOutcome) -> S, P: Fn(S) -> bool>(
    outcome: ExperienceOutcome,
    rating_of: O,
    is_positive: P,
) -> bool {
    exists|r: S| #[trigger] rating_of.ensures((outcome,), r) && is_positive.ensures((r,), true)
}

/// Whether the metric of the skill `id` (a fresh one if it has none) can count one more use
/// lasting `duration_ms`, and one more success when `success` holds.
pub open spec fn metric_has_room<S>(
    metrics: Seq<MetricView<S>>,
    id: Seq<char>,
    zero: S,
    duration_ms: u64,
    success: bool,
) -> bool {
    let m = with_metric(metrics, id, zero)[metric_position(metrics, id)];
    &&& m.total_uses + 2 <= usize::MAX
    &&& success ==> m.successful_uses < usize::MAX
    &&& m.average_duration_ms * (m.total_uses + 1) + duration_ms <= u64::MAX
}

impl<S: Copy> LearningEngine<S> {
    /// Records an experience; when it names the skill used, the outcome is also fed back
    /// to that skill (rated by `rating_of`, see `FeedbackLoop::update_from_experience`); and
    /// the session of the experience, if it is open, counts it.
    pub fn record_experience<O: Fn(ExperienceOutcome) -> S, R: Fn(S, usize, S) -> S, P: Fn(S) -> bool>(
        &mut self,
        context: String,
        intent: String,
        skill_used: Option<String>,
        tools_used: Vec<String>,
        outcome: ExperienceOutcome,
        duration_ms: u64,
        session_id: String,
        rating_of: &O,
        zero: S,
        running_average: &R,
        is_positive: &P,
    )
        requires
            forall|o: ExperienceOutcome| rating_of.requires((o,)),
            forall|a: S, n: usize, r: S| running_average.requires((a, n, r)),
            forall|r: S| is_positive.requires((r,)),
            skill_used matches Some(s) ==> metric_has_room(
                old(self).metrics(),
                s@,
                zero,
                duration_ms,
                counts_as_success(outcome, *rating_of, *is_positive),
            ),
            session_has_room(old(self).sessions(), session_id@),
        ensures
            exists|e: ExperienceView<S>|
                #[trigger] recorded_for(
                    e,
                    context@,
                    intent@,
                    opt_str(skill_used),
                    strs(tools_used@),
                    outcome,
                    duration_ms,
                    session_id@,
                ) && final(self).experiences() == after_record(old(self).experiences(), old(self).experience_capacity(), e)
                    && final(self).recorded_ids() == old(self).recorded_ids().push(e.id),
            final(self).experience_capacity() == old(self).experience_capacity(),
            experience_fed_back(
                old(self).feedback(),
                old(self).metrics(),
                final(self).feedback(),
                final(self).metrics(),
                opt_str(skill_used),
                outcome,
                duration_ms,
                *rating_of,
                zero,
                *running_average,
                *is_positive,
            ),
            final(self).adjustments() == old(self).adjustments(),
            session_touched(old(self).sessions(), session_id@, final(self).sessions()),
            final(self).configuration() == old(self).configuration(),
            final(self).start_time() == old(self).start_time(),
            Self::same_patterns(&*old(self), &*final(self)),
            old(self).well_formed() ==> final(self).well_formed(),
            Self::same_skills(&*old(self), &*final(self)),
    {
        let skill = clone_opt_string(&skill_used);
        let ghost sk = opt_str(skill_used);
        let sid = session_id.clone();
        let ghost tools = strs(tools_used@);
        let experience = Experience::new(context, intent, skill_used, tools_used, outcome, duration_ms, session_id);
        let ghost e = experience@;
        assert(recorded_for(e, context@, intent@, opt_str(skill), tools, outcome, duration_ms, sid@));
        self.experience_collector.record(experience);
        match skill {
            Some(name) => {
                assert(sk == Some(name@));
                self.feedback_loop.update_from_experience(
                    name.as_str(),
                    outcome,
                    duration_ms,
                    rating_of,
                    zero,
                    running_average,
                    is_positive,
                );
                assert(outcome_fed_back(
                    old(self).feedback(),
                    old(self).metrics(),
                    self.feedback(),
                    self.metrics(),
                    name@,
                    outcome,
                    duration_ms,
                    *rating_of,
                    zero,
                    *running_average,
                    *is_positive,
                ));
            },
            None => {},
        }
        let ghost fed_back = self.feedback();
        let ghost metrics = self.metrics();
        assert(experience_fed_back(
            old(self).feedback(),
            old(self).metrics(),
            fed_back,
            metrics,
            sk,
            outcome,
            duration_ms,
            *rating_of,
            zero,
            *running_average,
            *is_positive,
        ));
        let ghost cur = self.sessions();
        match self.session_index(sid.as_str()) {
            Some(j) => {
                let now = system_now_secs();
                let touched = LearningSession {
                    session_id: self.sessions[j].session_id.clone(),
                    started_at: self.sessions[j].started_at,
                    last_activity: now,
                    experiences_gathered: self.sessions[j].experiences_gathered + 1,
                };
                let ghost tv = touched@;
                self.sessions.set(j, touched);
                assert(self.sessions() =~= cur.update(j as int, tv));
            },
            None => {},
        }
        assert(self.feedback() == fed_back && self.metrics() == metrics);
    }
}

} // verus!

verus! {

/// The explicit feedback a user gave the skill `skill_id` for the experience
/// `experience_id`, at `timestamp`.
pub open spec fn explicit_feedback<S>(skill_id: Seq<char>, experience_id: Seq<char>, rating: S, timestamp: u64) -> FeedbackView<S> {
    FeedbackView {
        skill_id,
        experience_id,
        feedback_type: FeedbackType::Explicit,
        rating,
        timestamp,
        context_hash: 0,
    }
}

/// Whether the metric of the skill `id` (a fresh one if it has none) can count one more
/// rated use, and one more success when `success` holds.
pub open spec fn rating_has_room<S>(metrics: Seq<MetricView<S>>, id: Seq<char>, zero: S, success: bool) -> bool {
    let m = with_metric(metrics, id, zero)[metric_position(metrics, id)];
    m.total_uses < usize::MAX && (success ==> m.successful_uses < usize::MAX)
}

impl<S: Copy> LearningEngine<S> {
    /// The stored experiences that ended in success or partial success: those patterns are
    /// extracted from.
    pub open spec fn successful_experiences(&self) -> Seq<ExperienceView<S>> {
        keep(self.experiences(), succeeded())
    }

    /// Records a user's rating of the skill `skill_id` for the experience `experience_id`,
    /// stamped now, and counts it in the skill's metric (see `FeedbackLoop::record_feedback`).
    pub fn record_user_feedback<R: Fn(S, usize, S) -> S, P: Fn(S) -> bool>(
        &mut self,
        skill_id: String,
        experience_id: String,
        rating: S,
        zero: S,
        running_average: &R,
        is_positive: &P,
    )
        requires
            forall|a: S, n: usize, r: S| running_average.requires((a, n, r)),
            forall|r: S| is_positive.requires((r,)),
            rating_has_room(old(self).metrics(), skill_id@, zero, is_positive.ensures((rating,), true)),
        ensures
            exists|t: u64|
                final(self).feedback() == old(self).feedback().push(#[trigger] explicit_feedback(skill_id@, experience_id@, rating, t))
                    && feedback_update(
                    old(self).metrics(),
                    explicit_feedback(skill_id@, experience_id@, rating, t),
                    final(self).metrics(),
                    zero,
                    *running_average,
                    *is_positive,
                ),
            final(self).adjustments() == old(self).adjustments(),
            final(self).configuration() == old(self).configuration(),
            final(self).sessions() == old(self).sessions(),
            final(self).start_time() == old(self).start_time(),
            Self::same_experiences(&*old(self), &*final(self)),
            Self::same_patterns(&*old(self), &*final(self)),
            old(self).well_formed() ==> final(self).well_formed(),
            Self::same_skills(&*old(self), &*final(self)),
    {
        let timestamp = system_now_secs();
        let feedback = Feedback {
            skill_id,
            experience_id,
            feedback_type: FeedbackType::Explicit,
            rating,
            timestamp,
            context_hash: 0,
        };
        assert(feedback@ == explicit_feedback(feedback.skill_id@, feedback.experience_id@, rating, timestamp));
        self.feedback_loop.record_feedback(feedback, zero, running_average, is_positive);
    }

    /// Extracts patterns from the successful experiences into the pattern store (see
    /// `PatternExtractor::extract_from_experiences`) and returns the stored patterns seen at
    /// least as often as the threshold.
    pub fn extract_patterns<F: Fn(usize) -> S, G: Fn(usize, usize) -> S, A: Fn(S, S) -> S>(
        &mut self,
        confidence_of: &F,
        rate_of: &G,
        average: &A,
    ) -> (r: Vec<Pattern<S>>)
        requires
            old(self).well_formed(),
            forall|n: usize| confidence_of.requires((n,)),
            forall|a: usize, b: usize| rate_of.requires((a, b)),
            forall|a: S, b: S| average.requires((a, b)),
            extraction_fits(old(self).successful_experiences(), old(self).patterns(), old(self).pattern_threshold()),
        ensures
            final(self).well_formed(),
            final(self).pattern_threshold() == old(self).pattern_threshold(),
            extracted_into(
                old(self).patterns(),
                old(self).successful_experiences(),
                old(self).pattern_threshold(),
                *confidence_of,
                *rate_of,
                *average,
                final(self).patterns(),
            ),
            pattern_views(r@) == keep(final(self).patterns(), seen_at_least(old(self).pattern_threshold())),
            final(self).configuration() == old(self).configuration(),
            final(self).sessions() == old(self).sessions(),
            final(self).start_time() == old(self).start_time(),
            Self::same_experiences(&*old(self), &*final(self)),
            Self::same_skills(&*old(self), &*final(self)),
            Self::same_feedback(&*old(self), &*final(self)),
    {
        let experiences = self.experience_collector.get_successful_patterns();
        let r = self.pattern_extractor.extract_from_experiences(experiences.as_slice(), confidence_of, rate_of, average);
        proof {
            lemma_extraction_keeps_tool_keys(
                old(self).patterns(),
                old(self).successful_experiences(),
                old(self).pattern_threshold(),
                *confidence_of,
                *rate_of,
                *average,
                self.patterns(),
            );
        }
        r
    }

    /// Extracts patterns (see `extract_patterns`) and generates skills from those seen at
    /// least as often as the threshold (see `SkillGenerator::generate_from_patterns`); the
    /// skills with new names are stored.
    pub fn generate_skills<
        F: Fn(usize) -> S,
        G: Fn(usize, usize) -> S,
        A: Fn(S, S) -> S,
        T: Fn(S, S) -> bool,
        M: Fn(Vec<S>) -> S,
    >(&mut self, confidence_of: &F, rate_of: &G, average: &A, at_least: &T, mean_of: &M) -> (r: Vec<
        GeneratedSkill<S>,
    >)
        requires
            old(self).well_formed(),
            forall|n: usize| confidence_of.requires((n,)),
            forall|a: usize, b: usize| rate_of.requires((a, b)),
            forall|a: S, b: S| average.requires((a, b)),
            forall|a: S, b: S| at_least.requires((a, b)),
            deterministic_test(*at_least),
            forall|v: Vec<S>| mean_of.requires((v,)),
            extraction_fits(old(self).successful_experiences(), old(self).patterns(), old(self).pattern_threshold()),
            forall|st: Seq<PatternView<S>>|
                #[trigger] extracted_into(
                    old(self).patterns(),
                    old(self).successful_experiences(),
                    old(self).pattern_threshold(),
                    *confidence_of,
                    *rate_of,
                    *average,
                    st,
                ) ==> workflow_durations_fit(
                    keep(st, seen_at_least(old(self).pattern_threshold())),
                    old(self).skill_threshold(),
                    *at_least,
                ),
        ensures
            final(self).well_formed(),
            final(self).pattern_threshold() == old(self).pattern_threshold(),
            extracted_into(
                old(self).patterns(),
                old(self).successful_experiences(),
                old(self).pattern_threshold(),
                *confidence_of,
                *rate_of,
                *average,
                final(self).patterns(),
            ),
            generated_from(
                skill_views(r@),
                keep(final(self).patterns(), seen_at_least(old(self).pattern_threshold())),
                old(self).skill_threshold(),
                *at_least,
                *mean_of,
            ),
            final(self).skill_threshold() == old(self).skill_threshold(),
            final(self).skills() == store_new_skills(old(self).skills(), skill_views(r@)),
            final(self).configuration() == old(self).configuration(),
            final(self).sessions() == old(self).sessions(),
            final(self).start_time() == old(self).start_time(),
            Self::same_experiences(&*old(self), &*final(self)),
            Self::same_feedback(&*old(self), &*final(self)),
    {
        let patterns = self.extract_patterns(confidence_of, rate_of, average);
        proof {
            let st = self.patterns();
            let kept = keep(st, seen_at_least(old(self).pattern_threshold()));
            lemma_keep_members(st, seen_at_least(old(self).pattern_threshold()));
            assert(tool_keys(kept)) by {
                assert forall|k: int| 0 <= k < kept.len() && #[trigger] kept[k].pattern_type == PatternType::ToolSequence implies kept[k].key_elements.len() > 0 by {
                    assert(st.contains(kept[k]));
                    let j = choose|j: int| 0 <= j < st.len() && st[j] == kept[k];
                    assert(st[j].pattern_type == PatternType::ToolSequence);
                }
            }
            lemma_workflow_keyed(kept, old(self).skill_threshold(), *at_least);
        }
        self.skill_generator.generate_from_patterns(patterns.as_slice(), at_least, mean_of)
    }
}

} // verus!

verus! {

/// The suggestions for `context` from the ranking `ranked`, in ranking order: each ranked
/// skill whose score `at_least` finds no lower than `threshold` and which is among `skills`
/// (the first skill with its identifier) is suggested with its score.
pub open spec fn suggestions_from<S, T: Fn(S, S) -> bool>(
    ranked: Seq<(Seq<char>, S)>,
    skills: Seq<SkillView<S>>,
    context: Seq<char>,
    threshold: S,
    at_least: T,
) -> Seq<SuggestionView<S>>
    decreases ranked.len(),
{
    if ranked.len() == 0 {
        seq![]
    } else {
        let before = suggestions_from(ranked.drop_last(), skills, context, threshold, at_least);
        let e = ranked.last();
        let i = first_index(skills, skill_id_is(e.0));
        if at_least.ensures((e.1, threshold), true) && i >= 0 {
            before.push(suggestion_for(skills[i], e.1, context))
        } else {
            before
        }
    }
}

/// The views of suggestions.
pub open spec fn suggestion_views<S>(v: Seq<LearningSuggestion<S>>) -> Seq<SuggestionView<S>> {
    v.map_values(|x: LearningSuggestion<S>| x@)
}

/// The skills of the first `limit` suggestions, with their scores.
pub open spec fn recommendations<S>(suggestions: Seq<SuggestionView<S>>, limit: nat) -> Seq<(SkillView<S>, S)> {
    let n = if limit < suggestions.len() { limit } else { suggestions.len() };
    Seq::new(n, |i: int| (suggestions[i].skill, suggestions[i].confidence))
}

/// The views of skills paired with scores.
pub open spec fn recommendation_views<S>(v: Seq<(GeneratedSkill<S>, S)>) -> Seq<(SkillView<S>, S)> {
    v.map_values(|p: (GeneratedSkill<S>, S)| (p.0@, p.1))
}

/// The position of the first of `skills` with identifier `id`, if there is one.
fn skill_position<S: Copy>(skills: &Vec<GeneratedSkill<S>>, id: &str) -> (r: Option<usize>)
    ensures
        match r {
            Some(j) => j < skills@.len() && first_index(skill_views(skills@), skill_id_is(id@)) == j,
            None => first_index(skill_views(skills@), skill_id_is(id@)) == -1,
        },
{
    let ghost sv = skill_views(skills@);
    let mut j: usize = 0;
    while j < skills.len()
        invariant
            sv == skill_views(skills@),
            j <= skills@.len(),
            forall|k: int| 0 <= k < j ==> sv[k].id != id@,
        decreases skills.len() - j,
    {
        assert(sv[j as int] == skills@[j as int]@);
        if str_eq(skills[j].id.as_str(), id) {
            proof {
                lemma_first_index(sv, skill_id_is(id@), j as int);
            }
            return Some(j);
        }
        j += 1;
    }
    proof {
        lemma_first_index(sv, skill_id_is(id@), -1);
    }
    None
}

impl<S: Copy> LearningEngine<S> {
    /// The suggestions for `context`: the generated skills are ranked for the context (see
    /// `FeedbackLoop::rank_skills_for_context`), and those whose score `at_least` finds no
    /// lower than the suggestion threshold are suggested, best first.
    pub fn get_suggestions_for_context<
        C: Fn(S, Option<S>, bool, Option<(usize, usize, S, u64)>) -> S,
        K: Fn(S) -> u64,
        T: Fn(S, S) -> bool,
    >(&self, context: &str, score_of: &C, rank_key: &K, at_least: &T) -> (r: Vec<LearningSuggestion<S>>)
        requires
            forall|c: S, a: Option<S>, t: bool, u: Option<(usize, usize, S, u64)>| score_of.requires((c, a, t, u)),
            forall|s: S| rank_key.requires((s,)),
            forall|a: S, b: S| at_least.requires((a, b)),
            deterministic_test(*at_least),
        ensures
            exists|ranked: Seq<(Seq<char>, S)>|
                #[trigger] ranks(self.skills(), context@, self.adjustments(), self.metrics(), *score_of, *rank_key, ranked)
                    && suggestion_views(r@) == suggestions_from(
                    ranked,
                    self.skills(),
                    context@,
                    self.configuration().auto_suggest_threshold,
                    *at_least,
                ),
    {
        let all_skills = self.skill_generator.get_all_generated_skills();
        let ranked = self.feedback_loop.rank_skills_for_context(all_skills.as_slice(), context, score_of, rank_key);
        let ghost rv = ranking_view(ranked@);
        let ghost sv = self.skills();
        let threshold = self.config.auto_suggest_threshold;
        let mut suggestions: Vec<LearningSuggestion<S>> = Vec::new();
        let mut i: usize = 0;
        assert(rv.take(0) =~= Seq::<(Seq<char>, S)>::empty());
        assert(suggestion_views(suggestions@) =~= Seq::<SuggestionView<S>>::empty());
        while i < ranked.len()
            invariant
                i <= ranked@.len(),
                rv == ranking_view(ranked@),
                sv == skill_views(all_skills@),
                threshold == self.configuration().auto_suggest_threshold,
                forall|a: S, b: S| at_least.requires((a, b)),
                deterministic_test(*at_least),
                suggestion_views(suggestions@) == suggestions_from(rv.take(i as int), sv, context@, threshold, *at_least),
            decreases ranked.len() - i,
        {
            let ghost t = rv.take(i as int);
            assert(rv.take(i + 1).drop_last() =~= t);
            assert(rv.take(i + 1).last() == rv[i as int]);
            let score = ranked[i].1;
            assert(rv[i as int] == (ranked@[i as int].0@, score));
            let ghost before = suggestion_views(suggestions@);
            if at_least(score, threshold) {
                match skill_position(&all_skills, ranked[i].0.as_str()) {
                    Some(j) => {
                        let skill = all_skills[j].duplicate();
                        assert(skill@ == sv[j as int]);
                        let suggestion = LearningSuggestion::for_skill(skill, score, context);
                        suggestions.push(suggestion);
                        assert(suggestion_views(suggestions@) =~= before.push(suggestion@));
                    },
                    None => {},
                }
            }
            i += 1;
        }
        assert(rv.take(ranked@.len() as int) =~= rv);
        assert(ranks(sv, context@, self.adjustments(), self.metrics(), *score_of, *rank_key, rv));
        suggestions
    }

    /// The first `limit` suggestions for `context` (see `get_suggestions_for_context`): each
    /// skill with its score.
    pub fn get_skill_recommendations<
        C: Fn(S, Option<S>, bool, Option<(usize, usize, S, u64)>) -> S,
        K: Fn(S) -> u64,
        T: Fn(S, S) -> bool,
    >(&self, context: &str, limit: usize, score_of: &C, rank_key: &K, at_least: &T) -> (r: Vec<(GeneratedSkill<S>, S)>)
        requires
            forall|c: S, a: Option<S>, t: bool, u: Option<(usize, usize, S, u64)>| score_of.requires((c, a, t, u)),
            forall|s: S| rank_key.requires((s,)),
            forall|a: S, b: S| at_least.requires((a, b)),
            deterministic_test(*at_least),
        ensures
            exists|ranked: Seq<(Seq<char>, S)>|
                #[trigger] ranks(self.skills(), context@, self.adjustments(), self.metrics(), *score_of, *rank_key, ranked)
                    && recommendation_views(r@) == recommendations(
                    suggestions_from(ranked, self.skills(), context@, self.configuration().auto_suggest_threshold, *at_least),
                    limit as nat,
                ),
    {
        let suggestions = self.get_suggestions_for_context(context, score_of, rank_key, at_least);
        let ghost sv = suggestion_views(suggestions@);
        let n = if limit < suggestions.len() { limit } else { suggestions.len() };
        let mut r: Vec<(GeneratedSkill<S>, S)> = Vec::new();
        let mut i: usize = 0;
        while i < n
            invariant
                n <= suggestions@.len(),
                sv == suggestion_views(suggestions@),
                i <= n,
                recommendation_views(r@) == recommendations(sv, i as nat),
            decreases n - i,
        {
            let skill = suggestions[i].skill.duplicate();
            let confidence = suggestions[i].confidence;
            assert(sv[i as int] == suggestions@[i as int]@);
            let ghost before = recommendation_views(r@);
            r.push((skill, confidence));
            assert(recommendation_views(r@) =~= before.push((sv[i as int].skill, sv[i as int].confidence)));
            assert(recommendations(sv, (i + 1) as nat) =~= recommendations(sv, i as nat).push((sv[i as int].skill, sv[i as int].confidence)));
            i += 1;
        }
        assert(recommendations(sv, n as nat) =~= recommendations(sv, limit as nat));
        r
    }
}

} // verus!

verus! {

/// The view of an optional skill.
pub open spec fn opt_skill_view<S>(o: Option<GeneratedSkill<S>>) -> Option<SkillView<S>> {
    match o {
        Some(s) => Some(s@),
        None => None,
    }
}

/// `keys` are the keys that `key` gave the confidences of `gs`, and `j` is the position of
/// the last skill with the largest key.
pub open spec fn last_highest<S, K: Fn(S) -> u32>(gs: Seq<SkillView<S>>, key: K, keys: Seq<u32>, j: int) -> bool {
    &&& keys.len() == gs.len()
    &&& forall|i: int| 0 <= i < gs.len() ==> key.ensures((gs[i].confidence,), #[trigger] keys[i])
    &&& 0 <= j < gs.len()
    &&& forall|i: int| 0 <= i < gs.len() ==> #[trigger] keys[i] <= keys[j]
    &&& forall|i: int| j < i < gs.len() ==> #[trigger] keys[i] < keys[j]
}

/// `r` is the last of `gs` whose confidence has the largest key, or nothing when `gs` is empty.
pub open spec fn highest_of<S, K: Fn(S) -> u32>(gs: Seq<SkillView<S>>, key: K, r: Option<SkillView<S>>) -> bool {
    match r {
        Some(s) => exists|keys: Seq<u32>, j: int| #[trigger] last_highest(gs, key, keys, j) && gs[j] == s,
        None => gs.len() == 0,
    }
}

/// The number of times a skill was suggested.
pub open spec fn times_suggested_of<S>() -> spec_fn(SkillView<S>) -> nat {
    |s: SkillView<S>| s.times_suggested as nat
}

/// Each of the skills `top` that has a metric among `metrics`, paired with its metric.
pub open spec fn with_metrics<S>(top: Seq<SkillView<S>>, metrics: Seq<MetricView<S>>) -> Seq<(SkillView<S>, MetricView<S>)>
    decreases top.len(),
{
    if top.len() == 0 {
        seq![]
    } else {
        let before = with_metrics(top.drop_last(), metrics);
        let s = top.last();
        let i = first_index(metrics, metric_of_skill(s.id));
        if i >= 0 {
            before.push((s, metrics[i]))
        } else {
            before
        }
    }
}

/// The views of skills paired with metrics.
pub open spec fn skill_metric_views<S>(v: Seq<(GeneratedSkill<S>, PerformanceMetric<S>)>) -> Seq<(SkillView<S>, MetricView<S>)> {
    v.map_values(|p: (GeneratedSkill<S>, PerformanceMetric<S>)| (p.0@, p.1@))
}

/// The last of `skills` whose confidence has the largest `key`, if there is any.
fn last_with_highest_key<S: Copy, K: Fn(S) -> u32>(skills: Vec<GeneratedSkill<S>>, key: &K) -> (r: Option<GeneratedSkill<S>>)
    requires
        forall|s: S| key.requires((s,)),
    ensures
        highest_of(skill_views(skills@), *key, opt_skill_view(r)),
{
    let ghost gs = skill_views(skills@);
    let n = skills.len();
    if n == 0 {
        return None;
    }
    let mut keys: Vec<u32> = Vec::new();
    let mut best: usize = 0;
    let mut i: usize = 0;
    while i < n
        invariant
            n == skills@.len(),
            gs == skill_views(skills@),
            i <= n,
            keys@.len() == i,
            forall|s: S| key.requires((s,)),
            forall|k: int| 0 <= k < i ==> key.ensures((gs[k].confidence,), #[trigger] keys@[k]),
            i > 0 ==> best < i,
            forall|k: int| 0 <= k < i ==> #[trigger] keys@[k] <= keys@[best as int],
            forall|k: int| best < k < i ==> #[trigger] keys@[k] < keys@[best as int],
        decreases n - i,
    {
        assert(gs[i as int] == skills@[i as int]@);
        let k = key(skills[i].confidence);
        keys.push(k);
        if i == 0 || k >= keys[best] {
            best = i;
        }
        i += 1;
    }
    let r = skills[best].duplicate();
    assert(last_highest(gs, *key, keys@, best as int));
    Some(r)
}

impl<S: Copy> LearningEngine<S> {
    /// Generates skills (see `generate_skills`) and returns the last generated skill whose
    /// confidence has the largest `key`, if any skill was generated.
    pub fn check_for_new_skills<
        F: Fn(usize) -> S,
        G: Fn(usize, usize) -> S,
        A: Fn(S, S) -> S,
        T: Fn(S, S) -> bool,
        M: Fn(Vec<S>) -> S,
        K: Fn(S) -> u32,
    >(&mut self, confidence_of: &F, rate_of: &G, average: &A, at_least: &T, mean_of: &M, key: &K) -> (r: Option<
        GeneratedSkill<S>,
    >)
        requires
            old(self).well_formed(),
            forall|n: usize| confidence_of.requires((n,)),
            forall|a: usize, b: usize| rate_of.requires((a, b)),
            forall|a: S, b: S| average.requires((a, b)),
            forall|a: S, b: S| at_least.requires((a, b)),
            deterministic_test(*at_least),
            forall|v: Vec<S>| mean_of.requires((v,)),
            forall|s: S| key.requires((s,)),
            extraction_fits(old(self).successful_experiences(), old(self).patterns(), old(self).pattern_threshold()),
            forall|st: Seq<PatternView<S>>|
                #[trigger] extracted_into(
                    old(self).patterns(),
                    old(self).successful_experiences(),
                    old(self).pattern_threshold(),
                    *confidence_of,
                    *rate_of,
                    *average,
                    st,
                ) ==> workflow_durations_fit(
                    keep(st, seen_at_least(old(self).pattern_threshold())),
                    old(self).skill_threshold(),
                    *at_least,
                ),
        ensures
            final(self).well_formed(),
            final(self).pattern_threshold() == old(self).pattern_threshold(),
            extracted_into(
                old(self).patterns(),
                old(self).successful_experiences(),
                old(self).pattern_threshold(),
                *confidence_of,
                *rate_of,
                *average,
                final(self).patterns(),
            ),
            exists|gs: Seq<SkillView<S>>|
                #[trigger] generated_from(
                    gs,
                    keep(final(self).patterns(), seen_at_least(old(self).pattern_threshold())),
                    old(self).skill_threshold(),
                    *at_least,
                    *mean_of,
                ) && final(self).skills() == store_new_skills(old(self).skills(), gs) && highest_of(
                    gs,
                    *key,
                    opt_skill_view(r),
                ),
            final(self).skill_threshold() == old(self).skill_threshold(),
            final(self).configuration() == old(self).configuration(),
            final(self).sessions() == old(self).sessions(),
            final(self).start_time() == old(self).start_time(),
            Self::same_experiences(&*old(self), &*final(self)),
            Self::same_feedback(&*old(self), &*final(self)),
    {
        let new_skills = self.generate_skills(confidence_of, rate_of, average, at_least, mean_of);
        let ghost gs = skill_views(new_skills@);
        let r = last_with_highest_key(new_skills, key);
        assert(highest_of(gs, *key, opt_skill_view(r)));
        r
    }

    /// Extracts patterns as `extract_patterns` does when the counts fit in machine integers
    /// (see `extraction_fits`); otherwise changes nothing and returns nothing.
    pub fn extract_patterns_within_limits<F: Fn(usize) -> S, G: Fn(usize, usize) -> S, A: Fn(S, S) -> S>(
        &mut self,
        confidence_of: &F,
        rate_of: &G,
        average: &A,
    ) -> (r: Option<Vec<Pattern<S>>>)
        requires
            old(self).well_formed(),
            forall|n: usize| confidence_of.requires((n,)),
            forall|a: usize, b: usize| rate_of.requires((a, b)),
            forall|a: S, b: S| average.requires((a, b)),
        ensures
            final(self).well_formed(),
            r is Some <==> extraction_fits(old(self).successful_experiences(), old(self).patterns(), old(self).pattern_threshold()),
            r is None ==> *final(self) == *old(self),
            r matches Some(v) ==> {
                &&& extracted_into(
                    old(self).patterns(),
                    old(self).successful_experiences(),
                    old(self).pattern_threshold(),
                    *confidence_of,
                    *rate_of,
                    *average,
                    final(self).patterns(),
                )
                &&& pattern_views(v@) == keep(final(self).patterns(), seen_at_least(old(self).pattern_threshold()))
                &&& final(self).pattern_threshold() == old(self).pattern_threshold()
                &&& final(self).configuration() == old(self).configuration()
                &&& final(self).sessions() == old(self).sessions()
                &&& final(self).start_time() == old(self).start_time()
                &&& Self::same_experiences(&*old(self), &*final(self))
                &&& Self::same_skills(&*old(self), &*final(self))
                &&& Self::same_feedback(&*old(self), &*final(self))
            },
    {
        let experiences = self.experience_collector.get_successful_patterns();
        let r = self.pattern_extractor.extract_within_limits(experiences.as_slice(), confidence_of, rate_of, average);
        proof {
            if r is Some {
                lemma_extraction_keeps_tool_keys(
                    old(self).patterns(),
                    old(self).successful_experiences(),
                    old(self).pattern_threshold(),
                    *confidence_of,
                    *rate_of,
                    *average,
                    self.patterns(),
                );
            }
        }
        r
    }

    /// Generates skills as `generate_skills` does when the counts of extraction fit in machine
    /// integers (see `extraction_fits`) and the mean durations of the qualifying tool
    /// sequences add up within `u64`. Otherwise it returns nothing: when extraction does not
    /// fit nothing changes; when the durations do not, the patterns are extracted and no skill
    /// is generated.
    pub fn generate_skills_within_limits<
        F: Fn(usize) -> S,
        G: Fn(usize, usize) -> S,
        A: Fn(S, S) -> S,
        T: Fn(S, S) -> bool,
        M: Fn(Vec<S>) -> S,
    >(&mut self, confidence_of: &F, rate_of: &G, average: &A, at_least: &T, mean_of: &M) -> (r: Option<
        Vec<GeneratedSkill<S>>,
    >)
        requires
            old(self).well_formed(),
            forall|n: usize| confidence_of.requires((n,)),
            forall|a: usize, b: usize| rate_of.requires((a, b)),
            forall|a: S, b: S| average.requires((a, b)),
            forall|a: S, b: S| at_least.requires((a, b)),
            deterministic_test(*at_least),
            forall|v: Vec<S>| mean_of.requires((v,)),
        ensures
            final(self).well_formed(),
            !extraction_fits(old(self).successful_experiences(), old(self).patterns(), old(self).pattern_threshold()) ==> r is None
                && *final(self) == *old(self),
            extraction_fits(old(self).successful_experiences(), old(self).patterns(), old(self).pattern_threshold()) ==> {
                &&& extracted_into(
                    old(self).patterns(),
                    old(self).successful_experiences(),
                    old(self).pattern_threshold(),
                    *confidence_of,
                    *rate_of,
                    *average,
                    final(self).patterns(),
                )
                &&& r is Some <==> workflow_durations_fit(
                    keep(final(self).patterns(), seen_at_least(old(self).pattern_threshold())),
                    old(self).skill_threshold(),
                    *at_least,
                )
                &&& r is None ==> final(self).skills() == old(self).skills()
                &&& final(self).pattern_threshold() == old(self).pattern_threshold()
                &&& final(self).skill_threshold() == old(self).skill_threshold()
                &&& final(self).configuration() == old(self).configuration()
                &&& final(self).sessions() == old(self).sessions()
                &&& final(self).start_time() == old(self).start_time()
                &&& Self::same_experiences(&*old(self), &*final(self))
                &&& Self::same_feedback(&*old(self), &*final(self))
            },
            r matches Some(v) ==> {
                &&& generated_from(
                    skill_views(v@),
                    keep(final(self).patterns(), seen_at_least(old(self).pattern_threshold())),
                    old(self).skill_threshold(),
                    *at_least,
                    *mean_of,
                )
                &&& final(self).skills() == store_new_skills(old(self).skills(), skill_views(v@))
            },
    {
        let patterns = match self.extract_patterns_within_limits(confidence_of, rate_of, average) {
            Some(v) => v,
            None => {
                return None;
            },
        };
        if !self.skill_generator.workflow_durations_within(patterns.as_slice(), at_least) {
            return None;
        }
        proof {
            let st = self.patterns();
            let kept = keep(st, seen_at_least(old(self).pattern_threshold()));
            lemma_keep_members(st, seen_at_least(old(self).pattern_threshold()));
            assert(tool_keys(kept)) by {
                assert forall|k: int| 0 <= k < kept.len() && #[trigger] kept[k].pattern_type == PatternType::ToolSequence implies kept[k].key_elements.len() > 0 by {
                    assert(st.contains(kept[k]));
                    let j = choose|j: int| 0 <= j < st.len() && st[j] == kept[k];
                    assert(st[j].pattern_type == PatternType::ToolSequence);
                }
            }
            lemma_workflow_keyed(kept, old(self).skill_threshold(), *at_least);
        }
        Some(self.skill_generator.generate_from_patterns(patterns.as_slice(), at_least, mean_of))
    }

    /// Generates skills as `generate_skills_within_limits` does and, when it generated, returns
    /// the last generated skill whose confidence has the largest `key`, if any.
    pub fn check_for_new_skills_within_limits<
        F: Fn(usize) -> S,
        G: Fn(usize, usize) -> S,
        A: Fn(S, S) -> S,
        T: Fn(S, S) -> bool,
        M: Fn(Vec<S>) -> S,
        K: Fn(S) -> u32,
    >(&mut self, confidence_of: &F, rate_of: &G, average: &A, at_least: &T, mean_of: &M, key: &K) -> (r: Option<
        Option<GeneratedSkill<S>>,
    >)
        requires
            old(self).well_formed(),
            forall|n: usize| confidence_of.requires((n,)),
            forall|a: usize, b: usize| rate_of.requires((a, b)),
            forall|a: S, b: S| average.requires((a, b)),
            forall|a: S, b: S| at_least.requires((a, b)),
            deterministic_test(*at_least),
            forall|v: Vec<S>| mean_of.requires((v,)),
            forall|s: S| key.requires((s,)),
        ensures
            final(self).well_formed(),
            !extraction_fits(old(self).successful_experiences(), old(self).patterns(), old(self).pattern_threshold()) ==> r is None
                && *final(self) == *old(self),
            extraction_fits(old(self).successful_experiences(), old(self).patterns(), old(self).pattern_threshold()) ==> {
                &&& extracted_into(
                    old(self).patterns(),
                    old(self).successful_experiences(),
                    old(self).pattern_threshold(),
                    *confidence_of,
                    *rate_of,
                    *average,
                    final(self).patterns(),
                )
                &&& r is Some <==> workflow_durations_fit(
                    keep(final(self).patterns(), seen_at_least(old(self).pattern_threshold())),
                    old(self).skill_threshold(),
                    *at_least,
                )
                &&& r is None ==> final(self).skills() == old(self).skills()
                &&& final(self).pattern_threshold() == old(self).pattern_threshold()
                &&& final(self).skill_threshold() == old(self).skill_threshold()
                &&& final(self).configuration() == old(self).configuration()
                &&& final(self).sessions() == old(self).sessions()
                &&& final(self).start_time() == old(self).start_time()
                &&& Self::same_experiences(&*old(self), &*final(self))
                &&& Self::same_feedback(&*old(self), &*final(self))
            },
            r matches Some(best) ==> exists|gs: Seq<SkillView<S>>|
                #[trigger] generated_from(
                    gs,
                    keep(final(self).patterns(), seen_at_least(old(self).pattern_threshold())),
                    old(self).skill_threshold(),
                    *at_least,
                    *mean_of,
                ) && final(self).skills() == store_new_skills(old(self).skills(), gs) && highest_of(
                    gs,
                    *key,
                    opt_skill_view(best),
                ),
    {
        match self.generate_skills_within_limits(confidence_of, rate_of, average, at_least, mean_of) {
            Some(new_skills) => {
                let ghost gs = skill_views(new_skills@);
                let best = last_with_highest_key(new_skills, key);
                assert(highest_of(gs, *key, opt_skill_view(best)));
                Some(best)
            },
            None => None,
        }
    }

    /// Counts a suggestion of `skill` (the first generated skill with its identifier).
    pub fn suggest_skill(&mut self, skill: &GeneratedSkill<S>)
        requires
            ({
                let i = first_index(old(self).skills(), skill_id_is(skill.id@));
                i >= 0 ==> old(self).skills()[i].times_suggested < usize::MAX
            }),
        ensures
            final(self).skills() == suggested(old(self).skills(), skill.id@),
            final(self).skill_threshold() == old(self).skill_threshold(),
            final(self).configuration() == old(self).configuration(),
            final(self).sessions() == old(self).sessions(),
            final(self).start_time() == old(self).start_time(),
            Self::same_experiences(&*old(self), &*final(self)),
            Self::same_patterns(&*old(self), &*final(self)),
            old(self).well_formed() ==> final(self).well_formed(),
            Self::same_feedback(&*old(self), &*final(self)),
    {
        self.skill_generator.record_suggestion(skill.id.as_str());
    }

    /// Accepts the skill `skill_id`: when a generated skill has that identifier, its
    /// acceptance is counted and the answer is `true`; otherwise nothing changes and the
    /// answer is `false`.
    pub fn accept_skill(&mut self, skill_id: &str) -> (b: bool)
        requires
            ({
                let i = first_index(old(self).skills(), skill_id_is(skill_id@));
                i >= 0 ==> old(self).skills()[i].times_accepted < usize::MAX
            }),
        ensures
            b == (first_index(old(self).skills(), skill_id_is(skill_id@)) >= 0),
            final(self).skills() == accepted(old(self).skills(), skill_id@),
            final(self).skill_threshold() == old(self).skill_threshold(),
            final(self).configuration() == old(self).configuration(),
            final(self).sessions() == old(self).sessions(),
            final(self).start_time() == old(self).start_time(),
            Self::same_experiences(&*old(self), &*final(self)),
            Self::same_patterns(&*old(self), &*final(self)),
            old(self).well_formed() ==> final(self).well_formed(),
            Self::same_feedback(&*old(self), &*final(self)),
    {
        let skills = self.skill_generator.get_all_generated_skills();
        match skill_position(&skills, skill_id) {
            Some(_) => {
                self.skill_generator.record_acceptance(skill_id);
                true
            },
            None => false,
        }
    }

    /// Counts an execution of the skill `skill_id` (the first generated skill with that
    /// identifier), and a success when `success` holds.
    pub fn record_skill_usage(&mut self, skill_id: &str, success: bool)
        requires
            ({
                let i = first_index(old(self).skills(), skill_id_is(skill_id@));
                i >= 0 ==> old(self).skills()[i].times_executed < usize::MAX && (success ==> old(
                    self,
                ).skills()[i].success_count < usize::MAX)
            }),
        ensures
            final(self).skills() == executed(old(self).skills(), skill_id@, success),
            final(self).skill_threshold() == old(self).skill_threshold(),
            final(self).configuration() == old(self).configuration(),
            final(self).sessions() == old(self).sessions(),
            final(self).start_time() == old(self).start_time(),
            Self::same_experiences(&*old(self), &*final(self)),
            Self::same_patterns(&*old(self), &*final(self)),
            old(self).well_formed() ==> final(self).well_formed(),
            Self::same_feedback(&*old(self), &*final(self)),
    {
        self.skill_generator.record_execution(skill_id, success);
    }

    /// Counts of what the engine has learned. The last extraction time is the current UTC time
    /// (from `chrono`; 0 when the clock reads earlier than the epoch), and the uptime is
    /// `uptime_at` the system clock reading.
    pub fn get_learning_stats(&self) -> (stats: LearningStats)
        requires
            sum_of(self.skills(), times_suggested_of()) <= usize::MAX,
        ensures
            stats.total_experiences == self.experiences().len(),
            stats.total_patterns_discovered == self.patterns().len(),
            stats.total_skills_generated == self.skills().len(),
            stats.total_skill_suggestions == sum_of(self.skills(), times_suggested_of()),
            stats.total_feedback_received == 0,
            stats.active_sessions == self.sessions().len(),
            exists|now: u64|
                stats.learning_uptime_secs == #[trigger] elapsed_since(now, self.start_time()),
    {
        let active_sessions = self.sessions.len();
        let patterns = self.pattern_extractor.get_all_patterns();
        let skills = self.skill_generator.get_all_generated_skills();
        let ghost sv = skill_views(skills@);
        let mut suggestions: usize = 0;
        let mut i: usize = 0;
        while i < skills.len()
            invariant
                sv == skill_views(skills@),
                i <= skills@.len(),
                sum_of(sv, times_suggested_of()) <= usize::MAX,
                suggestions == sum_of(sv.take(i as int), times_suggested_of()),
            decreases skills.len() - i,
        {
            let ghost t = sv.take(i as int);
            assert(sv.take(i + 1) =~= t.push(sv[i as int]));
            proof {
                lemma_sum_push(t, sv[i as int], times_suggested_of());
                lemma_sum_prefix(sv, i + 1, times_suggested_of());
            }
            assert(sv[i as int] == skills@[i as int]@);
            suggestions = suggestions + skills[i].times_suggested;
            i += 1;
        }
        assert(sv.take(skills@.len() as int) =~= sv);
        let now = system_now_secs();
        let uptime = self.uptime_at(now);
        LearningStats {
            total_experiences: self.experience_collector.count(),
            total_patterns_discovered: patterns.len(),
            total_skills_generated: skills.len(),
            total_skill_suggestions: suggestions,
            total_feedback_received: 0,
            active_sessions,
            last_extraction_time: utc_now_secs(),
            learning_uptime_secs: uptime,
        }
    }

    /// The stored patterns of kind `pattern_type`.
    pub fn get_patterns_by_type(&self, pattern_type: PatternType) -> (r: Vec<Pattern<S>>)
        ensures
            pattern_views(r@) == keep(self.patterns(), of_type(pattern_type)),
    {
        self.pattern_extractor.get_patterns_by_type(pattern_type)
    }

    /// How many experiences the session `session_id` has counted, if it is open.
    pub fn session_experiences(&self, session_id: &str) -> (r: Option<usize>)
        ensures
            ({
                let i = first_index(self.sessions(), session_id_is(session_id@));
                &&& r is Some <==> i >= 0
                &&& r matches Some(n) ==> n == self.sessions()[i].experiences_gathered
            }),
    {
        match self.session_index(session_id) {
            Some(j) => {
                assert(self.sessions()[j as int] == self.sessions@[j as int]@);
                Some(self.sessions[j].experiences_gathered)
            },
            None => None,
        }
    }

    /// All generated skills, in order of generation.
    pub fn get_generated_skills(&self) -> (r: Vec<GeneratedSkill<S>>)
        ensures
            skill_views(r@) == self.skills(),
    {
        self.skill_generator.get_all_generated_skills()
    }

    /// The metric of the skill `skill_id`, if it has one.
    pub fn get_skill_metrics(&self, skill_id: &str) -> (r: Option<PerformanceMetric<S>>)
        ensures
            ({
                let i = first_index(self.metrics(), metric_of_skill(skill_id@));
                &&& r is Some <==> i >= 0
                &&& r matches Some(m) ==> m@ == self.metrics()[i]
            }),
    {
        self.feedback_loop.get_metrics(skill_id)
    }

    /// The `limit` most useful skills (see `SkillGenerator::get_top_skills`), each with its
    /// metric; skills without a metric are left out.
    pub fn get_top_performing_skills<K: Fn(usize, usize, usize, usize) -> u64>(&self, limit: usize, usefulness_key: &K) -> (r: Vec<
        (GeneratedSkill<S>, PerformanceMetric<S>),
    >)
        requires
            forall|a: usize, b: usize, c: usize, d: usize| usefulness_key.requires((a, b, c, d)),
        ensures
            exists|top: Seq<SkillView<S>>|
                #[trigger] top_skills(self.skills(), limit as nat, *usefulness_key, top) && skill_metric_views(r@)
                    == with_metrics(top, self.metrics()),
    {
        let skills = self.skill_generator.get_top_skills(limit, usefulness_key);
        let ghost top = skill_views(skills@);
        let mut results: Vec<(GeneratedSkill<S>, PerformanceMetric<S>)> = Vec::new();
        let mut i: usize = 0;
        assert(top.take(0) =~= Seq::<SkillView<S>>::empty());
        assert(skill_metric_views(results@) =~= Seq::<(SkillView<S>, MetricView<S>)>::empty());
        while i < skills.len()
            invariant
                top == skill_views(skills@),
                i <= skills@.len(),
                skill_metric_views(results@) == with_metrics(top.take(i as int), self.metrics()),
            decreases skills.len() - i,
        {
            let ghost t = top.take(i as int);
            assert(top.take(i + 1).drop_last() =~= t);
            assert(top.take(i + 1).last() == top[i as int]);
            assert(top[i as int] == skills@[i as int]@);
            let ghost before = skill_metric_views(results@);
            match self.feedback_loop.get_metrics(skills[i].id.as_str()) {
                Some(metric) => {
                    let skill = skills[i].duplicate();
                    results.push((skill, metric));
                    assert(skill_metric_views(results@) =~= before.push((top[i as int], metric@)));
                },
                None => {},
            }
            i += 1;
        }
        assert(top.take(skills@.len() as int) =~= top);
        assert(top_skills(self.skills(), limit as nat, *usefulness_key, top));
        results
    }

    /// How long the engine has run at the clock reading `now` (seconds since the epoch): the
    /// seconds since it started, or 0 when `now` is earlier than the start.
    pub fn uptime_at(&self, now: u64) -> (r: u64)
        ensures
            r == elapsed_since(now, self.start_time()),
    {
        if now >= self.started_at {
            now - self.started_at
        } else {
            0
        }
    }

    /// The statistics of the stored executions of the skill named `skill_name` (see
    /// `ExperienceCollector::get_skill_statistics`).
    pub fn get_experience_summary<G: Fn(usize, usize) -> S, F: Fn(ExperienceOutcome, Option<S>) -> S, M: Fn(Vec<S>) -> S>(
        &self,
        skill_name: &str,
        zero: S,
        rate_of: &G,
        score_of: &F,
        mean_of: &M,
    ) -> (s: SkillStatistics<S>)
        requires
            sum_of(keep(self.experiences(), used_skill(skill_name@)), duration_of()) <= u64::MAX,
            forall|a: usize, b: usize| rate_of.requires((a, b)),
            forall|o: ExperienceOutcome, r: Option<S>| score_of.requires((o, r)),
            forall|v: Vec<S>| mean_of.requires((v,)),
        ensures
            statistics_for(keep(self.experiences(), used_skill(skill_name@)), s, zero, *rate_of, *score_of, *mean_of),
    {
        self.experience_collector.get_skill_statistics(skill_name, zero, rate_of, score_of, mean_of)
    }
}

/// The seconds from `start` to `now`, or 0 when `now` is earlier.
pub open spec fn elapsed_since(now: u64, start: u64) -> u64 {
    if now >= start {
        (now - start) as u64
    } else {
        0
    }
}

} // verus!
