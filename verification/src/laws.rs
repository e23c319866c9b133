//! Properties of the library that span several operations or hold of every state.

use vstd::prelude::*;
use crate::engine::{SuggestionView, recommendations, with_metrics, SessionView, preview_of, session_ended, session_id_is, session_started, session_touched};
use crate::experience::{ExperienceOutcome, ExperienceView, SkillStatistics, after_record, bound, most_recent, statistics_for, succeeded};
use crate::feedback::{
    adjustment_for, scored_for,
    FeedbackView, MetricView, feedback_update, usage_for, metric_of_skill, metric_position, one_metric_per_skill, ranked_by, with_metric,
};
use crate::generator::{
    fits_context, mentions_trigger, suggestible,
    SkillView, accepted, executed, generated_from, has_key, has_skill_named, qualifies, skill_id_is, store_new_skills,
    suggested, top_by_key,
};
use crate::pattern::{
    extension_or_star, extensions_in, last_segment, names_code_file,
    command_keywords, commands_for_keywords, commands_in, word_after_from,
    ConfidenceView, PatternType, PatternView, confident_at, find_id, has_id_from, lemma_find_id, merge_chain, merge_step, occurrences_of, seen_at_least,
};
use crate::text::{contains, ends_with, lowercase, words};
use crate::seqs::{
    both, first_index, keep, lemma_keep_contains, lemma_flat_map_contains, lemma_flat_map_from, flat_map, keyed_positions, lemma_keep_keep, law_sorted_positions, lemma_first_index_facts, lemma_keep_len, lemma_keep_members,
    lemma_keep_push, lemma_sum_push, sort_desc, sorted_positions, sum_of,
};

verus! {

/// The experience buffer keeps the most recent experiences in the order they came: after a
/// recording it holds a suffix of what it held followed by the new experience, losing at most
/// the oldest one, and never more than its bound.
pub proof fn law_record_keeps_most_recent<S>(entries: Seq<ExperienceView<S>>, capacity: nat, e: ExperienceView<S>)
    requires
        entries.len() <= bound(capacity),
    ensures
        ({
            let all = entries.push(e);
            let r = after_record(entries, capacity, e);
            &&& r == all.skip(all.len() - r.len())
            &&& all.len() - r.len() <= 1
            &&& r.len() <= bound(capacity)
        }),
{
    let all = entries.push(e);
    let r = after_record(entries, capacity, e);
    if entries.len() >= capacity && entries.len() > 0 {
        assert(r =~= all.skip(1));
    } else {
        assert(r =~= all.skip(0));
    }
}

/// The buffer after recording each of `es` in turn into a buffer holding `entries`.
pub open spec fn record_all<S>(entries: Seq<ExperienceView<S>>, capacity: nat, es: Seq<ExperienceView<S>>) -> Seq<
    ExperienceView<S>,
>
    decreases es.len(),
{
    if es.len() == 0 {
        entries
    } else {
        after_record(record_all(entries, capacity, es.drop_last()), capacity, es.last())
    }
}

/// Recording experiences one after another keeps the most recent of everything recorded, in
/// the order they came and as many as the bound allows, the oldest leaving first; the most
/// recent read of at least that many gives them back newest first.
pub proof fn law_records_keep_most_recent<S>(entries: Seq<ExperienceView<S>>, capacity: nat, es: Seq<ExperienceView<S>>)
    requires
        entries.len() <= bound(capacity),
    ensures
        ({
            let all = entries + es;
            let k = if all.len() < bound(capacity) { all.len() } else { bound(capacity) };
            let r = record_all(entries, capacity, es);
            &&& r == all.skip(all.len() - k)
            &&& r.len() == k <= bound(capacity)
            &&& forall|count: nat| #![auto] count >= k ==> most_recent(r, count) == Seq::new(k, |i: int| all[all.len() - 1 - i])
        }),
    decreases es.len(),
{
    let all = entries + es;
    let b = bound(capacity);
    let k = if all.len() < b { all.len() } else { b };
    let r = record_all(entries, capacity, es);
    if es.len() == 0 {
        assert(all =~= entries);
        assert(r =~= all.skip(all.len() - k));
    } else {
        law_records_keep_most_recent(entries, capacity, es.drop_last());
        let prev = entries + es.drop_last();
        assert(prev =~= all.drop_last());
        let mid = record_all(entries, capacity, es.drop_last());
        let k0 = if prev.len() < b { prev.len() } else { b };
        assert(mid == prev.skip(prev.len() - k0));
        assert(all.last() == es.last());
        if mid.len() >= capacity && mid.len() > 0 {
            assert(r =~= mid.drop_first().push(es.last()));
            assert(r =~= all.skip(all.len() - k));
        } else {
            assert(r =~= mid.push(es.last()));
            assert(r =~= all.skip(all.len() - k));
        }
    }
    assert forall|count: nat| #![auto] count >= k implies most_recent(r, count) == Seq::new(k, |i: int| all[all.len() - 1 - i]) by {
        assert(most_recent(r, count) =~= Seq::new(k, |i: int| all[all.len() - 1 - i]));
    }
}

/// What was recorded last is what the most recent read gives back first.
pub proof fn law_recent_after_record<S>(entries: Seq<ExperienceView<S>>, capacity: nat, e: ExperienceView<S>, count: nat)
    requires
        count > 0,
    ensures
        most_recent(after_record(entries, capacity, e), count).len() > 0,
        most_recent(after_record(entries, capacity, e), count)[0] == e,
{
}

/// Of the executions of a skill, no more succeeded than there were, and with none there is
/// nothing to count or average.
pub proof fn law_statistics_consistent<
    S,
    G: Fn(usize, usize) -> S,
    F: Fn(ExperienceOutcome, Option<S>) -> S,
    M: Fn(Vec<S>) -> S,
>(m: Seq<ExperienceView<S>>, s: SkillStatistics<S>, zero: S, rate_of: G, score_of: F, mean_of: M)
    requires
        statistics_for(m, s, zero, rate_of, score_of, mean_of),
    ensures
        s.successful_executions <= s.total_executions,
        s.total_executions == 0 ==> s.successful_executions == 0 && s.average_duration_ms == 0 && s.success_rate == zero
            && s.average_score == zero,
{
    lemma_keep_len(m, succeeded());
}

/// A suggestion previews at most the first 100 characters of its context.
pub proof fn law_preview_is_short_prefix(context: Seq<char>)
    ensures
        preview_of(context).len() <= 100,
        preview_of(context) == context.take(preview_of(context).len() as int),
{
    if context.len() <= 100 {
        assert(context.take(context.len() as int) =~= context);
    }
}

/// Counting a suggestion, an acceptance or an execution of a skill changes only the first
/// skill with that identifier, and only its counter (and success count), by one; a skill
/// that is not there leaves every skill as it was. (The counters are taken below their
/// largest value, the success count only for a successful execution, as the counting
/// operations require.)
pub proof fn law_counters_touch_one_skill<S>(st: Seq<SkillView<S>>, id: Seq<char>, success: bool)
    requires
        first_index(st, skill_id_is(id)) >= 0 ==> {
            let s = st[first_index(st, skill_id_is(id))];
            &&& s.times_suggested < usize::MAX
            &&& s.times_accepted < usize::MAX
            &&& s.times_executed < usize::MAX
            &&& success ==> s.success_count < usize::MAX
        },
    ensures
        suggested(st, id).len() == st.len(),
        accepted(st, id).len() == st.len(),
        executed(st, id, success).len() == st.len(),
        forall|k: int|
            0 <= k < st.len() && k != first_index(st, skill_id_is(id)) ==> #[trigger] suggested(st, id)[k] == st[k]
                && accepted(st, id)[k] == st[k] && executed(st, id, success)[k] == st[k],
        first_index(st, skill_id_is(id)) >= 0 ==> {
            let i = first_index(st, skill_id_is(id));
            &&& st[i].id == id
            &&& suggested(st, id)[i].times_suggested == st[i].times_suggested + 1
            &&& accepted(st, id)[i].times_accepted == st[i].times_accepted + 1
            &&& executed(st, id, success)[i].times_executed == st[i].times_executed + 1
            &&& executed(st, id, success)[i].success_count == st[i].success_count + if success { 1int } else { 0 }
        },
{
    lemma_first_index_facts(st, skill_id_is(id));
}

/// Every skill has at most one metric: counting feedback for a skill uses its metric, or adds
/// one for it at the end when it has none, so no two metrics ever share a skill.
pub proof fn law_one_metric_per_skill<S>(metrics: Seq<MetricView<S>>, id: Seq<char>, zero: S)
    requires
        one_metric_per_skill(metrics),
    ensures
        one_metric_per_skill(with_metric(metrics, id, zero)),
        0 <= metric_position(metrics, id) < with_metric(metrics, id, zero).len(),
        with_metric(metrics, id, zero)[metric_position(metrics, id)].skill_id == id,
        forall|k: int| 0 <= k < metrics.len() ==> #[trigger] with_metric(metrics, id, zero)[k] == metrics[k],
{
    lemma_first_index_facts(metrics, metric_of_skill(id));
}

/// A ranking lists every skill once, with its score, in the order of the keys of the scores,
/// largest first; skills with equal keys keep their given order.
pub proof fn law_ranking_order<S>(skills: Seq<SkillView<S>>, scores: Seq<S>, keys: Seq<u64>)
    requires
        scores.len() == skills.len(),
        keys.len() == skills.len(),
        skills.len() <= usize::MAX,
    ensures
        ({
            let p = sorted_positions(keys);
            let r = ranked_by(skills, scores, keys);
            &&& r.len() == skills.len()
            &&& forall|m: int| 0 <= m < r.len() ==> #[trigger] r[m] == (skills[p[m]].id, scores[p[m]])
            &&& forall|m: int| 0 <= m < r.len() ==> 0 <= #[trigger] p[m] < skills.len()
            &&& forall|a: int, b: int| 0 <= a < b < r.len() ==> #[trigger] p[a] != #[trigger] p[b]
            &&& forall|a: int, b: int| 0 <= a < b < r.len() ==> keys[#[trigger] p[a]] >= keys[#[trigger] p[b]]
            &&& forall|a: int, b: int|
                0 <= a < b < r.len() && keys[#[trigger] p[a]] == keys[#[trigger] p[b]] ==> p[a] < p[b]
        }),
{
    law_sorted_positions(keys);
    let p = sorted_positions(keys);
    let sorted = sort_desc(keyed_positions(keys));
    assert forall|m: int| 0 <= m < sorted.len() implies p[m] == sorted[m].1 as int by {}
}

/// The most useful skills are the `limit` skills with the largest keys, largest first: every
/// skill left out comes later in the order of keys, with a key no larger than any chosen one.
pub proof fn law_top_skills<S>(st: Seq<SkillView<S>>, keys: Seq<u64>, limit: nat)
    requires
        keys.len() == st.len(),
        st.len() <= usize::MAX,
    ensures
        ({
            let p = sorted_positions(keys);
            let n = if limit < st.len() { limit } else { st.len() };
            let top = top_by_key(st, keys, limit);
            &&& top.len() == n
            &&& forall|m: int| 0 <= m < n ==> #[trigger] top[m] == st[p[m]]
            &&& forall|a: int, b: int| 0 <= a < b < st.len() ==> #[trigger] p[a] != #[trigger] p[b]
            &&& forall|a: int, b: int| 0 <= a < b < n ==> keys[#[trigger] p[a]] >= keys[#[trigger] p[b]]
            &&& forall|m: int, q: int| 0 <= m < n <= q < st.len() ==> keys[#[trigger] p[q]] <= keys[#[trigger] p[m]]
        }),
{
    law_sorted_positions(keys);
    let p = sorted_positions(keys);
    let sorted = sort_desc(keyed_positions(keys));
    assert forall|m: int| 0 <= m < sorted.len() implies p[m] == sorted[m].1 as int by {}
}

/// `after` keeps every pattern of `before` at its place, with the same identifier and at
/// least as many occurrences.
pub open spec fn store_grows<S>(before: Seq<PatternView<S>>, after: Seq<PatternView<S>>) -> bool {
    &&& after.len() >= before.len()
    &&& forall|i: int|
        0 <= i < before.len() ==> #[trigger] after[i].id == before[i].id && after[i].occurrences >= before[i].occurrences
}

/// Every pattern of `after` has no more occurrences than it had in `before` (none if it was
/// not there) plus all the occurrences of `ds`.
pub open spec fn within_sightings<S>(before: Seq<PatternView<S>>, ds: Seq<PatternView<S>>, after: Seq<PatternView<S>>) -> bool {
    forall|k: int|
        0 <= k < after.len() ==> #[trigger] after[k].occurrences <= (if k < before.len() {
            before[k].occurrences as int
        } else {
            0
        }) + sum_of(ds, occurrences_of())
}

/// Merging discovered patterns into the store never loses a pattern nor a sighting: the
/// stored patterns stay at their places with at least their occurrences, every discovered
/// pattern is stored afterwards, and no pattern gains more than the discovered occurrences.
/// (The counts are taken to fit in `usize`, as extraction requires: the discovered
/// occurrences, also added to those of a stored pattern that is discovered again.)
pub proof fn law_merge_keeps_patterns<S, A: Fn(S, S) -> S>(
    before: Seq<PatternView<S>>,
    ds: Seq<PatternView<S>>,
    after: Seq<PatternView<S>>,
    average: A,
)
    requires
        merge_chain(before, ds, after, average),
        sum_of(ds, occurrences_of()) <= usize::MAX,
        forall|k: int|
            0 <= k < before.len() && has_id_from(ds, 0, #[trigger] before[k].id) ==> before[k].occurrences + sum_of(
                ds,
                occurrences_of(),
            ) <= usize::MAX,
    ensures
        store_grows(before, after),
        within_sightings(before, ds, after),
        forall|k: int| 0 <= k < ds.len() ==> find_id(after, #[trigger] ds[k].id) >= 0,
    decreases ds.len(),
{
    if ds.len() > 0 {
        let t = ds.drop_last();
        let p = ds.last();
        let mid = choose|mid: Seq<PatternView<S>>|
            merge_chain(before, t, mid, average) && #[trigger] merge_step(mid, p, after, average);
        assert(ds =~= t.push(p));
        lemma_sum_push(t, p, occurrences_of());
        assert forall|k: int|
            0 <= k < before.len() && has_id_from(t, 0, #[trigger] before[k].id) implies before[k].occurrences + sum_of(
                t,
                occurrences_of(),
            ) <= usize::MAX by {
            let m = choose|m: int| 0 <= m < t.len() && t[m].id == before[k].id;
            assert(ds[m] == t[m]);
        }
        law_merge_keeps_patterns(before, t, mid, average);
        reveal(merge_step);
        lemma_find_id(mid, p.id);
        let i = find_id(mid, p.id);
        if i >= 0 {
            let score = choose|score: S|
                #[trigger] average.ensures((mid[i].confidence.score, p.confidence.score), score) && after == mid.update(
                    i,
                    PatternView {
                        occurrences: (mid[i].occurrences + p.occurrences) as usize,
                        last_seen: p.last_seen,
                        confidence: ConfidenceView { score, factors: mid[i].confidence.factors },
                        ..mid[i]
                    },
                );
            if i < before.len() {
                assert(mid[i].id == before[i].id);
                assert(ds[ds.len() - 1] == p);
                assert(has_id_from(ds, 0, before[i].id));
                assert(mid[i].occurrences <= before[i].occurrences + sum_of(t, occurrences_of()));
            } else {
                assert(mid[i].occurrences <= sum_of(t, occurrences_of()));
            }
            assert(mid[i].occurrences + p.occurrences <= usize::MAX);
            assert(after[i].occurrences == mid[i].occurrences + p.occurrences);
            assert forall|k: int| 0 <= k < mid.len() implies #[trigger] after[k].id == mid[k].id && after[k].occurrences
                >= mid[k].occurrences by {}
        }
        assert forall|k: int| 0 <= k < after.len() implies #[trigger] after[k].occurrences <= (if k < before.len() {
            before[k].occurrences as int
        } else {
            0
        }) + sum_of(ds, occurrences_of()) by {
            if k < mid.len() {
                assert(mid[k].occurrences <= (if k < before.len() {
                    before[k].occurrences as int
                } else {
                    0
                }) + sum_of(t, occurrences_of()));
            }
        }
        assert forall|k: int| 0 <= k < ds.len() implies find_id(after, #[trigger] ds[k].id) >= 0 by {
            let id = ds[k].id;
            if k < ds.len() - 1 {
                assert(t[k] == ds[k]);
                lemma_find_id(mid, id);
                let j = find_id(mid, id);
                assert(after[j].id == id);
                lemma_find_id(after, id);
            } else {
                lemma_find_id(after, id);
                if i >= 0 {
                    assert(after[i].id == id);
                } else {
                    assert(after[mid.len() as int].id == id);
                }
            }
        }
        assert forall|j: int| 0 <= j < before.len() implies #[trigger] after[j].id == before[j].id && after[j].occurrences
            >= before[j].occurrences by {
            assert(mid[j].id == before[j].id);
        }
    }
}

/// Whether no two skills of `st` share a name.
pub open spec fn distinct_names<S>(st: Seq<SkillView<S>>) -> bool {
    forall|i: int, j: int| 0 <= i < j < st.len() ==> st[i].template.name != st[j].template.name
}

/// Whether the skill `g` was added to the store `st`: it is one of `gs`, and its name was
/// not stored in `st`.
pub open spec fn newly_stored<S>(st: Seq<SkillView<S>>, gs: Seq<SkillView<S>>, g: SkillView<S>) -> bool {
    exists|k: int| 0 <= k < gs.len() && #[trigger] gs[k] == g && !has_skill_named(st, g.template.name)
}

/// Storing generated skills never stores two skills of one name: the stored skills stay
/// first and unchanged (counters included), the skills added after them are generated skills
/// whose names were not stored, in the order they were generated, each generated skill's
/// name is stored afterwards, and names stay distinct.
pub proof fn law_skill_names_unique<S>(st: Seq<SkillView<S>>, gs: Seq<SkillView<S>>)
    requires
        distinct_names(st),
    ensures
        distinct_names(store_new_skills(st, gs)),
        store_new_skills(st, gs).len() >= st.len(),
        store_new_skills(st, gs).take(st.len() as int) == st,
        forall|j: int|
            st.len() <= j < store_new_skills(st, gs).len() ==> newly_stored(st, gs, #[trigger] store_new_skills(st, gs)[j]),
        forall|a: int, b: int|
            st.len() <= a < b < store_new_skills(st, gs).len() ==> exists|x: int, y: int|
                0 <= x < y < gs.len() && gs[x] == #[trigger] store_new_skills(st, gs)[a] && gs[y]
                    == #[trigger] store_new_skills(st, gs)[b],
        forall|k: int| 0 <= k < gs.len() ==> has_skill_named(store_new_skills(st, gs), #[trigger] gs[k].template.name),
    decreases gs.len(),
{
    if gs.len() > 0 {
        let t = gs.drop_last();
        law_skill_names_unique(st, t);
        let r = store_new_skills(st, t);
        let g = gs.last();
        let q = store_new_skills(st, gs);
        if !has_skill_named(r, g.template.name) {
            assert(q == r.push(g));
            assert(q.take(st.len() as int) =~= r.take(st.len() as int));
            assert forall|i: int, j: int| 0 <= i < j < q.len() implies q[i].template.name != q[j].template.name by {
                if j == r.len() {
                    assert(q[i] == r[i]);
                }
            }
        }
        assert forall|j: int| st.len() <= j < q.len() implies newly_stored(st, gs, #[trigger] q[j]) by {
            if j < r.len() {
                assert(q[j] == r[j]);
                assert(newly_stored(st, t, r[j]));
                let k = choose|k: int| 0 <= k < t.len() && #[trigger] t[k] == r[j] && !has_skill_named(st, r[j].template.name);
                assert(gs[k] == t[k]);
            } else {
                assert(q[j] == g);
                assert(gs[gs.len() - 1] == g);
                if has_skill_named(st, g.template.name) {
                    let i = choose|i: int| 0 <= i < st.len() && #[trigger] st[i].template.name == g.template.name;
                    assert(r.take(st.len() as int)[i] == r[i]);
                }
            }
        }
        assert forall|a: int, b: int| st.len() <= a < b < q.len() implies exists|x: int, y: int|
            0 <= x < y < gs.len() && gs[x] == #[trigger] q[a] && gs[y] == #[trigger] q[b] by {
            if b < r.len() {
                assert(q[a] == r[a] && q[b] == r[b]);
                let (x, y) = choose|x: int, y: int| 0 <= x < y < t.len() && t[x] == #[trigger] r[a] && t[y] == #[trigger] r[b];
                assert(gs[x] == t[x] && gs[y] == t[y]);
            } else {
                assert(q[a] == r[a]);
                assert(newly_stored(st, t, r[a]));
                let x = choose|x: int| 0 <= x < t.len() && #[trigger] t[x] == r[a] && !has_skill_named(st, r[a].template.name);
                assert(gs[x] == t[x]);
                assert(q[b] == g && gs[gs.len() - 1] == g);
            }
        }
        assert forall|k: int| 0 <= k < gs.len() implies has_skill_named(q, #[trigger] gs[k].template.name) by {
            if k < t.len() {
                assert(t[k] == gs[k]);
                assert(has_skill_named(r, t[k].template.name));
                let i = choose|i: int| 0 <= i < r.len() && #[trigger] r[i].template.name == t[k].template.name;
                assert(q[i] == r[i]);
            } else if !has_skill_named(r, g.template.name) {
                assert(q[r.len() as int] == g);
            }
        }
    }
}

/// Whether no two sessions share an identifier.
pub open spec fn distinct_sessions(sessions: Seq<SessionView>) -> bool {
    forall|i: int, j: int| 0 <= i < j < sessions.len() ==> sessions[i].session_id != sessions[j].session_id
}

/// Whether a session has identifier `id`.
pub open spec fn has_session(sessions: Seq<SessionView>, id: Seq<char>) -> bool {
    exists|i: int| 0 <= i < sessions.len() && #[trigger] sessions[i].session_id == id
}

/// There is at most one session per identifier: starting a session makes it open (once),
/// ending it closes it, and counting an experience in it changes no identifier.
pub proof fn law_sessions_one_per_id(before: Seq<SessionView>, id: Seq<char>, started: Seq<SessionView>, touched: Seq<SessionView>)
    requires
        distinct_sessions(before),
        session_started(before, id, started),
        session_touched(before, id, touched),
    ensures
        distinct_sessions(started),
        has_session(started, id),
        distinct_sessions(session_ended(before, id)),
        !has_session(session_ended(before, id), id),
        distinct_sessions(touched),
        session_ended(started, id).len() == before.len() - (if has_session(before, id) { 1int } else { 0 }),
{
    lemma_first_index_facts(before, session_id_is(id));
    let i = first_index(before, session_id_is(id));
    let pos = if i >= 0 { i } else { before.len() as int };
    assert(started[pos].session_id == id);
    assert forall|a: int, b: int| 0 <= a < b < started.len() implies started[a].session_id != started[b].session_id by {
        if a != pos && b != pos {
            assert(started[a] == before[a] && started[b] == before[b]);
        } else if a == pos {
            assert(started[b] == before[b]);
        } else {
            assert(started[a] == before[a]);
        }
    }
    let e = session_ended(before, id);
    if i >= 0 {
        assert forall|a: int, b: int| 0 <= a < b < e.len() implies e[a].session_id != e[b].session_id by {
            let ra = if a < i { a } else { a + 1 };
            let rb = if b < i { b } else { b + 1 };
            assert(e[a] == before[ra] && e[b] == before[rb]);
        }
        assert forall|k: int| 0 <= k < e.len() implies e[k].session_id != id by {
            let rk = if k < i { k } else { k + 1 };
            assert(e[k] == before[rk]);
        }
    }
    assert forall|a: int, b: int| 0 <= a < b < touched.len() implies touched[a].session_id != touched[b].session_id by {
        assert(touched[a].session_id == before[a].session_id);
        assert(touched[b].session_id == before[b].session_id);
    }
    lemma_first_index_facts(started, session_id_is(id));
    let j = first_index(started, session_id_is(id));
    assert(j == pos) by {
        if j < pos {
            assert(started[j] == before[j]);
        }
    }
    if i >= 0 {
        assert(has_session(before, id));
    } else {
        assert(!has_session(before, id));
    }
}

/// Each piece of feedback counts one use of its skill, at the feedback's time, and leaves
/// the metrics of all other skills as they were. (The skill's use count, and its success
/// count when the rating counts as a success, are taken below their largest value, as
/// recording feedback requires.)
pub proof fn law_feedback_counts_one_use<S, R: Fn(S, usize, S) -> S, P: Fn(S) -> bool>(
    before: Seq<MetricView<S>>,
    fb: FeedbackView<S>,
    after: Seq<MetricView<S>>,
    zero: S,
    running_average: R,
    is_positive: P,
)
    requires
        feedback_update(before, fb, after, zero, running_average, is_positive),
        with_metric(before, fb.skill_id, zero)[metric_position(before, fb.skill_id)].total_uses < usize::MAX,
        is_positive.ensures((fb.rating,), true) ==> with_metric(before, fb.skill_id, zero)[metric_position(
            before,
            fb.skill_id,
        )].successful_uses < usize::MAX,
    ensures
        ({
            let i = metric_position(before, fb.skill_id);
            let m = with_metric(before, fb.skill_id, zero)[i];
            &&& after.len() == with_metric(before, fb.skill_id, zero).len()
            &&& after[i].skill_id == fb.skill_id
            &&& after[i].total_uses == m.total_uses + 1
            &&& m.successful_uses <= after[i].successful_uses <= m.successful_uses + 1
            &&& after[i].last_used == fb.timestamp
            &&& forall|k: int| 0 <= k < before.len() && k != i ==> #[trigger] after[k] == before[k]
        }),
{
    lemma_first_index_facts(before, metric_of_skill(fb.skill_id));
}

/// Whether the pattern store `st` has a pattern with identifier `id` that was seen at least
/// `min` times and whose confidence `at_least` finds no lower than `threshold`.
pub open spec fn frequent_source<S, T: Fn(S, S) -> bool>(st: Seq<PatternView<S>>, id: Seq<char>, min: nat, threshold: S, at_least: T) -> bool {
    exists|k: int|
        0 <= k < st.len() && #[trigger] st[k].id == id && st[k].occurrences >= min && at_least.ensures(
            (st[k].confidence.score, threshold),
            true,
        )
}

/// A skill is generated only when its patterns were observed often enough: every pattern a
/// generated skill comes from is a stored pattern seen at least the threshold number of
/// times, with a confidence that qualifies.
pub proof fn law_skills_from_frequent_patterns<S, T: Fn(S, S) -> bool, M: Fn(Vec<S>) -> S>(
    rv: Seq<SkillView<S>>,
    st: Seq<PatternView<S>>,
    min: nat,
    threshold: S,
    at_least: T,
    mean_of: M,
)
    requires
        generated_from(rv, keep(st, seen_at_least(min)), threshold, at_least, mean_of),
    ensures
        forall|i: int, j: int|
            0 <= i < rv.len() && 0 <= j < rv[i].source_patterns.len() ==> frequent_source(
                st,
                #[trigger] rv[i].source_patterns[j],
                min,
                threshold,
                at_least,
            ),
{
    let ps = keep(st, seen_at_least(min));
    let tp = qualifies(PatternType::ToolSequence, threshold, at_least);
    let cp = qualifies(PatternType::CommandPattern, threshold, at_least);
    let tools = keep(ps, tp);
    let cq = keep(ps, cp);
    let commands = keep(cq, has_key());
    let w: int = if tools.len() >= 2 { 1 } else { 0 };
    lemma_keep_members(st, seen_at_least(min));
    lemma_keep_members(ps, tp);
    lemma_keep_members(ps, cp);
    lemma_keep_members(cq, has_key());
    assert forall|i: int, j: int| 0 <= i < rv.len() && 0 <= j < rv[i].source_patterns.len() implies frequent_source(
        st,
        #[trigger] rv[i].source_patterns[j],
        min,
        threshold,
        at_least,
    ) by {
        let p = if i < w {
            assert(rv[0].source_patterns[j] == tools[j].id);
            tools[j]
        } else {
            assert(rv[i] == crate::generator::command_skill(commands[i - w], rv[i].created_at));
            assert(cq.contains(commands[i - w]));
            commands[i - w]
        };
        assert(ps.contains(p));
        let a = choose|a: int| 0 <= a < ps.len() && ps[a] == p;
        assert(st.contains(ps[a]));
        let k = choose|k: int| 0 <= k < st.len() && st[k] == ps[a];
        assert(st[k].id == rv[i].source_patterns[j]);
    }
}

/// Whether no skill of `st` has more successful executions than executions.
pub open spec fn successes_within_executions<S>(st: Seq<SkillView<S>>) -> bool {
    forall|k: int| 0 <= k < st.len() ==> #[trigger] st[k].success_count <= st[k].times_executed
}

/// No skill ever has more successful executions than executions: counting an execution,
/// a suggestion or an acceptance keeps it so. (The execution counter is taken below its
/// largest value, as counting an execution requires.)
pub proof fn law_successes_within_executions<S>(st: Seq<SkillView<S>>, id: Seq<char>, success: bool)
    requires
        successes_within_executions(st),
        first_index(st, skill_id_is(id)) >= 0 ==> st[first_index(st, skill_id_is(id))].times_executed < usize::MAX,
    ensures
        successes_within_executions(executed(st, id, success)),
        successes_within_executions(suggested(st, id)),
        successes_within_executions(accepted(st, id)),
{
    lemma_first_index_facts(st, skill_id_is(id));
}

/// Raising the threshold keeps fewer patterns: when every score that `at_least` finds no lower
/// than `higher` it also finds no lower than `lower` (as `>=` does for `lower <= higher`), the
/// patterns confident at `higher` are those confident at `lower` that are also confident at
/// `higher`, in store order.
pub proof fn law_higher_threshold_keeps_fewer<S, F: Fn(S, S) -> bool>(
    st: Seq<PatternView<S>>,
    lower: S,
    higher: S,
    at_least: F,
)
    requires
        forall|s: S| #[trigger] at_least.ensures((s, higher), true) ==> at_least.ensures((s, lower), true),
    ensures
        keep(st, confident_at(higher, at_least)) == keep(keep(st, confident_at(lower, at_least)), confident_at(higher, at_least)),
{
    lemma_keep_keep(st, confident_at(lower, at_least), confident_at(higher, at_least));
    assert(both(confident_at(lower, at_least), confident_at(higher, at_least)) =~= confident_at(higher, at_least));
}

/// Whether `r` is the adjustment of the skill `id` for a context of similarity `similarity`:
/// what `adjust` gives for the skill's usage, or `neutral` when it has no metric.
pub open spec fn adjustment_is<S, A: Fn((usize, usize, S, u64), S) -> S>(
    metrics: Seq<MetricView<S>>,
    id: Seq<char>,
    similarity: S,
    adjust: A,
    neutral: S,
    r: S,
) -> bool {
    match usage_for(metrics, id) {
        Some(u) => adjust.ensures((u, similarity), r),
        None => r == neutral,
    }
}

/// The adjustment of a skill rises with the similarity as `adjust` does: without a metric it
/// is `neutral` whatever the similarity, and with one, when `adjust` keeps the order `le` in
/// the similarity (as the weighted sum with its steps does for `<=`), a more similar context
/// gets an adjustment no lower.
pub proof fn law_adjustment_rises_with_similarity<S, A: Fn((usize, usize, S, u64), S) -> S>(
    metrics: Seq<MetricView<S>>,
    id: Seq<char>,
    s1: S,
    s2: S,
    adjust: A,
    neutral: S,
    r1: S,
    r2: S,
    le: spec_fn(S, S) -> bool,
)
    requires
        adjustment_is(metrics, id, s1, adjust, neutral, r1),
        adjustment_is(metrics, id, s2, adjust, neutral, r2),
        le(s1, s2),
        le(neutral, neutral),
        forall|u: (usize, usize, S, u64), a: S, b: S, x: S, y: S|
            le(a, b) && #[trigger] adjust.ensures((u, a), x) && #[trigger] adjust.ensures((u, b), y) ==> le(x, y),
    ensures
        le(r1, r2),
        usage_for(metrics, id) is None ==> r1 == neutral && r2 == neutral,
{
}

} // verus!

verus! {

/// `word_after_from` finds the word after the first word equal to `kw` with a word after it.
proof fn lemma_word_after_first(ws: Seq<Seq<char>>, kw: Seq<char>, i: int, j: nat)
    requires
        j <= i,
        i + 1 < ws.len(),
        ws[i] == kw,
        forall|m: int| j <= m < i ==> ws[m] != kw,
    ensures
        word_after_from(ws, kw, j) == Some(ws[i + 1]),
    decreases i - j,
{
    if j < i {
        lemma_word_after_first(ws, kw, i, j + 1);
    }
}

/// What `word_after_from` finds follows a word equal to `kw`.
proof fn lemma_word_after_follows(ws: Seq<Seq<char>>, kw: Seq<char>, j: nat)
    requires
        word_after_from(ws, kw, j) is Some,
    ensures
        exists|i: int| j <= i && i + 1 < ws.len() && #[trigger] ws[i] == kw && ws[i + 1] == word_after_from(ws, kw, j)->0,
    decreases ws.len() - j,
{
    if !(ws[j as int] == kw && j + 1 < ws.len()) {
        lemma_word_after_follows(ws, kw, j + 1);
    }
}

/// The commands announced by the first keywords are among those announced by all of them.
proof fn lemma_commands_prefix(lower: Seq<char>, kws: Seq<Seq<char>>, j: int)
    requires
        0 <= j <= kws.len(),
    ensures
        forall|x: Seq<char>| #[trigger] commands_for_keywords(lower, kws.take(j)).contains(x) ==> commands_for_keywords(lower, kws).contains(x),
    decreases kws.len(),
{
    if j < kws.len() {
        let t = kws.drop_last();
        assert(t.take(j) =~= kws.take(j));
        lemma_commands_prefix(lower, t, j);
        let r = commands_for_keywords(lower, t);
        assert forall|x: Seq<char>| r.contains(x) implies commands_for_keywords(lower, kws).contains(x) by {
            let k = choose|k: int| 0 <= k < r.len() && r[k] == x;
            assert(commands_for_keywords(lower, kws)[k] == x);
        }
    } else {
        assert(kws.take(j) =~= kws);
    }
}

/// Each command announced by keywords is the word after one of them that occurs in the text,
/// and there are no more commands than keywords.
proof fn lemma_commands_from_keywords(lower: Seq<char>, kws: Seq<Seq<char>>)
    ensures
        commands_for_keywords(lower, kws).len() <= kws.len(),
        forall|x: Seq<char>| #[trigger] commands_for_keywords(lower, kws).contains(x) ==> exists|t: int|
            0 <= t < kws.len() && contains(lower, kws[t]) && #[trigger] word_after_from(words(lower), kws[t], 0) == Some(x),
    decreases kws.len(),
{
    if kws.len() > 0 {
        let t = kws.drop_last();
        lemma_commands_from_keywords(lower, t);
        let r = commands_for_keywords(lower, t);
        assert forall|x: Seq<char>| #[trigger] commands_for_keywords(lower, kws).contains(x) implies exists|m: int|
            0 <= m < kws.len() && contains(lower, kws[m]) && #[trigger] word_after_from(words(lower), kws[m], 0) == Some(x) by {
            let c = commands_for_keywords(lower, kws);
            let k = choose|k: int| 0 <= k < c.len() && c[k] == x;
            if k < r.len() {
                assert(r[k] == x);
                assert(r.contains(x));
                let m = choose|m: int| 0 <= m < t.len() && contains(lower, t[m]) && #[trigger] word_after_from(words(lower), t[m], 0) == Some(x);
                assert(kws[m] == t[m]);
            } else {
                assert(kws[kws.len() - 1] == kws.last());
            }
        }
    }
}

/// The commands named in a context are the words that follow the keywords `bash`, `shell`,
/// `exec`, `run`, `execute` and `cmd` in it, taken in lower case, one for each of these
/// keywords that announces one, in that order of keywords: for each of these words
/// that occurs in the context, the word after its first occurrence as a word (with a word
/// after it) is a command; every command is the word right after one of these keywords; and
/// there are at most six commands. For the context `execute deploy.sh` the one command is
/// `deploy.sh`.
pub proof fn law_commands_follow_keywords(context: Seq<char>)
    ensures
        ({
            let lower = lowercase(context);
            let ws = words(lower);
            &&& commands_in(context) == commands_for_keywords(
                lower,
                seq!["bash"@, "shell"@, "exec"@, "run"@, "execute"@, "cmd"@],
            )
            &&& commands_in(context).len() <= 6
            &&& forall|i: int|
                0 <= i && i + 1 < ws.len() && (#[trigger] ws[i] == "bash"@ || ws[i] == "shell"@ || ws[i] == "exec"@
                    || ws[i] == "run"@ || ws[i] == "execute"@ || ws[i] == "cmd"@) && contains(lower, ws[i]) && (forall|m: int|
                    0 <= m < i ==> ws[m] != ws[i]) ==> commands_in(context).contains(ws[i + 1])
            &&& forall|x: Seq<char>| #[trigger] commands_in(context).contains(x) ==> exists|i: int|
                0 <= i && i + 1 < ws.len() && (#[trigger] ws[i] == "bash"@ || ws[i] == "shell"@ || ws[i] == "exec"@
                    || ws[i] == "run"@ || ws[i] == "execute"@ || ws[i] == "cmd"@) && contains(lower, ws[i]) && ws[i + 1] == x
        }),
{
    let lower = lowercase(context);
    let ws = words(lower);
    let kws = command_keywords();
    lemma_commands_from_keywords(lower, kws);
    assert forall|i: int|
        0 <= i && i + 1 < ws.len() && (#[trigger] ws[i] == "bash"@ || ws[i] == "shell"@ || ws[i] == "exec"@
            || ws[i] == "run"@ || ws[i] == "execute"@ || ws[i] == "cmd"@) && contains(lower, ws[i]) && (forall|m: int|
            0 <= m < i ==> ws[m] != ws[i]) implies commands_in(context).contains(ws[i + 1]) by {
        let kw = ws[i];
        let t: int = if kw == "bash"@ {
            0
        } else if kw == "shell"@ {
            1
        } else if kw == "exec"@ {
            2
        } else if kw == "run"@ {
            3
        } else if kw == "execute"@ {
            4
        } else {
            5
        };
        assert(kws[t] == kw);
        lemma_word_after_first(ws, kw, i, 0);
        let pre = kws.take(t + 1);
        assert(pre.drop_last() =~= kws.take(t));
        assert(pre.last() == kw);
        assert(commands_for_keywords(lower, pre).last() == ws[i + 1]);
        assert(commands_for_keywords(lower, pre).contains(ws[i + 1]));
        lemma_commands_prefix(lower, kws, t + 1);
    }
    assert forall|x: Seq<char>| #[trigger] commands_in(context).contains(x) implies exists|i: int|
        0 <= i && i + 1 < ws.len() && (#[trigger] ws[i] == "bash"@ || ws[i] == "shell"@ || ws[i] == "exec"@
            || ws[i] == "run"@ || ws[i] == "execute"@ || ws[i] == "cmd"@) && contains(lower, ws[i]) && ws[i + 1] == x by {
        let t = choose|t: int|
            0 <= t < kws.len() && contains(lower, kws[t]) && #[trigger] word_after_from(words(lower), kws[t], 0) == Some(x);
        lemma_word_after_follows(ws, kws[t], 0);
        let i = choose|i: int| 0 <= i && i + 1 < ws.len() && #[trigger] ws[i] == kws[t] && ws[i + 1] == x;
        assert(ws[i] == kws[t]);
    }
}

} // verus!

verus! {

/// A skill matches a context when any of its triggers, the first or a later one, in lower case
/// occurs in the lower-case context: a skill not accepted yet that `worth` finds worth
/// suggesting is then among the skills offered for the context, and in a ranking for the
/// context its score is the one `score_of` gives with the trigger mentioned.
pub proof fn law_any_trigger_matches<
    S,
    W: Fn(usize, usize, usize, usize, S) -> bool,
    C: Fn(S, Option<S>, bool, Option<(usize, usize, S, u64)>) -> S,
>(
    skills: Seq<SkillView<S>>,
    context: Seq<char>,
    worth: W,
    j: int,
    k: int,
    adjustments: Seq<(Seq<char>, S)>,
    metrics: Seq<MetricView<S>>,
    score_of: C,
    score: S,
)
    requires
        0 <= j < skills.len(),
        0 <= k < skills[j].template.trigger_patterns.len(),
        contains(lowercase(context), lowercase(skills[j].template.trigger_patterns[k])),
    ensures
        mentions_trigger(lowercase(context), skills[j].template.trigger_patterns),
        skills[j].times_accepted == 0 && worth.ensures(
            (
                skills[j].times_suggested,
                skills[j].times_accepted,
                skills[j].times_executed,
                skills[j].success_count,
                skills[j].confidence,
            ),
            true,
        ) ==> keep(skills, suggestible(context, worth)).contains(skills[j]),
        scored_for(skills[j], context, adjustments, metrics, score_of, score) ==> score_of.ensures(
            (skills[j].confidence, adjustment_for(adjustments, skills[j].id), true, usage_for(metrics, skills[j].id)),
            score,
        ),
{
    let ts = skills[j].template.trigger_patterns;
    assert(contains(lowercase(context), lowercase(ts[k])));
    assert(mentions_trigger(lowercase(context), ts));
    if skills[j].times_accepted == 0 && worth.ensures(
        (
            skills[j].times_suggested,
            skills[j].times_accepted,
            skills[j].times_executed,
            skills[j].success_count,
            skills[j].confidence,
        ),
        true,
    ) {
        lemma_keep_contains(skills, suggestible(context, worth), j);
    }
}

} // verus!

verus! {

/// The recommendations for a context are the first `limit` suggestions for it, best first:
/// there are as many as `limit` allows, each is the skill and score of the suggestion at its
/// place, and recommending more only adds to the end of what recommending fewer gives.
pub proof fn law_recommendations_lead_suggestions<S>(suggestions: Seq<SuggestionView<S>>, limit: nat, more: nat)
    requires
        limit <= more,
    ensures
        recommendations(suggestions, limit).len() == if limit < suggestions.len() {
            limit
        } else {
            suggestions.len()
        },
        forall|i: int|
            0 <= i < recommendations(suggestions, limit).len() ==> #[trigger] recommendations(suggestions, limit)[i] == (
                suggestions[i].skill,
                suggestions[i].confidence,
            ),
        recommendations(suggestions, limit) == recommendations(suggestions, more).take(
            recommendations(suggestions, limit).len() as int,
        ),
{
    assert(recommendations(suggestions, limit) =~= recommendations(suggestions, more).take(
        recommendations(suggestions, limit).len() as int,
    ));
}

/// Whether the skill `s` has a metric among `metrics`.
pub open spec fn has_metric_in<S>(metrics: Seq<MetricView<S>>) -> spec_fn(SkillView<S>) -> bool {
    |s: SkillView<S>| exists|i: int| 0 <= i < metrics.len() && #[trigger] metrics[i].skill_id == s.id
}

/// The first metric of `s` among `metrics`.
pub open spec fn first_metric<S>(metrics: Seq<MetricView<S>>, s: SkillView<S>) -> MetricView<S> {
    metrics[first_index(metrics, metric_of_skill(s.id))]
}

/// The top skills listed with their metrics are exactly those of the top skills that have a
/// metric, in top order, each with its (first) metric, whatever the skills ranked before it:
/// a skill without a metric is skipped and does not stop the listing.
pub proof fn law_top_skills_keep_those_with_metrics<S>(top: Seq<SkillView<S>>, metrics: Seq<MetricView<S>>)
    ensures
        with_metrics(top, metrics) == keep(top, has_metric_in(metrics)).map_values(
            |s: SkillView<S>| (s, first_metric(metrics, s)),
        ),
        forall|k: int|
            0 <= k < top.len() && has_metric_in(metrics)(#[trigger] top[k]) ==> with_metrics(top, metrics).contains(
                (top[k], first_metric(metrics, top[k])),
            ),
    decreases top.len(),
{
    let f = |s: SkillView<S>| (s, first_metric(metrics, s));
    if top.len() > 0 {
        let t = top.drop_last();
        law_top_skills_keep_those_with_metrics(t, metrics);
        let s = top.last();
        lemma_first_index_facts(metrics, metric_of_skill(s.id));
        lemma_keep_push(t, s, has_metric_in(metrics));
        assert(t.push(s) =~= top);
        if has_metric_in(metrics)(s) {
            let i = choose|i: int| 0 <= i < metrics.len() && #[trigger] metrics[i].skill_id == s.id;
            assert(metric_of_skill(s.id)(metrics[i]));
            assert(keep(t, has_metric_in(metrics)).push(s).map_values(f) =~= keep(t, has_metric_in(metrics)).map_values(
                f,
            ).push(f(s)));
        } else {
            assert forall|i: int| 0 <= i < metrics.len() implies !metric_of_skill::<S>(s.id)(metrics[i]) by {
                if metric_of_skill::<S>(s.id)(metrics[i]) {
                    assert(metrics[i].skill_id == s.id);
                }
            }
        }
    }
    let wm = with_metrics(top, metrics);
    let kept = keep(top, has_metric_in(metrics));
    assert forall|k: int|
        0 <= k < top.len() && has_metric_in(metrics)(#[trigger] top[k]) implies wm.contains(
            (top[k], first_metric(metrics, top[k])),
        ) by {
        lemma_keep_contains(top, has_metric_in(metrics), k);
        let m = choose|m: int| 0 <= m < kept.len() && kept[m] == top[k];
        assert(wm[m] == f(kept[m]));
    }
}

} // verus!

verus! {

/// Whether `w` ends with one of the endings of source and documentation files: `.rs`, `.py`,
/// `.js`, `.ts`, `.go` or `.md`.
pub open spec fn has_code_ending(w: Seq<char>) -> bool {
    ||| ends_with(w, ".rs"@)
    ||| ends_with(w, ".py"@)
    ||| ends_with(w, ".js"@)
    ||| ends_with(w, ".ts"@)
    ||| ends_with(w, ".go"@)
    ||| ends_with(w, ".md"@)
}

/// A word with such an ending whose fourth character from the end is not `/` has a file name
/// longer than the ending.
proof fn lemma_long_file_name(w: Seq<char>)
    requires
        has_code_ending(w),
        w.len() >= 4,
        w[w.len() - 4] != '/',
    ensures
        last_segment(w).len() >= 4,
{
    reveal_strlit(".rs");
    reveal_strlit(".py");
    reveal_strlit(".js");
    reveal_strlit(".ts");
    reveal_strlit(".go");
    reveal_strlit(".md");
    let n = w.len() as int;
    assert(w.subrange(n - 3, n)[0] == w[n - 3]);
    assert(w.subrange(n - 3, n)[1] == w[n - 2]);
    assert(w.subrange(n - 3, n)[2] == w[n - 1]);
    let w1 = w.drop_last();
    let w2 = w1.drop_last();
    let w3 = w2.drop_last();
    assert(w.last() == w[n - 1]);
    assert(w1.last() == w[n - 2]);
    assert(w2.last() == w[n - 3]);
    assert(w3.last() == w[n - 4]);
    assert(last_segment(w) == last_segment(w1).push(w[n - 1]));
    assert(last_segment(w1) == last_segment(w2).push(w[n - 2]));
    assert(last_segment(w2) == last_segment(w3).push(w[n - 3]));
    assert(last_segment(w3) == last_segment(w3.drop_last()).push(w[n - 4]));
}

/// A word names a code file exactly when it ends with `.rs`, `.py`, `.js`, `.ts`, `.go` or
/// `.md`. Among words, the extensions counted are those of the words that name code files:
/// every such word gives its extension, which for a file name longer than its ending (a word
/// whose fourth character from the end is not `/`) is the two letters after the final `.`,
/// and nothing else is counted. So the words of `edit app.js` give `js`.
pub proof fn law_code_files_by_ending(ws: Seq<Seq<char>>)
    ensures
        forall|w: Seq<char>| #[trigger] names_code_file(w) == has_code_ending(w),
        forall|j: int|
            0 <= j < ws.len() && has_code_ending(#[trigger] ws[j]) ==> extensions_in(ws).contains(extension_or_star(ws[j])),
        forall|j: int|
            0 <= j < ws.len() && has_code_ending(#[trigger] ws[j]) && ws[j].len() >= 4 && ws[j][ws[j].len() - 4] != '/'
                ==> extension_or_star(ws[j]) == ws[j].subrange(ws[j].len() - 2, ws[j].len() as int),
        forall|x: Seq<char>| #[trigger] extensions_in(ws).contains(x) ==> exists|j: int|
            0 <= j < ws.len() && has_code_ending(#[trigger] ws[j]) && x == extension_or_star(ws[j]),
{
    let f = |w: Seq<char>| if names_code_file(w) { seq![extension_or_star(w)] } else { seq![] };
    assert(extensions_in(ws) == flat_map(ws, f));
    assert forall|j: int| 0 <= j < ws.len() && has_code_ending(#[trigger] ws[j]) implies extensions_in(ws).contains(
        extension_or_star(ws[j]),
    ) by {
        assert(f(ws[j])[0] == extension_or_star(ws[j]));
        lemma_flat_map_contains(ws, f, j, extension_or_star(ws[j]));
    }
    assert forall|j: int|
        0 <= j < ws.len() && has_code_ending(#[trigger] ws[j]) && ws[j].len() >= 4 && ws[j][ws[j].len() - 4] != '/'
            implies extension_or_star(ws[j]) == ws[j].subrange(ws[j].len() - 2, ws[j].len() as int) by {
        lemma_long_file_name(ws[j]);
    }
    assert forall|x: Seq<char>| #[trigger] extensions_in(ws).contains(x) implies exists|j: int|
        0 <= j < ws.len() && has_code_ending(#[trigger] ws[j]) && x == extension_or_star(ws[j]) by {
        lemma_flat_map_from(ws, f, x);
        let j = choose|j: int| 0 <= j < ws.len() && #[trigger] f(ws[j]).contains(x);
        if !names_code_file(ws[j]) {
            assert(f(ws[j]).len() == 0);
        }
        assert(f(ws[j]).len() == 1);
        assert(f(ws[j])[0] == x);
    }
}

} // verus!

verus! {

/// Every skill offered for a context is one of the skills, not accepted yet, found worth
/// suggesting by `worth`, and fitting the context: one of its triggers (any of them), in lower
/// case, occurs in the lower-case context, or its lower-case description contains the
/// lower-case context.
pub proof fn law_offered_skills_fit<S, W: Fn(usize, usize, usize, usize, S) -> bool>(
    skills: Seq<SkillView<S>>,
    context: Seq<char>,
    worth: W,
)
    ensures
        forall|s: SkillView<S>| #[trigger] keep(skills, suggestible(context, worth)).contains(s) ==> {
            &&& skills.contains(s)
            &&& s.times_accepted == 0
            &&& worth.ensures((s.times_suggested, s.times_accepted, s.times_executed, s.success_count, s.confidence), true)
            &&& (exists|k: int|
                0 <= k < s.template.trigger_patterns.len() && contains(
                    lowercase(context),
                    lowercase(#[trigger] s.template.trigger_patterns[k]),
                )) || contains(lowercase(s.template.description), lowercase(context))
        },
{
    let kept = keep(skills, suggestible(context, worth));
    lemma_keep_members(skills, suggestible(context, worth));
    assert forall|s: SkillView<S>| #[trigger] kept.contains(s) implies {
        &&& skills.contains(s)
        &&& s.times_accepted == 0
        &&& worth.ensures((s.times_suggested, s.times_accepted, s.times_executed, s.success_count, s.confidence), true)
        &&& (exists|k: int|
            0 <= k < s.template.trigger_patterns.len() && contains(
                lowercase(context),
                lowercase(#[trigger] s.template.trigger_patterns[k]),
            )) || contains(lowercase(s.template.description), lowercase(context))
    } by {
        let m = choose|m: int| 0 <= m < kept.len() && kept[m] == s;
        assert(suggestible(context, worth)(kept[m]));
        assert(fits_context(s, context));
    }
}

} // verus!
