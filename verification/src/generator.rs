//! Skills generated from patterns: a workflow from several tool sequences, or a skill that
//! runs a frequent command; and the generator that keeps them with their usage counters.
//!
//! Scores (`S`) are computed, averaged and compared by functions the caller passes in.

use vstd::prelude::*;
use crate::experience::{clone_opt_string, opt_str};
use crate::pattern::{Pattern, PatternType, PatternView, concat, pattern_views, tool_keys};
use crate::seqs::{
    first_index, first_occurrences, flat_map, keep, keyed_positions, lemma_first_index, lemma_first_occurrences_push,
    lemma_keep_members, lemma_keep_push, lemma_sum_prefix, lemma_sum_push, positions_by_key_desc, sort_desc, sum_of,
};
use crate::feedback::rate_or_zero;
use crate::stamps::utc_now_secs;
use crate::text::{
    char_seqs, chars_of, clone_strings, contains, decimal, decimal_string, join, join_strings, lowercase, owned,
    replace_char, replace_char_in, split_words, str_eq, string_from_chars, strs, to_lower, words,
};

verus! {

/// One step of a skill.
#[derive(Debug, Clone)]
pub struct SkillStep {
    pub order: usize,
    pub action: String,
    pub tool_hint: Option<String>,
    pub description: String,
}

/// A step with its strings taken as character sequences.
pub struct StepView {
    pub order: usize,
    pub action: Seq<char>,
    pub tool_hint: Option<Seq<char>>,
    pub description: Seq<char>,
}

impl View for SkillStep {
    type V = StepView;

    open spec fn view(&self) -> StepView {
        StepView {
            order: self.order,
            action: self.action@,
            tool_hint: opt_str(self.tool_hint),
            description: self.description@,
        }
    }
}

/// The views of a sequence of steps.
pub open spec fn step_views(v: Seq<SkillStep>) -> Seq<StepView> {
    v.map_values(|s: SkillStep| s@)
}

impl SkillStep {
    /// A copy of this step.
    pub fn duplicate(&self) -> (s: Self)
        ensures
            s@ == self@,
    {
        SkillStep {
            order: self.order,
            action: self.action.clone(),
            tool_hint: clone_opt_string(&self.tool_hint),
            description: self.description.clone(),
        }
    }
}

/// Copies a vector of steps.
pub fn clone_steps(v: &Vec<SkillStep>) -> (r: Vec<SkillStep>)
    ensures
        step_views(r@) == step_views(v@),
{
    let mut r: Vec<SkillStep> = Vec::new();
    let mut i: usize = 0;
    while i < v.len()
        invariant
            i <= v.len(),
            step_views(r@) == step_views(v@.take(i as int)),
        decreases v.len() - i,
    {
        let ghost before = step_views(r@);
        r.push(v[i].duplicate());
        assert(step_views(r@) =~= before.push(v@[i as int]@));
        assert(step_views(v@.take(i + 1)) =~= step_views(v@.take(i as int)).push(v@[i as int]@));
        i += 1;
    }
    assert(v@.take(v.len() as int) =~= v@);
    r
}

/// What a skill is and how it runs.
#[derive(Debug, Clone)]
pub struct SkillTemplate<S> {
    pub name: String,
    pub description: String,
    pub category: String,
    pub trigger_patterns: Vec<String>,
    pub recommended_tools: Vec<String>,
    pub steps: Vec<SkillStep>,
    pub success_rate: S,
    pub avg_duration_ms: u64,
}

/// A template with its strings taken as character sequences.
pub struct TemplateView<S> {
    pub name: Seq<char>,
    pub description: Seq<char>,
    pub category: Seq<char>,
    pub trigger_patterns: Seq<Seq<char>>,
    pub recommended_tools: Seq<Seq<char>>,
    pub steps: Seq<StepView>,
    pub success_rate: S,
    pub avg_duration_ms: u64,
}

impl<S> View for SkillTemplate<S> {
    type V = TemplateView<S>;

    open spec fn view(&self) -> TemplateView<S> {
        TemplateView {
            name: self.name@,
            description: self.description@,
            category: self.category@,
            trigger_patterns: strs(self.trigger_patterns@),
            recommended_tools: strs(self.recommended_tools@),
            steps: step_views(self.steps@),
            success_rate: self.success_rate,
            avg_duration_ms: self.avg_duration_ms,
        }
    }
}

impl<S: Copy> SkillTemplate<S> {
    /// A copy of this template.
    pub fn duplicate(&self) -> (t: Self)
        ensures
            t@ == self@,
    {
        SkillTemplate {
            name: self.name.clone(),
            description: self.description.clone(),
            category: self.category.clone(),
            trigger_patterns: clone_strings(&self.trigger_patterns),
            recommended_tools: clone_strings(&self.recommended_tools),
            steps: clone_steps(&self.steps),
            success_rate: self.success_rate,
            avg_duration_ms: self.avg_duration_ms,
        }
    }
}

/// A generated skill and how it has fared: how often it was suggested, accepted and
/// executed, and how many executions succeeded.
#[derive(Debug, Clone)]
pub struct GeneratedSkill<S> {
    pub id: String,
    pub template: SkillTemplate<S>,
    pub source_patterns: Vec<String>,
    pub confidence: S,
    pub created_at: u64,
    pub times_suggested: usize,
    pub times_accepted: usize,
    pub times_executed: usize,
    pub success_count: usize,
}

/// A generated skill with its strings taken as character sequences.
pub struct SkillView<S> {
    pub id: Seq<char>,
    pub template: TemplateView<S>,
    pub source_patterns: Seq<Seq<char>>,
    pub confidence: S,
    pub created_at: u64,
    pub times_suggested: usize,
    pub times_accepted: usize,
    pub times_executed: usize,
    pub success_count: usize,
}

impl<S> View for GeneratedSkill<S> {
    type V = SkillView<S>;

    open spec fn view(&self) -> SkillView<S> {
        SkillView {
            id: self.id@,
            template: self.template@,
            source_patterns: strs(self.source_patterns@),
            confidence: self.confidence,
            created_at: self.created_at,
            times_suggested: self.times_suggested,
            times_accepted: self.times_accepted,
            times_executed: self.times_executed,
            success_count: self.success_count,
        }
    }
}

/// The views of a sequence of skills.
pub open spec fn skill_views<S>(v: Seq<GeneratedSkill<S>>) -> Seq<SkillView<S>> {
    v.map_values(|s: GeneratedSkill<S>| s@)
}

impl<S: Copy> GeneratedSkill<S> {
    /// A copy of this skill.
    pub fn duplicate(&self) -> (s: Self)
        ensures
            s@ == self@,
    {
        GeneratedSkill {
            id: self.id.clone(),
            template: self.template.duplicate(),
            source_patterns: clone_strings(&self.source_patterns),
            confidence: self.confidence,
            created_at: self.created_at,
            times_suggested: self.times_suggested,
            times_accepted: self.times_accepted,
            times_executed: self.times_executed,
            success_count: self.success_count,
        }
    }
}

} // verus!

verus! {

/// The last word of `s`, or all of `s` when it has no words.
pub open spec fn last_word_or_all(s: Seq<char>) -> Seq<char> {
    if words(s).len() > 0 {
        words(s).last()
    } else {
        s
    }
}

/// The skill that runs the command of the pattern `p` (whose first key element is the
/// command), created at `created_at`.
pub open spec fn command_skill<S>(p: PatternView<S>, created_at: u64) -> SkillView<S> {
    let command = p.key_elements[0];
    let name = last_word_or_all(command);
    SkillView {
        id: "gen_cmd_"@ + lowercase(name),
        template: TemplateView {
            name: "run_"@ + name,
            description: p.description,
            category: "generated"@,
            trigger_patterns: seq!["run "@ + name, "execute "@ + name, name],
            recommended_tools: seq![command],
            steps: seq![
                StepView {
                    order: 1,
                    action: "Execute: "@ + command,
                    tool_hint: Some("terminal"@),
                    description: "Run the "@ + name + " command"@,
                },
            ],
            success_rate: p.success_rate,
            avg_duration_ms: p.average_duration_ms,
        },
        source_patterns: seq![p.id],
        confidence: p.confidence.score,
        created_at,
        times_suggested: 0,
        times_accepted: 0,
        times_executed: 0,
        success_count: 0,
    }
}

/// The last word of `s`, or all of `s` when it has no words.
fn last_word_of(s: &String) -> (r: String)
    ensures
        r@ == last_word_or_all(s@),
{
    let cs = chars_of(s.as_str());
    let ws = split_words(cs.as_slice());
    if ws.len() > 0 {
        let last = ws.len() - 1;
        assert(char_seqs(ws@)[last as int] == ws@[last as int]@);
        string_from_chars(ws[last].as_slice())
    } else {
        s.clone()
    }
}

/// Three strings.
fn three_strings(a: String, b: String, c: String) -> (r: Vec<String>)
    ensures
        strs(r@) == seq![a@, b@, c@],
{
    let mut r: Vec<String> = Vec::new();
    r.push(a);
    r.push(b);
    r.push(c);
    assert(strs(r@) =~= seq![a@, b@, c@]);
    r
}

/// Two strings.
fn two_strings(a: String, b: String) -> (r: Vec<String>)
    ensures
        strs(r@) == seq![a@, b@],
{
    let mut r: Vec<String> = Vec::new();
    r.push(a);
    r.push(b);
    assert(strs(r@) =~= seq![a@, b@]);
    r
}

/// One string.
fn one_string(a: String) -> (r: Vec<String>)
    ensures
        strs(r@) == seq![a@],
{
    let mut r: Vec<String> = Vec::new();
    r.push(a);
    assert(strs(r@) =~= seq![a@]);
    r
}

impl<S: Copy> SkillGenerator<S> {
    /// The skill that runs the command of `pattern`, or nothing when the pattern has no key
    /// element; the skill is stamped with the current time.
    pub fn create_command_skill(&self, pattern: &Pattern<S>) -> (r: Option<GeneratedSkill<S>>)
        ensures
            r is None <==> pattern.key_elements@.len() == 0,
            r matches Some(s) ==> s@ == command_skill(pattern@, s.created_at),
    {
        if pattern.key_elements.len() == 0 {
            return None;
        }
        let command = &pattern.key_elements[0];
        assert(strs(pattern.key_elements@)[0] == command@);
        let name = last_word_of(command);
        let mut steps: Vec<SkillStep> = Vec::new();
        steps.push(
            SkillStep {
                order: 1,
                action: concat(owned("Execute: "), command.as_str()),
                tool_hint: Some(owned("terminal")),
                description: concat(concat(owned("Run the "), name.as_str()), " command"),
            },
        );
        let template = SkillTemplate {
            name: concat(owned("run_"), name.as_str()),
            description: pattern.description.clone(),
            category: owned("generated"),
            trigger_patterns: three_strings(
                concat(owned("run "), name.as_str()),
                concat(owned("execute "), name.as_str()),
                name.clone(),
            ),
            recommended_tools: one_string(command.clone()),
            steps,
            success_rate: pattern.success_rate,
            avg_duration_ms: pattern.average_duration_ms,
        };
        let lower = to_lower(name.as_str());
        let s = GeneratedSkill {
            id: concat(owned("gen_cmd_"), lower.as_str()),
            template,
            source_patterns: one_string(pattern.id.clone()),
            confidence: pattern.confidence.score,
            created_at: utc_now_secs(),
            times_suggested: 0,
            times_accepted: 0,
            times_executed: 0,
            success_count: 0,
        };
        assert(s@.template.steps =~= command_skill(pattern@, s.created_at).template.steps);
        assert(s@ == command_skill(pattern@, s.created_at));
        Some(s)
    }
}

} // verus!

verus! {

/// A tool name made into a name part: `_`, `-` and spaces become `_`, in lower case.
pub open spec fn workflow_base(tool: Seq<char>) -> Seq<char> {
    lowercase(replace_char(replace_char(replace_char(tool, '_', ' '), '-', ' '), ' ', '_'))
}

/// The name of a workflow over the tools `tools`, after its first tool.
pub open spec fn workflow_name(tools: Seq<Seq<char>>) -> Seq<char> {
    if tools.len() == 0 {
        "unnamed_workflow"@
    } else if tools.len() == 1 {
        "workflow_"@ + workflow_base(tools[0])
    } else {
        workflow_base(tools[0]) + "_workflow"@
    }
}

/// The tools of a sequence of patterns, in order, each once.
pub open spec fn tools_of_patterns<S>(ps: Seq<PatternView<S>>) -> Seq<Seq<char>> {
    first_occurrences(flat_map(ps, |p: PatternView<S>| p.key_elements))
}

/// The step of a workflow for the `i`-th of its patterns, `p`.
pub open spec fn workflow_step<S>(i: int, p: PatternView<S>) -> StepView {
    StepView {
        order: (i + 1) as usize,
        action: "Execute: "@ + join(p.key_elements, " then "@),
        tool_hint: if p.key_elements.len() > 0 {
            Some(p.key_elements[0])
        } else {
            None
        },
        description: p.description,
    }
}

/// The mean of the average durations of patterns, rounded down.
pub open spec fn mean_pattern_duration<S>(ps: Seq<PatternView<S>>) -> u64 {
    (sum_of(ps, |p: PatternView<S>| p.average_duration_ms as nat) / ps.len()) as u64
}

/// The workflow skill over the patterns `ps` (the first of which has a key element),
/// with success rate `success`, confidence `confidence`, created at `created_at`.
pub open spec fn workflow_skill<S>(ps: Seq<PatternView<S>>, success: S, confidence: S, created_at: u64) -> SkillView<S> {
    let first = ps[0];
    let name = workflow_name(first.key_elements);
    SkillView {
        id: "gen_"@ + lowercase(replace_char(name, ' ', '_')),
        template: TemplateView {
            name,
            description: "Workflow for "@ + join(first.key_elements, " + "@) + " tasks (generated from "@ + decimal(
                ps.len(),
            ) + " patterns)"@,
            category: "generated"@,
            trigger_patterns: seq![first.key_elements[0] + " task"@, "work with "@ + join(first.key_elements, " and "@)],
            recommended_tools: tools_of_patterns(ps),
            steps: Seq::new(ps.len(), |i: int| workflow_step(i, ps[i])),
            success_rate: success,
            avg_duration_ms: mean_pattern_duration(ps),
        },
        source_patterns: ps.map_values(|p: PatternView<S>| p.id),
        confidence,
        created_at,
        times_suggested: 0,
        times_accepted: 0,
        times_executed: 0,
        success_count: 0,
    }
}

/// Replaces `_` and `-` by spaces, then spaces by `_`, then lowers the case.
fn name_part(tool: &String) -> (r: String)
    ensures
        r@ == workflow_base(tool@),
{
    let cs = chars_of(tool.as_str());
    let a = replace_char_in(cs.as_slice(), '_', ' ');
    let b = replace_char_in(a.as_slice(), '-', ' ');
    let c = replace_char_in(b.as_slice(), ' ', '_');
    let s = string_from_chars(c.as_slice());
    to_lower(s.as_str())
}

impl<S: Copy> SkillGenerator<S> {
    /// The name of a workflow over `tools`.
    pub fn generate_workflow_name(&self, tools: &Vec<String>) -> (r: String)
        ensures
            r@ == workflow_name(strs(tools@)),
    {
        if tools.len() == 0 {
            return owned("unnamed_workflow");
        }
        assert(strs(tools@)[0] == tools@[0]@);
        let base = name_part(&tools[0]);
        if tools.len() == 1 {
            concat(owned("workflow_"), base.as_str())
        } else {
            concat(base, "_workflow")
        }
    }
}

/// Adds `x` to `seen` unless it is there already.
fn add_if_absent(seen: &mut Vec<String>, x: &String, Ghost(prefix): Ghost<Seq<Seq<char>>>)
    requires
        strs(old(seen)@) == first_occurrences(prefix),
    ensures
        strs(final(seen)@) == first_occurrences(prefix.push(x@)),
{
    proof {
        lemma_first_occurrences_push(prefix, x@);
    }
    let mut j: usize = 0;
    while j < seen.len()
        invariant
            j <= seen@.len(),
            strs(seen@) == first_occurrences(prefix),
            forall|i: int| 0 <= i < j ==> seen@[i]@ != x@,
        decreases seen.len() - j,
    {
        if str_eq(seen[j].as_str(), x.as_str()) {
            assert(strs(seen@)[j as int] == x@);
            assert(first_occurrences(prefix)[j as int] == x@);
            assert(first_occurrences(prefix).contains(x@));
            proof {
                lemma_first_occurrences_push(prefix, x@);
            }
            return;
        }
        j += 1;
    }
    assert(!first_occurrences(prefix).contains(x@)) by {
        if first_occurrences(prefix).contains(x@) {
            let i = choose|i: int| 0 <= i < seen@.len() && strs(seen@)[i] == x@;
            assert(seen@[i]@ == x@);
        }
    }
    let ghost before = strs(seen@);
    seen.push(x.clone());
    assert(strs(seen@) =~= before.push(x@));
    proof {
        lemma_first_occurrences_push(prefix, x@);
    }
}

/// The tools of the patterns, in order, each once.
fn collect_tools<S: Copy>(patterns: &[Pattern<S>]) -> (r: Vec<String>)
    ensures
        strs(r@) == tools_of_patterns(pattern_views(patterns@)),
{
    let ghost pv = pattern_views(patterns@);
    let ghost f = |p: PatternView<S>| p.key_elements;
    let mut seen: Vec<String> = Vec::new();
    let mut i: usize = 0;
    assert(strs(seen@) =~= first_occurrences(flat_map(pv.take(0), f)));
    while i < patterns.len()
        invariant
            i <= patterns@.len(),
            pv == pattern_views(patterns@),
            f == (|p: PatternView<S>| p.key_elements),
            strs(seen@) == first_occurrences(flat_map(pv.take(i as int), f)),
        decreases patterns.len() - i,
    {
        assert(pv.take(i + 1) =~= pv.take(i as int).push(pv[i as int]));
        proof {
            crate::seqs::lemma_flat_map_push(pv.take(i as int), pv[i as int], f);
        }
        let ghost base = flat_map(pv.take(i as int), f);
        let keys = &patterns[i].key_elements;
        assert(pv[i as int].key_elements == strs(keys@));
        let mut t: usize = 0;
        assert(base + strs(keys@).take(0) =~= base);
        while t < keys.len()
            invariant
                t <= keys@.len(),
                strs(seen@) == first_occurrences(base + strs(keys@).take(t as int)),
            decreases keys.len() - t,
        {
            assert(base + strs(keys@).take(t + 1) =~= (base + strs(keys@).take(t as int)).push(keys@[t as int]@));
            add_if_absent(&mut seen, &keys[t], Ghost(base + strs(keys@).take(t as int)));
            t += 1;
        }
        assert(strs(keys@).take(keys@.len() as int) =~= strs(keys@));
        i += 1;
    }
    assert(pv.take(patterns@.len() as int) =~= pv);
    seen
}

} // verus!

verus! {

/// The success rates of patterns.
pub open spec fn success_rates<S>(ps: Seq<PatternView<S>>) -> Seq<S> {
    ps.map_values(|p: PatternView<S>| p.success_rate)
}

/// The confidence scores of patterns.
pub open spec fn confidence_scores<S>(ps: Seq<PatternView<S>>) -> Seq<S> {
    ps.map_values(|p: PatternView<S>| p.confidence.score)
}

/// The average duration of a pattern.
pub open spec fn pattern_duration<S>() -> spec_fn(PatternView<S>) -> nat {
    |p: PatternView<S>| p.average_duration_ms as nat
}

impl<S: Copy> SkillGenerator<S> {
    /// The workflow skill over `patterns`, or nothing when there are none. Its success rate is
    /// what `mean_of` returned for the patterns' success rates, its confidence what it returned
    /// for their confidence scores; the skill is stamped with the current time.
    pub fn create_workflow_skill<M: Fn(Vec<S>) -> S>(&self, patterns: &[Pattern<S>], mean_of: &M) -> (r: Option<
        GeneratedSkill<S>,
    >)
        requires
            forall|v: Vec<S>| mean_of.requires((v,)),
            patterns@.len() > 0 ==> patterns@[0].key_elements@.len() > 0,
            sum_of(pattern_views(patterns@), pattern_duration()) <= u64::MAX,
        ensures
            r is None <==> patterns@.len() == 0,
            r matches Some(s) ==> {
                &&& s@ == workflow_skill(pattern_views(patterns@), s.template.success_rate, s.confidence, s.created_at)
                &&& exists|v: Vec<S>|
                    v@ == success_rates(pattern_views(patterns@)) && #[trigger] mean_of.ensures((v,), s.template.success_rate)
                &&& exists|v: Vec<S>|
                    v@ == confidence_scores(pattern_views(patterns@)) && #[trigger] mean_of.ensures((v,), s.confidence)
            },
    {
        let ghost pv = pattern_views(patterns@);
        let n = patterns.len();
        if n == 0 {
            return None;
        }
        let all_tools = collect_tools(patterns);
        let mut total_duration: u64 = 0;
        let mut rates: Vec<S> = Vec::new();
        let mut scores: Vec<S> = Vec::new();
        let mut ids: Vec<String> = Vec::new();
        let mut steps: Vec<SkillStep> = Vec::new();
        let mut i: usize = 0;
        while i < n
            invariant
                n == patterns@.len(),
                pv == pattern_views(patterns@),
                i <= n,
                sum_of(pv, pattern_duration()) <= u64::MAX,
                total_duration == sum_of(pv.take(i as int), pattern_duration()),
                rates@ == success_rates(pv.take(i as int)),
                scores@ == confidence_scores(pv.take(i as int)),
                strs(ids@) == pv.take(i as int).map_values(|p: PatternView<S>| p.id),
                step_views(steps@) == Seq::new(i as nat, |k: int| workflow_step(k, pv[k])),
            decreases n - i,
        {
            let p = &patterns[i];
            assert(p@ == pv[i as int]);
            assert(pv.take(i + 1) =~= pv.take(i as int).push(pv[i as int]));
            proof {
                crate::seqs::lemma_sum_push(pv.take(i as int), pv[i as int], pattern_duration());
                crate::seqs::lemma_sum_prefix(pv, i + 1, pattern_duration());
            }
            total_duration = total_duration + p.average_duration_ms;
            rates.push(p.success_rate);
            scores.push(p.confidence.score);
            let ghost ids_before = strs(ids@);
            ids.push(p.id.clone());
            assert(strs(ids@) =~= ids_before.push(p.id@));
            let hint = if p.key_elements.len() > 0 {
                assert(strs(p.key_elements@)[0] == p.key_elements@[0]@);
                Some(p.key_elements[0].clone())
            } else {
                None
            };
            let step = SkillStep {
                order: i + 1,
                action: concat(owned("Execute: "), join_strings(&p.key_elements, " then ").as_str()),
                tool_hint: hint,
                description: p.description.clone(),
            };
            let ghost steps_before = step_views(steps@);
            steps.push(step);
            assert(step_views(steps@) =~= steps_before.push(workflow_step(i as int, pv[i as int])));
            assert(step_views(steps@) =~= Seq::new((i + 1) as nat, |k: int| workflow_step(k, pv[k])));
            assert(success_rates(pv.take(i + 1)) =~= success_rates(pv.take(i as int)).push(p.success_rate));
            assert(confidence_scores(pv.take(i + 1)) =~= confidence_scores(pv.take(i as int)).push(p.confidence.score));
            assert(pv.take(i + 1).map_values(|q: PatternView<S>| q.id) =~= pv.take(i as int).map_values(
                |q: PatternView<S>| q.id,
            ).push(p.id@));
            i += 1;
        }
        assert(pv.take(n as int) =~= pv);
        let avg_duration = total_duration / (n as u64);
        let avg_success = mean_of(rates);
        let first = &patterns[0];
        assert(first@ == pv[0]);
        assert(strs(first.key_elements@)[0] == first.key_elements@[0]@);
        let workflow_name = self.generate_workflow_name(&first.key_elements);
        let d1 = concat(owned("Workflow for "), join_strings(&first.key_elements, " + ").as_str());
        let d2 = concat(d1, " tasks (generated from ");
        let d3 = concat(d2, decimal_string(n as u64).as_str());
        let description = concat(d3, " patterns)");
        let triggers = two_strings(
            concat(first.key_elements[0].clone(), " task"),
            concat(owned("work with "), join_strings(&first.key_elements, " and ").as_str()),
        );
        let name_chars = chars_of(workflow_name.as_str());
        let underscored = replace_char_in(name_chars.as_slice(), ' ', '_');
        let lowered = to_lower(string_from_chars(underscored.as_slice()).as_str());
        let id = concat(owned("gen_"), lowered.as_str());
        let template = SkillTemplate {
            name: workflow_name,
            description,
            category: owned("generated"),
            trigger_patterns: triggers,
            recommended_tools: all_tools,
            steps,
            success_rate: avg_success,
            avg_duration_ms: avg_duration,
        };
        let confidence = mean_of(scores);
        let s = GeneratedSkill {
            id,
            template,
            source_patterns: ids,
            confidence,
            created_at: utc_now_secs(),
            times_suggested: 0,
            times_accepted: 0,
            times_executed: 0,
            success_count: 0,
        };
        assert(s@.template.steps =~= workflow_skill(pv, avg_success, confidence, s.created_at).template.steps);
        assert(s@.template.trigger_patterns =~= workflow_skill(pv, avg_success, confidence, s.created_at).template.trigger_patterns);
        assert(s@ == workflow_skill(pv, avg_success, confidence, s.created_at));
        Some(s)
    }
}

} // verus!

verus! {

/// Patterns of kind `t` whose confidence `at_least` finds no lower than `threshold`.
pub open spec fn qualifies<S, T: Fn(S, S) -> bool>(t: PatternType, threshold: S, at_least: T) -> spec_fn(
    PatternView<S>,
) -> bool {
    |p: PatternView<S>| p.pattern_type == t && at_least.ensures((p.confidence.score, threshold), true)
}

/// Patterns with at least one key element.
pub open spec fn has_key<S>() -> spec_fn(PatternView<S>) -> bool {
    |p: PatternView<S>| p.key_elements.len() > 0
}

/// Whether a skill named `name` is among `st`.
pub open spec fn has_skill_named<S>(st: Seq<SkillView<S>>, name: Seq<char>) -> bool {
    exists|i: int| 0 <= i < st.len() && #[trigger] st[i].template.name == name
}

/// The skills `st` after storing each of `gs` whose name is not stored yet.
pub open spec fn store_new_skills<S>(st: Seq<SkillView<S>>, gs: Seq<SkillView<S>>) -> Seq<SkillView<S>>
    decreases gs.len(),
{
    if gs.len() == 0 {
        st
    } else {
        let r = store_new_skills(st, gs.drop_last());
        if has_skill_named(r, gs.last().template.name) {
            r
        } else {
            r.push(gs.last())
        }
    }
}

/// Whether generating skills from `patterns` stays within machine integers and has a tool
/// to name a workflow after: with two or more tool sequences that qualify, the first has a
/// key element and their mean durations add up within `u64`.
pub open spec fn workflow_fits<S, T: Fn(S, S) -> bool>(patterns: Seq<PatternView<S>>, threshold: S, at_least: T) -> bool {
    workflow_keyed(patterns, threshold, at_least) && workflow_durations_fit(patterns, threshold, at_least)
}

/// With two or more tool sequences that qualify, the first has a key element.
pub open spec fn workflow_keyed<S, T: Fn(S, S) -> bool>(patterns: Seq<PatternView<S>>, threshold: S, at_least: T) -> bool {
    let tools = keep(patterns, qualifies(PatternType::ToolSequence, threshold, at_least));
    tools.len() >= 2 ==> tools[0].key_elements.len() > 0
}

/// With two or more tool sequences that qualify, their mean durations add up within `u64`.
pub open spec fn workflow_durations_fit<S, T: Fn(S, S) -> bool>(
    patterns: Seq<PatternView<S>>,
    threshold: S,
    at_least: T,
) -> bool {
    let tools = keep(patterns, qualifies(PatternType::ToolSequence, threshold, at_least));
    tools.len() >= 2 ==> sum_of(tools, pattern_duration()) <= u64::MAX
}

/// When every tool sequence has a key element, so has the first qualifying one.
pub proof fn lemma_workflow_keyed<S, T: Fn(S, S) -> bool>(patterns: Seq<PatternView<S>>, threshold: S, at_least: T)
    requires
        tool_keys(patterns),
    ensures
        workflow_keyed(patterns, threshold, at_least),
{
    let tools = keep(patterns, qualifies(PatternType::ToolSequence, threshold, at_least));
    lemma_keep_members(patterns, qualifies(PatternType::ToolSequence, threshold, at_least));
    if tools.len() >= 2 {
        assert(patterns.contains(tools[0]));
        let k = choose|k: int| 0 <= k < patterns.len() && patterns[k] == tools[0];
        assert(patterns[k].pattern_type == PatternType::ToolSequence);
    }
}

/// `rv` are the skills generated from `patterns`: a workflow over the tool sequences that
/// qualify when there are at least two (its success rate and confidence are what `mean_of`
/// returned for theirs), then a skill for each qualifying command pattern with a key element.
pub open spec fn generated_from<S, T: Fn(S, S) -> bool, M: Fn(Vec<S>) -> S>(
    rv: Seq<SkillView<S>>,
    patterns: Seq<PatternView<S>>,
    threshold: S,
    at_least: T,
    mean_of: M,
) -> bool {
    let tools = keep(patterns, qualifies(PatternType::ToolSequence, threshold, at_least));
    let commands = keep(keep(patterns, qualifies(PatternType::CommandPattern, threshold, at_least)), has_key());
    let w: int = if tools.len() >= 2 { 1 } else { 0 };
    &&& rv.len() == w + commands.len()
    &&& tools.len() >= 2 ==> {
        &&& rv[0] == workflow_skill(tools, rv[0].template.success_rate, rv[0].confidence, rv[0].created_at)
        &&& exists|v: Vec<S>| v@ == success_rates(tools) && #[trigger] mean_of.ensures((v,), rv[0].template.success_rate)
        &&& exists|v: Vec<S>| v@ == confidence_scores(tools) && #[trigger] mean_of.ensures((v,), rv[0].confidence)
    }
    &&& forall|j: int| w <= j < rv.len() ==> #[trigger] rv[j] == command_skill(commands[j - w], rv[j].created_at)
}

/// Whether `at_least` gives one answer for each pair of scores.
pub open spec fn deterministic_test<S, T: Fn(S, S) -> bool>(at_least: T) -> bool {
    forall|a: S, b: S, x: bool, y: bool| at_least.ensures((a, b), x) && at_least.ensures((a, b), y) ==> x == y
}

/// The skills generated so far, and the confidence a pattern needs to yield a skill.
pub struct SkillGenerator<S> {
    generated_skills: Vec<GeneratedSkill<S>>,
    skill_templates: Vec<SkillTemplate<S>>,
    confidence_threshold: S,
}

impl<S: Copy> SkillGenerator<S> {
    /// The generated skills, in order of generation.
    pub closed spec fn skills(&self) -> Seq<SkillView<S>> {
        skill_views(self.generated_skills@)
    }

    /// The confidence a pattern needs to yield a skill.
    pub closed spec fn threshold(&self) -> S {
        self.confidence_threshold
    }

    /// A generator with no skills, for the threshold `confidence_threshold`.
    pub fn new(confidence_threshold: S) -> (g: Self)
        ensures
            g.skills() == Seq::<SkillView<S>>::empty(),
            g.threshold() == confidence_threshold,
    {
        let g = SkillGenerator { generated_skills: Vec::new(), skill_templates: Vec::new(), confidence_threshold };
        assert(g.skills() =~= Seq::<SkillView<S>>::empty());
        g
    }

    /// The patterns of kind `t` whose confidence `at_least` finds no lower than the threshold.
    fn qualifying<T: Fn(S, S) -> bool>(&self, patterns: &[Pattern<S>], t: PatternType, at_least: &T) -> (r: Vec<
        Pattern<S>,
    >)
        requires
            forall|a: S, b: S| at_least.requires((a, b)),
            deterministic_test(*at_least),
        ensures
            pattern_views(r@) == keep(pattern_views(patterns@), qualifies(t, self.threshold(), *at_least)),
    {
        let ghost pv = pattern_views(patterns@);
        let ghost q = qualifies(t, self.threshold(), *at_least);
        let mut r: Vec<Pattern<S>> = Vec::new();
        let mut i: usize = 0;
        assert(pattern_views(r@) =~= keep(pv.take(0), q));
        while i < patterns.len()
            invariant
                i <= patterns@.len(),
                pv == pattern_views(patterns@),
                q == qualifies(t, self.threshold(), *at_least),
                forall|a: S, b: S| at_least.requires((a, b)),
                deterministic_test(*at_least),
                pattern_views(r@) == keep(pv.take(i as int), q),
            decreases patterns.len() - i,
        {
            assert(pv.take(i + 1) =~= pv.take(i as int).push(pv[i as int]));
            proof {
                lemma_keep_push(pv.take(i as int), pv[i as int], q);
            }
            let p = &patterns[i];
            assert(p@ == pv[i as int]);
            let same_type = p.pattern_type == t;
            if same_type {
                let ok = at_least(p.confidence.score, self.confidence_threshold);
                assert(q(pv[i as int]) == ok);
                if ok {
                    let ghost before = pattern_views(r@);
                    r.push(p.duplicate());
                    assert(pattern_views(r@) =~= before.push(pv[i as int]));
                }
            } else {
                assert(!q(pv[i as int]));
            }
            i += 1;
        }
        assert(pv.take(patterns@.len() as int) =~= pv);
        r
    }

    /// Whether the mean durations of the tool sequences among `patterns` that qualify add up
    /// within `u64` when there are two or more of them (see `workflow_durations_fit`).
    pub fn workflow_durations_within<T: Fn(S, S) -> bool>(&self, patterns: &[Pattern<S>], at_least: &T) -> (b: bool)
        requires
            forall|a: S, b: S| at_least.requires((a, b)),
            deterministic_test(*at_least),
        ensures
            b == workflow_durations_fit(pattern_views(patterns@), self.threshold(), *at_least),
    {
        let tools = self.qualifying(patterns, PatternType::ToolSequence, at_least);
        if tools.len() < 2 {
            return true;
        }
        let ghost tv = pattern_views(tools@);
        let mut total: u64 = 0;
        let mut i: usize = 0;
        assert(tv.take(0) =~= Seq::<PatternView<S>>::empty());
        while i < tools.len()
            invariant
                i <= tools@.len(),
                tv == pattern_views(tools@),
                tv == keep(pattern_views(patterns@), qualifies(PatternType::ToolSequence, self.threshold(), *at_least)),
                tv.len() >= 2,
                total == sum_of(tv.take(i as int), pattern_duration()),
            decreases tools.len() - i,
        {
            assert(tv.take(i + 1) =~= tv.take(i as int).push(tv[i as int]));
            proof {
                lemma_sum_push(tv.take(i as int), tv[i as int], pattern_duration());
                lemma_sum_prefix(tv, i + 1, pattern_duration());
            }
            assert(tv[i as int] == tools@[i as int]@);
            match total.checked_add(tools[i].average_duration_ms) {
                Some(t) => {
                    total = t;
                },
                None => {
                    return false;
                },
            }
            i += 1;
        }
        assert(tv.take(tools@.len() as int) =~= tv);
        true
    }
}

} // verus!

verus! {

impl<S: Copy> SkillGenerator<S> {
    /// Whether a stored skill is named `name`.
    fn has_named(&self, name: &String) -> (b: bool)
        ensures
            b == has_skill_named(self.skills(), name@),
    {
        let mut j: usize = 0;
        while j < self.generated_skills.len()
            invariant
                j <= self.generated_skills@.len(),
                forall|k: int| 0 <= k < j ==> self.skills()[k].template.name != name@,
            decreases self.generated_skills.len() - j,
        {
            assert(self.skills()[j as int] == self.generated_skills@[j as int]@);
            if str_eq(self.generated_skills[j].template.name.as_str(), name.as_str()) {
                assert(self.skills()[j as int].template.name == name@);
                return true;
            }
            j += 1;
        }
        false
    }

    /// Stores each of `generated` whose name is not stored yet.
    fn store_generated(&mut self, generated: &Vec<GeneratedSkill<S>>)
        ensures
            final(self).skills() == store_new_skills(old(self).skills(), skill_views(generated@)),
            final(self).threshold() == old(self).threshold(),
    {
        let ghost gv = skill_views(generated@);
        let ghost before = self.skills();
        let mut i: usize = 0;
        assert(gv.take(0) =~= Seq::<SkillView<S>>::empty());
        while i < generated.len()
            invariant
                i <= generated@.len(),
                gv == skill_views(generated@),
                self.confidence_threshold == old(self).confidence_threshold,
                self.skills() == store_new_skills(before, gv.take(i as int)),
            decreases generated.len() - i,
        {
            assert(gv.take(i + 1) =~= gv.take(i as int).push(gv[i as int]));
            assert(gv.take(i + 1).drop_last() == gv.take(i as int));
            let g = &generated[i];
            assert(g@ == gv[i as int]);
            if !self.has_named(&g.template.name) {
                let ghost cur = self.skills();
                self.generated_skills.push(g.duplicate());
                assert(self.skills() =~= cur.push(gv[i as int]));
            }
            i += 1;
        }
        assert(gv.take(generated@.len() as int) =~= gv);
    }

    /// The skills that the patterns whose confidence `at_least` finds no lower than the
    /// threshold yield: a workflow over the tool sequences when there are at least two, then
    /// a skill for each command pattern with a key element. Each generated skill whose name
    /// is not stored yet is stored.
    pub fn generate_from_patterns<T: Fn(S, S) -> bool, M: Fn(Vec<S>) -> S>(
        &mut self,
        patterns: &[Pattern<S>],
        at_least: &T,
        mean_of: &M,
    ) -> (r: Vec<GeneratedSkill<S>>)
        requires
            forall|a: S, b: S| at_least.requires((a, b)),
            deterministic_test(*at_least),
            forall|v: Vec<S>| mean_of.requires((v,)),
            workflow_fits(pattern_views(patterns@), old(self).threshold(), *at_least),
        ensures
            final(self).threshold() == old(self).threshold(),
            final(self).skills() == store_new_skills(old(self).skills(), skill_views(r@)),
            generated_from(skill_views(r@), pattern_views(patterns@), old(self).threshold(), *at_least, *mean_of),
    {
        let mut generated: Vec<GeneratedSkill<S>> = Vec::new();
        let tool_sequences = self.qualifying(patterns, PatternType::ToolSequence, at_least);
        let ghost tools = pattern_views(tool_sequences@);
        if tool_sequences.len() >= 2 {
            assert(tool_sequences@[0]@ == tools[0]);
            match self.create_workflow_skill(tool_sequences.as_slice(), mean_of) {
                Some(s) => {
                    generated.push(s);
                    assert(generated@[0]@ == workflow_skill(tools, generated@[0].template.success_rate, generated@[0].confidence, generated@[0].created_at));
                },
                None => {},
            }
        }
        let ghost w: int = if tools.len() >= 2 { 1 } else { 0 };
        assert(generated@.len() == w);
        let ghost first = generated@;
        assert(tools.len() >= 2 ==> {
            &&& first[0]@ == workflow_skill(tools, first[0].template.success_rate, first[0].confidence, first[0].created_at)
            &&& exists|v: Vec<S>| v@ == success_rates(tools) && #[trigger] mean_of.ensures((v,), first[0].template.success_rate)
            &&& exists|v: Vec<S>| v@ == confidence_scores(tools) && #[trigger] mean_of.ensures((v,), first[0].confidence)
        });
        let command_patterns = self.qualifying(patterns, PatternType::CommandPattern, at_least);
        let ghost cv = pattern_views(command_patterns@);
        let mut i: usize = 0;
        assert(keep(cv.take(0), has_key()) =~= Seq::<PatternView<S>>::empty());
        while i < command_patterns.len()
            invariant
                i <= command_patterns@.len(),
                cv == pattern_views(command_patterns@),
                w == 0 || w == 1,
                generated@.len() == w + keep(cv.take(i as int), has_key()).len(),
                forall|m: int| 0 <= m < w ==> generated@[m] == first[m],
                forall|m: int|
                    0 <= m < keep(cv.take(i as int), has_key()).len() ==> #[trigger] generated@[w + m]@ == command_skill(
                        keep(cv.take(i as int), has_key())[m],
                        generated@[w + m].created_at,
                    ),
            decreases command_patterns.len() - i,
        {
            let ghost kept = keep(cv.take(i as int), has_key());
            let ghost old_g = generated@;
            assert(cv.take(i + 1) =~= cv.take(i as int).push(cv[i as int]));
            proof {
                lemma_keep_push(cv.take(i as int), cv[i as int], has_key());
            }
            let p = &command_patterns[i];
            assert(p@ == cv[i as int]);
            match self.create_command_skill(p) {
                Some(s) => {
                    generated.push(s);
                    assert(generated@.len() == old_g.len() + 1);
                    assert(forall|k: int| 0 <= k < old_g.len() ==> generated@[k] == old_g[k]);
                    assert(keep(cv.take(i + 1), has_key()) == kept.push(cv[i as int]));
                    assert forall|m: int| 0 <= m < kept.len() + 1 implies #[trigger] generated@[w + m]@ == command_skill(
                        kept.push(cv[i as int])[m],
                        generated@[w + m].created_at,
                    ) by {
                        if m < kept.len() {
                            assert(generated@[w + m] == old_g[w + m]);
                        }
                    }
                },
                None => {
                    assert(keep(cv.take(i + 1), has_key()) == kept);
                },
            }
            i += 1;
        }
        assert(cv.take(command_patterns@.len() as int) =~= cv);
        assert(cv == keep(pattern_views(patterns@), qualifies(PatternType::CommandPattern, old(self).threshold(), *at_least)));
        assert(tools == keep(pattern_views(patterns@), qualifies(PatternType::ToolSequence, old(self).threshold(), *at_least)));
        let ghost cmds = keep(cv, has_key());
        assert(generated@.len() == w + cmds.len());
        assert(forall|m: int| 0 <= m < cmds.len() ==> #[trigger] generated@[w + m]@ == command_skill(cmds[m], generated@[w + m].created_at));
        assert(tools.len() >= 2 ==> generated@[0]@ == workflow_skill(tools, generated@[0].template.success_rate, generated@[0].confidence, generated@[0].created_at));
        assert(forall|k: int| 0 <= k < generated@.len() ==> #[trigger] skill_views(generated@)[k] == generated@[k]@);
        assert forall|j: int| w <= j < generated@.len() implies #[trigger] skill_views(generated@)[j] == command_skill(
            cmds[j - w],
            skill_views(generated@)[j].created_at,
        ) by {
            assert(generated@[w + (j - w)]@ == command_skill(cmds[j - w], generated@[w + (j - w)].created_at));
        }
        self.store_generated(&generated);
        generated
    }
}

} // verus!

verus! {

/// Skills with identifier `id`.
pub open spec fn skill_id_is<S>(id: Seq<char>) -> spec_fn(SkillView<S>) -> bool {
    |s: SkillView<S>| s.id == id
}

/// The skills after a suggestion of the first skill with identifier `id`, if there is one.
pub open spec fn suggested<S>(st: Seq<SkillView<S>>, id: Seq<char>) -> Seq<SkillView<S>> {
    let i = first_index(st, skill_id_is(id));
    if i >= 0 {
        st.update(i, SkillView { times_suggested: (st[i].times_suggested + 1) as usize, ..st[i] })
    } else {
        st
    }
}

/// The skills after an acceptance of the first skill with identifier `id`, if there is one.
pub open spec fn accepted<S>(st: Seq<SkillView<S>>, id: Seq<char>) -> Seq<SkillView<S>> {
    let i = first_index(st, skill_id_is(id));
    if i >= 0 {
        st.update(i, SkillView { times_accepted: (st[i].times_accepted + 1) as usize, ..st[i] })
    } else {
        st
    }
}

/// The skills after an execution of the first skill with identifier `id`, if there is one,
/// counted as a success when `success` holds.
pub open spec fn executed<S>(st: Seq<SkillView<S>>, id: Seq<char>, success: bool) -> Seq<SkillView<S>> {
    let i = first_index(st, skill_id_is(id));
    if i >= 0 {
        st.update(
            i,
            SkillView {
                times_executed: (st[i].times_executed + 1) as usize,
                success_count: (st[i].success_count + if success { 1int } else { 0 }) as usize,
                ..st[i]
            },
        )
    } else {
        st
    }
}

/// Whether the lower-case text `lower` contains one of `triggers`, taken in lower case.
pub open spec fn mentions_trigger(lower: Seq<char>, triggers: Seq<Seq<char>>) -> bool {
    exists|i: int| 0 <= i < triggers.len() && contains(lower, lowercase(#[trigger] triggers[i]))
}

/// Whether a skill fits a task context: the context mentions one of its triggers, or its
/// description mentions the context (all taken in lower case).
pub open spec fn fits_context<S>(s: SkillView<S>, context: Seq<char>) -> bool {
    mentions_trigger(lowercase(context), s.template.trigger_patterns) || contains(
        lowercase(s.template.description),
        lowercase(context),
    )
}

/// Skills offered for a context: not accepted yet, fitting the context, and found worth
/// suggesting by `worth` (given the usage counters and the confidence).
pub open spec fn suggestible<S, W: Fn(usize, usize, usize, usize, S) -> bool>(context: Seq<char>, worth: W) -> spec_fn(
    SkillView<S>,
) -> bool {
    |s: SkillView<S>|
        s.times_accepted == 0 && fits_context(s, context) && worth.ensures(
            (s.times_suggested, s.times_accepted, s.times_executed, s.success_count, s.confidence),
            true,
        )
}

/// Whether the lower-case text `lower` contains one of `triggers`, taken in lower case.
pub fn mentions_any(lower: &str, triggers: &Vec<String>) -> (b: bool)
    ensures
        b == mentions_trigger(lower@, strs(triggers@)),
{
    let mut i: usize = 0;
    while i < triggers.len()
        invariant
            i <= triggers@.len(),
            forall|k: int| 0 <= k < i ==> !contains(lower@, lowercase(strs(triggers@)[k])),
        decreases triggers.len() - i,
    {
        let t = to_lower(triggers[i].as_str());
        assert(strs(triggers@)[i as int] == triggers@[i as int]@);
        if crate::text::str_contains(lower, t.as_str()) {
            return true;
        }
        i += 1;
    }
    false
}

impl<S: Copy> GeneratedSkill<S> {
    /// Whether the lower-case form of `context` contains one of this skill's triggers,
    /// taken in lower case.
    pub fn matches_context_trigger(&self, context: &str) -> (b: bool)
        ensures
            b == mentions_trigger(lowercase(context@), self@.template.trigger_patterns),
    {
        let lower = to_lower(context);
        mentions_any(lower.as_str(), &self.template.trigger_patterns)
    }

    /// Whether this skill fits `context`.
    pub fn fits(&self, context: &str) -> (b: bool)
        ensures
            b == fits_context(self@, context@),
    {
        let lower = to_lower(context);
        if mentions_any(lower.as_str(), &self.template.trigger_patterns) {
            return true;
        }
        let d = to_lower(self.template.description.as_str());
        crate::text::str_contains(d.as_str(), lower.as_str())
    }
}

impl<S: Copy> GeneratedSkill<S> {
    /// Acceptances over suggestions (by `rate_of`), or `zero` without suggestions.
    pub fn adoption_rate<G: Fn(usize, usize) -> S>(&self, zero: S, rate_of: &G) -> (r: S)
        requires
            forall|a: usize, b: usize| rate_of.requires((a, b)),
        ensures
            rate_or_zero(self.times_accepted, self.times_suggested, zero, *rate_of, r),
    {
        if self.times_suggested == 0 {
            zero
        } else {
            rate_of(self.times_accepted, self.times_suggested)
        }
    }

    /// Successes over executions (by `rate_of`), or `zero` without executions.
    pub fn execution_success_rate<G: Fn(usize, usize) -> S>(&self, zero: S, rate_of: &G) -> (r: S)
        requires
            forall|a: usize, b: usize| rate_of.requires((a, b)),
        ensures
            rate_or_zero(self.success_count, self.times_executed, zero, *rate_of, r),
    {
        if self.times_executed == 0 {
            zero
        } else {
            rate_of(self.success_count, self.times_executed)
        }
    }

    /// What `average` gives for the adoption rate and the execution success rate.
    pub fn usefulness_score<G: Fn(usize, usize) -> S, A: Fn(S, S) -> S>(&self, zero: S, rate_of: &G, average: &A) -> (r: S)
        requires
            forall|a: usize, b: usize| rate_of.requires((a, b)),
            forall|a: S, b: S| average.requires((a, b)),
        ensures
            exists|adoption: S, success: S|
                #[trigger] rate_or_zero(self.times_accepted, self.times_suggested, zero, *rate_of, adoption)
                    && #[trigger] rate_or_zero(self.success_count, self.times_executed, zero, *rate_of, success)
                    && average.ensures((adoption, success), r),
    {
        let adoption = self.adoption_rate(zero, rate_of);
        let success = self.execution_success_rate(zero, rate_of);
        average(adoption, success)
    }
}

impl<S: Copy> SkillGenerator<S> {
    /// The position of the first skill with identifier `id`, if there is one.
    fn position_of(&self, id: &str) -> (r: Option<usize>)
        ensures
            match r {
                Some(j) => j < self.skills().len() && first_index(self.skills(), skill_id_is(id@)) == j,
                None => first_index(self.skills(), skill_id_is(id@)) == -1,
            },
    {
        let mut j: usize = 0;
        while j < self.generated_skills.len()
            invariant
                j <= self.generated_skills@.len(),
                forall|k: int| 0 <= k < j ==> self.skills()[k].id != id@,
            decreases self.generated_skills.len() - j,
        {
            assert(self.skills()[j as int] == self.generated_skills@[j as int]@);
            if str_eq(self.generated_skills[j].id.as_str(), id) {
                proof {
                    lemma_first_index(self.skills(), skill_id_is(id@), j as int);
                }
                return Some(j);
            }
            j += 1;
        }
        proof {
            lemma_first_index(self.skills(), skill_id_is(id@), -1);
        }
        None
    }

    /// Counts a suggestion of the first skill with identifier `skill_id`, if there is one.
    pub fn record_suggestion(&mut self, skill_id: &str)
        requires
            ({
                let i = first_index(old(self).skills(), skill_id_is(skill_id@));
                i >= 0 ==> old(self).skills()[i].times_suggested < usize::MAX
            }),
        ensures
            final(self).threshold() == old(self).threshold(),
            final(self).skills() == suggested(old(self).skills(), skill_id@),
    {
        match self.position_of(skill_id) {
            Some(j) => {
                let ghost cur = self.skills();
                let mut s = self.generated_skills[j].duplicate();
                s.times_suggested = s.times_suggested + 1;
                self.generated_skills.set(j, s);
                assert(self.skills() =~= cur.update(j as int, SkillView { times_suggested: (cur[j as int].times_suggested + 1) as usize, ..cur[j as int] }));
            },
            None => {},
        }
    }

    /// Counts an acceptance of the first skill with identifier `skill_id`, if there is one.
    pub fn record_acceptance(&mut self, skill_id: &str)
        requires
            ({
                let i = first_index(old(self).skills(), skill_id_is(skill_id@));
                i >= 0 ==> old(self).skills()[i].times_accepted < usize::MAX
            }),
        ensures
            final(self).threshold() == old(self).threshold(),
            final(self).skills() == accepted(old(self).skills(), skill_id@),
    {
        match self.position_of(skill_id) {
            Some(j) => {
                let ghost cur = self.skills();
                let mut s = self.generated_skills[j].duplicate();
                s.times_accepted = s.times_accepted + 1;
                self.generated_skills.set(j, s);
                assert(self.skills() =~= cur.update(j as int, SkillView { times_accepted: (cur[j as int].times_accepted + 1) as usize, ..cur[j as int] }));
            },
            None => {},
        }
    }

    /// Counts an execution of the first skill with identifier `skill_id`, if there is one,
    /// and a success when `success` holds.
    pub fn record_execution(&mut self, skill_id: &str, success: bool)
        requires
            ({
                let i = first_index(old(self).skills(), skill_id_is(skill_id@));
                i >= 0 ==> old(self).skills()[i].times_executed < usize::MAX && (success ==> old(
                    self,
                ).skills()[i].success_count < usize::MAX)
            }),
        ensures
            final(self).threshold() == old(self).threshold(),
            final(self).skills() == executed(old(self).skills(), skill_id@, success),
    {
        match self.position_of(skill_id) {
            Some(j) => {
                let ghost cur = self.skills();
                let mut s = self.generated_skills[j].duplicate();
                s.times_executed = s.times_executed + 1;
                if success {
                    s.success_count = s.success_count + 1;
                }
                self.generated_skills.set(j, s);
                assert(self.skills() =~= cur.update(
                    j as int,
                    SkillView {
                        times_executed: (cur[j as int].times_executed + 1) as usize,
                        success_count: (cur[j as int].success_count + if success { 1int } else { 0 }) as usize,
                        ..cur[j as int]
                    },
                ));
            },
            None => {},
        }
    }

    /// All generated skills.
    pub fn get_all_generated_skills(&self) -> (r: Vec<GeneratedSkill<S>>)
        ensures
            skill_views(r@) == self.skills(),
    {
        let mut r: Vec<GeneratedSkill<S>> = Vec::new();
        let mut i: usize = 0;
        while i < self.generated_skills.len()
            invariant
                i <= self.generated_skills@.len(),
                skill_views(r@) == self.skills().take(i as int),
            decreases self.generated_skills.len() - i,
        {
            let ghost before = skill_views(r@);
            let d = self.generated_skills[i].duplicate();
            assert(d@ == self.skills()[i as int]);
            r.push(d);
            assert(skill_views(r@) =~= before.push(d@));
            assert(self.skills().take(i + 1) =~= self.skills().take(i as int).push(self.skills()[i as int]));
            i += 1;
        }
        assert(self.skills().take(self.generated_skills@.len() as int) =~= self.skills());
        r
    }

    /// The skills offered for `context`: those not accepted yet that fit the context and
    /// that `worth` finds worth suggesting, in order of generation.
    pub fn get_suggestions<W: Fn(usize, usize, usize, usize, S) -> bool>(&self, context: &str, worth: &W) -> (r: Vec<
        GeneratedSkill<S>,
    >)
        requires
            forall|a: usize, b: usize, c: usize, d: usize, e: S| worth.requires((a, b, c, d, e)),
            forall|a: usize, b: usize, c: usize, d: usize, e: S, x: bool, y: bool|
                worth.ensures((a, b, c, d, e), x) && worth.ensures((a, b, c, d, e), y) ==> x == y,
        ensures
            skill_views(r@) == keep(self.skills(), suggestible(context@, *worth)),
    {
        let ghost p = suggestible(context@, *worth);
        let mut r: Vec<GeneratedSkill<S>> = Vec::new();
        let mut i: usize = 0;
        assert(skill_views(r@) =~= keep(self.skills().take(0), p));
        while i < self.generated_skills.len()
            invariant
                i <= self.generated_skills@.len(),
                p == suggestible(context@, *worth),
                forall|a: usize, b: usize, c: usize, d: usize, e: S| worth.requires((a, b, c, d, e)),
                forall|a: usize, b: usize, c: usize, d: usize, e: S, x: bool, y: bool|
                    worth.ensures((a, b, c, d, e), x) && worth.ensures((a, b, c, d, e), y) ==> x == y,
                skill_views(r@) == keep(self.skills().take(i as int), p),
            decreases self.generated_skills.len() - i,
        {
            let ghost t = self.skills().take(i as int);
            assert(self.skills().take(i + 1) =~= t.push(self.skills()[i as int]));
            proof {
                lemma_keep_push(t, self.skills()[i as int], p);
            }
            let s = &self.generated_skills[i];
            assert(s@ == self.skills()[i as int]);
            let keep_it = if s.times_accepted == 0 && s.fits(context) {
                worth(s.times_suggested, s.times_accepted, s.times_executed, s.success_count, s.confidence)
            } else {
                false
            };
            assert(keep_it == p(s@));
            if keep_it {
                let ghost before = skill_views(r@);
                r.push(s.duplicate());
                assert(skill_views(r@) =~= before.push(s@));
            }
            i += 1;
        }
        assert(self.skills().take(self.generated_skills@.len() as int) =~= self.skills());
        r
    }
}

} // verus!

verus! {

/// The `limit` skills of `st` with the largest keys, largest first, skills with equal keys
/// in their stored order.
pub open spec fn top_by_key<S>(st: Seq<SkillView<S>>, keys: Seq<u64>, limit: nat) -> Seq<SkillView<S>> {
    let sorted = sort_desc(keyed_positions(keys));
    let n = if limit < sorted.len() { limit } else { sorted.len() };
    Seq::new(n, |m: int| st[sorted[m].1 as int])
}

/// The key `usefulness_key` gave a skill, from its usage counters.
pub open spec fn keyed_by<S, K: Fn(usize, usize, usize, usize) -> u64>(s: SkillView<S>, key: u64, usefulness_key: K) -> bool {
    usefulness_key.ensures((s.times_suggested, s.times_accepted, s.times_executed, s.success_count), key)
}

/// `top` are the `limit` skills of `st` with the largest keys that `usefulness_key` gave
/// them, largest first, skills with equal keys in their stored order.
pub open spec fn top_skills<S, K: Fn(usize, usize, usize, usize) -> u64>(
    st: Seq<SkillView<S>>,
    limit: nat,
    usefulness_key: K,
    top: Seq<SkillView<S>>,
) -> bool {
    exists|keys: Seq<u64>|
        {
            &&& keys.len() == st.len()
            &&& forall|i: int| 0 <= i < keys.len() ==> keyed_by(st[i], #[trigger] keys[i], usefulness_key)
            &&& top == top_by_key(st, keys, limit)
        }
}

impl<S: Copy> SkillGenerator<S> {
    /// The `limit` most useful skills, most useful first; `usefulness_key` orders the skills by
    /// their usage counters, and skills with equal keys keep their order.
    pub fn get_top_skills<K: Fn(usize, usize, usize, usize) -> u64>(&self, limit: usize, usefulness_key: &K) -> (r: Vec<
        GeneratedSkill<S>,
    >)
        requires
            forall|a: usize, b: usize, c: usize, d: usize| usefulness_key.requires((a, b, c, d)),
        ensures
            top_skills(self.skills(), limit as nat, *usefulness_key, skill_views(r@)),
    {
        let n = self.generated_skills.len();
        let mut keys: Vec<u64> = Vec::new();
        let mut i: usize = 0;
        while i < n
            invariant
                n == self.skills().len(),
                i <= n,
                keys@.len() == i,
                forall|a: usize, b: usize, c: usize, d: usize| usefulness_key.requires((a, b, c, d)),
                forall|k: int| 0 <= k < i ==> keyed_by(self.skills()[k], #[trigger] keys@[k], *usefulness_key),
            decreases n - i,
        {
            let s = &self.generated_skills[i];
            assert(s@ == self.skills()[i as int]);
            let k = usefulness_key(s.times_suggested, s.times_accepted, s.times_executed, s.success_count);
            keys.push(k);
            i += 1;
        }
        let ghost kp = keyed_positions(keys@);
        let sorted = positions_by_key_desc(&keys);
        proof {
            crate::seqs::lemma_sort_desc(kp);
        }
        let count = if limit < n { limit } else { n };
        let mut r: Vec<GeneratedSkill<S>> = Vec::new();
        let mut m: usize = 0;
        while m < count
            invariant
                count <= n,
                n == sorted@.len(),
                n == self.skills().len(),
                m <= count,
                sorted@ == sort_desc(kp),
                kp == keyed_positions(keys@),
                keys@.len() == n,
                forall|j: int| 0 <= j < n ==> kp.contains(#[trigger] sorted@[j]),
                skill_views(r@) == Seq::new(m as nat, |j: int| self.skills()[sorted@[j].1 as int]),
            decreases count - m,
        {
            assert(kp.contains(sorted@[m as int]));
            let idx = sorted[m].1;
            assert(idx < n) by {
                let k = choose|k: int| 0 <= k < kp.len() && kp[k] == sorted@[m as int];
            }
            let d = self.generated_skills[idx].duplicate();
            assert(d@ == self.skills()[idx as int]);
            let ghost before = skill_views(r@);
            r.push(d);
            assert(skill_views(r@) =~= before.push(d@));
            assert(skill_views(r@) =~= Seq::new((m + 1) as nat, |j: int| self.skills()[sorted@[j].1 as int]));
            m += 1;
        }
        assert(skill_views(r@) =~= top_by_key(self.skills(), keys@, limit as nat));
        assert(forall|i: int| 0 <= i < keys@.len() ==> keyed_by(self.skills()[i], #[trigger] keys@[i], *usefulness_key));
        r
    }
}

} // verus!
