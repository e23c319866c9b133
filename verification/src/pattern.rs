//! Patterns: recurring tool sequences, commands and file operations found among the
//! successful experiences, and the store that accumulates them.
//!
//! Scores (`S`) are computed by functions the caller passes in; the library decides
//! which patterns exist, what they are called and what they count.

use vstd::prelude::*;
use crate::experience::{Experience, ExperienceView, duration_of, opt_str, outcome_succeeded, succeeded, views};
use crate::seqs::{
    both, equal_to, first_occurrences, keep, lemma_first_occurrences, lemma_first_occurrences_push,
    lemma_keep_keep, lemma_keep_members, lemma_keep_push, lemma_occurrences_push, lemma_sum_keep_take,
    lemma_sum_push, occurrences, sum_of, flat_map, lemma_flat_map_push, lemma_flat_map_take, lemma_keep_take,
    lemma_keep_all, lemma_sum_concat, lemma_sum_pointwise,
};
use crate::stamps::utc_now_secs;
use crate::text::{
    char_seqs, chars_eq, chars_of, clone_strings, contains, contains_chars, copy_chars, decimal, decimal_string, ends_with,
    ends_with_chars, join,
    join_strings, lowercase, owned, replace_char, replace_char_in, split_words, str_eq, string_from_chars, strs, to_lower,
    words,
};

verus! {

/// The kinds of pattern.
#[derive(Debug, Clone, Copy, PartialEq, Eq, Hash, Structural)]
pub enum PatternType {
    ToolSequence,
    ContextStructure,
    SolutionApproach,
    ErrorRecovery,
    CommandPattern,
    FileOperation,
    SearchPattern,
}

/// A confidence score and the factors it rests on.
#[derive(Debug, Clone)]
pub struct PatternConfidence<S> {
    pub score: S,
    pub factors: Vec<String>,
}

/// A confidence with its factors taken as character sequences.
pub struct ConfidenceView<S> {
    pub score: S,
    pub factors: Seq<Seq<char>>,
}

impl<S> View for PatternConfidence<S> {
    type V = ConfidenceView<S>;

    open spec fn view(&self) -> ConfidenceView<S> {
        ConfidenceView { score: self.score, factors: strs(self.factors@) }
    }
}

/// The views of a sequence of string slices.
pub open spec fn slices(v: Seq<&str>) -> Seq<Seq<char>> {
    v.map_values(|s: &str| s@)
}

/// Copies string slices into owned strings.
pub fn owned_all(v: &Vec<&str>) -> (r: Vec<String>)
    ensures
        strs(r@) == slices(v@),
{
    let mut r: Vec<String> = Vec::new();
    let mut i: usize = 0;
    while i < v.len()
        invariant
            i <= v.len(),
            strs(r@) == slices(v@.take(i as int)),
        decreases v.len() - i,
    {
        let ghost before = strs(r@);
        r.push(owned(v[i]));
        assert(strs(r@) =~= before.push(v@[i as int]@));
        assert(slices(v@.take(i + 1)) =~= slices(v@.take(i as int)).push(v@[i as int]@));
        i += 1;
    }
    assert(v@.take(v.len() as int) == v@);
    r
}

impl<S: Copy> PatternConfidence<S> {
    /// A confidence of what `clamp` makes of `score` (the score kept within its range), with
    /// no factors yet.
    pub fn new<C: Fn(S) -> S>(score: S, clamp: &C) -> (c: Self)
        requires
            forall|s: S| clamp.requires((s,)),
        ensures
            clamp.ensures((score,), c.score),
            c.factors@.len() == 0,
    {
        Self::from_score(clamp(score))
    }

    /// A confidence of exactly `score`, with no factors yet.
    pub fn from_score(score: S) -> (c: Self)
        ensures
            c.score == score,
            c.factors@.len() == 0,
    {
        PatternConfidence { score, factors: Vec::new() }
    }

    /// The same confidence, resting on `factors` (which replace any earlier ones).
    pub fn with_factors(self, factors: Vec<&str>) -> (c: Self)
        ensures
            c.score == self.score,
            c@.factors == slices(factors@),
    {
        PatternConfidence { score: self.score, factors: owned_all(&factors) }
    }

    /// A copy of this confidence.
    pub fn duplicate(&self) -> (c: Self)
        ensures
            c@ == self@,
    {
        PatternConfidence { score: self.score, factors: clone_strings(&self.factors) }
    }
}

/// A recurring pattern.
#[derive(Debug, Clone)]
pub struct Pattern<S> {
    pub id: String,
    pub pattern_type: PatternType,
    pub description: String,
    pub key_elements: Vec<String>,
    pub occurrences: usize,
    pub confidence: PatternConfidence<S>,
    pub success_rate: S,
    pub average_duration_ms: u64,
    pub first_seen: u64,
    pub last_seen: u64,
}

/// A pattern with its strings taken as character sequences.
pub struct PatternView<S> {
    pub id: Seq<char>,
    pub pattern_type: PatternType,
    pub description: Seq<char>,
    pub key_elements: Seq<Seq<char>>,
    pub occurrences: usize,
    pub confidence: ConfidenceView<S>,
    pub success_rate: S,
    pub average_duration_ms: u64,
    pub first_seen: u64,
    pub last_seen: u64,
}

impl<S> View for Pattern<S> {
    type V = PatternView<S>;

    open spec fn view(&self) -> PatternView<S> {
        PatternView {
            id: self.id@,
            pattern_type: self.pattern_type,
            description: self.description@,
            key_elements: strs(self.key_elements@),
            occurrences: self.occurrences,
            confidence: self.confidence@,
            success_rate: self.success_rate,
            average_duration_ms: self.average_duration_ms,
            first_seen: self.first_seen,
            last_seen: self.last_seen,
        }
    }
}

/// The views of a sequence of patterns.
pub open spec fn pattern_views<S>(v: Seq<Pattern<S>>) -> Seq<PatternView<S>> {
    v.map_values(|p: Pattern<S>| p@)
}

impl<S: Copy> Pattern<S> {
    /// A copy of this pattern.
    pub fn duplicate(&self) -> (p: Self)
        ensures
            p@ == self@,
    {
        Pattern {
            id: self.id.clone(),
            pattern_type: self.pattern_type,
            description: self.description.clone(),
            key_elements: clone_strings(&self.key_elements),
            occurrences: self.occurrences,
            confidence: self.confidence.duplicate(),
            success_rate: self.success_rate,
            average_duration_ms: self.average_duration_ms,
            first_seen: self.first_seen,
            last_seen: self.last_seen,
        }
    }
}

/// Appends `b` to `a`.
pub fn concat(a: String, b: &str) -> (r: String)
    ensures
        r@ == a@ + b@,
{
    let mut r = a;
    r.append(b);
    r
}

/// Decides equality of two sequences of strings.
pub fn strings_eq(a: &Vec<String>, b: &Vec<String>) -> (r: bool)
    ensures
        r == (strs(a@) == strs(b@)),
{
    if a.len() != b.len() {
        return false;
    }
    let mut i: usize = 0;
    while i < a.len()
        invariant
            i <= a.len(),
            a.len() == b.len(),
            forall|k: int| 0 <= k < i ==> a@[k]@ == b@[k]@,
        decreases a.len() - i,
    {
        if !str_eq(a[i].as_str(), b[i].as_str()) {
            assert(strs(a@)[i as int] != strs(b@)[i as int]);
            return false;
        }
        i += 1;
    }
    assert(strs(a@) =~= strs(b@));
    true
}

} // verus!

verus! {

/// Experiences a tool sequence is taken from: successful ones that used a tool.
pub open spec fn has_tool_sequence<S>() -> spec_fn(ExperienceView<S>) -> bool {
    |e: ExperienceView<S>| outcome_succeeded(e.outcome) && e.tools_used.len() > 0
}

/// The experiences among `exps` that a tool sequence is taken from.
pub open spec fn tool_sources<S>(exps: Seq<ExperienceView<S>>) -> Seq<ExperienceView<S>> {
    keep(exps, has_tool_sequence())
}

/// The tool sequences of experiences.
pub open spec fn tools_of<S>(exps: Seq<ExperienceView<S>>) -> Seq<Seq<Seq<char>>> {
    exps.map_values(|e: ExperienceView<S>| e.tools_used)
}

/// Experiences that used exactly the tool sequence `k`.
pub open spec fn with_tools<S>(k: Seq<Seq<char>>) -> spec_fn(ExperienceView<S>) -> bool {
    |e: ExperienceView<S>| e.tools_used == k
}

/// The experiences among `sources` that used the tool sequence `k`.
pub open spec fn tool_group<S>(sources: Seq<ExperienceView<S>>, k: Seq<Seq<char>>) -> Seq<ExperienceView<S>> {
    keep(sources, with_tools(k))
}

/// The tool sequences of `sources` seen at least `min` times, in order of first use.
pub open spec fn frequent_tool_sequences<S>(sources: Seq<ExperienceView<S>>, min: nat) -> Seq<Seq<Seq<char>>> {
    keep(first_occurrences(tools_of(sources)), |k: Seq<Seq<char>>| tool_group(sources, k).len() >= min)
}

/// The identifier of the pattern of the tool sequence `k`.
pub open spec fn tool_pattern_id(k: Seq<Seq<char>>) -> Seq<char> {
    "tool_seq_"@ + join(k, "_"@)
}

/// The description of the pattern of the tool sequence `k`, seen `n` times.
pub open spec fn tool_pattern_description(k: Seq<Seq<char>>, n: nat) -> Seq<char> {
    "Tool sequence: "@ + join(k, " -> "@) + " (seen "@ + decimal(n) + " times)"@
}

/// The mean duration of a non-empty group of experiences, rounded down.
pub open spec fn mean_duration<S>(g: Seq<ExperienceView<S>>) -> u64 {
    if g.len() == 0 {
        0
    } else {
        (sum_of(g, duration_of()) / g.len()) as u64
    }
}

/// `p` is the pattern of the tool sequence `k`, used by the experiences `g`; its scores
/// are not part of this.
pub open spec fn is_tool_pattern<S>(p: PatternView<S>, k: Seq<Seq<char>>, g: Seq<ExperienceView<S>>) -> bool {
    &&& p.id == tool_pattern_id(k)
    &&& p.pattern_type == PatternType::ToolSequence
    &&& p.description == tool_pattern_description(k, g.len())
    &&& p.key_elements == k
    &&& p.occurrences == g.len()
    &&& p.confidence.factors == seq!["frequency"@, "consistency"@]
    &&& p.average_duration_ms == mean_duration(g)
    &&& p.first_seen == 0
}

/// The patterns `r` are the patterns of the tool sequences `ks`, used by experiences of `sources`.
pub open spec fn tool_rows<S>(r: Seq<PatternView<S>>, ks: Seq<Seq<Seq<char>>>, sources: Seq<ExperienceView<S>>) -> bool {
    &&& r.len() == ks.len()
    &&& forall|m: int| 0 <= m < r.len() ==> is_tool_pattern(#[trigger] r[m], ks[m], tool_group(sources, ks[m]))
}

/// The index of `k` among `keys`, if it is there.
fn find_sequence(keys: &Vec<Vec<String>>, k: &Vec<String>) -> (r: Option<usize>)
    ensures
        match r {
            Some(j) => j < keys@.len() && strs(keys@[j as int]@) == strs(k@),
            None => forall|j: int| 0 <= j < keys@.len() ==> strs(keys@[j]@) != strs(k@),
        },
{
    let mut j: usize = 0;
    while j < keys.len()
        invariant
            j <= keys@.len(),
            forall|i: int| 0 <= i < j ==> strs(keys@[i]@) != strs(k@),
        decreases keys.len() - j,
    {
        if strings_eq(&keys[j], k) {
            return Some(j);
        }
        j += 1;
    }
    None
}

/// The tool sequences views of a vector of tool sequences.
pub open spec fn sequence_views(v: Seq<Vec<String>>) -> Seq<Seq<Seq<char>>> {
    v.map_values(|k: Vec<String>| strs(k@))
}

/// Each tool sequence used by the successful experiences, in order of first use, with how
/// often it was used and the total duration of those uses.
pub fn tally_tool_sequences<S: Copy>(experiences: &[Experience<S>]) -> (r: (Vec<Vec<String>>, Vec<usize>, Vec<u64>))
    requires
        forall|k: Seq<Seq<char>>| sum_of(tool_group(tool_sources(views(experiences@)), k), duration_of()) <= u64::MAX,
    ensures
        sequence_views(r.0@) == first_occurrences(tools_of(tool_sources(views(experiences@)))),
        r.1@.len() == r.0@.len(),
        r.2@.len() == r.0@.len(),
        forall|j: int|
            0 <= j < r.0@.len() ==> r.1@[j] == tool_group(tool_sources(views(experiences@)), strs(r.0@[j]@)).len()
                && r.2@[j] == sum_of(
                tool_group(tool_sources(views(experiences@)), strs(r.0@[j]@)),
                duration_of(),
            ),
{
    let ghost ev = views(experiences@);
    let n = experiences.len();
    let mut keys: Vec<Vec<String>> = Vec::new();
    let mut counts: Vec<usize> = Vec::new();
    let mut sums: Vec<u64> = Vec::new();
    let mut i: usize = 0;
    assert(sequence_views(keys@) =~= first_occurrences(tools_of(tool_sources(ev.take(0)))));
    while i < n
        invariant
            n == experiences@.len(),
            ev == views(experiences@),
            i <= n,
            forall|k: Seq<Seq<char>>| sum_of(tool_group(tool_sources(ev), k), duration_of()) <= u64::MAX,
            sequence_views(keys@) == first_occurrences(tools_of(tool_sources(ev.take(i as int)))),
            counts@.len() == keys@.len(),
            sums@.len() == keys@.len(),
            forall|j: int|
                0 <= j < keys@.len() ==> counts@[j] == tool_group(tool_sources(ev.take(i as int)), strs(keys@[j]@)).len()
                    && counts@[j] <= i && sums@[j] == sum_of(
                    tool_group(tool_sources(ev.take(i as int)), strs(keys@[j]@)),
                    duration_of(),
                ),
        decreases n - i,
    {
        let ghost src = tool_sources(ev.take(i as int));
        let ghost e = ev[i as int];
        assert(ev.take(i + 1) =~= ev.take(i as int).push(e));
        proof {
            lemma_keep_push(ev.take(i as int), e, has_tool_sequence());
            lemma_first_occurrences(tools_of(src));
        }
        let x = &experiences[i];
        assert(x@ == e);
        if x.is_successful() && x.tools_used.len() > 0 {
            let ghost src2 = src.push(e);
            assert(tool_sources(ev.take(i + 1)) == src2);
            assert(tools_of(src2) =~= tools_of(src).push(e.tools_used));
            proof {
                lemma_first_occurrences_push(tools_of(src), e.tools_used);
            }
            assert forall|k: Seq<Seq<char>>| #[trigger] tool_group(src2, k) == (if e.tools_used == k {
                tool_group(src, k).push(e)
            } else {
                tool_group(src, k)
            }) by {
                lemma_keep_push(src, e, with_tools(k));
            }
            assert forall|k: Seq<Seq<char>>| sum_of(tool_group(src2, k), duration_of()) <= u64::MAX by {
                lemma_keep_keep(ev, has_tool_sequence(), with_tools(k));
                lemma_keep_keep(ev.take(i + 1), has_tool_sequence(), with_tools(k));
                lemma_sum_keep_take(ev, i + 1, both(has_tool_sequence(), with_tools(k)), duration_of());
                assert(tool_group(src2, k) == keep(ev.take(i + 1), both(has_tool_sequence(), with_tools(k))));
                assert(tool_group(tool_sources(ev), k) == keep(ev, both(has_tool_sequence(), with_tools(k))));
                assert(sum_of(tool_group(tool_sources(ev), k), duration_of()) <= u64::MAX);
            }
            match find_sequence(&keys, &x.tools_used) {
                Some(j) => {
                    let ghost k = strs(keys@[j as int]@);
                    proof {
                        lemma_sum_push(tool_group(src, k), e, duration_of());
                    }
                    assert(first_occurrences(tools_of(src)).contains(e.tools_used)) by {
                        assert(sequence_views(keys@)[j as int] == k);
                    }
                    let c = counts[j];
                    counts.set(j, c + 1);
                    let s = sums[j];
                    assert(k == e.tools_used);
                    assert(tool_group(src2, k) == tool_group(src, k).push(e));
                    assert(sum_of(tool_group(src2, k), duration_of()) <= u64::MAX);
                    sums.set(j, s + x.duration_ms);
                    assert forall|jj: int| 0 <= jj < keys@.len() && jj != j implies strs(keys@[jj]@) != e.tools_used by {
                        assert(sequence_views(keys@)[jj] == strs(keys@[jj]@));
                        assert(sequence_views(keys@)[j as int] == k);
                    }
                },
                None => {
                    assert(!first_occurrences(tools_of(src)).contains(e.tools_used)) by {
                        if first_occurrences(tools_of(src)).contains(e.tools_used) {
                            let jj = choose|jj: int| 0 <= jj < keys@.len() && sequence_views(keys@)[jj] == e.tools_used;
                            assert(strs(keys@[jj]@) == e.tools_used);
                        }
                    }
                    let ghost before = sequence_views(keys@);
                    let copy = clone_strings(&x.tools_used);
                    keys.push(copy);
                    assert(sequence_views(keys@) =~= before.push(e.tools_used));
                    counts.push(1);
                    sums.push(x.duration_ms);
                    proof {
                        lemma_sum_push(tool_group(src, e.tools_used), e, duration_of());
                    }
                    assert(tool_group(src, e.tools_used).len() == 0) by {
                        if tool_group(src, e.tools_used).len() > 0 {
                            crate::seqs::lemma_keep_members(src, with_tools(e.tools_used));
                            let y = tool_group(src, e.tools_used)[0];
                            assert(src.contains(y));
                            let ii = choose|ii: int| 0 <= ii < src.len() && src[ii] == y;
                            assert(tools_of(src)[ii] == e.tools_used);
                            assert(tools_of(src).contains(e.tools_used));
                        }
                    }
                },
            }
        } else {
            assert(tool_sources(ev.take(i + 1)) == src);
        }
        i += 1;
    }
    assert(ev.take(n as int) =~= ev);
    (keys, counts, sums)
}

/// Whether the durations of the uses of each tool sequence by the successful experiences add
/// up within `u64`.
pub fn tool_durations_fit<S: Copy>(experiences: &[Experience<S>]) -> (b: bool)
    ensures
        b == forall|k: Seq<Seq<char>>| sum_of(#[trigger] tool_group(tool_sources(views(experiences@)), k), duration_of()) <= u64::MAX,
{
    let ghost ev = views(experiences@);
    let n = experiences.len();
    let mut keys: Vec<Vec<String>> = Vec::new();
    let mut sums: Vec<u64> = Vec::new();
    let mut i: usize = 0;
    assert(sequence_views(keys@) =~= first_occurrences(tools_of(tool_sources(ev.take(0)))));
    assert(ev.take(0) =~= Seq::<ExperienceView<S>>::empty());
    assert forall|k: Seq<Seq<char>>| sum_of(#[trigger] tool_group(tool_sources(ev.take(0)), k), duration_of()) <= u64::MAX by {
        assert(tool_group(tool_sources(ev.take(0)), k) =~= Seq::<ExperienceView<S>>::empty());
    }
    while i < n
        invariant
            n == experiences@.len(),
            ev == views(experiences@),
            i <= n,
            sequence_views(keys@) == first_occurrences(tools_of(tool_sources(ev.take(i as int)))),
            sums@.len() == keys@.len(),
            forall|j: int|
                0 <= j < keys@.len() ==> sums@[j] == sum_of(
                    tool_group(tool_sources(ev.take(i as int)), strs(keys@[j]@)),
                    duration_of(),
                ),
            forall|k: Seq<Seq<char>>| sum_of(#[trigger] tool_group(tool_sources(ev.take(i as int)), k), duration_of()) <= u64::MAX,
        decreases n - i,
    {
        let ghost src = tool_sources(ev.take(i as int));
        let ghost e = ev[i as int];
        assert(ev.take(i + 1) =~= ev.take(i as int).push(e));
        proof {
            lemma_keep_push(ev.take(i as int), e, has_tool_sequence());
            lemma_first_occurrences(tools_of(src));
        }
        let x = &experiences[i];
        assert(x@ == e);
        if x.is_successful() && x.tools_used.len() > 0 {
            let ghost src2 = src.push(e);
            assert(tool_sources(ev.take(i + 1)) == src2);
            assert(tools_of(src2) =~= tools_of(src).push(e.tools_used));
            proof {
                lemma_first_occurrences_push(tools_of(src), e.tools_used);
            }
            assert forall|k: Seq<Seq<char>>| #[trigger] tool_group(src2, k) == (if e.tools_used == k {
                tool_group(src, k).push(e)
            } else {
                tool_group(src, k)
            }) by {
                lemma_keep_push(src, e, with_tools(k));
            }
            let ghost k0 = e.tools_used;
            proof {
                lemma_sum_push(tool_group(src, k0), e, duration_of());
                lemma_keep_keep(ev, has_tool_sequence(), with_tools(k0));
                lemma_keep_keep(ev.take(i + 1), has_tool_sequence(), with_tools(k0));
                lemma_sum_keep_take(ev, i + 1, both(has_tool_sequence(), with_tools(k0)), duration_of());
                assert(tool_group(src2, k0) == keep(ev.take(i + 1), both(has_tool_sequence(), with_tools(k0))));
                assert(tool_group(tool_sources(ev), k0) == keep(ev, both(has_tool_sequence(), with_tools(k0))));
            }
            let old_sum: u64;
            let pos: Option<usize> = find_sequence(&keys, &x.tools_used);
            match pos {
                Some(j) => {
                    assert(sequence_views(keys@)[j as int] == strs(keys@[j as int]@));
                    old_sum = sums[j];
                },
                None => {
                    assert(!first_occurrences(tools_of(src)).contains(e.tools_used)) by {
                        if first_occurrences(tools_of(src)).contains(e.tools_used) {
                            let jj = choose|jj: int| 0 <= jj < keys@.len() && sequence_views(keys@)[jj] == e.tools_used;
                            assert(strs(keys@[jj]@) == e.tools_used);
                        }
                    }
                    assert(tool_group(src, e.tools_used).len() == 0) by {
                        if tool_group(src, e.tools_used).len() > 0 {
                            crate::seqs::lemma_keep_members(src, with_tools(e.tools_used));
                            let y = tool_group(src, e.tools_used)[0];
                            assert(src.contains(y));
                            let ii = choose|ii: int| 0 <= ii < src.len() && src[ii] == y;
                            assert(tools_of(src)[ii] == e.tools_used);
                            assert(tools_of(src).contains(e.tools_used));
                        }
                    }
                    assert(tool_group(src, k0) =~= Seq::<ExperienceView<S>>::empty());
                    old_sum = 0;
                },
            }
            assert(old_sum == sum_of(tool_group(src, k0), duration_of()));
            let new_sum = match old_sum.checked_add(x.duration_ms) {
                Some(t) => t,
                None => {
                    assert(sum_of(tool_group(tool_sources(ev), k0), duration_of()) > u64::MAX);
                    return false;
                },
            };
            match pos {
                Some(j) => {
                    sums.set(j, new_sum);
                    assert forall|jj: int| 0 <= jj < keys@.len() && jj != j implies strs(keys@[jj]@) != e.tools_used by {
                        assert(sequence_views(keys@)[jj] == strs(keys@[jj]@));
                        assert(sequence_views(keys@)[j as int] == strs(keys@[j as int]@));
                    }
                },
                None => {
                    let ghost before = sequence_views(keys@);
                    let copy = clone_strings(&x.tools_used);
                    keys.push(copy);
                    assert(sequence_views(keys@) =~= before.push(e.tools_used));
                    sums.push(new_sum);
                },
            }
        } else {
            assert(tool_sources(ev.take(i + 1)) == src);
        }
        i += 1;
    }
    assert(ev.take(n as int) =~= ev);
    true
}

} // verus!

verus! {

/// Two factor names as owned strings.
fn two_factors(a: &str, b: &str) -> (r: Vec<String>)
    ensures
        strs(r@) == seq![a@, b@],
{
    let mut r: Vec<String> = Vec::new();
    r.push(owned(a));
    r.push(owned(b));
    assert(strs(r@) =~= seq![a@, b@]);
    r
}

/// One factor name as an owned string.
fn one_factor(a: &str) -> (r: Vec<String>)
    ensures
        strs(r@) == seq![a@],
{
    let mut r: Vec<String> = Vec::new();
    r.push(owned(a));
    assert(strs(r@) =~= seq![a@]);
    r
}

/// The pattern of the tool sequence `key`, used `count` times for `total_ms` in all.
fn tool_pattern<S: Copy, F: Fn(usize) -> S, G: Fn(usize, usize) -> S>(
    key: &Vec<String>,
    count: usize,
    total_ms: u64,
    confidence_of: &F,
    rate_of: &G,
) -> (p: Pattern<S>)
    requires
        confidence_of.requires((count,)),
        rate_of.requires((count, count)),
    ensures
        p@.id == tool_pattern_id(strs(key@)),
        p.pattern_type == PatternType::ToolSequence,
        p@.description == tool_pattern_description(strs(key@), count as nat),
        p@.key_elements == strs(key@),
        p.occurrences == count,
        p@.confidence.factors == seq!["frequency"@, "consistency"@],
        confidence_of.ensures((count,), p.confidence.score),
        rate_of.ensures((count, count), p.success_rate),
        p.average_duration_ms == (if count == 0 { 0 } else { total_ms / (count as u64) }),
        p.first_seen == 0,
{
    let id = concat(owned("tool_seq_"), join_strings(key, "_").as_str());
    let d1 = concat(owned("Tool sequence: "), join_strings(key, " -> ").as_str());
    let d2 = concat(d1, " (seen ");
    let d3 = concat(d2, decimal_string(count as u64).as_str());
    let description = concat(d3, " times)");
    let avg = if count == 0 { 0 } else { total_ms / (count as u64) };
    let score = confidence_of(count);
    let rate = rate_of(count, count);
    Pattern {
        id,
        pattern_type: PatternType::ToolSequence,
        description,
        key_elements: clone_strings(key),
        occurrences: count,
        confidence: PatternConfidence { score, factors: two_factors("frequency", "consistency") },
        success_rate: rate,
        average_duration_ms: avg,
        first_seen: 0,
        last_seen: utc_now_secs(),
    }
}

/// A store of patterns, at most one per identifier, and how often a pattern must be seen
/// before it is reported.
pub struct PatternExtractor<S> {
    patterns: Vec<Pattern<S>>,
    min_occurrences: usize,
}

impl<S: Copy> PatternExtractor<S> {
    /// The stored patterns, in order of first storage.
    pub closed spec fn stored(&self) -> Seq<PatternView<S>> {
        pattern_views(self.patterns@)
    }

    /// How often a pattern must be seen before it is reported.
    pub closed spec fn threshold(&self) -> nat {
        self.min_occurrences as nat
    }

    /// An empty store that reports patterns seen at least `min_occurrences` times.
    pub fn new(min_occurrences: usize) -> (e: Self)
        ensures
            e.stored() == Seq::<PatternView<S>>::empty(),
            e.threshold() == min_occurrences,
            e.well_formed(),
    {
        let e = PatternExtractor { patterns: Vec::new(), min_occurrences };
        assert(e.stored() =~= Seq::<PatternView<S>>::empty());
        e
    }

    /// The patterns of the tool sequences that successful experiences used at least as often
    /// as the threshold, in order of first use. Confidence and success rate come from
    /// `confidence_of(count)` and `rate_of(successes, count)`; every counted use succeeded.
    pub fn extract_tool_sequence_patterns<F: Fn(usize) -> S, G: Fn(usize, usize) -> S>(
        &self,
        experiences: &[Experience<S>],
        confidence_of: &F,
        rate_of: &G,
    ) -> (r: Vec<Pattern<S>>)
        requires
            forall|n: usize| confidence_of.requires((n,)),
            forall|a: usize, b: usize| rate_of.requires((a, b)),
            forall|k: Seq<Seq<char>>| sum_of(tool_group(tool_sources(views(experiences@)), k), duration_of()) <= u64::MAX,
        ensures
            tool_rows(
                pattern_views(r@),
                frequent_tool_sequences(tool_sources(views(experiences@)), self.threshold()),
                tool_sources(views(experiences@)),
            ),
            forall|j: int| 0 <= j < r@.len() ==> confidence_of.ensures((r@[j].occurrences,), #[trigger] r@[j].confidence.score),
            forall|j: int|
                0 <= j < r@.len() ==> rate_of.ensures((r@[j].occurrences, r@[j].occurrences), #[trigger] r@[j].success_rate),
    {
        let ghost src = tool_sources(views(experiences@));
        let ghost fo = first_occurrences(tools_of(src));
        let ghost freq = |k: Seq<Seq<char>>| tool_group(src, k).len() >= self.min_occurrences;
        let (keys, counts, sums) = tally_tool_sequences(experiences);
        let mut r: Vec<Pattern<S>> = Vec::new();
        let mut j: usize = 0;
        assert(keep(fo.take(0), freq) =~= Seq::<Seq<Seq<char>>>::empty());
        assert(pattern_views(r@) =~= Seq::<PatternView<S>>::empty());
        while j < keys.len()
            invariant
                j <= keys@.len(),
                forall|n: usize| confidence_of.requires((n,)),
                forall|a: usize, b: usize| rate_of.requires((a, b)),
                sequence_views(keys@) == fo,
                counts@.len() == keys@.len(),
                sums@.len() == keys@.len(),
                forall|m: int|
                    0 <= m < keys@.len() ==> counts@[m] == tool_group(src, strs(keys@[m]@)).len() && sums@[m]
                        == sum_of(tool_group(src, strs(keys@[m]@)), duration_of()),
                freq == (|k: Seq<Seq<char>>| tool_group(src, k).len() >= self.min_occurrences),
                tool_rows(pattern_views(r@), keep(fo.take(j as int), freq), src),
                forall|m: int| 0 <= m < r@.len() ==> confidence_of.ensures((r@[m].occurrences,), #[trigger] r@[m].confidence.score),
                forall|m: int|
                    0 <= m < r@.len() ==> rate_of.ensures((r@[m].occurrences, r@[m].occurrences), #[trigger] r@[m].success_rate),
            decreases keys.len() - j,
        {
            let ghost k = fo[j as int];
            assert(sequence_views(keys@)[j as int] == strs(keys@[j as int]@));
            assert(fo.take(j + 1) =~= fo.take(j as int).push(k));
            proof {
                lemma_keep_push(fo.take(j as int), k, freq);
            }
            let ghost old_r = r@;
            let ghost kept = keep(fo.take(j as int), freq);
            if counts[j] >= self.min_occurrences {
                let p = tool_pattern(&keys[j], counts[j], sums[j], confidence_of, rate_of);
                assert(is_tool_pattern(p@, k, tool_group(src, k)));
                r.push(p);
                assert(pattern_views(r@) =~= pattern_views(old_r).push(p@));
                assert(keep(fo.take(j + 1), freq) == kept.push(k));
                assert forall|m: int| 0 <= m < r@.len() implies confidence_of.ensures((r@[m].occurrences,), #[trigger] r@[m].confidence.score)
                    && rate_of.ensures((r@[m].occurrences, r@[m].occurrences), r@[m].success_rate) by {
                    if m < old_r.len() {
                        assert(r@[m] == old_r[m]);
                    }
                }
                assert forall|m: int| 0 <= m < pattern_views(r@).len() implies is_tool_pattern(
                    #[trigger] pattern_views(r@)[m],
                    kept.push(k)[m],
                    tool_group(src, kept.push(k)[m]),
                ) by {
                    if m < old_r.len() {
                        assert(pattern_views(r@)[m] == pattern_views(old_r)[m]);
                        assert(kept.push(k)[m] == kept[m]);
                    }
                }
            } else {
                assert(keep(fo.take(j + 1), freq) == kept);
            }
            j += 1;
        }
        assert(fo.take(keys@.len() as int) =~= fo);
        r
    }
}

} // verus!

verus! {

/// A tally of character-sequence keys: the distinct keys of `prefix` in order of first
/// occurrence, and how often each occurs.
pub open spec fn tallies(keys: Seq<Vec<char>>, counts: Seq<usize>, prefix: Seq<Seq<char>>) -> bool {
    &&& char_seqs(keys) == first_occurrences(prefix)
    &&& counts.len() == keys.len()
    &&& forall|j: int| 0 <= j < keys.len() ==> counts[j] == occurrences(prefix, #[trigger] keys[j]@)
}

/// The index of `x` among `keys`, if it is there.
fn find_chars(keys: &Vec<Vec<char>>, x: &Vec<char>) -> (r: Option<usize>)
    ensures
        match r {
            Some(j) => j < keys@.len() && keys@[j as int]@ == x@,
            None => forall|j: int| 0 <= j < keys@.len() ==> keys@[j]@ != x@,
        },
{
    let mut j: usize = 0;
    while j < keys.len()
        invariant
            j <= keys@.len(),
            forall|i: int| 0 <= i < j ==> keys@[i]@ != x@,
        decreases keys.len() - j,
    {
        if chars_eq(keys[j].as_slice(), x.as_slice()) {
            return Some(j);
        }
        j += 1;
    }
    None
}

/// Counts one more occurrence of `x`.
fn tally_add(keys: &mut Vec<Vec<char>>, counts: &mut Vec<usize>, x: Vec<char>, Ghost(prefix): Ghost<Seq<Seq<char>>>)
    requires
        tallies(old(keys)@, old(counts)@, prefix),
        prefix.len() < usize::MAX,
    ensures
        tallies(final(keys)@, final(counts)@, prefix.push(x@)),
{
    let ghost xv = x@;
    proof {
        lemma_first_occurrences(prefix);
        lemma_first_occurrences_push(prefix, xv);
        assert forall|k: Seq<char>|
            #[trigger] occurrences(prefix.push(xv), k) == occurrences(prefix, k) + (if xv == k { 1nat } else { 0nat })
                && occurrences(prefix, k) <= prefix.len() by {
            lemma_occurrences_push(prefix, xv, k);
        }
    }
    match find_chars(keys, &x) {
        Some(j) => {
            assert(char_seqs(keys@)[j as int] == xv);
            assert(first_occurrences(prefix).contains(xv));
            proof {
                lemma_occurrences_push(prefix, xv, xv);
            }
            assert(occurrences(prefix, keys@[j as int]@) <= prefix.len());
            let c = counts[j];
            counts.set(j, c + 1);
            assert forall|i: int| 0 <= i < keys@.len() && i != j implies keys@[i]@ != xv by {
                assert(char_seqs(keys@)[i] == keys@[i]@);
                assert(first_occurrences(prefix).no_duplicates());
            }
        },
        None => {
            assert(!first_occurrences(prefix).contains(xv)) by {
                if first_occurrences(prefix).contains(xv) {
                    let i = choose|i: int| 0 <= i < keys@.len() && char_seqs(keys@)[i] == xv;
                    assert(keys@[i]@ == xv);
                }
            }
            assert(occurrences(prefix, xv) == 0) by {
                if occurrences(prefix, xv) > 0 {
                    lemma_keep_members(prefix, equal_to(xv));
                    assert(prefix.contains(keep(prefix, equal_to(xv))[0]));
                }
            }
            let ghost before = char_seqs(keys@);
            keys.push(x);
            counts.push(1);
            assert(char_seqs(keys@) =~= before.push(xv));
        },
    }
}

} // verus!

verus! {

/// The words that announce a command.
pub open spec fn command_keywords() -> Seq<Seq<char>> {
    seq!["bash"@, "shell"@, "exec"@, "run"@, "execute"@, "cmd"@]
}

/// The word after the first word from position `i` on that equals `kw` and has a word after it.
pub open spec fn word_after_from(ws: Seq<Seq<char>>, kw: Seq<char>, i: nat) -> Option<Seq<char>>
    decreases ws.len() - i,
{
    if i >= ws.len() {
        None
    } else if ws[i as int] == kw && i + 1 < ws.len() {
        Some(ws[i + 1 as int])
    } else {
        word_after_from(ws, kw, i + 1)
    }
}

/// The commands that the keywords `kws`, in order, announce in the lower-case text `lower`:
/// for each keyword that occurs in the text, the word after its first occurrence as a word
/// that has a word after it.
pub open spec fn commands_for_keywords(lower: Seq<char>, kws: Seq<Seq<char>>) -> Seq<Seq<char>>
    decreases kws.len(),
{
    if kws.len() == 0 {
        seq![]
    } else {
        let r = commands_for_keywords(lower, kws.drop_last());
        let kw = kws.last();
        if contains(lower, kw) && word_after_from(words(lower), kw, 0) is Some {
            r.push(word_after_from(words(lower), kw, 0)->0)
        } else {
            r
        }
    }
}

/// The commands named in a task context.
pub open spec fn commands_in(context: Seq<char>) -> Seq<Seq<char>> {
    commands_for_keywords(lowercase(context), command_keywords())
}

/// The commands named in the contexts of experiences, in order.
pub open spec fn all_commands<S>(exps: Seq<ExperienceView<S>>) -> Seq<Seq<char>> {
    flat_map(exps, |e: ExperienceView<S>| commands_in(e.context))
}

/// The commands named by the successful experiences among `exps`.
pub open spec fn command_uses<S>(exps: Seq<ExperienceView<S>>) -> Seq<Seq<char>> {
    all_commands(keep(exps, succeeded()))
}

/// The commands of `uses` named at least `min` times, in order of first use.
pub open spec fn frequent_commands(uses: Seq<Seq<char>>, min: nat) -> Seq<Seq<char>> {
    keep(first_occurrences(uses), |c: Seq<char>| occurrences(uses, c) >= min)
}

/// The identifier of the pattern of the command `c`.
pub open spec fn command_pattern_id(c: Seq<char>) -> Seq<char> {
    "cmd_"@ + replace_char(c, ' ', '_')
}

/// The description of the pattern of the command `c`, named `n` times.
pub open spec fn command_pattern_description(c: Seq<char>, n: nat) -> Seq<char> {
    "Command pattern: "@ + c + " (seen "@ + decimal(n) + " times)"@
}

/// `p` is the pattern of the command `c`, named `n` times; its scores are not part of this.
pub open spec fn is_command_pattern<S>(p: PatternView<S>, c: Seq<char>, n: nat) -> bool {
    &&& p.id == command_pattern_id(c)
    &&& p.pattern_type == PatternType::CommandPattern
    &&& p.description == command_pattern_description(c, n)
    &&& p.key_elements == seq![c]
    &&& p.occurrences == n
    &&& p.confidence.factors == seq!["command_frequency"@]
    &&& p.average_duration_ms == 0
    &&& p.first_seen == 0
}

/// The position of the first word equal to `kw` that has a word after it.
fn word_after(ws: &Vec<Vec<char>>, kw: &[char]) -> (r: Option<usize>)
    ensures
        match r {
            Some(i) => i + 1 < ws@.len() && word_after_from(char_seqs(ws@), kw@, 0) == Some(ws@[i + 1]@),
            None => word_after_from(char_seqs(ws@), kw@, 0) is None,
        },
{
    let ghost cs = char_seqs(ws@);
    let mut i: usize = 0;
    while i < ws.len()
        invariant
            i <= ws@.len(),
            cs == char_seqs(ws@),
            word_after_from(cs, kw@, 0) == word_after_from(cs, kw@, i as nat),
        decreases ws.len() - i,
    {
        if chars_eq(ws[i].as_slice(), kw) && i + 1 < ws.len() {
            assert(cs[i + 1] == ws@[i + 1]@);
            return Some(i);
        }
        i += 1;
    }
    None
}

/// The command keywords as character vectors.
fn command_keyword_chars() -> (r: Vec<Vec<char>>)
    ensures
        char_seqs(r@) == command_keywords(),
{
    let mut r: Vec<Vec<char>> = Vec::new();
    r.push(chars_of("bash"));
    r.push(chars_of("shell"));
    r.push(chars_of("exec"));
    r.push(chars_of("run"));
    r.push(chars_of("execute"));
    r.push(chars_of("cmd"));
    assert(char_seqs(r@) =~= command_keywords());
    r
}

/// The commands named in `context`.
pub fn context_commands(context: &str) -> (r: Vec<Vec<char>>)
    ensures
        char_seqs(r@) == commands_in(context@),
{
    let lower = to_lower(context);
    let lc = chars_of(lower.as_str());
    let ws = split_words(lc.as_slice());
    let kws = command_keyword_chars();
    let ghost kv = char_seqs(kws@);
    let mut r: Vec<Vec<char>> = Vec::new();
    let mut t: usize = 0;
    assert(char_seqs(r@) =~= commands_for_keywords(lc@, kv.take(0)));
    while t < kws.len()
        invariant
            t <= kws@.len(),
            kv == char_seqs(kws@),
            lc@ == lowercase(context@),
            char_seqs(ws@) == words(lc@),
            char_seqs(r@) == commands_for_keywords(lc@, kv.take(t as int)),
        decreases kws.len() - t,
    {
        assert(kv.take(t + 1).drop_last() =~= kv.take(t as int));
        assert(kv.take(t + 1).last() == kws@[t as int]@);
        if contains_chars(lc.as_slice(), kws[t].as_slice()) {
            match word_after(&ws, kws[t].as_slice()) {
                Some(i) => {
                    let ghost before = char_seqs(r@);
                    let wn = ws.len();
                    assert(i + 1 < wn);
                    let w = copy_chars(ws[i + 1].as_slice());
                    r.push(w);
                    assert(char_seqs(r@) =~= before.push(ws@[i + 1]@));
                },
                None => {},
            }
        }
        t += 1;
    }
    assert(kv.take(kws@.len() as int) =~= kv);
    r
}

} // verus!

verus! {

/// Counts each command named by the successful experiences, in order of first use.
pub fn tally_commands<S: Copy>(experiences: &[Experience<S>]) -> (r: (Vec<Vec<char>>, Vec<usize>))
    requires
        command_uses(views(experiences@)).len() < usize::MAX,
    ensures
        tallies(r.0@, r.1@, command_uses(views(experiences@))),
{
    let ghost ev = views(experiences@);
    let ghost f = |e: ExperienceView<S>| commands_in(e.context);
    let n = experiences.len();
    let mut keys: Vec<Vec<char>> = Vec::new();
    let mut counts: Vec<usize> = Vec::new();
    let mut i: usize = 0;
    assert(keep(ev.take(0), succeeded()) =~= Seq::<ExperienceView<S>>::empty());
    assert(char_seqs(keys@) =~= first_occurrences(all_commands(keep(ev.take(0), succeeded()))));
    while i < n
        invariant
            n == experiences@.len(),
            ev == views(experiences@),
            i <= n,
            command_uses(ev).len() < usize::MAX,
            f == (|e: ExperienceView<S>| commands_in(e.context)),
            tallies(keys@, counts@, all_commands(keep(ev.take(i as int), succeeded()))),
        decreases n - i,
    {
        let ghost done = keep(ev.take(i as int), succeeded());
        let ghost e = ev[i as int];
        assert(ev.take(i + 1) =~= ev.take(i as int).push(e));
        proof {
            lemma_keep_push(ev.take(i as int), e, succeeded());
        }
        let x = &experiences[i];
        assert(x@ == e);
        if x.is_successful() {
            let ghost done2 = done.push(e);
            assert(keep(ev.take(i + 1), succeeded()) == done2);
            proof {
                lemma_flat_map_push(done, e, f);
                lemma_keep_take(ev, i + 1, succeeded());
                lemma_flat_map_take(keep(ev, succeeded()), keep(ev.take(i + 1), succeeded()).len() as int, f);
            }
            let cs = context_commands(x.context.as_str());
            let ghost base = all_commands(done);
            let mut t: usize = 0;
            assert(base + char_seqs(cs@).take(0) =~= base);
            while t < cs.len()
                invariant
                    t <= cs@.len(),
                    char_seqs(cs@) == commands_in(e.context),
                    (base + char_seqs(cs@)).len() < usize::MAX,
                    tallies(keys@, counts@, base + char_seqs(cs@).take(t as int)),
                decreases cs.len() - t,
            {
                assert(base + char_seqs(cs@).take(t + 1) =~= (base + char_seqs(cs@).take(t as int)).push(cs@[t as int]@));
                let w = copy_chars(cs[t].as_slice());
                tally_add(&mut keys, &mut counts, w, Ghost(base + char_seqs(cs@).take(t as int)));
                t += 1;
            }
            assert(char_seqs(cs@).take(cs@.len() as int) =~= char_seqs(cs@));
            assert(all_commands(done2) == base + char_seqs(cs@));
        } else {
            assert(keep(ev.take(i + 1), succeeded()) == done);
        }
        i += 1;
    }
    assert(ev.take(n as int) =~= ev);
    (keys, counts)
}

} // verus!

verus! {

/// The identifier of the pattern of the file extension `ext`.
pub open spec fn file_pattern_id(ext: Seq<char>) -> Seq<char> {
    "file_"@ + ext
}

/// The description of the pattern of the file extension `ext`, seen `n` times.
pub open spec fn file_pattern_description(ext: Seq<char>, n: nat) -> Seq<char> {
    "File operation pattern for ."@ + ext + " files (seen "@ + decimal(n) + " times)"@
}

/// `p` is the pattern of the file extension `ext`, seen `n` times; its scores are not part of this.
pub open spec fn is_file_pattern<S>(p: PatternView<S>, ext: Seq<char>, n: nat) -> bool {
    &&& p.id == file_pattern_id(ext)
    &&& p.pattern_type == PatternType::FileOperation
    &&& p.description == file_pattern_description(ext, n)
    &&& p.key_elements == seq![ext]
    &&& p.occurrences == n
    &&& p.confidence.factors == seq!["file_extension_frequency"@]
    &&& p.average_duration_ms == 0
    &&& p.first_seen == 0
}

/// `p` is the pattern of kind `kind` (commands or file extensions) of the key `k`, seen `n` times.
pub open spec fn is_keyed_pattern<S>(kind: PatternType, p: PatternView<S>, k: Seq<char>, n: nat) -> bool {
    if kind == PatternType::CommandPattern {
        is_command_pattern(p, k, n)
    } else {
        is_file_pattern(p, k, n)
    }
}

/// The pattern of the command or file extension `key`, seen `count` times.
fn keyed_pattern<S: Copy, F: Fn(usize) -> S, G: Fn(usize, usize) -> S>(
    kind: PatternType,
    key: &Vec<char>,
    count: usize,
    confidence_of: &F,
    rate_of: &G,
) -> (p: Pattern<S>)
    requires
        kind == PatternType::CommandPattern || kind == PatternType::FileOperation,
        confidence_of.requires((count,)),
        rate_of.requires((count, count)),
    ensures
        is_keyed_pattern(kind, p@, key@, count as nat),
        confidence_of.ensures((count,), p.confidence.score),
        rate_of.ensures((count, count), p.success_rate),
{
    let name = string_from_chars(key.as_slice());
    let times = decimal_string(count as u64);
    let score = confidence_of(count);
    let rate = rate_of(count, count);
    let mut key_elements: Vec<String> = Vec::new();
    key_elements.push(string_from_chars(key.as_slice()));
    assert(strs(key_elements@) =~= seq![key@]);
    let is_command = match kind {
        PatternType::CommandPattern => true,
        _ => false,
    };
    let (id, description, factors) = if is_command {
        let underscored = replace_char_in(key.as_slice(), ' ', '_');
        let id = concat(owned("cmd_"), string_from_chars(underscored.as_slice()).as_str());
        let d1 = concat(owned("Command pattern: "), name.as_str());
        let d2 = concat(d1, " (seen ");
        let d3 = concat(d2, times.as_str());
        (id, concat(d3, " times)"), one_factor("command_frequency"))
    } else {
        let id = concat(owned("file_"), name.as_str());
        let d1 = concat(owned("File operation pattern for ."), name.as_str());
        let d2 = concat(d1, " files (seen ");
        let d3 = concat(d2, times.as_str());
        (id, concat(d3, " times)"), one_factor("file_extension_frequency"))
    };
    Pattern {
        id,
        pattern_type: kind,
        description,
        key_elements,
        occurrences: count,
        confidence: PatternConfidence { score, factors },
        success_rate: rate,
        average_duration_ms: 0,
        first_seen: 0,
        last_seen: utc_now_secs(),
    }
}

/// The patterns `r` are the patterns of kind `kind` of the keys `ks`, with their counts in `uses`.
pub open spec fn keyed_rows<S>(kind: PatternType, r: Seq<PatternView<S>>, ks: Seq<Seq<char>>, uses: Seq<Seq<char>>) -> bool {
    &&& r.len() == ks.len()
    &&& forall|m: int| 0 <= m < r.len() ==> is_keyed_pattern(kind, #[trigger] r[m], ks[m], occurrences(uses, ks[m]))
}

/// The patterns of kind `kind` of the tallied keys seen at least `min` times, in tally order.
fn patterns_from_tally<S: Copy, F: Fn(usize) -> S, G: Fn(usize, usize) -> S>(
    kind: PatternType,
    keys: &Vec<Vec<char>>,
    counts: &Vec<usize>,
    min: usize,
    confidence_of: &F,
    rate_of: &G,
    Ghost(uses): Ghost<Seq<Seq<char>>>,
) -> (r: Vec<Pattern<S>>)
    requires
        kind == PatternType::CommandPattern || kind == PatternType::FileOperation,
        tallies(keys@, counts@, uses),
        forall|n: usize| confidence_of.requires((n,)),
        forall|a: usize, b: usize| rate_of.requires((a, b)),
    ensures
        keyed_rows(kind, pattern_views(r@), frequent_commands(uses, min as nat), uses),
        forall|j: int| 0 <= j < r@.len() ==> confidence_of.ensures((r@[j].occurrences,), #[trigger] r@[j].confidence.score),
        forall|j: int|
            0 <= j < r@.len() ==> rate_of.ensures((r@[j].occurrences, r@[j].occurrences), #[trigger] r@[j].success_rate),
{
    let ghost fo = first_occurrences(uses);
    let ghost freq = |c: Seq<char>| occurrences(uses, c) >= min;
    let mut r: Vec<Pattern<S>> = Vec::new();
    let mut j: usize = 0;
    assert(keep(fo.take(0), freq) =~= Seq::<Seq<char>>::empty());
    assert(pattern_views(r@) =~= Seq::<PatternView<S>>::empty());
    while j < keys.len()
        invariant
            j <= keys@.len(),
            kind == PatternType::CommandPattern || kind == PatternType::FileOperation,
            forall|n: usize| confidence_of.requires((n,)),
            forall|a: usize, b: usize| rate_of.requires((a, b)),
            tallies(keys@, counts@, uses),
            fo == first_occurrences(uses),
            freq == (|c: Seq<char>| occurrences(uses, c) >= min),
            keyed_rows(kind, pattern_views(r@), keep(fo.take(j as int), freq), uses),
            forall|m: int| 0 <= m < r@.len() ==> confidence_of.ensures((r@[m].occurrences,), #[trigger] r@[m].confidence.score),
            forall|m: int|
                0 <= m < r@.len() ==> rate_of.ensures((r@[m].occurrences, r@[m].occurrences), #[trigger] r@[m].success_rate),
        decreases keys.len() - j,
    {
        let ghost k = fo[j as int];
        assert(char_seqs(keys@)[j as int] == keys@[j as int]@);
        assert(k == keys@[j as int]@);
        assert(counts@[j as int] == occurrences(uses, k));
        assert(fo.take(j + 1) =~= fo.take(j as int).push(k));
        proof {
            lemma_keep_push(fo.take(j as int), k, freq);
        }
        let ghost old_r = r@;
        let ghost kept = keep(fo.take(j as int), freq);
        if counts[j] >= min {
            let p = keyed_pattern(kind, &keys[j], counts[j], confidence_of, rate_of);
            r.push(p);
            assert(pattern_views(r@) =~= pattern_views(old_r).push(p@));
            assert(keep(fo.take(j + 1), freq) == kept.push(k));
            assert forall|m: int| 0 <= m < r@.len() implies confidence_of.ensures((r@[m].occurrences,), #[trigger] r@[m].confidence.score)
                && rate_of.ensures((r@[m].occurrences, r@[m].occurrences), r@[m].success_rate) by {
                if m < old_r.len() {
                    assert(r@[m] == old_r[m]);
                }
            }
            assert forall|m: int| 0 <= m < pattern_views(r@).len() implies is_keyed_pattern(
                kind,
                #[trigger] pattern_views(r@)[m],
                kept.push(k)[m],
                occurrences(uses, kept.push(k)[m]),
            ) by {
                if m < old_r.len() {
                    assert(pattern_views(r@)[m] == pattern_views(old_r)[m]);
                    assert(kept.push(k)[m] == kept[m]);
                }
            }
        } else {
            assert(keep(fo.take(j + 1), freq) == kept);
        }
        j += 1;
    }
    assert(char_seqs(keys@).len() == keys@.len());
    assert(fo.take(keys@.len() as int) =~= fo);
    r
}

} // verus!

verus! {

/// The words that announce a file operation.
pub open spec fn file_keywords() -> Seq<Seq<char>> {
    seq!["read"@, "write"@, "edit"@, "create"@, "delete"@, "modify"@]
}

/// Whether a word names a source or documentation file by its ending.
pub open spec fn names_code_file(w: Seq<char>) -> bool {
    ||| ends_with(w, ".rs"@)
    ||| ends_with(w, ".py"@)
    ||| ends_with(w, ".js"@)
    ||| ends_with(w, ".ts"@)
    ||| ends_with(w, ".go"@)
    ||| ends_with(w, ".md"@)
}

/// The part of a path after its last `/`: for a path that does not end with `/`, its final
/// component, the file name.
pub open spec fn last_segment(w: Seq<char>) -> Seq<char>
    decreases w.len(),
{
    if w.len() == 0 || w.last() == '/' {
        Seq::empty()
    } else {
        last_segment(w.drop_last()).push(w.last())
    }
}

/// The extension of a word that names a code file by its ending (`.rs`, `.py`, ...): the
/// two characters after the final `.`, or none when the file name is that ending alone.
pub open spec fn code_file_extension(w: Seq<char>) -> Option<Seq<char>> {
    if last_segment(w).len() == 3 {
        None
    } else {
        Some(w.subrange(w.len() - 2, w.len() as int))
    }
}

/// Whether `w` holds none of `/`, backslash and `:`: on every platform, a path of one
/// ordinary component, which is its file name.
pub open spec fn plain_name(w: Seq<char>) -> bool {
    forall|i: int| 0 <= i < w.len() ==> #[trigger] w[i] != '/' && w[i] != '\\' && w[i] != ':'
}

/// `w` with every backslash and `:` made `_`, characters that some platforms (Windows) read
/// as separators or drive prefixes and others as part of a file name.
pub open spec fn path_safe(w: Seq<char>) -> Seq<char> {
    replace_char(replace_char(w, '\\', '_'), ':', '_')
}

/// Calls `std::path::Path::extension` on `name` (viewed as a path by `Path::new`), a file name
/// that ends like a code file and holds no `/`, backslash or `:`, and converts the result to a
/// `String` (`OsStr::to_str`, which succeeds on what came from a `&str`). Such a name is a
/// single ordinary path component on every platform, so by the documentation its extension
/// is the portion after its final `.`, and there is none when it begins with `.` and has no
/// other `.`, which for such a name happens exactly when it is the ending alone.
#[verifier::external_body]
fn path_extension_of(name: &str) -> (r: Option<String>)
    requires
        names_code_file(name@),
        plain_name(name@),
    ensures
        opt_str(r) == code_file_extension(name@),
{
    std::path::Path::new(name).extension().and_then(|e| e.to_str()).map(|e| e.to_string())
}

/// The file name of a path is the end of the path, and holds no `/`.
proof fn lemma_last_segment_suffix(w: Seq<char>)
    ensures
        last_segment(w).len() <= w.len(),
        last_segment(w) =~= w.subrange(w.len() - last_segment(w).len(), w.len() as int),
        forall|i: int| 0 <= i < last_segment(w).len() ==> #[trigger] last_segment(w)[i] != '/',
    decreases w.len(),
{
    if w.len() > 0 && w.last() != '/' {
        lemma_last_segment_suffix(w.drop_last());
        let t = last_segment(w.drop_last());
        assert(last_segment(w) == t.push(w.last()));
        assert forall|i: int| 0 <= i < t.len() + 1 implies #[trigger] t.push(w.last())[i] == w.subrange(
            w.len() - t.len() - 1,
            w.len() as int,
        )[i] by {
            if i < t.len() {
                assert(t[i] == w.drop_last().subrange(w.len() - 1 - t.len(), w.len() - 1)[i]);
            }
        }
    }
}

/// A path without `/` is its own file name.
proof fn lemma_last_segment_plain(w: Seq<char>)
    requires
        forall|i: int| 0 <= i < w.len() ==> #[trigger] w[i] != '/',
    ensures
        last_segment(w) == w,
    decreases w.len(),
{
    if w.len() > 0 {
        lemma_last_segment_plain(w.drop_last());
        assert(w.drop_last().push(w.last()) =~= w);
    }
}

/// The file name of a code-file word, made safe for every platform, is a plain name that
/// ends like a code file and has the word's extension.
proof fn lemma_file_name(w: Seq<char>)
    requires
        names_code_file(w),
    ensures
        names_code_file(path_safe(last_segment(w))),
        plain_name(path_safe(last_segment(w))),
        code_file_extension(path_safe(last_segment(w))) == code_file_extension(w),
{
    reveal_strlit(".rs");
    reveal_strlit(".py");
    reveal_strlit(".js");
    reveal_strlit(".ts");
    reveal_strlit(".go");
    reveal_strlit(".md");
    let n = w.len() as int;
    assert(w.subrange(n - 3, n)[0] == w[n - 3]);
    assert(w.subrange(n - 3, n)[1] == w[n - 2]);
    assert(w.subrange(n - 3, n)[2] == w[n - 1]);
    let w1 = w.drop_last();
    let w2 = w1.drop_last();
    assert(last_segment(w) == last_segment(w1).push(w[n - 1]));
    assert(w1.last() == w[n - 2]);
    assert(last_segment(w1) == last_segment(w2).push(w[n - 2]));
    assert(w2.last() == w[n - 3]);
    assert(last_segment(w2) == last_segment(w2.drop_last()).push(w[n - 3]));
    lemma_last_segment_suffix(w);
    let ls = last_segment(w);
    let l = ls.len() as int;
    assert(l >= 3);
    assert(ls[l - 1] == w[n - 1]);
    assert(ls[l - 2] == w[n - 2]);
    assert(ls[l - 3] == w[n - 3]);
    let seg = path_safe(ls);
    assert forall|i: int| 0 <= i < l implies #[trigger] seg[i] == (if ls[i] == '\\' || ls[i] == ':' {
        '_'
    } else {
        ls[i]
    }) by {}
    assert(plain_name(seg));
    lemma_last_segment_plain(seg);
    assert(seg.subrange(l - 3, l) =~= w.subrange(n - 3, n));
    assert(seg.subrange(l - 2, l) =~= w.subrange(n - 2, n));
}

/// The file name of a path: what follows its last `/`.
fn last_segment_chars(w: &[char]) -> (r: Vec<char>)
    ensures
        r@ == last_segment(w@),
{
    let mut start: usize = 0;
    let mut i: usize = 0;
    assert(w@.take(0) =~= Seq::<char>::empty());
    while i < w.len()
        invariant
            i <= w@.len(),
            start <= i,
            last_segment(w@.take(i as int)) == w@.subrange(start as int, i as int),
        decreases w.len() - i,
    {
        assert(w@.take(i + 1).drop_last() =~= w@.take(i as int));
        assert(w@.take(i + 1).last() == w@[i as int]);
        if w[i] == '/' {
            start = i + 1;
            assert(w@.subrange(start as int, i + 1) =~= Seq::<char>::empty());
        } else {
            assert(w@.subrange(start as int, i + 1) =~= w@.subrange(start as int, i as int).push(w@[i as int]));
        }
        i += 1;
    }
    assert(w@.take(w@.len() as int) =~= w@);
    let mut r: Vec<char> = Vec::new();
    let mut k: usize = start;
    assert(w@.subrange(start as int, start as int) =~= Seq::<char>::empty());
    while k < w.len()
        invariant
            start <= k <= w@.len(),
            last_segment(w@) == w@.subrange(start as int, w@.len() as int),
            r@ == w@.subrange(start as int, k as int),
        decreases w.len() - k,
    {
        r.push(w[k]);
        assert(w@.subrange(start as int, k + 1) =~= w@.subrange(start as int, k as int).push(w@[k as int]));
        k += 1;
    }
    r
}

/// The extension of the file a code-file word names, or `*` when it has none; the file name
/// is what follows the last `/`, on every platform.
pub open spec fn extension_or_star(w: Seq<char>) -> Seq<char> {
    match code_file_extension(w) {
        Some(e) => e,
        None => "*"@,
    }
}

/// The extensions of the files that the words `ws` name, in order.
pub open spec fn extensions_in(ws: Seq<Seq<char>>) -> Seq<Seq<char>> {
    flat_map(ws, |w: Seq<char>| if names_code_file(w) { seq![extension_or_star(w)] } else { seq![] })
}

/// The file extensions counted for the lower-case text `lower`: the extensions of the
/// files it names, once for each of the keywords `kws` that occurs in it.
pub open spec fn extensions_for_keywords(lower: Seq<char>, kws: Seq<Seq<char>>) -> Seq<Seq<char>> {
    flat_map(kws, |kw: Seq<char>| if contains(lower, kw) { extensions_in(words(lower)) } else { seq![] })
}

/// The file extensions counted for a task context.
pub open spec fn extensions_in_context(context: Seq<char>) -> Seq<Seq<char>> {
    extensions_for_keywords(lowercase(context), file_keywords())
}

/// The file extensions counted for the successful experiences among `exps`, in order.
pub open spec fn extension_uses<S>(exps: Seq<ExperienceView<S>>) -> Seq<Seq<char>> {
    flat_map(keep(exps, succeeded()), |e: ExperienceView<S>| extensions_in_context(e.context))
}

/// The file keywords as character vectors.
fn file_keyword_chars() -> (r: Vec<Vec<char>>)
    ensures
        char_seqs(r@) == file_keywords(),
{
    let mut r: Vec<Vec<char>> = Vec::new();
    r.push(chars_of("read"));
    r.push(chars_of("write"));
    r.push(chars_of("edit"));
    r.push(chars_of("create"));
    r.push(chars_of("delete"));
    r.push(chars_of("modify"));
    assert(char_seqs(r@) =~= file_keywords());
    r
}

/// Decides `names_code_file`.
fn names_code_file_chars(w: &[char]) -> (b: bool)
    ensures
        b == names_code_file(w@),
{
    let rs = chars_of(".rs");
    let py = chars_of(".py");
    let js = chars_of(".js");
    let ts = chars_of(".ts");
    let go = chars_of(".go");
    let md = chars_of(".md");
    ends_with_chars(w, rs.as_slice()) || ends_with_chars(w, py.as_slice()) || ends_with_chars(w, js.as_slice())
        || ends_with_chars(w, ts.as_slice()) || ends_with_chars(w, go.as_slice()) || ends_with_chars(
        w,
        md.as_slice(),
    )
}

/// The extensions of the files that the words name.
fn word_extensions(ws: &Vec<Vec<char>>) -> (r: Vec<Vec<char>>)
    ensures
        char_seqs(r@) == extensions_in(char_seqs(ws@)),
{
    let ghost wv = char_seqs(ws@);
    let ghost f = |w: Seq<char>| if names_code_file(w) { seq![extension_or_star(w)] } else { Seq::<Seq<char>>::empty() };
    let mut r: Vec<Vec<char>> = Vec::new();
    let mut i: usize = 0;
    assert(char_seqs(r@) =~= flat_map(wv.take(0), f));
    while i < ws.len()
        invariant
            i <= ws@.len(),
            wv == char_seqs(ws@),
            f == (|w: Seq<char>| if names_code_file(w) { seq![extension_or_star(w)] } else { Seq::<Seq<char>>::empty() }),
            char_seqs(r@) == flat_map(wv.take(i as int), f),
        decreases ws.len() - i,
    {
        assert(wv.take(i + 1) =~= wv.take(i as int).push(wv[i as int]));
        proof {
            lemma_flat_map_push(wv.take(i as int), wv[i as int], f);
        }
        assert(wv[i as int] == ws@[i as int]@);
        let ghost before = char_seqs(r@);
        if names_code_file_chars(ws[i].as_slice()) {
            let file_name = last_segment_chars(ws[i].as_slice());
            let backslash_free = replace_char_in(file_name.as_slice(), '\\', '_');
            let safe = replace_char_in(backslash_free.as_slice(), ':', '_');
            proof {
                lemma_file_name(wv[i as int]);
            }
            let name = string_from_chars(safe.as_slice());
            let ext = match path_extension_of(name.as_str()) {
                Some(e) => chars_of(e.as_str()),
                None => chars_of("*"),
            };
            assert(ext@ == extension_or_star(wv[i as int]));
            r.push(ext);
            assert(char_seqs(r@) =~= before + seq![extension_or_star(wv[i as int])]);
        } else {
            assert(before + Seq::<Seq<char>>::empty() =~= before);
        }
        i += 1;
    }
    assert(wv.take(ws@.len() as int) =~= wv);
    r
}

/// The file extensions counted for `context`.
pub fn context_file_extensions(context: &str) -> (r: Vec<Vec<char>>)
    ensures
        char_seqs(r@) == extensions_in_context(context@),
{
    let lower = to_lower(context);
    let lc = chars_of(lower.as_str());
    let ws = split_words(lc.as_slice());
    let exts = word_extensions(&ws);
    let kws = file_keyword_chars();
    let ghost kv = char_seqs(kws@);
    let ghost f = |kw: Seq<char>| if contains(lc@, kw) { extensions_in(words(lc@)) } else { Seq::<Seq<char>>::empty() };
    let mut r: Vec<Vec<char>> = Vec::new();
    let mut t: usize = 0;
    assert(char_seqs(r@) =~= flat_map(kv.take(0), f));
    while t < kws.len()
        invariant
            t <= kws@.len(),
            kv == char_seqs(kws@),
            lc@ == lowercase(context@),
            char_seqs(ws@) == words(lc@),
            char_seqs(exts@) == extensions_in(words(lc@)),
            f == (|kw: Seq<char>| if contains(lc@, kw) { extensions_in(words(lc@)) } else { Seq::<Seq<char>>::empty() }),
            char_seqs(r@) == flat_map(kv.take(t as int), f),
        decreases kws.len() - t,
    {
        assert(kv.take(t + 1) =~= kv.take(t as int).push(kv[t as int]));
        proof {
            lemma_flat_map_push(kv.take(t as int), kv[t as int], f);
        }
        assert(kv[t as int] == kws@[t as int]@);
        let ghost before = char_seqs(r@);
        if contains_chars(lc.as_slice(), kws[t].as_slice()) {
            let mut k: usize = 0;
            while k < exts.len()
                invariant
                    k <= exts@.len(),
                    char_seqs(r@) == before + char_seqs(exts@).take(k as int),
                decreases exts.len() - k,
            {
                let ghost mid = char_seqs(r@);
                let e = copy_chars(exts[k].as_slice());
                r.push(e);
                assert(char_seqs(r@) =~= mid.push(exts@[k as int]@));
                assert(char_seqs(exts@).take(k + 1) =~= char_seqs(exts@).take(k as int).push(exts@[k as int]@));
                k += 1;
            }
            assert(char_seqs(exts@).take(exts@.len() as int) =~= char_seqs(exts@));
        } else {
            assert(before + Seq::<Seq<char>>::empty() =~= before);
        }
        t += 1;
    }
    assert(kv.take(kws@.len() as int) =~= kv);
    r
}

/// Counts each file extension counted for the successful experiences, in order of first use.
pub fn tally_file_extensions<S: Copy>(experiences: &[Experience<S>]) -> (r: (Vec<Vec<char>>, Vec<usize>))
    requires
        extension_uses(views(experiences@)).len() < usize::MAX,
    ensures
        tallies(r.0@, r.1@, extension_uses(views(experiences@))),
{
    let ghost ev = views(experiences@);
    let ghost f = |e: ExperienceView<S>| extensions_in_context(e.context);
    let n = experiences.len();
    let mut keys: Vec<Vec<char>> = Vec::new();
    let mut counts: Vec<usize> = Vec::new();
    let mut i: usize = 0;
    assert(keep(ev.take(0), succeeded()) =~= Seq::<ExperienceView<S>>::empty());
    assert(char_seqs(keys@) =~= first_occurrences(flat_map(keep(ev.take(0), succeeded()), f)));
    while i < n
        invariant
            n == experiences@.len(),
            ev == views(experiences@),
            i <= n,
            extension_uses(ev).len() < usize::MAX,
            f == (|e: ExperienceView<S>| extensions_in_context(e.context)),
            tallies(keys@, counts@, flat_map(keep(ev.take(i as int), succeeded()), f)),
        decreases n - i,
    {
        let ghost done = keep(ev.take(i as int), succeeded());
        let ghost e = ev[i as int];
        assert(ev.take(i + 1) =~= ev.take(i as int).push(e));
        proof {
            lemma_keep_push(ev.take(i as int), e, succeeded());
        }
        let x = &experiences[i];
        assert(x@ == e);
        if x.is_successful() {
            let ghost done2 = done.push(e);
            assert(keep(ev.take(i + 1), succeeded()) == done2);
            proof {
                lemma_flat_map_push(done, e, f);
                lemma_keep_take(ev, i + 1, succeeded());
                lemma_flat_map_take(keep(ev, succeeded()), keep(ev.take(i + 1), succeeded()).len() as int, f);
            }
            let cs = context_file_extensions(x.context.as_str());
            let ghost base = flat_map(done, f);
            let mut t: usize = 0;
            assert(base + char_seqs(cs@).take(0) =~= base);
            while t < cs.len()
                invariant
                    t <= cs@.len(),
                    char_seqs(cs@) == extensions_in_context(e.context),
                    (base + char_seqs(cs@)).len() < usize::MAX,
                    tallies(keys@, counts@, base + char_seqs(cs@).take(t as int)),
                decreases cs.len() - t,
            {
                assert(base + char_seqs(cs@).take(t + 1) =~= (base + char_seqs(cs@).take(t as int)).push(cs@[t as int]@));
                let w = copy_chars(cs[t].as_slice());
                tally_add(&mut keys, &mut counts, w, Ghost(base + char_seqs(cs@).take(t as int)));
                t += 1;
            }
            assert(char_seqs(cs@).take(cs@.len() as int) =~= char_seqs(cs@));
            assert(flat_map(done2, f) == base + char_seqs(cs@));
        } else {
            assert(keep(ev.take(i + 1), succeeded()) == done);
        }
        i += 1;
    }
    assert(ev.take(n as int) =~= ev);
    (keys, counts)
}

} // verus!

verus! {

impl<S: Copy> PatternExtractor<S> {
    /// The patterns of the commands that successful experiences name at least as often as
    /// the threshold, in order of first use. Confidence and success rate come from
    /// `confidence_of(count)` and `rate_of(count, count)`: every counted use succeeded.
    pub fn extract_command_patterns<F: Fn(usize) -> S, G: Fn(usize, usize) -> S>(
        &self,
        experiences: &[Experience<S>],
        confidence_of: &F,
        rate_of: &G,
    ) -> (r: Vec<Pattern<S>>)
        requires
            forall|n: usize| confidence_of.requires((n,)),
            forall|a: usize, b: usize| rate_of.requires((a, b)),
            command_uses(views(experiences@)).len() < usize::MAX,
        ensures
            keyed_rows(
                PatternType::CommandPattern,
                pattern_views(r@),
                frequent_commands(command_uses(views(experiences@)), self.threshold()),
                command_uses(views(experiences@)),
            ),
            forall|j: int| 0 <= j < r@.len() ==> confidence_of.ensures((r@[j].occurrences,), #[trigger] r@[j].confidence.score),
            forall|j: int|
                0 <= j < r@.len() ==> rate_of.ensures((r@[j].occurrences, r@[j].occurrences), #[trigger] r@[j].success_rate),
    {
        let (keys, counts) = tally_commands(experiences);
        patterns_from_tally(
            PatternType::CommandPattern,
            &keys,
            &counts,
            self.min_occurrences,
            confidence_of,
            rate_of,
            Ghost(command_uses(views(experiences@))),
        )
    }

    /// The patterns of the file extensions counted for successful experiences at least as
    /// often as the threshold, in order of first use. Confidence and success rate come from
    /// `confidence_of(count)` and `rate_of(count, count)`: every counted use succeeded.
    pub fn extract_file_operation_patterns<F: Fn(usize) -> S, G: Fn(usize, usize) -> S>(
        &self,
        experiences: &[Experience<S>],
        confidence_of: &F,
        rate_of: &G,
    ) -> (r: Vec<Pattern<S>>)
        requires
            forall|n: usize| confidence_of.requires((n,)),
            forall|a: usize, b: usize| rate_of.requires((a, b)),
            extension_uses(views(experiences@)).len() < usize::MAX,
        ensures
            keyed_rows(
                PatternType::FileOperation,
                pattern_views(r@),
                frequent_commands(extension_uses(views(experiences@)), self.threshold()),
                extension_uses(views(experiences@)),
            ),
            forall|j: int| 0 <= j < r@.len() ==> confidence_of.ensures((r@[j].occurrences,), #[trigger] r@[j].confidence.score),
            forall|j: int|
                0 <= j < r@.len() ==> rate_of.ensures((r@[j].occurrences, r@[j].occurrences), #[trigger] r@[j].success_rate),
    {
        let (keys, counts) = tally_file_extensions(experiences);
        patterns_from_tally(
            PatternType::FileOperation,
            &keys,
            &counts,
            self.min_occurrences,
            confidence_of,
            rate_of,
            Ghost(extension_uses(views(experiences@))),
        )
    }
}

} // verus!

verus! {

/// The first position in `st` of a pattern with identifier `id`, or -1.
#[verifier::opaque]
pub open spec fn find_id<S>(st: Seq<PatternView<S>>, id: Seq<char>) -> int
    decreases st.len(),
{
    if st.len() == 0 {
        -1
    } else {
        let i = find_id(st.drop_last(), id);
        if i >= 0 {
            i
        } else if st.last().id == id {
            st.len() - 1
        } else {
            -1
        }
    }
}

/// No two patterns of `st` share an identifier.
pub open spec fn distinct_ids<S>(st: Seq<PatternView<S>>) -> bool {
    forall|i: int, j: int| 0 <= i < j < st.len() ==> st[i].id != st[j].id
}

/// What `find_id` finds.
pub proof fn lemma_find_id<S>(st: Seq<PatternView<S>>, id: Seq<char>)
    ensures
        find_id(st, id) >= 0 ==> find_id(st, id) < st.len() && st[find_id(st, id)].id == id,
        find_id(st, id) < 0 ==> find_id(st, id) == -1 && forall|i: int| 0 <= i < st.len() ==> st[i].id != id,
    decreases st.len(),
{
    reveal(find_id);
    if st.len() > 0 {
        let t = st.drop_last();
        lemma_find_id(t, id);
        assert forall|i: int| 0 <= i < t.len() implies t[i] == st[i] by {}
    }
}

/// `find_id` finds the first pattern with the identifier.
pub proof fn lemma_find_id_first<S>(st: Seq<PatternView<S>>, id: Seq<char>, j: int)
    requires
        0 <= j < st.len(),
        st[j].id == id,
        forall|k: int| 0 <= k < j ==> st[k].id != id,
    ensures
        find_id(st, id) == j,
    decreases st.len(),
{
    reveal(find_id);
    let t = st.drop_last();
    if j < t.len() {
        assert forall|k: int| 0 <= k < j implies t[k].id != id by {
            assert(t[k] == st[k]);
        }
        lemma_find_id_first(t, id, j);
    } else {
        lemma_find_id(t, id);
        if find_id(t, id) >= 0 {
            assert(t[find_id(t, id)] == st[find_id(t, id)]);
        }
    }
}

/// Whether a pattern of `ds` from position `from` on has identifier `id`.
pub open spec fn has_id_from<S>(ds: Seq<PatternView<S>>, from: int, id: Seq<char>) -> bool {
    exists|m: int| from <= m < ds.len() && #[trigger] ds[m].id == id
}

/// One merge of a discovered pattern `p` into the store `before`, giving `after`: a
/// stored pattern with the same identifier has the occurrences added, takes the last
/// sighting of `p`, and a confidence score that `average` returned for the two scores;
/// otherwise `p` is stored.
#[verifier::opaque]
pub open spec fn merge_step<S, A: Fn(S, S) -> S>(
    before: Seq<PatternView<S>>,
    p: PatternView<S>,
    after: Seq<PatternView<S>>,
    average: A,
) -> bool {
    let i = find_id(before, p.id);
    if i >= 0 {
        let o = before[i];
        exists|score: S|
            #[trigger] average.ensures((o.confidence.score, p.confidence.score), score) && after == before.update(
                i,
                PatternView {
                    occurrences: (o.occurrences + p.occurrences) as usize,
                    last_seen: p.last_seen,
                    confidence: ConfidenceView { score, factors: o.confidence.factors },
                    ..o
                },
            )
    } else {
        after == before.push(p)
    }
}

/// Merging the discovered patterns `ds`, in order, into the store `before` gives `after`.
pub open spec fn merge_chain<S, A: Fn(S, S) -> S>(
    before: Seq<PatternView<S>>,
    ds: Seq<PatternView<S>>,
    after: Seq<PatternView<S>>,
    average: A,
) -> bool
    decreases ds.len(),
{
    if ds.len() == 0 {
        after == before
    } else {
        exists|mid: Seq<PatternView<S>>|
            merge_chain(before, ds.drop_last(), mid, average) && #[trigger] merge_step(mid, ds.last(), after, average)
    }
}

/// Merging one more discovered pattern extends a merge.
pub proof fn lemma_merge_chain_push<S, A: Fn(S, S) -> S>(
    before: Seq<PatternView<S>>,
    ds: Seq<PatternView<S>>,
    mid: Seq<PatternView<S>>,
    p: PatternView<S>,
    after: Seq<PatternView<S>>,
    average: A,
)
    requires
        merge_chain(before, ds, mid, average),
        merge_step(mid, p, after, average),
    ensures
        merge_chain(before, ds.push(p), after, average),
{
    assert(ds.push(p).drop_last() == ds);
    assert(merge_step(mid, ds.push(p).last(), after, average));
}

/// The number of occurrences of a pattern.
pub open spec fn occurrences_of<S>() -> spec_fn(PatternView<S>) -> nat {
    |p: PatternView<S>| p.occurrences as nat
}

/// Patterns seen at least `min` times.
pub open spec fn seen_at_least<S>(min: nat) -> spec_fn(PatternView<S>) -> bool {
    |p: PatternView<S>| p.occurrences >= min
}

/// Patterns of kind `t`.
pub open spec fn of_type<S>(t: PatternType) -> spec_fn(PatternView<S>) -> bool {
    |p: PatternView<S>| p.pattern_type == t
}

impl<S: Copy> PatternExtractor<S> {
    /// No two stored patterns share an identifier.
    pub open spec fn well_formed(&self) -> bool {
        distinct_ids(self.stored())
    }

    /// The position of the first stored pattern with identifier `id`, if there is one.
    fn position_of(&self, id: &str) -> (r: Option<usize>)
        ensures
            match r {
                Some(j) => j < self.stored().len() && self.stored()[j as int].id == id@ && forall|k: int|
                    0 <= k < j ==> self.stored()[k].id != id@,
                None => forall|k: int| 0 <= k < self.stored().len() ==> self.stored()[k].id != id@,
            },
    {
        let mut j: usize = 0;
        while j < self.patterns.len()
            invariant
                j <= self.patterns@.len(),
                forall|k: int| 0 <= k < j ==> self.stored()[k].id != id@,
            decreases self.patterns.len() - j,
        {
            assert(self.stored()[j as int] == self.patterns@[j as int]@);
            if str_eq(self.patterns[j].id.as_str(), id) {
                return Some(j);
            }
            j += 1;
        }
        None
    }

    /// Adds the discovered pattern `d` to the pattern stored at `j`.
    fn merge_at<A: Fn(S, S) -> S>(&mut self, j: usize, d: &Pattern<S>, average: &A)
        requires
            j < old(self).stored().len(),
            forall|a: S, b: S| average.requires((a, b)),
            old(self).stored()[j as int].occurrences + d.occurrences <= usize::MAX,
        ensures
            final(self).min_occurrences == old(self).min_occurrences,
            exists|score: S|
                #[trigger] average.ensures((old(self).stored()[j as int].confidence.score, d.confidence.score), score)
                    && final(self).stored() == old(self).stored().update(
                    j as int,
                    PatternView {
                        occurrences: (old(self).stored()[j as int].occurrences + d.occurrences) as usize,
                        last_seen: d.last_seen,
                        confidence: ConfidenceView { score, factors: old(self).stored()[j as int].confidence.factors },
                        ..old(self).stored()[j as int]
                    },
                ),
    {
        let ghost cur = self.stored();
        let o = self.patterns[j].duplicate();
        assert(o@ == cur[j as int]);
        let score = average(o.confidence.score, d.confidence.score);
        let merged = Pattern {
            occurrences: o.occurrences + d.occurrences,
            last_seen: d.last_seen,
            confidence: PatternConfidence { score, factors: o.confidence.factors },
            ..o
        };
        self.patterns.set(j, merged);
        assert(self.stored() =~= cur.update(
            j as int,
            PatternView {
                occurrences: (cur[j as int].occurrences + d.occurrences) as usize,
                last_seen: d.last_seen,
                confidence: ConfidenceView { score, factors: cur[j as int].confidence.factors },
                ..cur[j as int]
            },
        ));
    }

    /// Merges one discovered pattern into the store.
    fn merge_one<A: Fn(S, S) -> S>(&mut self, d: &Pattern<S>, average: &A)
        requires
            distinct_ids(old(self).stored()),
            forall|a: S, b: S| average.requires((a, b)),
            find_id(old(self).stored(), d@.id) >= 0 ==> old(self).stored()[find_id(old(self).stored(), d@.id)].occurrences
                + d.occurrences <= usize::MAX,
        ensures
            distinct_ids(final(self).stored()),
            final(self).min_occurrences == old(self).min_occurrences,
            merge_step(old(self).stored(), d@, final(self).stored(), *average),
            final(self).stored().len() >= old(self).stored().len(),
            forall|k: int|
                0 <= k < old(self).stored().len() ==> {
                    &&& #[trigger] final(self).stored()[k].id == old(self).stored()[k].id
                    &&& old(self).stored()[k].id != d@.id ==> final(self).stored()[k].occurrences == old(
                        self,
                    ).stored()[k].occurrences
                    &&& old(self).stored()[k].id == d@.id ==> final(self).stored()[k].occurrences == old(
                        self,
                    ).stored()[k].occurrences + d.occurrences
                },
            forall|k: int|
                old(self).stored().len() <= k < final(self).stored().len() ==> #[trigger] final(self).stored()[k] == d@,
    {
        let ghost cur = self.stored();
        let ghost p = d@;
        proof {
            lemma_find_id(cur, p.id);
        }
        let found = self.position_of(d.id.as_str());
        match found {
            Some(j) => {
                proof {
                    lemma_find_id_first(cur, p.id, j as int);
                }
                self.merge_at(j, d, average);
                assert(merge_step(cur, p, self.stored(), *average)) by {
                    reveal(merge_step);
                }
                assert forall|k: int| 0 <= k < cur.len() && k != j implies cur[k].id != p.id by {
                    if k < j {
                    } else {
                        assert(cur[j as int].id != cur[k].id);
                    }
                }
                assert forall|a: int, b: int| 0 <= a < b < self.stored().len() implies self.stored()[a].id
                    != self.stored()[b].id by {
                    assert(self.stored()[a].id == cur[a].id);
                    assert(self.stored()[b].id == cur[b].id);
                }
            },
            None => {
                assert(find_id(cur, p.id) < 0);
                let copy = d.duplicate();
                self.patterns.push(copy);
                assert(self.stored() =~= cur.push(p));
                assert(merge_step(cur, p, self.stored(), *average)) by {
                    reveal(merge_step);
                }
                assert forall|a: int, b: int| 0 <= a < b < self.stored().len() implies self.stored()[a].id
                    != self.stored()[b].id by {
                    if b == cur.len() {
                        assert(cur[a].id != p.id);
                    }
                }
            },
        }
    }

    /// Merges discovered patterns into the store, in order.
    #[verifier::rlimit(60)]
    pub fn merge_discovered<A: Fn(S, S) -> S>(&mut self, discovered: &Vec<Pattern<S>>, average: &A)
        requires
            old(self).well_formed(),
            forall|a: S, b: S| average.requires((a, b)),
            sum_of(pattern_views(discovered@), occurrences_of()) <= usize::MAX,
            forall|k: int|
                0 <= k < old(self).stored().len() && has_id_from(pattern_views(discovered@), 0, #[trigger] old(
                    self,
                ).stored()[k].id) ==> old(self).stored()[k].occurrences + sum_of(
                    pattern_views(discovered@),
                    occurrences_of(),
                ) <= usize::MAX,
        ensures
            final(self).well_formed(),
            final(self).threshold() == old(self).threshold(),
            merge_chain(old(self).stored(), pattern_views(discovered@), final(self).stored(), *average),
    {
        let ghost ds = pattern_views(discovered@);
        let ghost total = sum_of(ds, occurrences_of());
        let ghost before = self.stored();
        let mut i: usize = 0;
        assert(ds.take(0) =~= Seq::<PatternView<S>>::empty());
        assert(merge_chain(before, ds.take(0), self.stored(), *average)) by {
        }
        while i < discovered.len()
            invariant
                i <= discovered@.len(),
                ds == pattern_views(discovered@),
                total == sum_of(ds, occurrences_of()),
                total <= usize::MAX,
                forall|a: S, b: S| average.requires((a, b)),
                self.min_occurrences == old(self).min_occurrences,
                distinct_ids(self.stored()),
                merge_chain(before, ds.take(i as int), self.stored(), *average),
                sum_of(ds.take(i as int), occurrences_of()) <= total,
                forall|k: int|
                    0 <= k < self.stored().len() && has_id_from(ds, i as int, #[trigger] self.stored()[k].id)
                        ==> self.stored()[k].occurrences + total - sum_of(ds.take(i as int), occurrences_of())
                        <= usize::MAX,
            decreases discovered.len() - i,
        {
            let ghost cur = self.stored();
            let ghost p = ds[i as int];
            assert(ds.take(i + 1) =~= ds.take(i as int).push(p));
            assert(ds.take(i + 1).drop_last() == ds.take(i as int));
            proof {
                lemma_sum_push(ds.take(i as int), p, occurrences_of());
                crate::seqs::lemma_sum_prefix(ds, i + 1, occurrences_of());
                lemma_find_id(cur, p.id);
            }
            assert(discovered@[i as int]@ == p);
            proof {
                assert(has_id_from(ds, i as int, p.id));
                if find_id(cur, p.id) >= 0 {
                    assert(cur[find_id(cur, p.id)].id == p.id);
                }
            }
            self.merge_one(&discovered[i], average);
            proof {
                lemma_merge_chain_push(before, ds.take(i as int), cur, p, self.stored(), *average);
                let nxt = self.stored();
                assert forall|k: int|
                    0 <= k < nxt.len() && has_id_from(ds, i + 1, #[trigger] nxt[k].id) implies nxt[k].occurrences
                        + total - sum_of(ds.take(i + 1), occurrences_of()) <= usize::MAX by {
                    if k < cur.len() {
                        assert(nxt[k].id == cur[k].id);
                        let m = choose|m: int| i + 1 <= m < ds.len() && ds[m].id == nxt[k].id;
                        assert(has_id_from(ds, i as int, cur[k].id));
                    }
                }
            }
            i += 1;
        }
        assert(ds.take(discovered@.len() as int) =~= ds);
    }
}

} // verus!

verus! {

/// How often the tool sequence `k` was used by experiences of `sources`.
pub open spec fn tool_count<S>(sources: Seq<ExperienceView<S>>) -> spec_fn(Seq<Seq<char>>) -> nat {
    |k: Seq<Seq<char>>| tool_group(sources, k).len()
}

/// How often the key `k` occurs in `uses`.
pub open spec fn use_count(uses: Seq<Seq<char>>) -> spec_fn(Seq<char>) -> nat {
    |k: Seq<char>| occurrences(uses, k)
}

/// The total number of occurrences of the patterns that `exps` yield with threshold `min`.
pub open spec fn discovered_total<S>(exps: Seq<ExperienceView<S>>, min: nat) -> nat {
    sum_of(frequent_tool_sequences(tool_sources(exps), min), tool_count(tool_sources(exps))) + sum_of(
        frequent_commands(command_uses(exps), min),
        use_count(command_uses(exps)),
    ) + sum_of(frequent_commands(extension_uses(exps), min), use_count(extension_uses(exps)))
}

/// `ds` are the patterns that `exps` yield with threshold `min`: those of the frequent tool
/// sequences, then those of the frequent commands, then those of the frequent file
/// extensions, with scores that `confidence_of` and `rate_of` returned for their counts.
pub open spec fn discovered_from<S, F: Fn(usize) -> S, G: Fn(usize, usize) -> S>(
    ds: Seq<PatternView<S>>,
    exps: Seq<ExperienceView<S>>,
    min: nat,
    confidence_of: F,
    rate_of: G,
) -> bool {
    let t = frequent_tool_sequences(tool_sources(exps), min);
    let c = frequent_commands(command_uses(exps), min);
    let e = frequent_commands(extension_uses(exps), min);
    &&& ds.len() == t.len() + c.len() + e.len()
    &&& tool_rows(ds.take(t.len() as int), t, tool_sources(exps))
    &&& keyed_rows(
        PatternType::CommandPattern,
        ds.subrange(t.len() as int, (t.len() + c.len()) as int),
        c,
        command_uses(exps),
    )
    &&& keyed_rows(PatternType::FileOperation, ds.skip((t.len() + c.len()) as int), e, extension_uses(exps))
    &&& forall|m: int|
        0 <= m < ds.len() ==> confidence_of.ensures((ds[m].occurrences,), #[trigger] ds[m].confidence.score)
            && rate_of.ensures((ds[m].occurrences, ds[m].occurrences), ds[m].success_rate)
}

/// The counts that extracting patterns from `exps` into the store `stored` with threshold
/// `min` adds up fit in machine integers: the durations of each tool sequence's uses, the
/// numbers of command and file-extension uses, and the occurrences of the discovered
/// patterns, alone and added to those of each stored pattern that is discovered again.
pub open spec fn extraction_fits<S>(exps: Seq<ExperienceView<S>>, stored: Seq<PatternView<S>>, min: nat) -> bool {
    &&& forall|k: Seq<Seq<char>>| sum_of(#[trigger] tool_group(tool_sources(exps), k), duration_of()) <= u64::MAX
    &&& command_uses(exps).len() < usize::MAX
    &&& extension_uses(exps).len() < usize::MAX
    &&& discovered_total(exps, min) <= usize::MAX
    &&& forall|k: int|
        0 <= k < stored.len() && rediscovered(exps, min, #[trigger] stored[k].id) ==> stored[k].occurrences
            + discovered_total(exps, min) <= usize::MAX
}

/// Whether `id` is the identifier of one of the patterns that `exps` yield with threshold
/// `min`: that of a frequent tool sequence, command or file extension.
pub open spec fn rediscovered<S>(exps: Seq<ExperienceView<S>>, min: nat, id: Seq<char>) -> bool {
    ||| exists|k: Seq<Seq<char>>|
        #[trigger] frequent_tool_sequences(tool_sources(exps), min).contains(k) && tool_pattern_id(k) == id
    ||| exists|c: Seq<char>| #[trigger] frequent_commands(command_uses(exps), min).contains(c) && command_pattern_id(c) == id
    ||| exists|e: Seq<char>| #[trigger] frequent_commands(extension_uses(exps), min).contains(e) && file_pattern_id(e) == id
}

/// Each pattern that the experiences yield is among the discovered patterns.
proof fn lemma_rediscovered_found<S, F: Fn(usize) -> S, G: Fn(usize, usize) -> S>(
    ds: Seq<PatternView<S>>,
    exps: Seq<ExperienceView<S>>,
    min: nat,
    confidence_of: F,
    rate_of: G,
    id: Seq<char>,
)
    requires
        discovered_from(ds, exps, min, confidence_of, rate_of),
        rediscovered(exps, min, id),
    ensures
        has_id_from(ds, 0, id),
{
    let t = frequent_tool_sequences(tool_sources(exps), min);
    let c = frequent_commands(command_uses(exps), min);
    let e = frequent_commands(extension_uses(exps), min);
    if exists|k: Seq<Seq<char>>| #[trigger] t.contains(k) && tool_pattern_id(k) == id {
        let k = choose|k: Seq<Seq<char>>| #[trigger] t.contains(k) && tool_pattern_id(k) == id;
        let m = choose|m: int| 0 <= m < t.len() && t[m] == k;
        let r = ds.take(t.len() as int);
        assert(is_tool_pattern(r[m], t[m], tool_group(tool_sources(exps), t[m])));
        assert(r[m] == ds[m]);
        assert(ds[m].id == id);
    } else if exists|x: Seq<char>| #[trigger] c.contains(x) && command_pattern_id(x) == id {
        let x = choose|x: Seq<char>| #[trigger] c.contains(x) && command_pattern_id(x) == id;
        let j = choose|j: int| 0 <= j < c.len() && c[j] == x;
        let r = ds.subrange(t.len() as int, (t.len() + c.len()) as int);
        assert(is_keyed_pattern(PatternType::CommandPattern, r[j], c[j], occurrences(command_uses(exps), c[j])));
        assert(r[j] == ds[t.len() + j]);
        assert(ds[t.len() + j].id == id);
    } else {
        let x = choose|x: Seq<char>| #[trigger] e.contains(x) && file_pattern_id(x) == id;
        let j = choose|j: int| 0 <= j < e.len() && e[j] == x;
        let r = ds.skip((t.len() + c.len()) as int);
        assert(is_keyed_pattern(PatternType::FileOperation, r[j], e[j], occurrences(extension_uses(exps), e[j])));
        assert(r[j] == ds[t.len() + c.len() + j]);
        assert(ds[t.len() + c.len() + j].id == id);
    }
}

/// Each discovered pattern has the identifier of a pattern that the experiences yield.
proof fn lemma_discovered_ids<S, F: Fn(usize) -> S, G: Fn(usize, usize) -> S>(
    ds: Seq<PatternView<S>>,
    exps: Seq<ExperienceView<S>>,
    min: nat,
    confidence_of: F,
    rate_of: G,
    m: int,
)
    requires
        discovered_from(ds, exps, min, confidence_of, rate_of),
        0 <= m < ds.len(),
    ensures
        rediscovered(exps, min, ds[m].id),
{
    let t = frequent_tool_sequences(tool_sources(exps), min);
    let c = frequent_commands(command_uses(exps), min);
    let e = frequent_commands(extension_uses(exps), min);
    if m < t.len() {
        let r = ds.take(t.len() as int);
        assert(r[m] == ds[m]);
        assert(is_tool_pattern(r[m], t[m], tool_group(tool_sources(exps), t[m])));
        assert(t.contains(t[m]));
    } else if m < t.len() + c.len() {
        let r = ds.subrange(t.len() as int, (t.len() + c.len()) as int);
        let j = m - t.len();
        assert(r[j] == ds[m]);
        assert(is_keyed_pattern(PatternType::CommandPattern, r[j], c[j], occurrences(command_uses(exps), c[j])));
        assert(c.contains(c[j]));
    } else {
        let r = ds.skip((t.len() + c.len()) as int);
        let j = m - t.len() - c.len();
        assert(r[j] == ds[m]);
        assert(is_keyed_pattern(PatternType::FileOperation, r[j], e[j], occurrences(extension_uses(exps), e[j])));
        assert(e.contains(e[j]));
    }
}

/// `after` is the store that extracting the patterns of `exps` with threshold `min` and
/// merging them into `before` gives (see `discovered_from` and `merge_chain`).
pub open spec fn extracted_into<S, F: Fn(usize) -> S, G: Fn(usize, usize) -> S, A: Fn(S, S) -> S>(
    before: Seq<PatternView<S>>,
    exps: Seq<ExperienceView<S>>,
    min: nat,
    confidence_of: F,
    rate_of: G,
    average: A,
    after: Seq<PatternView<S>>,
) -> bool {
    exists|ds: Seq<PatternView<S>>|
        #[trigger] discovered_from(ds, exps, min, confidence_of, rate_of) && merge_chain(before, ds, after, average)
}

/// Every tool-sequence pattern of `st` has a key element.
pub open spec fn tool_keys<S>(st: Seq<PatternView<S>>) -> bool {
    forall|k: int| 0 <= k < st.len() && #[trigger] st[k].pattern_type == PatternType::ToolSequence ==> st[k].key_elements.len() > 0
}

/// The tool sequences that are frequent among the experiences are not empty.
proof fn lemma_frequent_sequences_nonempty<S>(exps: Seq<ExperienceView<S>>, min: nat)
    ensures
        forall|m: int|
            0 <= m < frequent_tool_sequences(tool_sources(exps), min).len() ==> #[trigger] frequent_tool_sequences(
                tool_sources(exps),
                min,
            )[m].len() > 0,
{
    let src = tool_sources(exps);
    let fo = first_occurrences(tools_of(src));
    let t = frequent_tool_sequences(src, min);
    lemma_keep_members(exps, has_tool_sequence());
    lemma_first_occurrences(tools_of(src));
    lemma_keep_members(fo, |k: Seq<Seq<char>>| tool_group(src, k).len() >= min);
    assert forall|m: int| 0 <= m < t.len() implies #[trigger] t[m].len() > 0 by {
        assert(fo.contains(t[m]));
        assert(tools_of(src).contains(t[m]));
        let j = choose|j: int| 0 <= j < tools_of(src).len() && tools_of(src)[j] == t[m];
        assert(src.contains(src[j]));
    }
}

/// Merging discovered patterns whose tool sequences have key elements keeps every stored
/// tool sequence with a key element.
proof fn lemma_merge_keeps_tool_keys<S, A: Fn(S, S) -> S>(
    before: Seq<PatternView<S>>,
    ds: Seq<PatternView<S>>,
    after: Seq<PatternView<S>>,
    average: A,
)
    requires
        tool_keys(before),
        tool_keys(ds),
        merge_chain(before, ds, after, average),
    ensures
        tool_keys(after),
    decreases ds.len(),
{
    if ds.len() > 0 {
        let t = ds.drop_last();
        let p = ds.last();
        let mid = choose|mid: Seq<PatternView<S>>|
            merge_chain(before, t, mid, average) && #[trigger] merge_step(mid, p, after, average);
        assert forall|k: int| 0 <= k < t.len() && #[trigger] t[k].pattern_type == PatternType::ToolSequence implies t[k].key_elements.len() > 0 by {
            assert(t[k] == ds[k]);
        }
        lemma_merge_keeps_tool_keys(before, t, mid, average);
        reveal(merge_step);
        lemma_find_id(mid, p.id);
        let i = find_id(mid, p.id);
        assert(p == ds[ds.len() - 1]);
        if i >= 0 {
            let score = choose|score: S|
                #[trigger] average.ensures((mid[i].confidence.score, p.confidence.score), score) && after == mid.update(
                    i,
                    PatternView {
                        occurrences: (mid[i].occurrences + p.occurrences) as usize,
                        last_seen: p.last_seen,
                        confidence: ConfidenceView { score, factors: mid[i].confidence.factors },
                        ..mid[i]
                    },
                );
            assert forall|k: int| 0 <= k < after.len() && #[trigger] after[k].pattern_type == PatternType::ToolSequence implies after[k].key_elements.len() > 0 by {
                assert(after[k].pattern_type == mid[k].pattern_type && after[k].key_elements == mid[k].key_elements);
            }
        } else {
            assert forall|k: int| 0 <= k < after.len() && #[trigger] after[k].pattern_type == PatternType::ToolSequence implies after[k].key_elements.len() > 0 by {
                if k < mid.len() {
                    assert(after[k] == mid[k]);
                }
            }
        }
    }
}

/// Extraction keeps every stored tool sequence with a key element: the tool sequences it
/// discovers are taken from experiences that used a tool.
pub proof fn lemma_extraction_keeps_tool_keys<S, F: Fn(usize) -> S, G: Fn(usize, usize) -> S, A: Fn(S, S) -> S>(
    before: Seq<PatternView<S>>,
    exps: Seq<ExperienceView<S>>,
    min: nat,
    confidence_of: F,
    rate_of: G,
    average: A,
    after: Seq<PatternView<S>>,
)
    requires
        tool_keys(before),
        extracted_into(before, exps, min, confidence_of, rate_of, average, after),
    ensures
        tool_keys(after),
{
    let ds = choose|ds: Seq<PatternView<S>>|
        #[trigger] discovered_from(ds, exps, min, confidence_of, rate_of) && merge_chain(before, ds, after, average);
    let t = frequent_tool_sequences(tool_sources(exps), min);
    let c = frequent_commands(command_uses(exps), min);
    lemma_frequent_sequences_nonempty(exps, min);
    assert forall|k: int| 0 <= k < ds.len() && #[trigger] ds[k].pattern_type == PatternType::ToolSequence implies ds[k].key_elements.len() > 0 by {
        if k < t.len() {
            assert(ds.take(t.len() as int)[k] == ds[k]);
        } else if k < t.len() + c.len() {
            assert(ds.subrange(t.len() as int, (t.len() + c.len()) as int)[k - t.len()] == ds[k]);
        } else {
            assert(ds.skip((t.len() + c.len()) as int)[k - t.len() - c.len()] == ds[k]);
        }
    }
    lemma_merge_keeps_tool_keys(before, ds, after, average);
}

/// Patterns whose confidence score `at_least` finds no lower than `threshold`.
pub open spec fn confident_at<S, F: Fn(S, S) -> bool>(threshold: S, at_least: F) -> spec_fn(PatternView<S>) -> bool {
    |p: PatternView<S>| at_least.ensures((p.confidence.score, threshold), true)
}

/// Storing `p`: it replaces the stored pattern with its identifier, or is added.
pub open spec fn store_one<S>(st: Seq<PatternView<S>>, p: PatternView<S>) -> Seq<PatternView<S>> {
    let i = find_id(st, p.id);
    if i >= 0 {
        st.update(i, p)
    } else {
        st.push(p)
    }
}

/// Storing the patterns `ps` in order.
pub open spec fn store_all<S>(st: Seq<PatternView<S>>, ps: Seq<PatternView<S>>) -> Seq<PatternView<S>>
    decreases ps.len(),
{
    if ps.len() == 0 {
        st
    } else {
        store_one(store_all(st, ps.drop_last()), ps.last())
    }
}

impl<S: Copy> PatternExtractor<S> {
    /// The stored patterns that satisfy `p`, decided by `pick`.
    fn select<P: Fn(&Pattern<S>) -> bool>(&self, pick: P, Ghost(p): Ghost<spec_fn(PatternView<S>) -> bool>) -> (r: Vec<
        Pattern<S>,
    >)
        requires
            forall|x: &Pattern<S>| #[trigger] pick.requires((x,)),
            forall|x: &Pattern<S>, b: bool| #[trigger] pick.ensures((x,), b) ==> b == p(x@),
        ensures
            pattern_views(r@) == keep(self.stored(), p),
    {
        let n = self.patterns.len();
        let mut r: Vec<Pattern<S>> = Vec::new();
        let mut i: usize = 0;
        assert(pattern_views(r@) =~= keep(self.stored().take(0), p));
        while i < n
            invariant
                n == self.patterns@.len(),
                i <= n,
                forall|x: &Pattern<S>| #[trigger] pick.requires((x,)),
                forall|x: &Pattern<S>, b: bool| #[trigger] pick.ensures((x,), b) ==> b == p(x@),
                pattern_views(r@) == keep(self.stored().take(i as int), p),
            decreases n - i,
        {
            let ghost t = self.stored().take(i as int);
            assert(self.stored().take(i + 1) =~= t.push(self.stored()[i as int]));
            proof {
                lemma_keep_push(t, self.stored()[i as int], p);
            }
            let x = &self.patterns[i];
            assert(x@ == self.stored()[i as int]);
            if pick(x) {
                let d = x.duplicate();
                let ghost before = pattern_views(r@);
                r.push(d);
                assert(pattern_views(r@) =~= before.push(d@));
            }
            i += 1;
        }
        assert(self.stored().take(n as int) =~= self.stored());
        r
    }

    /// The stored patterns of kind `pattern_type`.
    pub fn get_patterns_by_type(&self, pattern_type: PatternType) -> (r: Vec<Pattern<S>>)
        ensures
            pattern_views(r@) == keep(self.stored(), of_type(pattern_type)),
    {
        let pick = |x: &Pattern<S>| -> (b: bool)
            ensures
                b == (x.pattern_type == pattern_type),
            { x.pattern_type == pattern_type };
        self.select(pick, Ghost(of_type(pattern_type)))
    }

    /// The stored patterns whose confidence score `at_least` finds no lower than `threshold`.
    pub fn get_high_confidence_patterns<F: Fn(S, S) -> bool>(&self, threshold: S, at_least: &F) -> (r: Vec<Pattern<S>>)
        requires
            forall|a: S, b: S| at_least.requires((a, b)),
            forall|a: S, b: S, x: bool, y: bool| at_least.ensures((a, b), x) && at_least.ensures((a, b), y) ==> x == y,
        ensures
            pattern_views(r@) == keep(self.stored(), confident_at(threshold, *at_least)),
    {
        let pick = |x: &Pattern<S>| -> (b: bool)
            ensures
                at_least.ensures((x.confidence.score, threshold), b),
            { at_least(x.confidence.score, threshold) };
        self.select(pick, Ghost(confident_at(threshold, *at_least)))
    }

    /// All stored patterns.
    pub fn get_all_patterns(&self) -> (r: Vec<Pattern<S>>)
        ensures
            pattern_views(r@) == self.stored(),
    {
        let pick = |x: &Pattern<S>| -> (b: bool)
            ensures
                b,
            { true };
        let r = self.select(pick, Ghost(|p: PatternView<S>| true));
        proof {
            lemma_keep_all(self.stored());
        }
        r
    }
}

} // verus!

verus! {

impl<S: Copy> PatternExtractor<S> {
    /// The patterns that `experiences` yield with the threshold (see `discovered_from`); their
    /// occurrences add up to `discovered_total`.
    fn discover<F: Fn(usize) -> S, G: Fn(usize, usize) -> S>(
        &self,
        experiences: &[Experience<S>],
        confidence_of: &F,
        rate_of: &G,
    ) -> (r: Vec<Pattern<S>>)
        requires
            forall|n: usize| confidence_of.requires((n,)),
            forall|a: usize, b: usize| rate_of.requires((a, b)),
            forall|k: Seq<Seq<char>>| sum_of(#[trigger] tool_group(tool_sources(views(experiences@)), k), duration_of()) <= u64::MAX,
            command_uses(views(experiences@)).len() < usize::MAX,
            extension_uses(views(experiences@)).len() < usize::MAX,
        ensures
            discovered_from(pattern_views(r@), views(experiences@), self.threshold(), *confidence_of, *rate_of),
            sum_of(pattern_views(r@), occurrences_of()) == discovered_total(views(experiences@), self.threshold()),
    {
        let ghost ev = views(experiences@);
        let ghost min = self.threshold();
        let mut discovered = self.extract_tool_sequence_patterns(experiences, confidence_of, rate_of);
        let mut commands = self.extract_command_patterns(experiences, confidence_of, rate_of);
        let mut files = self.extract_file_operation_patterns(experiences, confidence_of, rate_of);
        let ghost tv = pattern_views(discovered@);
        let ghost cv = pattern_views(commands@);
        let ghost fv = pattern_views(files@);
        let ghost t = frequent_tool_sequences(tool_sources(ev), min);
        let ghost c = frequent_commands(command_uses(ev), min);
        let ghost e = frequent_commands(extension_uses(ev), min);
        let ghost all_r = discovered@ + commands@ + files@;
        discovered.append(&mut commands);
        discovered.append(&mut files);
        assert(discovered@ == all_r);
        let ghost ds = pattern_views(discovered@);
        assert(ds =~= tv + cv + fv);
        assert(ds.take(t.len() as int) =~= tv);
        assert(ds.subrange(t.len() as int, (t.len() + c.len()) as int) =~= cv);
        assert(ds.skip((t.len() + c.len()) as int) =~= fv);
        assert forall|m: int|
            0 <= m < ds.len() implies confidence_of.ensures((ds[m].occurrences,), #[trigger] ds[m].confidence.score)
                && rate_of.ensures((ds[m].occurrences, ds[m].occurrences), ds[m].success_rate) by {
            assert(ds[m] == all_r[m]@);
        }
        assert(discovered_from(ds, ev, min, *confidence_of, *rate_of));
        proof {
            assert forall|m: int| 0 <= m < tv.len() implies occurrences_of()(tv[m]) == tool_count(tool_sources(ev))(t[m]) by {
                assert(is_tool_pattern(tv[m], t[m], tool_group(tool_sources(ev), t[m])));
            }
            lemma_sum_pointwise(tv, t, occurrences_of(), tool_count(tool_sources(ev)));
            assert forall|m: int| 0 <= m < cv.len() implies occurrences_of()(cv[m]) == use_count(command_uses(ev))(c[m]) by {
                assert(is_keyed_pattern(PatternType::CommandPattern, cv[m], c[m], occurrences(command_uses(ev), c[m])));
            }
            lemma_sum_pointwise(cv, c, occurrences_of(), use_count(command_uses(ev)));
            assert forall|m: int| 0 <= m < fv.len() implies occurrences_of()(fv[m]) == use_count(extension_uses(ev))(e[m]) by {
                assert(is_keyed_pattern(PatternType::FileOperation, fv[m], e[m], occurrences(extension_uses(ev), e[m])));
            }
            lemma_sum_pointwise(fv, e, occurrences_of(), use_count(extension_uses(ev)));
            lemma_sum_concat(tv, cv, occurrences_of());
            lemma_sum_concat(tv + cv, fv, occurrences_of());
        }
        assert(sum_of(ds, occurrences_of()) == discovered_total(ev, min));
        discovered
    }

    /// Extracts the patterns of `experiences` (tool sequences, then commands, then file
    /// extensions), merges them into the store, and returns the stored patterns seen at least
    /// as often as the threshold, in store order. Scores come from `confidence_of(count)`,
    /// `rate_of(successes, count)` and, for a merge, `average(stored score, new score)`.
    pub fn extract_from_experiences<F: Fn(usize) -> S, G: Fn(usize, usize) -> S, A: Fn(S, S) -> S>(
        &mut self,
        experiences: &[Experience<S>],
        confidence_of: &F,
        rate_of: &G,
        average: &A,
    ) -> (r: Vec<Pattern<S>>)
        requires
            old(self).well_formed(),
            forall|n: usize| confidence_of.requires((n,)),
            forall|a: usize, b: usize| rate_of.requires((a, b)),
            forall|a: S, b: S| average.requires((a, b)),
            extraction_fits(views(experiences@), old(self).stored(), old(self).threshold()),
        ensures
            final(self).well_formed(),
            final(self).threshold() == old(self).threshold(),
            extracted_into(
                old(self).stored(),
                views(experiences@),
                old(self).threshold(),
                *confidence_of,
                *rate_of,
                *average,
                final(self).stored(),
            ),
            pattern_views(r@) == keep(final(self).stored(), seen_at_least(final(self).threshold())),
    {
        let ghost ev = views(experiences@);
        let ghost min = self.threshold();
        let discovered = self.discover(experiences, confidence_of, rate_of);
        self.merge_and_report(discovered, Ghost(ev), confidence_of, rate_of, average)
    }

    /// Merges the patterns `discovered` from `exps` into the store and returns the stored
    /// patterns seen at least as often as the threshold.
    fn merge_and_report<F: Fn(usize) -> S, G: Fn(usize, usize) -> S, A: Fn(S, S) -> S>(
        &mut self,
        discovered: Vec<Pattern<S>>,
        Ghost(exps): Ghost<Seq<ExperienceView<S>>>,
        confidence_of: &F,
        rate_of: &G,
        average: &A,
    ) -> (r: Vec<Pattern<S>>)
        requires
            old(self).well_formed(),
            forall|a: S, b: S| average.requires((a, b)),
            discovered_from(pattern_views(discovered@), exps, old(self).threshold(), *confidence_of, *rate_of),
            sum_of(pattern_views(discovered@), occurrences_of()) == discovered_total(exps, old(self).threshold()),
            extraction_fits(exps, old(self).stored(), old(self).threshold()),
        ensures
            final(self).well_formed(),
            final(self).threshold() == old(self).threshold(),
            extracted_into(
                old(self).stored(),
                exps,
                old(self).threshold(),
                *confidence_of,
                *rate_of,
                *average,
                final(self).stored(),
            ),
            pattern_views(r@) == keep(final(self).stored(), seen_at_least(final(self).threshold())),
    {
        let ghost min = self.threshold();
        let ghost ds = pattern_views(discovered@);
        assert forall|k: int|
            0 <= k < self.stored().len() && has_id_from(ds, 0, #[trigger] self.stored()[k].id) implies self.stored()[k].occurrences
                + sum_of(ds, occurrences_of()) <= usize::MAX by {
            let m = choose|m: int| 0 <= m < ds.len() && ds[m].id == self.stored()[k].id;
            lemma_discovered_ids(ds, exps, min, *confidence_of, *rate_of, m);
        }
        self.merge_discovered(&discovered, average);
        let threshold = self.min_occurrences;
        let pick = |x: &Pattern<S>| -> (b: bool)
            ensures
                b == (x.occurrences >= threshold),
            { x.occurrences >= threshold };
        assert(extracted_into(old(self).stored(), exps, min, *confidence_of, *rate_of, *average, self.stored()));
        self.select(pick, Ghost(seen_at_least(threshold as nat)))
    }

    /// Whether each stored pattern that one of `discovered` has the identifier of has room for
    /// `total` more occurrences.
    fn rediscovered_within(&self, discovered: &Vec<Pattern<S>>, total: usize) -> (b: bool)
        ensures
            b == forall|j: int|
                0 <= j < self.stored().len() && has_id_from(pattern_views(discovered@), 0, #[trigger] self.stored()[j].id)
                    ==> self.stored()[j].occurrences + total <= usize::MAX,
    {
        let ghost ds = pattern_views(discovered@);
        let room = usize::MAX - total;
        let mut k: usize = 0;
        while k < self.patterns.len()
            invariant
                k <= self.patterns@.len(),
                room == usize::MAX - total,
                ds == pattern_views(discovered@),
                forall|j: int|
                    0 <= j < k && has_id_from(ds, 0, #[trigger] self.stored()[j].id) ==> self.stored()[j].occurrences
                        + total <= usize::MAX,
            decreases self.patterns.len() - k,
        {
            assert(self.stored()[k as int] == self.patterns@[k as int]@);
            if self.patterns[k].occurrences > room && Self::has_pattern_id(discovered, self.patterns[k].id.as_str()) {
                assert(has_id_from(ds, 0, self.stored()[k as int].id));
                assert(!(self.stored()[k as int].occurrences + total <= usize::MAX));
                return false;
            }
            k += 1;
        }
        true
    }

    /// Whether one of `ds` has identifier `id`.
    fn has_pattern_id(ds: &Vec<Pattern<S>>, id: &str) -> (b: bool)
        ensures
            b == has_id_from(pattern_views(ds@), 0, id@),
    {
        let ghost dv = pattern_views(ds@);
        let mut i: usize = 0;
        while i < ds.len()
            invariant
                i <= ds@.len(),
                dv == pattern_views(ds@),
                forall|m: int| 0 <= m < i ==> dv[m].id != id@,
            decreases ds.len() - i,
        {
            assert(dv[i as int] == ds@[i as int]@);
            if str_eq(ds[i].id.as_str(), id) {
                assert(dv[i as int].id == id@);
                return true;
            }
            i += 1;
        }
        false
    }

    /// Stores each of `patterns` in order: a pattern replaces the stored pattern with its
    /// identifier, or is added.
    pub fn merge_patterns(&mut self, patterns: Vec<Pattern<S>>)
        requires
            old(self).well_formed(),
        ensures
            final(self).well_formed(),
            final(self).threshold() == old(self).threshold(),
            final(self).stored() == store_all(old(self).stored(), pattern_views(patterns@)),
    {
        let ghost ps = pattern_views(patterns@);
        let ghost before = self.stored();
        let mut i: usize = 0;
        assert(ps.take(0) =~= Seq::<PatternView<S>>::empty());
        while i < patterns.len()
            invariant
                i <= patterns@.len(),
                ps == pattern_views(patterns@),
                self.min_occurrences == old(self).min_occurrences,
                distinct_ids(self.stored()),
                self.stored() == store_all(before, ps.take(i as int)),
            decreases patterns.len() - i,
        {
            let ghost cur = self.stored();
            let ghost p = ps[i as int];
            assert(ps.take(i + 1) =~= ps.take(i as int).push(p));
            assert(ps.take(i + 1).drop_last() == ps.take(i as int));
            proof {
                lemma_find_id(cur, p.id);
            }
            let d = patterns[i].duplicate();
            assert(d@ == p);
            match self.position_of(d.id.as_str()) {
                Some(j) => {
                    proof {
                        lemma_find_id_first(cur, p.id, j as int);
                    }
                    self.patterns.set(j, d);
                    assert(self.stored() =~= cur.update(j as int, p));
                    assert forall|a: int, b: int| 0 <= a < b < self.stored().len() implies self.stored()[a].id
                        != self.stored()[b].id by {
                        assert(self.stored()[a].id == cur[a].id);
                        assert(self.stored()[b].id == cur[b].id);
                    }
                },
                None => {
                    self.patterns.push(d);
                    assert(self.stored() =~= cur.push(p));
                    assert forall|a: int, b: int| 0 <= a < b < self.stored().len() implies self.stored()[a].id
                        != self.stored()[b].id by {
                        if b == cur.len() {
                            assert(cur[a].id != p.id);
                        }
                    }
                },
            }
            assert(self.stored() == store_one(cur, p));
            i += 1;
        }
        assert(ps.take(patterns@.len() as int) =~= ps);
    }
}

} // verus!

verus! {

/// The occurrences of `ds` added up, when that fits in `usize`.
fn occurrences_total<S>(ds: &Vec<Pattern<S>>) -> (r: Option<usize>)
    ensures
        match r {
            Some(t) => t == sum_of(pattern_views(ds@), occurrences_of()),
            None => sum_of(pattern_views(ds@), occurrences_of()) > usize::MAX,
        },
{
    let ghost dv = pattern_views(ds@);
    let mut total: usize = 0;
    let mut i: usize = 0;
    assert(dv.take(0) =~= Seq::<PatternView<S>>::empty());
    while i < ds.len()
        invariant
            i <= ds@.len(),
            dv == pattern_views(ds@),
            total == sum_of(dv.take(i as int), occurrences_of()),
        decreases ds.len() - i,
    {
        assert(dv.take(i + 1) =~= dv.take(i as int).push(dv[i as int]));
        proof {
            lemma_sum_push(dv.take(i as int), dv[i as int], occurrences_of());
            crate::seqs::lemma_sum_prefix(dv, i + 1, occurrences_of());
        }
        assert(dv[i as int] == ds@[i as int]@);
        match total.checked_add(ds[i].occurrences) {
            Some(t) => {
                total = t;
            },
            None => {
                return None;
            },
        }
        i += 1;
    }
    assert(dv.take(ds@.len() as int) =~= dv);
    Some(total)
}

impl<S: Copy> PatternExtractor<S> {
    /// Whether the commands and the file extensions that the successful experiences name are
    /// each fewer than `usize::MAX`.
    pub fn use_counts_fit(experiences: &[Experience<S>]) -> (b: bool)
        ensures
            b == (command_uses(views(experiences@)).len() < usize::MAX && extension_uses(views(experiences@)).len()
                < usize::MAX),
    {
        let ghost ev = views(experiences@);
        let ghost fc = |e: ExperienceView<S>| commands_in(e.context);
        let ghost fe = |e: ExperienceView<S>| extensions_in_context(e.context);
        let n = experiences.len();
        let mut commands: usize = 0;
        let mut commands_over = false;
        let mut extensions: usize = 0;
        let mut extensions_over = false;
        let mut i: usize = 0;
        assert(keep(ev.take(0), succeeded()) =~= Seq::<ExperienceView<S>>::empty());
        while i < n
            invariant
                n == experiences@.len(),
                ev == views(experiences@),
                i <= n,
                fc == (|e: ExperienceView<S>| commands_in(e.context)),
                fe == (|e: ExperienceView<S>| extensions_in_context(e.context)),
                !commands_over ==> commands == command_uses(ev.take(i as int)).len(),
                commands_over ==> command_uses(ev.take(i as int)).len() > usize::MAX,
                !extensions_over ==> extensions == extension_uses(ev.take(i as int)).len(),
                extensions_over ==> extension_uses(ev.take(i as int)).len() > usize::MAX,
            decreases n - i,
        {
            let ghost done = keep(ev.take(i as int), succeeded());
            let ghost e = ev[i as int];
            assert(ev.take(i + 1) =~= ev.take(i as int).push(e));
            proof {
                lemma_keep_push(ev.take(i as int), e, succeeded());
            }
            let x = &experiences[i];
            assert(x@ == e);
            if x.is_successful() {
                proof {
                    lemma_flat_map_push(done, e, fc);
                    lemma_flat_map_push(done, e, fe);
                }
                assert(keep(ev.take(i + 1), succeeded()) == done.push(e));
                let cs = context_commands(x.context.as_str());
                let fs = context_file_extensions(x.context.as_str());
                assert(command_uses(ev.take(i + 1)) == command_uses(ev.take(i as int)) + char_seqs(cs@));
                assert(extension_uses(ev.take(i + 1)) == extension_uses(ev.take(i as int)) + char_seqs(fs@));
                if !commands_over {
                    match commands.checked_add(cs.len()) {
                        Some(t) => {
                            commands = t;
                        },
                        None => {
                            commands_over = true;
                        },
                    }
                }
                if !extensions_over {
                    match extensions.checked_add(fs.len()) {
                        Some(t) => {
                            extensions = t;
                        },
                        None => {
                            extensions_over = true;
                        },
                    }
                }
            } else {
                assert(keep(ev.take(i + 1), succeeded()) == done);
            }
            i += 1;
        }
        assert(ev.take(n as int) =~= ev);
        !commands_over && !extensions_over && commands < usize::MAX && extensions < usize::MAX
    }

    /// Extracts from `experiences` as `extract_from_experiences` does when the counts fit in
    /// machine integers (see `extraction_fits`); otherwise leaves the extractor as it is and
    /// returns nothing.
    pub fn extract_within_limits<F: Fn(usize) -> S, G: Fn(usize, usize) -> S, A: Fn(S, S) -> S>(
        &mut self,
        experiences: &[Experience<S>],
        confidence_of: &F,
        rate_of: &G,
        average: &A,
    ) -> (r: Option<Vec<Pattern<S>>>)
        requires
            old(self).well_formed(),
            forall|n: usize| confidence_of.requires((n,)),
            forall|a: usize, b: usize| rate_of.requires((a, b)),
            forall|a: S, b: S| average.requires((a, b)),
        ensures
            final(self).well_formed(),
            final(self).threshold() == old(self).threshold(),
            r is Some <==> extraction_fits(views(experiences@), old(self).stored(), old(self).threshold()),
            r is None ==> *final(self) == *old(self),
            r matches Some(v) ==> {
                &&& extracted_into(
                    old(self).stored(),
                    views(experiences@),
                    old(self).threshold(),
                    *confidence_of,
                    *rate_of,
                    *average,
                    final(self).stored(),
                )
                &&& pattern_views(v@) == keep(final(self).stored(), seen_at_least(final(self).threshold()))
            },
    {
        let ghost ev = views(experiences@);
        let ghost min = self.threshold();
        if !tool_durations_fit(experiences) || !Self::use_counts_fit(experiences) {
            return None;
        }
        let discovered = self.discover(experiences, confidence_of, rate_of);
        let ghost ds = pattern_views(discovered@);
        let total = match occurrences_total(&discovered) {
            Some(t) => t,
            None => {
                return None;
            },
        };
        if !self.rediscovered_within(&discovered, total) {
            proof {
                let j = choose|j: int|
                    0 <= j < self.stored().len() && has_id_from(ds, 0, #[trigger] self.stored()[j].id) && !(
                    self.stored()[j].occurrences + total <= usize::MAX);
                let m = choose|m: int| 0 <= m < ds.len() && ds[m].id == self.stored()[j].id;
                lemma_discovered_ids(ds, ev, min, *confidence_of, *rate_of, m);
            }
            return None;
        }
        assert forall|j: int|
            0 <= j < self.stored().len() && rediscovered(ev, min, #[trigger] self.stored()[j].id) implies self.stored()[j].occurrences
                + discovered_total(ev, min) <= usize::MAX by {
            lemma_rediscovered_found(ds, ev, min, *confidence_of, *rate_of, self.stored()[j].id);
        }
        assert(extraction_fits(ev, self.stored(), min));
        Some(self.merge_and_report(discovered, Ghost(ev), confidence_of, rate_of, average))
    }
}

} // verus!

verus! {

impl<S: Copy> Default for PatternExtractor<S> {
    /// An empty store that reports patterns seen at least `MIN_PATTERN_OCCURRENCES` times.
    fn default() -> (e: Self)
        ensures
            e.stored() == Seq::<PatternView<S>>::empty(),
            e.threshold() == crate::MIN_PATTERN_OCCURRENCES,
            e.well_formed(),
    {
        Self::new(crate::MIN_PATTERN_OCCURRENCES)
    }
}

} // verus!
