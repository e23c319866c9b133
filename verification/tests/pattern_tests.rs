use skill_learning::experience::{Experience, ExperienceOutcome};
use skill_learning::pattern::{Pattern, PatternConfidence, PatternExtractor, PatternType, tool_durations_fit};

fn exp(context: &str, tools: &[&str], outcome: ExperienceOutcome, duration: u64) -> Experience<f32> {
    Experience::from_parts(
        "id".to_string(),
        1,
        context.to_string(),
        "intent".to_string(),
        None,
        tools.iter().map(|t| t.to_string()).collect(),
        outcome,
        duration,
        "s".to_string(),
    )
}

fn confidence_of(n: usize) -> f32 {
    ((n as f32) / 10.0).clamp(0.0, 1.0)
}

fn rate_of(s: usize, n: usize) -> f32 {
    s as f32 / n as f32
}

fn average(a: f32, b: f32) -> f32 {
    (a + b) / 2.0
}

fn pattern(id: &str, t: PatternType, keys: &[&str], occurrences: usize, score: f32) -> Pattern<f32> {
    Pattern {
        id: id.to_string(),
        pattern_type: t,
        description: format!("pattern {}", id),
        key_elements: keys.iter().map(|k| k.to_string()).collect(),
        occurrences,
        confidence: PatternConfidence::from_score(score),
        success_rate: 1.0,
        average_duration_ms: 10,
        first_seen: 0,
        last_seen: 0,
    }
}

#[test]
fn tool_sequences_seen_often_enough_become_patterns() {
    let e = PatternExtractor::new(3);
    let exps = vec![
        exp("a", &["read", "edit"], ExperienceOutcome::Success, 10),
        exp("b", &["read", "edit"], ExperienceOutcome::Success, 20),
        exp("c", &["read", "edit"], ExperienceOutcome::PartialSuccess, 31),
        exp("d", &["grep"], ExperienceOutcome::Success, 5),
        exp("e", &["read", "edit"], ExperienceOutcome::Failure, 1000),
        exp("f", &[], ExperienceOutcome::Success, 5),
    ];
    let ps = e.extract_tool_sequence_patterns(&exps, &confidence_of, &rate_of);
    assert_eq!(ps.len(), 1);
    let p = &ps[0];
    assert_eq!(p.id, "tool_seq_read_edit");
    assert_eq!(p.pattern_type, PatternType::ToolSequence);
    assert_eq!(p.description, "Tool sequence: read -> edit (seen 3 times)");
    assert_eq!(p.key_elements, vec!["read".to_string(), "edit".to_string()]);
    assert_eq!(p.occurrences, 3);
    assert_eq!(p.average_duration_ms, 20);
    assert!((p.confidence.score - 0.3).abs() < 1e-6);
    assert_eq!(p.confidence.factors, vec!["frequency".to_string(), "consistency".to_string()]);
    assert_eq!(p.success_rate, 1.0);
    assert_eq!(p.first_seen, 0);
}

#[test]
fn command_patterns_take_the_word_after_a_keyword() {
    let e = PatternExtractor::new(2);
    let exps = vec![
        exp("please RUN cargo test now", &[], ExperienceOutcome::Success, 1),
        exp("run cargo build", &[], ExperienceOutcome::Success, 1),
        exp("exec make", &[], ExperienceOutcome::Success, 1),
        exp("run cargo check", &[], ExperienceOutcome::Failure, 1),
        exp("run", &[], ExperienceOutcome::Success, 1),
    ];
    let ps = e.extract_command_patterns(&exps, &confidence_of, &rate_of);
    assert_eq!(ps.len(), 1);
    assert_eq!(ps[0].id, "cmd_cargo");
    assert_eq!(ps[0].pattern_type, PatternType::CommandPattern);
    assert_eq!(ps[0].description, "Command pattern: cargo (seen 2 times)");
    assert_eq!(ps[0].key_elements, vec!["cargo".to_string()]);
    assert_eq!(ps[0].occurrences, 2);
    assert_eq!(ps[0].average_duration_ms, 0);
    assert_eq!(ps[0].confidence.factors, vec!["command_frequency".to_string()]);
}

#[test]
fn each_keyword_in_a_context_counts_its_command_once() {
    let e = PatternExtractor::new(2);
    let exps = vec![exp("bash ls and shell ls", &[], ExperienceOutcome::Success, 1)];
    let ps = e.extract_command_patterns(&exps, &confidence_of, &rate_of);
    assert_eq!(ps.len(), 1);
    assert_eq!(ps[0].key_elements, vec!["ls".to_string()]);
    assert_eq!(ps[0].occurrences, 2);
}

#[test]
fn file_patterns_count_extensions_once_per_keyword() {
    let e = PatternExtractor::new(2);
    let exps = vec![
        exp("Edit main.rs", &[], ExperienceOutcome::Success, 1),
        exp("read lib.rs and write notes.md", &[], ExperienceOutcome::Success, 1),
        exp("delete old.py", &[], ExperienceOutcome::Failure, 1),
    ];
    let ps = e.extract_file_operation_patterns(&exps, &confidence_of, &rate_of);
    let ids: Vec<&str> = ps.iter().map(|p| p.id.as_str()).collect();
    assert_eq!(ids, vec!["file_rs", "file_md"]);
    assert_eq!(ps[0].occurrences, 3);
    assert_eq!(ps[0].description, "File operation pattern for .rs files (seen 3 times)");
    assert_eq!(ps[0].success_rate, 1.0);
    assert_eq!(ps[1].occurrences, 2);
    assert_eq!(ps[0].confidence.factors, vec!["file_extension_frequency".to_string()]);
}

#[test]
fn extraction_merges_into_the_store_and_reports_frequent_patterns() {
    let mut e = PatternExtractor::new(3);
    let first = vec![
        exp("a", &["read"], ExperienceOutcome::Success, 10),
        exp("b", &["read"], ExperienceOutcome::Success, 10),
    ];
    let r1 = e.extract_from_experiences(&first, &confidence_of, &rate_of, &average);
    assert!(r1.is_empty());
    assert!(e.get_all_patterns().is_empty());
    let second = vec![
        exp("a", &["read"], ExperienceOutcome::Success, 10),
        exp("b", &["read"], ExperienceOutcome::Success, 10),
        exp("c", &["read"], ExperienceOutcome::Success, 10),
    ];
    let r2 = e.extract_from_experiences(&second, &confidence_of, &rate_of, &average);
    assert_eq!(r2.len(), 1);
    assert_eq!(r2[0].occurrences, 3);
    let r3 = e.extract_from_experiences(&second, &confidence_of, &rate_of, &average);
    assert_eq!(r3.len(), 1);
    assert_eq!(r3[0].occurrences, 6);
    assert!((r3[0].confidence.score - 0.3).abs() < 1e-6);
    assert_eq!(e.get_all_patterns().len(), 1);
}

#[test]
fn queries_by_type_and_confidence() {
    let mut e: PatternExtractor<f32> = PatternExtractor::default();
    e.merge_patterns(vec![
        pattern("t", PatternType::ToolSequence, &["a"], 3, 0.9),
        pattern("c", PatternType::CommandPattern, &["ls"], 3, 0.2),
        pattern("t", PatternType::ToolSequence, &["b"], 4, 0.5),
    ]);
    let all = e.get_all_patterns();
    assert_eq!(all.len(), 2);
    assert_eq!(all[0].key_elements, vec!["b".to_string()]);
    let tools = e.get_patterns_by_type(PatternType::ToolSequence);
    assert_eq!(tools.len(), 1);
    let at_least = |a: f32, b: f32| a >= b;
    let high = e.get_high_confidence_patterns(0.5, &at_least);
    assert_eq!(high.len(), 1);
    assert_eq!(high[0].id, "t");
}

#[test]
fn confidence_with_factors() {
    let c = PatternConfidence::from_score(0.4f32).with_factors(vec!["x", "y"]);
    assert_eq!(c.score, 0.4);
    assert_eq!(c.factors, vec!["x".to_string(), "y".to_string()]);
}

#[test]
fn new_confidence_is_clamped_by_the_given_function() {
    let clamp = |s: f32| s.clamp(0.0, 1.0);
    assert_eq!(PatternConfidence::new(1.7f32, &clamp).score, 1.0);
    assert_eq!(PatternConfidence::new(-0.2f32, &clamp).score, 0.0);
    assert_eq!(PatternConfidence::new(0.4f32, &clamp).score, 0.4);
    assert!(PatternConfidence::new(0.4f32, &clamp).factors.is_empty());
}

#[test]
fn extraction_beyond_machine_limits_changes_nothing() {
    let mut e = PatternExtractor::new(2);
    e.merge_patterns(vec![pattern("tool_seq_read", PatternType::ToolSequence, &["read"], usize::MAX, 0.5)]);
    let exps = vec![
        exp("a", &["read"], ExperienceOutcome::Success, 10),
        exp("b", &["read"], ExperienceOutcome::Success, 10),
    ];
    assert!(e.extract_within_limits(&exps, &confidence_of, &rate_of, &average).is_none());
    assert_eq!(e.get_all_patterns().len(), 1);
    assert_eq!(e.get_all_patterns()[0].occurrences, usize::MAX);

    let mut f = PatternExtractor::new(2);
    let same_tools = vec![
        exp("a", &["x"], ExperienceOutcome::Success, u64::MAX),
        exp("b", &["x"], ExperienceOutcome::Success, 1),
    ];
    assert!(PatternExtractor::<f32>::use_counts_fit(&same_tools));
    assert!(!tool_durations_fit(&same_tools));
    assert!(f.extract_within_limits(&same_tools, &confidence_of, &rate_of, &average).is_none());
    assert!(f.get_all_patterns().is_empty());
}

#[test]
fn long_uses_of_different_tool_sequences_fit() {
    let mut f = PatternExtractor::new(1);
    let different_tools = vec![
        exp("a", &["x"], ExperienceOutcome::Success, u64::MAX - 1),
        exp("b", &["y"], ExperienceOutcome::Success, u64::MAX - 1),
    ];
    assert!(tool_durations_fit(&different_tools));
    let r = f.extract_within_limits(&different_tools, &confidence_of, &rate_of, &average).unwrap();
    let ids: Vec<&str> = r.iter().map(|p| p.id.as_str()).collect();
    assert_eq!(ids, vec!["tool_seq_x", "tool_seq_y"]);
    assert_eq!(r[0].average_duration_ms, u64::MAX - 1);
    let fine = vec![
        exp("a", &["read"], ExperienceOutcome::Success, 10),
        exp("b", &["read"], ExperienceOutcome::Success, 20),
    ];
    let mut g = PatternExtractor::new(2);
    let r = g.extract_within_limits(&fine, &confidence_of, &rate_of, &average).unwrap();
    assert_eq!(r.len(), 1);
    assert_eq!(r[0].occurrences, 2);
    assert_eq!(r[0].average_duration_ms, 15);
}

#[test]
fn a_full_stored_pattern_that_is_not_found_again_stays_as_it_is() {
    let mut e = PatternExtractor::new(2);
    e.merge_patterns(vec![pattern("cmd_make", PatternType::CommandPattern, &["make"], usize::MAX, 0.5)]);
    let exps = vec![
        exp("a", &["read"], ExperienceOutcome::Success, 10),
        exp("b", &["read"], ExperienceOutcome::Success, 30),
    ];
    let r = e.extract_from_experiences(&exps, &confidence_of, &rate_of, &average);
    let ids: Vec<&str> = r.iter().map(|p| p.id.as_str()).collect();
    assert_eq!(ids, vec!["cmd_make", "tool_seq_read"]);
    assert_eq!(r[0].occurrences, usize::MAX);
    assert_eq!(r[1].occurrences, 2);
    assert_eq!(r[1].average_duration_ms, 20);
}

#[test]
fn a_higher_confidence_threshold_keeps_fewer_patterns() {
    let mut e: PatternExtractor<f32> = PatternExtractor::default();
    e.merge_patterns(vec![
        pattern("a", PatternType::ToolSequence, &["a"], 3, 0.9),
        pattern("b", PatternType::CommandPattern, &["ls"], 3, 0.6),
        pattern("c", PatternType::ToolSequence, &["c"], 4, 0.3),
    ]);
    let at_least = |a: f32, b: f32| a >= b;
    let low: Vec<String> = e.get_high_confidence_patterns(0.5, &at_least).into_iter().map(|p| p.id).collect();
    let high: Vec<String> = e.get_high_confidence_patterns(0.8, &at_least).into_iter().map(|p| p.id).collect();
    assert_eq!(low, vec!["a", "b"]);
    assert_eq!(high, vec!["a"]);
    assert!(high.iter().all(|id| low.contains(id)));
    assert_eq!(e.get_all_patterns().len(), 3);
}
