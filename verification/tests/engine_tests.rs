use skill_learning::engine::{LearningConfig, LearningEngine, LearningSuggestion};
use skill_learning::experience::ExperienceOutcome;
use skill_learning::generator::{GeneratedSkill, SkillTemplate};
use skill_learning::pattern::PatternType;

fn confidence_of(n: usize) -> f32 {
    ((n as f32) / 10.0).clamp(0.0, 1.0)
}

fn rate_of(s: usize, n: usize) -> f32 {
    s as f32 / n as f32
}

fn average(a: f32, b: f32) -> f32 {
    (a + b) / 2.0
}

fn at_least(a: f32, b: f32) -> bool {
    a >= b
}

fn mean_of(v: Vec<f32>) -> f32 {
    v.iter().sum::<f32>() / v.len() as f32
}

fn rating_of(o: ExperienceOutcome) -> f32 {
    match o {
        ExperienceOutcome::Success => 1.0,
        ExperienceOutcome::PartialSuccess => 0.6,
        ExperienceOutcome::Failure => 0.0,
        ExperienceOutcome::Timeout => 0.3,
        ExperienceOutcome::Cancelled => 0.0,
    }
}

fn running_average(avg: f32, n: usize, rating: f32) -> f32 {
    (avg * (n - 1) as f32 + rating) / n as f32
}

fn is_positive(r: f32) -> bool {
    r >= 0.7
}

fn score_of(confidence: f32, adjustment: Option<f32>, mentioned: bool, _usage: Option<(usize, usize, f32, u64)>) -> f32 {
    let mut s = confidence;
    if let Some(a) = adjustment {
        s *= a;
    }
    if mentioned {
        s += 0.15;
    }
    s.min(1.0)
}

fn rank_key(s: f32) -> u64 {
    (s * 1_000_000.0).round() as u64
}

fn engine() -> LearningEngine<f32> {
    LearningEngine::new(LearningConfig::with_thresholds(0.3, 0.5))
}

fn record(e: &mut LearningEngine<f32>, context: &str, skill: Option<&str>, tools: &[&str], outcome: ExperienceOutcome, session: &str) {
    e.record_experience(
        context.to_string(),
        "intent".to_string(),
        skill.map(|s| s.to_string()),
        tools.iter().map(|t| t.to_string()).collect(),
        outcome,
        40,
        session.to_string(),
        &rating_of,
        0.0,
        &running_average,
        &is_positive,
    );
}

#[test]
fn default_thresholds_configuration() {
    let c = LearningConfig::with_thresholds(0.75f32, 0.7f32);
    assert!(c.enabled);
    assert_eq!(c.min_pattern_occurrences, 3);
    assert_eq!(c.skill_generation_threshold, 0.75);
    assert_eq!(c.auto_suggest_threshold, 0.7);
    assert_eq!(c.learning_session_timeout_secs, 3600);
    assert_eq!(c.max_experiences_stored, 1000);
    assert_eq!(c.auto_extract_interval_secs, 300);
}

#[test]
fn enabling_and_disabling() {
    let mut e = engine();
    assert!(e.is_enabled());
    e.set_enabled(false);
    assert!(!e.is_enabled());
}

#[test]
fn sessions_start_count_and_end() {
    let mut e = engine();
    e.start_session("s1".to_string());
    e.start_session("s2".to_string());
    e.start_session("s1".to_string());
    assert_eq!(e.get_learning_stats().active_sessions, 2);
    record(&mut e, "ctx", None, &[], ExperienceOutcome::Success, "s1");
    e.end_session("s1");
    assert_eq!(e.get_learning_stats().active_sessions, 1);
    e.end_session("missing");
    assert_eq!(e.get_learning_stats().active_sessions, 1);
}

#[test]
fn experiences_with_a_skill_feed_back_to_it() {
    let mut e = engine();
    record(&mut e, "ctx", Some("deploy"), &[], ExperienceOutcome::Success, "s");
    record(&mut e, "ctx", None, &[], ExperienceOutcome::Success, "s");
    let stats = e.get_learning_stats();
    assert_eq!(stats.total_experiences, 2);
    assert_eq!(stats.total_feedback_received, 0);
    let m = e.get_skill_metrics("deploy").unwrap();
    assert_eq!(m.total_uses, 2);
    assert_eq!(m.successful_uses, 1);
    assert_eq!(m.average_duration_ms, 20);
    let summary = e.get_experience_summary("deploy", 0.0, &rate_of, &|o: ExperienceOutcome, f: Option<f32>| {
        let base = rating_of(o);
        (base + f.unwrap_or(base)) / 2.0
    }, &mean_of);
    assert_eq!(summary.total_executions, 1);
    assert_eq!(summary.successful_executions, 1);
    assert_eq!(summary.average_duration_ms, 40);
    assert_eq!(summary.success_rate, 1.0);
    assert_eq!(summary.average_score, 1.0);
}

#[test]
fn user_feedback_counts_in_the_metric() {
    let mut e = engine();
    e.record_user_feedback("skill".to_string(), "exp".to_string(), 0.9, 0.0, &running_average, &is_positive);
    e.record_user_feedback("skill".to_string(), "exp".to_string(), 0.1, 0.0, &running_average, &is_positive);
    let m = e.get_skill_metrics("skill").unwrap();
    assert_eq!(m.total_uses, 2);
    assert_eq!(m.successful_uses, 1);
    assert!((m.average_rating - 0.5).abs() < 1e-6);
    assert!(e.get_skill_metrics("other").is_none());
}

#[test]
fn patterns_come_from_successful_experiences_only() {
    let mut e = engine();
    for _ in 0..3 {
        record(&mut e, "run cargo build", None, &["read", "edit"], ExperienceOutcome::Success, "s");
    }
    for _ in 0..5 {
        record(&mut e, "run make", None, &["grep"], ExperienceOutcome::Failure, "s");
    }
    let ps = e.extract_patterns(&confidence_of, &rate_of, &average);
    let ids: Vec<&str> = ps.iter().map(|p| p.id.as_str()).collect();
    assert_eq!(ids, vec!["tool_seq_read_edit", "cmd_cargo"]);
    assert_eq!(e.get_patterns_by_type(PatternType::CommandPattern).len(), 1);
    assert_eq!(e.get_learning_stats().total_patterns_discovered, 2);
}

#[test]
fn skills_are_generated_suggested_and_accepted() {
    let mut e = engine();
    for _ in 0..4 {
        record(&mut e, "run cargo build", None, &["read"], ExperienceOutcome::Success, "s");
        record(&mut e, "exec make", None, &["edit", "write"], ExperienceOutcome::Success, "s");
    }
    let key = |c: f32| c as u32;
    let best = e.check_for_new_skills(&confidence_of, &rate_of, &average, &at_least, &mean_of, &key).unwrap();
    let skills = e.generate_skills(&confidence_of, &rate_of, &average, &at_least, &mean_of);
    let names: Vec<&str> = skills.iter().map(|s| s.template.name.as_str()).collect();
    assert_eq!(names, vec!["workflow_read", "run_cargo", "run_make"]);
    assert_eq!(best.template.name, "run_make");
    assert_eq!(e.get_learning_stats().total_skills_generated, 3);

    let suggestions = e.get_suggestions_for_context("please run cargo now", &score_of, &rank_key, &at_least);
    assert_eq!(suggestions.len(), 1);
    assert_eq!(suggestions[0].skill.id, "gen_cmd_cargo");
    assert_eq!(suggestions[0].reason, "Matched 3 trigger patterns");
    assert_eq!(suggestions[0].context_preview, "please run cargo now");
    assert!((suggestions[0].confidence - 0.55).abs() < 1e-6);

    let recs = e.get_skill_recommendations("please run cargo now", 5, &score_of, &rank_key, &at_least);
    assert_eq!(recs.len(), 1);
    assert_eq!(recs[0].0.id, "gen_cmd_cargo");
    assert!(e.get_skill_recommendations("please run cargo now", 0, &score_of, &rank_key, &at_least).is_empty());

    e.suggest_skill(&suggestions[0].skill);
    e.suggest_skill(&suggestions[0].skill);
    assert!(e.accept_skill("gen_cmd_cargo"));
    assert!(!e.accept_skill("gen_cmd_missing"));
    e.record_skill_usage("gen_cmd_cargo", true);
    let stats = e.get_learning_stats();
    assert_eq!(stats.total_skill_suggestions, 2);
    assert!(stats.last_extraction_time > 0);
}

#[test]
fn top_performing_skills_need_a_metric() {
    let mut e = engine();
    for _ in 0..3 {
        record(&mut e, "run cargo", None, &[], ExperienceOutcome::Success, "s");
        record(&mut e, "run make", None, &[], ExperienceOutcome::Success, "s");
    }
    e.generate_skills(&confidence_of, &rate_of, &average, &at_least, &mean_of);
    record(&mut e, "ctx", Some("gen_cmd_make"), &[], ExperienceOutcome::Success, "s");
    e.record_skill_usage("gen_cmd_make", true);
    let key = |suggested: usize, accepted: usize, executed: usize, successes: usize| {
        let adoption = if suggested == 0 { 0.0 } else { accepted as f32 / suggested as f32 };
        let success = if executed == 0 { 0.0 } else { successes as f32 / executed as f32 };
        (((adoption + success) / 2.0) * 1_000_000.0) as u64
    };
    let top = e.get_top_performing_skills(5, &key);
    assert_eq!(top.len(), 1);
    assert_eq!(top[0].0.id, "gen_cmd_make");
    assert_eq!(top[0].1.skill_id, "gen_cmd_make");
}

#[test]
fn suggestion_preview_is_cut_at_one_hundred_characters() {
    let skill = GeneratedSkill {
        id: "x".to_string(),
        template: SkillTemplate {
            name: "x".to_string(),
            description: String::new(),
            category: "generated".to_string(),
            trigger_patterns: vec!["a".to_string(), "b".to_string()],
            recommended_tools: vec![],
            steps: vec![],
            success_rate: 1.0f32,
            avg_duration_ms: 0,
        },
        source_patterns: vec![],
        confidence: 0.5,
        created_at: 0,
        times_suggested: 0,
        times_accepted: 0,
        times_executed: 0,
        success_count: 0,
    };
    let long: String = "é".repeat(150);
    let s = LearningSuggestion::for_skill(skill, 0.9, &long);
    assert_eq!(s.context_preview.chars().count(), 100);
    assert_eq!(s.reason, "Matched 2 trigger patterns");
    assert_eq!(s.confidence, 0.9);
}

#[test]
fn engine_with_defaults_starts_empty() {
    let e: LearningEngine<f32> = LearningEngine::with_defaults(0.75, 0.7);
    assert!(e.is_enabled());
    let s = e.get_learning_stats();
    assert_eq!(s.total_experiences, 0);
    assert_eq!(s.total_patterns_discovered, 0);
    assert_eq!(s.total_skills_generated, 0);
    assert_eq!(s.active_sessions, 0);
    assert!(s.learning_uptime_secs < 60);
}

#[test]
fn uptime_counts_from_the_start() {
    let e = engine();
    let longest = e.uptime_at(u64::MAX);
    let start = u64::MAX - longest;
    assert!(start > 0);
    assert_eq!(e.uptime_at(start), 0);
    assert_eq!(e.uptime_at(start + 10), 10);
    assert_eq!(e.uptime_at(start - 1), 0);
    assert_eq!(e.uptime_at(0), 0);
}

#[test]
fn checked_extraction_and_generation_within_limits() {
    let mut e = engine();
    for _ in 0..4 {
        record(&mut e, "run cargo build", None, &["read"], ExperienceOutcome::Success, "s");
        record(&mut e, "exec make", None, &["edit", "write"], ExperienceOutcome::Success, "s");
    }
    let ps = e.extract_patterns_within_limits(&confidence_of, &rate_of, &average).unwrap();
    assert_eq!(ps.len(), 4);
    let key = |c: f32| c as u32;
    let best = e
        .check_for_new_skills_within_limits(&confidence_of, &rate_of, &average, &at_least, &mean_of, &key)
        .unwrap()
        .unwrap();
    assert_eq!(best.template.name, "run_make");
    let skills = e.generate_skills_within_limits(&confidence_of, &rate_of, &average, &at_least, &mean_of).unwrap();
    let names: Vec<&str> = skills.iter().map(|s| s.template.name.as_str()).collect();
    assert_eq!(names, vec!["workflow_read", "run_cargo", "run_make"]);
    assert_eq!(e.get_learning_stats().total_skills_generated, 3);
}

#[test]
fn session_counts_and_generated_skills_can_be_read() {
    let mut e = engine();
    assert_eq!(e.session_experiences("s"), None);
    e.start_session("s".to_string());
    assert_eq!(e.session_experiences("s"), Some(0));
    record(&mut e, "run cargo build", None, &["read"], ExperienceOutcome::Success, "s");
    record(&mut e, "run cargo build", None, &["read"], ExperienceOutcome::Success, "other");
    assert_eq!(e.session_experiences("s"), Some(1));
    assert!(e.get_generated_skills().is_empty());
    for _ in 0..3 {
        record(&mut e, "exec make", None, &[], ExperienceOutcome::Success, "s");
    }
    let skills = e.generate_skills(&confidence_of, &rate_of, &average, &at_least, &mean_of);
    let stored: Vec<String> = e.get_generated_skills().into_iter().map(|s| s.id).collect();
    let generated: Vec<String> = skills.into_iter().map(|s| s.id).collect();
    assert_eq!(stored, generated);
    assert!(!stored.is_empty());
}
