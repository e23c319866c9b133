use skill_learning::experience::{Experience, ExperienceCollector, ExperienceOutcome, SkillStatistics};

fn exp(id: &str, context: &str, intent: &str, skill: Option<&str>, tools: &[&str], outcome: ExperienceOutcome, duration: u64, session: &str) -> Experience<f32> {
    Experience::from_parts(
        id.to_string(),
        100,
        context.to_string(),
        intent.to_string(),
        skill.map(|s| s.to_string()),
        tools.iter().map(|t| t.to_string()).collect(),
        outcome,
        duration,
        session.to_string(),
    )
}

#[test]
fn new_experience_has_uuid_identifier_and_no_error() {
    let e: Experience<f32> = Experience::new(
        "ctx".to_string(),
        "intent".to_string(),
        None,
        vec![],
        ExperienceOutcome::Success,
        5,
        "s1".to_string(),
    );
    assert_eq!(e.id.len(), 36);
    let chars: Vec<char> = e.id.chars().collect();
    for (i, c) in chars.iter().enumerate() {
        if [8, 13, 18, 23].contains(&i) {
            assert_eq!(*c, '-');
        } else {
            assert!(c.is_ascii_hexdigit() && !c.is_ascii_uppercase());
        }
    }
    assert_eq!(chars[14], '4');
    assert!(['8', '9', 'a', 'b'].contains(&chars[19]));
    assert!(e.error.is_none());
    assert!(e.user_feedback.is_none());
    assert_eq!(e.context, "ctx");
    assert_eq!(e.session_id, "s1");
    let other: Experience<f32> = Experience::new(
        "ctx".to_string(),
        "intent".to_string(),
        None,
        vec![],
        ExperienceOutcome::Success,
        5,
        "s1".to_string(),
    );
    assert_ne!(e.id, other.id);
}

#[test]
fn with_error_and_feedback_set_fields() {
    let e = exp("a", "c", "i", None, &[], ExperienceOutcome::Failure, 1, "s").with_error("boom".to_string()).with_feedback(0.25);
    assert_eq!(e.error.as_deref(), Some("boom"));
    assert_eq!(e.user_feedback, Some(0.25));
}

#[test]
fn successful_outcomes_are_success_and_partial_success() {
    assert!(exp("a", "c", "i", None, &[], ExperienceOutcome::Success, 1, "s").is_successful());
    assert!(exp("a", "c", "i", None, &[], ExperienceOutcome::PartialSuccess, 1, "s").is_successful());
    assert!(!exp("a", "c", "i", None, &[], ExperienceOutcome::Failure, 1, "s").is_successful());
    assert!(!exp("a", "c", "i", None, &[], ExperienceOutcome::Timeout, 1, "s").is_successful());
    assert!(!exp("a", "c", "i", None, &[], ExperienceOutcome::Cancelled, 1, "s").is_successful());
}

#[test]
fn full_collector_evicts_oldest() {
    let mut c: ExperienceCollector<f32> = ExperienceCollector::new(2);
    c.record(exp("1", "c", "i", None, &[], ExperienceOutcome::Success, 1, "s"));
    c.record(exp("2", "c", "i", None, &[], ExperienceOutcome::Success, 1, "s"));
    c.record(exp("3", "c", "i", None, &[], ExperienceOutcome::Success, 1, "s"));
    assert_eq!(c.count(), 2);
    let recent = c.get_recent(10);
    let ids: Vec<&str> = recent.iter().map(|e| e.id.as_str()).collect();
    assert_eq!(ids, vec!["3", "2"]);
}

#[test]
fn zero_capacity_collector_keeps_newest_only() {
    let mut c: ExperienceCollector<f32> = ExperienceCollector::new(0);
    c.record(exp("1", "c", "i", None, &[], ExperienceOutcome::Success, 1, "s"));
    c.record(exp("2", "c", "i", None, &[], ExperienceOutcome::Success, 1, "s"));
    assert_eq!(c.count(), 1);
    assert_eq!(c.get_recent(5)[0].id, "2");
}

#[test]
fn default_collector_has_room_for_a_thousand() {
    let mut c: ExperienceCollector<f32> = ExperienceCollector::default();
    for i in 0..1001 {
        c.record(exp(&i.to_string(), "c", "i", None, &[], ExperienceOutcome::Success, 1, "s"));
    }
    assert_eq!(c.count(), 1000);
    assert_eq!(c.get_recent(1)[0].id, "1000");
}

#[test]
fn get_recent_returns_newest_first_and_limits() {
    let mut c: ExperienceCollector<f32> = ExperienceCollector::new(10);
    for id in ["a", "b", "c"] {
        c.record(exp(id, "c", "i", None, &[], ExperienceOutcome::Success, 1, "s"));
    }
    let r = c.get_recent(2);
    assert_eq!(r.len(), 2);
    assert_eq!(r[0].id, "c");
    assert_eq!(r[1].id, "b");
    assert!(c.get_recent(0).is_empty());
}

#[test]
fn queries_filter_by_skill_intent_success_and_session() {
    let mut c: ExperienceCollector<f32> = ExperienceCollector::new(10);
    c.record(exp("1", "c", "Deploy the App", Some("deploy"), &[], ExperienceOutcome::Success, 1, "s1"));
    c.record(exp("2", "c", "test suite", Some("test"), &[], ExperienceOutcome::Failure, 1, "s2"));
    c.record(exp("3", "c", "DEPLOY again", Some("deploy"), &[], ExperienceOutcome::PartialSuccess, 1, "s1"));
    let by_skill: Vec<String> = c.get_by_skill("deploy").into_iter().map(|e| e.id).collect();
    assert_eq!(by_skill, vec!["1", "3"]);
    let by_intent: Vec<String> = c.get_by_intent("deploy").into_iter().map(|e| e.id).collect();
    assert_eq!(by_intent, vec!["1", "3"]);
    let upper: Vec<String> = c.get_by_intent("TEST").into_iter().map(|e| e.id).collect();
    assert_eq!(upper, vec!["2"]);
    let ok: Vec<String> = c.get_successful_patterns().into_iter().map(|e| e.id).collect();
    assert_eq!(ok, vec!["1", "3"]);
    let s2: Vec<String> = c.get_session_experiences("s2").into_iter().map(|e| e.id).collect();
    assert_eq!(s2, vec!["2"]);
}

fn normalized_score(outcome: ExperienceOutcome, feedback: Option<f32>) -> f32 {
    let base = match outcome {
        ExperienceOutcome::Success => 1.0,
        ExperienceOutcome::PartialSuccess => 0.6,
        ExperienceOutcome::Failure => 0.0,
        ExperienceOutcome::Timeout => 0.3,
        ExperienceOutcome::Cancelled => 0.0,
    };
    (base + feedback.unwrap_or(base)) / 2.0
}

fn rate_of(s: usize, n: usize) -> f32 {
    s as f32 / n as f32
}

fn mean_of(v: Vec<f32>) -> f32 {
    v.iter().sum::<f32>() / v.len() as f32
}

#[test]
fn skill_statistics_count_and_average() {
    let mut c: ExperienceCollector<f32> = ExperienceCollector::new(10);
    c.record(exp("1", "c", "i", Some("k"), &[], ExperienceOutcome::Success, 100, "s").with_feedback(0.0));
    c.record(exp("2", "c", "i", Some("k"), &[], ExperienceOutcome::Timeout, 201, "s"));
    c.record(exp("3", "c", "i", Some("other"), &[], ExperienceOutcome::Success, 7, "s"));
    let s = c.get_skill_statistics("k", 0.0, &rate_of, &normalized_score, &mean_of);
    assert_eq!(s.total_executions, 2);
    assert_eq!(s.successful_executions, 1);
    assert_eq!(s.average_duration_ms, 150);
    assert!((s.success_rate - 0.5).abs() < 1e-6);
    assert!((s.average_score - 0.4).abs() < 1e-6);
    let none = c.get_skill_statistics("missing", 0.0, &rate_of, &normalized_score, &mean_of);
    assert_eq!(
        none,
        SkillStatistics { total_executions: 0, successful_executions: 0, success_rate: 0.0, average_duration_ms: 0, average_score: 0.0 }
    );
}

#[test]
fn clear_session_removes_only_that_session() {
    let mut c: ExperienceCollector<f32> = ExperienceCollector::new(10);
    c.record(exp("1", "c", "i", None, &[], ExperienceOutcome::Success, 1, "s1"));
    c.record(exp("2", "c", "i", None, &[], ExperienceOutcome::Success, 1, "s2"));
    c.record(exp("3", "c", "i", None, &[], ExperienceOutcome::Success, 1, "s1"));
    c.clear_session("s1");
    assert_eq!(c.count(), 1);
    assert_eq!(c.get_recent(5)[0].id, "2");
}

#[test]
fn normalized_score_averages_outcome_and_user_rating() {
    let rating = |o: ExperienceOutcome| match o {
        ExperienceOutcome::Success => 1.0f32,
        ExperienceOutcome::PartialSuccess => 0.6,
        ExperienceOutcome::Failure => 0.0,
        ExperienceOutcome::Timeout => 0.3,
        ExperienceOutcome::Cancelled => 0.0,
    };
    let average = |a: f32, b: f32| (a + b) / 2.0;
    let plain = exp("a", "c", "i", None, &[], ExperienceOutcome::PartialSuccess, 1, "s");
    assert!((plain.normalized_score(&rating, &average) - 0.6).abs() < 1e-6);
    let rated = exp("a", "c", "i", None, &[], ExperienceOutcome::Success, 1, "s").with_feedback(0.2);
    assert!((rated.normalized_score(&rating, &average) - 0.6).abs() < 1e-6);
    let failed = exp("a", "c", "i", None, &[], ExperienceOutcome::Failure, 1, "s");
    assert_eq!(failed.normalized_score(&rating, &average), 0.0);
}

#[test]
fn empty_intent_matches_every_experience() {
    let mut c: ExperienceCollector<f32> = ExperienceCollector::new(10);
    c.record(exp("1", "c", "Deploy", None, &[], ExperienceOutcome::Success, 1, "s1"));
    c.record(exp("2", "c", "", None, &[], ExperienceOutcome::Failure, 1, "s2"));
    c.record(exp("3", "c", "test", None, &[], ExperienceOutcome::Success, 1, "s1"));
    let all: Vec<String> = c.get_by_intent("").into_iter().map(|e| e.id).collect();
    assert_eq!(all, vec!["1", "2", "3"]);
    assert_eq!(c.count(), 3);
}

#[test]
fn many_recordings_keep_the_most_recent_newest_first() {
    let mut c: ExperienceCollector<f32> = ExperienceCollector::new(3);
    for i in 1..=5 {
        c.record(exp(&i.to_string(), "c", "i", None, &[], ExperienceOutcome::Success, 1, "s"));
        assert!(c.count() <= 3);
    }
    let recent: Vec<String> = c.get_recent(usize::MAX).into_iter().map(|e| e.id).collect();
    assert_eq!(recent, vec!["5", "4", "3"]);
    let mut d: ExperienceCollector<f32> = ExperienceCollector::new(3);
    d.record(exp("a", "c", "i", None, &[], ExperienceOutcome::Success, 1, "s"));
    d.record(exp("b", "c", "i", None, &[], ExperienceOutcome::Success, 1, "s"));
    let fewer: Vec<String> = d.get_recent(usize::MAX).into_iter().map(|e| e.id).collect();
    assert_eq!(fewer, vec!["b", "a"]);
}
