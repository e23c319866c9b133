use skill_learning::experience::ExperienceOutcome;
use skill_learning::feedback::{Feedback, FeedbackLoop, FeedbackType, PerformanceMetric, Recency};
use skill_learning::generator::{GeneratedSkill, SkillTemplate};

fn running_average(avg: f32, n: usize, rating: f32) -> f32 {
    (avg * (n - 1) as f32 + rating) / n as f32
}

fn is_positive(r: f32) -> bool {
    r >= 0.7
}

fn rating_of(o: ExperienceOutcome) -> f32 {
    match o {
        ExperienceOutcome::Success => 1.0,
        ExperienceOutcome::PartialSuccess => 0.6,
        ExperienceOutcome::Failure => 0.0,
        ExperienceOutcome::Timeout => 0.3,
        ExperienceOutcome::Cancelled => 0.0,
    }
}

fn feedback(skill: &str, rating: f32, timestamp: u64) -> Feedback<f32> {
    Feedback {
        skill_id: skill.to_string(),
        experience_id: "e".to_string(),
        feedback_type: FeedbackType::Explicit,
        rating,
        timestamp,
        context_hash: 0,
    }
}

fn skill(id: &str, triggers: &[&str], confidence: f32) -> GeneratedSkill<f32> {
    GeneratedSkill {
        id: id.to_string(),
        template: SkillTemplate {
            name: id.to_string(),
            description: String::new(),
            category: "generated".to_string(),
            trigger_patterns: triggers.iter().map(|t| t.to_string()).collect(),
            recommended_tools: vec![],
            steps: vec![],
            success_rate: 1.0,
            avg_duration_ms: 0,
        },
        source_patterns: vec![],
        confidence,
        created_at: 0,
        times_suggested: 0,
        times_accepted: 0,
        times_executed: 0,
        success_count: 0,
    }
}

#[test]
fn feedback_updates_the_running_metric() {
    let mut l: FeedbackLoop<f32> = FeedbackLoop::new();
    l.record_feedback(feedback("s", 1.0, 10), 0.0, &running_average, &is_positive);
    l.record_feedback(feedback("s", 0.5, 20), 0.0, &running_average, &is_positive);
    l.record_feedback(feedback("t", 0.9, 30), 0.0, &running_average, &is_positive);
    let m = l.get_metrics("s").unwrap();
    assert_eq!(m.skill_id, "s");
    assert_eq!(m.total_uses, 2);
    assert_eq!(m.successful_uses, 1);
    assert!((m.average_rating - 0.75).abs() < 1e-6);
    assert_eq!(m.last_used, 20);
    assert_eq!(m.average_duration_ms, 0);
    assert!(l.get_metrics("u").is_none());
    let all = l.get_all_metrics();
    let ids: Vec<&str> = all.iter().map(|m| m.skill_id.as_str()).collect();
    assert_eq!(ids, vec!["s", "t"]);
}

#[test]
fn outcomes_feed_back_rating_and_mean_duration() {
    let mut l: FeedbackLoop<f32> = FeedbackLoop::default();
    l.update_from_experience("s", ExperienceOutcome::Success, 100, &rating_of, 0.0, &running_average, &is_positive);
    l.update_from_experience("s", ExperienceOutcome::Timeout, 201, &rating_of, 0.0, &running_average, &is_positive);
    let m = l.get_metrics("s").unwrap();
    assert_eq!(m.total_uses, 4);
    assert_eq!(m.successful_uses, 1);
    assert_eq!(m.average_duration_ms, 87);
    assert!((m.average_rating - 2.3 / 3.0).abs() < 1e-6);
    assert!(m.last_used > 0);
}

#[test]
fn context_adjustments_are_set_per_skill() {
    let mut l: FeedbackLoop<f32> = FeedbackLoop::new();
    let adjustment_for = |s: f32| if s >= 0.9 { 1.2 } else if s >= 0.7 { 1.1 } else if s >= 0.5 { 1.0 } else if s >= 0.3 { 0.9 } else { 0.8 };
    assert!(l.context_adjustment("s").is_none());
    l.adjust_for_context("s", 0.95, &adjustment_for);
    assert_eq!(l.context_adjustment("s"), Some(1.2));
    l.adjust_for_context("s", 0.1, &adjustment_for);
    assert_eq!(l.context_adjustment("s"), Some(0.8));
}

#[test]
fn skill_adjustment_without_metric_is_neutral() {
    let mut l: FeedbackLoop<f32> = FeedbackLoop::new();
    let adjust = |u: (usize, usize, f32, u64), similarity: f32| u.2 * 0.7 + similarity * 0.3;
    assert_eq!(l.get_skill_adjustment("s", 0.9, &adjust, 0.5), 0.5);
    l.record_feedback(feedback("s", 1.0, 10), 0.0, &running_average, &is_positive);
    assert!((l.get_skill_adjustment("s", 1.0, &adjust, 0.5) - 1.0).abs() < 1e-6);
}

#[test]
fn ranking_orders_by_score_and_keeps_ties_in_order() {
    let mut l: FeedbackLoop<f32> = FeedbackLoop::new();
    let adjustment_for = |_s: f32| 0.5f32;
    l.adjust_for_context("b", 1.0, &adjustment_for);
    let skills = vec![skill("a", &["deploy"], 0.4), skill("b", &[], 0.8), skill("c", &[], 0.4), skill("d", &["Build"], 0.5)];
    let score_of = |confidence: f32, adjustment: Option<f32>, mentioned: bool, usage: Option<(usize, usize, f32, u64)>| {
        let mut s = confidence;
        if let Some(a) = adjustment {
            s *= a;
        }
        if mentioned {
            s += 0.15;
        }
        if usage.is_some() {
            s = s * 0.6;
        }
        s.min(1.0)
    };
    let rank_key = |s: f32| (s * 1_000_000.0).round() as u64;
    let r = l.rank_skills_for_context(&skills, "please BUILD it", &score_of, &rank_key);
    let ids: Vec<&str> = r.iter().map(|e| e.0.as_str()).collect();
    assert_eq!(ids, vec!["d", "a", "b", "c"]);
    assert!((r[0].1 - 0.65).abs() < 1e-6);
    assert!((r[1].1 - 0.4).abs() < 1e-6);
}

#[test]
fn recency_goes_by_whole_hours() {
    let m = PerformanceMetric {
        skill_id: "s".to_string(),
        total_uses: 1,
        successful_uses: 1,
        average_rating: 1.0f32,
        average_duration_ms: 0,
        context_matches: 0,
        last_used: 1_000_000,
    };
    assert_eq!(m.recency_at(1_000_000 + 24 * 3600 + 3599), Recency::Day);
    assert_eq!(m.recency_at(1_000_000 + 25 * 3600), Recency::ThreeDays);
    assert_eq!(m.recency_at(1_000_000 + 100 * 3600), Recency::Week);
    assert_eq!(m.recency_at(1_000_000 + 169 * 3600), Recency::Older);
    assert_eq!(m.recency_now(), Some(Recency::Older));
}

#[test]
fn metric_rates_and_effectiveness() {
    let rate_of = |a: usize, b: usize| a as f32 / b as f32;
    let weight = |r: Recency| match r {
        Recency::Day => 1.0f32,
        Recency::ThreeDays => 0.8,
        Recency::Week => 0.6,
        Recency::Older => 0.4,
    };
    let combine = |s: f32, r: f32, w: f32| (s * 0.5 + r * 0.3 + w * 0.2).clamp(0.0, 1.0);
    let mut m = PerformanceMetric {
        skill_id: "s".to_string(),
        total_uses: 4,
        successful_uses: 3,
        average_rating: 0.5f32,
        average_duration_ms: 0,
        context_matches: 0,
        last_used: 0,
    };
    assert_eq!(m.success_rate(0.0, &rate_of), 0.75);
    let e = m.effectiveness_score(0.0, &rate_of, &weight, &combine).unwrap();
    assert!((e - (0.375 + 0.15 + 0.08)).abs() < 1e-6);
    m.total_uses = 0;
    assert_eq!(m.success_rate(0.0, &rate_of), 0.0);
    m.last_used = u64::MAX;
    assert!(m.effectiveness_score(0.0, &rate_of, &weight, &combine).is_none());
}

#[test]
fn recency_and_effectiveness_follow_the_clock_reading() {
    let rate_of = |a: usize, b: usize| a as f32 / b as f32;
    let weight = |r: Recency| match r {
        Recency::Day => 1.0f32,
        Recency::ThreeDays => 0.8,
        Recency::Week => 0.6,
        Recency::Older => 0.4,
    };
    let combine = |s: f32, r: f32, w: f32| (s * 0.5 + r * 0.3 + w * 0.2).clamp(0.0, 1.0);
    let m = PerformanceMetric {
        skill_id: "s".to_string(),
        total_uses: 4,
        successful_uses: 3,
        average_rating: 0.5f32,
        average_duration_ms: 0,
        context_matches: 0,
        last_used: 1000,
    };
    assert_eq!(m.recency_from(None), None);
    assert_eq!(m.recency_from(Some(999)), None);
    assert_eq!(m.recency_from(Some(1000)), Some(Recency::Day));
    assert_eq!(m.recency_from(Some(1000 + 73 * 3600)), Some(Recency::Week));
    assert!(m.effectiveness_from(None, 0.0, &rate_of, &weight, &combine).is_none());
    assert!(m.effectiveness_from(Some(999), 0.0, &rate_of, &weight, &combine).is_none());
    let e = m.effectiveness_from(Some(1000 + 3600), 0.0, &rate_of, &weight, &combine).unwrap();
    assert!((e - (0.375 + 0.15 + 0.2)).abs() < 1e-6);
    let older = m.effectiveness_from(Some(1000 + 200 * 3600), 0.0, &rate_of, &weight, &combine).unwrap();
    assert!((older - (0.375 + 0.15 + 0.08)).abs() < 1e-6);
}

#[test]
fn skill_adjustment_rises_with_similarity() {
    let mut l: FeedbackLoop<f32> = FeedbackLoop::new();
    let adjust = |u: (usize, usize, f32, u64), s: f32| {
        let bonus = if s > 0.8 { 0.1 } else if s > 0.5 { 0.0 } else { -0.1 };
        u.2 * 0.7 + s * 0.3 + bonus
    };
    for s in [0.1f32, 0.6, 0.9] {
        assert_eq!(l.get_skill_adjustment("s", s, &adjust, 0.5), 0.5);
    }
    l.record_feedback(feedback("s", 1.0, 10), 0.0, &running_average, &is_positive);
    let a1 = l.get_skill_adjustment("s", 0.1, &adjust, 0.5);
    let a2 = l.get_skill_adjustment("s", 0.6, &adjust, 0.5);
    let a3 = l.get_skill_adjustment("s", 0.9, &adjust, 0.5);
    assert!(a1 <= a2 && a2 <= a3);
    assert!((a3 - (0.7 + 0.27 + 0.1)).abs() < 1e-6);
}

#[test]
fn a_rating_that_is_no_success_counts_only_a_use() {
    let mut l: FeedbackLoop<f32> = FeedbackLoop::new();
    l.record_feedback(feedback("s", 0.2, 10), 0.0, &running_average, &is_positive);
    l.update_from_experience("s", ExperienceOutcome::Failure, 10, &rating_of, 0.0, &running_average, &is_positive);
    let m = l.get_metrics("s").unwrap();
    assert_eq!(m.total_uses, 3);
    assert_eq!(m.successful_uses, 0);
}
