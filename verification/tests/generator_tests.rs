use skill_learning::generator::{GeneratedSkill, SkillGenerator, SkillTemplate};
use skill_learning::pattern::{Pattern, PatternConfidence, PatternType};

fn pattern(id: &str, t: PatternType, keys: &[&str], score: f32, rate: f32, duration: u64) -> Pattern<f32> {
    Pattern {
        id: id.to_string(),
        pattern_type: t,
        description: format!("desc {}", id),
        key_elements: keys.iter().map(|k| k.to_string()).collect(),
        occurrences: 5,
        confidence: PatternConfidence::from_score(score),
        success_rate: rate,
        average_duration_ms: duration,
        first_seen: 0,
        last_seen: 0,
    }
}

fn at_least(a: f32, b: f32) -> bool {
    a >= b
}

fn mean_of(v: Vec<f32>) -> f32 {
    v.iter().sum::<f32>() / v.len() as f32
}

fn skill(id: &str, name: &str, triggers: &[&str], description: &str, confidence: f32) -> GeneratedSkill<f32> {
    GeneratedSkill {
        id: id.to_string(),
        template: SkillTemplate {
            name: name.to_string(),
            description: description.to_string(),
            category: "generated".to_string(),
            trigger_patterns: triggers.iter().map(|t| t.to_string()).collect(),
            recommended_tools: vec![],
            steps: vec![],
            success_rate: 1.0,
            avg_duration_ms: 0,
        },
        source_patterns: vec![],
        confidence,
        created_at: 0,
        times_suggested: 0,
        times_accepted: 0,
        times_executed: 0,
        success_count: 0,
    }
}

#[test]
fn workflow_names_follow_the_first_tool() {
    let g: SkillGenerator<f32> = SkillGenerator::new(0.5);
    assert_eq!(g.generate_workflow_name(&vec![]), "unnamed_workflow");
    assert_eq!(g.generate_workflow_name(&vec!["Read-File".to_string()]), "workflow_read_file");
    assert_eq!(g.generate_workflow_name(&vec!["web_search".to_string(), "edit".to_string()]), "web_search_workflow");
}

#[test]
fn command_skill_runs_the_last_word_of_the_command() {
    let g: SkillGenerator<f32> = SkillGenerator::new(0.5);
    let p = pattern("cmd_cargo", PatternType::CommandPattern, &["cargo Test"], 0.8, 0.9, 12);
    let s = g.create_command_skill(&p).unwrap();
    assert_eq!(s.id, "gen_cmd_test");
    assert_eq!(s.template.name, "run_Test");
    assert_eq!(s.template.description, "desc cmd_cargo");
    assert_eq!(s.template.category, "generated");
    assert_eq!(s.template.trigger_patterns, vec!["run Test".to_string(), "execute Test".to_string(), "Test".to_string()]);
    assert_eq!(s.template.recommended_tools, vec!["cargo Test".to_string()]);
    assert_eq!(s.template.steps.len(), 1);
    assert_eq!(s.template.steps[0].order, 1);
    assert_eq!(s.template.steps[0].action, "Execute: cargo Test");
    assert_eq!(s.template.steps[0].tool_hint.as_deref(), Some("terminal"));
    assert_eq!(s.template.steps[0].description, "Run the Test command");
    assert_eq!(s.template.success_rate, 0.9);
    assert_eq!(s.template.avg_duration_ms, 12);
    assert_eq!(s.source_patterns, vec!["cmd_cargo".to_string()]);
    assert_eq!(s.confidence, 0.8);
    assert_eq!(s.times_suggested, 0);
    let empty = pattern("cmd_none", PatternType::CommandPattern, &[], 0.8, 0.9, 12);
    assert!(g.create_command_skill(&empty).is_none());
}

#[test]
fn workflow_skill_combines_tool_sequences() {
    let g: SkillGenerator<f32> = SkillGenerator::new(0.5);
    let ps = vec![
        pattern("tool_seq_read_edit", PatternType::ToolSequence, &["read", "edit"], 0.6, 1.0, 10),
        pattern("tool_seq_grep", PatternType::ToolSequence, &["grep", "read"], 0.8, 0.5, 21),
    ];
    let s = g.create_workflow_skill(&ps, &mean_of).unwrap();
    assert_eq!(s.template.name, "read_workflow");
    assert_eq!(s.id, "gen_read_workflow");
    assert_eq!(s.template.description, "Workflow for read + edit tasks (generated from 2 patterns)");
    assert_eq!(s.template.trigger_patterns, vec!["read task".to_string(), "work with read and edit".to_string()]);
    assert_eq!(s.template.recommended_tools, vec!["read".to_string(), "edit".to_string(), "grep".to_string()]);
    assert_eq!(s.template.steps.len(), 2);
    assert_eq!(s.template.steps[0].order, 1);
    assert_eq!(s.template.steps[0].action, "Execute: read then edit");
    assert_eq!(s.template.steps[1].order, 2);
    assert_eq!(s.template.steps[1].tool_hint.as_deref(), Some("grep"));
    assert_eq!(s.template.steps[1].description, "desc tool_seq_grep");
    assert_eq!(s.template.avg_duration_ms, 15);
    assert!((s.template.success_rate - 0.75).abs() < 1e-6);
    assert!((s.confidence - 0.7).abs() < 1e-6);
    assert_eq!(s.source_patterns, vec!["tool_seq_read_edit".to_string(), "tool_seq_grep".to_string()]);
    let none: Vec<Pattern<f32>> = vec![];
    assert!(g.create_workflow_skill(&none, &mean_of).is_none());
}

#[test]
fn generation_keeps_qualifying_patterns_and_stores_new_names() {
    let mut g: SkillGenerator<f32> = SkillGenerator::new(0.5);
    let ps = vec![
        pattern("t1", PatternType::ToolSequence, &["read"], 0.6, 1.0, 10),
        pattern("c1", PatternType::CommandPattern, &["ls"], 0.9, 1.0, 0),
        pattern("t2", PatternType::ToolSequence, &["edit"], 0.7, 1.0, 20),
        pattern("c2", PatternType::CommandPattern, &["make"], 0.1, 1.0, 0),
        pattern("t3", PatternType::ToolSequence, &["grep"], 0.2, 1.0, 20),
    ];
    let r = g.generate_from_patterns(&ps, &at_least, &mean_of);
    let names: Vec<&str> = r.iter().map(|s| s.template.name.as_str()).collect();
    assert_eq!(names, vec!["workflow_read", "run_ls"]);
    assert_eq!(r[0].source_patterns, vec!["t1".to_string(), "t2".to_string()]);
    assert_eq!(g.get_all_generated_skills().len(), 2);
    let again = g.generate_from_patterns(&ps, &at_least, &mean_of);
    assert_eq!(again.len(), 2);
    assert_eq!(g.get_all_generated_skills().len(), 2);
}

#[test]
fn one_tool_sequence_makes_no_workflow() {
    let mut g: SkillGenerator<f32> = SkillGenerator::new(0.5);
    let ps = vec![pattern("t1", PatternType::ToolSequence, &["read"], 0.6, 1.0, 10)];
    assert!(g.generate_from_patterns(&ps, &at_least, &mean_of).is_empty());
}

#[test]
fn usage_counters_count_the_first_matching_skill() {
    let mut g: SkillGenerator<f32> = SkillGenerator::new(0.5);
    let ps = vec![
        pattern("c1", PatternType::CommandPattern, &["ls"], 0.9, 1.0, 0),
        pattern("c2", PatternType::CommandPattern, &["make"], 0.9, 1.0, 0),
    ];
    g.generate_from_patterns(&ps, &at_least, &mean_of);
    g.record_suggestion("gen_cmd_ls");
    g.record_suggestion("gen_cmd_ls");
    g.record_acceptance("gen_cmd_ls");
    g.record_execution("gen_cmd_make", true);
    g.record_execution("gen_cmd_make", false);
    g.record_execution("missing", true);
    let all = g.get_all_generated_skills();
    assert_eq!(all[0].times_suggested, 2);
    assert_eq!(all[0].times_accepted, 1);
    assert_eq!(all[0].times_executed, 0);
    assert_eq!(all[1].times_executed, 2);
    assert_eq!(all[1].success_count, 1);
    assert_eq!(all[1].times_suggested, 0);
}

#[test]
fn suggestions_fit_the_context_and_are_not_accepted() {
    let mut g: SkillGenerator<f32> = SkillGenerator::new(0.5);
    let ps = vec![
        pattern("c1", PatternType::CommandPattern, &["ls"], 0.9, 1.0, 0),
        pattern("c2", PatternType::CommandPattern, &["make"], 0.9, 1.0, 0),
        pattern("c3", PatternType::CommandPattern, &["cargo"], 0.6, 1.0, 0),
    ];
    g.generate_from_patterns(&ps, &at_least, &mean_of);
    let worth = |suggested: usize, accepted: usize, executed: usize, successes: usize, confidence: f32| {
        let adoption = if suggested == 0 { 0.0 } else { accepted as f32 / suggested as f32 };
        let success = if executed == 0 { 0.0 } else { successes as f32 / executed as f32 };
        (adoption + success) / 2.0 >= 0.5 || confidence >= 0.8
    };
    let s = g.get_suggestions("Please RUN LS and run cargo", &worth);
    let ids: Vec<&str> = s.iter().map(|x| x.id.as_str()).collect();
    assert_eq!(ids, vec!["gen_cmd_ls"]);
    g.record_acceptance("gen_cmd_ls");
    assert!(g.get_suggestions("run ls", &worth).is_empty());
}

#[test]
fn context_triggers_and_fit() {
    let s = skill("x", "x", &["Deploy App"], "Ships the service to production", 0.5);
    assert!(s.matches_context_trigger("please deploy app now"));
    assert!(!s.matches_context_trigger("deploy"));
    assert!(s.fits("the SERVICE"));
    assert!(!s.fits("database"));
}

#[test]
fn top_skills_are_most_useful_first_and_stable() {
    let mut g: SkillGenerator<f32> = SkillGenerator::new(0.5);
    let ps = vec![
        pattern("c1", PatternType::CommandPattern, &["a"], 0.9, 1.0, 0),
        pattern("c2", PatternType::CommandPattern, &["b"], 0.9, 1.0, 0),
        pattern("c3", PatternType::CommandPattern, &["c"], 0.9, 1.0, 0),
    ];
    g.generate_from_patterns(&ps, &at_least, &mean_of);
    g.record_execution("gen_cmd_c", true);
    g.record_execution("gen_cmd_a", false);
    let key = |suggested: usize, accepted: usize, executed: usize, successes: usize| {
        let adoption = if suggested == 0 { 0.0 } else { accepted as f32 / suggested as f32 };
        let success = if executed == 0 { 0.0 } else { successes as f32 / executed as f32 };
        (((adoption + success) / 2.0) * 1_000_000.0) as u64
    };
    let top: Vec<String> = g.get_top_skills(10, &key).into_iter().map(|s| s.id).collect();
    assert_eq!(top, vec!["gen_cmd_c", "gen_cmd_a", "gen_cmd_b"]);
    let two: Vec<String> = g.get_top_skills(2, &key).into_iter().map(|s| s.id).collect();
    assert_eq!(two, vec!["gen_cmd_c", "gen_cmd_a"]);
}

#[test]
fn adoption_execution_and_usefulness_rates() {
    let rate_of = |a: usize, b: usize| a as f32 / b as f32;
    let average = |a: f32, b: f32| (a + b) / 2.0;
    let mut s = skill("x", "x", &[], "", 0.5);
    assert_eq!(s.adoption_rate(0.0, &rate_of), 0.0);
    assert_eq!(s.execution_success_rate(0.0, &rate_of), 0.0);
    s.times_suggested = 4;
    s.times_accepted = 1;
    s.times_executed = 2;
    s.success_count = 2;
    assert_eq!(s.adoption_rate(0.0, &rate_of), 0.25);
    assert_eq!(s.execution_success_rate(0.0, &rate_of), 1.0);
    assert_eq!(s.usefulness_score(0.0, &rate_of, &average), 0.625);
}

#[test]
fn workflow_durations_must_add_up_within_u64() {
    let g: SkillGenerator<f32> = SkillGenerator::new(0.5);
    let big = vec![
        pattern("t1", PatternType::ToolSequence, &["read"], 0.9, 1.0, u64::MAX),
        pattern("t2", PatternType::ToolSequence, &["edit"], 0.9, 1.0, 1),
    ];
    assert!(!g.workflow_durations_within(&big, &at_least));
    let small = vec![
        pattern("t1", PatternType::ToolSequence, &["read"], 0.9, 1.0, 5),
        pattern("t2", PatternType::ToolSequence, &["edit"], 0.9, 1.0, 7),
    ];
    assert!(g.workflow_durations_within(&small, &at_least));
    let one_qualifies = vec![
        pattern("t1", PatternType::ToolSequence, &["read"], 0.9, 1.0, u64::MAX),
        pattern("t2", PatternType::ToolSequence, &["edit"], 0.1, 1.0, 1),
    ];
    assert!(g.workflow_durations_within(&one_qualifies, &at_least));
}

#[test]
fn successes_never_exceed_executions() {
    let mut g: SkillGenerator<f32> = SkillGenerator::new(0.5);
    let ps = vec![pattern("c1", PatternType::CommandPattern, &["ls"], 0.9, 1.0, 0)];
    g.generate_from_patterns(&ps, &at_least, &mean_of);
    for i in 0..5 {
        g.record_execution("gen_cmd_ls", i % 2 == 0);
        g.record_suggestion("gen_cmd_ls");
        g.record_acceptance("gen_cmd_ls");
        let s = &g.get_all_generated_skills()[0];
        assert!(s.success_count <= s.times_executed);
    }
    let s = &g.get_all_generated_skills()[0];
    assert_eq!(s.times_executed, 5);
    assert_eq!(s.success_count, 3);
}
