use skill_learning::experience::{Experience, ExperienceOutcome};
use skill_learning::pattern::{PatternExtractor, context_commands, context_file_extensions};
use skill_learning::seqs::positions_by_key_desc;
use skill_learning::text::{decimal_string, join_strings, replace_char_in, split_words, str_contains, str_eq};

#[test]
fn decimal_notation() {
    assert_eq!(decimal_string(0), "0");
    assert_eq!(decimal_string(42), "42");
    assert_eq!(decimal_string(u64::MAX), "18446744073709551615");
}

#[test]
fn words_split_on_whitespace() {
    let cs: Vec<char> = "  run\tcargo \n test ".chars().collect();
    let ws: Vec<String> = split_words(&cs).into_iter().map(|w| w.into_iter().collect()).collect();
    assert_eq!(ws, vec!["run", "cargo", "test"]);
    let empty: Vec<char> = "   ".chars().collect();
    assert!(split_words(&empty).is_empty());
}

#[test]
fn joining_and_replacing() {
    let parts = vec!["a".to_string(), "b".to_string(), "c".to_string()];
    assert_eq!(join_strings(&parts, " -> "), "a -> b -> c");
    assert_eq!(join_strings(&vec![], "_"), "");
    let cs: Vec<char> = "a b c".chars().collect();
    let r: String = replace_char_in(&cs, ' ', '_').into_iter().collect();
    assert_eq!(r, "a_b_c");
}

#[test]
fn containment_and_equality() {
    assert!(str_contains("hello world", "o w"));
    assert!(str_contains("abc", ""));
    assert!(!str_contains("abc", "abcd"));
    assert!(str_eq("same", "same"));
    assert!(!str_eq("same", "Same"));
}

#[test]
fn commands_in_a_context() {
    let cs: Vec<String> = context_commands("Please Run Tests, then BASH deploy.sh")
        .into_iter()
        .map(|w| w.into_iter().collect())
        .collect();
    assert_eq!(cs, vec!["deploy.sh", "tests,"]);
}

#[test]
fn file_extensions_in_a_context() {
    let es: Vec<String> = context_file_extensions("Edit src/lib.rs and .md")
        .into_iter()
        .map(|w| w.into_iter().collect())
        .collect();
    assert_eq!(es, vec!["rs", "*"]);
    let none: Vec<Vec<char>> = context_file_extensions("look at lib.rs");
    assert!(none.is_empty());
}

#[test]
fn dot_files_count_as_star() {
    let e = PatternExtractor::new(2);
    let exps: Vec<Experience<f32>> = vec![
        Experience::from_parts("1".to_string(), 0, "read .rs".to_string(), "i".to_string(), None, vec![], ExperienceOutcome::Success, 0, "s".to_string()),
        Experience::from_parts("2".to_string(), 0, "write x/.rs".to_string(), "i".to_string(), None, vec![], ExperienceOutcome::Success, 0, "s".to_string()),
    ];
    let conf = |n: usize| n as f32 / 10.0;
    let rate = |a: usize, b: usize| a as f32 / b as f32;
    let ps = e.extract_file_operation_patterns(&exps, &conf, &rate);
    assert_eq!(ps.len(), 1);
    assert_eq!(ps[0].id, "file_*");
    assert_eq!(ps[0].description, "File operation pattern for .* files (seen 2 times)");
}

#[test]
fn positions_sorted_by_key_stably() {
    let sorted = positions_by_key_desc(&vec![3, 7, 3, 9, 7]);
    assert_eq!(sorted, vec![(9, 3), (7, 1), (7, 4), (3, 0), (3, 2)]);
}

#[test]
fn file_names_after_backslash_or_colon_keep_their_extension() {
    let es: Vec<String> = context_file_extensions("Edit src\\lib.rs and C:main.py")
        .into_iter()
        .map(|w| w.into_iter().collect())
        .collect();
    assert_eq!(es, vec!["rs", "py"]);
    let bare: Vec<String> = context_file_extensions("read C:.rs src\\.go")
        .into_iter()
        .map(|w| w.into_iter().collect())
        .collect();
    assert_eq!(bare, vec!["rs", "go"]);
}

#[test]
fn only_the_file_name_decides_the_extension() {
    let es: Vec<String> = context_file_extensions("write //server/share/x.py //host/.md a.b/..rs")
        .into_iter()
        .map(|w| w.into_iter().collect())
        .collect();
    assert_eq!(es, vec!["py", "*", "rs"]);
}
