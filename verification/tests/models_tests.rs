use pii::models::{clean_id, clean_name, improve, outright, strip_name};
use pii::models::{
    bench_category, benchmark_union, category_short, fuzzy_match_model, is_index_bench, like_pattern,
    rank_marker, source_tag, titleize,
};

fn cands(v: &[(&str, &str)]) -> Vec<(String, String)> {
    v.iter().map(|(a, b)| (a.to_string(), b.to_string())).collect()
}

#[test]
fn records_match_outright_by_cleaned_id_or_name() {
    let c = cands(&[("orca-4o", "ORCA-4o"), ("atlas-nova-4-5", "Atlas Nova 4.5")]);
    assert_eq!(fuzzy_match_model("anthropic/atlas-nova-4.5", "x", &c), Some("atlas-nova-4-5".to_string()));
    assert_eq!(fuzzy_match_model("zzz", "Atlas Nova 4.5", &c), Some("atlas-nova-4-5".to_string()));
    assert_eq!(fuzzy_match_model("openai/ORCA-4o", "whatever", &c), Some("orca-4o".to_string()));
    assert_eq!(fuzzy_match_model("orca-4o-mini", "n", &c), Some("orca-4o".to_string()));
}

#[test]
fn stripped_names_match_too() {
    let c = cands(&[("atlas-fable-5", "Atlas Fable 5")]);
    assert_eq!(fuzzy_match_model("cd55210d-358e", "Atlas Fable 5 (Thinking)", &c), Some("atlas-fable-5".to_string()));
}

#[test]
fn unrelated_records_do_not_match() {
    let c = cands(&[("llama-3", "Llama 3")]);
    assert_eq!(fuzzy_match_model("qqqq", "zzzz", &c), None);
    assert_eq!(fuzzy_match_model("x", "y", &cands(&[])), None);
}

#[test]
fn source_tags_and_titles() {
    assert_eq!(source_tag("merged"), "\x1b[38;5;114m[merged]\x1b[0m");
    assert_eq!(source_tag("llm-stats"), "\x1b[38;5;246m[llm-stats]\x1b[0m");
    assert_eq!(source_tag("aa"), "\x1b[38;5;246m[aa]\x1b[0m");
    assert_eq!(source_tag("other"), "\x1b[38;5;242m[other]\x1b[0m");
    assert_eq!(titleize("coding"), "Coding");
    assert_eq!(titleize(""), " ");
    assert_eq!(titleize("ßeta"), "SSeta");
    assert_eq!(titleize("Math"), "Math");
}

#[test]
fn benchmark_kinds() {
    assert_eq!(bench_category("livecodebench"), "coding");
    assert_eq!(bench_category("artificial_analysis_coding_index"), "coding");
    assert_eq!(bench_category("math_500"), "math");
    assert_eq!(bench_category("gpqa"), "general");
    assert!(is_index_bench("artificial_analysis_math_index"));
    assert!(!is_index_bench("aime"));
}

#[test]
fn lookups_and_labels() {
    assert_eq!(like_pattern("orca-4o"), "%orca%4o%");
    assert_eq!(like_pattern(""), "%%");
    assert_eq!(category_short("livecodebench"), "livecode…");
    assert_eq!(category_short("mmlu_pro"), "mmlu_pro");
    assert_eq!(category_short("123456789"), "123456789");
    assert_eq!(rank_marker(1), "\x1b[38;5;220m◆\x1b[0m");
    assert_eq!(rank_marker(3), "\x1b[38;5;130m◆\x1b[0m");
    assert_eq!(rank_marker(9), "\x1b[38;5;242m◆\x1b[0m");
}

#[test]
fn benchmark_union_is_sorted_and_distinct() {
    let names: Vec<String> = ["mmlu", "aime", "gpqa", "aime", "Zeta", "mmlu"].iter().map(|s| s.to_string()).collect();
    assert_eq!(benchmark_union(&names), vec!["Zeta", "aime", "gpqa", "mmlu"]);
    assert_eq!(benchmark_union(&vec![]), Vec::<String>::new());
}

#[test]
fn record_texts_are_cleaned_for_matching() {
    let s = |v: Vec<char>| v.into_iter().collect::<String>();
    assert_eq!(s(clean_id("anthropic/atlas-nova-4.5-thinking")), "atlas-nova-4-5");
    assert_eq!(s(clean_id("deepseek/r1.2")), "r1-2");
    assert_eq!(s(clean_name("atlas fable 5 (thinking)")), "atlas-fable-5-thinking");
    assert_eq!(s(strip_name("atlas fable 5.1 (thinking)")), "atlas-fable-5-1");
    assert_eq!(s(strip_name("no parens here")), "no-parens-here");
    let cid: Vec<char> = "orca-4o-mini".chars().collect();
    let lid: Vec<char> = "orca-4o".chars().collect();
    assert!(outright(&cid, "x", "y", &lid, "z"));
    let other: Vec<char> = "llama".chars().collect();
    assert!(!outright(&cid, "x", "y", &other, "z"));
    assert!(outright(&cid, "x", "y", &other, "x"));
    let mut best: (u32, Option<String>) = (0, None);
    improve(&mut best, Some(50), &"a".to_string());
    assert_eq!(best, (0, None));
    improve(&mut best, Some(80), &"b".to_string());
    assert_eq!(best, (80, Some("b".to_string())));
    improve(&mut best, Some(80), &"c".to_string());
    assert_eq!(best, (80, Some("b".to_string())));
    improve(&mut best, None, &"d".to_string());
    improve(&mut best, Some(81), &"e".to_string());
    assert_eq!(best, (81, Some("e".to_string())));
}
