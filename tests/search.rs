use launcher_lib::bin::{bins_from_files, Bin};
use launcher_lib::rank::{rank_scores, score};
use launcher_lib::{Searcher, DEFAULT_THRESHOLD};

fn entry(name: &str) -> Bin {
    Bin::new(&format!("/apps/{}.desktop", name.to_lowercase()), name, &name.to_lowercase())
}

fn names(bins: &[&Bin]) -> Vec<String> {
    bins.iter().map(|b| b.name().to_string()).collect()
}

#[test]
fn rank_orders_by_score_then_index() {
    let scores = vec![Some(50), None, Some(70), Some(50), Some(10), Some(30), Some(31)];
    assert_eq!(rank_scores(&scores, 30), vec![2, 0, 3, 6]);
}

#[test]
fn rank_of_nothing_is_empty() {
    assert!(rank_scores(&Vec::new(), 30).is_empty());
    assert!(rank_scores(&vec![None, Some(30), Some(-5)], 30).is_empty());
}

#[test]
fn rank_threshold_is_strict() {
    assert_eq!(rank_scores(&vec![Some(30), Some(31)], 30), vec![1]);
    assert_eq!(rank_scores(&vec![Some(30), Some(31)], 29), vec![1, 0]);
}

#[test]
fn score_of_empty_pattern_is_zero() {
    assert_eq!(score("Firefox", ""), Some(0));
}

#[test]
fn score_needs_a_subsequence() {
    assert_eq!(score("Firefox", "xyz"), None);
    assert_eq!(score("Firefox", "fx"), score("Firefox", "fx"));
    assert!(score("Firefox", "fx").is_some());
    assert!(score("Firefox", "ff").is_some());
    assert_eq!(score("Firefox", "fff"), None);
}

#[test]
fn score_uses_smart_case() {
    assert!(score("Firefox", "fire").is_some());
    assert!(score("firefox", "Fire").is_none());
    assert!(score("Firefox", "Fire").is_some());
}

#[test]
fn score_prefers_contiguous_matches() {
    let contiguous = score("Firefox", "fire").unwrap();
    let scattered = score("Firefox", "frfx").unwrap();
    assert!(contiguous > scattered);
}

#[test]
fn unrelated_query_finds_nothing() {
    let searcher = Searcher::new(vec![entry("Firefox"), entry("Files"), entry("Fish")]);
    assert!(searcher.sorted_bins("xyz").is_empty());
}

#[test]
fn fi_finds_the_three_f_entries() {
    let searcher =
        Searcher::new(vec![entry("Firefox"), entry("Zulu"), entry("Files"), entry("Fish")]);
    let found = searcher.sorted_bins("fi");
    let mut listed = names(&found);
    assert_eq!(found.len(), 3);
    listed.sort();
    assert_eq!(listed, vec!["Files", "Firefox", "Fish"]);
    let scores: Vec<i64> = found.iter().map(|b| score(b.name(), "fi").unwrap()).collect();
    for w in scores.windows(2) {
        assert!(w[0] >= w[1]);
    }
    let all = vec!["Firefox", "Zulu", "Files", "Fish"];
    for w in found.windows(2) {
        if score(w[0].name(), "fi") == score(w[1].name(), "fi") {
            let a = all.iter().position(|n| *n == w[0].name()).unwrap();
            let b = all.iter().position(|n| *n == w[1].name()).unwrap();
            assert!(a < b);
        }
    }
}

#[test]
fn equal_scores_keep_index_order() {
    let searcher = Searcher::new(vec![entry("Firefox"), entry("Files"), entry("Fish")]);
    let s = score("Firefox", "fi");
    assert_eq!(s, score("Files", "fi"));
    assert_eq!(s, score("Fish", "fi"));
    assert_eq!(names(&searcher.sorted_bins("fi")), vec!["Firefox", "Files", "Fish"]);
}

#[test]
fn better_match_comes_first() {
    let searcher = Searcher::new(vec![entry("Terminal Emulator"), entry("Calculator")]);
    let found = searcher.sorted_bins("calc");
    assert_eq!(names(&found), vec!["Calculator"]);
    let searcher = Searcher::with_threshold(vec![entry("Xterm"), entry("Terminal")], 0);
    let found = searcher.sorted_bins("term");
    assert!(score("Terminal", "term").unwrap() > score("Xterm", "term").unwrap());
    assert_eq!(names(&found), vec!["Terminal", "Xterm"]);
}

#[test]
fn empty_query_finds_nothing() {
    let searcher = Searcher::new(vec![entry("Firefox"), entry("Files")]);
    assert!(searcher.sorted_bins("").is_empty());
    let searcher = Searcher::with_threshold(vec![entry("Firefox")], -1000);
    assert!(searcher.sorted_bins("").is_empty());
}

#[test]
fn ranking_twice_gives_the_same_list() {
    let searcher =
        Searcher::new(vec![entry("Firefox"), entry("Files"), entry("Fish"), entry("Filezilla")]);
    let first = searcher.sorted_bins("fil");
    let second = searcher.sorted_bins("fil");
    assert_eq!(first, second);
}

#[test]
fn threshold_is_configurable() {
    let bins = vec![entry("Firefox")];
    let s = score("Firefox", "fi").unwrap();
    assert_eq!(Searcher::with_threshold(bins.clone(), s).sorted_bins("fi").len(), 0);
    assert_eq!(Searcher::with_threshold(bins, s - 1).sorted_bins("fi").len(), 1);
    assert_eq!(DEFAULT_THRESHOLD, 30);
}

#[test]
fn searcher_keeps_its_entries() {
    let searcher = Searcher::new(vec![entry("Firefox"), entry("Files")]);
    assert_eq!(searcher.bins().len(), 2);
    assert_eq!(searcher.bins()[1].name(), "Files");
}

#[test]
fn calculator_end_to_end() {
    let files = vec![
        ("/apps/calc.desktop".to_string(), "[Desktop Entry]\nName=Calculator\nExec=calc %u\n".to_string()),
        ("/apps/junk.desktop".to_string(), "Name=Junk\nExec=junk\n".to_string()),
    ];
    let bins = bins_from_files(&files);
    assert_eq!(bins.len(), 1);
    assert_eq!(bins[0].name(), "Calculator");
    assert_eq!(bins[0].exec_cmd(), "calc");
    let searcher = Searcher::new(bins);
    let found = searcher.sorted_bins("calc");
    assert_eq!(found.len(), 1);
    assert_eq!(found[0].name(), "Calculator");
    assert!(searcher.sorted_bins("xyz").is_empty());
}

#[test]
fn display_fills_slots_then_blanks() {
    let a = entry("Alpha");
    let b = entry("Beta");
    let found = vec![&a, &b];
    assert_eq!(launcher_lib::display_names(&found, 5), vec!["Alpha", "Beta", "", "", ""]);
    assert_eq!(launcher_lib::display_names(&found, 1), vec!["Alpha"]);
    assert!(launcher_lib::display_names(&found, 0).is_empty());
}
