use lexsearch::indexing::create_index;
use lexsearch::indexing::IndexEntry;
use lexsearch::indexing::RawRecord;
use lexsearch::search::get_results;
use lexsearch::search::rank;
use lexsearch::search::search_with_correction;

fn record(title: &str, year: i64) -> RawRecord {
    RawRecord { title: Some(String::from(title)), year: Some(year), extract: None }
}

fn entry(id: &str, tokens: &[&str], title: &str, year: i32) -> IndexEntry {
    IndexEntry {
        id: String::from(id),
        tokens: tokens.iter().map(|t| String::from(*t)).collect(),
        title: String::from(title),
        year,
        extract: None,
    }
}

fn build(titles: &[(&str, i64)]) -> Vec<IndexEntry> {
    let records: Vec<RawRecord> = titles.iter().map(|(t, y)| record(t, *y)).collect();
    create_index(&records, &vec![]).unwrap()
}

#[test]
fn all_results_have_positive_priority() {
    let index = build(&[("The Matrix", 1999), ("Up", 2009), ("Heat", 1995)]);
    let stops: Vec<String> = vec![];
    let results = get_results("matrix heat", &index, &stops);
    assert!(!results.is_empty());
    for r in results.iter() {
        assert!(r.priority > 0);
    }
    assert!(get_results("zzzqqq", &index, &stops).is_empty());
}

#[test]
fn empty_or_whitespace_query_yields_empty_results() {
    let index = build(&[("The Matrix", 1999)]);
    let stops: Vec<String> = vec![];
    assert!(get_results("", &index, &stops).is_empty());
    assert!(rank("   \t ", &index, &stops).is_empty());
}

#[test]
fn exact_title_match_ranks_first() {
    let index = build(&[("Up", 2009), ("The Matrix", 1999), ("Heat", 1995)]);
    let stops: Vec<String> = vec![];
    let ranked = rank("matrix", &index, &stops);
    assert_eq!(ranked.len(), 1);
    assert_eq!(ranked[0].entry_id, index[1].id);
    assert!(ranked[0].priority >= 100);
}

#[test]
fn ranked_output_capped_at_ten_with_year_tiebreak() {
    let mut titles: Vec<(String, i64)> = Vec::new();
    for y in 0..12i64 {
        titles.push((String::from("Star"), 2001 + y));
    }
    let borrowed: Vec<(&str, i64)> = titles.iter().map(|(t, y)| (t.as_str(), *y)).collect();
    let index = build(&borrowed);
    let stops: Vec<String> = vec![];
    let ranked = rank("star", &index, &stops);
    assert_eq!(ranked.len(), 10);
    let years: Vec<i32> = ranked.iter().map(|r| r.year).collect();
    assert_eq!(years, vec![2012, 2011, 2010, 2009, 2008, 2007, 2006, 2005, 2004, 2003]);
}

#[test]
fn priority_orders_before_year() {
    let index = vec![
        entry("a", &["star", "war"], "old both", 1980),
        entry("b", &["star"], "new single", 2020),
    ];
    let stops: Vec<String> = vec![];
    let ranked = rank("star war", &index, &stops);
    assert_eq!(ranked.len(), 2);
    assert_eq!(ranked[0].entry_id, "a");
    assert_eq!(ranked[1].entry_id, "b");
}

#[test]
fn exact_match_weighs_100() {
    let index = vec![entry("a", &["matrix"], "The Matrix", 1999)];
    let stops: Vec<String> = vec![];
    let results = get_results("matrix", &index, &stops);
    assert_eq!(results.len(), 1);
    assert_eq!(results[0].priority, 100);
}

#[test]
fn substring_match_weighs_40() {
    let index = vec![entry("a", &["matrixreload"], "x", 2003)];
    let stops: Vec<String> = vec![];
    let results = get_results("matrix", &index, &stops);
    assert_eq!(results.len(), 1);
    assert_eq!(results[0].priority, 40);
}

#[test]
fn stop_word_synonym_weighs_10() {
    let index = vec![entry("a", &["the"], "x", 2000)];
    let stops = vec![String::from("the")];
    let results = get_results("the", &index, &stops);
    assert_eq!(results.len(), 1);
    assert_eq!(results[0].priority, 10);
}

#[test]
fn numeral_synonym_is_halved() {
    // The query "14" expands to the numeral spelling "xiv"; an exact match
    // through the expansion earns 100 halved to 50.
    let index = vec![entry("a", &["xiv"], "x", 2000)];
    let stops: Vec<String> = vec![];
    let results = get_results("14", &index, &stops);
    assert_eq!(results.len(), 1);
    assert_eq!(results[0].priority, 50);
}

#[test]
fn duplicate_entry_tokens_score_once() {
    let index = vec![entry("a", &["star", "star"], "x", 2000)];
    let stops: Vec<String> = vec![];
    let results = get_results("star", &index, &stops);
    assert_eq!(results[0].priority, 100);
}

#[test]
fn adopted_correction_becomes_query_of_record() {
    let index = build(&[("The Matrix", 1999)]);
    let stops: Vec<String> = vec![];
    let raw = String::from("martix");
    let (query, results) =
        search_with_correction(&raw, Some(String::from("matrix")), &index, &stops);
    assert_eq!(query, "matrix");
    assert!(!results.is_empty());
}

#[test]
fn useless_correction_falls_back_to_raw() {
    let index = build(&[("The Matrix", 1999)]);
    let stops: Vec<String> = vec![];
    let raw = String::from("matrix");
    let (query, results) =
        search_with_correction(&raw, Some(String::from("zzzqqq")), &index, &stops);
    assert_eq!(query, "matrix");
    assert!(!results.is_empty());
    let (query2, results2) = search_with_correction(&raw, None, &index, &stops);
    assert_eq!(query2, "matrix");
    assert_eq!(results2.len(), results.len());
}
