use lexsearch::indexing::create_index;
use lexsearch::indexing::load_index;
use lexsearch::indexing::IndexErrorKind;
use lexsearch::indexing::RawIndexRecord;
use lexsearch::indexing::RawRecord;

fn record(title: &str, year: i64, extract: Option<&str>) -> RawRecord {
    RawRecord {
        title: Some(String::from(title)),
        year: Some(year),
        extract: extract.map(String::from),
    }
}

#[test]
fn build_tokenizes_and_drops_stop_words() {
    let records = vec![record("The Matrix Reloaded", 2003, Some("sequel"))];
    let stops = vec![String::from("the")];
    let index = create_index(&records, &stops).unwrap();
    assert_eq!(index.len(), 1);
    let entry = &index[0];
    assert_eq!(entry.title, "The Matrix Reloaded");
    assert_eq!(entry.year, 2003);
    assert_eq!(entry.extract, Some(String::from("sequel")));
    assert!(!entry.tokens.contains(&String::from("the")));
    assert!(entry.tokens.contains(&String::from("matrix")));
    assert_eq!(entry.id.len(), 36);
}

#[test]
fn rebuild_gives_fresh_ids_and_identical_fields() {
    let records = vec![
        record("The Matrix", 1999, None),
        record("Gattaca", 1997, Some("space")),
    ];
    let stops: Vec<String> = vec![];
    let a = create_index(&records, &stops).unwrap();
    let b = create_index(&records, &stops).unwrap();
    assert_eq!(a.len(), b.len());
    for (x, y) in a.iter().zip(b.iter()) {
        assert_ne!(x.id, y.id);
        assert_eq!(x.title, y.title);
        assert_eq!(x.year, y.year);
        assert_eq!(x.tokens, y.tokens);
        assert_eq!(x.extract, y.extract);
    }
    assert_ne!(a[0].id, a[1].id);
}

#[test]
fn build_rejects_missing_title() {
    let records = vec![
        record("Fine", 2000, None),
        RawRecord { title: None, year: Some(2001), extract: None },
    ];
    let err = create_index(&records, &vec![]).unwrap_err();
    assert_eq!(err.record, 1);
    assert!(matches!(err.kind, IndexErrorKind::MissingTitle));
}

#[test]
fn build_rejects_missing_year() {
    let records = vec![RawRecord { title: Some(String::from("x")), year: None, extract: None }];
    let err = create_index(&records, &vec![]).unwrap_err();
    assert_eq!(err.record, 0);
    assert!(matches!(err.kind, IndexErrorKind::MissingYear));
}

#[test]
fn build_rejects_year_out_of_range() {
    let records = vec![record("x", i64::MAX, None)];
    let err = create_index(&records, &vec![]).unwrap_err();
    assert!(matches!(err.kind, IndexErrorKind::YearOutOfRange));
}

fn raw_entry() -> RawIndexRecord {
    RawIndexRecord {
        id: Some(String::from("id-1")),
        tokens: Some(vec![String::from("matrix")]),
        title: Some(String::from("The Matrix")),
        year: Some(1999),
        extract: None,
    }
}

#[test]
fn load_round_trips_fields() {
    let loaded = load_index(&vec![raw_entry()]).unwrap();
    assert_eq!(loaded.len(), 1);
    assert_eq!(loaded[0].id, "id-1");
    assert_eq!(loaded[0].tokens, vec![String::from("matrix")]);
    assert_eq!(loaded[0].title, "The Matrix");
    assert_eq!(loaded[0].year, 1999);
    assert_eq!(loaded[0].extract, None);
}

#[test]
fn load_accepts_missing_extract_only() {
    let mut with_extract = raw_entry();
    with_extract.extract = Some(String::from("desc"));
    let loaded = load_index(&vec![raw_entry(), with_extract]).unwrap();
    assert_eq!(loaded[0].extract, None);
    assert_eq!(loaded[1].extract, Some(String::from("desc")));
}

#[test]
fn load_rejects_missing_id() {
    let mut bad = raw_entry();
    bad.id = None;
    let err = load_index(&vec![bad]).unwrap_err();
    assert_eq!(err.record, 0);
    assert!(matches!(err.kind, IndexErrorKind::MissingId));
}

#[test]
fn load_rejects_missing_tokens() {
    let mut bad = raw_entry();
    bad.tokens = None;
    let err = load_index(&vec![bad]).unwrap_err();
    assert!(matches!(err.kind, IndexErrorKind::MissingTokens));
}

#[test]
fn load_rejects_missing_title() {
    let mut bad = raw_entry();
    bad.title = None;
    let err = load_index(&vec![raw_entry(), bad]).unwrap_err();
    assert_eq!(err.record, 1);
    assert!(matches!(err.kind, IndexErrorKind::MissingTitle));
}

#[test]
fn load_rejects_missing_year() {
    let mut bad = raw_entry();
    bad.year = None;
    let err = load_index(&vec![bad]).unwrap_err();
    assert!(matches!(err.kind, IndexErrorKind::MissingYear));
}

#[test]
fn load_rejects_year_out_of_range() {
    let mut bad = raw_entry();
    bad.year = Some(i64::MIN);
    let err = load_index(&vec![bad]).unwrap_err();
    assert!(matches!(err.kind, IndexErrorKind::YearOutOfRange));
}
