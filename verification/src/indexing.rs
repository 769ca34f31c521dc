use vstd::prelude::*;
use crate::helpers::tokenize_spec;
use crate::helpers::tokenize_term;

verus! {

/// One searchable record of the index: a stable identifier, the stored
/// title and year, the title's normalized tokens with stop words removed,
/// and an optional descriptive extract.
#[derive(Debug)]
pub struct IndexEntry {
    pub id: String,
    pub tokens: Vec<String>,
    pub title: String,
    pub year: i32,
    pub extract: Option<String>,
}

/// A corpus record as it arrives from the outside, each field possibly
/// missing; presence of the required fields is checked at build time.
pub struct RawRecord {
    pub title: Option<String>,
    pub year: Option<i64>,
    pub extract: Option<String>,
}

/// A persisted index record read back from storage, each field possibly
/// missing; presence of the required fields is checked at load time.
pub struct RawIndexRecord {
    pub id: Option<String>,
    pub tokens: Option<Vec<String>>,
    pub title: Option<String>,
    pub year: Option<i64>,
    pub extract: Option<String>,
}

/// Why a record was rejected. `record` is the position of the first bad
/// record; `kind` names the first check it failed.
#[derive(Debug)]
pub struct IndexError {
    pub record: usize,
    pub kind: IndexErrorKind,
}

#[derive(PartialEq, Eq, Structural, Clone, Copy, Debug)]
pub enum IndexErrorKind {
    MissingId,
    MissingTokens,
    MissingTitle,
    MissingYear,
    YearOutOfRange,
}

pub open spec fn year_in_range(y: i64) -> bool {
    i32::MIN <= y <= i32::MAX
}

pub open spec fn record_valid(r: RawRecord) -> bool {
    &&& r.title is Some
    &&& r.year matches Some(y) && year_in_range(y)
}

/// The first check a bad corpus record fails: title before year, presence
/// before range.
pub open spec fn record_error_kind(r: RawRecord) -> IndexErrorKind {
    if r.title is None {
        IndexErrorKind::MissingTitle
    } else if r.year is None {
        IndexErrorKind::MissingYear
    } else {
        IndexErrorKind::YearOutOfRange
    }
}

pub open spec fn raw_index_record_valid(r: RawIndexRecord) -> bool {
    &&& r.id is Some
    &&& r.tokens is Some
    &&& r.title is Some
    &&& r.year matches Some(y) && year_in_range(y)
}

/// The first check a bad persisted record fails, in field order.
pub open spec fn raw_index_record_error_kind(r: RawIndexRecord) -> IndexErrorKind {
    if r.id is None {
        IndexErrorKind::MissingId
    } else if r.tokens is None {
        IndexErrorKind::MissingTokens
    } else if r.title is None {
        IndexErrorKind::MissingTitle
    } else if r.year is None {
        IndexErrorKind::MissingYear
    } else {
        IndexErrorKind::YearOutOfRange
    }
}

/// The tokens stored for a title: its normalized tokens with every stop
/// word dropped.
/// True of tokens that are not stop words.
pub open spec fn not_stop(stops: Seq<Seq<char>>) -> spec_fn(Seq<char>) -> bool {
    |t: Seq<char>| !stops.contains(t)
}

pub open spec fn entry_tokens_spec(title: Seq<char>, stops: Seq<Seq<char>>) -> Seq<Seq<char>> {
    tokenize_spec(title).filter(not_stop(stops))
}

pub open spec fn option_string_matches(a: Option<String>, b: Option<String>) -> bool {
    match (a, b) {
        (Option::Some(x), Option::Some(y)) => x@ == y@,
        (Option::None, Option::None) => true,
        _ => false,
    }
}

/// Every field of a built entry except the identifier is a function of the
/// corpus record and the stop words alone.
pub open spec fn entry_matches_record(
    e: IndexEntry,
    r: RawRecord,
    stops: Seq<Seq<char>>,
) -> bool {
    &&& r.title matches Some(t) && e.title@ == t@ && e.tokens.deep_view() == entry_tokens_spec(
        t@,
        stops,
    )
    &&& r.year matches Some(y) && e.year as int == y as int
    &&& option_string_matches(e.extract, r.extract)
    &&& e.id@.len() == 36
}

/// A loaded entry carries the persisted fields over unchanged.
pub open spec fn entry_matches_raw(e: IndexEntry, r: RawIndexRecord) -> bool {
    &&& r.id matches Some(id) && e.id@ == id@
    &&& r.tokens matches Some(ts) && e.tokens.deep_view() == ts.deep_view()
    &&& r.title matches Some(t) && e.title@ == t@
    &&& r.year matches Some(y) && e.year as int == y as int
    &&& option_string_matches(e.extract, r.extract)
}

/// Relies on `uuid::Uuid::new_v4` and its `Display` form: a fresh random
/// identifier, rendered in the hyphenated form of exactly 36 characters.
/// Nothing is assumed about which identifier comes back.
#[verifier::external_body]
fn fresh_id() -> (r: String)
    ensures
        r@.len() == 36,
{
    uuid::Uuid::new_v4().to_string()
}

pub(crate) fn contains_string(v: &Vec<String>, s: &String) -> (b: bool)
    ensures
        b == v.deep_view().contains(s@),
{
    let mut i: usize = 0;
    while i < v.len()
        invariant
            i <= v.len(),
            forall|j: int| 0 <= j < i ==> v.deep_view()[j] != s@,
            forall|j: int| 0 <= j < v@.len() ==> #[trigger] v.deep_view()[j] == v@[j]@,
        decreases v.len() - i,
    {
        if *s == v[i] {
            assert(v.deep_view()[i as int] == s@);
            return true;
        }
        i += 1;
    }
    false
}

fn filter_stop_words(tokens: Vec<String>, stop_words: &Vec<String>) -> (out: Vec<String>)
    ensures
        out.deep_view() == tokens.deep_view().filter(not_stop(stop_words.deep_view())),
{
    broadcast use vstd::seq_lib::group_filter_ensures;

    let ghost toks_dv = tokens.deep_view();
    let mut out: Vec<String> = Vec::new();
    let mut i: usize = 0;
    proof {
        reveal(Seq::filter);
        assert(toks_dv.take(0) =~= Seq::<Seq<char>>::empty());
        assert(out.deep_view() =~= Seq::<Seq<char>>::empty());
        assert(Seq::<Seq<char>>::empty().filter(not_stop(stop_words.deep_view())) =~= Seq::<Seq<char>>::empty());
    }
    while i < tokens.len()
        invariant
            i <= tokens.len(),
            tokens.deep_view() == toks_dv,
            toks_dv.len() == tokens@.len(),
            forall|j: int| 0 <= j < toks_dv.len() ==> #[trigger] toks_dv[j] == tokens@[j]@,
            out.deep_view() == toks_dv.take(i as int).filter(not_stop(stop_words.deep_view())),
        decreases tokens.len() - i,
    {
        let ghost prev = out.deep_view();
        let keep = !contains_string(stop_words, &tokens[i]);
        proof {
            assert(toks_dv.take(i as int + 1) =~= toks_dv.take(i as int).push(
                toks_dv[i as int],
            ));
            toks_dv.take(i as int).lemma_filter_push(toks_dv[i as int], not_stop(stop_words.deep_view()));
        }
        if keep {
            let t = tokens[i].clone();
            out.push(t);
            proof {
                assert(out.deep_view() =~= prev.push(toks_dv[i as int]));
            }
        }
        proof {
            let e = toks_dv[i as int];
            assert(e == tokens@[i as int]@);
            assert(not_stop(stop_words.deep_view())(e) == !stop_words.deep_view().contains(e));
            assert(keep == not_stop(stop_words.deep_view())(e));
            assert(toks_dv.take(i as int + 1).filter(not_stop(stop_words.deep_view())) == toks_dv.take(i as int).push(
                e,
            ).filter(not_stop(stop_words.deep_view())));
            if not_stop(stop_words.deep_view())(e) {
                assert(out.deep_view() == toks_dv.take(i as int).filter(not_stop(stop_words.deep_view())).push(e));
            } else {
                assert(out.deep_view() == toks_dv.take(i as int).filter(not_stop(stop_words.deep_view())));
            }
            assert(out.deep_view() == toks_dv.take(i as int + 1).filter(not_stop(stop_words.deep_view())));
        }
        i += 1;
    }
    proof {
        assert(toks_dv.take(toks_dv.len() as int) =~= toks_dv);
    }
    out
}

/// Builds the index from corpus records: each valid record becomes an entry
/// with a fresh 36-character identifier, the title and year and extract kept
/// verbatim, and the title's tokens with stop words dropped. The first
/// record missing a required field (or whose year does not fit) aborts the
/// build with an error naming it. Persisting the result is the caller's
/// concern.
pub fn create_index(records: &Vec<RawRecord>, stop_words: &Vec<String>) -> (r: Result<
    Vec<IndexEntry>,
    IndexError,
>)
    ensures
        match r {
            Ok(v) => {
                &&& forall|i: int| 0 <= i < records@.len() ==> record_valid(#[trigger] records@[i])
                &&& v@.len() == records@.len()
                &&& forall|i: int|
                    0 <= i < v@.len() ==> entry_matches_record(
                        #[trigger] v@[i],
                        records@[i],
                        stop_words.deep_view(),
                    )
            },
            Err(e) => {
                &&& 0 <= e.record < records@.len()
                &&& !record_valid(records@[e.record as int])
                &&& e.kind == record_error_kind(records@[e.record as int])
                &&& forall|j: int| 0 <= j < e.record ==> record_valid(#[trigger] records@[j])
            },
        },
{
    let mut out: Vec<IndexEntry> = Vec::new();
    let mut i: usize = 0;
    while i < records.len()
        invariant
            i <= records.len(),
            out@.len() == i,
            forall|j: int| 0 <= j < i ==> record_valid(#[trigger] records@[j]),
            forall|j: int|
                0 <= j < i ==> entry_matches_record(
                    #[trigger] out@[j],
                    records@[j],
                    stop_words.deep_view(),
                ),
        decreases records.len() - i,
    {
        let rec = &records[i];
        let title = match &rec.title {
            Some(t) => t.clone(),
            None => {
                return Err(IndexError { record: i, kind: IndexErrorKind::MissingTitle });
            },
        };
        let year64 = match &rec.year {
            Some(y) => *y,
            None => {
                return Err(IndexError { record: i, kind: IndexErrorKind::MissingYear });
            },
        };
        if !(i32::MIN as i64 <= year64 && year64 <= i32::MAX as i64) {
            return Err(IndexError { record: i, kind: IndexErrorKind::YearOutOfRange });
        }
        let tokens = tokenize_term(&title);
        let kept = filter_stop_words(tokens, stop_words);
        let extract = match &rec.extract {
            Some(e) => Some(e.clone()),
            None => None,
        };
        let entry = IndexEntry {
            id: fresh_id(),
            tokens: kept,
            title: title,
            year: year64 as i32,
            extract: extract,
        };
        out.push(entry);
        i += 1;
    }
    Ok(out)
}

/// Rebuilds entries from persisted records, field for field; a missing
/// extract is valid and stays absent, any other missing field (or a year
/// that does not fit) is a fatal parse error naming the first bad record.
pub fn load_index(raw: &Vec<RawIndexRecord>) -> (r: Result<Vec<IndexEntry>, IndexError>)
    ensures
        match r {
            Ok(v) => {
                &&& forall|i: int|
                    0 <= i < raw@.len() ==> raw_index_record_valid(#[trigger] raw@[i])
                &&& v@.len() == raw@.len()
                &&& forall|i: int|
                    0 <= i < v@.len() ==> entry_matches_raw(#[trigger] v@[i], raw@[i])
            },
            Err(e) => {
                &&& 0 <= e.record < raw@.len()
                &&& !raw_index_record_valid(raw@[e.record as int])
                &&& e.kind == raw_index_record_error_kind(raw@[e.record as int])
                &&& forall|j: int| 0 <= j < e.record ==> raw_index_record_valid(#[trigger] raw@[j])
            },
        },
{
    let mut out: Vec<IndexEntry> = Vec::new();
    let mut i: usize = 0;
    while i < raw.len()
        invariant
            i <= raw.len(),
            out@.len() == i,
            forall|j: int| 0 <= j < i ==> raw_index_record_valid(#[trigger] raw@[j]),
            forall|j: int| 0 <= j < i ==> entry_matches_raw(#[trigger] out@[j], raw@[j]),
        decreases raw.len() - i,
    {
        let rec = &raw[i];
        let id = match &rec.id {
            Some(v) => v.clone(),
            None => {
                return Err(IndexError { record: i, kind: IndexErrorKind::MissingId });
            },
        };
        let tokens = match &rec.tokens {
            Some(v) => v.clone(),
            None => {
                return Err(IndexError { record: i, kind: IndexErrorKind::MissingTokens });
            },
        };
        let title = match &rec.title {
            Some(v) => v.clone(),
            None => {
                return Err(IndexError { record: i, kind: IndexErrorKind::MissingTitle });
            },
        };
        let year64 = match &rec.year {
            Some(y) => *y,
            None => {
                return Err(IndexError { record: i, kind: IndexErrorKind::MissingYear });
            },
        };
        if !(i32::MIN as i64 <= year64 && year64 <= i32::MAX as i64) {
            return Err(IndexError { record: i, kind: IndexErrorKind::YearOutOfRange });
        }
        let extract = match &rec.extract {
            Some(e) => Some(e.clone()),
            None => None,
        };
        proof {
            assert(tokens.deep_view() =~= rec.tokens.unwrap().deep_view());
        }
        let entry = IndexEntry { id: id, tokens: tokens, title: title, year: year64 as i32, extract: extract };
        out.push(entry);
        i += 1;
    }
    Ok(out)
}

/// Two builds of the same corpus agree on every stored field: titles,
/// years, tokens and extracts are functions of the records and stop words
/// alone, and only the fresh identifiers may differ.
pub proof fn lemma_rebuild_same_fields(
    v1: Seq<IndexEntry>,
    v2: Seq<IndexEntry>,
    records: Seq<RawRecord>,
    stops: Seq<Seq<char>>,
)
    requires
        v1.len() == records.len(),
        v2.len() == records.len(),
        forall|i: int| 0 <= i < v1.len() ==> entry_matches_record(#[trigger] v1[i], records[i], stops),
        forall|i: int| 0 <= i < v2.len() ==> entry_matches_record(#[trigger] v2[i], records[i], stops),
    ensures
        forall|i: int|
            0 <= i < records.len() ==> #[trigger] v1[i].title@ == v2[i].title@
                && v1[i].year == v2[i].year && v1[i].tokens.deep_view() == v2[i].tokens.deep_view()
                && option_string_matches(v1[i].extract, v2[i].extract),
{
    assert forall|i: int| 0 <= i < records.len() implies #[trigger] v1[i].title@ == v2[i].title@
        && v1[i].year == v2[i].year && v1[i].tokens.deep_view() == v2[i].tokens.deep_view()
        && option_string_matches(v1[i].extract, v2[i].extract) by {
        assert(entry_matches_record(v1[i], records[i], stops));
        assert(entry_matches_record(v2[i], records[i], stops));
    }
}

} // verus!
