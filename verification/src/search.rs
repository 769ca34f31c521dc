use vstd::prelude::*;
use crate::helpers::all_digits;
use crate::helpers::is_digit;
use crate::helpers::roman_lower;
use crate::helpers::roman_to_lower;
use crate::helpers::chars_of;
use crate::helpers::tokenize_spec;
use crate::helpers::tokenize_term;
use crate::indexing::IndexEntry;
use crate::indexing::contains_string;
use vstd::string::StringExecFns;
use vstd::multiset::Multiset;

verus! {

/// One scored hit: the entry it points at (by identifier, not ownership),
/// its aggregate priority, and the entry's year for tie-breaking.
pub struct SearchResult {
    pub priority: u32,
    pub year: i32,
    pub entry_id: String,
}

// ---------------------------------------------------------------------------
// Reading a token as a decimal number
// ---------------------------------------------------------------------------

pub open spec fn dec_val_rec(s: Seq<char>) -> int
    decreases s.len(),
{
    if s.len() == 0 {
        0
    } else {
        dec_val_rec(s.drop_last()) * 10 + (s.last() as u32 - '0' as u32)
    }
}

/// The value of a token made entirely of decimal digits; `None` otherwise.
pub open spec fn dec_value(s: Seq<char>) -> Option<int> {
    if s.len() > 0 && all_digits(s) {
        Some(dec_val_rec(s))
    } else {
        None
    }
}

proof fn lemma_dec_val_rec_nonneg(s: Seq<char>)
    requires
        all_digits(s),
    ensures
        dec_val_rec(s) >= 0,
    decreases s.len(),
{
    if s.len() > 0 {
        assert(all_digits(s.drop_last()));
        lemma_dec_val_rec_nonneg(s.drop_last());
        assert(is_digit(s.last()));
    }
}

/// Reads a token as a number, accepting exactly the values a classical
/// numeral exists for: 1 through 3999.
fn parse_numeral_value(cs: &Vec<char>) -> (r: Option<u32>)
    ensures
        match r {
            Some(v) => dec_value(cs@) == Some(v as int) && 1 <= v <= 3999,
            None => forall|n: int| dec_value(cs@) == Some(n) ==> !(1 <= n <= 3999),
        },
{
    if cs.len() == 0 {
        return None;
    }
    let mut v: u32 = 0;
    let mut i: usize = 0;
    while i < cs.len()
        invariant
            i <= cs.len(),
            all_digits(cs@.take(i as int)),
            v <= 3999 ==> v as int == dec_val_rec(cs@.take(i as int)),
            v > 3999 ==> v == 4000 && dec_val_rec(cs@.take(i as int)) > 3999,
            v <= 4000,
        decreases cs.len() - i,
    {
        let c = cs[i];
        if !('0' <= c && c <= '9') {
            assert(!all_digits(cs@)) by {
                assert(!is_digit(cs@[i as int]));
            }
            return None;
        }
        let d: u32 = (c as u32) - ('0' as u32);
        proof {
            assert(cs@.take(i as int + 1).drop_last() =~= cs@.take(i as int));
            assert(cs@.take(i as int + 1).last() == cs@[i as int]);
            assert(all_digits(cs@.take(i as int + 1))) by {
                assert forall|j: int| 0 <= j < cs@.take(i as int + 1).len() implies is_digit(
                    #[trigger] cs@.take(i as int + 1)[j],
                ) by {
                    if j < i {
                        assert(cs@.take(i as int + 1)[j] == cs@.take(i as int)[j]);
                    } else {
                        assert(cs@.take(i as int + 1)[j] == cs@[i as int]);
                    }
                }
            }
            lemma_dec_val_rec_nonneg(cs@.take(i as int));
        }
        if v <= 3999 {
            v = v * 10 + d;
            if v > 3999 {
                v = 4000;
            }
        } else {
            proof {
                let prev = dec_val_rec(cs@.take(i as int));
                assert(dec_val_rec(cs@.take(i as int + 1)) == prev * 10 + d as int);
                assert(prev * 10 >= prev) by {
                    assert(prev > 3999);
                }
            }
        }
        i += 1;
    }
    proof {
        assert(cs@.take(cs@.len() as int) =~= cs@);
    }
    if 1 <= v && v <= 3999 {
        Some(v)
    } else {
        None
    }
}

// ---------------------------------------------------------------------------
// Weights
// ---------------------------------------------------------------------------

/// Addition capped at `u32::MAX`; weights are summed this way so that the
/// score is total on every input, though realistic queries never come near
/// the cap.
pub open spec fn sat_add(a: int, b: int) -> int {
    if a + b > u32::MAX as int {
        u32::MAX as int
    } else {
        a + b
    }
}

/// `s` occurs in `t` as a contiguous run.
pub open spec fn contains_sub(t: Seq<char>, s: Seq<char>) -> bool {
    exists|k: int| 0 <= k && k + s.len() <= t.len() && #[trigger] t.subrange(k, k + s.len() as int)
        == s
}

/// The weight one synonym `s` of the query token `q` earns against the
/// entry token `t`: nothing unless `t` contains `s`; 100 when `t` equals
/// `s` and 40 for mere containment, both overridden down to 10 when the
/// synonym itself is a stop word; and the award is halved when the synonym
/// is not the query word itself (that is, when the match came through
/// numeral expansion rather than the literal query word).
pub open spec fn syn_weight(t: Seq<char>, q: Seq<char>, s: Seq<char>, stops: Seq<Seq<char>>) -> int {
    if contains_sub(t, s) {
        let base: int = if stops.contains(s) {
            10
        } else if t == s {
            100
        } else {
            40
        };
        if s != q {
            base / 2
        } else {
            base
        }
    } else {
        0
    }
}

/// What one query token earns against one entry token: its own weight,
/// plus the weight of its numeral synonym when the token reads as a number
/// some classical numeral spells.
pub open spec fn qtok_score(t: Seq<char>, q: Seq<char>, stops: Seq<Seq<char>>) -> int {
    let lit = syn_weight(t, q, q, stops);
    match dec_value(q) {
        Some(n) => if 1 <= n <= 3999 {
            sat_add(lit, syn_weight(t, q, roman_lower(n), stops))
        } else {
            lit
        },
        None => lit,
    }
}

pub open spec fn token_score_prefix(
    t: Seq<char>,
    qs: Seq<Seq<char>>,
    stops: Seq<Seq<char>>,
    k: int,
) -> int
    decreases k,
{
    if k <= 0 {
        0
    } else {
        sat_add(token_score_prefix(t, qs, stops, k - 1), qtok_score(t, qs[k - 1], stops))
    }
}

/// What one entry token earns across the whole query.
pub open spec fn token_score(t: Seq<char>, qs: Seq<Seq<char>>, stops: Seq<Seq<char>>) -> int {
    token_score_prefix(t, qs, stops, qs.len() as int)
}

/// An entry's priority: the sum of its distinct tokens' scores, each
/// distinct token counted once however often it repeats.
pub open spec fn entry_score_prefix(
    toks: Seq<Seq<char>>,
    qs: Seq<Seq<char>>,
    stops: Seq<Seq<char>>,
    k: int,
) -> int
    decreases k,
{
    if k <= 0 {
        0
    } else {
        let prev = entry_score_prefix(toks, qs, stops, k - 1);
        if exists|j: int| 0 <= j < k - 1 && #[trigger] toks[j] == toks[k - 1] {
            prev
        } else {
            sat_add(prev, token_score(toks[k - 1], qs, stops))
        }
    }
}

pub open spec fn entry_score(toks: Seq<Seq<char>>, qs: Seq<Seq<char>>, stops: Seq<Seq<char>>) -> int {
    entry_score_prefix(toks, qs, stops, toks.len() as int)
}

proof fn lemma_token_score_prefix_bounds(
    t: Seq<char>,
    qs: Seq<Seq<char>>,
    stops: Seq<Seq<char>>,
    k: int,
)
    ensures
        0 <= token_score_prefix(t, qs, stops, k) <= u32::MAX as int,
    decreases k,
{
    if k > 0 {
        lemma_token_score_prefix_bounds(t, qs, stops, k - 1);
    }
}

proof fn lemma_entry_score_prefix_bounds(
    toks: Seq<Seq<char>>,
    qs: Seq<Seq<char>>,
    stops: Seq<Seq<char>>,
    k: int,
)
    ensures
        0 <= entry_score_prefix(toks, qs, stops, k) <= u32::MAX as int,
    decreases k,
{
    if k > 0 {
        lemma_entry_score_prefix_bounds(toks, qs, stops, k - 1);
        if !(exists|j: int| 0 <= j < k - 1 && #[trigger] toks[j] == toks[k - 1]) {
            lemma_token_score_prefix_bounds(toks[k - 1], qs, stops, qs.len() as int);
        }
    }
}

// ---------------------------------------------------------------------------
// The scored result list, entry by entry
// ---------------------------------------------------------------------------

pub open spec fn entry_result(e: IndexEntry, qs: Seq<Seq<char>>, stops: Seq<Seq<char>>) -> Seq<
    SearchResult,
> {
    let sc = entry_score(e.tokens.deep_view(), qs, stops);
    if sc > 0 {
        seq![SearchResult { priority: sc as u32, year: e.year, entry_id: e.id }]
    } else {
        Seq::empty()
    }
}

pub open spec fn results_prefix(
    qs: Seq<Seq<char>>,
    entries: Seq<IndexEntry>,
    stops: Seq<Seq<char>>,
    k: int,
) -> Seq<SearchResult>
    decreases k,
{
    if k <= 0 {
        Seq::empty()
    } else {
        results_prefix(qs, entries, stops, k - 1) + entry_result(entries[k - 1], qs, stops)
    }
}

/// Every scored result for a query against an index, in index order: one
/// result per entry whose priority is positive, and no other.
pub open spec fn results_spec(
    search: Seq<char>,
    entries: Seq<IndexEntry>,
    stops: Seq<Seq<char>>,
) -> Seq<SearchResult> {
    results_prefix(tokenize_spec(search), entries, stops, entries.len() as int)
}

// ---------------------------------------------------------------------------
// Executable scoring
// ---------------------------------------------------------------------------

fn vec_char_eq(a: &Vec<char>, b: &Vec<char>) -> (r: bool)
    ensures
        r == (a@ == b@),
{
    if a.len() != b.len() {
        assert(a@ != b@);
        return false;
    }
    let mut i: usize = 0;
    while i < a.len()
        invariant
            i <= a.len(),
            a@.len() == b@.len(),
            forall|j: int| 0 <= j < i ==> a@[j] == b@[j],
        decreases a.len() - i,
    {
        if a[i] != b[i] {
            return false;
        }
        i += 1;
    }
    proof {
        assert(a@ =~= b@);
    }
    true
}

fn substring_contains(t: &Vec<char>, s: &Vec<char>) -> (r: bool)
    ensures
        r == contains_sub(t@, s@),
{
    let tlen = t.len();
    let slen = s.len();
    if slen > tlen {
        return false;
    }
    if slen == 0 {
        assert(contains_sub(t@, s@)) by {
            assert(t@.subrange(0, 0 + s@.len() as int) =~= s@);
        }
        return true;
    }
    let limit = tlen - slen;
    let mut k: usize = 0;
    loop
        invariant
            tlen == t@.len(),
            slen == s@.len(),
            1 <= slen <= tlen,
            limit == tlen - slen,
            k <= limit,
            forall|k2: int| 0 <= k2 < k ==> #[trigger] t@.subrange(k2, k2 + s@.len() as int) != s@,
        decreases limit - k,
    {
        let mut j: usize = 0;
        let mut matching = true;
        while j < slen && matching
            invariant
                tlen == t@.len(),
                slen == s@.len(),
                k + slen <= tlen,
                j <= slen,
                matching ==> forall|j2: int| 0 <= j2 < j ==> t@[k + j2] == s@[j2],
                !matching ==> t@.subrange(k as int, k + s@.len() as int) != s@,
            decreases slen - j + (if matching { 1int } else { 0int }),
        {
            if t[k + j] != s[j] {
                matching = false;
                assert(t@.subrange(k as int, k + s@.len() as int)[j as int] != s@[j as int]);
            } else {
                j += 1;
            }
        }
        if matching {
            assert(t@.subrange(k as int, k + s@.len() as int) =~= s@);
            return true;
        }
        if k == limit {
            proof {
                assert forall|k2: int| 0 <= k2 && k2 + s@.len() <= t@.len() implies
                    #[trigger] t@.subrange(k2, k2 + s@.len() as int) != s@ by {
                    assert(k2 <= limit);
                }
            }
            return false;
        }
        k += 1;
    }
}

/// One alternative form of a query token, precomputed: its text, its
/// characters, and whether it is a stop word.
struct Synonym {
    text: String,
    chars: Vec<char>,
    stop: bool,
}

spec fn syn_wf(s: Synonym, stops: Seq<Seq<char>>) -> bool {
    &&& s.chars@ == s.text@
    &&& s.stop == stops.contains(s.text@)
}

/// A query token with its numeral synonym, when it has one.
struct QueryToken {
    word: String,
    chars: Vec<char>,
    word_stop: bool,
    numeral: Option<Synonym>,
}

spec fn qt_wf(qt: QueryToken, stops: Seq<Seq<char>>) -> bool {
    &&& qt.chars@ == qt.word@
    &&& qt.word_stop == stops.contains(qt.word@)
    &&& match dec_value(qt.word@) {
        Some(n) => if 1 <= n <= 3999 {
            qt.numeral matches Some(s) && syn_wf(s, stops) && s.text@ == roman_lower(n)
        } else {
            qt.numeral is None
        },
        None => qt.numeral is None,
    }
}

fn build_query(words: &Vec<String>, stop_words: &Vec<String>) -> (qts: Vec<QueryToken>)
    ensures
        qts@.len() == words@.len(),
        forall|i: int|
            0 <= i < qts@.len() ==> qt_wf(#[trigger] qts@[i], stop_words.deep_view())
                && qts@[i].word@ == words.deep_view()[i],
{
    let mut qts: Vec<QueryToken> = Vec::new();
    let mut i: usize = 0;
    while i < words.len()
        invariant
            i <= words.len(),
            qts@.len() == i,
            forall|j: int|
                0 <= j < i ==> qt_wf(#[trigger] qts@[j], stop_words.deep_view())
                    && qts@[j].word@ == words.deep_view()[j],
        decreases words.len() - i,
    {
        let word = words[i].clone();
        let chars = chars_of(word.as_str());
        let word_stop = contains_string(stop_words, &word);
        let numeral = match parse_numeral_value(&chars) {
            Some(v) => {
                match roman_to_lower(v as i32) {
                    Some(text) => {
                        let syn_chars = chars_of(text.as_str());
                        let stop = contains_string(stop_words, &text);
                        Some(Synonym { text: text, chars: syn_chars, stop: stop })
                    },
                    None => {
                        // unreachable: the parsed value is within 1..=3999
                        None
                    },
                }
            },
            None => None,
        };
        let qt = QueryToken { word: word, chars: chars, word_stop: word_stop, numeral: numeral };
        qts.push(qt);
        i += 1;
    }
    qts
}

fn syn_weight_exec(
    t: &Vec<char>,
    syn_chars: &Vec<char>,
    syn_stop: bool,
    literal: bool,
    Ghost(q): Ghost<Seq<char>>,
    Ghost(s): Ghost<Seq<char>>,
    Ghost(stops): Ghost<Seq<Seq<char>>>,
) -> (w: u32)
    requires
        syn_chars@ == s,
        syn_stop == stops.contains(s),
        literal == (s == q),
    ensures
        w as int == syn_weight(t@, q, s, stops),
{
    if substring_contains(t, syn_chars) {
        let base: u32 = if syn_stop {
            10
        } else if vec_char_eq(t, syn_chars) {
            100
        } else {
            40
        };
        if !literal {
            base / 2
        } else {
            base
        }
    } else {
        0
    }
}

fn token_score_exec(
    t: &Vec<char>,
    qts: &Vec<QueryToken>,
    Ghost(qs): Ghost<Seq<Seq<char>>>,
    Ghost(stops): Ghost<Seq<Seq<char>>>,
) -> (w: u32)
    requires
        qs.len() == qts@.len(),
        forall|i: int| 0 <= i < qts@.len() ==> qt_wf(#[trigger] qts@[i], stops),
        forall|i: int| 0 <= i < qts@.len() ==> (#[trigger] qts@[i]).word@ == qs[i],
    ensures
        w as int == token_score(t@, qs, stops),
{
    let mut w: u32 = 0;
    let mut i: usize = 0;
    while i < qts.len()
        invariant
            i <= qts.len(),
            qs.len() == qts@.len(),
            forall|j: int| 0 <= j < qts@.len() ==> qt_wf(#[trigger] qts@[j], stops),
            forall|j: int| 0 <= j < qts@.len() ==> (#[trigger] qts@[j]).word@ == qs[j],
            w as int == token_score_prefix(t@, qs, stops, i as int),
        decreases qts.len() - i,
    {
        let qt = &qts[i];
        let lit = syn_weight_exec(
            t,
            &qt.chars,
            qt.word_stop,
            true,
            Ghost(qs[i as int]),
            Ghost(qs[i as int]),
            Ghost(stops),
        );
        let qscore: u32 = match &qt.numeral {
            Some(syn) => {
                let literal = syn.text == qt.word;
                let nw = syn_weight_exec(
                    t,
                    &syn.chars,
                    syn.stop,
                    literal,
                    Ghost(qs[i as int]),
                    Ghost(syn.text@),
                    Ghost(stops),
                );
                lit.saturating_add(nw)
            },
            None => lit,
        };
        assert(qscore as int == qtok_score(t@, qs[i as int], stops));
        w = w.saturating_add(qscore);
        i += 1;
    }
    w
}

#[verifier::rlimit(60)]
fn score_entry(
    tokens: &Vec<String>,
    qts: &Vec<QueryToken>,
    Ghost(qs): Ghost<Seq<Seq<char>>>,
    Ghost(stops): Ghost<Seq<Seq<char>>>,
) -> (p: u32)
    requires
        qs.len() == qts@.len(),
        forall|i: int| 0 <= i < qts@.len() ==> qt_wf(#[trigger] qts@[i], stops),
        forall|i: int| 0 <= i < qts@.len() ==> (#[trigger] qts@[i]).word@ == qs[i],
    ensures
        p as int == entry_score(tokens.deep_view(), qs, stops),
{
    let ghost toks = tokens.deep_view();
    let mut used: Vec<String> = Vec::new();
    let mut p: u32 = 0;
    let mut i: usize = 0;
    while i < tokens.len()
        invariant
            i <= tokens.len(),
            tokens.deep_view() == toks,
            toks.len() == tokens@.len(),
            qs.len() == qts@.len(),
            forall|j: int| 0 <= j < qts@.len() ==> qt_wf(#[trigger] qts@[j], stops),
            forall|j: int| 0 <= j < qts@.len() ==> (#[trigger] qts@[j]).word@ == qs[j],
            forall|j: int| 0 <= j < toks.len() ==> #[trigger] toks[j] == tokens@[j]@,
            p as int == entry_score_prefix(toks, qs, stops, i as int),
            forall|t: Seq<char>|
                #[trigger] used.deep_view().contains(t) <==> exists|j: int|
                    0 <= j < i && #[trigger] toks[j] == t && token_score(t, qs, stops) > 0,
        decreases tokens.len() - i,
    {
        let ghost t = toks[i as int];
        proof {
            lemma_entry_score_prefix_bounds(toks, qs, stops, i as int);
            lemma_token_score_prefix_bounds(t, qs, stops, qs.len() as int);
        }
        if contains_string(&used, &tokens[i]) {
            proof {
                let j = choose|j: int|
                    0 <= j < i && #[trigger] toks[j] == t && token_score(t, qs, stops) > 0;
                assert(exists|j: int| 0 <= j < i && #[trigger] toks[j] == toks[i as int]);
            }
        } else {
            let t_chars = chars_of(tokens[i].as_str());
            let ts = token_score_exec(&t_chars, qts, Ghost(qs), Ghost(stops));
            if ts > 0 {
                let tok = tokens[i].clone();
                let ghost prev_used = used.deep_view();
                used.push(tok);
                proof {
                    assert(used.deep_view() =~= prev_used.push(t));
                    assert forall|u: Seq<char>| #[trigger] used.deep_view().contains(u) implies (
                    exists|j: int|
                        0 <= j < i + 1 && #[trigger] toks[j] == u && token_score(u, qs, stops)
                            > 0) by {
                        if prev_used.contains(u) {
                            let j = choose|j: int|
                                0 <= j < i && #[trigger] toks[j] == u && token_score(u, qs, stops)
                                    > 0;
                            assert(0 <= j < i + 1 && toks[j] == u);
                        } else {
                            assert(used.deep_view().last() == t);
                            assert(toks[i as int] == u && token_score(u, qs, stops) > 0);
                        }
                    }
                    assert forall|u: Seq<char>|
                        (exists|j: int|
                            0 <= j < i + 1 && #[trigger] toks[j] == u && token_score(u, qs, stops)
                                > 0) implies #[trigger] used.deep_view().contains(u) by {
                        let j = choose|j: int|
                            0 <= j < i + 1 && #[trigger] toks[j] == u && token_score(u, qs, stops)
                                > 0;
                        if j < i {
                            assert(prev_used.contains(u));
                            let jj = choose|jj: int| 0 <= jj < prev_used.len() && prev_used[jj] == u;
                            assert(used.deep_view()[jj] == u);
                        } else {
                            assert(used.deep_view().last() == u);
                        }
                    }
                }
            } else {
                proof {
                    if exists|j: int| 0 <= j < i && #[trigger] toks[j] == t {
                        let j = choose|j: int| 0 <= j < i && #[trigger] toks[j] == t;
                        assert(!used.deep_view().contains(t));
                        assert(token_score(t, qs, stops) <= 0);
                    }
                }
            }
            p = p.saturating_add(ts);
        }
        proof {
            if exists|j: int| 0 <= j < i && #[trigger] toks[j] == toks[i as int] {
                assert(entry_score_prefix(toks, qs, stops, i as int + 1) == entry_score_prefix(
                    toks,
                    qs,
                    stops,
                    i as int,
                ));
                if !used.deep_view().contains(t) {
                    assert(token_score(t, qs, stops) <= 0);
                    lemma_token_score_prefix_bounds(t, qs, stops, qs.len() as int);
                    assert(token_score(t, qs, stops) == 0);
                }
            }
        }
        i += 1;
    }
    proof {
        assert(entry_score_prefix(toks, qs, stops, toks.len() as int) == entry_score(
            toks,
            qs,
            stops,
        ));
    }
    p
}

/// Scores a free-text query against every entry of the index: the query is
/// tokenized, and each entry whose tokens earn a positive priority yields
/// one result, in index order. An empty or unmatched query yields the empty
/// list, never an error.
pub fn get_results(search: &str, index: &Vec<IndexEntry>, stop_words: &Vec<String>) -> (res: Vec<
    SearchResult,
>)
    ensures
        res@ == results_spec(search@, index@, stop_words.deep_view()),
        forall|i: int| 0 <= i < res@.len() ==> (#[trigger] res@[i]).priority > 0,
{
    let ghost stops = stop_words.deep_view();
    let search_string = String::from_str(search);
    let words = tokenize_term(&search_string);
    let ghost qs = tokenize_spec(search@);
    proof {
        assert(words.deep_view() == qs);
    }
    let qts = build_query(&words, stop_words);
    let mut res: Vec<SearchResult> = Vec::new();
    let mut i: usize = 0;
    while i < index.len()
        invariant
            i <= index.len(),
            qs == tokenize_spec(search@),
            stops == stop_words.deep_view(),
            qs.len() == qts@.len(),
            forall|j: int| 0 <= j < qts@.len() ==> qt_wf(#[trigger] qts@[j], stops),
            forall|j: int| 0 <= j < qts@.len() ==> (#[trigger] qts@[j]).word@ == qs[j],
            res@ == results_prefix(qs, index@, stops, i as int),
        decreases index.len() - i,
    {
        let ghost prev = res@;
        let entry = &index[i];
        let p = score_entry(&entry.tokens, &qts, Ghost(qs), Ghost(stops));
        proof {
            lemma_entry_score_prefix_bounds(
                entry.tokens.deep_view(),
                qs,
                stops,
                entry.tokens.deep_view().len() as int,
            );
        }
        if p > 0 {
            let r = SearchResult { priority: p, year: entry.year, entry_id: entry.id.clone() };
            res.push(r);
            proof {
                assert(entry_result(index@[i as int], qs, stops) =~= seq![r]);
                assert(res@ =~= prev + entry_result(index@[i as int], qs, stops));
            }
        } else {
            proof {
                assert(entry_result(index@[i as int], qs, stops) =~= Seq::<SearchResult>::empty());
                assert(res@ =~= prev + entry_result(index@[i as int], qs, stops));
            }
        }
        i += 1;
    }
    proof {
        lemma_results_positive(qs, index@, stops, index@.len() as int);
    }
    res
}

/// No result with priority zero (or the impossible negative) ever appears.
pub proof fn lemma_results_positive(
    qs: Seq<Seq<char>>,
    entries: Seq<IndexEntry>,
    stops: Seq<Seq<char>>,
    k: int,
)
    ensures
        forall|i: int|
            0 <= i < results_prefix(qs, entries, stops, k).len() ==> (#[trigger] results_prefix(
                qs,
                entries,
                stops,
                k,
            )[i]).priority > 0,
    decreases k,
{
    if k > 0 {
        lemma_results_positive(qs, entries, stops, k - 1);
        lemma_entry_score_prefix_bounds(
            entries[k - 1].tokens.deep_view(),
            qs,
            stops,
            entries[k - 1].tokens.deep_view().len() as int,
        );
        assert forall|i: int| 0 <= i < results_prefix(qs, entries, stops, k).len() implies (
        #[trigger] results_prefix(qs, entries, stops, k)[i]).priority > 0 by {
            let prev = results_prefix(qs, entries, stops, k - 1);
            if i < prev.len() {
                assert(results_prefix(qs, entries, stops, k)[i] == prev[i]);
            } else {
                assert(results_prefix(qs, entries, stops, k)[i] == entry_result(
                    entries[k - 1],
                    qs,
                    stops,
                )[i - prev.len()]);
            }
        }
    }
}

// ---------------------------------------------------------------------------
// Ranking: sort by priority, break ties by year, keep the top ten
// ---------------------------------------------------------------------------

/// `a` ranks no lower than `b`: higher priority first, and a later year
/// first among equal priorities.
pub open spec fn ranks_geq(a: SearchResult, b: SearchResult) -> bool {
    a.priority > b.priority || (a.priority == b.priority && a.year >= b.year)
}

pub open spec fn ranks_gt(a: SearchResult, b: SearchResult) -> bool {
    a.priority > b.priority || (a.priority == b.priority && a.year > b.year)
}

pub open spec fn sorted_desc(s: Seq<SearchResult>) -> bool {
    forall|i: int, j: int| 0 <= i <= j < s.len() ==> ranks_geq(#[trigger] s[i], #[trigger] s[j])
}

pub open spec fn cap_ten(n: int) -> int {
    if n < 10 {
        n
    } else {
        10
    }
}

/// `r` is the head of some descending reordering of `full`, cut to at most
/// ten results.
pub open spec fn ranked_from(full: Seq<SearchResult>, r: Seq<SearchResult>) -> bool {
    exists|s: Seq<SearchResult>|
        sorted_desc(s) && #[trigger] s.to_multiset() == full.to_multiset() && r == s.take(
            cap_ten(s.len() as int),
        )
}

fn ranks_gt_exec(a: &SearchResult, b: &SearchResult) -> (r: bool)
    ensures
        r == ranks_gt(*a, *b),
{
    a.priority > b.priority || (a.priority == b.priority && a.year > b.year)
}

fn sort_results(input: Vec<SearchResult>) -> (out: Vec<SearchResult>)
    ensures
        sorted_desc(out@),
        out@.to_multiset() == input@.to_multiset(),
        out@.len() == input@.len(),
{
    broadcast use vstd::seq_lib::group_to_multiset_ensures;

    let mut src = input;
    let mut out: Vec<SearchResult> = Vec::new();
    proof {
        assert(out@.to_multiset() =~= Multiset::<SearchResult>::empty());
        assert(out@.to_multiset().add(src@.to_multiset()) =~= src@.to_multiset());
    }
    while src.len() > 0
        invariant
            out@.to_multiset().add(src@.to_multiset()) == input@.to_multiset(),
            out@.len() + src@.len() == input@.len(),
            sorted_desc(out@),
            forall|a: int, b: int|
                0 <= a < out@.len() && 0 <= b < src@.len() ==> ranks_geq(
                    #[trigger] out@[a],
                    #[trigger] src@[b],
                ),
        decreases src.len(),
    {
        let mut m: usize = 0;
        let mut j: usize = 1;
        while j < src.len()
            invariant
                src@.len() > 0,
                m < j,
                j <= src@.len(),
                forall|x: int| 0 <= x < j ==> ranks_geq(src@[m as int], #[trigger] src@[x]),
            decreases src.len() - j,
        {
            if ranks_gt_exec(&src[j], &src[m]) {
                m = j;
            }
            j += 1;
        }
        let ghost prev_out = out@;
        let ghost prev_src = src@;
        let x = src.remove(m);
        out.push(x);
        proof {
            prev_out.to_multiset_ensures();
            prev_src.to_multiset_ensures();
            assert(prev_src.contains(x)) by {
                assert(prev_src[m as int] == x);
            }
            assert(prev_src.to_multiset().count(x) > 0);
            assert(out@.to_multiset() =~= prev_out.to_multiset().insert(x));
            assert(src@.to_multiset() =~= prev_src.to_multiset().remove(x));
            assert(out@.to_multiset().add(src@.to_multiset()) =~= prev_out.to_multiset().add(
                prev_src.to_multiset(),
            ));
            assert forall|b: int| 0 <= b < src@.len() implies ranks_geq(x, #[trigger] src@[b]) by {
                if b < m {
                    assert(src@[b] == prev_src[b]);
                } else {
                    assert(src@[b] == prev_src[b + 1]);
                }
            }
            assert forall|a: int, b: int|
                0 <= a < out@.len() && 0 <= b < src@.len() implies ranks_geq(
                #[trigger] out@[a],
                #[trigger] src@[b],
            ) by {
                if a < prev_out.len() {
                    assert(out@[a] == prev_out[a]);
                    if b < m {
                        assert(src@[b] == prev_src[b]);
                    } else {
                        assert(src@[b] == prev_src[b + 1]);
                    }
                } else {
                    assert(out@[a] == x);
                }
            }
            assert forall|a: int, b: int| 0 <= a <= b < out@.len() implies ranks_geq(
                #[trigger] out@[a],
                #[trigger] out@[b],
            ) by {
                if b < prev_out.len() {
                    assert(out@[a] == prev_out[a] && out@[b] == prev_out[b]);
                } else if a < prev_out.len() {
                    assert(out@[a] == prev_out[a] && out@[b] == x);
                    assert(ranks_geq(prev_out[a], prev_src[m as int]));
                }
            }
        }
    }
    proof {
        assert(src@.to_multiset() =~= Multiset::<SearchResult>::empty());
        assert(out@.to_multiset().add(Multiset::<SearchResult>::empty()) =~= out@.to_multiset());
        assert(out@.len() == out@.to_multiset().len());
        assert(input@.len() == input@.to_multiset().len());
    }
    out
}

/// Scores the query against the index, sorts the hits by priority
/// descending with ties broken by year descending, and keeps at most the
/// top ten. An empty result list is a normal outcome, not an error.
pub fn rank(search: &str, index: &Vec<IndexEntry>, stop_words: &Vec<String>) -> (r: Vec<
    SearchResult,
>)
    ensures
        ranked_from(results_spec(search@, index@, stop_words.deep_view()), r@),
        sorted_desc(r@),
        r@.len() == cap_ten(results_spec(search@, index@, stop_words.deep_view()).len() as int),
        forall|i: int| 0 <= i < r@.len() ==> (#[trigger] r@[i]).priority > 0,
{
    broadcast use vstd::seq_lib::group_to_multiset_ensures;

    let ghost full = results_spec(search@, index@, stop_words.deep_view());
    let scored = get_results(search, index, stop_words);
    let mut sorted = sort_results(scored);
    let ghost s_seq = sorted@;
    if sorted.len() > 10 {
        sorted.truncate(10);
        proof {
            assert(sorted@ =~= s_seq.take(cap_ten(s_seq.len() as int)));
        }
    } else {
        proof {
            assert(sorted@ =~= s_seq.take(cap_ten(s_seq.len() as int)));
        }
    }
    proof {
        assert(ranked_from(full, sorted@)) by {
            assert(sorted_desc(s_seq) && s_seq.to_multiset() == full.to_multiset() && sorted@
                == s_seq.take(cap_ten(s_seq.len() as int)));
        }
        assert forall|i: int| 0 <= i < sorted@.len() implies (#[trigger] sorted@[i]).priority
            > 0 by {
            let e = s_seq[i];
            assert(sorted@[i] == e);
            assert(s_seq.contains(e)) by {
                assert(s_seq[i] == e);
            }
            assert(s_seq.to_multiset().count(e) > 0);
            assert(full.contains(e));
            let j = choose|j: int| 0 <= j < full.len() && full[j] == e;
            assert(full[j].priority > 0);
        }
        assert forall|i: int, j: int| 0 <= i <= j < sorted@.len() implies ranks_geq(
            #[trigger] sorted@[i],
            #[trigger] sorted@[j],
        ) by {
            assert(sorted@[i] == s_seq[i] && sorted@[j] == s_seq[j]);
        }
    }
    sorted
}

/// Runs a query with an optional corrected form: when a correction is
/// offered and scores at least one entry, the corrected text becomes the
/// query of record and its ranked results are returned; otherwise the raw
/// query stands, corrected or not. The first component of the pair is the
/// query of record, the second its ranked results.
pub fn search_with_correction(
    raw: &String,
    correction: Option<String>,
    index: &Vec<IndexEntry>,
    stop_words: &Vec<String>,
) -> (r: (String, Vec<SearchResult>))
    ensures
        match correction {
            Some(c) => if results_spec(c@, index@, stop_words.deep_view()).len() > 0 {
                r.0@ == c@ && ranked_from(results_spec(c@, index@, stop_words.deep_view()), r.1@)
            } else {
                r.0@ == raw@ && ranked_from(
                    results_spec(raw@, index@, stop_words.deep_view()),
                    r.1@,
                )
            },
            None => r.0@ == raw@ && ranked_from(
                results_spec(raw@, index@, stop_words.deep_view()),
                r.1@,
            ),
        },
        sorted_desc(r.1@),
        r.1@.len() <= 10,
        forall|i: int| 0 <= i < r.1@.len() ==> (#[trigger] r.1@[i]).priority > 0,
{
    match correction {
        Some(c) => {
            let results = rank(c.as_str(), index, stop_words);
            if results.len() > 0 {
                (c, results)
            } else {
                let fallback = rank(raw.as_str(), index, stop_words);
                (raw.clone(), fallback)
            }
        },
        None => {
            let results = rank(raw.as_str(), index, stop_words);
            (raw.clone(), results)
        },
    }
}

} // verus!
