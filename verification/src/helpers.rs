use vstd::prelude::*;

verus! {

// ---------------------------------------------------------------------------
// Character classes
// ---------------------------------------------------------------------------

pub open spec fn is_lower_letter(c: char) -> bool {
    'a' <= c && c <= 'z'
}

pub open spec fn is_upper_letter(c: char) -> bool {
    'A' <= c && c <= 'Z'
}

pub open spec fn is_digit(c: char) -> bool {
    '0' <= c && c <= '9'
}

pub open spec fn is_lower_alnum(c: char) -> bool {
    is_lower_letter(c) || is_digit(c)
}

/// The characters a cleaned word may hold: lowercase ASCII letters,
/// ASCII digits, and the space that separates fragments.
pub open spec fn is_token_char(c: char) -> bool {
    is_lower_alnum(c) || c == ' '
}

pub open spec fn all_lower_alnum(s: Seq<char>) -> bool {
    forall|i: int| 0 <= i < s.len() ==> is_lower_alnum(#[trigger] s[i])
}

pub open spec fn all_digits(s: Seq<char>) -> bool {
    forall|i: int| 0 <= i < s.len() ==> is_digit(#[trigger] s[i])
}

pub open spec fn to_lower_char(c: char) -> char {
    if is_upper_letter(c) {
        ((c as u32) + 32) as char
    } else {
        c
    }
}

// ---------------------------------------------------------------------------
// Cleaning: what one character of a word becomes
// ---------------------------------------------------------------------------

/// Apostrophes and periods vanish outright; alphanumeric ASCII is kept
/// (uppercase folded down, so cleaning alone guarantees token characters);
/// everything else becomes a single separating space.
pub open spec fn fold_char(c: char) -> Seq<char> {
    if c == '\'' || c == '.' {
        Seq::empty()
    } else if is_lower_alnum(c) {
        seq![c]
    } else if is_upper_letter(c) {
        seq![to_lower_char(c)]
    } else {
        seq![' ']
    }
}

pub open spec fn clean_text(s: Seq<char>) -> Seq<char>
    decreases s.len(),
{
    if s.len() == 0 {
        Seq::empty()
    } else {
        fold_char(s[0]) + clean_text(s.skip(1))
    }
}

// ---------------------------------------------------------------------------
// Results of the outside text algorithms, by name
// ---------------------------------------------------------------------------

/// What `str::to_lowercase` returns for a given character sequence.
pub uninterp spec fn lower_of(s: Seq<char>) -> Seq<char>;

/// What `porter_stemmer::stem` returns for a given character sequence.
pub uninterp spec fn stem_of(s: Seq<char>) -> Seq<char>;

/// Relies on `str::to_lowercase`: the result depends on the characters alone.
#[verifier::external_body]
pub(crate) fn lowercase_str(s: &str) -> (r: String)
    ensures
        r@ == lower_of(s@),
{
    s.to_lowercase()
}

/// Relies on `porter_stemmer::stem`: a pure function of the word alone.
/// Its rules rewrite only suffixes made of lowercase letters, so strings of
/// digits pass through unchanged, and input drawn from lowercase letters
/// and digits stays in that alphabet.
#[verifier::external_body]
pub(crate) fn porter_stem(s: &str) -> (r: String)
    ensures
        r@ == stem_of(s@),
        all_digits(s@) ==> r@ == s@,
        all_lower_alnum(s@) ==> all_lower_alnum(r@),
{
    porter_stemmer::stem(s)
}

/// Relies on `str::chars`: the characters of the string, in order.
#[verifier::external_body]
pub(crate) fn chars_of(s: &str) -> (r: Vec<char>)
    ensures
        r@ == s@,
{
    s.chars().collect()
}

/// Relies on `String`'s `FromIterator<char>`: collects exactly the given
/// characters, in order.
#[verifier::external_body]
pub(crate) fn string_from_chars(cs: &Vec<char>) -> (r: String)
    ensures
        r@ == cs@,
{
    cs.iter().collect()
}

// ---------------------------------------------------------------------------
// Classical numerals
// ---------------------------------------------------------------------------

pub open spec fn is_roman_letter(c: char) -> bool {
    c == 'm' || c == 'd' || c == 'c' || c == 'l' || c == 'x' || c == 'v' || c == 'i'
}

/// A word made only of the seven numeral letters (lowercase, as cleaned
/// words are) is tried as a classical numeral.
pub open spec fn is_roman_candidate(s: Seq<char>) -> bool {
    s.len() > 0 && forall|i: int| 0 <= i < s.len() ==> is_roman_letter(#[trigger] s[i])
}

pub open spec fn to_upper_char(c: char) -> char {
    if is_lower_letter(c) {
        ((c as u32) - 32) as char
    } else {
        c
    }
}

pub open spec fn upper_seq(s: Seq<char>) -> Seq<char> {
    s.map_values(|c: char| to_upper_char(c))
}

/// The canonical uppercase numeral of `n`, built greedily from the largest
/// value that still fits, exactly as the numeral crate writes it.
pub open spec fn roman_upper(n: int) -> Seq<char>
    decreases n,
{
    if n >= 1000 {
        seq!['M'] + roman_upper(n - 1000)
    } else if n >= 900 {
        seq!['C', 'M'] + roman_upper(n - 900)
    } else if n >= 500 {
        seq!['D'] + roman_upper(n - 500)
    } else if n >= 400 {
        seq!['C', 'D'] + roman_upper(n - 400)
    } else if n >= 100 {
        seq!['C'] + roman_upper(n - 100)
    } else if n >= 90 {
        seq!['X', 'C'] + roman_upper(n - 90)
    } else if n >= 50 {
        seq!['L'] + roman_upper(n - 50)
    } else if n >= 40 {
        seq!['X', 'L'] + roman_upper(n - 40)
    } else if n >= 10 {
        seq!['X'] + roman_upper(n - 10)
    } else if n >= 9 {
        seq!['I', 'X'] + roman_upper(n - 9)
    } else if n >= 5 {
        seq!['V'] + roman_upper(n - 5)
    } else if n >= 4 {
        seq!['I', 'V'] + roman_upper(n - 4)
    } else if n >= 1 {
        seq!['I'] + roman_upper(n - 1)
    } else {
        Seq::empty()
    }
}

/// The same numeral in lowercase.
pub open spec fn roman_lower(n: int) -> Seq<char> {
    roman_upper(n).map_values(|c: char| to_lower_char(c))
}

/// The value of one numeral letter, either case; `None` for any other
/// character.
pub open spec fn roman_char_val(c: char) -> Option<int> {
    if c == 'I' || c == 'i' {
        Some(1)
    } else if c == 'V' || c == 'v' {
        Some(5)
    } else if c == 'X' || c == 'x' {
        Some(10)
    } else if c == 'L' || c == 'l' {
        Some(50)
    } else if c == 'C' || c == 'c' {
        Some(100)
    } else if c == 'D' || c == 'd' {
        Some(500)
    } else if c == 'M' || c == 'm' {
        Some(1000)
    } else {
        None
    }
}

/// The lax reading of a numeral, walking the text from its last character
/// to its first: a letter below the largest value seen so far subtracts,
/// any other adds and becomes the new largest. The pair is (value, largest).
pub open spec fn lax_state(s: Seq<char>) -> Option<(int, int)>
    decreases s.len(),
{
    if s.len() == 0 {
        Some((0, 0))
    } else {
        match lax_state(s.skip(1)) {
            None => None,
            Some((n, mx)) => match roman_char_val(s[0]) {
                None => None,
                Some(v) => if v < mx {
                    Some((n - v, mx))
                } else {
                    Some((n + v, v))
                },
            },
        }
    }
}

/// What `roman::from` returns: the lax value, accepted only when the text
/// is precisely the canonical uppercase numeral of that value, which also
/// confines it to 1 through 3999.
pub open spec fn roman_from_spec(s: Seq<char>) -> Option<int> {
    match lax_state(s) {
        None => None,
        Some((n, mx)) => if 1 <= n <= 3999 && s == roman_upper(n) {
            Some(n)
        } else {
            None
        },
    }
}

/// Relies on `roman::from`: parses a classical numeral, `Some` exactly for
/// the canonical uppercase spelling of a value in 1..=3999. The length bound
/// keeps its internal 32-bit accumulation far from overflow; no canonical
/// numeral is longer than its value, which is at most 3999.
#[verifier::external_body]
pub(crate) fn roman_from(s: &str) -> (r: Option<i32>)
    requires
        s@.len() <= 4000,
    ensures
        match r {
            Some(n) => roman_from_spec(s@) == Some(n as int),
            None => roman_from_spec(s@) is None,
        },
{
    roman::from(s)
}

/// A canonical numeral is never longer than its value.
pub proof fn lemma_roman_upper_len(n: int)
    ensures
        n >= 1 ==> roman_upper(n).len() <= n,
        n < 1 ==> roman_upper(n).len() == 0,
    decreases n,
{
    if n >= 1 {
        if n >= 1000 {
            lemma_roman_upper_len(n - 1000);
        } else if n >= 900 {
            lemma_roman_upper_len(n - 900);
        } else if n >= 500 {
            lemma_roman_upper_len(n - 500);
        } else if n >= 400 {
            lemma_roman_upper_len(n - 400);
        } else if n >= 100 {
            lemma_roman_upper_len(n - 100);
        } else if n >= 90 {
            lemma_roman_upper_len(n - 90);
        } else if n >= 50 {
            lemma_roman_upper_len(n - 50);
        } else if n >= 40 {
            lemma_roman_upper_len(n - 40);
        } else if n >= 10 {
            lemma_roman_upper_len(n - 10);
        } else if n >= 9 {
            lemma_roman_upper_len(n - 9);
        } else if n >= 5 {
            lemma_roman_upper_len(n - 5);
        } else if n >= 4 {
            lemma_roman_upper_len(n - 4);
        } else {
            lemma_roman_upper_len(n - 1);
        }
    }
}

/// Relies on `roman::to_lower`: the lowercase numeral for values 1..=3999,
/// `None` outside that range.
#[verifier::external_body]
pub(crate) fn roman_to_lower(n: i32) -> (r: Option<String>)
    ensures
        match r {
            Some(s) => 1 <= n <= 3999 && s@ == roman_lower(n as int),
            None => !(1 <= n <= 3999),
        },
{
    roman::to_lower(n)
}

// ---------------------------------------------------------------------------
// Decimal digit strings
// ---------------------------------------------------------------------------

pub open spec fn digit_char(d: int) -> char {
    (('0' as u32) + (d as u32)) as char
}

pub open spec fn dec_digits(n: int) -> Seq<char>
    decreases n,
{
    if n < 0 {
        Seq::empty()
    } else if n < 10 {
        seq![digit_char(n)]
    } else {
        dec_digits(n / 10) + seq![digit_char(n % 10)]
    }
}

// ---------------------------------------------------------------------------
// One word through the whole pipeline
// ---------------------------------------------------------------------------

/// A cleaned word that reads as a classical numeral is replaced by the
/// decimal digits of its value; any other word is left alone.
pub open spec fn numeral_rewrite(t: Seq<char>) -> Seq<char> {
    if is_roman_candidate(t) {
        match roman_from_spec(upper_seq(t)) {
            Some(n) => dec_digits(n),
            None => t,
        }
    } else {
        t
    }
}

/// Numeral replacement followed by stemming: what one fragment of a
/// tokenized phrase becomes.
pub open spec fn stem_full(t: Seq<char>) -> Seq<char> {
    stem_of(numeral_rewrite(t))
}

// ---------------------------------------------------------------------------
// Splitting a cleaned text on spaces, dropping empty fragments
// ---------------------------------------------------------------------------

pub open spec fn emit(cur: Seq<char>) -> Seq<Seq<char>> {
    if cur.len() > 0 {
        seq![cur]
    } else {
        Seq::empty()
    }
}

pub open spec fn split_acc(s: Seq<char>, cur: Seq<char>) -> Seq<Seq<char>>
    decreases s.len(),
{
    if s.len() == 0 {
        emit(cur)
    } else if s[0] == ' ' {
        emit(cur) + split_acc(s.skip(1), Seq::empty())
    } else {
        split_acc(s.skip(1), cur.push(s[0]))
    }
}

pub open spec fn split_spaces(s: Seq<char>) -> Seq<Seq<char>> {
    split_acc(s, Seq::empty())
}

/// The fragments rejoined with single spaces.
pub open spec fn join_spaces(frags: Seq<Seq<char>>) -> Seq<char>
    decreases frags.len(),
{
    if frags.len() == 0 {
        Seq::empty()
    } else if frags.len() == 1 {
        frags[0]
    } else {
        frags[0] + seq![' '] + join_spaces(frags.skip(1))
    }
}

// ---------------------------------------------------------------------------
// The tokenizer, as one spec
// ---------------------------------------------------------------------------

/// A whole phrase through the pipeline: lowercase it, clean every character
/// (which turns whitespace and punctuation into separating spaces), split on
/// those spaces dropping empty fragments, and stem each fragment, numerals
/// first. Order is preserved and duplicates are kept.
pub open spec fn tokenize_spec(phrase: Seq<char>) -> Seq<Seq<char>> {
    split_spaces(clean_text(lower_of(phrase))).map_values(|t: Seq<char>| stem_full(t))
}

// ---------------------------------------------------------------------------
// Lemmas about cleaning and splitting
// ---------------------------------------------------------------------------

pub proof fn lemma_clean_text_push(s: Seq<char>, c: char)
    ensures
        clean_text(s.push(c)) == clean_text(s) + fold_char(c),
    decreases s.len(),
{
    if s.len() == 0 {
        assert(s.push(c)[0] == c);
        assert(s.push(c).skip(1) =~= Seq::<char>::empty());
        assert(clean_text(s.push(c)) == fold_char(c) + clean_text(Seq::<char>::empty()));
        assert(fold_char(c) + Seq::<char>::empty() =~= fold_char(c));
        assert(clean_text(s) + fold_char(c) =~= fold_char(c));
    } else {
        assert(s.push(c)[0] == s[0]);
        assert(s.push(c).skip(1) =~= s.skip(1).push(c));
        lemma_clean_text_push(s.skip(1), c);
        assert(clean_text(s.push(c)) == fold_char(s[0]) + (clean_text(s.skip(1)) + fold_char(c)));
        assert(fold_char(s[0]) + (clean_text(s.skip(1)) + fold_char(c)) =~= (fold_char(s[0])
            + clean_text(s.skip(1))) + fold_char(c));
    }
}

/// Every character a cleaning pass emits is a token character.
pub proof fn lemma_clean_text_chars(s: Seq<char>)
    ensures
        forall|i: int| 0 <= i < clean_text(s).len() ==> is_token_char(#[trigger] clean_text(s)[i]),
    decreases s.len(),
{
    if s.len() > 0 {
        lemma_clean_text_chars(s.skip(1));
        assert forall|i: int| 0 <= i < clean_text(s).len() implies is_token_char(
            #[trigger] clean_text(s)[i],
        ) by {
            if i < fold_char(s[0]).len() {
                assert(clean_text(s)[i] == fold_char(s[0])[i]);
            } else {
                assert(clean_text(s)[i] == clean_text(s.skip(1))[i - fold_char(s[0]).len()]);
            }
        }
    }
}

/// Every fragment that splitting yields is nonempty and spaceless, made of
/// the non-space characters of the input (and of the fragment carried in).
pub proof fn lemma_split_acc_fragments(s: Seq<char>, cur: Seq<char>)
    requires
        forall|i: int| 0 <= i < s.len() ==> is_token_char(#[trigger] s[i]),
        forall|i: int| 0 <= i < cur.len() ==> is_lower_alnum(#[trigger] cur[i]),
    ensures
        forall|k: int|
            0 <= k < split_acc(s, cur).len() ==> (#[trigger] split_acc(s, cur)[k]).len() > 0
                && all_lower_alnum(split_acc(s, cur)[k]),
    decreases s.len(),
{
    if s.len() == 0 {
        assert forall|k: int| 0 <= k < split_acc(s, cur).len() implies (#[trigger] split_acc(
            s,
            cur,
        )[k]).len() > 0 && all_lower_alnum(split_acc(s, cur)[k]) by {
            assert(split_acc(s, cur) == emit(cur));
            assert(split_acc(s, cur)[k] == cur);
        }
    } else if s[0] == ' ' {
        lemma_split_acc_fragments(s.skip(1), Seq::empty());
        assert forall|k: int| 0 <= k < split_acc(s, cur).len() implies (#[trigger] split_acc(
            s,
            cur,
        )[k]).len() > 0 && all_lower_alnum(split_acc(s, cur)[k]) by {
            if k < emit(cur).len() {
                assert(split_acc(s, cur)[k] == cur);
            } else {
                assert(split_acc(s, cur)[k] == split_acc(s.skip(1), Seq::empty())[k - emit(
                    cur,
                ).len()]);
            }
        }
    } else {
        assert(is_token_char(s[0]) && s[0] != ' ');
        assert forall|i: int| 0 <= i < cur.push(s[0]).len() implies is_lower_alnum(
            #[trigger] cur.push(s[0])[i],
        ) by {
            if i < cur.len() {
                assert(cur.push(s[0])[i] == cur[i]);
            }
        }
        lemma_split_acc_fragments(s.skip(1), cur.push(s[0]));
        assert(split_acc(s, cur) == split_acc(s.skip(1), cur.push(s[0])));
        assert forall|k: int| 0 <= k < split_acc(s, cur).len() implies (#[trigger] split_acc(
            s,
            cur,
        )[k]).len() > 0 && all_lower_alnum(split_acc(s, cur)[k]) by {
            assert(split_acc(s, cur)[k] == split_acc(s.skip(1), cur.push(s[0]))[k]);
        }
    }
}

proof fn lemma_split_acc_word(w: Seq<char>, rest: Seq<char>, cur: Seq<char>)
    requires
        forall|i: int| 0 <= i < w.len() ==> #[trigger] w[i] != ' ',
    ensures
        split_acc(w + rest, cur) == split_acc(rest, cur + w),
    decreases w.len(),
{
    if w.len() == 0 {
        assert(w + rest =~= rest);
        assert(cur + w =~= cur);
    } else {
        let s = w + rest;
        assert(s[0] == w[0]);
        assert(s.skip(1) =~= w.skip(1) + rest);
        assert(cur.push(s[0]) + w.skip(1) =~= cur + w);
        lemma_split_acc_word(w.skip(1), rest, cur.push(w[0]));
        assert(split_acc(w + rest, cur) == split_acc(w.skip(1) + rest, cur.push(w[0])));
    }
}

/// Splitting is stable under one rejoin: re-splitting the single-space
/// rejoin of nonempty, spaceless fragments (as the tokenizer's fragments
/// are) gives back exactly those fragments.
pub proof fn lemma_split_join_round_trip(frags: Seq<Seq<char>>)
    requires
        forall|k: int|
            0 <= k < frags.len() ==> (#[trigger] frags[k]).len() > 0 && all_lower_alnum(frags[k]),
    ensures
        split_spaces(join_spaces(frags)) == frags,
    decreases frags.len(),
{
    if frags.len() == 0 {
        assert(split_spaces(join_spaces(frags)) =~= frags);
    } else if frags.len() == 1 {
        let w = frags[0];
        assert(forall|i: int| 0 <= i < w.len() ==> #[trigger] w[i] != ' ');
        assert(w + Seq::<char>::empty() =~= w);
        assert(Seq::<char>::empty() + w =~= w);
        lemma_split_acc_word(w, Seq::empty(), Seq::empty());
        assert(split_acc(Seq::empty(), w) == emit(w));
        assert(emit(w) =~= frags);
    } else {
        let w = frags[0];
        let rest = frags.skip(1);
        let joined_rest = join_spaces(rest);
        assert(forall|i: int| 0 <= i < w.len() ==> #[trigger] w[i] != ' ');
        assert(join_spaces(frags) =~= w + (seq![' '] + joined_rest));
        assert(Seq::<char>::empty() + w =~= w);
        lemma_split_acc_word(w, seq![' '] + joined_rest, Seq::empty());
        let mid = seq![' '] + joined_rest;
        assert(mid[0] == ' ');
        assert(mid.skip(1) =~= joined_rest);
        assert(split_acc(mid, w) == emit(w) + split_acc(joined_rest, Seq::empty()));
        assert forall|k: int| 0 <= k < rest.len() implies (#[trigger] rest[k]).len() > 0
            && all_lower_alnum(rest[k]) by {
            assert(rest[k] == frags[k + 1]);
        }
        lemma_split_join_round_trip(rest);
        assert(emit(w) + rest =~= frags);
    }
}

// ---------------------------------------------------------------------------
// Executable cleaning and splitting
// ---------------------------------------------------------------------------

fn clean_chars(cs: &Vec<char>) -> (out: Vec<char>)
    ensures
        out@ == clean_text(cs@),
{
    let mut out: Vec<char> = Vec::new();
    let mut i: usize = 0;
    while i < cs.len()
        invariant
            i <= cs.len(),
            out@ == clean_text(cs@.take(i as int)),
        decreases cs.len() - i,
    {
        let c = cs[i];
        if c == '\'' || c == '.' {
            // dropped outright
        } else if ('a' <= c && c <= 'z') || ('0' <= c && c <= '9') {
            out.push(c);
        } else if 'A' <= c && c <= 'Z' {
            let lowered = (((c as u32) + 32) as u8) as char;
            assert(lowered == to_lower_char(c));
            out.push(lowered);
        } else {
            out.push(' ');
        }
        proof {
            lemma_clean_text_push(cs@.take(i as int), cs@[i as int]);
            assert(cs@.take(i as int).push(cs@[i as int]) =~= cs@.take(i as int + 1));
        }
        i += 1;
    }
    proof {
        assert(cs@.take(cs@.len() as int) =~= cs@);
    }
    out
}

fn split_fragments(cs: &Vec<char>) -> (frags: Vec<String>)
    ensures
        frags.deep_view() == split_spaces(cs@),
{
    let mut out: Vec<String> = Vec::new();
    let mut cur: Vec<char> = Vec::new();
    let mut i: usize = 0;
    proof {
        assert(cs@.skip(0) =~= cs@);
        assert(out.deep_view() =~= Seq::<Seq<char>>::empty());
        assert(Seq::<Seq<char>>::empty() + split_acc(cs@, Seq::empty()) =~= split_acc(
            cs@,
            Seq::empty(),
        ));
    }
    while i < cs.len()
        invariant
            i <= cs.len(),
            out.deep_view() + split_acc(cs@.skip(i as int), cur@) == split_spaces(cs@),
        decreases cs.len() - i,
    {
        let ghost prev_out = out.deep_view();
        let ghost prev_cur = cur@;
        let ghost s_i = cs@.skip(i as int);
        let c = cs[i];
        proof {
            assert(s_i.len() > 0);
            assert(s_i[0] == cs@[i as int]);
            assert(s_i.skip(1) =~= cs@.skip(i as int + 1));
        }
        if c == ' ' {
            proof {
                assert(split_acc(s_i, prev_cur) == emit(prev_cur) + split_acc(
                    cs@.skip(i as int + 1),
                    Seq::empty(),
                ));
            }
            if cur.len() > 0 {
                let frag = string_from_chars(&cur);
                out.push(frag);
                cur = Vec::new();
                proof {
                    assert(out.deep_view() =~= prev_out.push(prev_cur));
                    assert(emit(prev_cur) =~= seq![prev_cur]);
                    assert(prev_out.push(prev_cur) + split_acc(
                        cs@.skip(i as int + 1),
                        Seq::empty(),
                    ) =~= prev_out + (emit(prev_cur) + split_acc(
                        cs@.skip(i as int + 1),
                        Seq::empty(),
                    )));
                    assert(cur@ =~= Seq::<char>::empty());
                }
            } else {
                proof {
                    assert(emit(prev_cur) =~= Seq::<Seq<char>>::empty());
                    assert(prev_out + split_acc(cs@.skip(i as int + 1), Seq::empty()) =~= prev_out
                        + (emit(prev_cur) + split_acc(cs@.skip(i as int + 1), Seq::empty())));
                    assert(cur@ =~= Seq::<char>::empty());
                }
            }
        } else {
            cur.push(c);
            proof {
                assert(split_acc(s_i, prev_cur) == split_acc(
                    cs@.skip(i as int + 1),
                    prev_cur.push(cs@[i as int]),
                ));
                assert(cur@ == prev_cur.push(cs@[i as int]));
            }
        }
        i += 1;
    }
    proof {
        assert(cs@.skip(cs@.len() as int) =~= Seq::<char>::empty());
    }
    if cur.len() > 0 {
        let ghost prev_out = out.deep_view();
        let frag = string_from_chars(&cur);
        out.push(frag);
        proof {
            assert(out.deep_view() =~= prev_out.push(cur@));
            assert(prev_out + emit(cur@) =~= prev_out.push(cur@));
        }
    } else {
        proof {
            assert(out.deep_view() + emit(cur@) =~= out.deep_view());
        }
    }
    out
}

// ---------------------------------------------------------------------------
// The public pipeline
// ---------------------------------------------------------------------------

/// Lowercases a word, strips apostrophes and periods, and turns every other
/// character that is not an ASCII letter or digit into a single space. Only
/// lowercase letters, digits and spaces survive.
pub fn format_word(word: &str) -> (r: String)
    ensures
        r@ == clean_text(lower_of(word@)),
        forall|i: int| 0 <= i < r@.len() ==> is_token_char(#[trigger] r@[i]),
{
    let lowered = lowercase_str(word);
    let cs = chars_of(lowered.as_str());
    let cleaned = clean_chars(&cs);
    proof {
        lemma_clean_text_chars(cs@);
    }
    string_from_chars(&cleaned)
}

/// Rewrites a word that reads as a classical numeral into the decimal digits
/// of its value, then stems it. Digit strings come back from the stemmer
/// unchanged, so a recognized numeral becomes exactly its decimal spelling.
pub fn stem(token: &String) -> (r: String)
    ensures
        r@ == stem_full(token@),
        all_digits(numeral_rewrite(token@)) ==> r@ == numeral_rewrite(token@),
        all_lower_alnum(token@) ==> all_lower_alnum(r@),
{
    let cs = chars_of(token.as_str());
    let mut candidate = cs.len() > 0;
    let mut i: usize = 0;
    while i < cs.len()
        invariant
            i <= cs.len(),
            candidate == (cs@.len() > 0 && forall|j: int|
                0 <= j < i ==> is_roman_letter(#[trigger] cs@[j])),
        decreases cs.len() - i,
    {
        let c = cs[i];
        if !(c == 'm' || c == 'd' || c == 'c' || c == 'l' || c == 'x' || c == 'v' || c == 'i') {
            candidate = false;
        }
        i += 1;
    }
    assert(candidate == is_roman_candidate(cs@));
    let mid: String = if candidate && cs.len() <= 4000 {
        let mut upper: Vec<char> = Vec::new();
        let mut k: usize = 0;
        while k < cs.len()
            invariant
                k <= cs.len(),
                upper@ == cs@.take(k as int).map_values(|c: char| to_upper_char(c)),
        decreases cs.len() - k,
        {
            let c = cs[k];
            let u = if 'a' <= c && c <= 'z' {
                (((c as u32) - 32) as u8) as char
            } else {
                c
            };
            assert(u == to_upper_char(cs@[k as int]));
            upper.push(u);
            proof {
                assert(cs@.take(k as int + 1).map_values(|c: char| to_upper_char(c))
                    =~= cs@.take(k as int).map_values(|c: char| to_upper_char(c)).push(
                    to_upper_char(cs@[k as int]),
                ));
            }
            k += 1;
        }
        proof {
            assert(cs@.take(cs@.len() as int) =~= cs@);
        }
        let upper_str = string_from_chars(&upper);
        match roman_from(upper_str.as_str()) {
            Some(n) => {
                assert(1 <= n as int <= 3999);
                let mut digits: Vec<char> = Vec::new();
                push_decimal(n as u32, &mut digits);
                string_from_chars(&digits)
            },
            None => token.clone(),
        }
    } else {
        proof {
            // A candidate longer than any numeral's length cannot be one.
            if is_roman_candidate(token@) {
                match roman_from_spec(upper_seq(token@)) {
                    Some(n) => {
                        lemma_roman_upper_len(n);
                        assert(upper_seq(token@).len() == token@.len());
                        assert(false);
                    },
                    None => {},
                }
            }
        }
        token.clone()
    };
    assert(mid@ == numeral_rewrite(token@)) by {
        if is_roman_candidate(token@) {
            if roman_from_spec(upper_seq(token@)) is Some {
                lemma_dec_digits_are_digits(roman_from_spec(upper_seq(token@)).unwrap());
            }
        }
    };
    proof {
        if all_lower_alnum(token@) {
            lemma_numeral_rewrite_alnum(token@);
        }
    }
    porter_stem(mid.as_str())
}

/// Digits of a nonnegative value are digit characters.
pub proof fn lemma_dec_digits_are_digits(n: int)
    ensures
        n >= 0 ==> all_digits(dec_digits(n)) && dec_digits(n).len() > 0,
    decreases n,
{
    if n >= 10 {
        lemma_dec_digits_are_digits(n / 10);
        assert forall|i: int| 0 <= i < dec_digits(n).len() implies is_digit(
            #[trigger] dec_digits(n)[i],
        ) by {
            if i < dec_digits(n / 10).len() {
                assert(dec_digits(n)[i] == dec_digits(n / 10)[i]);
            } else {
                assert(dec_digits(n)[i] == digit_char(n % 10));
            }
        }
    }
}

/// Numeral rewriting keeps a word inside lowercase letters and digits.
pub proof fn lemma_numeral_rewrite_alnum(t: Seq<char>)
    requires
        all_lower_alnum(t),
    ensures
        all_lower_alnum(numeral_rewrite(t)),
{
    if is_roman_candidate(t) {
        match roman_from_spec(upper_seq(t)) {
            Some(n) => {
                lemma_dec_digits_are_digits(n);
            },
            None => {},
        }
    }
}

fn push_decimal(n: u32, out: &mut Vec<char>)
    ensures
        final(out)@ == old(out)@ + dec_digits(n as int),
    decreases n,
{
    if n < 10 {
        let d = (((('0' as u32) + n) as u8) as char);
        assert(d == digit_char(n as int));
        out.push(d);
        assert(out@ =~= old(out)@ + dec_digits(n as int));
    } else {
        let ghost base = out@;
        push_decimal(n / 10, out);
        let d = (((('0' as u32) + n % 10) as u8) as char);
        assert(d == digit_char((n % 10) as int));
        out.push(d);
        assert(out@ =~= base + dec_digits(n as int));
    }
}

/// Splits a phrase into its normalized tokens: the phrase is lowercased and
/// cleaned character by character (whitespace and punctuation become
/// separating spaces), the nonempty fragments are taken in order, and each
/// is stemmed, numerals first. Every token is a nonempty word of lowercase
/// letters and digits.
pub fn tokenize_term(term: &String) -> (r: Vec<String>)
    ensures
        r.deep_view() == tokenize_spec(term@),
        forall|k: int| 0 <= k < r.deep_view().len() ==> all_lower_alnum(#[trigger] r.deep_view()[k]),
{
    let formatted = format_word(term.as_str());
    let fcs = chars_of(formatted.as_str());
    let frags = split_fragments(&fcs);
    proof {
        lemma_clean_text_chars(lower_of(term@));
        lemma_split_acc_fragments(fcs@, Seq::empty());
    }
    let ghost frags_dv = frags.deep_view();
    let mut out: Vec<String> = Vec::new();
    let mut i: usize = 0;
    while i < frags.len()
        invariant
            i <= frags.len(),
            frags.deep_view() == frags_dv,
            frags.deep_view().len() == frags@.len(),
            forall|k: int| 0 <= k < frags_dv.len() ==> #[trigger] frags_dv[k] == frags@[k]@,
            forall|k: int| 0 <= k < frags_dv.len() ==> (#[trigger] frags_dv[k]).len() > 0
                && all_lower_alnum(frags_dv[k]),
            out.deep_view() == frags_dv.take(i as int).map_values(|t: Seq<char>| stem_full(t)),
            forall|k: int| 0 <= k < out.deep_view().len() ==> all_lower_alnum(
                #[trigger] out.deep_view()[k],
            ),
        decreases frags.len() - i,
    {
        let ghost prev = out.deep_view();
        let token = stem(&frags[i]);
        proof {
            lemma_numeral_rewrite_alnum(frags_dv[i as int]);
        }
        out.push(token);
        proof {
            assert(out.deep_view() =~= prev.push(token@));
            assert(frags_dv.take(i as int + 1).map_values(|t: Seq<char>| stem_full(t))
                =~= frags_dv.take(i as int).map_values(|t: Seq<char>| stem_full(t)).push(
                stem_full(frags_dv[i as int]),
            ));
        }
        i += 1;
    }
    proof {
        assert(frags_dv.take(frags_dv.len() as int) =~= frags_dv);
    }
    out
}

} // verus!
