//! Deterministic prompt vocabulary of the parametric feature layer.
use vstd::prelude::*;
use crate::text::{
    chars_string, find_char, find_from, find_from_exec, first_index_of, has_prefix,
    has_prefix_exec, is_unicode_whitespace, is_whitespace_char, lemma_first_index_of, lower_char,
    lower_text, parse_usize_range, split_trimmed, str_chars, texts_view, trimmed_pieces,
    usize_parse,
};
use crate::topology::TopologyError;

verus! {

/// Unit system for feature-tree dimensions.
#[derive(Clone, Copy, Debug, PartialEq, Eq, Structural)]
pub enum Unit {
    /// Millimeters.
    Millimeter,
}

/// Feature parser or execution error.
#[derive(Clone, Copy, Debug, PartialEq, Eq)]
pub enum FeatureError {
    /// Prompt is not recognized by the deterministic parser.
    UnrecognizedPrompt,
    /// A dimension is invalid.
    InvalidDimension(&'static str),
    /// A requested feature cannot be applied.
    InvalidFeature(&'static str),
    /// Polygon triangulation failed.
    Triangulation,
    /// Topology validation failed.
    Topology(TopologyError),
}

/// The prompt text after normalization: ASCII lower-case, with `-`, `_`
/// and `,` read as spaces.
pub open spec fn normalized_prompt(s: Seq<char>) -> Seq<char> {
    lower_text(s).map_values(|c: char| if c == '-' || c == '_' || c == ',' { ' ' } else { c })
}

/// Normalize a prompt for the deterministic parser.
pub fn normalize_prompt(input: &str) -> (normalized: String)
    ensures
        normalized@ == normalized_prompt(input@),
{
    let chars = str_chars(input);
    let mut out: Vec<char> = Vec::new();
    let mut i: usize = 0;
    while i < chars.len()
        invariant
            0 <= i <= chars@.len(),
            chars@ == input@,
            out@ =~= normalized_prompt(chars@.subrange(0, i as int)),
        decreases chars@.len() - i,
    {
        let c = lower_char(chars[i]);
        if c == '-' || c == '_' || c == ',' {
            out.push(' ');
        } else {
            out.push(c);
        }
        i = i + 1;
    }
    assert(chars@.subrange(0, i as int) =~= input@);
    chars_string(out.as_slice())
}

/// End of the run of non-whitespace characters that starts at `i`.
pub open spec fn word_end(s: Seq<char>, i: int) -> int
    decreases s.len() - i,
{
    if 0 <= i < s.len() && !is_unicode_whitespace(s[i]) {
        word_end(s, i + 1)
    } else {
        i
    }
}

pub proof fn lemma_word_end(s: Seq<char>, i: int)
    requires
        0 <= i <= s.len(),
    ensures
        i <= word_end(s, i) <= s.len(),
        forall|j: int| i <= j < word_end(s, i) ==> !is_unicode_whitespace(#[trigger] s[j]),
        word_end(s, i) == s.len() || is_unicode_whitespace(s[word_end(s, i)]),
    decreases s.len() - i,
{
    if i < s.len() && !is_unicode_whitespace(s[i]) {
        lemma_word_end(s, i + 1);
    }
}

/// The whitespace-separated words of `s` from position `i` on
/// (`str::split_whitespace`).
pub open spec fn words_from(s: Seq<char>, i: int) -> Seq<Seq<char>>
    decreases s.len() - i,
{
    if i < 0 || i >= s.len() {
        seq![]
    } else if is_unicode_whitespace(s[i]) {
        words_from(s, i + 1)
    } else {
        let j = word_end(s, i);
        proof {
            lemma_word_end(s, i);
        }
        seq![s.subrange(i, j)] + words_from(s, j)
    }
}

/// The whitespace-separated words of `s`.
pub open spec fn words(s: Seq<char>) -> Seq<Seq<char>> {
    words_from(s, 0)
}

/// The whitespace-separated words of a text.
pub fn split_words(s: &[char]) -> (w: Vec<String>)
    ensures
        texts_view(w@) == words(s@),
{
    let mut w: Vec<String> = Vec::new();
    let mut i: usize = 0;
    while i < s.len()
        invariant
            0 <= i <= s@.len(),
            words(s@) == texts_view(w@) + words_from(s@, i as int),
        decreases s@.len() - i,
    {
        if is_whitespace_char(s[i]) {
            i = i + 1;
        } else {
            proof {
                lemma_word_end(s@, i as int);
            }
            let mut j = i + 1;
            while j < s.len() && !is_whitespace_char(s[j])
                invariant
                    i < j <= s@.len(),
                    word_end(s@, i as int) == word_end(s@, j as int),
                decreases s@.len() - j,
            {
                j = j + 1;
            }
            let ghost before = texts_view(w@);
            w.push(chars_string(&s[i..j]));
            assert(texts_view(w@) =~= before + seq![s@.subrange(i as int, j as int)]);
            i = j;
        }
    }
    w
}

/// Number named by a count word.
pub open spec fn count_word(w: Seq<char>) -> Option<nat> {
    if w == "a"@ || w == "an"@ || w == "one"@ {
        Some(1)
    } else if w == "two"@ {
        Some(2)
    } else if w == "three"@ {
        Some(3)
    } else if w == "four"@ {
        Some(4)
    } else if w == "five"@ {
        Some(5)
    } else if w == "six"@ {
        Some(6)
    } else {
        None
    }
}

/// Parse an English count word.
pub fn parse_count_word(word: &str) -> (count: Option<usize>)
    ensures
        match count_word(word@) {
            Some(n) => count == Some(n as usize),
            None => count is None,
        },
{
    let w = String::from_str(word);
    if w == String::from_str("a") || w == String::from_str("an") || w == String::from_str("one") {
        Some(1)
    } else if w == String::from_str("two") {
        Some(2)
    } else if w == String::from_str("three") {
        Some(3)
    } else if w == String::from_str("four") {
        Some(4)
    } else if w == String::from_str("five") {
        Some(5)
    } else if w == String::from_str("six") {
        Some(6)
    } else {
        None
    }
}

/// The count that word `w` gives: a count word, else an unsigned integer.
pub open spec fn word_count(w: Seq<char>) -> Option<nat> {
    match count_word(w) {
        Some(n) => Some(n),
        None => match usize_parse(w) {
            Ok(n) => Some(n),
            Err(_) => None,
        },
    }
}

/// The count given by the nearest word before position `i` that does not
/// start with `m` and reads as a count.
pub open spec fn count_before(ws: Seq<Seq<char>>, i: int) -> Option<nat>
    decreases i,
{
    if i <= 0 || i > ws.len() {
        None
    } else if !has_prefix(ws[i - 1], "m"@) && word_count(ws[i - 1]) is Some {
        word_count(ws[i - 1])
    } else {
        count_before(ws, i - 1)
    }
}

/// Position of the first word from `i` on that starts with `hole`.
pub open spec fn first_hole_word(ws: Seq<Seq<char>>, i: int) -> Option<int>
    decreases ws.len() - i,
{
    if i < 0 || i >= ws.len() {
        None
    } else if has_prefix(ws[i], "hole"@) {
        Some(i)
    } else {
        first_hole_word(ws, i + 1)
    }
}

/// The hole count of a normalized prompt: the count before the first word
/// that starts with `hole`, one if no word there gives a count, and none
/// without such a word.
pub open spec fn hole_count(input: Seq<char>) -> Option<nat> {
    let ws = words(input);
    match first_hole_word(ws, 0) {
        None => None,
        Some(i) => match count_before(ws, i) {
            Some(n) => Some(n),
            None => Some(1),
        },
    }
}

/// Word `w` gives the hole count when it comes before the hole word: it
/// does not start with `m` (a metric size such as `m4`) and reads as a count.
pub open spec fn gives_count(w: Seq<char>) -> bool {
    !has_prefix(w, "m"@) && word_count(w) is Some
}

/// Word `i` is the first word that starts with `hole`.
pub open spec fn is_first_hole_word(ws: Seq<Seq<char>>, i: int) -> bool {
    &&& 0 <= i < ws.len()
    &&& has_prefix(ws[i], "hole"@)
    &&& forall|k: int| 0 <= k < i ==> !has_prefix(#[trigger] ws[k], "hole"@)
}

proof fn lemma_first_hole_word_is(ws: Seq<Seq<char>>, i: int, m: int)
    requires
        is_first_hole_word(ws, i),
        0 <= m <= i,
    ensures
        first_hole_word(ws, m) == Some(i),
    decreases i - m,
{
    if m < i {
        lemma_first_hole_word_is(ws, i, m + 1);
    }
}

proof fn lemma_no_hole_word(ws: Seq<Seq<char>>, m: int)
    requires
        0 <= m,
        forall|k: int| 0 <= k < ws.len() ==> !has_prefix(#[trigger] ws[k], "hole"@),
    ensures
        first_hole_word(ws, m) is None,
    decreases ws.len() - m,
{
    if m < ws.len() {
        lemma_no_hole_word(ws, m + 1);
    }
}

proof fn lemma_count_before_nearest(ws: Seq<Seq<char>>, i: int, k: int)
    requires
        0 <= k < i <= ws.len(),
        gives_count(ws[k]),
        forall|j: int| k < j < i ==> !gives_count(#[trigger] ws[j]),
    ensures
        count_before(ws, i) == word_count(ws[k]),
    decreases i,
{
    if i - 1 > k {
        assert(!gives_count(ws[i - 1]));
        lemma_count_before_nearest(ws, i - 1, k);
    }
}

proof fn lemma_count_before_none(ws: Seq<Seq<char>>, i: int)
    requires
        0 <= i <= ws.len(),
        forall|j: int| 0 <= j < i ==> !gives_count(#[trigger] ws[j]),
    ensures
        count_before(ws, i) is None,
    decreases i,
{
    if i > 0 {
        assert(!gives_count(ws[i - 1]));
        lemma_count_before_none(ws, i - 1);
    }
}

/// The hole count of a prompt is read from the nearest counting word before
/// the first hole word, whatever words come earlier; it is one when no word
/// before the hole word counts, and there is none without a hole word.
pub proof fn lemma_hole_count_nearest(input: Seq<char>)
    ensures
        forall|i: int, k: int|
            #[trigger] is_first_hole_word(words(input), i) && 0 <= k < i && #[trigger] gives_count(
                words(input)[k],
            ) && (forall|j: int| k < j < i ==> !gives_count(#[trigger] words(input)[j]))
                ==> hole_count(input) == word_count(words(input)[k]),
        forall|i: int|
            #[trigger] is_first_hole_word(words(input), i) && (forall|j: int|
                0 <= j < i ==> !gives_count(#[trigger] words(input)[j])) ==> hole_count(input)
                == Some(1nat),
        (forall|k: int| 0 <= k < words(input).len() ==> !has_prefix(#[trigger] words(input)[k], "hole"@))
            ==> hole_count(input) is None,
{
    let ws = words(input);
    assert forall|i: int, k: int|
        #[trigger] is_first_hole_word(ws, i) && 0 <= k < i && #[trigger] gives_count(ws[k]) && (forall|j: int|
            k < j < i ==> !gives_count(#[trigger] ws[j])) implies hole_count(input) == word_count(ws[k]) by {
        lemma_first_hole_word_is(ws, i, 0);
        lemma_count_before_nearest(ws, i, k);
    }
    assert forall|i: int|
        #[trigger] is_first_hole_word(ws, i) && (forall|j: int| 0 <= j < i ==> !gives_count(#[trigger] ws[j]))
            implies hole_count(input) == Some(1nat) by {
        lemma_first_hole_word_is(ws, i, 0);
        lemma_count_before_none(ws, i);
    }
    if forall|k: int| 0 <= k < ws.len() ==> !has_prefix(#[trigger] ws[k], "hole"@) {
        lemma_no_hole_word(ws, 0);
    }
}

/// The count that one word gives.
fn word_count_exec(w: &String) -> (r: Option<usize>)
    ensures
        match word_count(w@) {
            Some(n) => r == Some(n as usize),
            None => r is None,
        },
{
    match parse_count_word(w.as_str()) {
        Some(n) => Some(n),
        None => {
            let chars = str_chars(w.as_str());
            assert(chars@.subrange(0, chars@.len() as int) =~= w@);
            match parse_usize_range(chars.as_slice(), 0, chars.len()) {
                Ok(n) => Some(n),
                Err(_) => None,
            }
        },
    }
}

/// Parse the hole count of a normalized prompt.
pub fn parse_hole_count(input: &str) -> (count: Option<usize>)
    ensures
        match hole_count(input@) {
            Some(n) => count == Some(n as usize),
            None => count is None,
        },
        forall|i: int, k: int|
            #[trigger] is_first_hole_word(words(input@), i) && 0 <= k < i && #[trigger] gives_count(
                words(input@)[k],
            ) && (forall|j: int| k < j < i ==> !gives_count(#[trigger] words(input@)[j]))
                ==> count == Some(word_count(words(input@)[k])->Some_0 as usize),
        forall|i: int|
            #[trigger] is_first_hole_word(words(input@), i) && (forall|j: int|
                0 <= j < i ==> !gives_count(#[trigger] words(input@)[j])) ==> count == Some(1usize),
        (forall|k: int| 0 <= k < words(input@).len() ==> !has_prefix(#[trigger] words(input@)[k], "hole"@))
            ==> count is None,
{
    proof {
        lemma_hole_count_nearest(input@);
    }
    let chars = str_chars(input);
    let ws = split_words(chars.as_slice());
    let ghost wv = texts_view(ws@);
    let hole = str_chars("hole");
    let m = str_chars("m");
    let mut i: usize = 0;
    while i < ws.len()
        invariant
            0 <= i <= ws@.len(),
            wv == texts_view(ws@),
            wv == words(input@),
            hole@ == "hole"@,
            m@ == "m"@,
            first_hole_word(wv, 0) == first_hole_word(wv, i as int),
        decreases ws@.len() - i,
    {
        let wc = str_chars(ws[i].as_str());
        assert(wv[i as int] == ws@[i as int]@);
        if has_prefix_exec(wc.as_slice(), hole.as_slice()) {
            assert(first_hole_word(wv, i as int) == Some(i as int));
            let mut k = i;
            while k > 0
                invariant
                    0 <= k <= i < ws@.len(),
                    wv == texts_view(ws@),
                    wv == words(input@),
                    first_hole_word(wv, 0) == Some(i as int),
                    m@ == "m"@,
                    count_before(wv, i as int) == count_before(wv, k as int),
                decreases k,
            {
                let cc = str_chars(ws[k - 1].as_str());
                assert(wv[k - 1] == ws@[k - 1]@);
                if !has_prefix_exec(cc.as_slice(), m.as_slice()) {
                    match word_count_exec(&ws[k - 1]) {
                        Some(n) => {
                            proof {
                                lemma_hole_count_nearest(input@);
                            }
                            return Some(n);
                        },
                        None => {},
                    }
                }
                k = k - 1;
            }
            proof {
                lemma_hole_count_nearest(input@);
            }
            return Some(1);
        }
        i = i + 1;
    }
    None
}

/// The normalized prompt names a part that the parser builds.
pub open spec fn mentions_part(s: Seq<char>) -> bool {
    find_from(s, "bracket"@, 0) is Some || find_from(s, "plate"@, 0) is Some
}

/// Whether a normalized prompt mentions a bracket or a plate.
pub fn prompt_mentions_part(normalized: &str) -> (b: bool)
    ensures
        b == mentions_part(normalized@),
{
    let chars = str_chars(normalized);
    let bracket = str_chars("bracket");
    let plate = str_chars("plate");
    find_from_exec(chars.as_slice(), bracket.as_slice(), 0).is_some() || find_from_exec(
        chars.as_slice(),
        plate.as_slice(),
        0,
    ).is_some()
}

/// The text after the `m` of the first word from `i` on that starts with
/// `m` (the nominal size of a metric hole standard).
pub open spec fn metric_token(ws: Seq<Seq<char>>, i: int) -> Option<Seq<char>>
    decreases ws.len() - i,
{
    if i < 0 || i >= ws.len() {
        None
    } else if has_prefix(ws[i], "m"@) {
        Some(ws[i].drop_first())
    } else {
        metric_token(ws, i + 1)
    }
}

/// The nominal-size text of the metric hole standard that a normalized
/// prompt names, if a word starts with `m`.
pub fn hole_spec_token(input: &str) -> (token: Option<String>)
    ensures
        match metric_token(words(input@), 0) {
            Some(t) => token matches Some(s) && s@ == t,
            None => token is None,
        },
{
    let chars = str_chars(input);
    let ws = split_words(chars.as_slice());
    let ghost wv = texts_view(ws@);
    let m = str_chars("m");
    let mut i: usize = 0;
    while i < ws.len()
        invariant
            0 <= i <= ws@.len(),
            wv == texts_view(ws@),
            wv == words(input@),
            m@ == "m"@,
            metric_token(wv, 0) == metric_token(wv, i as int),
        decreases ws@.len() - i,
    {
        let wc = str_chars(ws[i].as_str());
        assert(wv[i as int] == ws@[i as int]@);
        if has_prefix_exec(wc.as_slice(), m.as_slice()) {
            proof {
                reveal_strlit("m");
            }
            assert(wc@.len() >= 1);
            assert(wc@.subrange(1, wc@.len() as int) =~= wc@.drop_first());
            return Some(chars_string(&wc.as_slice()[1..wc.len()]));
        }
        i = i + 1;
    }
    None
}

/// `w` ends with `mm`.
pub open spec fn ends_with_mm(w: Seq<char>) -> bool {
    w.len() >= 2 && w[w.len() - 2] == 'm' && w[w.len() - 1] == 'm'
}

/// `w` with every trailing `mm` removed.
pub open spec fn strip_all_mm(w: Seq<char>) -> Seq<char>
    decreases w.len(),
{
    if ends_with_mm(w) {
        strip_all_mm(w.subrange(0, w.len() - 2))
    } else {
        w
    }
}

/// The texts before a trailing `mm`, of the words that have one, in order.
pub open spec fn mm_values(ws: Seq<Seq<char>>) -> Seq<Seq<char>>
    decreases ws.len(),
{
    if ws.len() == 0 {
        seq![]
    } else {
        let rest = mm_values(ws.drop_first());
        if ends_with_mm(ws[0]) {
            seq![ws[0].subrange(0, ws[0].len() - 2)] + rest
        } else {
            rest
        }
    }
}

/// The text before the trailing `mm` of the word just before the first
/// word from `i` on (`i` at least one) that starts with `hole` and follows
/// a word ending in `mm`.
pub open spec fn hole_diameter_text(ws: Seq<Seq<char>>, i: int) -> Option<Seq<char>>
    decreases ws.len() - i,
{
    if i < 1 || i >= ws.len() {
        None
    } else if has_prefix(ws[i], "hole"@) && ends_with_mm(ws[i - 1]) {
        Some(ws[i - 1].subrange(0, ws[i - 1].len() - 2))
    } else {
        hole_diameter_text(ws, i + 1)
    }
}

/// The `x`-separated parts, trimmed, of each word that holds an `x` once
/// its trailing `mm`s are removed, in order.
pub open spec fn dimension_candidates(ws: Seq<Seq<char>>) -> Seq<Seq<Seq<char>>>
    decreases ws.len(),
{
    if ws.len() == 0 {
        seq![]
    } else {
        let rest = dimension_candidates(ws.drop_first());
        let t = strip_all_mm(ws[0]);
        if first_index_of(t, 'x') is Some {
            seq![trimmed_pieces(t, 'x')] + rest
        } else {
            rest
        }
    }
}

fn ends_with_mm_exec(w: &[char], len: usize) -> (b: bool)
    requires
        len <= w@.len(),
    ensures
        b == ends_with_mm(w@.subrange(0, len as int)),
{
    len >= 2 && w[len - 2] == 'm' && w[len - 1] == 'm'
}

/// The texts before a trailing `mm` of the words of a prompt, in order.
pub fn mm_value_tokens(input: &str) -> (v: Vec<String>)
    ensures
        texts_view(v@) == mm_values(words(input@)),
{
    let chars = str_chars(input);
    let ws = split_words(chars.as_slice());
    let ghost wv = texts_view(ws@);
    let mut out: Vec<String> = Vec::new();
    let mut k: usize = 0;
    assert(wv.subrange(0, wv.len() as int) =~= wv);
    while k < ws.len()
        invariant
            0 <= k <= ws@.len(),
            wv == texts_view(ws@),
            wv == words(input@),
            mm_values(wv) == texts_view(out@) + mm_values(wv.subrange(k as int, wv.len() as int)),
        decreases ws@.len() - k,
    {
        let w = str_chars(ws[k].as_str());
        assert(w@ == wv[k as int]);
        let ghost tail = wv.subrange(k as int, wv.len() as int);
        assert(tail[0] == wv[k as int]);
        assert(tail.drop_first() =~= wv.subrange(k + 1, wv.len() as int));
        assert(w@.subrange(0, w@.len() as int) =~= w@);
        if ends_with_mm_exec(w.as_slice(), w.len()) {
            let ghost before = texts_view(out@);
            out.push(chars_string(&w.as_slice()[0..w.len() - 2]));
            assert(texts_view(out@) =~= before + seq![w@.subrange(0, w@.len() - 2)]);
        }
        k = k + 1;
    }
    assert(wv.subrange(k as int, wv.len() as int) =~= Seq::<Seq<char>>::empty());
    assert(texts_view(out@) + Seq::<Seq<char>>::empty() =~= texts_view(out@));
    out
}

/// The diameter text of a prompt's `<value>mm hole` phrase.
pub fn hole_diameter_token(input: &str) -> (token: Option<String>)
    ensures
        match hole_diameter_text(words(input@), 1) {
            Some(t) => token matches Some(s) && s@ == t,
            None => token is None,
        },
{
    let chars = str_chars(input);
    let ws = split_words(chars.as_slice());
    let ghost wv = texts_view(ws@);
    let hole = str_chars("hole");
    let mut i: usize = 1;
    while i < ws.len()
        invariant
            1 <= i,
            i <= ws@.len() || ws@.len() == 0,
            wv == texts_view(ws@),
            wv == words(input@),
            hole@ == "hole"@,
            hole_diameter_text(wv, 1) == hole_diameter_text(wv, i as int),
        decreases ws@.len() - i,
    {
        let wc = str_chars(ws[i].as_str());
        let prev = str_chars(ws[i - 1].as_str());
        assert(wv[i as int] == ws@[i as int]@);
        assert(wv[i - 1] == ws@[i - 1]@);
        assert(prev@.subrange(0, prev@.len() as int) =~= prev@);
        if has_prefix_exec(wc.as_slice(), hole.as_slice()) && ends_with_mm_exec(
            prev.as_slice(),
            prev.len(),
        ) {
            return Some(chars_string(&prev.as_slice()[0..prev.len() - 2]));
        }
        i = i + 1;
    }
    None
}

/// Remove every trailing `mm` of `w[0..len]`.
fn strip_all_mm_len(w: &[char], len: usize) -> (n: usize)
    requires
        len <= w@.len(),
    ensures
        n <= len,
        w@.subrange(0, n as int) == strip_all_mm(w@.subrange(0, len as int)),
{
    let mut n = len;
    while ends_with_mm_exec(w, n)
        invariant
            n <= len <= w@.len(),
            strip_all_mm(w@.subrange(0, len as int)) == strip_all_mm(w@.subrange(0, n as int)),
        decreases n,
    {
        assert(w@.subrange(0, n as int).subrange(0, n - 2) =~= w@.subrange(0, n - 2));
        n = n - 2;
    }
    n
}

/// The trimmed `x`-separated parts of each word of a prompt that holds an
/// `x` once its trailing `mm`s are removed, in order.
pub fn dimension_parts(input: &str) -> (v: Vec<Vec<String>>)
    ensures
        v@.map_values(|p: Vec<String>| texts_view(p@)) == dimension_candidates(words(input@)),
{
    let chars = str_chars(input);
    let ws = split_words(chars.as_slice());
    let ghost wv = texts_view(ws@);
    let mut out: Vec<Vec<String>> = Vec::new();
    let mut k: usize = 0;
    assert(wv.subrange(0, wv.len() as int) =~= wv);
    assert(out@.map_values(|p: Vec<String>| texts_view(p@)) =~= Seq::<Seq<Seq<char>>>::empty());
    while k < ws.len()
        invariant
            0 <= k <= ws@.len(),
            wv == texts_view(ws@),
            wv == words(input@),
            dimension_candidates(wv) == out@.map_values(|p: Vec<String>| texts_view(p@))
                + dimension_candidates(wv.subrange(k as int, wv.len() as int)),
        decreases ws@.len() - k,
    {
        let w = str_chars(ws[k].as_str());
        assert(w@ == wv[k as int]);
        let ghost tail = wv.subrange(k as int, wv.len() as int);
        assert(tail[0] == wv[k as int]);
        assert(tail.drop_first() =~= wv.subrange(k + 1, wv.len() as int));
        assert(w@.subrange(0, w@.len() as int) =~= w@);
        let n = strip_all_mm_len(w.as_slice(), w.len());
        let ghost t = w@.subrange(0, n as int);
        proof {
            lemma_first_index_of(t, 'x');
        }
        let ghost before = out@.map_values(|p: Vec<String>| texts_view(p@));
        match find_char(w.as_slice(), 'x', 0, n) {
            Some(_) => {
                let parts = split_trimmed(w.as_slice(), 0, n, 'x');
                out.push(parts);
                assert(out@.map_values(|p: Vec<String>| texts_view(p@)) =~= before + seq![
                    trimmed_pieces(t, 'x'),
                ]);
            },
            None => {},
        }
        k = k + 1;
    }
    assert(wv.subrange(k as int, wv.len() as int) =~= Seq::<Seq<char>>::empty());
    assert(out@.map_values(|p: Vec<String>| texts_view(p@)) + Seq::<Seq<Seq<char>>>::empty()
        =~= out@.map_values(|p: Vec<String>| texts_view(p@)));
    out
}

/// Hole polygon segment count: at least eight, rounded up to a multiple of
/// four.
pub fn normalize_segments(segments: usize) -> (n: usize)
    requires
        segments <= usize::MAX - 3,
    ensures
        n == ((if segments < 8 {
            8
        } else {
            segments as int
        }) + 3) / 4 * 4,
        n % 4 == 0,
        n >= 8,
        n >= segments,
{
    let s = if segments < 8 {
        8
    } else {
        segments
    };
    let q = s / 4 + if s % 4 == 0 {
        0
    } else {
        1
    };
    q * 4
}

} // verus!
