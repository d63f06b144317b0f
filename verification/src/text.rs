//! Character-level text helpers shared by the exchange readers and the
//! prompt parser: Unicode whitespace, ASCII case and digits, trimming,
//! splitting and searching, each with its mathematical statement.
use vstd::prelude::*;

verus! {

/// Unicode `White_Space` property (the set that `char::is_whitespace` uses).
pub open spec fn is_unicode_whitespace(c: char) -> bool {
    let v = c as u32;
    ||| 0x09 <= v <= 0x0d
    ||| v == 0x20
    ||| v == 0x85
    ||| v == 0xa0
    ||| v == 0x1680
    ||| 0x2000 <= v <= 0x200a
    ||| v == 0x2028
    ||| v == 0x2029
    ||| v == 0x202f
    ||| v == 0x205f
    ||| v == 0x3000
}

/// ASCII decimal digit.
pub open spec fn is_digit(c: char) -> bool {
    0x30 <= (c as u32) <= 0x39
}

/// Value of an ASCII decimal digit.
pub open spec fn digit_value(c: char) -> int {
    (c as u32) - 0x30
}

/// ASCII upper-casing of one character; other characters are unchanged.
pub open spec fn ascii_upper(c: char) -> char {
    if 0x61 <= (c as u32) <= 0x7a {
        ((c as u32) - 0x20) as char
    } else {
        c
    }
}

/// ASCII lower-casing of one character; other characters are unchanged.
pub open spec fn ascii_lower(c: char) -> char {
    if 0x41 <= (c as u32) <= 0x5a {
        ((c as u32) + 0x20) as char
    } else {
        c
    }
}

/// ASCII upper-casing of a text.
pub open spec fn upper_text(s: Seq<char>) -> Seq<char> {
    s.map_values(|c: char| ascii_upper(c))
}

/// ASCII lower-casing of a text.
pub open spec fn lower_text(s: Seq<char>) -> Seq<char> {
    s.map_values(|c: char| ascii_lower(c))
}

/// Number of leading whitespace characters.
pub open spec fn leading_ws(s: Seq<char>) -> nat
    decreases s.len(),
{
    if s.len() > 0 && is_unicode_whitespace(s[0]) {
        1 + leading_ws(s.drop_first())
    } else {
        0
    }
}

/// Number of trailing whitespace characters.
pub open spec fn trailing_ws(s: Seq<char>) -> nat
    decreases s.len(),
{
    if s.len() > 0 && is_unicode_whitespace(s.last()) {
        1 + trailing_ws(s.drop_last())
    } else {
        0
    }
}

/// Whitespace removed from both ends (`str::trim`).
pub open spec fn trimmed(s: Seq<char>) -> Seq<char> {
    let t = s.subrange(leading_ws(s) as int, s.len() as int);
    t.subrange(0, t.len() - trailing_ws(t))
}

/// `p` is a prefix of `s`.
pub open spec fn has_prefix(s: Seq<char>, p: Seq<char>) -> bool {
    p.len() <= s.len() && s.subrange(0, p.len() as int) == p
}

/// `p` occurs in `s` at position `i`.
pub open spec fn occurs_at(s: Seq<char>, p: Seq<char>, i: int) -> bool {
    0 <= i && i + p.len() <= s.len() && s.subrange(i, i + p.len()) == p
}

/// First position at or after `from` where `p` occurs in `s`.
pub open spec fn find_from(s: Seq<char>, p: Seq<char>, from: int) -> Option<int>
    decreases s.len() + 1 - from,
{
    if from < 0 || from + p.len() > s.len() {
        None
    } else if occurs_at(s, p, from) {
        Some(from)
    } else {
        find_from(s, p, from + 1)
    }
}

pub proof fn lemma_find_from(s: Seq<char>, p: Seq<char>, from: int)
    requires
        0 <= from,
    ensures
        match find_from(s, p, from) {
            Some(i) => from <= i && i + p.len() <= s.len() && occurs_at(s, p, i) && forall|j: int|
                from <= j < i ==> !occurs_at(s, p, j),
            None => forall|j: int| from <= j ==> !occurs_at(s, p, j),
        },
    decreases s.len() + 1 - from,
{
    if from + p.len() <= s.len() && !occurs_at(s, p, from) {
        lemma_find_from(s, p, from + 1);
    }
}

/// First position of the character `c` in `s`.
pub open spec fn first_index_of(s: Seq<char>, c: char) -> Option<int>
    decreases s.len(),
{
    if s.len() == 0 {
        None
    } else if s[0] == c {
        Some(0)
    } else {
        match first_index_of(s.drop_first(), c) {
            Some(i) => Some(i + 1),
            None => None,
        }
    }
}

/// Last position of the character `c` in `s`.
pub open spec fn last_index_of(s: Seq<char>, c: char) -> Option<int>
    decreases s.len(),
{
    if s.len() == 0 {
        None
    } else if s.last() == c {
        Some(s.len() - 1)
    } else {
        last_index_of(s.drop_last(), c)
    }
}

/// The pieces of `s` between occurrences of `sep` (`str::split` with a
/// character pattern): always at least one piece.
pub open spec fn split_on(s: Seq<char>, sep: char) -> Seq<Seq<char>>
    decreases s.len(),
{
    match first_index_of(s, sep) {
        Some(i) => {
            proof {
                lemma_first_index_of(s, sep);
            }
            seq![s.subrange(0, i)] + split_on(s.subrange(i + 1, s.len() as int), sep)
        },
        None => seq![s],
    }
}

pub proof fn lemma_first_index_of(s: Seq<char>, c: char)
    ensures
        match first_index_of(s, c) {
            Some(i) => 0 <= i < s.len() && s[i] == c && forall|j: int| 0 <= j < i ==> s[j] != c,
            None => forall|j: int| 0 <= j < s.len() ==> s[j] != c,
        },
    decreases s.len(),
{
    if s.len() > 0 {
        lemma_first_index_of(s.drop_first(), c);
        if s[0] != c {
            match first_index_of(s.drop_first(), c) {
                Some(i) => {
                    assert forall|j: int| 0 <= j < i + 1 implies s[j] != c by {
                        if j > 0 {
                            assert(s[j] == s.drop_first()[j - 1]);
                        }
                    }
                },
                None => {
                    assert forall|j: int| 0 <= j < s.len() implies s[j] != c by {
                        if j > 0 {
                            assert(s[j] == s.drop_first()[j - 1]);
                        }
                    }
                },
            }
        }
    }
}

pub proof fn lemma_last_index_of(s: Seq<char>, c: char)
    ensures
        match last_index_of(s, c) {
            Some(i) => 0 <= i < s.len() && s[i] == c && forall|j: int| i < j < s.len() ==> s[j] != c,
            None => forall|j: int| 0 <= j < s.len() ==> s[j] != c,
        },
    decreases s.len(),
{
    if s.len() > 0 && s.last() != c {
        let t = s.drop_last();
        lemma_last_index_of(t, c);
        match last_index_of(t, c) {
            Some(i) => {
                assert forall|j: int| i < j < s.len() implies s[j] != c by {
                    if j < t.len() {
                        assert(s[j] == t[j]);
                    }
                }
            },
            None => {
                assert forall|j: int| 0 <= j < s.len() implies s[j] != c by {
                    if j < t.len() {
                        assert(s[j] == t[j]);
                    }
                }
            },
        }
    }
}

pub proof fn lemma_leading_ws(s: Seq<char>, k: int)
    requires
        0 <= k <= s.len(),
        forall|j: int| 0 <= j < k ==> is_unicode_whitespace(#[trigger] s[j]),
        k == s.len() || !is_unicode_whitespace(s[k]),
    ensures
        leading_ws(s) == k,
    decreases k,
{
    if k > 0 {
        let t = s.drop_first();
        assert forall|j: int| 0 <= j < k - 1 implies is_unicode_whitespace(#[trigger] t[j]) by {
            assert(t[j] == s[j + 1]);
        }
        if k < s.len() {
            assert(t[k - 1] == s[k]);
        }
        lemma_leading_ws(t, k - 1);
    }
}

pub proof fn lemma_trailing_ws(s: Seq<char>, k: int)
    requires
        0 <= k <= s.len(),
        forall|j: int| s.len() - k <= j < s.len() ==> is_unicode_whitespace(#[trigger] s[j]),
        k == s.len() || !is_unicode_whitespace(s[s.len() - k - 1]),
    ensures
        trailing_ws(s) == k,
    decreases k,
{
    if k > 0 {
        let t = s.drop_last();
        assert forall|j: int| t.len() - (k - 1) <= j < t.len() implies is_unicode_whitespace(
            #[trigger] t[j],
        ) by {
            assert(t[j] == s[j]);
        }
        if k < s.len() {
            assert(t[t.len() - (k - 1) - 1] == s[s.len() - k - 1]);
        }
        lemma_trailing_ws(t, k - 1);
    }
}

/// Whitespace test of one character (`char::is_whitespace`).
pub fn is_whitespace_char(c: char) -> (b: bool)
    ensures
        b == is_unicode_whitespace(c),
{
    let v = c as u32;
    (0x09 <= v && v <= 0x0d) || v == 0x20 || v == 0x85 || v == 0xa0 || v == 0x1680 || (0x2000 <= v
        && v <= 0x200a) || v == 0x2028 || v == 0x2029 || v == 0x202f || v == 0x205f || v == 0x3000
}

/// ASCII digit test of one character.
pub fn is_digit_char(c: char) -> (b: bool)
    ensures
        b == is_digit(c),
{
    let v = c as u32;
    0x30 <= v && v <= 0x39
}

/// The characters of a string slice.
pub fn str_chars(s: &str) -> (v: Vec<char>)
    ensures
        v@ == s@,
{
    let mut v: Vec<char> = Vec::new();
    for c in it: s.chars()
        invariant
            v@ == it.seq().take(it.index() as int),
    {
        v.push(c);
    }
    proof {
        broadcast use vstd::string::group_string_axioms;
    }
    assert(v@ =~= s@);
    v
}

/// Bounds of the trimmed part of `s[lo..hi]`.
pub fn trim_range(s: &[char], lo: usize, hi: usize) -> (r: (usize, usize))
    requires
        lo <= hi <= s@.len(),
    ensures
        lo <= r.0 <= r.1 <= hi,
        s@.subrange(r.0 as int, r.1 as int) == trimmed(s@.subrange(lo as int, hi as int)),
{
    let ghost t = s@.subrange(lo as int, hi as int);
    let mut a = lo;
    while a < hi && is_whitespace_char(s[a])
        invariant
            lo <= a <= hi <= s@.len(),
            t == s@.subrange(lo as int, hi as int),
            forall|j: int| lo <= j < a ==> is_unicode_whitespace(#[trigger] s@[j]),
        decreases hi - a,
    {
        a = a + 1;
    }
    proof {
        assert forall|j: int| 0 <= j < a - lo implies is_unicode_whitespace(#[trigger] t[j]) by {
            assert(t[j] == s@[lo + j]);
        }
        if a < hi {
            assert(t[a - lo] == s@[a as int]);
        }
        lemma_leading_ws(t, a - lo);
    }
    let ghost t2 = s@.subrange(a as int, hi as int);
    assert(t2 =~= t.subrange(leading_ws(t) as int, t.len() as int));
    let mut b = hi;
    while b > a && is_whitespace_char(s[b - 1])
        invariant
            lo <= a <= b <= hi <= s@.len(),
            forall|j: int| b <= j < hi ==> is_unicode_whitespace(#[trigger] s@[j]),
        decreases b - a,
    {
        b = b - 1;
    }
    proof {
        assert forall|j: int| t2.len() - (hi - b) <= j < t2.len() implies is_unicode_whitespace(
            #[trigger] t2[j],
        ) by {
            assert(t2[j] == s@[a + j]);
        }
        if b > a {
            assert(t2[t2.len() - (hi - b) - 1] == s@[b - 1]);
        }
        lemma_trailing_ws(t2, hi - b);
        assert(s@.subrange(a as int, b as int) =~= t2.subrange(0, t2.len() - trailing_ws(t2)));
    }
    (a, b)
}

/// The text of a character sequence.
#[verifier::external_body]
pub(crate) fn chars_string(c: &[char]) -> (s: String)
    ensures
        s@ == c@,
{
    String::from_iter(c.iter())
}

/// First position of `c` in `s[lo..hi]`, as an index into `s`.
pub fn find_char(s: &[char], c: char, lo: usize, hi: usize) -> (r: Option<usize>)
    requires
        lo <= hi <= s@.len(),
    ensures
        match first_index_of(s@.subrange(lo as int, hi as int), c) {
            Some(i) => r == Some((lo + i) as usize),
            None => r is None,
        },
{
    let ghost t = s@.subrange(lo as int, hi as int);
    proof {
        lemma_first_index_of(t, c);
    }
    let mut i = lo;
    while i < hi
        invariant
            lo <= i <= hi <= s@.len(),
            t == s@.subrange(lo as int, hi as int),
            forall|j: int| lo <= j < i ==> s@[j] != c,
            match first_index_of(t, c) {
                Some(k) => 0 <= k < t.len() && t[k] == c && forall|j: int| 0 <= j < k ==> t[j] != c,
                None => forall|j: int| 0 <= j < t.len() ==> t[j] != c,
            },
        decreases hi - i,
    {
        if s[i] == c {
            proof {
                assert(t[i - lo] == c);
                match first_index_of(t, c) {
                    Some(k) => {
                        if k < i - lo {
                            assert(t[k] == s@[lo + k]);
                        }
                        if k > i - lo {
                            assert(t[i - lo] != c);
                        }
                    },
                    None => {},
                }
            }
            return Some(i);
        }
        i = i + 1;
    }
    proof {
        match first_index_of(t, c) {
            Some(k) => {
                assert(t[k] == s@[lo + k]);
            },
            None => {},
        }
    }
    None
}

/// Last position of `c` in `s[lo..hi]`, as an index into `s`.
pub fn rfind_char(s: &[char], c: char, lo: usize, hi: usize) -> (r: Option<usize>)
    requires
        lo <= hi <= s@.len(),
    ensures
        match last_index_of(s@.subrange(lo as int, hi as int), c) {
            Some(i) => r == Some((lo + i) as usize),
            None => r is None,
        },
{
    let ghost t = s@.subrange(lo as int, hi as int);
    proof {
        lemma_last_index_of(t, c);
    }
    let mut i = hi;
    while i > lo
        invariant
            lo <= i <= hi <= s@.len(),
            t == s@.subrange(lo as int, hi as int),
            forall|j: int| i <= j < hi ==> s@[j] != c,
            match last_index_of(t, c) {
                Some(k) => 0 <= k < t.len() && t[k] == c && forall|j: int| k < j < t.len() ==> t[j] != c,
                None => forall|j: int| 0 <= j < t.len() ==> t[j] != c,
            },
        decreases i - lo,
    {
        if s[i - 1] == c {
            proof {
                assert(t[i - 1 - lo] == c);
                match last_index_of(t, c) {
                    Some(k) => {
                        if k > i - 1 - lo {
                            assert(t[k] == s@[lo + k]);
                        }
                        if k < i - 1 - lo {
                            assert(t[i - 1 - lo] != c);
                        }
                    },
                    None => {},
                }
            }
            return Some(i - 1);
        }
        i = i - 1;
    }
    proof {
        match last_index_of(t, c) {
            Some(k) => {
                assert(t[k] == s@[lo + k]);
            },
            None => {},
        }
    }
    None
}

/// Why a text is not an unsigned integer (the cases of `ParseIntError`).
#[derive(Clone, Copy, Debug, PartialEq, Eq, Structural)]
pub enum IntErrorKind {
    /// The text is empty.
    Empty,
    /// The text holds a character that is not a digit.
    InvalidDigit,
    /// The value does not fit the target type.
    PosOverflow,
}

/// Message text of an integer parse failure.
pub open spec fn int_error_text(k: IntErrorKind) -> Seq<char> {
    match k {
        IntErrorKind::Empty => "cannot parse integer from empty string"@,
        IntErrorKind::InvalidDigit => "invalid digit found in string"@,
        IntErrorKind::PosOverflow => "number too large to fit in target type"@,
    }
}

/// Digits of `s` from position `i` on, read left to right onto `acc`: the
/// first non-digit or the first digit that makes the value exceed
/// `usize::MAX` ends the reading with that error.
pub open spec fn scan_digits(s: Seq<char>, i: int, acc: nat) -> Result<nat, IntErrorKind>
    decreases s.len() - i,
{
    if i < 0 || i >= s.len() {
        Ok(acc)
    } else if !is_digit(s[i]) {
        Err(IntErrorKind::InvalidDigit)
    } else if acc * 10 + digit_value(s[i]) > usize::MAX {
        Err(IntErrorKind::PosOverflow)
    } else {
        scan_digits(s, i + 1, (acc * 10 + digit_value(s[i])) as nat)
    }
}

/// `usize::from_str` on a text: an optional `+` and then decimal digits.
pub open spec fn usize_parse(s: Seq<char>) -> Result<nat, IntErrorKind> {
    if s.len() == 0 {
        Err(IntErrorKind::Empty)
    } else if s.len() == 1 && (s[0] == '+' || s[0] == '-') {
        Err(IntErrorKind::InvalidDigit)
    } else if s[0] == '+' {
        scan_digits(s, 1, 0)
    } else {
        scan_digits(s, 0, 0)
    }
}

pub proof fn lemma_scan_digits_bound(s: Seq<char>, i: int, acc: nat)
    requires
        acc <= usize::MAX,
    ensures
        scan_digits(s, i, acc) matches Ok(v) ==> v <= usize::MAX,
    decreases s.len() - i,
{
    if 0 <= i < s.len() && is_digit(s[i]) && acc * 10 + digit_value(s[i]) <= usize::MAX {
        lemma_scan_digits_bound(s, i + 1, (acc * 10 + digit_value(s[i])) as nat);
    }
}

impl IntErrorKind {
    /// The message text of this failure.
    pub fn text(&self) -> (t: &'static str)
        ensures
            t@ == int_error_text(*self),
    {
        match self {
            IntErrorKind::Empty => {
                let t = "cannot parse integer from empty string";
                proof {
                    reveal_strlit("cannot parse integer from empty string");
                }
                t
            },
            IntErrorKind::InvalidDigit => {
                let t = "invalid digit found in string";
                proof {
                    reveal_strlit("invalid digit found in string");
                }
                t
            },
            IntErrorKind::PosOverflow => {
                let t = "number too large to fit in target type";
                proof {
                    reveal_strlit("number too large to fit in target type");
                }
                t
            },
        }
    }
}

/// `usize::from_str` on `s[lo..hi]`.
pub fn parse_usize_range(s: &[char], lo: usize, hi: usize) -> (r: Result<usize, IntErrorKind>)
    requires
        lo <= hi <= s@.len(),
    ensures
        match usize_parse(s@.subrange(lo as int, hi as int)) {
            Ok(v) => r == Ok::<usize, IntErrorKind>(v as usize),
            Err(k) => r == Err::<usize, IntErrorKind>(k),
        },
{
    let ghost t = s@.subrange(lo as int, hi as int);
    if lo == hi {
        return Err(IntErrorKind::Empty);
    }
    if hi - lo == 1 && (s[lo] == '+' || s[lo] == '-') {
        return Err(IntErrorKind::InvalidDigit);
    }
    let mut i = if s[lo] == '+' {
        lo + 1
    } else {
        lo
    };
    let mut acc: usize = 0;
    while i < hi
        invariant
            lo <= i <= hi <= s@.len(),
            t == s@.subrange(lo as int, hi as int),
            usize_parse(t) == scan_digits(t, i - lo, acc as nat),
        decreases hi - i,
    {
        let c = s[i];
        assert(t[i - lo] == c);
        if !is_digit_char(c) {
            return Err(IntErrorKind::InvalidDigit);
        }
        let d = (c as u32 - 0x30) as usize;
        assert(d == digit_value(c));
        match acc.checked_mul(10) {
            None => {
                return Err(IntErrorKind::PosOverflow);
            },
            Some(m) => match m.checked_add(d) {
                None => {
                    return Err(IntErrorKind::PosOverflow);
                },
                Some(v) => {
                    acc = v;
                },
            },
        }
        i = i + 1;
    }
    Ok(acc)
}

/// Decimal digits of a natural number, most significant first.
pub open spec fn decimal(n: nat) -> Seq<char>
    decreases n,
{
    if n < 10 {
        seq![(0x30 + n) as char]
    } else {
        decimal(n / 10) + seq![(0x30 + n % 10) as char]
    }
}

/// Decimal text of `n`.
pub fn decimal_text(n: usize) -> (t: String)
    ensures
        t@ == decimal(n as nat),
{
    let mut digits: Vec<char> = Vec::new();
    let mut m = n;
    while m >= 10
        invariant
            decimal(n as nat) == decimal(m as nat) + digits@,
        decreases m,
    {
        let d = (m % 10) as u32;
        let c = char_of_digit(d);
        let ghost old_digits = digits@;
        digits.insert(0, c);
        assert(decimal(m as nat) == decimal((m / 10) as nat) + seq![c]);
        assert(digits@ =~= seq![c] + old_digits);
        assert(decimal((m / 10) as nat) + digits@ =~= decimal(m as nat) + old_digits);
        m = m / 10;
    }
    let c = char_of_digit(m as u32);
    let ghost old_digits = digits@;
    digits.insert(0, c);
    assert(digits@ =~= decimal(m as nat) + old_digits);
    chars_string(digits.as_slice())
}

/// ASCII upper-casing of one character.
pub fn upper_char(c: char) -> (u: char)
    ensures
        u == ascii_upper(c),
{
    let v = c as u32;
    if 0x61 <= v && v <= 0x7a {
        ((v - 0x20) as u8) as char
    } else {
        c
    }
}

/// ASCII lower-casing of one character.
pub fn lower_char(c: char) -> (u: char)
    ensures
        u == ascii_lower(c),
{
    let v = c as u32;
    if 0x41 <= v && v <= 0x5a {
        ((v + 0x20) as u8) as char
    } else {
        c
    }
}

/// ASCII upper-casing of `s[lo..hi]`.
pub fn upper_chars(s: &[char], lo: usize, hi: usize) -> (u: Vec<char>)
    requires
        lo <= hi <= s@.len(),
    ensures
        u@ == upper_text(s@.subrange(lo as int, hi as int)),
{
    let mut u: Vec<char> = Vec::new();
    let mut i = lo;
    while i < hi
        invariant
            lo <= i <= hi <= s@.len(),
            u@ =~= upper_text(s@.subrange(lo as int, i as int)),
        decreases hi - i,
    {
        u.push(upper_char(s[i]));
        i = i + 1;
    }
    u
}

/// Whether `p` occurs in `s` at position `i`.
pub fn occurs_at_exec(s: &[char], p: &[char], i: usize) -> (b: bool)
    ensures
        b == occurs_at(s@, p@, i as int),
{
    if i > s.len() || p.len() > s.len() - i {
        return false;
    }
    let n = s.len();
    let mut k: usize = 0;
    while k < p.len()
        invariant
            n == s@.len(),
            i + p@.len() <= s@.len(),
            0 <= k <= p@.len(),
            forall|j: int| 0 <= j < k ==> s@[i + j] == p@[j],
        decreases p@.len() - k,
    {
        if s[i + k] != p[k] {
            assert(s@.subrange(i as int, i + p@.len())[k as int] != p@[k as int]);
            return false;
        }
        k = k + 1;
    }
    assert(s@.subrange(i as int, i + p@.len()) =~= p@);
    true
}

/// Whether `p` is a prefix of `s`.
pub fn has_prefix_exec(s: &[char], p: &[char]) -> (b: bool)
    ensures
        b == has_prefix(s@, p@),
{
    occurs_at_exec(s, p, 0)
}

/// First position at or after `from` where `p` occurs in `s`.
pub fn find_from_exec(s: &[char], p: &[char], from: usize) -> (r: Option<usize>)
    ensures
        match r {
            Some(k) => find_from(s@, p@, from as int) == Some(k as int),
            None => find_from(s@, p@, from as int) is None,
        },
{
    let n = s.len();
    let mut i = from;
    while i <= n && p.len() <= n - i
        invariant
            n == s@.len(),
            from <= i,
            find_from(s@, p@, from as int) == find_from(s@, p@, i as int),
        decreases s@.len() + 1 - i,
    {
        if occurs_at_exec(s, p, i) {
            return Some(i);
        }
        assert(p@.len() > 0) by {
            if p@.len() == 0 {
                assert(s@.subrange(i as int, i as int) =~= p@);
            }
        }
        i = i + 1;
    }
    None
}

/// The texts of a sequence of strings.
pub open spec fn texts_view(v: Seq<String>) -> Seq<Seq<char>> {
    v.map_values(|t: String| t@)
}

/// The pieces of `s` between occurrences of `sep`, each trimmed.
pub open spec fn trimmed_pieces(s: Seq<char>, sep: char) -> Seq<Seq<char>> {
    split_on(s, sep).map_values(|p: Seq<char>| trimmed(p))
}

/// The trimmed pieces of `s[lo..hi]` between occurrences of `sep`.
pub fn split_trimmed(s: &[char], lo: usize, hi: usize, sep: char) -> (v: Vec<String>)
    requires
        lo <= hi <= s@.len(),
    ensures
        texts_view(v@) == trimmed_pieces(s@.subrange(lo as int, hi as int), sep),
{
    let ghost whole = s@.subrange(lo as int, hi as int);
    let mut v: Vec<String> = Vec::new();
    let mut start = lo;
    loop
        invariant_except_break
            trimmed_pieces(whole, sep) == texts_view(v@) + trimmed_pieces(
                s@.subrange(start as int, hi as int),
                sep,
            ),
        invariant
            lo <= start <= hi <= s@.len(),
            whole == s@.subrange(lo as int, hi as int),
        ensures
            trimmed_pieces(whole, sep) == texts_view(v@),
        decreases hi - start,
    {
        let ghost t = s@.subrange(start as int, hi as int);
        let ghost v0 = texts_view(v@);
        let found = find_char(s, sep, start, hi);
        let end = match found {
            Some(k) => k,
            None => hi,
        };
        proof {
            lemma_first_index_of(t, sep);
        }
        let (a, b) = trim_range(s, start, end);
        let piece = chars_string(&s[a..b]);
        v.push(piece);
        proof {
            match found {
                Some(k) => {
                    let rest = s@.subrange(k + 1, hi as int);
                    assert(t.subrange(0, k - start) =~= s@.subrange(start as int, k as int));
                    assert(t.subrange(k - start + 1, t.len() as int) =~= rest);
                    assert(split_on(t, sep) == seq![s@.subrange(start as int, k as int)]
                        + split_on(rest, sep));
                    assert(trimmed_pieces(t, sep) =~= seq![trimmed(s@.subrange(start as int, k as int))]
                        + trimmed_pieces(rest, sep));
                    assert(texts_view(v@) =~= v0 + seq![trimmed(s@.subrange(start as int, k as int))]);
                },
                None => {
                    assert(split_on(t, sep) == seq![t]);
                    assert(trimmed_pieces(t, sep) =~= seq![trimmed(t)]);
                    assert(texts_view(v@) =~= v0 + seq![trimmed(t)]);
                },
            }
        }
        match found {
            None => {
                break ;
            },
            Some(k) => {
                start = k + 1;
            },
        }
    }
    v
}

/// The character of a decimal digit.
fn char_of_digit(d: u32) -> (c: char)
    requires
        d < 10,
    ensures
        c == (0x30 + d) as char,
{
    match d {
        0 => '0',
        1 => '1',
        2 => '2',
        3 => '3',
        4 => '4',
        5 => '5',
        6 => '6',
        7 => '7',
        8 => '8',
        _ => '9',
    }
}

} // verus!
