use vstd::prelude::*;

verus! {

/// An ASCII decimal digit, as `char::is_ascii_digit` decides it.
pub open spec fn is_digit(c: char) -> bool {
    '0' <= c && c <= '9'
}

/// A character with the Unicode `White_Space` property, as `char::is_whitespace` decides it.
pub open spec fn is_whitespace(c: char) -> bool {
    ||| ('\u{9}' <= c && c <= '\u{d}')
    ||| c == ' '
    ||| c == '\u{85}'
    ||| c == '\u{a0}'
    ||| c == '\u{1680}'
    ||| ('\u{2000}' <= c && c <= '\u{200a}')
    ||| c == '\u{2028}'
    ||| c == '\u{2029}'
    ||| c == '\u{202f}'
    ||| c == '\u{205f}'
    ||| c == '\u{3000}'
}

pub open spec fn digit_pred() -> spec_fn(char) -> bool {
    |c: char| is_digit(c)
}

pub open spec fn whitespace_pred() -> spec_fn(char) -> bool {
    |c: char| is_whitespace(c)
}

pub open spec fn eq_pred(x: char) -> spec_fn(char) -> bool {
    |c: char| c == x
}

/// Index of the first character of `s` that satisfies `p`.
pub open spec fn position(s: Seq<char>, p: spec_fn(char) -> bool) -> Option<int>
    decreases s.len(),
{
    if s.len() == 0 {
        None
    } else if p(s[0]) {
        Some(0)
    } else {
        match position(s.drop_first(), p) {
            Some(i) => Some(i + 1),
            None => None,
        }
    }
}

/// Length of the longest prefix of `s` whose characters all satisfy `p`.
pub open spec fn span(s: Seq<char>, p: spec_fn(char) -> bool) -> nat
    decreases s.len(),
{
    if s.len() > 0 && p(s[0]) {
        1 + span(s.drop_first(), p)
    } else {
        0
    }
}

/// Length of the longest suffix of `s` whose characters all satisfy `p`.
pub open spec fn span_back(s: Seq<char>, p: spec_fn(char) -> bool) -> nat
    decreases s.len(),
{
    if s.len() > 0 && p(s.last()) {
        1 + span_back(s.drop_last(), p)
    } else {
        0
    }
}

/// `s` without leading whitespace (`str::trim_start`).
pub open spec fn trim_start(s: Seq<char>) -> Seq<char> {
    s.skip(span(s, whitespace_pred()) as int)
}

/// `s` without trailing whitespace (`str::trim_end`).
pub open spec fn trim_end(s: Seq<char>) -> Seq<char> {
    s.take(s.len() - span_back(s, whitespace_pred()))
}

/// `s` without leading and trailing whitespace (`str::trim`).
pub open spec fn trim(s: Seq<char>) -> Seq<char> {
    trim_end(trim_start(s))
}

/// `str::split_once` with a character pattern: the text before and after the
/// first occurrence of `c`.
pub open spec fn split_once(s: Seq<char>, c: char) -> Option<(Seq<char>, Seq<char>)> {
    match position(s, eq_pred(c)) {
        Some(i) => Some((s.take(i), s.skip(i + 1))),
        None => None,
    }
}

/// Number of occurrences of `c` in `s`.
pub open spec fn count_char(s: Seq<char>, c: char) -> nat
    decreases s.len(),
{
    if s.len() == 0 {
        0
    } else {
        count_char(s.drop_last(), c) + if s.last() == c { 1nat } else { 0nat }
    }
}

pub open spec fn digit_value(c: char) -> nat {
    (c as int - '0' as int) as nat
}

pub open spec fn all_digits(d: Seq<char>) -> bool {
    forall|i: int| 0 <= i < d.len() ==> is_digit(#[trigger] d[i])
}

/// The number that the decimal digits `d` denote.
pub open spec fn digits_value(d: Seq<char>) -> nat
    decreases d.len(),
{
    if d.len() == 0 {
        0
    } else {
        digits_value(d.drop_last()) * 10 + digit_value(d.last())
    }
}

/// What `str::parse` gives for an unsigned integer type whose largest value is
/// `max`: an optional `+` sign followed by at least one ASCII digit, and a value
/// that fits.
pub open spec fn parse_unsigned(s: Seq<char>, max: nat) -> Option<nat> {
    let d = if s.len() > 0 && s[0] == '+' { s.drop_first() } else { s };
    if d.len() > 0 && all_digits(d) && digits_value(d) <= max {
        Some(digits_value(d))
    } else {
        None
    }
}

pub open spec fn digit_char(d: nat) -> char {
    (d + '0' as nat) as char
}

/// The decimal notation of `n`, without leading zeros (as `Display` writes it).
pub open spec fn decimal(n: nat) -> Seq<char>
    decreases n,
{
    if n < 10 {
        seq![digit_char(n)]
    } else {
        decimal(n / 10).push(digit_char(n % 10))
    }
}

/// Strict lexicographic order on character sequences; it orders strings as
/// `Ord for str` does (byte order of UTF-8 is code point order).
pub open spec fn lex_lt(a: Seq<char>, b: Seq<char>) -> bool
    decreases a.len(),
{
    if a.len() == 0 {
        b.len() > 0
    } else if b.len() == 0 {
        false
    } else if a[0] < b[0] {
        true
    } else if a[0] > b[0] {
        false
    } else {
        lex_lt(a.drop_first(), b.drop_first())
    }
}

// ---------------------------------------------------------------- lemmas

pub proof fn lemma_position(s: Seq<char>, p: spec_fn(char) -> bool, i: int)
    requires
        0 <= i <= s.len(),
        forall|j: int| 0 <= j < i ==> !p(#[trigger] s[j]),
        i == s.len() || p(s[i]),
    ensures
        position(s, p) == if i == s.len() { None::<int> } else { Some(i) },
    decreases s.len(),
{
    if s.len() > 0 && i > 0 {
        assert(!p(s[0]));
        assert forall|j: int| 0 <= j < i - 1 implies !p(#[trigger] s.drop_first()[j]) by {
            assert(s.drop_first()[j] == s[j + 1]);
        }
        lemma_position(s.drop_first(), p, i - 1);
    }
}

pub proof fn lemma_position_facts(s: Seq<char>, p: spec_fn(char) -> bool)
    ensures
        match position(s, p) {
            Some(i) => 0 <= i < s.len() && p(s[i]) && forall|j: int| 0 <= j < i ==> !p(#[trigger] s[j]),
            None => forall|j: int| 0 <= j < s.len() ==> !p(#[trigger] s[j]),
        },
    decreases s.len(),
{
    if s.len() > 0 {
        lemma_position_facts(s.drop_first(), p);
        if !p(s[0]) {
            assert forall|j: int| 0 < j < s.len() implies s[j] == #[trigger] s.drop_first()[j - 1] by {}
            match position(s.drop_first(), p) {
                Some(i) => {
                    assert forall|j: int| 0 <= j < i + 1 implies !p(#[trigger] s[j]) by {
                        if j > 0 {
                            assert(s[j] == s.drop_first()[j - 1]);
                        }
                    }
                },
                None => {
                    assert forall|j: int| 0 <= j < s.len() implies !p(#[trigger] s[j]) by {
                        if j > 0 {
                            assert(s[j] == s.drop_first()[j - 1]);
                        }
                    }
                },
            }
        }
    }
}

pub proof fn lemma_span(s: Seq<char>, p: spec_fn(char) -> bool, k: int)
    requires
        0 <= k <= s.len(),
        forall|j: int| 0 <= j < k ==> p(#[trigger] s[j]),
        k == s.len() || !p(s[k]),
    ensures
        span(s, p) == k,
    decreases s.len(),
{
    if s.len() > 0 && k > 0 {
        assert forall|j: int| 0 <= j < k - 1 implies p(#[trigger] s.drop_first()[j]) by {
            assert(s.drop_first()[j] == s[j + 1]);
        }
        lemma_span(s.drop_first(), p, k - 1);
    }
}

pub proof fn lemma_span_facts(s: Seq<char>, p: spec_fn(char) -> bool)
    ensures
        span(s, p) <= s.len(),
        forall|j: int| 0 <= j < span(s, p) ==> p(#[trigger] s[j]),
        span(s, p) == s.len() || !p(s[span(s, p) as int]),
    decreases s.len(),
{
    if s.len() > 0 && p(s[0]) {
        lemma_span_facts(s.drop_first(), p);
        assert forall|j: int| 0 <= j < span(s, p) implies p(#[trigger] s[j]) by {
            if j > 0 {
                assert(s[j] == s.drop_first()[j - 1]);
            }
        }
        if span(s, p) < s.len() {
            assert(s[span(s, p) as int] == s.drop_first()[span(s.drop_first(), p) as int]);
        }
    }
}

/// Trimming never lengthens a text.
pub proof fn lemma_trim_len(s: Seq<char>)
    ensures
        trim(s).len() <= s.len(),
{
    lemma_span_facts(s, whitespace_pred());
    lemma_span_back_le(trim_start(s), whitespace_pred());
}

proof fn lemma_span_back_le(s: Seq<char>, p: spec_fn(char) -> bool)
    ensures
        span_back(s, p) <= s.len(),
    decreases s.len(),
{
    if s.len() > 0 {
        lemma_span_back_le(s.drop_last(), p);
    }
}

pub proof fn lemma_span_back(s: Seq<char>, p: spec_fn(char) -> bool, k: int)
    requires
        0 <= k <= s.len(),
        forall|j: int| s.len() - k <= j < s.len() ==> p(#[trigger] s[j]),
        k == s.len() || !p(s[s.len() - 1 - k]),
    ensures
        span_back(s, p) == k,
    decreases s.len(),
{
    if s.len() > 0 && k > 0 {
        assert(p(s.last()));
        assert forall|j: int| s.len() - 1 - (k - 1) <= j < s.len() - 1 implies p(
            #[trigger] s.drop_last()[j],
        ) by {
            assert(s.drop_last()[j] == s[j]);
        }
        if k < s.len() {
            assert(s.drop_last()[s.len() - 1 - 1 - (k - 1)] == s[s.len() - 1 - k]);
        }
        lemma_span_back(s.drop_last(), p, k - 1);
    }
}

// ---------------------------------------------------------------- exec helpers

/// The characters of `s`, in order.
pub fn to_chars(s: &str) -> (res: Vec<char>)
    ensures
        res@ == s@,
{
    let mut res: Vec<char> = Vec::new();
    for c in it: s.chars()
        invariant
            res@ == it.seq().take(it.index() as int),
            it.seq() == s@,
    {
        res.push(c);
    }
    res
}

pub fn is_ascii_digit(c: char) -> (b: bool)
    ensures
        b == is_digit(c),
{
    '0' <= c && c <= '9'
}

pub fn is_unicode_whitespace(c: char) -> (b: bool)
    ensures
        b == is_whitespace(c),
{
    ('\u{9}' <= c && c <= '\u{d}') || c == ' ' || c == '\u{85}' || c == '\u{a0}' || c == '\u{1680}'
        || ('\u{2000}' <= c && c <= '\u{200a}') || c == '\u{2028}' || c == '\u{2029}' || c
        == '\u{202f}' || c == '\u{205f}' || c == '\u{3000}'
}

/// Index of the first `c` in `s[lo..hi]`, counted from the start of `s`.
pub fn find_char_in(s: &Vec<char>, lo: usize, hi: usize, c: char) -> (res: Option<usize>)
    requires
        lo <= hi <= s.len(),
    ensures
        match position(s@.subrange(lo as int, hi as int), eq_pred(c)) {
            Some(i) => res is Some && res->0 == lo + i,
            None => res is None,
        },
        match res {
            Some(j) => lo <= j < hi && s@[j as int] == c && forall|k: int|
                lo <= k < j ==> #[trigger] s@[k] != c,
            None => forall|k: int| lo <= k < hi ==> #[trigger] s@[k] != c,
        },
{
    let ghost sub = s@.subrange(lo as int, hi as int);
    let mut j: usize = lo;
    while j < hi
        invariant
            lo <= j <= hi <= s.len(),
            sub == s@.subrange(lo as int, hi as int),
            forall|k: int| 0 <= k < j - lo ==> !eq_pred(c)(#[trigger] sub[k]),
            forall|k: int| lo <= k < j ==> #[trigger] s@[k] != c,
        decreases hi - j,
    {
        if s[j] == c {
            proof {
                lemma_position(sub, eq_pred(c), j - lo);
            }
            return Some(j);
        }
        j = j + 1;
    }
    proof {
        lemma_position(sub, eq_pred(c), j - lo);
    }
    None
}

/// End of the run of ASCII digits that starts at `lo`.
pub fn digits_end(s: &Vec<char>, lo: usize, hi: usize) -> (k: usize)
    requires
        lo <= hi <= s.len(),
    ensures
        lo <= k <= hi,
        k - lo == span(s@.subrange(lo as int, hi as int), digit_pred()),
        forall|i: int| lo <= i < k ==> is_digit(#[trigger] s@[i]),
        k == hi || !is_digit(s@[k as int]),
{
    let ghost sub = s@.subrange(lo as int, hi as int);
    let mut j: usize = lo;
    while j < hi && is_ascii_digit(s[j])
        invariant
            lo <= j <= hi <= s.len(),
            sub == s@.subrange(lo as int, hi as int),
            forall|k: int| 0 <= k < j - lo ==> digit_pred()(#[trigger] sub[k]),
            forall|k: int| lo <= k < j ==> is_digit(#[trigger] s@[k]),
        decreases hi - j,
    {
        j = j + 1;
    }
    proof {
        lemma_span(sub, digit_pred(), j - lo);
    }
    j
}

/// Index of the first ASCII digit in `s[lo..hi]`, counted from the start of `s`.
pub fn find_digit_in(s: &Vec<char>, lo: usize, hi: usize) -> (res: Option<usize>)
    requires
        lo <= hi <= s.len(),
    ensures
        match position(s@.subrange(lo as int, hi as int), digit_pred()) {
            Some(i) => res is Some && res->0 == lo + i,
            None => res is None,
        },
        match res {
            Some(j) => lo <= j < hi && is_digit(s@[j as int]) && forall|k: int|
                lo <= k < j ==> !is_digit(#[trigger] s@[k]),
            None => forall|k: int| lo <= k < hi ==> !is_digit(#[trigger] s@[k]),
        },
{
    let ghost sub = s@.subrange(lo as int, hi as int);
    let mut j: usize = lo;
    while j < hi
        invariant
            lo <= j <= hi <= s.len(),
            sub == s@.subrange(lo as int, hi as int),
            forall|k: int| 0 <= k < j - lo ==> !digit_pred()(#[trigger] sub[k]),
            forall|k: int| lo <= k < j ==> !is_digit(#[trigger] s@[k]),
        decreases hi - j,
    {
        if is_ascii_digit(s[j]) {
            proof {
                lemma_position(sub, digit_pred(), j - lo);
            }
            return Some(j);
        }
        j = j + 1;
    }
    proof {
        lemma_position(sub, digit_pred(), j - lo);
    }
    None
}

/// Bounds of `s[lo..hi]` with surrounding whitespace removed.
pub fn trim_bounds(s: &Vec<char>, lo: usize, hi: usize) -> (res: (usize, usize))
    requires
        lo <= hi <= s.len(),
    ensures
        lo <= res.0 <= res.1 <= hi,
        s@.subrange(res.0 as int, res.1 as int) == trim(s@.subrange(lo as int, hi as int)),
{
    let ghost sub = s@.subrange(lo as int, hi as int);
    let mut a: usize = lo;
    while a < hi && is_unicode_whitespace(s[a])
        invariant
            lo <= a <= hi <= s.len(),
            sub == s@.subrange(lo as int, hi as int),
            forall|k: int| 0 <= k < a - lo ==> whitespace_pred()(#[trigger] sub[k]),
        decreases hi - a,
    {
        a = a + 1;
    }
    proof {
        lemma_span(sub, whitespace_pred(), a - lo);
    }
    let ghost t = s@.subrange(a as int, hi as int);
    assert(t == trim_start(sub));
    let mut b: usize = hi;
    while b > a && is_unicode_whitespace(s[b - 1])
        invariant
            lo <= a <= b <= hi <= s.len(),
            t == s@.subrange(a as int, hi as int),
            forall|k: int| b - a <= k < t.len() ==> whitespace_pred()(#[trigger] t[k]),
        decreases b - a,
    {
        b = b - 1;
    }
    proof {
        lemma_span_back(t, whitespace_pred(), (hi - b) as int);
        assert(s@.subrange(a as int, b as int) == t.take(t.len() - span_back(t, whitespace_pred())));
    }
    (a, b)
}

/// Number of occurrences of `c` in `s[lo..hi]`.
pub fn count_char_in(s: &Vec<char>, lo: usize, hi: usize, c: char) -> (n: usize)
    requires
        lo <= hi <= s.len(),
    ensures
        n == count_char(s@.subrange(lo as int, hi as int), c),
{
    let ghost sub = s@.subrange(lo as int, hi as int);
    let mut n: usize = 0;
    let mut j: usize = lo;
    while j < hi
        invariant
            lo <= j <= hi <= s.len(),
            sub == s@.subrange(lo as int, hi as int),
            n == count_char(sub.take(j - lo), c),
            n <= j - lo,
        decreases hi - j,
    {
        assert(sub.take(j - lo + 1).drop_last() == sub.take(j - lo));
        if s[j] == c {
            n = n + 1;
        }
        j = j + 1;
    }
    assert(sub.take(hi - lo) == sub);
    n
}

pub proof fn lemma_digits_value_monotone(d: Seq<char>, i: int)
    requires
        0 <= i <= d.len(),
    ensures
        digits_value(d.take(i)) <= digits_value(d),
    decreases d.len() - i,
{
    if i < d.len() {
        lemma_digits_value_monotone(d, i + 1);
        assert(d.take(i + 1).drop_last() == d.take(i));
    } else {
        assert(d.take(i) == d);
    }
}

/// `str::parse` for an unsigned integer type whose largest value is `max`,
/// applied to `s[lo..hi]`.
pub fn parse_unsigned_in(s: &Vec<char>, lo: usize, hi: usize, max: u64) -> (res: Option<u64>)
    requires
        lo <= hi <= s.len(),
    ensures
        match parse_unsigned(s@.subrange(lo as int, hi as int), max as nat) {
            Some(v) => res == Some(v as u64),
            None => res is None,
        },
{
    let ghost sub = s@.subrange(lo as int, hi as int);
    let start: usize = if lo < hi && s[lo] == '+' { lo + 1 } else { lo };
    let ghost d = s@.subrange(start as int, hi as int);
    assert(d == if sub.len() > 0 && sub[0] == '+' { sub.drop_first() } else { sub });
    if start == hi {
        return None;
    }
    let mut v: u128 = 0;
    let mut j: usize = start;
    while j < hi
        invariant
            lo <= start <= j <= hi <= s.len(),
            d == s@.subrange(start as int, hi as int),
            sub == s@.subrange(lo as int, hi as int),
            d == if sub.len() > 0 && sub[0] == '+' { sub.drop_first() } else { sub },
            d.len() > 0,
            all_digits(d.take(j - start)),
            v == digits_value(d.take(j - start)),
            v <= max,
        decreases hi - j,
    {
        let c = s[j];
        if !is_ascii_digit(c) {
            assert(!is_digit(d[j - start]));
            return None;
        }
        assert(d.take(j - start + 1).drop_last() == d.take(j - start));
        let dv: u128 = (c as u32 - '0' as u32) as u128;
        assert(dv == digit_value(d[j - start]));
        v = v * 10 + dv;
        assert(v == digits_value(d.take(j - start + 1)));
        if v > max as u128 {
            proof {
                if all_digits(d) {
                    lemma_digits_value_monotone(d, j - start + 1);
                }
            }
            return None;
        }
        j = j + 1;
    }
    assert(d.take(hi - start) == d);
    Some(v as u64)
}

/// Appends `c` to `s` (`String::push`).
#[verifier::external_body]
pub(crate) fn push_char(s: &mut String, c: char)
    ensures
        final(s)@ == old(s)@.push(c),
{
    s.push(c)
}

/// The characters `s[lo..hi]` as a new `String`.
pub fn string_from_range(s: &Vec<char>, lo: usize, hi: usize) -> (res: String)
    requires
        lo <= hi <= s.len(),
    ensures
        res@ == s@.subrange(lo as int, hi as int),
{
    let mut res = String::new();
    let mut j: usize = lo;
    while j < hi
        invariant
            lo <= j <= hi <= s.len(),
            res@ == s@.subrange(lo as int, j as int),
        decreases hi - j,
    {
        push_char(&mut res, s[j]);
        j = j + 1;
    }
    res
}

/// Appends the decimal notation of `n` to `s`.
pub fn push_decimal(s: &mut String, n: usize)
    ensures
        final(s)@ == old(s)@ + decimal(n as nat),
    decreases n,
{
    if n >= 10 {
        push_decimal(s, n / 10);
    }
    let d: u8 = (n % 10) as u8;
    let c = (d + 48) as char;
    push_char(s, c);
}

pub proof fn lemma_lex_lt_irreflexive(a: Seq<char>)
    ensures
        !lex_lt(a, a),
    decreases a.len(),
{
    if a.len() > 0 {
        lemma_lex_lt_irreflexive(a.drop_first());
    }
}

pub proof fn lemma_lex_lt_total(a: Seq<char>, b: Seq<char>)
    ensures
        a == b || lex_lt(a, b) || lex_lt(b, a),
        !(lex_lt(a, b) && lex_lt(b, a)),
    decreases a.len(),
{
    if a.len() > 0 && b.len() > 0 {
        lemma_lex_lt_total(a.drop_first(), b.drop_first());
        if a[0] == b[0] && a.drop_first() == b.drop_first() {
            assert(a == seq![a[0]] + a.drop_first());
            assert(b == seq![b[0]] + b.drop_first());
        }
    } else if a.len() == 0 && b.len() == 0 {
        assert(a == b);
    }
}

pub proof fn lemma_lex_lt_transitive(a: Seq<char>, b: Seq<char>, c: Seq<char>)
    requires
        lex_lt(a, b),
        lex_lt(b, c),
    ensures
        lex_lt(a, c),
    decreases a.len(),
{
    if a.len() > 0 && b.len() > 0 && c.len() > 0 {
        if a[0] == b[0] && b[0] == c[0] {
            lemma_lex_lt_transitive(a.drop_first(), b.drop_first(), c.drop_first());
        }
    }
}

proof fn lemma_lex_lt_skip(a: Seq<char>, b: Seq<char>, i: int)
    requires
        0 <= i <= a.len(),
        i <= b.len(),
        forall|k: int| 0 <= k < i ==> a[k] == b[k],
    ensures
        lex_lt(a, b) == lex_lt(a.skip(i), b.skip(i)),
    decreases i,
{
    if i > 0 {
        assert forall|k: int| 0 <= k < i - 1 implies a.drop_first()[k] == b.drop_first()[k] by {
            assert(a[k + 1] == b[k + 1]);
        }
        lemma_lex_lt_skip(a.drop_first(), b.drop_first(), i - 1);
        assert(a.drop_first().skip(i - 1) == a.skip(i));
        assert(b.drop_first().skip(i - 1) == b.skip(i));
        assert(a[0] == b[0]);
    } else {
        assert(a.skip(0) == a);
        assert(b.skip(0) == b);
    }
}

/// Whether `a` comes strictly before `b` in lexicographic order.
pub fn lex_less(a: &Vec<char>, b: &Vec<char>) -> (r: bool)
    ensures
        r == lex_lt(a@, b@),
{
    let mut i: usize = 0;
    while i < a.len() && i < b.len() && a[i] == b[i]
        invariant
            i <= a.len(),
            i <= b.len(),
            forall|k: int| 0 <= k < i ==> a@[k] == b@[k],
        decreases a.len() - i,
    {
        i = i + 1;
    }
    proof {
        lemma_lex_lt_skip(a@, b@, i as int);
    }
    if i == a.len() {
        i < b.len()
    } else if i == b.len() {
        false
    } else {
        a[i] < b[i]
    }
}

/// Whether `a` and `b` hold the same characters.
pub fn chars_equal(a: &Vec<char>, b: &Vec<char>) -> (r: bool)
    ensures
        r == (a@ == b@),
{
    if a.len() != b.len() {
        return false;
    }
    let mut i: usize = 0;
    while i < a.len()
        invariant
            i <= a.len() == b.len(),
            forall|k: int| 0 <= k < i ==> a@[k] == b@[k],
        decreases a.len() - i,
    {
        if a[i] != b[i] {
            return false;
        }
        i = i + 1;
    }
    assert(a@ == b@);
    true
}

/// `str::parse` for an unsigned integer type whose largest value is `max`.
pub fn parse_unsigned_str(s: &str, max: u64) -> (res: Option<u64>)
    ensures
        match parse_unsigned(s@, max as nat) {
            Some(v) => res == Some(v as u64),
            None => res is None,
        },
{
    let cs = to_chars(s);
    assert(cs@.subrange(0, cs.len() as int) == cs@);
    parse_unsigned_in(&cs, 0, cs.len(), max)
}

/// The decimal notation of `n` is a non-empty run of digits that denotes `n`
/// and has no leading zero (but for 0 itself), so parsing it gives `n` back.
pub proof fn lemma_decimal_denotes(n: nat, max: nat)
    ensures
        decimal(n).len() >= 1,
        all_digits(decimal(n)),
        digits_value(decimal(n)) == n,
        n != 0 ==> decimal(n)[0] != '0',
        n == 0 ==> decimal(n) == seq!['0'],
        n <= max ==> parse_unsigned(decimal(n), max) == Some(n),
    decreases n,
{
    let d = decimal(n);
    if n < 10 {
        assert(d == seq![digit_char(n)]);
        assert(digit_char(n) as int == n + '0' as int);
        assert(d.drop_last() == Seq::<char>::empty());
        assert(digit_value(d.last()) == n);
        assert(digits_value(d) == digits_value(d.drop_last()) * 10 + digit_value(d.last()));
    } else {
        lemma_decimal_denotes(n / 10, max);
        let p = decimal(n / 10);
        let c = digit_char(n % 10);
        assert(d == p.push(c));
        assert(c as int == n % 10 + '0' as int);
        assert(d.drop_last() == p);
        assert(d.last() == c);
        assert(digit_value(c) == n % 10);
        assert(digits_value(d) == digits_value(p) * 10 + digit_value(c));
        assert((n / 10) * 10 + n % 10 == n);
        assert forall|i: int| 0 <= i < d.len() implies is_digit(#[trigger] d[i]) by {
            if i < p.len() {
                assert(d[i] == p[i]);
            }
        }
        assert(d[0] == p[0]);
    }
    if n <= max {
        assert(d[0] != '+') by {
            assert(is_digit(d[0]));
        }
    }
}

} // verus!
