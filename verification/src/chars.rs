//! Character classes and string building.

use vstd::prelude::*;

verus! {

/// Whether `char::is_alphanumeric` holds of a character.
pub uninterp spec fn alphanumeric(c: char) -> bool;

/// The control codes.
pub open spec fn control(c: char) -> bool {
    c <= '\u{1f}' || ('\u{7f}' <= c && c <= '\u{9f}')
}

/// `char::is_alphanumeric`, by name.
#[verifier::external_body]
pub(crate) fn char_is_alphanumeric(c: char) -> (r: bool)
    ensures
        r == alphanumeric(c),
{
    c.is_alphanumeric()
}

/// `char::is_control`: whether the character is one of the control codes,
/// which are those below the space and those from delete on to U+009F.
#[verifier::external_body]
pub(crate) fn char_is_control(c: char) -> (r: bool)
    ensures
        r == control(c),
{
    c.is_control()
}

/// The characters with the Unicode property White_Space.
pub open spec fn whitespace(c: char) -> bool {
    ||| '\u{9}' <= c <= '\u{d}'
    ||| c == ' ' || c == '\u{85}' || c == '\u{a0}' || c == '\u{1680}'
    ||| '\u{2000}' <= c <= '\u{200a}'
    ||| c == '\u{2028}' || c == '\u{2029}' || c == '\u{202f}' || c == '\u{205f}' || c == '\u{3000}'
}

/// `char::is_whitespace`: whether the character has the Unicode property
/// White_Space, which is that of the characters listed.
#[verifier::external_body]
pub(crate) fn char_is_whitespace(c: char) -> (r: bool)
    ensures
        r == whitespace(c),
{
    c.is_whitespace()
}

/// The lower-case form of a character, by `char::to_lowercase`.
pub uninterp spec fn lower(c: char) -> Seq<char>;

/// `char::to_lowercase`, by name: one or more characters.
#[verifier::external_body]
pub(crate) fn char_lower(c: char) -> (v: Vec<char>)
    ensures
        v@ == lower(c),
        v.len() >= 1,
{
    c.to_lowercase().collect()
}

/// `String::push`: one more character at the end.
pub assume_specification[ String::push ](s: &mut String, c: char)
    ensures
        final(s)@ == old(s)@.push(c),
;

/// `String::push_str`: more characters at the end.
pub assume_specification[ String::push_str ](s: &mut String, t: &str)
    ensures
        final(s)@ == old(s)@ + t@,
;

/// What counts as part of a word.
pub open spec fn word_char(c: char) -> bool {
    alphanumeric(c) || c == '_'
}

/// A word is a run of letters, digits and underscores.
pub fn is_word_char(c: char) -> (r: bool)
    ensures
        r == word_char(c),
{
    char_is_alphanumeric(c) || c == '_'
}

/// The digit for a number below ten.
pub open spec fn digit(n: nat) -> char {
    if n == 0 { '0' } else if n == 1 { '1' } else if n == 2 { '2' } else if n == 3 { '3' }
    else if n == 4 { '4' } else if n == 5 { '5' } else if n == 6 { '6' } else if n == 7 { '7' }
    else if n == 8 { '8' } else { '9' }
}

/// A number in decimal.
pub open spec fn decimal(n: nat) -> Seq<char>
    decreases n,
{
    if n < 10 {
        seq![digit(n)]
    } else {
        decimal(n / 10).push(digit(n % 10))
    }
}

fn digit_char(n: usize) -> (c: char)
    requires
        n < 10,
    ensures
        c == digit(n as nat),
{
    match n {
        0 => '0',
        1 => '1',
        2 => '2',
        3 => '3',
        4 => '4',
        5 => '5',
        6 => '6',
        7 => '7',
        8 => '8',
        _ => '9',
    }
}

/// Writes a number in decimal.
pub fn decimal_string(n: usize) -> (s: String)
    ensures
        s@ == decimal(n as nat),
    decreases n,
{
    let mut s = if n < 10 { String::new() } else { decimal_string(n / 10) };
    s.push(digit_char(n % 10));
    assert(n < 10 ==> s@ =~= seq![digit(n as nat)]);
    s
}

/// The value that a run of decimal digits up to `n` stands for.
pub open spec fn decimal_value(s: Seq<char>, n: int) -> nat
    decreases n,
{
    if n <= 0 || n > s.len() {
        0
    } else {
        decimal_value(s, n - 1) * 10 + digit_value(s[n - 1])
    }
}

/// The value of a digit.
pub open spec fn digit_value(c: char) -> nat {
    if c == '1' { 1 } else if c == '2' { 2 } else if c == '3' { 3 } else if c == '4' { 4 }
    else if c == '5' { 5 } else if c == '6' { 6 } else if c == '7' { 7 } else if c == '8' { 8 }
    else if c == '9' { 9 } else { 0 }
}

/// Whether a character is a decimal digit.
pub open spec fn is_digit(c: char) -> bool {
    '0' <= c <= '9'
}

pub fn digit_of(c: char) -> (r: Option<usize>)
    ensures
        r is Some <==> is_digit(c),
        r is Some ==> r->0 == digit_value(c) && r->0 < 10,
{
    match c {
        '0' => Some(0),
        '1' => Some(1),
        '2' => Some(2),
        '3' => Some(3),
        '4' => Some(4),
        '5' => Some(5),
        '6' => Some(6),
        '7' => Some(7),
        '8' => Some(8),
        '9' => Some(9),
        _ => None,
    }
}

/// Reading back a number that was written gives the number.
pub proof fn decimal_reads_back(n: nat)
    ensures
        decimal_value(decimal(n), decimal(n).len() as int) == n,
        decimal(n).len() > 0,
        forall|i: int| 0 <= i < decimal(n).len() ==> is_digit(#[trigger] decimal(n)[i]),
    decreases n,
{
    let d = decimal(n);
    if n >= 10 {
        decimal_reads_back(n / 10);
        let p = decimal(n / 10);
        assert(d =~= p.push(digit(n % 10)));
        lemma_decimal_value_prefix(p, d, p.len() as int);
        assert forall|i: int| 0 <= i < d.len() implies is_digit(#[trigger] d[i]) by {
            if i < p.len() {
                assert(d[i] == p[i]);
            }
        }
    } else {
        reveal_with_fuel(decimal_value, 2);
    }
}

proof fn lemma_decimal_value_prefix(a: Seq<char>, b: Seq<char>, n: int)
    requires
        0 <= n <= a.len() <= b.len(),
        forall|i: int| 0 <= i < n ==> a[i] == b[i],
    ensures
        decimal_value(a, n) == decimal_value(b, n),
    decreases n,
{
    if n > 0 {
        lemma_decimal_value_prefix(a, b, n - 1);
    }
}

/// The characters of `s` from `a` up to `b`.
pub fn substring(s: &str, a: usize, b: usize) -> (r: String)
    requires
        a <= b <= s@.len(),
    ensures
        r@ == s@.subrange(a as int, b as int),
{
    s.substring_char(a, b).to_owned()
}

/// Where the white space at the start of `s`, from `i` on, ends.
pub open spec fn past_space(s: Seq<char>, i: int) -> int
    decreases s.len() - i,
{
    if 0 <= i < s.len() && whitespace(s[i]) {
        past_space(s, i + 1)
    } else {
        i
    }
}

/// Where the white space at the end of `s`, before `i`, starts; not before
/// `low`.
pub open spec fn before_space(s: Seq<char>, low: int, i: int) -> int
    decreases i,
{
    if low < i <= s.len() && 0 <= low && whitespace(s[i - 1]) {
        before_space(s, low, i - 1)
    } else {
        i
    }
}

/// `s` without white space around it.
pub open spec fn trimmed(s: Seq<char>) -> Seq<char> {
    let a = past_space(s, 0);
    s.subrange(a, before_space(s, a, s.len() as int))
}

/// The text without white space around it.
pub fn trim(s: &str) -> (r: String)
    ensures
        r@ == trimmed(s@),
{
    let n: usize = s.unicode_len();
    let mut a: usize = 0;
    while a < n && char_is_whitespace(s.get_char(a))
        invariant
            a <= n,
            n == s@.len(),
            past_space(s@, 0) == past_space(s@, a as int),
        decreases n - a,
    {
        a = a + 1;
    }
    let mut b: usize = n;
    while b > a && char_is_whitespace(s.get_char(b - 1))
        invariant
            a <= b <= n,
            n == s@.len(),
            before_space(s@, a as int, n as int) == before_space(s@, a as int, b as int),
        decreases b,
    {
        b = b - 1;
    }
    substring(s, a, b)
}

/// Whether two strings hold the same characters.
pub fn same_text(a: &str, b: &str) -> (r: bool)
    ensures
        r == (a@ == b@),
{
    let n: usize = a.unicode_len();
    if n != b.unicode_len() {
        return false;
    }
    let mut i: usize = 0;
    while i < n
        invariant
            i <= n,
            n == a@.len(),
            n == b@.len(),
            forall|j: int| 0 <= j < i ==> a@[j] == b@[j],
        decreases n - i,
    {
        if a.get_char(i) != b.get_char(i) {
            return false;
        }
        i = i + 1;
    }
    assert(a@ =~= b@);
    true
}

// ---------------------------------------------------------------------
// Laws
// ---------------------------------------------------------------------

/// Trimming takes the white space around a text and nothing else.
pub proof fn trimming_takes_the_space_around(a: Seq<char>, x: Seq<char>, b: Seq<char>)
    requires
        forall|i: int| 0 <= i < a.len() ==> whitespace(#[trigger] a[i]),
        forall|i: int| 0 <= i < b.len() ==> whitespace(#[trigger] b[i]),
        x.len() > 0 ==> !whitespace(x[0]) && !whitespace(x.last()),
    ensures
        trimmed(a + x + b) == x,
{
    let s = a + x + b;
    if x.len() > 0 {
        assert forall|i: int| 0 <= i < a.len() implies whitespace(#[trigger] s[i]) by {
            assert(s[i] == a[i]);
        }
        lemma_past_space(s, 0, a.len() as int);
        let e = a.len() + x.len();
        assert forall|i: int| e <= i < s.len() implies whitespace(#[trigger] s[i]) by {
            assert(s[i] == b[i - e]);
        }
        assert(s[e - 1] == x.last());
        lemma_before_space(s, a.len() as int, s.len() as int, e as int);
        assert(s.subrange(a.len() as int, e as int) =~= x);
    } else {
        assert forall|i: int| 0 <= i < s.len() implies whitespace(#[trigger] s[i]) by {
            if i < a.len() {
                assert(s[i] == a[i]);
            } else {
                assert(s[i] == b[i - a.len()]);
            }
        }
        lemma_past_space(s, 0, s.len() as int);
        assert(s.subrange(s.len() as int, s.len() as int) =~= x);
    }
}

proof fn lemma_past_space(s: Seq<char>, i: int, n: int)
    requires
        0 <= i <= n <= s.len(),
        forall|k: int| i <= k < n ==> whitespace(#[trigger] s[k]),
        n < s.len() ==> !whitespace(s[n]),
    ensures
        past_space(s, i) == n,
    decreases n - i,
{
    if i < n {
        assert(whitespace(s[i]));
        lemma_past_space(s, i + 1, n);
    }
}

proof fn lemma_before_space(s: Seq<char>, low: int, i: int, n: int)
    requires
        0 <= low < n <= i <= s.len(),
        forall|k: int| n <= k < i ==> whitespace(#[trigger] s[k]),
        !whitespace(s[n - 1]),
    ensures
        before_space(s, low, i) == n,
    decreases i - n,
{
    if n < i {
        assert(whitespace(s[i - 1]));
        lemma_before_space(s, low, i - 1, n);
    }
}

proof fn lemma_past_space_stops(s: Seq<char>, i: int, p: int)
    requires
        0 <= i <= p < s.len(),
        !whitespace(s[p]),
    ensures
        i <= past_space(s, i) <= p,
    decreases p - i,
{
    if i < p && whitespace(s[i]) {
        lemma_past_space_stops(s, i + 1, p);
    }
}

proof fn lemma_before_space_stops(s: Seq<char>, low: int, i: int, p: int)
    requires
        0 <= low <= p < i <= s.len(),
        !whitespace(s[p]),
    ensures
        p < before_space(s, low, i) <= i,
    decreases i - p,
{
    if i - 1 > p && whitespace(s[i - 1]) {
        lemma_before_space_stops(s, low, i - 1, p);
    }
}

/// A text is blank, and nothing is left of it when trimmed, if it holds
/// nothing but white space.
pub proof fn only_blank_texts_vanish(s: Seq<char>)
    ensures
        trimmed(s).len() == 0 <==> forall|i: int| 0 <= i < s.len() ==> whitespace(#[trigger] s[i]),
{
    if forall|i: int| 0 <= i < s.len() ==> whitespace(#[trigger] s[i]) {
        let none = Seq::<char>::empty();
        trimming_takes_the_space_around(s, none, none);
        assert(s + none + none =~= s);
    } else {
        let p = choose|i: int| 0 <= i < s.len() && !whitespace(#[trigger] s[i]);
        lemma_past_space_stops(s, 0, p);
        lemma_before_space_stops(s, past_space(s, 0), s.len() as int, p);
    }
}

} // verus!
