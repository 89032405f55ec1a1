//! Text primitives: equality, substring search, ordering, and the decimal
//! integers that the RPC sends as strings.

use vstd::prelude::*;

verus! {

/// The characters of a string, in order.
pub fn chars_of(s: &str) -> (out: Vec<char>)
    ensures
        out@ == s@,
{
    let mut out: Vec<char> = Vec::new();
    for c in it: s.chars()
        invariant
            out@ == it.seq().take(it.index() as int),
            it.seq() == s@,
    {
        out.push(c);
    }
    out
}

/// Whether two strings hold the same characters.
pub fn text_eq(a: &str, b: &str) -> (same: bool)
    ensures
        same == (a@ == b@),
{
    let xs: Vec<char> = chars_of(a);
    let ys: Vec<char> = chars_of(b);
    if xs.len() != ys.len() {
        return false;
    }
    let mut i: usize = 0;
    while i < xs.len()
        invariant
            i <= xs@.len(),
            xs@.len() == ys@.len(),
            xs@.take(i as int) == ys@.take(i as int),
            xs@ == a@,
            ys@ == b@,
        decreases xs@.len() - i,
    {
        if xs[i] != ys[i] {
            assert(a@[i as int] != b@[i as int]);
            return false;
        }
        assert(xs@.take(i + 1) == xs@.take(i as int).push(xs@[i as int]));
        assert(ys@.take(i + 1) == ys@.take(i as int).push(ys@[i as int]));
        i += 1;
    }
    assert(xs@.take(i as int) == xs@);
    assert(ys@.take(i as int) == ys@);
    true
}

/// `needle` stands in `hay` at position `at`.
pub open spec fn occurs_at(hay: Seq<char>, needle: Seq<char>, at: int) -> bool {
    &&& 0 <= at
    &&& at + needle.len() <= hay.len()
    &&& hay.subrange(at, at + needle.len()) == needle
}

/// `needle` stands somewhere in `hay`.
pub open spec fn occurs(hay: Seq<char>, needle: Seq<char>) -> bool {
    exists|at: int| occurs_at(hay, needle, at)
}

/// Whether `needle` stands in `hay` at position `at`.
fn matches_at(hay: &Vec<char>, needle: &Vec<char>, at: usize) -> (found: bool)
    requires
        at + needle@.len() <= hay@.len(),
    ensures
        found == occurs_at(hay@, needle@, at as int),
{
    let ghost window = hay@.subrange(at as int, at + needle@.len());
    let mut i: usize = 0;
    while i < needle.len()
        invariant
            i <= needle@.len(),
            at + needle.len() <= hay.len(),
            window == hay@.subrange(at as int, at + needle@.len()),
            forall|j: int| 0 <= j < i ==> window[j] == needle@[j],
        decreases needle@.len() - i,
    {
        if hay[at + i] != needle[i] {
            assert(window[i as int] != needle@[i as int]);
            return false;
        }
        i += 1;
    }
    assert(window =~= needle@);
    true
}

/// Whether `needle` stands somewhere in `hay`.
fn search(hay: &Vec<char>, needle: &Vec<char>) -> (found: bool)
    ensures
        found == occurs(hay@, needle@),
{
    if needle.len() > hay.len() {
        return false;
    }
    let last: usize = hay.len() - needle.len();
    let mut at: usize = 0;
    loop
        invariant
            at <= last,
            last + needle@.len() == hay@.len(),
            forall|j: int| 0 <= j < at ==> !occurs_at(hay@, needle@, j),
        decreases last - at,
    {
        if matches_at(hay, needle, at) {
            assert(occurs_at(hay@, needle@, at as int));
            return true;
        }
        if at == last {
            return false;
        }
        at += 1;
    }
}

/// Substring search.
pub fn contains_text(hay: &str, needle: &str) -> (found: bool)
    ensures
        found == occurs(hay@, needle@),
{
    search(&chars_of(hay), &chars_of(needle))
}

/// A character, with the letters `A` to `Z` made small.
pub open spec fn small_letter(c: char) -> char {
    if 'A' <= c <= 'Z' {
        (c as u8 + 32) as u8 as char
    } else {
        c
    }
}

/// A text, with the letters `A` to `Z` made small.
pub open spec fn small_letters(s: Seq<char>) -> Seq<char> {
    Seq::new(s.len(), |i: int| small_letter(s[i]))
}

/// Substring search that takes capital letters for small ones.
pub fn contains_in_small_letters(hay: &str, needle: &str) -> (found: bool)
    ensures
        found == occurs(small_letters(hay@), needle@),
{
    let capital: Vec<char> = chars_of(hay);
    let mut small: Vec<char> = Vec::new();
    let mut i: usize = 0;
    while i < capital.len()
        invariant
            i <= capital@.len(),
            capital@ == hay@,
            small@ == small_letters(hay@).take(i as int),
        decreases capital@.len() - i,
    {
        let c: char = capital[i];
        let s: char = if 'A' <= c && c <= 'Z' {
            (c as u8 + 32) as char
        } else {
            c
        };
        small.push(s);
        assert(small@ =~= small_letters(hay@).take(i + 1));
        i += 1;
    }
    assert(small@ =~= small_letters(hay@));
    search(&small, &chars_of(needle))
}

/// Lexicographic order by code point; a proper prefix comes first.
pub open spec fn text_before(a: Seq<char>, b: Seq<char>) -> bool
    decreases a.len(),
{
    if b.len() == 0 {
        false
    } else if a.len() == 0 {
        true
    } else if a[0] != b[0] {
        a[0] < b[0]
    } else {
        text_before(a.drop_first(), b.drop_first())
    }
}

/// The order is irreflexive.
pub proof fn lemma_text_before_irreflexive(a: Seq<char>)
    ensures
        !text_before(a, a),
    decreases a.len(),
{
    if a.len() > 0 {
        lemma_text_before_irreflexive(a.drop_first());
    }
}

/// The order is transitive.
pub proof fn lemma_text_before_transitive(a: Seq<char>, b: Seq<char>, c: Seq<char>)
    requires
        text_before(a, b),
        text_before(b, c),
    ensures
        text_before(a, c),
    decreases a.len(),
{
    if a.len() > 0 && a[0] == b[0] && b[0] == c[0] {
        lemma_text_before_transitive(a.drop_first(), b.drop_first(), c.drop_first());
    }
}

/// Of two different strings one comes first.
pub proof fn lemma_text_before_total(a: Seq<char>, b: Seq<char>)
    ensures
        a == b || text_before(a, b) || text_before(b, a),
    decreases a.len(),
{
    if a.len() == 0 || b.len() == 0 {
        if a.len() == b.len() {
            assert(a =~= b);
        }
    } else if a[0] == b[0] {
        lemma_text_before_total(a.drop_first(), b.drop_first());
        if a.drop_first() == b.drop_first() {
            assert(a =~= seq![a[0]] + a.drop_first());
            assert(b =~= seq![b[0]] + b.drop_first());
        }
    }
}

/// Dropping a shared prefix does not change the order.
proof fn lemma_text_before_skip(a: Seq<char>, b: Seq<char>, n: int)
    requires
        0 <= n <= a.len(),
        n <= b.len(),
        a.take(n) == b.take(n),
    ensures
        text_before(a, b) == text_before(a.skip(n), b.skip(n)),
    decreases n,
{
    if n == 0 {
        assert(a.skip(0) =~= a);
        assert(b.skip(0) =~= b);
    } else {
        assert(a[0] == a.take(n)[0]);
        assert(b[0] == b.take(n)[0]);
        let a1 = a.drop_first();
        let b1 = b.drop_first();
        assert(a1.take(n - 1) =~= a.take(n).drop_first());
        assert(b1.take(n - 1) =~= b.take(n).drop_first());
        lemma_text_before_skip(a1, b1, n - 1);
        assert(a1.skip(n - 1) =~= a.skip(n));
        assert(b1.skip(n - 1) =~= b.skip(n));
    }
}

/// Whether `a` comes strictly before `b`.
pub fn is_before(a: &str, b: &str) -> (before: bool)
    ensures
        before == text_before(a@, b@),
{
    let xs: Vec<char> = chars_of(a);
    let ys: Vec<char> = chars_of(b);
    let mut i: usize = 0;
    while i < xs.len() && i < ys.len() && xs[i] == ys[i]
        invariant
            i <= xs@.len(),
            i <= ys@.len(),
            xs@.take(i as int) == ys@.take(i as int),
        decreases xs@.len() - i,
    {
        assert(xs@.take(i + 1) == xs@.take(i as int).push(xs@[i as int]));
        assert(ys@.take(i + 1) == ys@.take(i as int).push(ys@[i as int]));
        i += 1;
    }
    proof {
        lemma_text_before_skip(xs@, ys@, i as int);
    }
    if i == ys.len() {
        false
    } else if i == xs.len() {
        true
    } else {
        xs[i] < ys[i]
    }
}

/// The value of one decimal digit.
pub open spec fn is_digit(c: char) -> bool {
    '0' <= c && c <= '9'
}

/// The number that a run of decimal digits denotes.
pub open spec fn digits_value(s: Seq<char>) -> nat
    decreases s.len(),
{
    if s.len() == 0 {
        0
    } else {
        (10 * digits_value(s.drop_last()) + (s.last() as int - '0' as int)) as nat
    }
}

/// The digits of an integer literal: what follows an optional plus sign.
pub open spec fn unsigned_digits(s: Seq<char>) -> Seq<char> {
    if s.len() > 0 && s[0] == '+' {
        s.drop_first()
    } else {
        s
    }
}

/// The `u64` that `s` denotes: an optional plus sign, then one or more decimal
/// digits and nothing else, within range.
pub open spec fn u64_of_text(s: Seq<char>) -> Option<u64> {
    let digits = unsigned_digits(s);
    if digits.len() > 0 && (forall|i: int| 0 <= i < digits.len() ==> is_digit(digits[i]))
        && digits_value(digits) <= u64::MAX {
        Some(digits_value(digits) as u64)
    } else {
        None
    }
}

/// A longer run of digits denotes no smaller number.
proof fn lemma_digits_value_grows(s: Seq<char>, n: int)
    requires
        0 <= n <= s.len(),
        forall|i: int| 0 <= i < s.len() ==> is_digit(s[i]),
    ensures
        digits_value(s.take(n)) <= digits_value(s),
    decreases s.len() - n,
{
    if n == s.len() {
        assert(s.take(n) =~= s);
    } else {
        lemma_digits_value_grows(s, n + 1);
        assert(s.take(n + 1).drop_last() =~= s.take(n));
        assert(is_digit(s[n]));
    }
}

/// Parses an unsigned decimal integer.
pub fn parse_u64(s: &str) -> (value: Option<u64>)
    ensures
        value == u64_of_text(s@),
{
    let cs: Vec<char> = chars_of(s);
    let start: usize = if cs.len() > 0 && cs[0] == '+' { 1 } else { 0 };
    let ghost digits = unsigned_digits(s@);
    assert(digits =~= cs@.skip(start as int));
    if start == cs.len() {
        return None;
    }
    let mut value: u64 = 0;
    let mut i: usize = start;
    while i < cs.len()
        invariant
            start <= i <= cs@.len(),
            digits == unsigned_digits(s@),
            digits == cs@.skip(start as int),
            forall|j: int| 0 <= j < i - start ==> is_digit(digits[j]),
            value == digits_value(digits.take(i - start)),
        decreases cs@.len() - i,
    {
        let c: char = cs[i];
        assert(c == digits[i - start]);
        if c < '0' || c > '9' {
            assert(!is_digit(digits[i - start]));
            return None;
        }
        assert(digits.take(i - start + 1).drop_last() =~= digits.take(i - start));
        let digit: u64 = (c as u32 - '0' as u32) as u64;
        let wide: u128 = value as u128 * 10 + digit as u128;
        assert(wide == digits_value(digits.take(i - start + 1)));
        if wide > u64::MAX as u128 {
            proof {
                if forall|j: int| 0 <= j < digits.len() ==> is_digit(digits[j]) {
                    lemma_digits_value_grows(digits, i - start + 1);
                }
            }
            return None;
        }
        value = wide as u64;
        i += 1;
    }
    assert(digits.take(i - start) =~= digits);
    Some(value)
}

/// A text stands in whatever it is a part of.
pub proof fn law_a_part_occurs(before: Seq<char>, part: Seq<char>, behind: Seq<char>)
    ensures
        occurs(before + part + behind, part),
{
    let whole = before + part + behind;
    assert(whole.subrange(before.len() as int, (before.len() + part.len()) as int) =~= part);
    assert(occurs_at(whole, part, before.len() as int));
}

/// What stands in a text is a part of it.
pub proof fn law_what_occurs_is_a_part(whole: Seq<char>, part: Seq<char>) -> (around: (
    Seq<char>,
    Seq<char>,
))
    requires
        occurs(whole, part),
    ensures
        whole == around.0 + part + around.1,
{
    let at = choose|at: int| occurs_at(whole, part, at);
    let (before, behind) = (whole.take(at), whole.skip(at + part.len()));
    assert(whole =~= before + whole.subrange(at, at + part.len()) + behind);
    (before, behind)
}

/// Capital letters become small ones, and nothing else changes.
pub proof fn law_small_letters(s: Seq<char>, i: int)
    requires
        0 <= i < s.len(),
    ensures
        small_letters(s).len() == s.len(),
        65 <= s[i] as int <= 90 ==> small_letters(s)[i] as int == s[i] as int + 32,
        !(65 <= s[i] as int <= 90) ==> small_letters(s)[i] == s[i],
{
    let c = s[i];
    if 65 <= c as int <= 90 {
        let b = c as u8;
        assert(b == c as int);
        assert((b + 32) as u8 as char as int == b + 32);
    }
}

/// Texts are ordered by the first character in which they differ, and a text
/// comes before what continues it.
pub proof fn law_texts_are_ordered_by_first_difference(a: Seq<char>, b: Seq<char>, n: int)
    requires
        0 <= n <= a.len(),
        n <= b.len(),
        forall|i: int| 0 <= i < n ==> #[trigger] a[i] == b[i],
    ensures
        n == a.len() ==> (text_before(a, b) <==> a.len() < b.len()),
        n == b.len() ==> !text_before(a, b),
        n < a.len() && n < b.len() && a[n] != b[n] ==> (text_before(a, b) <==> (a[n] as int) < (
        b[n] as int)),
    decreases n,
{
    if n > 0 {
        let (x, y) = (a.drop_first(), b.drop_first());
        assert(a[0] == b[0]);
        assert forall|i: int| 0 <= i < n - 1 implies #[trigger] x[i] == y[i] by {
            assert(a[i + 1] == b[i + 1]);
        }
        law_texts_are_ordered_by_first_difference(x, y, n - 1);
    }
}

/// One digit is a number.
pub proof fn law_a_digit_is_a_number(d: char)
    requires
        48 <= d as int <= 57,
    ensures
        u64_of_text(seq![d]) == Some((d as int - 48) as u64),
{
    let s = seq![d];
    assert(unsigned_digits(s) =~= s);
    assert(s.drop_last() =~= Seq::<char>::empty());
    assert(digits_value(s.drop_last()) == 0);
    assert(digits_value(s) == d as int - 48);
}

/// Another digit behind a number makes ten times the number and the digit, as
/// long as that fits.
pub proof fn law_a_digit_more(s: Seq<char>, d: char)
    requires
        u64_of_text(s) is Some,
        48 <= d as int <= 57,
    ensures
        u64_of_text(s.push(d)) == if 10 * u64_of_text(s)->0 + (d as int - 48) <= u64::MAX {
            Some((10 * u64_of_text(s)->0 + (d as int - 48)) as u64)
        } else {
            None
        },
{
    let digits = unsigned_digits(s);
    let more = unsigned_digits(s.push(d));
    assert(more =~= digits.push(d));
    assert(more.drop_last() =~= digits);
    assert forall|i: int| 0 <= i < more.len() implies is_digit(more[i]) by {
        if i < digits.len() {
            assert(is_digit(digits[i]));
        }
    }
}

/// What is too large stays too large with another digit.
pub proof fn law_too_large_stays_too_large(s: Seq<char>, d: char)
    requires
        s.len() > 0,
        forall|i: int| 0 <= i < s.len() ==> 48 <= (#[trigger] s[i]) as int <= 57,
        u64_of_text(s) is None,
        48 <= d as int <= 57,
    ensures
        u64_of_text(s.push(d)) is None,
{
    assert(s[0] != '+');
    assert(unsigned_digits(s) =~= s);
    let more = s.push(d);
    assert(unsigned_digits(more) =~= more);
    assert(more.drop_last() =~= s);
    assert forall|i: int| 0 <= i < s.len() implies is_digit(s[i]) by {}
}

/// A plus before a number changes nothing.
pub proof fn law_a_plus_changes_nothing(s: Seq<char>)
    requires
        s.len() > 0,
        s[0] != '+',
    ensures
        u64_of_text(seq!['+'] + s) == u64_of_text(s),
{
    let signed = seq!['+'] + s;
    assert(signed.drop_first() =~= s);
    assert(unsigned_digits(signed) == unsigned_digits(s));
}

/// Nothing but digits is a number, apart from one plus before them.
pub proof fn law_other_texts_are_no_numbers(s: Seq<char>, i: int)
    requires
        s.len() == 0 || s == seq!['+'] || (0 <= i < s.len() && !(48 <= s[i] as int <= 57) && !(i
            == 0 && s[i] == '+')),
    ensures
        u64_of_text(s) is None,
{
    let digits = unsigned_digits(s);
    if s.len() > 0 && s != seq!['+'] {
        if s[0] == '+' {
            assert(digits[i - 1] == s[i]);
            assert(!is_digit(digits[i - 1]));
        } else {
            assert(!is_digit(digits[i]));
        }
    } else {
        assert(digits.len() == 0);
    }
}

} // verus!
