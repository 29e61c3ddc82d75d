//! Character classes and string helpers shared by the tokenizer and the sheet.
use vstd::prelude::*;
use vstd::std_specs::iter::IteratorSpec;

verus! {

/// `String::push` appends one character.
pub assume_specification[ String::push ](s: &mut String, c: char)
    ensures
        final(s)@ == old(s)@.push(c),
;

/// ASCII whitespace: space, tab, line feed, form feed, carriage return.
pub open spec fn white(c: char) -> bool {
    c == ' ' || c == '\t' || c == '\n' || c == '\x0C' || c == '\r'
}

/// `0`..`9`
pub open spec fn digit(c: char) -> bool {
    '0' <= c <= '9'
}

/// `a`..`z` and `A`..`Z`
pub open spec fn letter(c: char) -> bool {
    ('a' <= c <= 'z') || ('A' <= c <= 'Z')
}

/// Whether the character is a decimal digit.
pub fn is_digit(c: char) -> (r: bool)
    ensures
        r == digit(c),
{
    c >= '0' && c <= '9'
}

/// Whether the character is one of `a`..`z`, `A`..`Z`.
pub fn is_letter(c: char) -> (r: bool)
    ensures
        r == letter(c),
{
    (c >= 'a' && c <= 'z') || (c >= 'A' && c <= 'Z')
}

/// The value of a decimal digit.
pub open spec fn digit_value(c: char) -> int {
    c as int - '0' as int
}

/// The value of a decimal digit.
pub fn digit_of(c: char) -> (r: u8)
    requires
        digit(c),
    ensures
        r == digit_value(c),
        r < 10,
{
    (c as u32 - '0' as u32) as u8
}

/// The decimal digit with a value.
pub fn digit_char(d: u8) -> (c: char)
    requires
        d < 10,
    ensures
        digit(c),
        digit_value(c) == d,
{
    (48u8 + d) as char
}

/// Whether `p` is a prefix of `s`.
pub open spec fn has_prefix(s: Seq<char>, p: Seq<char>) -> bool {
    p.len() <= s.len() && s.subrange(0, p.len() as int) == p
}

/// Whether two texts are the same.
pub fn str_eq(a: &str, b: &str) -> (r: bool)
    ensures
        r == (a@ == b@),
{
    let n = a.unicode_len();
    if n != b.unicode_len() {
        return false;
    }
    let mut i: usize = 0;
    while i < n
        invariant
            i <= n,
            n == a@.len(),
            n == b@.len(),
            a@.subrange(0, i as int) == b@.subrange(0, i as int),
        decreases n - i,
    {
        if a.get_char(i) != b.get_char(i) {
            assert(a@[i as int] != b@[i as int]);
            return false;
        }
        assert(a@.subrange(0, i + 1) =~= a@.subrange(0, i as int).push(a@[i as int]));
        assert(b@.subrange(0, i + 1) =~= b@.subrange(0, i as int).push(b@[i as int]));
        i += 1;
    }
    assert(a@ =~= a@.subrange(0, n as int));
    assert(b@ =~= b@.subrange(0, n as int));
    true
}

/// Whether `s` begins with `p`.
pub fn starts_with(s: &str, p: &str) -> (r: bool)
    ensures
        r == has_prefix(s@, p@),
{
    let n = p.unicode_len();
    if s.unicode_len() < n {
        return false;
    }
    let mut i: usize = 0;
    while i < n
        invariant
            i <= n,
            n == p@.len(),
            n <= s@.len(),
            s@.subrange(0, i as int) == p@.subrange(0, i as int),
        decreases n - i,
    {
        if s.get_char(i) != p.get_char(i) {
            assert(s@.subrange(0, n as int)[i as int] != p@[i as int]);
            return false;
        }
        assert(s@.subrange(0, i + 1) =~= s@.subrange(0, i as int).push(s@[i as int]));
        assert(p@.subrange(0, i + 1) =~= p@.subrange(0, i as int).push(p@[i as int]));
        i += 1;
    }
    assert(p@ =~= p@.subrange(0, n as int));
    true
}

/// The text after the first `n` characters.
pub fn skip_chars(s: &str, n: usize) -> (r: &str)
    requires
        n <= s@.len(),
    ensures
        r@ == s@.skip(n as int),
{
    let len = s.unicode_len();
    let r = s.substring_char(n, len);
    assert(s@.subrange(n as int, len as int) =~= s@.skip(n as int));
    r
}

/// The number that a sequence of decimal digits denotes.
pub open spec fn decimal_value(s: Seq<char>) -> nat
    decreases s.len(),
{
    if s.len() == 0 {
        0
    } else {
        (decimal_value(s.drop_last()) * 10 + digit_value(s.last())) as nat
    }
}

/// Whether a text is made of decimal digits.
pub open spec fn all_digits(s: Seq<char>) -> bool {
    forall|i: int| 0 <= i < s.len() ==> digit(#[trigger] s[i])
}

/// The decimal digits of a number, without leading zeros; `"0"` for zero.
pub open spec fn decimal(n: nat) -> Seq<char>
    decreases n,
{
    if n < 10 {
        seq![(48 + n) as u8 as char]
    } else {
        decimal(n / 10).push((48 + n % 10) as u8 as char)
    }
}

/// The decimal digits of a number are digits, have no leading zero, and denote the
/// number.
pub proof fn lemma_decimal(n: nat)
    ensures
        all_digits(decimal(n)),
        decimal(n).len() >= 1,
        decimal_value(decimal(n)) == n,
        n > 0 ==> decimal(n)[0] != '0',
    decreases n,
{
    if n < 10 {
        let s = decimal(n);
        assert(s.drop_last() =~= Seq::<char>::empty());
        assert(decimal_value(s.drop_last()) == 0);
    } else {
        lemma_decimal(n / 10);
        let s = decimal(n);
        assert(s.drop_last() =~= decimal(n / 10));
        assert(s[0] == decimal(n / 10)[0]);
    }
}

/// Digits read as a number, or `None` where there is no digit, something else
/// than a digit, or a value above `limit`.
pub fn parse_decimal(s: &str, limit: u64) -> (r: Option<u64>)
    ensures
        r is Some <==> s@.len() > 0 && all_digits(s@) && decimal_value(s@) <= limit,
        r matches Some(v) ==> v == decimal_value(s@),
{
    let n = s.unicode_len();
    if n == 0 {
        return None;
    }
    let mut acc: u64 = 0;
    let mut i: usize = 0;
    while i < n
        invariant
            i <= n,
            n == s@.len(),
            all_digits(s@.take(i as int)),
            acc == decimal_value(s@.take(i as int)),
            acc <= limit,
        decreases n - i,
    {
        let c = s.get_char(i);
        proof {
            assert(s@.take(i + 1).drop_last() =~= s@.take(i as int));
            assert(s@.take(i + 1).last() == c);
        }
        if !is_digit(c) {
            proof {
                assert(!all_digits(s@)) by {
                    if all_digits(s@) {
                        assert(digit(s@[i as int]));
                    }
                }
            }
            return None;
        }
        let d = digit_of(c) as u64;
        let next = match acc.checked_mul(10) {
            Some(m) => m.checked_add(d),
            None => None,
        };
        match next {
            Some(v) if v <= limit => {
                acc = v;
            },
            _ => {
                proof {
                    if all_digits(s@) {
                        lemma_decimal_value_grows(s@, i + 1);
                    }
                }
                return None;
            },
        }
        proof {
            assert forall|j: int| 0 <= j < i + 1 implies digit(#[trigger] s@.take(i + 1)[j]) by {
                if j < i {
                    assert(s@.take(i + 1)[j] == s@.take(i as int)[j]);
                }
            }
        }
        i += 1;
    }
    assert(s@.take(n as int) =~= s@);
    Some(acc)
}

/// A number's value is at least that of each prefix of its digits.
pub proof fn lemma_decimal_value_grows(s: Seq<char>, k: int)
    requires
        0 <= k <= s.len(),
        all_digits(s),
    ensures
        decimal_value(s.take(k)) <= decimal_value(s),
    decreases s.len() - k,
{
    if k == s.len() {
        assert(s.take(k) =~= s);
    } else {
        lemma_decimal_value_grows(s, k + 1);
        assert(s.take(k + 1).drop_last() =~= s.take(k));
        assert(digit(s[k]));
        assert(s.take(k + 1).last() == s[k]);
    }
}

/// The decimal digits of `n`.
pub fn to_decimal(n: usize) -> (r: String)
    ensures
        r@ == decimal(n as nat),
{
    let mut digits: Vec<char> = Vec::new();
    let mut rest: usize = n;
    while rest >= 10
        invariant
            decimal(n as nat) == decimal(rest as nat) + digits@.reverse(),
        decreases rest,
    {
        let d = (rest % 10) as u8;
        let c = digit_char(d);
        proof {
            assert(c == (48 + rest as nat % 10) as u8 as char);
            assert(decimal(rest as nat) == decimal(rest as nat / 10).push(c));
            assert(digits@.push(c).reverse() =~= seq![c] + digits@.reverse());
            assert(decimal(rest as nat / 10).push(c) + digits@.reverse() =~= decimal(
                rest as nat / 10,
            ) + (seq![c] + digits@.reverse()));
        }
        digits.push(c);
        rest = rest / 10;
    }
    let c = digit_char(rest as u8);
    let mut out = String::new();
    out.push(c);
    assert(out@ =~= decimal(rest as nat));
    let mut i: usize = digits.len();
    while i > 0
        invariant
            i <= digits.len(),
            out@ + digits@.reverse().skip(digits.len() - i) == decimal(n as nat),
        decreases i,
    {
        i -= 1;
        proof {
            let r = digits@.reverse();
            let k = digits.len() - i - 1;
            assert(r[k] == digits@[i as int]);
            assert(r.skip(k) =~= seq![r[k]] + r.skip(k + 1));
            assert(out@.push(digits@[i as int]) + r.skip(k + 1) =~= out@ + r.skip(k));
        }
        out.push(digits[i]);
    }
    assert(digits@.reverse().skip(digits.len() as int) =~= Seq::<char>::empty());
    assert(out@ + Seq::<char>::empty() =~= out@);
    out
}

/// The characters of a text.
pub fn chars_of(s: &str) -> (v: Vec<char>)
    ensures
        v@ == s@,
{
    let mut v: Vec<char> = Vec::new();
    let it = s.chars();
    let ghost all = it.remaining();
    for c in iter: it
        invariant
            iter.seq() == all,
            v@.len() == iter.index(),
            forall|j: int| 0 <= j < v@.len() ==> v@[j] == iter.seq()[j],
    {
        v.push(c);
    }
    assert(v@ =~= s@);
    v
}

/// The characters from `from` up to `to` as a text.
pub fn string_of(v: &Vec<char>, from: usize, to: usize) -> (r: String)
    requires
        from <= to <= v@.len(),
    ensures
        r@ == v@.subrange(from as int, to as int),
{
    let mut r = String::new();
    let mut i: usize = from;
    while i < to
        invariant
            from <= i <= to,
            to <= v@.len(),
            r@ == v@.subrange(from as int, i as int),
        decreases to - i,
    {
        r.push(v[i]);
        assert(v@.subrange(from as int, i + 1) =~= v@.subrange(from as int, i as int).push(
            v@[i as int],
        ));
        i += 1;
    }
    r
}

/// Whether the character has the Unicode property `White_Space`, as
/// `char::is_whitespace` tells it.
pub uninterp spec fn whitespace(c: char) -> bool;

/// `char::is_whitespace` depends on the character alone; its result is named
/// [`whitespace`].
pub assume_specification[ char::is_whitespace ](c: char) -> (r: bool)
    ensures
        r == whitespace(c),
;

/// Where the text begins once the whitespace before it is left out.
pub open spec fn trim_start(s: Seq<char>, i: int) -> int
    decreases s.len() - i,
{
    if 0 <= i < s.len() && whitespace(s[i]) {
        trim_start(s, i + 1)
    } else {
        i
    }
}

/// Where the text that begins at `from` ends once the whitespace behind it
/// is left out.
pub open spec fn trim_end(s: Seq<char>, from: int, j: int) -> int
    decreases j,
{
    if 0 <= from < j <= s.len() && whitespace(s[j - 1]) {
        trim_end(s, from, j - 1)
    } else {
        j
    }
}

/// The text without the whitespace before and behind it.
pub open spec fn trimmed(s: Seq<char>) -> Seq<char> {
    s.subrange(trim_start(s, 0), trim_end(s, trim_start(s, 0), s.len() as int))
}

/// The text without the whitespace before and behind it.
pub fn trim(s: &str) -> (r: String)
    ensures
        r@ == trimmed(s@),
{
    let v = chars_of(s);
    let mut a: usize = 0;
    while a < v.len() && v[a].is_whitespace()
        invariant
            a <= v@.len(),
            trim_start(v@, 0) == trim_start(v@, a as int),
        decreases v@.len() - a,
    {
        a += 1;
    }
    let mut b: usize = v.len();
    while b > a && v[b - 1].is_whitespace()
        invariant
            a <= b <= v@.len(),
            trim_end(v@, a as int, v@.len() as int) == trim_end(v@, a as int, b as int),
        decreases b,
    {
        b -= 1;
    }
    string_of(&v, a, b)
}

/// Trimming ends before a character that is no whitespace, or at the end.
pub proof fn lemma_trim_start(s: Seq<char>, i: int)
    requires
        0 <= i <= s.len(),
    ensures
        i <= trim_start(s, i) <= s.len(),
        trim_start(s, i) < s.len() ==> !whitespace(s[trim_start(s, i)]),
    decreases s.len() - i,
{
    if i < s.len() && whitespace(s[i]) {
        lemma_trim_start(s, i + 1);
    }
}

/// Trimming ends behind a character that is no whitespace, or at the
/// beginning.
pub proof fn lemma_trim_end(s: Seq<char>, from: int, j: int)
    requires
        0 <= from <= j <= s.len(),
    ensures
        from <= trim_end(s, from, j) <= j,
        from < trim_end(s, from, j) ==> !whitespace(s[trim_end(s, from, j) - 1]),
    decreases j,
{
    if from < j && whitespace(s[j - 1]) {
        lemma_trim_end(s, from, j - 1);
    }
}

/// A text that was trimmed is not changed when it is trimmed again.
pub proof fn lemma_trimmed_twice(s: Seq<char>)
    ensures
        trimmed(trimmed(s)) == trimmed(s),
{
    lemma_trim_start(s, 0);
    let a = trim_start(s, 0);
    lemma_trim_end(s, a, s.len() as int);
    let b = trim_end(s, a, s.len() as int);
    let r = trimmed(s);
    assert(r.len() == b - a);
    if a < b {
        assert(r[0] == s[a]);
        assert(r[r.len() - 1] == s[b - 1]);
        assert(trim_start(r, 0) == 0);
        assert(trim_end(r, 0, r.len() as int) == r.len());
    } else {
        assert(trim_start(r, 0) == 0);
        assert(trim_end(r, 0, 0) == 0);
    }
    assert(r.subrange(0, r.len() as int) =~= r);
}

} // verus!
