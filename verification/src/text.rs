//! Plain text: white space, fields between separators, decimal numbers.

use vstd::prelude::*;
use vstd::slice::slice_subrange;

verus! {

// ---- white space ------------------------------------------------------------

/// The characters with the Unicode property `White_Space`.
pub open spec fn white(c: char) -> bool {
    ||| '\u{9}' <= c <= '\u{d}'
    ||| c == ' '
    ||| c == '\u{85}'
    ||| c == '\u{a0}'
    ||| c == '\u{1680}'
    ||| '\u{2000}' <= c <= '\u{200a}'
    ||| c == '\u{2028}'
    ||| c == '\u{2029}'
    ||| c == '\u{202f}'
    ||| c == '\u{205f}'
    ||| c == '\u{3000}'
}

/// Whether `c` is white space.
pub fn is_white(c: char) -> (b: bool)
    ensures
        b == white(c),
{
    ('\u{9}' <= c && c <= '\u{d}') || c == ' ' || c == '\u{85}' || c == '\u{a0}' || c == '\u{1680}'
        || ('\u{2000}' <= c && c <= '\u{200a}') || c == '\u{2028}' || c == '\u{2029}' || c
        == '\u{202f}' || c == '\u{205f}' || c == '\u{3000}'
}

/// `s` without leading white space.
pub open spec fn trimmed_start(s: Seq<char>) -> Seq<char>
    decreases s.len(),
{
    if s.len() > 0 && white(s[0]) {
        trimmed_start(s.drop_first())
    } else {
        s
    }
}

/// `s` without trailing white space.
pub open spec fn trimmed_end(s: Seq<char>) -> Seq<char>
    decreases s.len(),
{
    if s.len() > 0 && white(s.last()) {
        trimmed_end(s.drop_last())
    } else {
        s
    }
}

/// `s` without leading and trailing white space.
pub open spec fn trimmed(s: Seq<char>) -> Seq<char> {
    trimmed_end(trimmed_start(s))
}

/// White space at the end does not count.
pub proof fn lemma_trimmed_push(s: Seq<char>, c: char)
    requires
        white(c),
    ensures
        trimmed(s.push(c)) == trimmed(s),
    decreases s.len(),
{
    if s.len() == 0 {
        assert(s.push(c).drop_first() =~= s);
        assert(trimmed_start(s.push(c)) == trimmed_start(s)) by {
            reveal_with_fuel(trimmed_start, 2);
        }
    } else if white(s[0]) {
        assert(s.push(c).drop_first() =~= s.drop_first().push(c));
        lemma_trimmed_push(s.drop_first(), c);
    } else {
        assert(s.push(c).drop_last() =~= s);
        assert(s.push(c)[0] == s[0]);
    }
}

/// No amount of white space at the end counts.
pub proof fn lemma_trimmed_append(s: Seq<char>, w: Seq<char>)
    requires
        forall|i: int| 0 <= i < w.len() ==> white(#[trigger] w[i]),
    ensures
        trimmed(s + w) == trimmed(s),
    decreases w.len(),
{
    if w.len() == 0 {
        assert(s + w =~= s);
    } else {
        let v = w.drop_last();
        assert(s + w =~= (s + v).push(w.last()));
        lemma_trimmed_push(s + v, w.last());
        assert forall|i: int| 0 <= i < v.len() implies white(#[trigger] v[i]) by {
            assert(v[i] == w[i]);
        }
        lemma_trimmed_append(s, v);
    }
}

/// What is appended to a text that is not all white space does not change where
/// it begins.
pub proof fn lemma_trimmed_start_append(s: Seq<char>, t: Seq<char>)
    requires
        trimmed_start(s).len() > 0,
    ensures
        trimmed_start(s + t) == trimmed_start(s) + t,
    decreases s.len(),
{
    if white(s[0]) {
        assert((s + t).drop_first() =~= s.drop_first() + t);
        lemma_trimmed_start_append(s.drop_first(), t);
    }
}

/// The end of a text is cut back to its last character that is no white space.
pub proof fn lemma_trimmed_end_append(s: Seq<char>, t: Seq<char>) -> (u: Seq<char>)
    requires
        s.len() > 0,
        !white(s.last()),
    ensures
        trimmed_end(s + t) == s + u,
    decreases t.len(),
{
    if t.len() == 0 {
        assert(s + t =~= s);
        t
    } else if white(t.last()) {
        assert((s + t).drop_last() =~= s + t.drop_last());
        lemma_trimmed_end_append(s, t.drop_last())
    } else {
        t
    }
}

/// What is cut off at the end is white space.
pub proof fn lemma_trimmed_end_prefix(s: Seq<char>) -> (w: Seq<char>)
    ensures
        s == trimmed_end(s) + w,
        forall|i: int| 0 <= i < w.len() ==> white(#[trigger] w[i]),
    decreases s.len(),
{
    if s.len() > 0 && white(s.last()) {
        let w = lemma_trimmed_end_prefix(s.drop_last());
        let v = w.push(s.last());
        assert(s =~= s.drop_last().push(s.last()));
        assert((trimmed_end(s) + w).push(s.last()) =~= trimmed_end(s) + v);
        v
    } else {
        assert(s =~= s + Seq::<char>::empty());
        Seq::empty()
    }
}

/// `s` without leading and trailing white space.
pub fn trim(s: &[char]) -> (r: &[char])
    ensures
        r@ == trimmed(s@),
{
    let mut i: usize = 0;
    let mut j: usize = s.len();
    assert(s@.subrange(0, j as int) == s@);
    while i < j && is_white(s[i])
        invariant
            i <= j == s.len(),
            trimmed_start(s@.subrange(i as int, j as int)) == trimmed_start(s@),
        decreases j - i,
    {
        assert(s@.subrange(i as int, j as int).drop_first() == s@.subrange(i + 1, j as int));
        i += 1;
    }
    while i < j && is_white(s[j - 1])
        invariant
            i <= j <= s.len(),
            trimmed_end(s@.subrange(i as int, j as int)) == trimmed(s@),
        decreases j - i,
    {
        assert(s@.subrange(i as int, j as int).drop_last() == s@.subrange(i as int, j - 1));
        j -= 1;
    }
    slice_subrange(s, i, j)
}

// ---- fields -----------------------------------------------------------------

/// Where `c` first occurs in `s`; the length of `s` where it does not.
pub open spec fn first(s: Seq<char>, c: char) -> int
    decreases s.len(),
{
    if s.len() == 0 || s[0] == c {
        0
    } else {
        1 + first(s.drop_first(), c)
    }
}

/// `s` up to the first `c`.
pub open spec fn before(s: Seq<char>, c: char) -> Seq<char> {
    s.take(first(s, c))
}

/// `s` after the first `c`.
pub open spec fn after(s: Seq<char>, c: char) -> Seq<char> {
    s.skip(first(s, c) + 1)
}

/// The fields of `s` between the separators `c`.
pub open spec fn fields(s: Seq<char>, c: char) -> Seq<Seq<char>>
    decreases s.len(),
{
    if 0 <= first(s, c) < s.len() {
        seq![before(s, c)] + fields(after(s, c), c)
    } else {
        seq![s]
    }
}

/// What `first` stands for.
pub proof fn lemma_first(s: Seq<char>, c: char)
    ensures
        0 <= first(s, c) <= s.len(),
        forall|i: int| 0 <= i < first(s, c) ==> s[i] != c,
        first(s, c) < s.len() ==> s[first(s, c)] == c,
    decreases s.len(),
{
    if s.len() > 0 && s[0] != c {
        let t = s.drop_first();
        lemma_first(t, c);
        assert forall|i: int| 0 <= i < first(s, c) implies s[i] != c by {
            if i > 0 {
                assert(s[i] == t[i - 1]);
            }
        }
    }
}

/// An index before which there is no `c`, and at which there is one or the text
/// ends, is the first.
pub proof fn lemma_first_is(s: Seq<char>, c: char, k: int)
    requires
        0 <= k <= s.len(),
        forall|i: int| 0 <= i < k ==> s[i] != c,
        k < s.len() ==> s[k] == c,
    ensures
        first(s, c) == k,
{
    lemma_first(s, c);
}

/// Where `c` first occurs in `s`; the length of `s` where it does not.
pub fn find(s: &[char], c: char) -> (k: usize)
    ensures
        k == first(s@, c),
        k <= s.len(),
{
    let mut k: usize = 0;
    while k < s.len() && s[k] != c
        invariant
            k <= s.len(),
            forall|i: int| 0 <= i < k ==> s[i] != c,
        decreases s.len() - k,
    {
        k += 1;
    }
    proof {
        lemma_first_is(s@, c, k as int);
    }
    k
}

/// The contents of some slices.
pub open spec fn contents(v: Seq<&[char]>) -> Seq<Seq<char>> {
    v.map_values(|x: &[char]| x@)
}

/// The fields of `s` between the separators `c`.
pub fn split(s: &[char], c: char) -> (r: Vec<&[char]>)
    ensures
        contents(r@) == fields(s@, c),
{
    let mut r: Vec<&[char]> = Vec::new();
    let mut rest: &[char] = s;
    let mut k: usize = find(rest, c);
    assert(contents(r@) + fields(rest@, c) == fields(s@, c));
    while k < rest.len()
        invariant
            k == first(rest@, c),
            k <= rest.len(),
            contents(r@) + fields(rest@, c) == fields(s@, c),
        decreases rest.len(),
    {
        let ghost r0 = contents(r@);
        let ghost rest0 = rest@;
        r.push(slice_subrange(rest, 0, k));
        rest = slice_subrange(rest, k + 1, rest.len());
        k = find(rest, c);
        proof {
            assert(rest@ == after(rest0, c));
            assert(contents(r@) == r0.push(before(rest0, c)));
            assert(r0.push(before(rest0, c)) + fields(rest@, c) == r0 + (seq![before(rest0, c)]
                + fields(rest@, c)));
        }
    }
    let ghost r0 = contents(r@);
    r.push(rest);
    assert(contents(r@) == r0 + seq![rest@]);
    r
}

// ---- numbers ----------------------------------------------------------------

/// A decimal digit.
pub open spec fn digit(c: char) -> bool {
    '0' <= c <= '9'
}

/// Decimal digits only, and at least one.
pub open spec fn digits(s: Seq<char>) -> bool {
    s.len() > 0 && forall|i: int| 0 <= i < s.len() ==> digit(#[trigger] s[i])
}

/// The number that the digits of `s` stand for.
pub open spec fn value(s: Seq<char>) -> nat
    decreases s.len(),
{
    if s.len() == 0 {
        0
    } else {
        value(s.drop_last()) * 10 + (s.last() as nat - '0' as nat) as nat
    }
}

/// `s` without the plus sign that a number may have before its digits.
pub open spec fn unsigned(s: Seq<char>) -> Seq<char> {
    if s.len() > 0 && s[0] == '+' {
        s.drop_first()
    } else {
        s
    }
}

/// The number that `s` stands for: digits, with or without a plus sign before
/// them, whose value is a machine word.
pub open spec fn number(s: Seq<char>) -> Option<u64> {
    let d = unsigned(s);
    if digits(d) && value(d) <= u64::MAX {
        Some(value(d) as u64)
    } else {
        None
    }
}

/// The first digits of a number never stand for more than all of them.
proof fn lemma_value_grows(s: Seq<char>, k: int)
    requires
        0 <= k <= s.len(),
    ensures
        value(s.take(k)) <= value(s),
    decreases s.len() - k,
{
    if k < s.len() {
        lemma_value_grows(s, k + 1);
        assert(s.take(k + 1).drop_last() =~= s.take(k));
    } else {
        assert(s.take(k) =~= s);
    }
}

/// The number that `s` stands for, if it does.
pub fn parse_u64(s: &[char]) -> (r: Option<u64>)
    ensures
        r == number(s@),
{
    let d: &[char] = if s.len() > 0 && s[0] == '+' {
        slice_subrange(s, 1, s.len())
    } else {
        s
    };
    assert(d@ == unsigned(s@));
    if d.len() == 0 {
        return None;
    }
    let mut x: u64 = 0;
    let mut i: usize = 0;
    while i < d.len()
        invariant
            d@ == unsigned(s@),
            i <= d.len(),
            forall|j: int| 0 <= j < i ==> digit(#[trigger] d[j]),
            x == value(d@.take(i as int)),
        decreases d.len() - i,
    {
        let c = d[i];
        if !('0' <= c && c <= '9') {
            assert(!digit(d@[i as int]));
            return None;
        }
        let y: u64 = c as u64 - '0' as u64;
        proof {
            assert(d@.take(i + 1).drop_last() == d@.take(i as int));
            lemma_value_grows(d@, i + 1);
        }
        if x > (u64::MAX - y) / 10 {
            return None;
        }
        x = x * 10 + y;
        i += 1;
    }
    assert(d@.take(i as int) == d@);
    Some(x)
}

/// Whether `s` is the text `w`.
pub fn is_word(s: &[char], w: &str) -> (b: bool)
    ensures
        b == (s@ == w@),
{
    if s.len() != w.unicode_len() {
        return false;
    }
    let mut i: usize = 0;
    while i < s.len()
        invariant
            s.len() == w@.len(),
            i <= s.len(),
            forall|j: int| 0 <= j < i ==> s[j] == w@[j],
        decreases s.len() - i,
    {
        if s[i] != w.get_char(i) {
            return false;
        }
        i += 1;
    }
    assert(s@ =~= w@);
    true
}

/// The characters of `s`.
pub fn chars(s: &str) -> (v: Vec<char>)
    ensures
        v@ == s@,
{
    let mut v: Vec<char> = Vec::new();
    for c in it: s.chars()
        invariant
            it.seq() == s@,
            v@ == s@.take(it.index() as int),
    {
        v.push(c);
    }
    assert(s@.take(s@.len() as int) == s@);
    v
}

/// The digit for `d`.
pub open spec fn digit_char(d: nat) -> char {
    ('0' as nat + d) as char
}

/// The decimal digits of `n`, without leading zeros.
pub open spec fn decimal_text(n: nat) -> Seq<char>
    decreases n,
{
    if n < 10 {
        seq![digit_char(n)]
    } else {
        decimal_text(n / 10).push(digit_char(n % 10))
    }
}

/// The text of one digit.
fn digit_text(d: u64) -> (s: &'static str)
    requires
        d < 10,
    ensures
        s@ == seq![digit_char(d as nat)],
{
    proof {
        reveal_strlit("0");
        reveal_strlit("1");
        reveal_strlit("2");
        reveal_strlit("3");
        reveal_strlit("4");
        reveal_strlit("5");
        reveal_strlit("6");
        reveal_strlit("7");
        reveal_strlit("8");
        reveal_strlit("9");
    }
    let s = match d {
        0 => "0",
        1 => "1",
        2 => "2",
        3 => "3",
        4 => "4",
        5 => "5",
        6 => "6",
        7 => "7",
        8 => "8",
        _ => "9",
    };
    assert(s@ =~= seq![digit_char(d as nat)]);
    s
}

/// The decimal digits of `n`.
pub fn decimal(n: u64) -> (s: String)
    ensures
        s@ == decimal_text(n as nat),
    decreases n,
{
    let mut s = if n < 10 {
        String::new()
    } else {
        decimal(n / 10)
    };
    let ghost head = s@;
    s.append(digit_text(n % 10));
    assert(s@ =~= head.push(digit_char((n % 10) as nat)));
    s
}

// ---- laws -------------------------------------------------------------------

/// A number that is written is read back.
pub proof fn law_numbers_read_back(n: u64)
    ensures
        number(decimal_text(n as nat)) == Some(n),
{
    lemma_decimal(n as nat);
    let s = decimal_text(n as nat);
    assert(s[0] != '+');
}

/// Decimal texts are made of digits and stand for their numbers.
proof fn lemma_decimal(n: nat)
    ensures
        digits(decimal_text(n)),
        value(decimal_text(n)) == n,
    decreases n,
{
    let s = decimal_text(n);
    if n < 10 {
        assert(s.drop_last() =~= Seq::empty());
        assert(value(s.drop_last()) == 0);
    } else {
        lemma_decimal(n / 10);
        assert(s.drop_last() =~= decimal_text(n / 10));
    }
}

/// Trimming cuts off white space and nothing else, at both ends and as far as it
/// goes: what is left begins and ends with other characters, or is empty.
pub proof fn law_trimming_cuts_white_space(s: Seq<char>) -> (r: (Seq<char>, Seq<char>))
    ensures
        s == r.0 + trimmed(s) + r.1,
        forall|i: int| 0 <= i < r.0.len() ==> white(#[trigger] r.0[i]),
        forall|i: int| 0 <= i < r.1.len() ==> white(#[trigger] r.1[i]),
        trimmed(s).len() > 0 ==> !white(trimmed(s)[0]) && !white(trimmed(s).last()),
{
    let a = lemma_trimmed_start_suffix(s);
    let t = trimmed_start(s);
    let b = lemma_trimmed_end_prefix(t);
    lemma_trimmed_ends(s);
    assert(s =~= a + trimmed(s) + b);
    (a, b)
}

/// What is cut off at the beginning is white space.
proof fn lemma_trimmed_start_suffix(s: Seq<char>) -> (w: Seq<char>)
    ensures
        s == w + trimmed_start(s),
        forall|i: int| 0 <= i < w.len() ==> white(#[trigger] w[i]),
        trimmed_start(s).len() > 0 ==> !white(trimmed_start(s)[0]),
    decreases s.len(),
{
    if s.len() > 0 && white(s[0]) {
        let v = lemma_trimmed_start_suffix(s.drop_first());
        let w = seq![s[0]] + v;
        assert(s =~= seq![s[0]] + s.drop_first());
        assert(s =~= w + trimmed_start(s));
        assert forall|i: int| 0 <= i < w.len() implies white(#[trigger] w[i]) by {
            if i > 0 {
                assert(w[i] == v[i - 1]);
            }
        }
        w
    } else {
        assert(s =~= Seq::<char>::empty() + s);
        Seq::empty()
    }
}

/// A trimmed text begins and ends with other characters than white space.
proof fn lemma_trimmed_ends(s: Seq<char>)
    ensures
        trimmed(s).len() > 0 ==> !white(trimmed(s)[0]) && !white(trimmed(s).last()),
{
    let a = lemma_trimmed_start_suffix(s);
    let t = trimmed_start(s);
    let b = lemma_trimmed_end_prefix(t);
    lemma_trimmed_end_last(t);
    if trimmed(s).len() > 0 {
        assert(t[0] == trimmed_end(t)[0]);
    }
}

/// The end of a text is cut back as far as white space goes.
proof fn lemma_trimmed_end_last(s: Seq<char>)
    ensures
        trimmed_end(s).len() > 0 ==> !white(trimmed_end(s).last()),
    decreases s.len(),
{
    if s.len() > 0 && white(s.last()) {
        lemma_trimmed_end_last(s.drop_last());
    }
}

/// A key and a value that are joined by a separator come apart again: the text
/// before the first separator, if there is none in it, and the text after it, both
/// without the white space around them.
pub proof fn lemma_trimmed_pair(k: Seq<char>, c: char, v: Seq<char>)
    requires
        !k.contains(c),
        !white(c),
        trimmed(k).len() > 0,
    ensures
        ({
            let l = trimmed(k.push(c) + v);
            &&& l.len() > 0
            &&& l[0] == trimmed(k)[0]
            &&& first(l, c) < l.len()
            &&& trimmed(before(l, c)) == trimmed(k)
            &&& exists|w: Seq<char>|
                {
                    &&& v == #[trigger] (after(l, c) + w)
                    &&& forall|i: int| 0 <= i < w.len() ==> white(#[trigger] w[i])
                }
        }),
{
    let a = lemma_trimmed_start_suffix(k);
    let t = trimmed_start(k);
    let b = lemma_trimmed_end_prefix(t);
    assert(t[0] == trimmed(k)[0]);
    let r = seq![c] + v;
    lemma_trimmed_start_append(k, r);
    assert(k.push(c) + v =~= k + r);
    let p = t.push(c);
    assert(t + r =~= p + v);
    let u = lemma_trimmed_end_append(p, v);
    let l = trimmed(k.push(c) + v);
    assert(l == p + u);
    let w = lemma_trimmed_end_prefix(p + v);
    assert(p + v == (p + u) + w);
    assert(v =~= u + w) by {
        assert((p + v).skip(p.len() as int) =~= v);
        assert(((p + u) + w).skip(p.len() as int) =~= u + w);
    }
    assert forall|i: int| 0 <= i < t.len() implies t[i] != c by {
        assert(k[a.len() + i] == t[i]);
    }
    assert(l[t.len() as int] == c);
    assert forall|i: int| 0 <= i < t.len() implies l[i] != c by {
        assert(l[i] == t[i]);
    }
    lemma_first_is(l, c, t.len() as int);
    assert(before(l, c) =~= t);
    assert(after(l, c) =~= u);
    assert(trimmed_start(t) == t);
    assert(v == after(l, c) + w);
}

/// Splitting undoes joining: a text without a separator is one field, and what two
/// texts with a separator between them are split into are the fields of the first
/// one, followed by those of the second.
pub proof fn law_splitting_undoes_joining(a: Seq<char>, c: char, b: Seq<char>)
    ensures
        fields(a.push(c) + b, c) == fields(a, c) + fields(b, c),
        !a.contains(c) ==> fields(a, c) == seq![a],
        fields(a, c).len() > 0,
    decreases a.len(),
{
    let s = a.push(c) + b;
    lemma_first(a, c);
    let k = first(a, c);
    if k < a.len() {
        assert(a.contains(c));
        assert(s[k] == a[k]);
        assert forall|i: int| 0 <= i < k implies s[i] != c by {
            assert(s[i] == a[i]);
        }
        lemma_first_is(s, c, k);
        assert(before(s, c) =~= before(a, c));
        assert(after(s, c) =~= after(a, c).push(c) + b);
        law_splitting_undoes_joining(after(a, c), c, b);
        assert(fields(s, c) =~= fields(a, c) + fields(b, c));
    } else {
        assert forall|i: int| 0 <= i < a.len() implies s[i] != c by {
            assert(s[i] == a[i]);
        }
        assert(s[a.len() as int] == c);
        lemma_first_is(s, c, a.len() as int);
        assert(before(s, c) =~= a);
        assert(after(s, c) =~= b);
        assert(fields(s, c) =~= seq![a] + fields(b, c));
    }
}

/// A digit that is appended to a number counts once, and what it was before ten
/// times, as long as a machine word can hold it; what does not fit is no number,
/// and one digit stands for itself.
pub proof fn law_numbers_are_decimal(s: Seq<char>, d: char)
    requires
        s.len() > 0,
        forall|i: int| 0 <= i < s.len() ==> '0' <= #[trigger] s[i] <= '9',
        '0' <= d <= '9',
    ensures
        number(seq![d]) == Some((d as u64 - '0' as u64) as u64),
        number(s.push(d)) == (match number(s) {
            Some(x) => if x * 10 + (d as u64 - '0' as u64) <= u64::MAX {
                Some((x * 10 + (d as u64 - '0' as u64)) as u64)
            } else {
                None
            },
            None => None,
        }),
{
    reveal_with_fuel(value, 2);
    let one = seq![d];
    assert(one.drop_last() =~= Seq::empty());
    assert forall|i: int| 0 <= i < one.len() implies digit(#[trigger] one[i]) by {}
    let t = s.push(d);
    assert(t.drop_last() =~= s);
    assert forall|i: int| 0 <= i < t.len() implies digit(#[trigger] t[i]) by {
        if i < s.len() {
            assert(t[i] == s[i]);
        }
    }
    assert(s[0] != '+' && t[0] == s[0]);
    assert(digits(s));
}

/// A plus sign before a number does not count, and there is at most one.
pub proof fn law_a_plus_sign_does_not_count(s: Seq<char>)
    ensures
        s.len() == 0 || s[0] != '+' ==> number(seq!['+'] + s) == number(s),
        s.len() > 0 && s[0] == '+' ==> number(seq!['+'] + s) is None,
{
    let t = seq!['+'] + s;
    assert(t.drop_first() =~= s);
    if s.len() > 0 && s[0] == '+' {
        assert(!digit(s[0]));
    }
}

/// What is no digit makes no number, but for a plus sign at the beginning; nor does
/// an empty text.
pub proof fn law_only_digits_make_numbers(s: Seq<char>, i: int)
    requires
        0 <= i < s.len(),
        !('0' <= s[i] <= '9'),
        i > 0 || s[i] != '+',
    ensures
        number(s) is None,
        number(Seq::empty()) is None,
{
    let d = unsigned(s);
    if s[0] == '+' {
        assert(d[i - 1] == s[i]);
    }
    assert(!digits(d));
}

/// Numbers are written without leading zeros.
pub proof fn law_no_leading_zeros(n: nat)
    ensures
        decimal_text(n).len() > 0,
        n > 0 ==> decimal_text(n)[0] != '0',
        n < 10 ==> decimal_text(n).len() == 1,
    decreases n,
{
    if n >= 10 {
        law_no_leading_zeros(n / 10);
    }
}

/// The contents of slices are what each of them holds, in their order.
pub proof fn law_contents_of_slices(v: Seq<&[char]>, i: int)
    requires
        0 <= i < v.len(),
    ensures
        contents(v).len() == v.len(),
        contents(v)[i] == v[i]@,
{
}

} // verus!
