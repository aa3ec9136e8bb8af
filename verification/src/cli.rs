//! Reading the answers typed at the program's prompts: a maze dimension, and
//! whether to print the solution.
use vstd::prelude::*;
use vstd::std_specs::iter::IteratorSpec;

use crate::text::{decimal, digit_char};

verus! {

/// The characters of `s`.
fn chars_of(s: &str) -> (v: Vec<char>)
    ensures
        v@ == s@,
{
    broadcast use vstd::string::axiom_spec_iter, vstd::string::next_postcondition;

    let mut it = s.chars();
    let mut v: Vec<char> = Vec::new();
    loop
        invariant
            v@ + it.remaining() == s@,
            it.obeys_prophetic_iter_laws(),
            it.decrease() is Some,
        ensures
            v@ == s@,
        decreases it.decrease()->0,
    {
        match it.next() {
            Some(c) => {
                v.push(c);
            },
            None => {
                assert(v@ + Seq::<char>::empty() =~= v@);
                break;
            },
        }
    }
    v
}

/// The characters with the Unicode `White_Space` property, which
/// `char::is_whitespace` and `str::trim` go by.
pub open spec fn is_white_space(c: char) -> bool {
    ||| '\u{9}' <= c <= '\u{d}'
    ||| c == ' '
    ||| c == '\u{85}'
    ||| c == '\u{a0}'
    ||| c == '\u{1680}'
    ||| '\u{2000}' <= c <= '\u{200a}'
    ||| c == '\u{2028}'
    ||| c == '\u{2029}'
    ||| c == '\u{202f}'
    ||| c == '\u{205f}'
    ||| c == '\u{3000}'
}

fn white_space(c: char) -> (b: bool)
    ensures
        b == is_white_space(c),
{
    ('\u{9}' <= c && c <= '\u{d}') || c == ' ' || c == '\u{85}' || c == '\u{a0}' || c == '\u{1680}' || (
    '\u{2000}' <= c && c <= '\u{200a}') || c == '\u{2028}' || c == '\u{2029}' || c == '\u{202f}' || c
        == '\u{205f}' || c == '\u{3000}'
}

/// `s` without its leading white space.
pub open spec fn trim_start(s: Seq<char>) -> Seq<char>
    decreases s.len(),
{
    if s.len() > 0 && is_white_space(s[0]) {
        trim_start(s.drop_first())
    } else {
        s
    }
}

/// `s` without its trailing white space.
pub open spec fn trim_end(s: Seq<char>) -> Seq<char>
    decreases s.len(),
{
    if s.len() > 0 && is_white_space(s.last()) {
        trim_end(s.drop_last())
    } else {
        s
    }
}

/// `s` without leading and trailing white space, as `str::trim` gives it.
pub open spec fn trim(s: Seq<char>) -> Seq<char> {
    trim_end(trim_start(s))
}

pub open spec fn is_digit(c: char) -> bool {
    '0' <= c <= '9'
}

/// The number written by the decimal digits `d`.
pub open spec fn digits_value(d: Seq<char>) -> nat
    decreases d.len(),
{
    if d.len() == 0 {
        0
    } else {
        digits_value(d.drop_last()) * 10 + (d.last() as nat - '0' as nat) as nat
    }
}

/// The `usize` that `str::parse` reads from `s`: an optional `+`, then one or
/// more decimal digits and nothing else, of a value that fits in a `usize`.
pub open spec fn parsed_usize(s: Seq<char>) -> Option<usize> {
    let d = unsigned_digits(s);
    if d.len() > 0 && all_digits(d) && digits_value(d) <= usize::MAX {
        Some(digits_value(d) as usize)
    } else {
        None
    }
}

/// `s` without a leading `+`.
pub open spec fn unsigned_digits(s: Seq<char>) -> Seq<char> {
    if s.len() > 0 && s[0] == '+' {
        s.drop_first()
    } else {
        s
    }
}

pub open spec fn all_digits(d: Seq<char>) -> bool {
    forall|i: int| 0 <= i < d.len() ==> is_digit(#[trigger] d[i])
}

/// `c` with ASCII upper-case letters made lower case.
pub open spec fn ascii_lower(c: char) -> char {
    if 'A' <= c <= 'Z' {
        ((c as u8) + 32) as u8 as char
    } else {
        c
    }
}

/// The dimension that an answer gives: a number of at least 2, written in
/// decimal, with white space around it allowed.
pub open spec fn size_answer(s: Seq<char>) -> Option<usize> {
    match parsed_usize(trim(s)) {
        Some(n) => if n >= 2 {
            Some(n)
        } else {
            None
        },
        None => None,
    }
}

/// Whether an answer asks for the solution: `y` or `yes` for yes, `n` or
/// `no` for no, in any case, with white space around it allowed; anything
/// else is no answer.
pub open spec fn solution_answer(s: Seq<char>) -> Option<bool> {
    let a = trim(s).map_values(|c: char| ascii_lower(c));
    if a == seq!['y'] || a == seq!['y', 'e', 's'] {
        Some(true)
    } else if a == seq!['n'] || a == seq!['n', 'o'] {
        Some(false)
    } else {
        None
    }
}

/// The characters of `s` without leading and trailing white space.
fn trimmed(s: &Vec<char>) -> (t: Vec<char>)
    ensures
        t@ == trim(s@),
{
    let n = s.len();
    let mut start: usize = 0;
    assert(s@.subrange(0, n as int) =~= s@);
    while start < n && white_space(s[start])
        invariant
            n == s@.len(),
            start <= n,
            trim_start(s@) == trim_start(s@.subrange(start as int, n as int)),
        decreases n - start,
    {
        assert(s@.subrange(start as int, n as int).drop_first() =~= s@.subrange(start + 1, n as int));
        start = start + 1;
    }
    let ghost front = s@.subrange(start as int, n as int);
    assert(trim_start(s@) == front);
    let mut end: usize = n;
    while end > start && white_space(s[end - 1])
        invariant
            n == s@.len(),
            start <= end <= n,
            front == s@.subrange(start as int, n as int),
            trim_end(front) == trim_end(s@.subrange(start as int, end as int)),
        decreases end - start,
    {
        assert(s@.subrange(start as int, end as int).drop_last() =~= s@.subrange(start as int, end - 1));
        end = end - 1;
    }
    let mut t: Vec<char> = Vec::new();
    let mut i = start;
    while i < end
        invariant
            n == s@.len(),
            start <= i <= end <= n,
            t@ == s@.subrange(start as int, i as int),
        decreases end - i,
    {
        t.push(s[i]);
        assert(s@.subrange(start as int, i + 1) =~= s@.subrange(start as int, i as int).push(s@[i as int]));
        i = i + 1;
    }
    t
}

proof fn lemma_digits_value_step(d: Seq<char>, k: int)
    requires
        0 <= k < d.len(),
    ensures
        digits_value(d.take(k + 1)) == digits_value(d.take(k)) * 10 + (d[k] as nat - '0' as nat) as nat,
{
    assert(d.take(k + 1).drop_last() =~= d.take(k));
}

proof fn lemma_digits_value_grows(d: Seq<char>, k: int)
    requires
        0 <= k <= d.len(),
        forall|i: int| 0 <= i < d.len() ==> is_digit(#[trigger] d[i]),
    ensures
        digits_value(d.take(k)) <= digits_value(d),
    decreases d.len() - k,
{
    if k < d.len() {
        lemma_digits_value_grows(d, k + 1);
        lemma_digits_value_step(d, k);
    } else {
        assert(d.take(k) =~= d);
    }
}

/// Reads an unsigned number the way `str::parse::<usize>` does.
fn parse_usize(t: &Vec<char>) -> (r: Option<usize>)
    ensures
        r == parsed_usize(t@),
{
    let ghost d = unsigned_digits(t@);
    let first: usize = if t.len() > 0 && t[0] == '+' { 1 } else { 0 };
    assert(d =~= t@.subrange(first as int, t@.len() as int));
    if first >= t.len() {
        return None;
    }
    let mut i = first;
    while i < t.len()
        invariant
            first <= i <= t@.len(),
            d == unsigned_digits(t@),
            d.len() > 0,
            d =~= t@.subrange(first as int, t@.len() as int),
            forall|k: int| 0 <= k < i - first ==> is_digit(#[trigger] d[k]),
        decreases t.len() - i,
    {
        if !('0' <= t[i] && t[i] <= '9') {
            assert(d[i - first] == t@[i as int]);
            assert(!is_digit(d[i - first]));
            assert(!all_digits(d));
            assert(parsed_usize(t@) is None);
            return None;
        }
        i = i + 1;
    }
    let mut value: usize = 0;
    let mut i = first;
    while i < t.len()
        invariant
            first <= i <= t@.len(),
            d == unsigned_digits(t@),
            d.len() > 0,
            d =~= t@.subrange(first as int, t@.len() as int),
            forall|k: int| 0 <= k < d.len() ==> is_digit(#[trigger] d[k]),
            value == digits_value(d.take(i - first)),
        decreases t.len() - i,
    {
        proof {
            lemma_digits_value_step(d, i - first);
            assert(is_digit(d[i - first]));
        }
        let digit = (t[i] as u32 - '0' as u32) as usize;
        let next = match value.checked_mul(10) {
            Some(v) => v.checked_add(digit),
            None => None,
        };
        match next {
            Some(v) => {
                value = v;
            },
            None => {
                proof {
                    assert(d[i - first] == t@[i as int]);
                    assert(digits_value(d.take(i - first + 1)) > usize::MAX);
                    lemma_digits_value_grows(d, i - first + 1);
                    assert(parsed_usize(t@) is None);
                }
                return None;
            },
        }
        i = i + 1;
    }
    assert(d.take(d.len() as int) =~= d);
    Some(value)
}

/// The maze dimension given by a typed answer: a decimal number of at least 2.
pub fn parse_size(input: &str) -> (r: Option<usize>)
    ensures
        r == size_answer(input@),
{
    let chars = chars_of(input);
    let t = trimmed(&chars);
    match parse_usize(&t) {
        Some(n) => if n >= 2 {
            Some(n)
        } else {
            None
        },
        None => None,
    }
}

/// Whether a typed answer asks for the solution (`y`, `yes`, `n` or `no`, in any case).
pub fn parse_solution_answer(input: &str) -> (r: Option<bool>)
    ensures
        r == solution_answer(input@),
{
    let chars = chars_of(input);
    let t = trimmed(&chars);
    let mut lower: Vec<char> = Vec::new();
    let mut i: usize = 0;
    while i < t.len()
        invariant
            i <= t@.len(),
            lower@ == t@.take(i as int).map_values(|c: char| ascii_lower(c)),
        decreases t.len() - i,
    {
        let c = t[i];
        let l = if 'A' <= c && c <= 'Z' {
            ((c as u8) + 32) as char
        } else {
            c
        };
        lower.push(l);
        assert(t@.take(i + 1).map_values(|c: char| ascii_lower(c)) =~= t@.take(i as int).map_values(
            |c: char| ascii_lower(c),
        ).push(ascii_lower(c)));
        i = i + 1;
    }
    assert(t@.take(t@.len() as int) =~= t@);
    let ghost a = trim(input@).map_values(|c: char| ascii_lower(c));
    assert(lower@ == a);
    if lower.len() == 1 && lower[0] == 'y' {
        assert(a =~= seq!['y']);
        Some(true)
    } else if lower.len() == 3 && lower[0] == 'y' && lower[1] == 'e' && lower[2] == 's' {
        assert(a =~= seq!['y', 'e', 's']);
        Some(true)
    } else if lower.len() == 1 && lower[0] == 'n' {
        assert(a =~= seq!['n']);
        Some(false)
    } else if lower.len() == 2 && lower[0] == 'n' && lower[1] == 'o' {
        assert(a =~= seq!['n', 'o']);
        Some(false)
    } else {
        proof {
            if a == seq!['y'] || a == seq!['y', 'e', 's'] || a == seq!['n'] || a == seq!['n', 'o'] {
                assert(lower@ == a);
                assert(false);
            }
        }
        None
    }
}

/// Every character of `s` is white space.
pub open spec fn all_white_space(s: Seq<char>) -> bool {
    forall|i: int| 0 <= i < s.len() ==> is_white_space(#[trigger] s[i])
}

proof fn lemma_trim_start_padded(pre: Seq<char>, t: Seq<char>)
    requires
        all_white_space(pre),
    ensures
        trim_start(pre + t) == trim_start(t),
    decreases pre.len(),
{
    if pre.len() > 0 {
        assert((pre + t)[0] == pre[0]);
        assert((pre + t).drop_first() =~= pre.drop_first() + t);
        lemma_trim_start_padded(pre.drop_first(), t);
    } else {
        assert(pre + t =~= t);
    }
}

proof fn lemma_trim_end_padded(t: Seq<char>, post: Seq<char>)
    requires
        all_white_space(post),
    ensures
        trim_end(t + post) == trim_end(t),
    decreases post.len(),
{
    if post.len() > 0 {
        assert((t + post).last() == post.last());
        assert((t + post).drop_last() =~= t + post.drop_last());
        lemma_trim_end_padded(t, post.drop_last());
    } else {
        assert(t + post =~= t);
    }
}

proof fn lemma_trim_start_append(t: Seq<char>, post: Seq<char>)
    requires
        all_white_space(post),
    ensures
        trim_start(t).len() > 0 ==> trim_start(t + post) == trim_start(t) + post,
        trim_start(t).len() == 0 ==> trim_start(t + post).len() == 0,
    decreases t.len(),
{
    if t.len() > 0 {
        assert((t + post)[0] == t[0]);
        if is_white_space(t[0]) {
            assert((t + post).drop_first() =~= t.drop_first() + post);
            lemma_trim_start_append(t.drop_first(), post);
        }
    } else {
        assert(t + post =~= post);
        lemma_trim_start_padded(post, Seq::empty());
        assert(post + Seq::<char>::empty() =~= post);
    }
}

proof fn lemma_trim_end_all(t: Seq<char>)
    requires
        t.len() == 0,
    ensures
        trim_end(t).len() == 0,
{
}

/// White space typed before or after an answer does not change it: the text
/// that is read is the same.
pub proof fn lemma_trim_ignores_padding(pre: Seq<char>, s: Seq<char>, post: Seq<char>)
    requires
        all_white_space(pre),
        all_white_space(post),
    ensures
        trim(pre + s + post) == trim(s),
        size_answer(pre + s + post) == size_answer(s),
        solution_answer(pre + s + post) == solution_answer(s),
{
    assert(pre + s + post =~= pre + (s + post));
    lemma_trim_start_padded(pre, s + post);
    lemma_trim_start_append(s, post);
    if trim_start(s).len() > 0 {
        lemma_trim_end_padded(trim_start(s), post);
    } else {
        assert(trim_start(s + post) =~= trim_start(s));
    }
    assert(trim(pre + s + post) =~= trim(s));
}

/// The text that is read has no white space at either end, and what was cut
/// off around it is all white space.
pub proof fn lemma_trim_shape(s: Seq<char>)
    ensures
        trim(s).len() > 0 ==> !is_white_space(trim(s)[0]) && !is_white_space(trim(s).last()),
        exists|i: int, j: int|
            0 <= i <= j <= s.len() && trim(s) == s.subrange(i, j) && all_white_space(s.subrange(0, i))
                && all_white_space(s.subrange(j, s.len() as int)),
    decreases s.len(),
{
    lemma_trim_start_shape(s);
    let i = s.len() - trim_start(s).len();
    lemma_trim_end_shape(trim_start(s));
    let t = trim_start(s);
    let k = trim_end(t).len() as int;
    assert(trim(s) == s.subrange(i, i + k)) by {
        assert(t =~= s.subrange(i, s.len() as int));
        assert(trim_end(t) =~= t.subrange(0, k));
        assert(t.subrange(0, k) =~= s.subrange(i, i + k));
    }
    assert(all_white_space(s.subrange(i + k, s.len() as int))) by {
        assert(t =~= s.subrange(i, s.len() as int));
        assert forall|q: int| 0 <= q < s.len() - (i + k) implies is_white_space(
            #[trigger] s.subrange(i + k, s.len() as int)[q],
        ) by {
            assert(s.subrange(i + k, s.len() as int)[q] == t.subrange(k, t.len() as int)[q]);
        }
    }
    if trim(s).len() > 0 {
        assert(trim_end(t).len() > 0);
        assert(trim_end(t)[0] == t[0]);
    }
}

proof fn lemma_trim_start_shape(s: Seq<char>)
    ensures
        trim_start(s).len() <= s.len(),
        trim_start(s) =~= s.subrange(s.len() - trim_start(s).len(), s.len() as int),
        all_white_space(s.subrange(0, s.len() - trim_start(s).len())),
        trim_start(s).len() > 0 ==> !is_white_space(trim_start(s)[0]),
    decreases s.len(),
{
    if s.len() > 0 && is_white_space(s[0]) {
        lemma_trim_start_shape(s.drop_first());
        let n = s.len() - trim_start(s).len();
        assert forall|q: int| 0 <= q < n implies is_white_space(#[trigger] s.subrange(0, n)[q]) by {
            if q > 0 {
                assert(s.subrange(0, n)[q] == s.drop_first().subrange(0, n - 1)[q - 1]);
            }
        }
    }
}

proof fn lemma_trim_end_shape(s: Seq<char>)
    ensures
        trim_end(s).len() <= s.len(),
        trim_end(s) =~= s.subrange(0, trim_end(s).len() as int),
        all_white_space(s.subrange(trim_end(s).len() as int, s.len() as int)),
        trim_end(s).len() > 0 ==> !is_white_space(trim_end(s).last()),
    decreases s.len(),
{
    if s.len() > 0 && is_white_space(s.last()) {
        lemma_trim_end_shape(s.drop_last());
        let k = trim_end(s).len() as int;
        assert forall|q: int| 0 <= q < s.len() - k implies is_white_space(
            #[trigger] s.subrange(k, s.len() as int)[q],
        ) by {
            if k + q < s.len() - 1 {
                assert(s.subrange(k, s.len() as int)[q] == s.drop_last().subrange(k, s.len() - 1)[q]);
            }
        }
    }
}

proof fn lemma_digit_char_value(d: nat)
    requires
        d < 10,
    ensures
        is_digit(digit_char(d)),
        digit_char(d) as nat - '0' as nat == d,
{
}

/// The decimal digits of `n` are read back as `n`.
pub proof fn lemma_decimal_digits(n: nat)
    ensures
        decimal(n).len() > 0,
        all_digits(decimal(n)),
        digits_value(decimal(n)) == n,
    decreases n,
{
    let d = decimal(n);
    lemma_digit_char_value(n % 10);
    if n < 10 {
        assert(d.drop_last() =~= Seq::<char>::empty());
        assert(n % 10 == n);
        assert(digits_value(d) == digits_value(d.drop_last()) * 10 + (d.last() as nat - '0' as nat) as nat);
    } else {
        lemma_decimal_digits(n / 10);
        assert(n == (n / 10) * 10 + n % 10);
        assert(d.last() == digit_char(n % 10));
        assert(digits_value(d) == digits_value(d.drop_last()) * 10 + (d.last() as nat - '0' as nat) as nat);
        assert(d.drop_last() =~= decimal(n / 10));
        assert(digits_value(d.drop_last()) == n / 10);
        assert(d.drop_last() =~= decimal(n / 10));
        assert forall|i: int| 0 <= i < d.len() implies is_digit(#[trigger] d[i]) by {
            if i < d.len() - 1 {
                assert(d[i] == decimal(n / 10)[i]);
            }
        }
    }
}

/// A dimension typed in decimal is read back as itself when it is at least 2,
/// and refused when it is smaller.
pub proof fn lemma_size_answer_decimal(n: nat)
    requires
        n <= usize::MAX,
    ensures
        size_answer(decimal(n)) == if n >= 2 {
            Some(n as usize)
        } else {
            None::<usize>
        },
{
    lemma_decimal_digits(n);
    let d = decimal(n);
    assert(!is_white_space(d[0]));
    assert(!is_white_space(d.last()));
    assert(trim_start(d) == d);
    assert(trim_end(d) == d);
    assert(d[0] != '+');
    assert(unsigned_digits(d) == d);
}

/// Lower-casing gives `y`, `e`, `s`, `n` or `o` exactly for that letter in
/// either case.
proof fn lemma_ascii_lower_letters(c: char)
    ensures
        ascii_lower(c) == 'y' <==> c == 'y' || c == 'Y',
        ascii_lower(c) == 'e' <==> c == 'e' || c == 'E',
        ascii_lower(c) == 's' <==> c == 's' || c == 'S',
        ascii_lower(c) == 'n' <==> c == 'n' || c == 'N',
        ascii_lower(c) == 'o' <==> c == 'o' || c == 'O',
{
}

/// An answer asks for the solution exactly when, white space aside, it is `y`
/// or `yes` in any mix of upper and lower case, and declines it exactly when it
/// is `n` or `no` in any mix of case.
pub proof fn lemma_solution_answer_words(s: Seq<char>)
    ensures
        ({
            let t = trim(s);
            &&& solution_answer(s) == Some(true) <==> (t.len() == 1 && (t[0] == 'y' || t[0] == 'Y')) || (t.len() == 3
                && (t[0] == 'y' || t[0] == 'Y') && (t[1] == 'e' || t[1] == 'E') && (t[2] == 's' || t[2] == 'S'))
            &&& solution_answer(s) == Some(false) <==> (t.len() == 1 && (t[0] == 'n' || t[0] == 'N')) || (t.len()
                == 2 && (t[0] == 'n' || t[0] == 'N') && (t[1] == 'o' || t[1] == 'O'))
        }),
{
    let t = trim(s);
    let a = t.map_values(|c: char| ascii_lower(c));
    if t.len() >= 1 {
        lemma_ascii_lower_letters(t[0]);
        assert(a[0] == ascii_lower(t[0]));
    }
    if t.len() >= 2 {
        lemma_ascii_lower_letters(t[1]);
        assert(a[1] == ascii_lower(t[1]));
    }
    if t.len() >= 3 {
        lemma_ascii_lower_letters(t[2]);
        assert(a[2] == ascii_lower(t[2]));
    }
    assert(a.len() == t.len());
    if t.len() == 1 {
        if a[0] == 'y' {
            assert(a =~= seq!['y']);
        }
        if a[0] == 'n' {
            assert(a =~= seq!['n']);
        }
    }
    if t.len() == 2 && a[0] == 'n' && a[1] == 'o' {
        assert(a =~= seq!['n', 'o']);
    }
    if t.len() == 3 && a[0] == 'y' && a[1] == 'e' && a[2] == 's' {
        assert(a =~= seq!['y', 'e', 's']);
    }
    if a == seq!['y'] || a == seq!['y', 'e', 's'] {
        assert(a[0] == 'y');
    }
    if a == seq!['n'] || a == seq!['n', 'o'] {
        assert(a[0] == 'n');
    }
    if a == seq!['y', 'e', 's'] {
        assert(a[1] == 'e' && a[2] == 's');
    }
    if a == seq!['n', 'o'] {
        assert(a[1] == 'o');
    }
}

} // verus!
