//! Characters and names: decimal rendering of counters, the reserved
//! prefix of generated temporaries, and conversions between character
//! vectors and strings.

use vstd::prelude::*;

verus! {

/// The character of one decimal digit.
pub open spec fn digit_char(d: int) -> char {
    if d == 0 {
        '0'
    } else if d == 1 {
        '1'
    } else if d == 2 {
        '2'
    } else if d == 3 {
        '3'
    } else if d == 4 {
        '4'
    } else if d == 5 {
        '5'
    } else if d == 6 {
        '6'
    } else if d == 7 {
        '7'
    } else if d == 8 {
        '8'
    } else {
        '9'
    }
}

/// The decimal digits of `n`, most significant first, without leading zeros
/// (a single `'0'` for zero).
pub open spec fn digits_of(n: nat) -> Seq<char>
    decreases n,
{
    if n < 10 {
        seq![digit_char(n as int)]
    } else {
        digits_of(n / 10) + seq![digit_char((n % 10) as int)]
    }
}

/// The numeric value of one decimal digit character.
pub open spec fn digit_val(c: char) -> int {
    if c == '0' {
        0
    } else if c == '1' {
        1
    } else if c == '2' {
        2
    } else if c == '3' {
        3
    } else if c == '4' {
        4
    } else if c == '5' {
        5
    } else if c == '6' {
        6
    } else if c == '7' {
        7
    } else if c == '8' {
        8
    } else {
        9
    }
}

/// The value a digit sequence denotes, most significant first.
pub open spec fn digits_val(s: Seq<char>) -> int
    decreases s,
{
    if s.len() == 0 {
        0
    } else {
        digits_val(s.drop_last()) * 10 + digit_val(s.last())
    }
}

/// Rendering a number and reading it back recovers the number; the
/// rendering is never empty.
pub proof fn lemma_digits_value(n: nat)
    ensures
        digits_val(digits_of(n)) == n,
        digits_of(n).len() >= 1,
    decreases n,
{
    if n < 10 {
        let s = digits_of(n);
        assert(s.len() == 1);
        assert(s.drop_last() =~= Seq::<char>::empty());
        assert(digits_val(s.drop_last()) == 0);
        assert(s.last() == digit_char(n as int));
        assert(digit_val(digit_char(n as int)) == n);
    } else {
        lemma_digits_value(n / 10);
        let s = digits_of(n);
        assert(s.last() == digit_char((n % 10) as int));
        assert(s.drop_last() =~= digits_of(n / 10));
        assert(digit_val(digit_char((n % 10) as int)) == n % 10);
        assert(digits_val(s) == (n / 10) * 10 + n % 10);
        assert((n / 10) * 10 + n % 10 == n) by (nonlinear_arith);
    }
}

/// Distinct numbers render to distinct digit sequences.
pub proof fn lemma_digits_injective(a: nat, b: nat)
    ensures
        digits_of(a) == digits_of(b) ==> a == b,
{
    if digits_of(a) == digits_of(b) {
        lemma_digits_value(a);
        lemma_digits_value(b);
    }
}

/// The prefix reserved for compiler-generated temporaries.
pub open spec fn temp_prefix() -> Seq<char> {
    seq!['_', '_', 't', 'e', 'm', 'p']
}

/// The name of the temporary with index `n`.
pub open spec fn temp_name(n: nat) -> Seq<char> {
    temp_prefix() + digits_of(n)
}

/// A name the compiler reserves for itself: one starting with the
/// temporary prefix. User programs must not declare or mention such names
/// for the freshness guarantee to apply.
pub open spec fn is_reserved(s: Seq<char>) -> bool {
    s.len() >= temp_prefix().len() && s.subrange(0, temp_prefix().len() as int) == temp_prefix()
}

/// Generated temporary names are pairwise distinct.
pub proof fn lemma_temp_name_injective(a: nat, b: nat)
    ensures
        temp_name(a) == temp_name(b) ==> a == b,
{
    if temp_name(a) == temp_name(b) {
        lemma_digits_value(a);
        lemma_digits_value(b);
        assert(digits_of(a) =~= temp_name(a).subrange(6, temp_name(a).len() as int));
        assert(digits_of(b) =~= temp_name(b).subrange(6, temp_name(b).len() as int));
        lemma_digits_injective(a, b);
    }
}

/// Every generated temporary name carries the reserved prefix, so it can
/// never equal a name that does not.
pub proof fn lemma_temp_name_reserved(n: nat)
    ensures
        is_reserved(temp_name(n)),
{
    lemma_digits_value(n);
    assert(temp_name(n).subrange(0, 6) =~= temp_prefix());
}

/// The character of one decimal digit.
pub fn digit_char_exec(d: usize) -> (c: char)
    requires
        d < 10,
    ensures
        c == digit_char(d as int),
{
    if d == 0 {
        '0'
    } else if d == 1 {
        '1'
    } else if d == 2 {
        '2'
    } else if d == 3 {
        '3'
    } else if d == 4 {
        '4'
    } else if d == 5 {
        '5'
    } else if d == 6 {
        '6'
    } else if d == 7 {
        '7'
    } else if d == 8 {
        '8'
    } else {
        '9'
    }
}

/// Appends the decimal digits of `n` to `v`, most significant first.
pub fn push_digits(v: &mut Vec<char>, n: usize)
    ensures
        final(v)@ == old(v)@ + digits_of(n as nat),
    decreases n,
{
    if n < 10 {
        v.push(digit_char_exec(n));
        assert(v@ =~= old(v)@ + digits_of(n as nat));
    } else {
        push_digits(v, n / 10);
        v.push(digit_char_exec(n % 10));
        assert(v@ =~= old(v)@ + digits_of(n as nat));
    }
}

/// Builds the name of the temporary with index `n`.
pub fn temp_name_string(n: usize) -> (s: String)
    ensures
        s@ == temp_name(n as nat),
{
    let mut v: Vec<char> = Vec::new();
    v.push('_');
    v.push('_');
    v.push('t');
    v.push('e');
    v.push('m');
    v.push('p');
    assert(v@ =~= temp_prefix());
    push_digits(&mut v, n);
    chars_to_string(&v)
}

/// Relies on `core::iter::Iterator::collect` into `String`, which
/// concatenates the characters of the iterator in order.
#[verifier::external_body]
pub fn chars_to_string(v: &Vec<char>) -> (s: String)
    ensures
        s@ == v@,
{
    v.iter().collect()
}

/// The characters of a string slice, in order.
pub fn str_to_chars(s: &str) -> (v: Vec<char>)
    ensures
        v@ == s@,
{
    let n = s.unicode_len();
    let mut v: Vec<char> = Vec::new();
    let mut i: usize = 0;
    while i < n
        invariant
            n == s@.len(),
            i <= n,
            v@ =~= s@.subrange(0, i as int),
        decreases n - i,
    {
        v.push(s.get_char(i));
        i = i + 1;
        assert(v@ =~= s@.subrange(0, i as int));
    }
    assert(v@ =~= s@);
    v
}

} // verus!
