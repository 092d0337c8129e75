//! A bijective positional codec between non-negative integers and strings
//! over a caller-supplied alphabet.
//!
//! The alphabet is an ordered sequence of at least two distinct characters;
//! its length is the base `B`, and the index of a character is its digit
//! value. Decoding is ordinary positional notation with the rightmost
//! character least significant. Encoding produces the unique minimal-length
//! string that decodes back: no leading lowest-valued digit is ever emitted,
//! and `0` encodes as the empty string.

use vstd::arithmetic::div_mod::lemma_basic_div;
use vstd::arithmetic::div_mod::lemma_div_decreases;
use vstd::arithmetic::div_mod::lemma_fundamental_div_mod;
use vstd::arithmetic::div_mod::lemma_fundamental_div_mod_converse;
use vstd::arithmetic::div_mod::lemma_small_mod;
use vstd::arithmetic::mul::lemma_mul_basics;
use vstd::arithmetic::mul::lemma_mul_inequality;
use vstd::arithmetic::mul::lemma_mul_is_associative;
use vstd::arithmetic::mul::lemma_mul_is_commutative;
use vstd::arithmetic::mul::lemma_mul_is_distributive_add;
use vstd::arithmetic::mul::lemma_mul_nonnegative;
use vstd::arithmetic::power::lemma_pow0;
use vstd::arithmetic::power::lemma_pow1;
use vstd::arithmetic::power::lemma_pow_adds;
use vstd::arithmetic::power::lemma_pow_positive;
use vstd::arithmetic::power::pow;
use vstd::calc;
use vstd::prelude::*;
use vstd::string::StrSliceExecFns;

use crate::error::Error;

verus! {

/// An alphabet is usable when it has at least two characters, all distinct.
pub open spec fn valid_alphabet(a: Seq<char>) -> bool {
    &&& a.len() >= 2
    &&& forall|i: int, j: int| 0 <= i < j < a.len() ==> a[i] != a[j]
}

/// The digit value of `c`: its index in the alphabet `a`.
///
/// Meaningful only when `c` occurs in `a`; for a character that does not
/// occur, the value is unconstrained.
pub open spec fn digit_value(a: Seq<char>, c: char) -> int {
    choose|i: int| 0 <= i < a.len() && a[i] == c
}

/// The number that the string `s` denotes in positional notation over the
/// alphabet `a`: the rightmost character is the least-significant digit.
pub open spec fn decode_spec(s: Seq<char>, a: Seq<char>) -> int
    decreases s.len(),
{
    if s.len() == 0 {
        0
    } else {
        decode_spec(s.drop_last(), a) * a.len() + digit_value(a, s.last())
    }
}

/// The minimal-length positional representation of `n` over the alphabet
/// `a`: digits are peeled off least-significant first, and nothing is
/// emitted once the remaining value is zero, so `0` maps to the empty
/// string and no encoding has a leading `a[0]`.
pub open spec fn encode_spec(n: int, a: Seq<char>) -> Seq<char>
    decreases n,
    via encode_spec_decreases
{
    if n <= 0 || a.len() < 2 {
        Seq::empty()
    } else {
        encode_spec(n / a.len() as int, a).push(a[n % a.len() as int])
    }
}

#[via_fn]
proof fn encode_spec_decreases(n: int, a: Seq<char>) {
    if !(n <= 0 || a.len() < 2) {
        lemma_div_decreases(n, a.len() as int);
    }
}

/// Every character of `s` occurs in the alphabet `a`.
pub open spec fn all_in_alphabet(s: Seq<char>, a: Seq<char>) -> bool {
    forall|i: int| 0 <= i < s.len() ==> a.contains(s[i])
}

/// In a valid alphabet the digit value of the character at index `i` is
/// exactly `i`: distinctness makes the index well defined.
pub proof fn lemma_digit_value_unique(a: Seq<char>, c: char, i: int)
    requires
        valid_alphabet(a),
        0 <= i < a.len(),
        a[i] == c,
    ensures
        digit_value(a, c) == i,
{
    let j = digit_value(a, c);
    assert(0 <= j < a.len() && a[j] == c) by {
        assert(exists|k: int| 0 <= k < a.len() && a[k] == c) by {
            assert(0 <= i < a.len() && a[i] == c);
        }
    }
    if j < i {
        assert(a[j] != a[i]);
    } else if i < j {
        assert(a[i] != a[j]);
    }
}

/// A string over a valid alphabet never denotes a negative number.
pub proof fn lemma_decode_nonneg(s: Seq<char>, a: Seq<char>)
    requires
        valid_alphabet(a),
        all_in_alphabet(s, a),
    ensures
        0 <= decode_spec(s, a),
    decreases s.len(),
{
    if s.len() > 0 {
        assert(all_in_alphabet(s.drop_last(), a)) by {
            assert forall|i: int| 0 <= i < s.drop_last().len() implies a.contains(
                s.drop_last()[i],
            ) by {
                assert(s.drop_last()[i] == s[i]);
            }
        }
        lemma_decode_nonneg(s.drop_last(), a);
        assert(a.contains(s.last())) by {
            assert(0 <= s.len() - 1 < s.len());
        }
        assert(0 <= digit_value(a, s.last()) < a.len());
        lemma_mul_nonnegative(decode_spec(s.drop_last(), a), a.len() as int);
    }
}

/// Decoding inverts encoding: for every valid alphabet and every
/// non-negative integer `n`, the encoding of `n` decodes back to `n`.
pub proof fn lemma_round_trip(n: int, a: Seq<char>)
    requires
        valid_alphabet(a),
        0 <= n,
    ensures
        decode_spec(encode_spec(n, a), a) == n,
    decreases n,
{
    if n > 0 {
        let b = a.len() as int;
        lemma_div_decreases(n, b);
        lemma_round_trip(n / b, a);
        let s = encode_spec(n / b, a);
        let c = a[n % b];
        assert(encode_spec(n, a) == s.push(c));
        assert(s.push(c).drop_last() =~= s);
        assert(s.push(c).last() == c);
        lemma_digit_value_unique(a, c, n % b);
        lemma_fundamental_div_mod(n, b);
        lemma_mul_is_commutative(b, n / b);
    }
}

/// Every character of an encoding is drawn from the alphabet.
pub proof fn lemma_encode_closure(n: int, a: Seq<char>)
    requires
        valid_alphabet(a),
        0 <= n,
    ensures
        all_in_alphabet(encode_spec(n, a), a),
    decreases n,
{
    if n > 0 {
        let b = a.len() as int;
        lemma_div_decreases(n, b);
        lemma_encode_closure(n / b, a);
        let s = encode_spec(n / b, a);
        let c = a[n % b];
        assert(a.contains(c)) by {
            assert(0 <= n % b < a.len() && a[n % b] == c);
        }
        assert forall|i: int| 0 <= i < s.push(c).len() implies a.contains(s.push(c)[i]) by {
            if i < s.len() {
                assert(s.push(c)[i] == s[i]);
            } else {
                assert(s.push(c)[i] == c);
            }
        }
    }
}

/// Decoding is linear in concatenation: a string splits as
/// `decode(s1 ++ s2) == decode(s1) * B^|s2| + decode(s2)`.
pub proof fn lemma_decode_append(s1: Seq<char>, s2: Seq<char>, a: Seq<char>)
    requires
        valid_alphabet(a),
    ensures
        decode_spec(s1 + s2, a) == decode_spec(s1, a) * pow(a.len() as int, s2.len()) + decode_spec(
            s2,
            a,
        ),
    decreases s2.len(),
{
    let b = a.len() as int;
    if s2.len() == 0 {
        assert(s1 + s2 =~= s1);
        lemma_pow0(b);
    } else {
        let s2p = s2.drop_last();
        let c = s2.last();
        lemma_decode_append(s1, s2p, a);
        assert((s1 + s2).drop_last() =~= s1 + s2p);
        assert((s1 + s2).last() == c);
        let x = decode_spec(s1, a);
        let y = decode_spec(s2p, a);
        let d = digit_value(a, c);
        let p = pow(b, s2p.len());
        calc! {
            (==)
            decode_spec(s1 + s2, a); {}
            (x * p + y) * b + d; {
                lemma_mul_is_commutative(x * p + y, b);
                lemma_mul_is_distributive_add(b, x * p, y);
                lemma_mul_is_commutative(b, x * p);
                lemma_mul_is_commutative(b, y);
            }
            (x * p) * b + (y * b + d); {
                lemma_mul_is_associative(x, p, b);
            }
            x * (p * b) + (y * b + d); {
                lemma_pow1(b);
                lemma_pow_adds(b, s2p.len(), 1);
            }
            x * pow(b, s2.len()) + decode_spec(s2, a);
        }
    }
}

/// The empty string denotes zero over every alphabet.
pub proof fn lemma_decode_empty(a: Seq<char>)
    ensures
        decode_spec(Seq::<char>::empty(), a) == 0,
{
}

/// A prefix of a string never denotes more than the whole string.
pub proof fn lemma_decode_prefix(s: Seq<char>, a: Seq<char>, k: int)
    requires
        valid_alphabet(a),
        all_in_alphabet(s, a),
        0 <= k <= s.len(),
    ensures
        decode_spec(s.subrange(0, k), a) <= decode_spec(s, a),
{
    let pre = s.subrange(0, k);
    let suf = s.subrange(k, s.len() as int);
    assert(s =~= pre + suf);
    assert(all_in_alphabet(pre, a)) by {
        assert forall|i: int| 0 <= i < pre.len() implies a.contains(pre[i]) by {
            assert(pre[i] == s[i]);
        }
    }
    assert(all_in_alphabet(suf, a)) by {
        assert forall|i: int| 0 <= i < suf.len() implies a.contains(suf[i]) by {
            assert(suf[i] == s[k + i]);
        }
    }
    lemma_decode_append(pre, suf, a);
    lemma_decode_nonneg(pre, a);
    lemma_decode_nonneg(suf, a);
    let b = a.len() as int;
    let p = pow(b, suf.len());
    lemma_pow_positive(b, suf.len());
    lemma_mul_inequality(1, p, decode_spec(pre, a));
    lemma_mul_is_commutative(p, decode_spec(pre, a));
}

/// The encoding of a positive `n` has exactly `ceil(log_B(n + 1))`
/// characters; stated exactly: its length `L` is the unique integer with
/// `B^(L-1) <= n < B^L`.
pub proof fn lemma_encode_length(n: int, a: Seq<char>)
    requires
        valid_alphabet(a),
        1 <= n,
    ensures
        encode_spec(n, a).len() >= 1,
        pow(a.len() as int, (encode_spec(n, a).len() - 1) as nat) <= n,
        n < pow(a.len() as int, encode_spec(n, a).len() as nat),
    decreases n,
{
    let b = a.len() as int;
    let q = n / b;
    let s = encode_spec(n, a);
    lemma_div_decreases(n, b);
    lemma_fundamental_div_mod(n, b);
    if q == 0 {
        assert(encode_spec(q, a) == Seq::<char>::empty());
        assert(s.len() == 1);
        lemma_pow0(b);
        lemma_pow1(b);
        assert(n == b * q + n % b);
        assert(n < b);
    } else {
        lemma_encode_length(q, a);
        let sp = encode_spec(q, a);
        assert(s.len() == sp.len() + 1);
        let lp = sp.len();
        // lower bound: pow(b, lp - 1) <= q  ==>  pow(b, lp) <= q * b <= n
        calc! {
            (<=)
            pow(b, (lp - 1 + 1) as nat); {
                lemma_pow_adds(b, (lp - 1) as nat, 1);
                lemma_pow1(b);
            }
            pow(b, (lp - 1) as nat) * b; {
                lemma_mul_inequality(pow(b, (lp - 1) as nat), q, b);
            }
            q * b; {
                lemma_mul_is_commutative(q, b);
                assert(n == b * q + n % b);
            }
            n;
        }
        // upper bound: q < pow(b, lp)  ==>  n < b * (q + 1) <= b * pow(b, lp)
        calc! {
            (<=)
            n + 1; {
                assert(n == b * q + n % b);
                assert(n % b < b);
            }
            b * q + b; {
                lemma_mul_is_distributive_add(b, q, 1);
            }
            b * (q + 1); {
                lemma_mul_inequality(q + 1, pow(b, lp), b);
                lemma_mul_is_commutative(q + 1, b);
                lemma_mul_is_commutative(pow(b, lp), b);
            }
            b * pow(b, lp); {
                lemma_pow_adds(b, 1, lp);
                lemma_pow1(b);
            }
            pow(b, (lp + 1) as nat);
        }
        assert(n < pow(b, s.len() as nat));
    }
}

/// A string is canonical when it does not begin with the lowest-valued
/// digit: exactly the empty string and the strings that `encode` produces
/// for positive numbers.
pub open spec fn canonical(s: Seq<char>, a: Seq<char>) -> bool {
    s.len() > 0 ==> s[0] != a[0]
}

/// A non-empty canonical string denotes at least `B^(L-1)`, and so in
/// particular a positive number.
pub proof fn lemma_decode_positive(s: Seq<char>, a: Seq<char>)
    requires
        valid_alphabet(a),
        all_in_alphabet(s, a),
        s.len() > 0,
        canonical(s, a),
    ensures
        decode_spec(s, a) >= pow(a.len() as int, (s.len() - 1) as nat),
        decode_spec(s, a) > 0,
{
    let b = a.len() as int;
    let head = seq![s[0]];
    let rest = s.subrange(1, s.len() as int);
    assert(s =~= head + rest);
    lemma_decode_append(head, rest, a);
    assert(head.drop_last() =~= Seq::<char>::empty());
    assert(decode_spec(Seq::<char>::empty(), a) == 0);
    let d0 = digit_value(a, s[0]);
    assert(decode_spec(head, a) == d0);
    assert(a.contains(s[0])) by {
        assert(0 <= 0 < s.len());
    }
    assert(0 <= d0 < a.len() && a[d0] == s[0]);
    assert(d0 != 0) by {
        if d0 == 0 {
            assert(a[0] == s[0]);
        }
    }
    assert(all_in_alphabet(rest, a)) by {
        assert forall|i: int| 0 <= i < rest.len() implies a.contains(rest[i]) by {
            assert(rest[i] == s[1 + i]);
        }
    }
    lemma_decode_nonneg(rest, a);
    lemma_pow_positive(b, rest.len());
    lemma_mul_inequality(1, d0, pow(b, rest.len()));
}

/// Encoding inverts decoding on its own image: a canonical string over a
/// valid alphabet is reproduced by encoding the number it denotes.
pub proof fn lemma_encode_of_decode(s: Seq<char>, a: Seq<char>)
    requires
        valid_alphabet(a),
        all_in_alphabet(s, a),
        canonical(s, a),
    ensures
        encode_spec(decode_spec(s, a), a) == s,
    decreases s.len(),
{
    let b = a.len() as int;
    if s.len() == 0 {
        assert(encode_spec(0, a) == Seq::<char>::empty());
        assert(s =~= Seq::<char>::empty());
    } else {
        let sp = s.drop_last();
        let c = s.last();
        let dc = digit_value(a, c);
        assert(a.contains(c)) by {
            assert(0 <= s.len() - 1 < s.len());
        }
        assert(0 <= dc < b && a[dc] == c);
        assert(all_in_alphabet(sp, a)) by {
            assert forall|i: int| 0 <= i < sp.len() implies a.contains(sp[i]) by {
                assert(sp[i] == s[i]);
            }
        }
        let vp = decode_spec(sp, a);
        let v = decode_spec(s, a);
        assert(v == vp * b + dc);
        lemma_encode_of_decode(sp, a);
        if sp.len() == 0 {
            assert(vp == 0);
            lemma_mul_basics(b);
            assert(v == dc);
            assert(c == s[0]);
            assert(dc != 0) by {
                if dc == 0 {
                    assert(a[0] == c);
                }
            }
            lemma_basic_div(v, b);
            lemma_small_mod(v as nat, b as nat);
            assert(encode_spec(v, a) == encode_spec(v / b, a).push(a[v % b]));
            assert(encode_spec(0, a) == Seq::<char>::empty());
            assert(encode_spec(v, a) =~= s);
        } else {
            lemma_decode_positive(sp, a);
            lemma_mul_inequality(1, vp, b);
            assert(v > 0);
            lemma_fundamental_div_mod_converse(v, b, vp, dc);
            assert(encode_spec(v, a) == encode_spec(vp, a).push(a[dc]));
            assert(encode_spec(v, a) =~= s);
        }
    }
}

/// Collects the characters of a string slice into a vector.
fn collect_chars(s: &str) -> (v: Vec<char>)
    ensures
        v@ == s@,
{
    let n = s.unicode_len();
    let mut v: Vec<char> = Vec::new();
    let mut i: usize = 0;
    while i < n
        invariant
            n == s@.len(),
            i <= n,
            v@ == s@.subrange(0, i as int),
        decreases n - i,
    {
        let c = s.get_char(i);
        v.push(c);
        proof {
            assert(v@ =~= s@.subrange(0, i + 1 as int));
        }
        i = i + 1;
    }
    proof {
        assert(v@ =~= s@);
    }
    v
}

/// Decides whether the characters form a valid alphabet: at least two of
/// them, all distinct.
fn check_alphabet(av: &Vec<char>) -> (r: bool)
    ensures
        r == valid_alphabet(av@),
{
    if av.len() < 2 {
        return false;
    }
    let n = av.len();
    let mut i: usize = 0;
    while i < n
        invariant
            n == av@.len(),
            i <= n,
            forall|p: int, q: int| 0 <= p < q < n && p < i ==> av@[p] != av@[q],
        decreases n - i,
    {
        let mut j: usize = i + 1;
        while j < n
            invariant
                n == av@.len(),
                i < j <= n,
                forall|q: int| i < q < j ==> av@[i as int] != av@[q],
            decreases n - j,
        {
            if av[i] == av[j] {
                return false;
            }
            j = j + 1;
        }
        i = i + 1;
    }
    true
}

/// Finds the index of the first occurrence of `c` in `av`, if any.
fn find_index(av: &Vec<char>, c: char) -> (r: Option<usize>)
    ensures
        match r {
            Some(i) => i < av@.len() && av@[i as int] == c,
            None => !av@.contains(c),
        },
{
    let n = av.len();
    let mut i: usize = 0;
    while i < n
        invariant
            n == av@.len(),
            i <= n,
            forall|k: int| 0 <= k < i ==> av@[k] != c,
        decreases n - i,
    {
        if av[i] == c {
            return Some(i);
        }
        i = i + 1;
    }
    None
}

/// Relies on `String::push`: appends the character to the end of the string.
#[verifier::external_body]
fn push_char(s: &mut String, c: char)
    ensures
        final(s)@ == old(s)@.push(c),
{
    s.push(c);
}

/// Encodes the non-negative integer `n` as a string over `alphabet`.
///
/// Returns the unique minimal-length positional representation of `n`: the
/// empty string for `0`, and otherwise a string with no leading
/// lowest-valued digit. Fails exactly when the alphabet has fewer than two
/// characters or holds a duplicate.
pub fn encode(n: u128, alphabet: &str) -> (r: Result<String, Error>)
    ensures
        match r {
            Ok(s) => valid_alphabet(alphabet@) && s@ == encode_spec(n as int, alphabet@),
            Err(e) => e == Error::InvalidAlphabet && !valid_alphabet(alphabet@),
        },
{
    let av = collect_chars(alphabet);
    if !check_alphabet(&av) {
        return Err(Error::InvalidAlphabet);
    }
    let ghost a = av@;
    let ghost b = a.len() as int;
    let base = av.len() as u128;
    let mut digits: Vec<char> = Vec::new();
    let mut m = n;
    while m != 0
        invariant
            valid_alphabet(a),
            a == av@,
            b == a.len() as int,
            base == a.len() as u128,
            encode_spec(n as int, a) == encode_spec(m as int, a) + digits@.reverse(),
        decreases m,
    {
        let ghost m_pre = m as int;
        let ghost digits_pre = digits@;
        let d = (m % base) as usize;
        let c = av[d];
        digits.push(c);
        m = m / base;
        proof {
            lemma_div_decreases(m_pre, b);
            assert(encode_spec(m_pre, a) == encode_spec(m_pre / b, a).push(a[m_pre % b]));
            assert(c == a[m_pre % b]);
            assert(digits_pre.push(c).reverse() =~= seq![c] + digits_pre.reverse());
            assert(encode_spec(m_pre / b, a) + (seq![c] + digits_pre.reverse()) =~= encode_spec(
                m_pre / b,
                a,
            ).push(c) + digits_pre.reverse());
        }
    }
    proof {
        assert(encode_spec(0, a) == Seq::<char>::empty());
        assert(Seq::<char>::empty() + digits@.reverse() =~= digits@.reverse());
    }
    let len = digits.len();
    let mut out = String::new();
    let mut j: usize = 0;
    while j < len
        invariant
            len == digits@.len(),
            j <= len,
            out@.len() == j,
            forall|k: int| 0 <= k < j ==> out@[k] == digits@[len - 1 - k],
        decreases len - j,
    {
        push_char(&mut out, digits[len - 1 - j]);
        j = j + 1;
    }
    proof {
        assert(out@ =~= digits@.reverse());
    }
    Ok(out)
}

/// Decodes a string over `alphabet` back to the integer it denotes, with
/// the rightmost character least significant.
///
/// Fails with `InvalidAlphabet` when the alphabet has fewer than two
/// characters or holds a duplicate; with `InvalidSymbol` when a character
/// of `s` does not occur in the alphabet; and with `OutOfRange` when the
/// denoted value does not fit in 128 bits. On every other input it
/// succeeds, and the empty string decodes to `0`.
pub fn decode(s: &str, alphabet: &str) -> (r: Result<u128, Error>)
    ensures
        match r {
            Ok(v) => valid_alphabet(alphabet@) && all_in_alphabet(s@, alphabet@) && v as int
                == decode_spec(s@, alphabet@),
            Err(e) => match e {
                Error::InvalidAlphabet => !valid_alphabet(alphabet@),
                Error::InvalidSymbol => valid_alphabet(alphabet@) && !all_in_alphabet(
                    s@,
                    alphabet@,
                ),
                Error::OutOfRange => valid_alphabet(alphabet@) && all_in_alphabet(s@, alphabet@)
                    && decode_spec(s@, alphabet@) > u128::MAX,
                Error::ClockUnavailable => false,
            },
        },
{
    let av = collect_chars(alphabet);
    if !check_alphabet(&av) {
        return Err(Error::InvalidAlphabet);
    }
    let sv = collect_chars(s);
    let ghost a = av@;
    let ghost b = a.len() as int;
    let n = sv.len();
    let mut dv: Vec<usize> = Vec::new();
    let mut i: usize = 0;
    while i < n
        invariant
            valid_alphabet(a),
            a == av@,
            a == alphabet@,
            sv@ == s@,
            n == sv@.len(),
            i <= n,
            dv@.len() == i,
            forall|k: int|
                0 <= k < i ==> #[trigger] dv@[k] < a.len() && a[dv@[k] as int] == sv@[k],
        decreases n - i,
    {
        let ghost dv_pre = dv@;
        match find_index(&av, sv[i]) {
            Some(d) => {
                dv.push(d);
                proof {
                    assert forall|k: int| 0 <= k < i + 1 implies dv@[k] < a.len() && a[dv@[
                        k
                    ] as int] == sv@[k] by {
                        if k < i {
                            assert(dv@[k] == dv_pre[k]);
                        } else {
                            assert(dv@[k] == d);
                        }
                    }
                }
            },
            None => {
                proof {
                    assert(!all_in_alphabet(s@, a)) by {
                        assert(0 <= i < s@.len() && !a.contains(s@[i as int]));
                    }
                }
                return Err(Error::InvalidSymbol);
            },
        }
        i = i + 1;
    }
    proof {
        assert(all_in_alphabet(s@, a)) by {
            assert forall|k: int| 0 <= k < s@.len() implies a.contains(s@[k]) by {
                assert(a[dv@[k] as int] == sv@[k]);
            }
        }
    }
    let base = av.len() as u128;
    let mut acc: u128 = 0;
    let mut k: usize = 0;
    while k < n
        invariant
            valid_alphabet(a),
            a == av@,
            a == alphabet@,
            sv@ == s@,
            n == sv@.len(),
            all_in_alphabet(s@, a),
            b == a.len() as int,
            base == a.len() as u128,
            2 <= base,
            base as int == b,
            k <= n,
            dv@.len() == n,
            forall|t: int|
                0 <= t < n ==> #[trigger] dv@[t] < a.len() && a[dv@[t] as int] == sv@[t],
            acc as int == decode_spec(sv@.subrange(0, k as int), a),
        decreases n - k,
    {
        let ghost pre = sv@.subrange(0, k as int);
        let ghost pre1 = sv@.subrange(0, k + 1 as int);
        let d = dv[k] as u128;
        proof {
            lemma_digit_value_unique(a, sv@[k as int], dv@[k as int] as int);
            assert(pre1.drop_last() =~= pre);
            assert(pre1.last() == sv@[k as int]);
            assert(decode_spec(pre1, a) == decode_spec(pre, a) * b + digit_value(
                a,
                sv@[k as int],
            ));
        }
        if acc > (u128::MAX - d) / base {
            proof {
                // acc >= (MAX - d) / base + 1, so acc * base + d > MAX.
                let q = (u128::MAX - d) as int / b;
                lemma_fundamental_div_mod((u128::MAX - d) as int, b);
                lemma_mul_inequality(q + 1, acc as int, b);
                lemma_mul_is_distributive_add(b, q, 1);
                lemma_mul_is_commutative(q + 1, b);
                lemma_mul_is_commutative(acc as int, b);
                lemma_mul_is_commutative(b, q);
                assert(acc as int * b + d as int > u128::MAX);
                lemma_decode_prefix(sv@, a, k + 1);
                assert(sv@.subrange(0, sv@.len() as int) =~= sv@);
                assert(decode_spec(sv@, a) > u128::MAX);
            }
            return Err(Error::OutOfRange);
        }
        proof {
            // acc <= (MAX - d) / base, so acc * base + d fits in 128 bits.
            let q = (u128::MAX - d) as int / b;
            lemma_fundamental_div_mod((u128::MAX - d) as int, b);
            lemma_mul_inequality(acc as int, q, b);
            lemma_mul_is_commutative(acc as int, b);
            lemma_mul_is_commutative(q, b);
            assert(acc as int * b + d as int <= u128::MAX);
        }
        acc = acc * base + d;
        k = k + 1;
    }
    proof {
        assert(sv@.subrange(0, n as int) =~= sv@);
    }
    Ok(acc)
}

} // verus!
