//! Balanced-parenthesis checks over byte strings and over bit patterns.

use vstd::prelude::*;

verus! {

/// `+1` for an opening byte, `-1` for anything else (the caller promises
/// every byte is one of the two).
pub open spec fn paren_delta(c: u8, l: u8) -> int {
    if c == l {
        1
    } else {
        -1
    }
}

/// The nesting depth after reading the first `i` bytes.
pub open spec fn paren_count(s: Seq<u8>, l: u8, i: int) -> int
    decreases i,
{
    if i <= 0 {
        0
    } else {
        paren_count(s, l, i - 1) + paren_delta(s[i - 1], l)
    }
}

/// Is `s` a balanced parenthesis string over the alphabet `{l, r}`?
/// Every byte is `l` or `r`, no prefix closes more than it has opened,
/// and the string ends at depth zero.
pub open spec fn is_parenthesis(s: Seq<u8>, l: u8, r: u8) -> bool {
    &&& forall|j: int| 0 <= j < s.len() ==> s[j] == l || (#[trigger] s[j]) == r
    &&& forall|i: int| 0 <= i <= s.len() ==> #[trigger] paren_count(s, l, i) >= 0
    &&& paren_count(s, l, s.len() as int) == 0
}

/// Decide whether `s` is a balanced parenthesis string, with `l` as the
/// opening byte and `r` as the closing byte.
pub fn vec_is_parenthesis(s: &[u8], l: u8, r: u8) -> (res: bool)
    requires
        s@.len() <= u32::MAX,
    ensures
        res == is_parenthesis(s@, l, r),
{
    let n = s.len();
    let mut t: u32 = 0;
    let mut i: usize = 0;
    while i < n
        invariant
            i <= n,
            n == s@.len(),
            n <= u32::MAX,
            t as int == paren_count(s@, l, i as int),
            t as int <= i as int,
            forall|j: int| 0 <= j < i ==> s@[j] == l || (#[trigger] s@[j]) == r,
            forall|j: int| 0 <= j <= i ==> #[trigger] paren_count(s@, l, j) >= 0,
        decreases n - i,
    {
        let c = s[i];
        if c == l {
            t = t + 1;
        } else if c == r {
            if t == 0 {
                proof {
                    assert(paren_count(s@, l, i + 1) == -1);
                }
                return false;
            }
            t = t - 1;
        } else {
            return false;
        }
        i = i + 1;
    }
    t == 0
}

/// The bit of `b` at position `i`.
pub open spec fn bit_at(b: usize, i: nat) -> bool {
    b as nat / vstd::arithmetic::power2::pow2(i) % 2 == 1
}

/// `+1` for a zero bit (opening), `-1` for a one bit (closing).
pub open spec fn bit_delta(b: usize, i: nat) -> int {
    if bit_at(b, i) {
        -1
    } else {
        1
    }
}

/// The nesting depth after reading the first `t` bits, starting from
/// bit `n - 1` and moving down.
pub open spec fn bit_count(n: nat, b: usize, t: int) -> int
    decreases t,
{
    if t <= 0 || t > n {
        0
    } else {
        bit_count(n, b, t - 1) + bit_delta(b, (n - t) as nat)
    }
}

/// Is the length-`n` bit pattern of `b` balanced, reading from bit
/// `n - 1` down to bit `0`, with a zero bit opening and a one bit
/// closing?
pub open spec fn num_is_parenthesis_spec(n: nat, b: usize) -> bool {
    &&& forall|t: int| 0 <= t <= n ==> #[trigger] bit_count(n, b, t) >= 0
    &&& bit_count(n, b, n as int) == 0
}

/// Decide whether the length-`n` bit pattern of `b` is balanced.
pub fn num_is_parenthesis(n: usize, b: usize) -> (res: bool)
    requires
        n <= 32,
    ensures
        res == num_is_parenthesis_spec(n as nat, b),
{
    let mut cnt: i32 = 0;
    let mut t: usize = 0;
    while t < n
        invariant
            t <= n,
            n <= 32,
            cnt as int == bit_count(n as nat, b, t as int),
            -(t as int) <= cnt as int <= t as int,
            forall|u: int| 0 <= u <= t ==> #[trigger] bit_count(n as nat, b, u) >= 0,
        decreases n - t,
    {
        let i = n - 1 - t;
        proof {
            vstd::bits::lemma_usize_shr_is_div(b, i);
        }
        let bit = (b >> i) % 2;
        proof {
            assert((bit == 1) == bit_at(b, i as nat));
            assert(bit_count(n as nat, b, t as int + 1) == bit_count(n as nat, b, t as int)
                + bit_delta(b, i as nat));
        }
        if bit == 0 {
            cnt = cnt + 1;
        } else {
            cnt = cnt - 1;
        }
        proof {
            assert(cnt as int == bit_count(n as nat, b, t as int + 1));
        }
        if cnt < 0 {
            proof {
                assert(!num_is_parenthesis_spec(n as nat, b));
            }
            return false;
        }
        t = t + 1;
    }
    cnt == 0
}

} // verus!
