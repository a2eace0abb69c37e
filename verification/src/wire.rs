//! Unsigned integers in network byte order.

use vstd::prelude::*;

verus! {

/// The number that `s` spells, most significant byte first.
pub open spec fn be_value(s: Seq<u8>) -> nat
    decreases s.len(),
{
    if s.len() == 0 {
        0
    } else {
        be_value(s.drop_last()) * 256 + s.last() as nat
    }
}

/// The last `n` base-256 digits of `x`, most significant first.
pub open spec fn be_bytes(x: nat, n: nat) -> Seq<u8>
    decreases n,
{
    if n == 0 {
        Seq::empty()
    } else {
        be_bytes(x / 256, (n - 1) as nat).push((x % 256) as u8)
    }
}

/// How many values `n` bytes can spell.
pub open spec fn be_limit(n: nat) -> nat
    decreases n,
{
    if n == 0 {
        1
    } else {
        be_limit((n - 1) as nat) * 256
    }
}

pub proof fn lemma_be_limits()
    ensures
        be_limit(4) == 0x1_0000_0000,
        be_limit(8) == 0x1_0000_0000_0000_0000,
        be_limit(16) == 0x1_0000_0000_0000_0000_0000_0000_0000_0000,
{
    reveal_with_fuel(be_limit, 17);
}

pub proof fn lemma_be_value_bound(s: Seq<u8>)
    ensures
        be_value(s) < be_limit(s.len()),
    decreases s.len(),
{
    if s.len() > 0 {
        lemma_be_value_bound(s.drop_last());
    }
}

pub proof fn lemma_be_bytes_len(x: nat, n: nat)
    ensures
        be_bytes(x, n).len() == n,
    decreases n,
{
    if n > 0 {
        lemma_be_bytes_len(x / 256, (n - 1) as nat);
    }
}

/// Bytes written for a number that fits spell that number.
pub proof fn law_be_reads_back(x: nat, n: nat)
    requires
        x < be_limit(n),
    ensures
        be_value(be_bytes(x, n)) == x,
    decreases n,
{
    if n > 0 {
        law_be_reads_back(x / 256, (n - 1) as nat);
        let s = be_bytes(x, n);
        assert(s.drop_last() =~= be_bytes(x / 256, (n - 1) as nat));
    }
}

/// A number read from bytes is written as the same bytes.
pub proof fn law_be_writes_back(s: Seq<u8>)
    ensures
        be_bytes(be_value(s), s.len()) == s,
    decreases s.len(),
{
    if s.len() > 0 {
        law_be_writes_back(s.drop_last());
        let x = be_value(s);
        assert(x / 256 == be_value(s.drop_last()));
        assert(x % 256 == s.last() as nat);
        assert(be_bytes(x, s.len()) =~= s);
    } else {
        assert(be_bytes(be_value(s), 0) =~= s);
    }
}

/// Appends the last `n` base-256 digits of `x`.
pub(crate) fn put_be(out: &mut Vec<u8>, x: u64, n: usize)
    ensures
        final(out)@ == old(out)@ + be_bytes(x as nat, n as nat),
    decreases n,
{
    if n > 0 {
        put_be(out, x / 256, n - 1);
        out.push((x % 256) as u8);
        assert(out@ =~= old(out)@ + be_bytes(x as nat, n as nat));
    } else {
        assert(out@ =~= old(out)@ + be_bytes(x as nat, 0));
    }
}

/// Reads `n` bytes of `buf`, from `at` on, as a number.
pub(crate) fn get_be(buf: &[u8], at: usize, n: usize) -> (x: u128)
    requires
        at + n <= buf@.len(),
        n <= 16,
    ensures
        x == be_value(buf@.subrange(at as int, at + n)),
        x < be_limit(n as nat),
{
    let have: usize = buf.len();
    let mut x: u128 = 0;
    let mut i: usize = 0;
    while i < n
        invariant
            0 <= i <= n <= 16,
            at + n <= have == buf@.len(),
            x == be_value(buf@.subrange(at as int, at + i)),
        decreases n - i,
    {
        let ghost part = buf@.subrange(at as int, at + i + 1);
        proof {
            lemma_be_value_bound(part);
            lemma_be_limits();
            lemma_be_limit_grows((i + 1) as nat, 16);
            assert(part.drop_last() =~= buf@.subrange(at as int, at + i));
        }
        x = x * 256 + buf[at + i] as u128;
        i = i + 1;
    }
    proof {
        lemma_be_value_bound(buf@.subrange(at as int, at + n));
    }
    x
}

pub proof fn lemma_be_limit_grows(m: nat, n: nat)
    requires
        m <= n,
    ensures
        be_limit(m) <= be_limit(n),
    decreases n,
{
    if m < n {
        lemma_be_limit_grows(m, (n - 1) as nat);
    }
}

/// Byte `i` of a number written in `n` bytes is its digit to the base 256 of the
/// weight that the place has, the most significant first.
pub proof fn law_be_digits(x: nat, n: nat, i: int)
    requires
        0 <= i < n,
    ensures
        be_bytes(x, n).len() == n,
        be_bytes(x, n)[i] == (x / be_limit((n - 1 - i) as nat)) % 256,
    decreases n,
{
    lemma_be_bytes_len(x, n);
    lemma_be_bytes_len(x / 256, (n - 1) as nat);
    if i < n - 1 {
        law_be_digits(x / 256, (n - 1) as nat, i);
        let weight = be_limit((n - 2 - i) as nat);
        lemma_be_limit_grows(0, (n - 2 - i) as nat);
        vstd::arithmetic::div_mod::lemma_div_denominator(x as int, 256, weight as int);
        assert(be_limit((n - 1 - i) as nat) == weight * 256);
        assert(be_limit((n - 1 - i) as nat) == 256 * weight);
        assert(x / be_limit((n - 1 - i) as nat) == (x / 256) / weight);
        assert(be_bytes(x, n)[i] == be_bytes(x / 256, (n - 1) as nat)[i]);
    } else {
        assert(be_limit(0) == 1);
        vstd::arithmetic::div_mod::lemma_div_basics(x as int);
        assert(x / be_limit((n - 1 - i) as nat) == x);
    }
}

} // verus!
