//! The variable-length code of positive numbers below 2^32.
//!
//! A number is written as a run of ones, a zero, and then a chain of
//! groups of bits. Each group, with a one put before it, is a number in
//! binary; that number is the length of the next group, and the last one is
//! the number that is meant. The run of ones says how many links the chain has.

use vstd::prelude::*;
use vstd::arithmetic::power2::{pow2, lemma_pow2_unfold, lemma_pow2_strictly_increases, lemma2_to64};
use crate::bititer::BitIter;
use crate::error::Error;

verus! {

/// The number of ones that stand at `pos` before the first zero or the end.
pub open spec fn leading_ones(bits: Seq<bool>, pos: nat) -> nat
    decreases bits.len() - pos,
{
    if pos < bits.len() && bits[pos as int] {
        1 + leading_ones(bits, pos + 1)
    } else {
        0
    }
}

/// The number whose binary digits are a one and then the `len` bits at `pos`.
pub open spec fn number(bits: Seq<bool>, pos: nat, len: nat) -> nat
    decreases len,
{
    if len == 0 {
        1
    } else {
        2 * number(bits, pos, (len - 1) as nat) + if bits[pos + len - 1] {
            1nat
        } else {
            0nat
        }
    }
}

/// Follows a chain of `depth` further links from a group of `len` bits at `pos`.
/// Gives the number and the position behind it.
pub open spec fn natural_chain(bits: Seq<bool>, pos: nat, depth: nat, len: nat) -> Result<
    (nat, nat),
    Error,
>
    decreases depth,
{
    if pos + len > bits.len() {
        Err(Error::EndOfStream)
    } else {
        let n = number(bits, pos, len);
        if depth == 0 {
            Ok((n, pos + len))
        } else if n > 31 {
            Err(Error::NaturalOverflow)
        } else {
            natural_chain(bits, pos + len, (depth - 1) as nat, n)
        }
    }
}

/// The number that is written at `pos`, and the position behind it.
pub open spec fn natural(bits: Seq<bool>, pos: nat) -> Result<(nat, nat), Error> {
    let d = leading_ones(bits, pos);
    if pos + d >= bits.len() {
        Err(Error::EndOfStream)
    } else {
        natural_chain(bits, pos + d + 1, d, 0)
    }
}

/// The number that is written at `pos`, refused as a bad index where it
/// exceeds `bound`.
pub open spec fn bounded_natural(bits: Seq<bool>, pos: nat, bound: Option<usize>) -> Result<
    (nat, nat),
    Error,
> {
    match natural(bits, pos) {
        Ok((n, end)) => match bound {
            Some(b) => if n > b {
                Err(Error::BadIndex)
            } else {
                Ok((n, end))
            },
            None => Ok((n, end)),
        },
        Err(e) => Err(e),
    }
}

/// A group of `len` bits after a one denotes a number of `len + 1` binary digits.
pub proof fn lemma_number_bounds(bits: Seq<bool>, pos: nat, len: nat)
    ensures
        pow2(len) <= number(bits, pos, len) < pow2(len + 1),
    decreases len,
{
    lemma2_to64();
    lemma_pow2_unfold(len + 1);
    if len > 0 {
        lemma_number_bounds(bits, pos, (len - 1) as nat);
        lemma_pow2_unfold(len);
    }
}

/// Every number of the code is positive and below 2^32.
pub proof fn lemma_natural_chain_range(bits: Seq<bool>, pos: nat, depth: nat, len: nat)
    requires
        len <= 31,
    ensures
        natural_chain(bits, pos, depth, len) matches Ok((n, end)) ==> 1 <= n < 0x1_0000_0000
            && pos <= end <= bits.len(),
    decreases depth,
{
    lemma_number_bounds(bits, pos, len);
    lemma2_to64();
    if len + 1 < 32 {
        lemma_pow2_strictly_increases(len + 1, 32);
    }
    if pos + len <= bits.len() && depth > 0 && number(bits, pos, len) <= 31 {
        lemma_natural_chain_range(bits, pos + len, (depth - 1) as nat, number(bits, pos, len));
    }
}

/// Every number of the code is positive and below 2^32, and takes at least one bit.
pub proof fn lemma_natural_range(bits: Seq<bool>, pos: nat)
    ensures
        natural(bits, pos) matches Ok((n, end)) ==> 1 <= n < 0x1_0000_0000 && pos < end
            <= bits.len(),
{
    let d = leading_ones(bits, pos);
    lemma_natural_chain_range(bits, pos + d + 1, d, 0);
}

/// Reads a number. Where a bound is given and the number exceeds it, the
/// number is refused as a bad index.
pub fn decode_natural(iter: &mut BitIter, bound: Option<usize>) -> (r: Result<usize, Error>)
    requires
        old(iter).wf(),
    ensures
        final(iter).wf(),
        final(iter).stream() == old(iter).stream(),
        match bounded_natural(old(iter).stream(), old(iter).position(), bound) {
            Ok((n, end)) => {
                &&& r == Ok::<usize, Error>(n as usize)
                &&& n <= usize::MAX
                &&& final(iter).position() == end
            },
            Err(e) => r == Err::<usize, Error>(e),
        },
{
    let ghost bits = iter.stream();
    let ghost start = iter.position();
    let mut depth: u128 = 0;
    loop
        invariant_except_break
            iter.position() == start + depth,
            leading_ones(bits, start) == depth + leading_ones(bits, iter.position()),
        invariant
            iter.wf(),
            iter.stream() == bits,
            bits == old(iter).stream(),
            start == old(iter).position(),
        ensures
            iter.position() == start + depth + 1,
            leading_ones(bits, start) == depth,
            start + depth < bits.len(),
        decreases bits.len() - iter.position(),
    {
        proof {
            iter.lemma_position_bound();
        }
        match iter.next() {
            Some(true) => {
                depth = depth + 1;
            },
            Some(false) => {
                break ;
            },
            None => {
                return Err(Error::EndOfStream);
            },
        }
    }
    let mut len: usize = 0;
    loop
        invariant
            iter.wf(),
            iter.stream() == bits,
            bits == old(iter).stream(),
            start == old(iter).position(),
            len <= 31,
            start <= iter.position(),
            natural(bits, start) == natural_chain(bits, iter.position(), depth as nat, len as nat),
        decreases depth,
    {
        let ghost pos = iter.position();
        let mut n: u64 = 1;
        let mut k: usize = 0;
        proof {
            lemma2_to64();
        }
        while k < len
            invariant
                iter.wf(),
                iter.stream() == bits,
                bits == old(iter).stream(),
                start == old(iter).position(),
                natural(bits, start) == natural_chain(bits, pos, depth as nat, len as nat),
                k <= len <= 31,
                iter.position() == pos + k,
                n == number(bits, pos, k as nat),
                n < pow2((k + 1) as nat),
                pow2((k + 1) as nat) <= 0x1_0000_0000,
            decreases len - k,
        {
            let bit = match iter.next() {
                Some(b) => b,
                None => {
                    return Err(Error::EndOfStream);
                },
            };
            proof {
                lemma_pow2_unfold((k + 2) as nat);
                lemma2_to64();
                if k + 2 < 32 {
                    lemma_pow2_strictly_increases((k + 2) as nat, 32);
                }
            }
            n = 2 * n + if bit {
                1
            } else {
                0
            };
            k = k + 1;
        }
        proof {
            iter.lemma_position_bound();
        }
        if depth == 0 {
            if let Some(b) = bound {
                if n > b as u64 {
                    return Err(Error::BadIndex);
                }
            }
            return Ok(n as usize);
        }
        if n > 31 {
            return Err(Error::NaturalOverflow);
        }
        len = n as usize;
        depth = depth - 1;
    }
}

} // verus!
