//! The table of jets: native functions with a fixed type signature, found
//! by their number.

use vstd::prelude::*;
use crate::types::Type;

verus! {

/// The number of the jet that fails unless its input bit is set.
pub const JET_VERIFY: u32 = 1;

/// The number of the jet that inverts a bit.
pub const JET_NOT: u32 = 2;

/// The number of the jet that adds two bits without carry.
pub const JET_XOR: u32 = 3;

/// The source and target type of a jet, or `None` for a number without a jet.
pub open spec fn signature(id: u32) -> Option<(Type, Type)> {
    if id == JET_VERIFY {
        Some((Type::bit(), Type::Unit))
    } else if id == JET_NOT {
        Some((Type::bit(), Type::bit()))
    } else if id == JET_XOR {
        Some((Type::Product(Box::new(Type::bit()), Box::new(Type::bit())), Type::bit()))
    } else {
        None
    }
}

/// What a jet returns for an input of its source type, or `None` where it
/// refuses the input.
pub open spec fn result(id: u32, input: Seq<bool>) -> Option<Seq<bool>> {
    if id == JET_VERIFY {
        if input.len() == 1 && input[0] {
            Some(Seq::empty())
        } else {
            None
        }
    } else if id == JET_NOT {
        if input.len() == 1 {
            Some(seq![!input[0]])
        } else {
            None
        }
    } else if id == JET_XOR {
        if input.len() == 2 {
            Some(seq![input[0] != input[1]])
        } else {
            None
        }
    } else {
        None
    }
}

/// The type of one bit.
pub fn bit_type() -> (r: Type)
    ensures
        r == Type::bit(),
{
    Type::Sum(Box::new(Type::Unit), Box::new(Type::Unit))
}

/// The type of 2^`n` bits.
pub fn word_type(n: u8) -> (r: Type)
    ensures
        r == Type::word(n as nat),
    decreases n,
{
    if n == 0 {
        bit_type()
    } else {
        Type::Product(Box::new(word_type(n - 1)), Box::new(word_type(n - 1)))
    }
}

/// Looks up the source and target type of a jet.
pub fn lookup(id: u32) -> (r: Option<(Type, Type)>)
    ensures
        r == signature(id),
{
    if id == JET_VERIFY {
        Some((bit_type(), Type::Unit))
    } else if id == JET_NOT {
        Some((bit_type(), bit_type()))
    } else if id == JET_XOR {
        Some((Type::Product(Box::new(bit_type()), Box::new(bit_type())), bit_type()))
    } else {
        None
    }
}

/// Runs a jet on the bits of its input.
pub fn apply(id: u32, input: &Vec<bool>) -> (r: Option<Vec<bool>>)
    ensures
        match r {
            Some(out) => result(id, input@) == Some(out@),
            None => result(id, input@) is None,
        },
{
    if id == JET_VERIFY {
        if input.len() == 1 && input[0] {
            Some(Vec::new())
        } else {
            None
        }
    } else if id == JET_NOT {
        if input.len() == 1 {
            let mut out: Vec<bool> = Vec::new();
            out.push(!input[0]);
            assert(out@ =~= seq![!input@[0]]);
            Some(out)
        } else {
            None
        }
    } else if id == JET_XOR {
        if input.len() == 2 {
            let mut out: Vec<bool> = Vec::new();
            out.push(input[0] != input[1]);
            assert(out@ =~= seq![input@[0] != input@[1]]);
            Some(out)
        } else {
            None
        }
    } else {
        None
    }
}

/// The types of a jet are at most two bits wide.
pub proof fn lemma_signature_small(id: u32)
    ensures
        signature(id) matches Some((s, t)) ==> s.bit_width() <= 2 && t.bit_width() <= 2,
{
    reveal_with_fuel(Type::bit_width, 4);
}

/// A jet returns as many bits as its target type takes.
pub proof fn lemma_result_width(id: u32, input: Seq<bool>)
    ensures
        result(id, input) matches Some(out) ==> signature(id) matches Some((s, t)) && input.len()
            == s.bit_width() && out.len() == t.bit_width(),
{
    reveal_with_fuel(Type::bit_width, 3);
}

} // verus!
