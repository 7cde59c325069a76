//! Typed programs: the nodes, their commitments, their types and the witness.

use vstd::prelude::*;
use crate::dag::{Node, acyclic, check_hidden_rule, hidden_placed, hidden_rule};
use crate::decode::{Untyped, decode_untyped, untyped_program};
use crate::error::Error;
use crate::inference::{Typing, check_acyclic, infer, narrowest, well_typed};
use crate::merkle::{
    commit, commitments, digest_views, lemma_commitments, lemma_commitments_prefix,
    node_commitment,
};

verus! {

/// The number of witness bits that the first `n` nodes take: each witness
/// node takes as many as its target type is wide.
pub open spec fn witness_used(nodes: Seq<Node>, t: Typing, n: nat) -> nat
    decreases n,
{
    if n == 0 || n > nodes.len() {
        0
    } else {
        witness_used(nodes, t, (n - 1) as nat) + if nodes[n - 1] is Witness {
            t.target_type(n - 1).bit_width()
        } else {
            0nat
        }
    }
}

/// More nodes never take fewer witness bits.
pub proof fn lemma_witness_used_grows(nodes: Seq<Node>, t: Typing, n: nat, m: nat)
    requires
        n <= m <= nodes.len(),
    ensures
        witness_used(nodes, t, n) <= witness_used(nodes, t, m),
    decreases m,
{
    if n < m {
        lemma_witness_used_grows(nodes, t, n, (m - 1) as nat);
    }
}

/// Gives each node the place in the witness where its bits begin. The
/// witness must have exactly as many bits as the witness nodes take.
pub fn lay_out_witness(nodes: &Vec<Node>, t: &Typing, witness_len: usize) -> (r: Result<
    Vec<usize>,
    Error,
>)
    requires
        t.wf(nodes.len() as nat),
    ensures
        match r {
            Ok(offsets) => {
                &&& witness_used(nodes@, *t, nodes.len() as nat) == witness_len
                &&& offsets.len() == nodes.len()
                &&& forall|k: int|
                    0 <= k < nodes.len() ==> (#[trigger] offsets[k]) == witness_used(
                        nodes@,
                        *t,
                        k as nat,
                    )
            },
            Err(e) => e == Error::InconsistentWitnessLength && witness_used(
                nodes@,
                *t,
                nodes.len() as nat,
            ) != witness_len,
        },
{
    let mut offsets: Vec<usize> = Vec::with_capacity(nodes.len());
    let mut used: usize = 0;
    let mut k: usize = 0;
    while k < nodes.len()
        invariant
            t.wf(nodes.len() as nat),
            k <= nodes.len(),
            offsets.len() == k,
            used == witness_used(nodes@, *t, k as nat),
            used <= witness_len,
            forall|j: int|
                0 <= j < k ==> (#[trigger] offsets[j]) == witness_used(nodes@, *t, j as nat),
        decreases nodes.len() - k,
    {
        offsets.push(used);
        match nodes[k] {
            Node::Witness => {
                let w: u32 = t.arena.widths[t.target[k]];
                assert(w == t.target_type(k as int).bit_width());
                if w as u64 > (witness_len - used) as u64 {
                    proof {
                        lemma_witness_used_grows(nodes@, *t, (k + 1) as nat, nodes.len() as nat);
                    }
                    return Err(Error::InconsistentWitnessLength);
                }
                used = used + w as usize;
            },
            _ => {},
        }
        k = k + 1;
    }
    if used != witness_len {
        return Err(Error::InconsistentWitnessLength);
    }
    Ok(offsets)
}

/// The witness nodes take `witness_len` bits in the narrowest typing of the
/// program.
pub open spec fn witness_fits(nodes: Seq<Node>, witness_len: nat) -> bool {
    exists|ty: Typing|
        #![trigger well_typed(nodes, ty)]
        well_typed(nodes, ty) && narrowest(nodes, ty) && witness_used(nodes, ty, nodes.len())
            == witness_len
}

/// In two typings of which each is the narrowest, the witness nodes take
/// the same number of bits.
pub proof fn lemma_witness_used_same(nodes: Seq<Node>, a: Typing, b: Typing, n: nat)
    requires
        n <= nodes.len(),
        well_typed(nodes, a),
        well_typed(nodes, b),
        narrowest(nodes, a),
        narrowest(nodes, b),
    ensures
        witness_used(nodes, a, n) == witness_used(nodes, b, n),
    decreases n,
{
    if n > 0 {
        lemma_witness_used_same(nodes, a, b, (n - 1) as nat);
        let k = n - 1;
        assert(a.source_type(k).bit_width() <= b.source_type(k).bit_width());
        assert(b.source_type(k).bit_width() <= a.source_type(k).bit_width());
        assert(a.target_type(k).bit_width() <= b.target_type(k).bit_width());
        assert(b.target_type(k).bit_width() <= a.target_type(k).bit_width());
    }
}

/// A program with a node and without a cycle is refused at this point only
/// for a cause: because it has no typing, or because the witness has not
/// the length that the witness nodes take in a typing of the program.
pub open spec fn refused_for_cause(
    nodes: Seq<Node>,
    witness: Seq<bool>,
    r: Result<Program, Error>,
) -> bool {
    r is Err && nodes.len() > 0 && acyclic(nodes) ==> if r->Err_0
        == Error::InconsistentWitnessLength {
        !crate::solution::untypable(nodes) && !witness_fits(nodes, witness.len())
    } else {
        crate::solution::untypable(nodes)
    }
}

/// A program that is ready to run.
pub struct Program {
    pub nodes: Vec<Node>,
    pub commitments: Vec<[u8; 32]>,
    pub typing: Typing,
    pub witness: Vec<bool>,
    pub offsets: Vec<usize>,
}

impl Program {
    /// The program is not empty and has no cycle, a pruned branch hangs only
    /// below a `case`, every node has its commitment and well-fitting types,
    /// and the witness is exactly what the witness nodes take.
    #[verifier::opaque]
    pub open spec fn wf(&self) -> bool {
        &&& self.nodes.len() > 0
        &&& acyclic(self.nodes@)
        &&& hidden_placed(self.nodes@)
        &&& digest_views(self.commitments@) == commitments(self.nodes@, self.nodes.len() as nat)
        &&& well_typed(self.nodes@, self.typing)
        &&& self.offsets.len() == self.nodes.len()
        &&& forall|k: int|
            0 <= k < self.nodes.len() ==> (#[trigger] self.offsets[k]) == witness_used(
                self.nodes@,
                self.typing,
                k as nat,
            )
        &&& witness_used(self.nodes@, self.typing, self.nodes.len() as nat) == self.witness.len()
    }

    /// What well-formedness says of the nodes and their types.
    pub proof fn lemma_wf(&self)
        requires
            self.wf(),
        ensures
            self.nodes.len() > 0,
            acyclic(self.nodes@),
            hidden_placed(self.nodes@),
            well_typed(self.nodes@, self.typing),
            self.commitments.len() == self.nodes.len(),
            self.offsets.len() == self.nodes.len(),
            witness_used(self.nodes@, self.typing, self.nodes.len() as nat) == self.witness.len(),
    {
        reveal(Program::wf);
        assert(digest_views(self.commitments@).len() == self.commitments.len());
        lemma_commitments(self.nodes@, self.nodes.len() as nat, self.nodes.len() as nat);
    }

    /// What well-formedness says of node `k`.
    pub proof fn lemma_wf_node(&self, k: int)
        requires
            self.wf(),
            0 <= k < self.nodes.len(),
        ensures
            self.nodes@[k].refers_below(k),
            crate::inference::node_typed(self.nodes@, self.typing, k),
            self.typing.arena.wf(),
            self.typing.source.len() == self.nodes.len(),
            self.typing.target.len() == self.nodes.len(),
            self.typing.source[k] < self.typing.arena.nodes.len(),
            self.typing.target[k] < self.typing.arena.nodes.len(),
            self.typing.arena.widths[self.typing.source[k] as int] == self.typing.source_type(
                k,
            ).bit_width(),
            self.typing.arena.widths[self.typing.target[k] as int] == self.typing.target_type(
                k,
            ).bit_width(),
            self.commitments.len() == self.nodes.len(),
            self.commitments@[k]@ == commitments(self.nodes@, self.nodes.len() as nat)[k],
            self.offsets.len() == self.nodes.len(),
            self.offsets[k] == witness_used(self.nodes@, self.typing, k as nat),
            self.nodes@[k] is Witness ==> self.offsets[k] + self.typing.target_type(
                k,
            ).bit_width() <= self.witness.len(),
    {
        reveal(Program::wf);
        assert(digest_views(self.commitments@).len() == self.commitments.len());
        lemma_commitments(self.nodes@, self.nodes.len() as nat, self.nodes.len() as nat);
        assert(digest_views(self.commitments@)[k] == self.commitments@[k]@);
        lemma_witness_used_grows(
            self.nodes@,
            self.typing,
            (k + 1) as nat,
            self.nodes.len() as nat,
        );
        self.typing.arena.lemma_shape(self.typing.source[k] as int);
        self.typing.arena.lemma_shape(self.typing.target[k] as int);
    }

    /// The commitment of the whole program: that of its last node.
    pub fn identity(&self) -> (r: [u8; 32])
        requires
            self.wf(),
        ensures
            r@ == commitments(self.nodes@, self.nodes.len() as nat)[self.nodes.len() - 1],
    {
        proof {
            reveal(Program::wf);
        }
        assert(digest_views(self.commitments@).len() == self.commitments.len());
        proof {
            lemma_commitments(self.nodes@, self.nodes.len() as nat, self.nodes.len() as nat);
        }
        let n = self.commitments.len();
        assert(digest_views(self.commitments@)[n - 1] == self.commitments@[n - 1]@);
        self.commitments[n - 1]
    }

    /// Infers the types of nodes whose structure is checked already, and
    /// lays out the witness.
    fn assemble(u: Untyped) -> (r: Result<Program, Error>)
        requires
            hidden_placed(u.nodes@),
            digest_views(u.commitments@) == commitments(u.nodes@, u.nodes.len() as nat),
        ensures
            match r {
                Ok(p) => p.wf() && p.nodes@ == u.nodes@ && p.witness@ == u.witness@,
                Err(e) => (e matches Error::EmptyProgram) || (e matches Error::BadIndex) || (
                e matches Error::TypeCheck) || (e matches Error::OccursCheck) || (
                e matches Error::NaturalOverflow) || (e matches Error::ParseError(_)) || (
                e matches Error::InconsistentWitnessLength),
            },
            u.nodes.len() == 0 ==> r matches Err(Error::EmptyProgram),
            u.nodes.len() > 0 && !acyclic(u.nodes@) ==> r matches Err(Error::BadIndex),
            r matches Err(Error::EmptyProgram) ==> u.nodes.len() == 0,
            r matches Err(Error::BadIndex) ==> !acyclic(u.nodes@),
            refused_for_cause(u.nodes@, u.witness@, r),
            r is Ok <==> u.nodes.len() > 0 && acyclic(u.nodes@) && witness_fits(
                u.nodes@,
                u.witness@.len(),
            ),
    {
        let typing = match infer(&u.nodes) {
            Ok(typing) => typing,
            Err(e) => {
                return Err(e);
            },
        };
        let offsets = match lay_out_witness(&u.nodes, &typing, u.witness.len()) {
            Ok(offsets) => offsets,
            Err(e) => {
                proof {
                    assert(well_typed(u.nodes@, typing));
                    assert forall|ty: Typing|
                        #![trigger well_typed(u.nodes@, ty)]
                        well_typed(u.nodes@, ty) && narrowest(u.nodes@, ty) implies witness_used(
                        u.nodes@,
                        ty,
                        u.nodes@.len(),
                    ) != u.witness@.len() by {
                        lemma_witness_used_same(u.nodes@, ty, typing, u.nodes@.len());
                    }
                }
                return Err(e);
            },
        };
        proof {
            reveal(Program::wf);
            assert(well_typed(u.nodes@, typing) && narrowest(u.nodes@, typing));
        }
        Ok(
            Program {
                nodes: u.nodes,
                commitments: u.commitments,
                typing,
                witness: u.witness,
                offsets,
            },
        )
    }

    /// Decodes a program from its bytes, infers its types and takes its
    /// witness.
    ///
    /// A failure to read the nodes or the witness is reported as it is. What
    /// is read is then typed; the witness must have exactly the bits that the
    /// witness nodes take.
    pub fn decode(bytes: &[u8]) -> (r: Result<Program, Error>)
        ensures
            r is Ok <==> (untyped_program(crate::bititer::bits_of(bytes@)) matches Ok(
                (nodes, witness),
            ) && witness_fits(nodes, witness.len())),
            match untyped_program(crate::bititer::bits_of(bytes@)) {
                Err(e) => r matches Err(f) && f == e,
                Ok((nodes, witness)) => match r {
                    Ok(p) => {
                        &&& p.wf()
                        &&& p.nodes@ == nodes
                        &&& p.witness@ == witness
                        &&& crate::decode::maximal_sharing(p.nodes@)
                        &&& crate::dag::canonical_order(p.nodes@)
                    },
                    Err(e) => ((e matches Error::TypeCheck) || (e matches Error::OccursCheck) || (
                    e matches Error::NaturalOverflow) || (e matches Error::ParseError(_)) || (
                    e matches Error::InconsistentWitnessLength)) && refused_for_cause(
                        nodes,
                        witness,
                        r,
                    ),
                },
            },
    {
        let u = match decode_untyped(bytes) {
            Ok(u) => u,
            Err(e) => {
                return Err(e);
            },
        };
        Self::assemble(u)
    }

    /// Writes the program in the wire format: the bytes are those of its
    /// nodes and its witness, and of nothing else.
    pub fn encode(&self) -> (r: Result<Vec<u8>, Error>)
        ensures
            match r {
                Ok(bytes) => {
                    &&& 0 < self.nodes.len() <= crate::decode::MAX_NODES
                    &&& crate::encode::all_writable(self.nodes@)
                    &&& self.witness.len() < 0x1_0000_0000
                    &&& bytes@ == crate::encode::program_bytes(self.nodes@, self.witness@)
                },
                Err(e) => if self.nodes.len() == 0 {
                    e == Error::EmptyProgram
                } else if self.nodes.len() > crate::decode::MAX_NODES {
                    e == Error::TooManyNodes(self.nodes.len())
                } else if !crate::encode::all_writable(self.nodes@) {
                    e == Error::BadIndex
                } else {
                    e == Error::NaturalOverflow && self.witness.len() >= 0x1_0000_0000
                },
            },
    {
        crate::encode::encode_program(&self.nodes, &self.witness)
    }

    /// Makes a program of nodes that are given in memory, and of its witness.
    ///
    /// The sequence must not be empty (`EmptyProgram`), every node must refer
    /// to earlier nodes only (`BadIndex`), and the rule on pruned branches
    /// must hold. Then the types are inferred and the witness is laid out.
    pub fn from_nodes(nodes: Vec<Node>, witness: Vec<bool>) -> (r: Result<Program, Error>)
        ensures
            nodes.len() == 0 ==> r matches Err(Error::EmptyProgram),
            nodes.len() > 0 && !acyclic(nodes@) ==> r matches Err(Error::BadIndex),
            nodes.len() > 0 && acyclic(nodes@) && !hidden_placed(nodes@) ==> (r matches Err(
                Error::NonCaseHiddenChild,
            )) || (r matches Err(Error::CaseMultipleHiddenChildren)),
            r matches Ok(p) ==> p.wf() && p.nodes@ == nodes@ && p.witness@ == witness@,
            r matches Err(Error::EmptyProgram) ==> nodes.len() == 0,
            r matches Err(Error::BadIndex) ==> !acyclic(nodes@),
            hidden_placed(nodes@) ==> refused_for_cause(nodes@, witness@, r),
            r is Ok <==> nodes.len() > 0 && acyclic(nodes@) && hidden_placed(nodes@)
                && witness_fits(nodes@, witness@.len()),
    {
        if nodes.len() == 0 {
            return Err(Error::EmptyProgram);
        }
        if !check_acyclic(&nodes) {
            return Err(Error::BadIndex);
        }
        let mut hashes: Vec<[u8; 32]> = Vec::with_capacity(nodes.len());
        let mut seen: Vec<Node> = Vec::with_capacity(nodes.len());
        assert(digest_views(hashes@) =~= commitments(nodes@, 0));
        while seen.len() < nodes.len()
            invariant
                nodes.len() > 0,
                acyclic(nodes@),
                seen.len() <= nodes.len(),
                hashes.len() == seen.len(),
                seen@ == nodes@.take(seen.len() as int),
                digest_views(hashes@) == commitments(nodes@, seen.len() as nat),
                forall|i: int|
                    0 <= i < seen.len() ==> hidden_rule(nodes@.take(i), #[trigger] nodes@[i]) is Ok,
            decreases nodes.len() - seen.len(),
        {
            let k = seen.len();
            let node = nodes[k];
            assert(nodes@[k as int].refers_below(k as int));
            match check_hidden_rule(&seen, &node) {
                Ok(()) => {},
                Err(e) => {
                    return Err(e);
                },
            }
            proof {
                lemma_commitments(nodes@, k as nat, k as nat);
            }
            let h = commit(&hashes, &node);
            let ghost before = digest_views(hashes@);
            seen.push(node);
            hashes.push(h);
            assert(seen@ =~= nodes@.take(k + 1));
            assert(digest_views(hashes@) =~= before.push(h@));
        }
        assert(seen@ =~= nodes@);
        Self::assemble(Untyped { nodes, commitments: hashes, witness })
    }
}

} // verus!
