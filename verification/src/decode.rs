//! The wire format of programs: a node count, the nodes, and the witness.

use vstd::prelude::*;
use vstd::arithmetic::power2::{pow2, lemma_pow2_unfold, lemma2_to64};
use crate::bititer::BitIter;
use crate::dag::{
    Node, acyclic, canonical_order, check_hidden_rule, hidden_rule, is_canonical_order,
};
use crate::error::Error;
use crate::merkle::{
    commit, commitments, digest_views, lemma_commitments, lemma_commitments_prefix,
    node_commitment, same_digest,
};
use crate::natural::{bounded_natural, decode_natural, lemma_natural_range, natural};

verus! {

/// The most nodes that a program may have.
pub const MAX_NODES: usize = 65536;

/// The number whose binary digits are the `len` bits at `pos`.
pub open spec fn code(bits: Seq<bool>, pos: nat, len: nat) -> nat
    decreases len,
{
    if len == 0 {
        0
    } else {
        2 * code(bits, pos, (len - 1) as nat) + if bits[pos + len - 1] {
            1nat
        } else {
            0nat
        }
    }
}

/// A code of `len` bits is below 2^len.
pub proof fn lemma_code_bound(bits: Seq<bool>, pos: nat, len: nat)
    ensures
        code(bits, pos, len) < pow2(len),
    decreases len,
{
    lemma2_to64();
    if len > 0 {
        lemma_code_bound(bits, pos, (len - 1) as nat);
        lemma_pow2_unfold(len);
    }
}

/// The 32 bytes that are written at `pos`, each with its most significant bit first.
pub open spec fn digest_bytes(bits: Seq<bool>, pos: nat) -> Seq<u8> {
    Seq::new(32, |j: int| code(bits, (pos + 8 * j) as nat, 8) as u8)
}

/// The digest with the given bytes.
pub open spec fn digest_with(bytes: Seq<u8>) -> [u8; 32] {
    choose|h: [u8; 32]| h@ == bytes
}

/// The node with two children that the code `s` stands for.
pub open spec fn binary_node(s: nat, l: usize, r: usize) -> Node {
    if s == 0 {
        Node::Comp(l, r)
    } else if s == 1 {
        Node::Case(l, r)
    } else if s == 2 {
        Node::Pair(l, r)
    } else {
        Node::Disconnect(l, r)
    }
}

/// The node with one child that the code `s` stands for.
pub open spec fn unary_node(s: nat, c: usize) -> Node {
    if s == 0 {
        Node::InjL(c)
    } else if s == 1 {
        Node::InjR(c)
    } else if s == 2 {
        Node::Take(c)
    } else {
        Node::Drop(c)
    }
}

/// A reference from node `index` to an earlier node: the distance is
/// written, as a number from 1 to `index`.
pub open spec fn child_at(bits: Seq<bool>, pos: nat, index: usize) -> Result<(usize, nat), Error> {
    match bounded_natural(bits, pos, Some(index)) {
        Ok((distance, end)) => Ok(((index - distance) as usize, end)),
        Err(e) => Err(e),
    }
}

/// The node that is written at `pos` as node number `index`, and the
/// position behind it.
pub open spec fn node_at(bits: Seq<bool>, pos: nat, index: usize) -> Result<(Node, nat), Error> {
    if pos >= bits.len() {
        Err(Error::EndOfStream)
    } else if bits[pos as int] {
        match natural(bits, pos + 1) {
            Ok((id, end)) => Ok((Node::Jet(id as u32), end)),
            Err(e) => Err(e),
        }
    } else if pos + 3 > bits.len() {
        Err(Error::EndOfStream)
    } else {
        let c = code(bits, pos + 1, 2);
        let width: nat = if c < 3 {
            2
        } else {
            1
        };
        if pos + 3 + width > bits.len() {
            Err(Error::EndOfStream)
        } else {
            let s = code(bits, pos + 3, width);
            let p = pos + 3 + width;
            if c == 0 {
                match child_at(bits, p, index) {
                    Err(e) => Err(e),
                    Ok((l, p1)) => match child_at(bits, p1, index) {
                        Err(e) => Err(e),
                        Ok((r, p2)) => Ok((binary_node(s, l, r), p2)),
                    },
                }
            } else if c == 1 {
                match child_at(bits, p, index) {
                    Err(e) => Err(e),
                    Ok((child, p1)) => Ok((unary_node(s, child), p1)),
                }
            } else if c == 2 {
                if s == 0 {
                    Ok((Node::Iden, p))
                } else if s == 1 {
                    Ok((Node::Unit, p))
                } else if s == 2 {
                    Err(Error::ParseError("01010"))
                } else {
                    Err(Error::ParseError("01011"))
                }
            } else {
                if s == 0 {
                    if p + 256 > bits.len() {
                        Err(Error::EndOfStream)
                    } else {
                        Ok((Node::Hidden(digest_with(digest_bytes(bits, p))), p + 256))
                    }
                } else {
                    Ok((Node::Witness, p))
                }
            }
        }
    }
}

/// Whether a node may be put behind `nodes`: the rule on pruned branches
/// holds of it, and its commitment is not that of an earlier node.
pub open spec fn admissible(nodes: Seq<Node>, node: Node) -> Result<(), Error> {
    match hidden_rule(nodes, node) {
        Err(e) => Err(e),
        Ok(()) => {
            let before = commitments(nodes, nodes.len());
            if exists|j: int|
                0 <= j < nodes.len() && #[trigger] before[j] == node_commitment(before, node) {
                Err(Error::SharingNotMaximal)
            } else {
                Ok(())
            }
        },
    }
}

/// The first `count` nodes that are written from `pos` on, each accepted
/// behind those before it, and the position behind them.
pub open spec fn nodes_from(bits: Seq<bool>, pos: nat, count: nat) -> Result<
    (Seq<Node>, nat),
    Error,
>
    decreases count,
{
    if count == 0 {
        Ok((Seq::empty(), pos))
    } else {
        match nodes_from(bits, pos, (count - 1) as nat) {
            Err(e) => Err(e),
            Ok((nodes, p)) => match node_at(bits, p, nodes.len() as usize) {
                Err(e) => Err(e),
                Ok((node, end)) => match admissible(nodes, node) {
                    Err(e) => Err(e),
                    Ok(()) => Ok((nodes.push(node), end)),
                },
            },
        }
    }
}

/// The witness that is written at `pos`: a zero for none, or a one, the
/// number of bits and the bits.
pub open spec fn witness_at(bits: Seq<bool>, pos: nat) -> Result<(Seq<bool>, nat), Error> {
    if pos >= bits.len() {
        Err(Error::EndOfStream)
    } else if !bits[pos as int] {
        Ok((Seq::empty(), pos + 1))
    } else {
        match natural(bits, pos + 1) {
            Err(e) => Err(e),
            Ok((n, p)) => if p + n > bits.len() {
                Err(Error::EndOfStream)
            } else {
                Ok((bits.subrange(p as int, (p + n) as int), p + n))
            },
        }
    }
}

/// The program that a bit string holds, before types are inferred: its nodes
/// and its witness.
pub open spec fn untyped_program(bits: Seq<bool>) -> Result<(Seq<Node>, Seq<bool>), Error> {
    match natural(bits, 0) {
        Err(e) => Err(e),
        Ok((count, p)) => if count > MAX_NODES {
            Err(Error::TooManyNodes(count as usize))
        } else {
            match nodes_from(bits, p, count) {
                Err(e) => Err(e),
                Ok((nodes, p1)) => if !canonical_order(nodes) {
                    Err(Error::NotInCanonicalOrder)
                } else {
                    match witness_at(bits, p1) {
                        Err(e) => Err(e),
                        Ok((witness, end)) => Ok((nodes, witness)),
                    }
                },
            }
        },
    }
}

/// No two nodes have the same commitment.
pub open spec fn maximal_sharing(nodes: Seq<Node>) -> bool {
    forall|i: int, j: int|
        0 <= i < j < nodes.len() ==> commitments(nodes, nodes.len())[i] != commitments(
            nodes,
            nodes.len(),
        )[j]
}

/// Reads a code of up to eight bits.
pub fn read_code(iter: &mut BitIter, len: u8) -> (r: Result<u8, Error>)
    requires
        old(iter).wf(),
        len <= 8,
    ensures
        final(iter).wf(),
        final(iter).stream() == old(iter).stream(),
        if old(iter).position() + len <= old(iter).stream().len() {
            &&& r == Ok::<u8, Error>(code(old(iter).stream(), old(iter).position(), len as nat) as u8)
            &&& code(old(iter).stream(), old(iter).position(), len as nat) < 256
            &&& final(iter).position() == old(iter).position() + len
        } else {
            r == Err::<u8, Error>(Error::EndOfStream)
        },
{
    let ghost bits = iter.stream();
    let ghost pos = iter.position();
    let mut n: u16 = 0;
    let mut k: u8 = 0;
    proof {
        lemma2_to64();
    }
    while k < len
        invariant
            iter.wf(),
            iter.stream() == bits,
            bits == old(iter).stream(),
            pos == old(iter).position(),
            k <= len <= 8,
            iter.position() == pos + k,
            n == code(bits, pos, k as nat),
            n < 256,
        decreases len - k,
    {
        let bit = match iter.next() {
            Some(b) => b,
            None => {
                return Err(Error::EndOfStream);
            },
        };
        proof {
            lemma_code_bound(bits, pos, (k + 1) as nat);
            lemma_pow2_unfold(8);
            lemma2_to64();
            if k + 1 < 8 {
                vstd::arithmetic::power2::lemma_pow2_strictly_increases((k + 1) as nat, 8);
            }
        }
        n = 2 * n + if bit {
            1
        } else {
            0
        };
        k = k + 1;
    }
    proof {
        iter.lemma_position_bound();
    }
    Ok(n as u8)
}

/// Reads a reference from node `index` to an earlier node.
pub fn decode_child(iter: &mut BitIter, index: usize) -> (r: Result<usize, Error>)
    requires
        old(iter).wf(),
    ensures
        final(iter).wf(),
        final(iter).stream() == old(iter).stream(),
        match child_at(old(iter).stream(), old(iter).position(), index) {
            Ok((c, end)) => r == Ok::<usize, Error>(c) && c < index && final(iter).position()
                == end,
            Err(e) => r == Err::<usize, Error>(e),
        },
{
    proof {
        lemma_natural_range(iter.stream(), iter.position());
    }
    match decode_natural(iter, Some(index)) {
        Ok(distance) => Ok(index - distance),
        Err(e) => Err(e),
    }
}

/// Reads node number `index`.
pub fn decode_node(iter: &mut BitIter, index: usize) -> (r: Result<Node, Error>)
    requires
        old(iter).wf(),
    ensures
        final(iter).wf(),
        final(iter).stream() == old(iter).stream(),
        match node_at(old(iter).stream(), old(iter).position(), index) {
            Ok((node, end)) => r == Ok::<Node, Error>(node) && node.refers_below(index as int)
                && final(iter).position() == end,
            Err(e) => r == Err::<Node, Error>(e),
        },
{
    let ghost bits = iter.stream();
    let ghost pos = iter.position();
    proof {
        iter.lemma_position_bound();
    }
    match iter.next() {
        None => Err(Error::EndOfStream),
        Some(true) => {
            proof {
                lemma_natural_range(bits, pos + 1);
            }
            match decode_natural(iter, None) {
                Ok(id) => Ok(Node::Jet(id as u32)),
                Err(e) => Err(e),
            }
        },
        Some(false) => {
            let c: u8 = match read_code(iter, 2) {
                Ok(c) => c,
                Err(e) => {
                    return Err(e);
                },
            };
            proof {
                lemma_code_bound(bits, pos + 1, 2);
                lemma2_to64();
            }
            let width: u8 = if c < 3 {
                2
            } else {
                1
            };
            let s: u8 = match read_code(iter, width) {
                Ok(s) => s,
                Err(e) => {
                    return Err(e);
                },
            };
            proof {
                lemma_code_bound(bits, pos + 3, width as nat);
                lemma2_to64();
            }
            if c == 0 {
                let l = match decode_child(iter, index) {
                    Ok(l) => l,
                    Err(e) => {
                        return Err(e);
                    },
                };
                let r = match decode_child(iter, index) {
                    Ok(r) => r,
                    Err(e) => {
                        return Err(e);
                    },
                };
                if s == 0 {
                    Ok(Node::Comp(l, r))
                } else if s == 1 {
                    Ok(Node::Case(l, r))
                } else if s == 2 {
                    Ok(Node::Pair(l, r))
                } else {
                    Ok(Node::Disconnect(l, r))
                }
            } else if c == 1 {
                let child = match decode_child(iter, index) {
                    Ok(child) => child,
                    Err(e) => {
                        return Err(e);
                    },
                };
                if s == 0 {
                    Ok(Node::InjL(child))
                } else if s == 1 {
                    Ok(Node::InjR(child))
                } else if s == 2 {
                    Ok(Node::Take(child))
                } else {
                    Ok(Node::Drop(child))
                }
            } else if c == 2 {
                if s == 0 {
                    Ok(Node::Iden)
                } else if s == 1 {
                    Ok(Node::Unit)
                } else if s == 2 {
                    Err(Error::ParseError("01010"))
                } else {
                    Err(Error::ParseError("01011"))
                }
            } else {
                if s == 0 {
                    let ghost p = iter.position();
                    let mut h: [u8; 32] = [0u8; 32];
                    let mut j: usize = 0;
                    while j < 32
                        invariant
                            iter.wf(),
                            iter.stream() == bits,
                            j <= 32,
                            p == pos + 4,
                            pos + 4 <= bits.len(),
                            iter.position() == p + 8 * j,
                            forall|i: int| 0 <= i < j ==> h@[i] == digest_bytes(bits, p)[i],
                            bits == old(iter).stream(),
                            pos == old(iter).position(),
                            !bits[pos as int],
                            code(bits, pos + 1, 2) == 3,
                            code(bits, pos + 3, 1) == 0,
                            j > 0 ==> p + 8 * j <= bits.len(),
                        decreases 32 - j,
                    {
                        let b = match read_code(iter, 8) {
                            Ok(b) => b,
                            Err(e) => {
                                return Err(e);
                            },
                        };
                        h[j] = b;
                        j = j + 1;
                    }
                    proof {
                        assert(h@ =~= digest_bytes(bits, p));
                        assert(h =~= digest_with(digest_bytes(bits, p)));
                    }
                    Ok(Node::Hidden(h))
                } else {
                    Ok(Node::Witness)
                }
            }
        },
    }
}

/// What `decode_untyped` returns: the nodes, their commitments and the witness.
pub struct Untyped {
    pub nodes: Vec<Node>,
    pub commitments: Vec<[u8; 32]>,
    pub witness: Vec<bool>,
}

/// Reads the nodes and the witness of a program from its bytes. Bits behind
/// the witness are not looked at.
pub fn decode_untyped(bytes: &[u8]) -> (r: Result<Untyped, Error>)
    ensures
        match untyped_program(crate::bititer::bits_of(bytes@)) {
            Ok((nodes, witness)) => r matches Ok(u) && u.nodes@ == nodes && u.witness@ == witness
                && digest_views(u.commitments@) == commitments(nodes, nodes.len()),
            Err(e) => r matches Err(f) && f == e,
        },
        r matches Ok(u) ==> {
            &&& 0 < u.nodes.len() <= MAX_NODES
            &&& acyclic(u.nodes@)
            &&& crate::dag::hidden_placed(u.nodes@)
            &&& maximal_sharing(u.nodes@)
            &&& canonical_order(u.nodes@)
        },
{
    let mut iter = BitIter::new(bytes);
    let ghost bits = iter.stream();
    proof {
        lemma_natural_range(bits, 0);
    }
    let count = match decode_natural(&mut iter, None) {
        Ok(count) => count,
        Err(e) => {
            return Err(e);
        },
    };
    if count > MAX_NODES {
        return Err(Error::TooManyNodes(count));
    }
    let ghost start = iter.position();
    let mut nodes: Vec<Node> = Vec::with_capacity(count);
    let mut hashes: Vec<[u8; 32]> = Vec::with_capacity(count);
    assert(digest_views(hashes@) =~= commitments(nodes@, 0));
    while nodes.len() < count
        invariant
            iter.wf(),
            iter.stream() == bits,
            bits == crate::bititer::bits_of(bytes@),
            natural(bits, 0) == Ok::<(nat, nat), Error>((count as nat, start)),
            count <= MAX_NODES,
            nodes.len() <= count,
            hashes.len() == nodes.len(),
            nodes_from(bits, start, nodes.len() as nat) == Ok::<(Seq<Node>, nat), Error>(
                (nodes@, iter.position()),
            ),
            digest_views(hashes@) == commitments(nodes@, nodes.len() as nat),
            acyclic(nodes@),
            crate::dag::hidden_placed(nodes@),
            maximal_sharing(nodes@),
        decreases count - nodes.len(),
    {
        let index = nodes.len();
        let ghost old_nodes = nodes@;
        let ghost before = commitments(old_nodes, old_nodes.len());
        let node = match decode_node(&mut iter, index) {
            Ok(node) => node,
            Err(e) => {
                proof {
                    lemma_nodes_from_fails(bits, start, (index + 1) as nat, count as nat);
                }
                return Err(e);
            },
        };
        match check_hidden_rule(&nodes, &node) {
            Ok(()) => {},
            Err(e) => {
                proof {
                    lemma_nodes_from_fails(bits, start, (index + 1) as nat, count as nat);
                }
                return Err(e);
            },
        }
        let h = commit(&hashes, &node);
        let mut j: usize = 0;
        let mut found = false;
        while j < index && !found
            invariant
                j <= index,
                index == hashes.len(),
                digest_views(hashes@) == before,
                h@ == node_commitment(before, node),
                forall|i: int| 0 <= i < j ==> (#[trigger] before[i]) != h@,
                found ==> j < index && before[j as int] == h@,
            decreases index - j + if found {
                0int
            } else {
                1int
            },
        {
            assert(digest_views(hashes@)[j as int] == hashes@[j as int]@);
            if same_digest(&hashes[j], &h) {
                found = true;
            } else {
                j = j + 1;
            }
        }
        if found {
            proof {
                assert(before[j as int] == node_commitment(before, node));
                lemma_nodes_from_fails(bits, start, (index + 1) as nat, count as nat);
            }
            return Err(Error::SharingNotMaximal);
        }
        nodes.push(node);
        hashes.push(h);
        proof {
            let new_nodes = nodes@;
            lemma_commitments(old_nodes, old_nodes.len(), old_nodes.len());
            lemma_commitments_prefix(old_nodes, new_nodes, old_nodes.len());
            assert(commitments(new_nodes, new_nodes.len()) == before.push(
                node_commitment(before, node),
            ));
            assert(digest_views(hashes@) =~= commitments(new_nodes, new_nodes.len()));
            assert forall|i: int| 0 <= i < new_nodes.len() implies hidden_rule(
                new_nodes.take(i),
                #[trigger] new_nodes[i],
            ) is Ok by {
                if i < old_nodes.len() {
                    assert(new_nodes.take(i) =~= old_nodes.take(i));
                    assert(new_nodes[i] == old_nodes[i]);
                } else {
                    assert(new_nodes.take(i) =~= old_nodes);
                }
            }
            assert forall|a: int, b: int| 0 <= a < b < new_nodes.len() implies commitments(
                new_nodes,
                new_nodes.len(),
            )[a] != commitments(new_nodes, new_nodes.len())[b] by {
                if b < old_nodes.len() {
                    assert(commitments(old_nodes, old_nodes.len())[a] != commitments(
                        old_nodes,
                        old_nodes.len(),
                    )[b]);
                } else {
                    assert(before[a] != h@);
                }
            }
        }
    }
    if !is_canonical_order(&nodes) {
        return Err(Error::NotInCanonicalOrder);
    }
    let ghost p1 = iter.position();
    proof {
        iter.lemma_position_bound();
        lemma_natural_range(bits, p1 + 1);
    }
    let witness: Vec<bool> = match iter.next() {
        None => {
            return Err(Error::EndOfStream);
        },
        Some(false) => Vec::new(),
        Some(true) => {
            let n = match decode_natural(&mut iter, None) {
                Ok(n) => n,
                Err(e) => {
                    return Err(e);
                },
            };
            let ghost p = iter.position();
            let mut w: Vec<bool> = Vec::with_capacity(n);
            while w.len() < n
                invariant
                    iter.wf(),
                    iter.stream() == bits,
                    w.len() <= n,
                    iter.position() == p + w.len(),
                    w@ == bits.subrange(p as int, p + w.len()),
                    p1 < bits.len(),
                    bits[p1 as int],
                    natural(bits, p1 + 1) == Ok::<(nat, nat), Error>((n as nat, p)),
                    bits == crate::bititer::bits_of(bytes@),
                    natural(bits, 0) == Ok::<(nat, nat), Error>((count as nat, start)),
                    count <= MAX_NODES,
                    nodes_from(bits, start, count as nat) == Ok::<(Seq<Node>, nat), Error>(
                        (nodes@, p1),
                    ),
                    canonical_order(nodes@),
                    w.len() > 0 ==> p + w.len() <= bits.len(),
                decreases n - w.len(),
            {
                let b = match iter.next() {
                    Some(b) => b,
                    None => {
                        return Err(Error::EndOfStream);
                    },
                };
                w.push(b);
                assert(w@ =~= bits.subrange(p as int, p + w.len()));
            }
            proof {
                iter.lemma_position_bound();
            }
            w
        },
    };
    proof {
        assert(witness@ =~= witness_at(bits, p1)->Ok_0.0);
    }
    Ok(Untyped { nodes, commitments: hashes, witness })
}

/// Once the nodes cannot be read up to some count, they cannot be read
/// further, and the failure is the same.
pub proof fn lemma_nodes_from_fails(bits: Seq<bool>, pos: nat, n: nat, m: nat)
    requires
        nodes_from(bits, pos, n) is Err,
        n <= m,
    ensures
        nodes_from(bits, pos, m) == nodes_from(bits, pos, n),
    decreases m,
{
    if n < m {
        lemma_nodes_from_fails(bits, pos, n, (m - 1) as nat);
    }
}

/// A node that is read as node number `index` refers to earlier nodes only:
/// a reference is a distance of at least one and at most `index`.
pub proof fn lemma_node_at_refers_below(bits: Seq<bool>, pos: nat, index: usize)
    ensures
        node_at(bits, pos, index) matches Ok((node, end)) ==> node.refers_below(index as int),
{
    if node_at(bits, pos, index) is Ok && pos < bits.len() && !bits[pos as int] {
        let c = code(bits, pos + 1, 2);
        let width: nat = if c < 3 {
            2
        } else {
            1
        };
        let p = pos + 3 + width;
        lemma_natural_range(bits, p);
        if c == 0 {
            if let Ok((l, p1)) = child_at(bits, p, index) {
                lemma_natural_range(bits, p1);
            }
        }
    }
}

/// The nodes that are read have no cycle, pruned branches only below a
/// `case`, and no two of them have the same commitment.
pub proof fn lemma_nodes_from_structure(bits: Seq<bool>, pos: nat, count: nat)
    requires
        count <= usize::MAX,
    ensures
        nodes_from(bits, pos, count) matches Ok((nodes, end)) ==> {
            &&& nodes.len() == count
            &&& acyclic(nodes)
            &&& crate::dag::hidden_placed(nodes)
            &&& maximal_sharing(nodes)
        },
    decreases count,
{
    if count > 0 {
        lemma_nodes_from_structure(bits, pos, (count - 1) as nat);
        if let Ok((nodes, end)) = nodes_from(bits, pos, count) {
            let (old_nodes, p) = nodes_from(bits, pos, (count - 1) as nat)->Ok_0;
            let (node, _) = node_at(bits, p, old_nodes.len() as usize)->Ok_0;
            lemma_node_at_refers_below(bits, p, old_nodes.len() as usize);
            let before = commitments(old_nodes, old_nodes.len());
            lemma_commitments(old_nodes, old_nodes.len(), old_nodes.len());
            lemma_commitments_prefix(old_nodes, nodes, old_nodes.len());
            assert(commitments(nodes, nodes.len()) == before.push(node_commitment(before, node)));
            assert forall|i: int| 0 <= i < nodes.len() implies hidden_rule(
                nodes.take(i),
                #[trigger] nodes[i],
            ) is Ok by {
                if i < old_nodes.len() {
                    assert(nodes.take(i) =~= old_nodes.take(i));
                    assert(nodes[i] == old_nodes[i]);
                } else {
                    assert(nodes.take(i) =~= old_nodes);
                }
            }
            assert forall|a: int, b: int| 0 <= a < b < nodes.len() implies commitments(
                nodes,
                nodes.len(),
            )[a] != commitments(nodes, nodes.len())[b] by {
                if b < old_nodes.len() {
                    assert(commitments(old_nodes, old_nodes.len())[a] != commitments(
                        old_nodes,
                        old_nodes.len(),
                    )[b]);
                } else {
                    assert(before[a] != node_commitment(before, node));
                }
            }
        }
    }
}

/// Whatever is decoded is a program in which every node refers to earlier
/// nodes only, a pruned branch hangs only below a `case`, no two nodes have
/// the same commitment, and the nodes stand in canonical order.
pub proof fn lemma_decoded_structure(bits: Seq<bool>)
    ensures
        untyped_program(bits) matches Ok((nodes, witness)) ==> {
            &&& 0 < nodes.len() <= MAX_NODES
            &&& acyclic(nodes)
            &&& crate::dag::hidden_placed(nodes)
            &&& maximal_sharing(nodes)
            &&& canonical_order(nodes)
        },
{
    lemma_natural_range(bits, 0);
    if let Ok((count, p)) = natural(bits, 0) {
        if count <= MAX_NODES {
            lemma_nodes_from_structure(bits, p, count);
        }
    }
}

} // verus!
