//! What is written in the wire format is read back as it was.

use vstd::prelude::*;
use vstd::arithmetic::power2::{pow2, lemma_pow2_unfold, lemma2_to64};
use crate::bititer::bits_of;
use crate::dag::{Node, acyclic, canonical_order, hidden_placed};
use crate::decode::{
    MAX_NODES, admissible, child_at, code, digest_bytes, digest_with, maximal_sharing, node_at,
    nodes_from, untyped_program, witness_at,
};
use crate::encode::{
    all_writable, binary, lemma_binary_len, lemma_code_of_byte, lemma_natural_round_trip, natural_code,
    node_code, nodes_code, program_code, witness_code, writable,
};
use crate::error::Error;
use crate::merkle::{commitments, lemma_commitments, lemma_commitments_prefix};
use crate::natural::{bounded_natural, natural};

verus! {

/// `part` stands in `bits` at `pos`.
pub open spec fn holds(bits: Seq<bool>, pos: int, part: Seq<bool>) -> bool {
    &&& 0 <= pos
    &&& pos + part.len() <= bits.len()
    &&& bits.subrange(pos, pos + part.len()) == part
}

/// Where two parts stand one behind the other, each of them stands there.
pub proof fn lemma_holds_split(bits: Seq<bool>, pos: int, a: Seq<bool>, b: Seq<bool>)
    requires
        holds(bits, pos, a + b),
    ensures
        holds(bits, pos, a),
        holds(bits, pos + a.len(), b),
{
    let whole = a + b;
    assert(bits.subrange(pos, pos + a.len()) =~= whole.subrange(0, a.len() as int));
    assert(whole.subrange(0, a.len() as int) =~= a);
    assert(bits.subrange(pos + a.len(), pos + a.len() + b.len()) =~= whole.subrange(
        a.len() as int,
        whole.len() as int,
    ));
    assert(whole.subrange(a.len() as int, whole.len() as int) =~= b);
}

/// The digits of a number that fits them are read back as the number.
pub proof fn lemma_code_of_binary(bits: Seq<bool>, pos: int, v: nat, len: nat)
    requires
        v < pow2(len),
        holds(bits, pos, binary(v, len)),
    ensures
        code(bits, pos as nat, len) == v,
    decreases len,
{
    lemma2_to64();
    lemma_binary_len(v, len);
    if len > 0 {
        lemma_pow2_unfold(len);
        lemma_binary_len(v / 2, (len - 1) as nat);
        let b = binary(v, len);
        assert(b.drop_last() =~= binary(v / 2, (len - 1) as nat));
        assert(bits.subrange(pos, pos + len - 1) =~= b.drop_last());
        assert(bits[pos + len - 1] == b[len - 1]);
        lemma_code_of_binary(bits, pos, v / 2, (len - 1) as nat);
    }
}

/// A number that stands at `pos` is read there.
pub proof fn lemma_natural_at(bits: Seq<bool>, pos: int, n: nat)
    requires
        1 <= n < 0x1_0000_0000,
        holds(bits, pos, natural_code(n)),
    ensures
        natural(bits, pos as nat) == Ok::<(nat, nat), Error>(
            (n, (pos + natural_code(n).len()) as nat),
        ),
{
    let before = bits.take(pos);
    let after = bits.skip(pos + natural_code(n).len());
    lemma_natural_round_trip(n, before, after);
    assert(before + natural_code(n) + after =~= bits);
}

/// A reference that stands at `pos` is read there.
pub proof fn lemma_child_at(bits: Seq<bool>, pos: int, index: usize, c: usize)
    requires
        c < index < 0x1_0000_0000,
        holds(bits, pos, natural_code((index - c) as nat)),
    ensures
        child_at(bits, pos as nat, index) == Ok::<(usize, nat), Error>(
            (c, (pos + natural_code((index - c) as nat).len()) as nat),
        ),
{
    lemma_natural_at(bits, pos, (index - c) as nat);
}

/// The first three parts of the code of a node that is no jet are read back.
proof fn lemma_head(bits: Seq<bool>, pos: int, c: nat, s: nat, width: nat)
    requires
        c < 4,
        width == (if c < 3 {
            2nat
        } else {
            1nat
        }),
        s < pow2(width),
        holds(bits, pos, seq![false] + binary(c, 2) + binary(s, width)),
    ensures
        pos + 3 + width <= bits.len(),
        !bits[pos],
        code(bits, (pos + 1) as nat, 2) == c,
        code(bits, (pos + 3) as nat, width) == s,
{
    lemma2_to64();
    lemma_binary_len(c, 2);
    lemma_binary_len(s, width);
    lemma_holds_split(bits, pos, seq![false] + binary(c, 2), binary(s, width));
    lemma_holds_split(bits, pos, seq![false], binary(c, 2));
    assert(bits[pos] == bits.subrange(pos, pos + 1)[0]);
    lemma_code_of_binary(bits, pos + 1, c, 2);
    lemma_code_of_binary(bits, pos + 3, s, width);
}

/// A node with two children that stands at `pos` is read there.
proof fn lemma_binary_node_at(
    bits: Seq<bool>,
    pos: int,
    node: Node,
    index: usize,
    s: nat,
    l: usize,
    r: usize,
)
    requires
        s < 4,
        node == crate::decode::binary_node(s, l, r),
        l < index < 0x1_0000_0000,
        r < index,
        node_code(node, index as int) == seq![false] + binary(0, 2) + binary(s, 2) + natural_code(
            (index - l) as nat,
        ) + natural_code((index - r) as nat),
        holds(bits, pos, node_code(node, index as int)),
    ensures
        node_at(bits, pos as nat, index) == Ok::<(Node, nat), Error>(
            (node, (pos + node_code(node, index as int).len()) as nat),
        ),
{
    lemma2_to64();
    let head = seq![false] + binary(0, 2) + binary(s, 2);
    let a = natural_code((index - l) as nat);
    let b = natural_code((index - r) as nat);
    lemma_binary_len(0, 2);
    lemma_binary_len(s, 2);
    lemma_holds_split(bits, pos, head + a, b);
    lemma_holds_split(bits, pos, head, a);
    lemma_head(bits, pos, 0, s, 2);
    lemma_child_at(bits, pos + 5, index, l);
    lemma_child_at(bits, pos + 5 + a.len(), index, r);
}

/// A node with one child that stands at `pos` is read there.
proof fn lemma_unary_node_at(bits: Seq<bool>, pos: int, node: Node, index: usize, s: nat, c: usize)
    requires
        s < 4,
        node == crate::decode::unary_node(s, c),
        c < index < 0x1_0000_0000,
        node_code(node, index as int) == seq![false] + binary(1, 2) + binary(s, 2) + natural_code(
            (index - c) as nat,
        ),
        holds(bits, pos, node_code(node, index as int)),
    ensures
        node_at(bits, pos as nat, index) == Ok::<(Node, nat), Error>(
            (node, (pos + node_code(node, index as int).len()) as nat),
        ),
{
    lemma2_to64();
    let head = seq![false] + binary(1, 2) + binary(s, 2);
    let a = natural_code((index - c) as nat);
    lemma_binary_len(1, 2);
    lemma_binary_len(s, 2);
    lemma_holds_split(bits, pos, head, a);
    lemma_head(bits, pos, 1, s, 2);
    lemma_child_at(bits, pos + 5, index, c);
}

/// A node that stands at `pos` is read there.
pub proof fn lemma_node_at(bits: Seq<bool>, pos: int, node: Node, index: usize)
    requires
        writable(node, index as int),
        holds(bits, pos, node_code(node, index as int)),
    ensures
        node_at(bits, pos as nat, index) == Ok::<(Node, nat), Error>(
            (node, (pos + node_code(node, index as int).len()) as nat),
        ),
{
    lemma2_to64();
    match node {
        Node::Comp(l, r) => lemma_binary_node_at(bits, pos, node, index, 0, l, r),
        Node::Case(l, r) => lemma_binary_node_at(bits, pos, node, index, 1, l, r),
        Node::Pair(l, r) => lemma_binary_node_at(bits, pos, node, index, 2, l, r),
        Node::Disconnect(l, r) => lemma_binary_node_at(bits, pos, node, index, 3, l, r),
        Node::InjL(c) => lemma_unary_node_at(bits, pos, node, index, 0, c),
        Node::InjR(c) => lemma_unary_node_at(bits, pos, node, index, 1, c),
        Node::Take(c) => lemma_unary_node_at(bits, pos, node, index, 2, c),
        Node::Drop(c) => lemma_unary_node_at(bits, pos, node, index, 3, c),
        Node::Iden => {
            lemma_binary_len(2, 2);
            lemma_binary_len(0, 2);
            lemma_head(bits, pos, 2, 0, 2);
        },
        Node::Unit => {
            lemma_binary_len(2, 2);
            lemma_binary_len(1, 2);
            lemma_head(bits, pos, 2, 1, 2);
        },
        Node::Witness => {
            lemma_binary_len(3, 2);
            lemma_binary_len(1, 1);
            lemma_head(bits, pos, 3, 1, 1);
        },
        Node::Hidden(h) => {
            let head = seq![false] + binary(3, 2) + binary(0, 1);
            lemma_binary_len(3, 2);
            lemma_binary_len(0, 1);
            lemma_holds_split(bits, pos, head, bits_of(h@));
            lemma_head(bits, pos, 3, 0, 1);
            let p = pos + 4;
            assert forall|j: int| 0 <= j < 32 implies digest_bytes(bits, p as nat)[j] == h@[j] by {
                lemma_code_of_byte(h@, j);
                let whole = bits.subrange(p, p + 256);
                assert(bits.subrange(p + 8 * j, p + 8 * j + 8) =~= whole.subrange(
                    8 * j,
                    8 * j + 8,
                ));
                lemma_same_code(bits, p + 8 * j, bits_of(h@), 8 * j, 8);
            }
            assert(digest_bytes(bits, p as nat) =~= h@);
            assert(h =~= digest_with(digest_bytes(bits, p as nat)));
        },
        Node::Jet(id) => {
            lemma_holds_split(bits, pos, seq![true], natural_code(id as nat));
            assert(bits[pos] == bits.subrange(pos, pos + 1)[0]);
            lemma_natural_at(bits, pos + 1, id as nat);
        },
    }
}

/// A code depends only on the bits that it is read from.
pub proof fn lemma_same_code(a: Seq<bool>, i: int, b: Seq<bool>, j: int, len: nat)
    requires
        0 <= i,
        0 <= j,
        i + len <= a.len(),
        j + len <= b.len(),
        a.subrange(i, i + len) == b.subrange(j, j + len),
    ensures
        code(a, i as nat, len) == code(b, j as nat, len),
    decreases len,
{
    if len > 0 {
        let x = a.subrange(i, i + len);
        let y = b.subrange(j, j + len);
        assert(a.subrange(i, i + len - 1) =~= x.subrange(0, len - 1));
        assert(b.subrange(j, j + len - 1) =~= y.subrange(0, len - 1));
        lemma_same_code(a, i, b, j, (len - 1) as nat);
        assert(a[i + (len - 1)] == x[len - 1]);
        assert(b[j + (len - 1)] == y[len - 1]);
    }
}

/// What the decoder accepts: at most `MAX_NODES` nodes and at least one,
/// each writable at its place, pruned branches only below a `case`, no two
/// nodes with the same commitment, canonical order, and a witness of less
/// than 2^32 bits.
pub open spec fn encodable(nodes: Seq<Node>, witness: Seq<bool>) -> bool {
    &&& 0 < nodes.len() <= MAX_NODES
    &&& all_writable(nodes)
    &&& hidden_placed(nodes)
    &&& maximal_sharing(nodes)
    &&& canonical_order(nodes)
    &&& witness.len() < 0x1_0000_0000
}

/// The first `n` nodes, where they stand at `pos`, are read there.
pub proof fn lemma_nodes_at(bits: Seq<bool>, pos: int, nodes: Seq<Node>, n: nat)
    requires
        n <= nodes.len() <= MAX_NODES,
        all_writable(nodes),
        hidden_placed(nodes),
        maximal_sharing(nodes),
        holds(bits, pos, nodes_code(nodes, n)),
    ensures
        nodes_from(bits, pos as nat, n) == Ok::<(Seq<Node>, nat), Error>(
            (nodes.take(n as int), (pos + nodes_code(nodes, n).len()) as nat),
        ),
    decreases n,
{
    if n == 0 {
        assert(nodes.take(0) =~= Seq::<Node>::empty());
    } else {
        let k = (n - 1) as nat;
        let prev = nodes_code(nodes, k);
        let node = nodes[k as int];
        let this = node_code(node, k as int);
        lemma_holds_split(bits, pos, prev, this);
        lemma_nodes_at(bits, pos, nodes, k);
        let earlier = nodes.take(k as int);
        assert(writable(node, k as int));
        lemma_node_at(bits, pos + prev.len(), node, k as usize);
        assert(crate::dag::hidden_rule(earlier, node) is Ok);
        let before = commitments(earlier, k);
        lemma_commitments_prefix(earlier, nodes, k);
        lemma_commitments(nodes, k, nodes.len());
        lemma_commitments(nodes, n, nodes.len());
        let all = commitments(nodes, nodes.len());
        assert(crate::merkle::node_commitment(before, node) == all[k as int]) by {
            assert(commitments(nodes, n)[k as int] == crate::merkle::node_commitment(
                commitments(nodes, k),
                node,
            ));
        }
        assert forall|j: int| 0 <= j < k implies #[trigger] before[j]
            != crate::merkle::node_commitment(before, node) by {
            assert(before[j] == all[j]);
            assert(all[j] != all[k as int]);
        }
        assert(admissible(earlier, node) is Ok);
        assert(earlier.push(node) =~= nodes.take(n as int));
    }
}

/// A witness that stands at `pos` is read there.
pub proof fn lemma_witness_at(bits: Seq<bool>, pos: int, witness: Seq<bool>)
    requires
        witness.len() < 0x1_0000_0000,
        holds(bits, pos, witness_code(witness)),
    ensures
        witness_at(bits, pos as nat) == Ok::<(Seq<bool>, nat), Error>(
            (witness, (pos + witness_code(witness).len()) as nat),
        ),
{
    assert(bits[pos] == bits.subrange(pos, pos + witness_code(witness).len())[0]);
    if witness.len() > 0 {
        let n = natural_code(witness.len());
        let head = seq![true] + n;
        assert(head.len() == 1 + n.len());
        assert(witness_code(witness).len() == 1 + n.len() + witness.len());
        lemma_holds_split(bits, pos, head, witness);
        lemma_holds_split(bits, pos, seq![true], n);
        lemma_natural_at(bits, pos + 1, witness.len());
        let p = pos + 1 + n.len();
        assert(bits.subrange(p, p + witness.len()) == witness);
        assert(bits[pos]);
    } else {
        assert(witness =~= Seq::<bool>::empty());
        assert(!bits[pos]);
    }
}

/// A program that is written in the wire format is read back as it was:
/// the same nodes, and with them the same commitments, and the same witness.
/// What follows the program in the bit string does not matter.
pub proof fn lemma_round_trip(nodes: Seq<Node>, witness: Seq<bool>, after: Seq<bool>)
    requires
        encodable(nodes, witness),
    ensures
        untyped_program(program_code(nodes, witness) + after) == Ok::<
            (Seq<Node>, Seq<bool>),
            Error,
        >((nodes, witness)),
{
    let whole = program_code(nodes, witness);
    let bits = whole + after;
    assert(bits.subrange(0, whole.len() as int) =~= whole);
    let count = natural_code(nodes.len());
    let body = nodes_code(nodes, nodes.len());
    let tail = witness_code(witness);
    lemma_holds_split(bits, 0, count + body, tail);
    lemma_holds_split(bits, 0, count, body);
    lemma_natural_at(bits, 0, nodes.len());
    lemma_nodes_at(bits, count.len() as int, nodes, nodes.len());
    assert(nodes.take(nodes.len() as int) =~= nodes);
    lemma_witness_at(bits, (count.len() + body.len()) as int, witness);
}

/// The bytes of a program are read back as the program.
pub proof fn lemma_bytes_round_trip(nodes: Seq<Node>, witness: Seq<bool>)
    requires
        encodable(nodes, witness),
    ensures
        untyped_program(bits_of(crate::encode::program_bytes(nodes, witness))) == Ok::<
            (Seq<Node>, Seq<bool>),
            Error,
        >((nodes, witness)),
{
    let whole = program_code(nodes, witness);
    crate::encode::lemma_bits_of_packed(whole);
    lemma_round_trip(
        nodes,
        witness,
        Seq::new(((8 - whole.len() % 8) % 8) as nat, |i: int| false),
    );
}

/// Two programs that are written with the same bytes are the same program:
/// a program has one encoding, and an encoding has one program.
pub proof fn lemma_bytes_unique(
    a_nodes: Seq<Node>,
    a_witness: Seq<bool>,
    b_nodes: Seq<Node>,
    b_witness: Seq<bool>,
)
    requires
        encodable(a_nodes, a_witness),
        encodable(b_nodes, b_witness),
    ensures
        crate::encode::program_bytes(a_nodes, a_witness) == crate::encode::program_bytes(
            b_nodes,
            b_witness,
        ) <==> a_nodes == b_nodes && a_witness == b_witness,
{
    lemma_bytes_round_trip(a_nodes, a_witness);
    lemma_bytes_round_trip(b_nodes, b_witness);
}

} // verus!
