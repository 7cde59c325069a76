//! Writing programs in the wire format.

use vstd::prelude::*;
use vstd::arithmetic::power2::{pow2, lemma_pow2_unfold, lemma2_to64, lemma_pow2_strictly_increases};
use crate::bititer::{bit_at, bits_of};
use crate::dag::Node;
use crate::decode::{MAX_NODES, code};
use crate::error::Error;
use crate::natural::{leading_ones, natural, natural_chain, number};

verus! {

/// The number of binary digits of `n` behind the leading one.
pub open spec fn digits(n: nat) -> nat
    decreases n,
{
    if n <= 1 {
        0
    } else {
        1 + digits(n / 2)
    }
}

/// The last `len` binary digits of `n`, the most significant first.
pub open spec fn binary(n: nat, len: nat) -> Seq<bool>
    decreases len,
{
    if len == 0 {
        Seq::empty()
    } else {
        binary(n / 2, (len - 1) as nat).push(n % 2 == 1)
    }
}

/// The number of links in the chain that leads to `n`.
pub open spec fn links(n: nat) -> nat
    decreases n,
    via links_decreases
{
    if n <= 1 {
        0
    } else {
        1 + links(digits(n))
    }
}

/// The chain of groups that leads to `n`: the chain that leads to the number
/// of its digits, and then its digits.
pub open spec fn chain(n: nat) -> Seq<bool>
    decreases n,
    via chain_decreases
{
    if n <= 1 {
        Seq::empty()
    } else {
        chain(digits(n)) + binary(n, digits(n))
    }
}

#[via_fn]
proof fn links_decreases(n: nat) {
    lemma_digits_small(n);
}

#[via_fn]
proof fn chain_decreases(n: nat) {
    lemma_digits_small(n);
}

/// `n` ones.
pub open spec fn ones(n: nat) -> Seq<bool> {
    Seq::new(n, |i: int| true)
}

/// How a positive number is written: a one for each link of its chain, a
/// zero, and the chain.
pub open spec fn natural_code(n: nat) -> Seq<bool> {
    ones(links(n)) + seq![false] + chain(n)
}

/// A number above one has fewer digits than its value.
pub proof fn lemma_digits_small(n: nat)
    ensures
        n >= 2 ==> digits(n) < n,
        digits(n) <= n,
        n < pow2(digits(n) + 1),
        n >= 1 ==> pow2(digits(n)) <= n,
    decreases n,
{
    lemma2_to64();
    if n > 1 {
        lemma_digits_small(n / 2);
        lemma_pow2_unfold(digits(n) + 1);
        lemma_pow2_unfold(digits(n));
    }
}

/// A number below 2^32 has at most 31 digits behind the leading one.
pub proof fn lemma_digits_32(n: nat)
    requires
        n < 0x1_0000_0000,
    ensures
        digits(n) <= 31,
{
    lemma_digits_small(n);
    lemma2_to64();
    if digits(n) > 31 {
        if digits(n) > 32 {
            lemma_pow2_strictly_increases(32, digits(n));
        }
    }
}

/// The digits of a number have the length that was asked for.
pub proof fn lemma_binary_len(n: nat, len: nat)
    ensures
        binary(n, len).len() == len,
    decreases len,
{
    if len > 0 {
        lemma_binary_len(n / 2, (len - 1) as nat);
    }
}

/// The digits of a number, read behind a one, give the number back.
pub proof fn lemma_number_of_binary(bits: Seq<bool>, pos: nat, n: nat, len: nat)
    requires
        n >= 1,
        len == digits(n),
        pos + len <= bits.len(),
        bits.subrange(pos as int, (pos + len) as int) == binary(n, len),
    ensures
        number(bits, pos, len) == n,
    decreases len,
{
    if len > 0 {
        lemma_binary_len(n / 2, (len - 1) as nat);
        let b = binary(n, len);
        assert(b.drop_last() =~= binary(n / 2, (len - 1) as nat));
        assert(bits.subrange(pos as int, pos + len - 1) =~= b.drop_last());
        assert(bits[pos + len - 1] == b[len - 1]);
        lemma_number_of_binary(bits, pos, n / 2, (len - 1) as nat);
    }
}

/// The chain that leads to `m` is read back as `m`; with `extra` links to
/// follow, reading goes on with a group of `m` bits.
pub proof fn lemma_chain_read(bits: Seq<bool>, pos: nat, m: nat, extra: nat)
    requires
        1 <= m < 0x1_0000_0000,
        extra > 0 ==> m <= 31,
        pos + chain(m).len() <= bits.len(),
        bits.subrange(pos as int, (pos + chain(m).len()) as int) == chain(m),
    ensures
        natural_chain(bits, pos, links(m) + extra, 0) == if extra == 0 {
            Ok::<(nat, nat), Error>((m, pos + chain(m).len()))
        } else {
            natural_chain(bits, pos + chain(m).len(), (extra - 1) as nat, m)
        },
    decreases m,
{
    if m == 1 {
        assert(number(bits, pos, 0) == 1);
    } else {
        let q = digits(m);
        lemma_digits_small(m);
        lemma_digits_32(m);
        lemma_binary_len(m, q);
        let c = chain(m);
        let cq = chain(q);
        assert(c == cq + binary(m, q));
        assert(bits.subrange(pos as int, (pos + cq.len()) as int) =~= cq) by {
            assert(c.subrange(0, cq.len() as int) =~= cq);
        }
        lemma_chain_read(bits, pos, q, extra + 1);
        let p = pos + cq.len();
        assert(bits.subrange(p as int, (p + q) as int) =~= binary(m, q)) by {
            assert(c.subrange(cq.len() as int, c.len() as int) =~= binary(m, q));
        }
        lemma_number_of_binary(bits, p, m, q);
        assert(links(m) + extra == links(q) + (extra + 1));
    }
}

/// A run of ones that is followed by a zero is counted in full.
pub proof fn lemma_leading_ones(bits: Seq<bool>, pos: nat, n: nat)
    requires
        pos + n < bits.len(),
        forall|i: int| pos <= i < pos + n ==> bits[i],
        !bits[(pos + n) as int],
    ensures
        leading_ones(bits, pos) == n,
    decreases n,
{
    if n > 0 {
        lemma_leading_ones(bits, pos + 1, (n - 1) as nat);
    }
}

/// A number that is written and then read is the number that was written,
/// whatever follows it.
pub proof fn lemma_natural_round_trip(n: nat, before: Seq<bool>, after: Seq<bool>)
    requires
        1 <= n < 0x1_0000_0000,
    ensures
        natural(before + natural_code(n) + after, before.len()) == Ok::<(nat, nat), Error>(
            (n, before.len() + natural_code(n).len()),
        ),
{
    let bits = before + natural_code(n) + after;
    let pos = before.len();
    let d = links(n);
    assert forall|i: int| pos <= i < pos + d implies bits[i] by {
        assert(bits[i] == natural_code(n)[i - pos]);
    }
    assert(bits[(pos + d) as int] == natural_code(n)[d as int]);
    lemma_leading_ones(bits, pos, d);
    let p = pos + d + 1;
    assert(bits.subrange(p as int, (p + chain(n).len()) as int) =~= chain(n));
    lemma_chain_read(bits, p, n, 0);
}

/// Appends the code of a positive number below 2^32.
pub fn encode_natural(n: u32, out: &mut Vec<bool>)
    requires
        n >= 1,
    ensures
        final(out)@ == old(out)@ + natural_code(n as nat),
{
    let ghost start = out@;
    // the numbers of the chain, the last first
    let mut stack: Vec<u32> = Vec::new();
    let mut m: u32 = n;
    let ghost mut tail: Seq<bool> = Seq::empty();
    proof {
        assert(chain(n as nat) =~= chain(m as nat) + tail);
    }
    while m > 1
        invariant
            m >= 1,
            stack.len() + links(m as nat) == links(n as nat),
            chain(n as nat) == chain(m as nat) + tail,
            forall|i: int| 0 <= i < stack.len() ==> stack[i] >= 2,
            tail == chain_of(stack@),
        decreases m,
    {
        proof {
            lemma_digits_small(m as nat);
            assert(chain(m as nat) + tail =~= chain(digits(m as nat)) + (binary(
                m as nat,
                digits(m as nat),
            ) + tail));
        }
        let ghost before = stack@;
        stack.push(m);
        proof {
            tail = binary(m as nat, digits(m as nat)) + tail;
            assert(stack@.drop_last() =~= before);
        }
        m = count_digits(m);
    }
    let depth = stack.len();
    let mut i: usize = 0;
    assert(start + ones(0) =~= start);
    while i < depth
        invariant
            i <= depth,
            out@ == start + ones(i as nat),
        decreases depth - i,
    {
        out.push(true);
        assert(out@ =~= start + ones((i + 1) as nat));
        i = i + 1;
    }
    out.push(false);
    let ghost head = out@;
    assert(head =~= start + ones(links(n as nat)) + seq![false]);
    assert(chain(m as nat) =~= Seq::<bool>::empty());
    assert(head + Seq::<bool>::empty() =~= head);
    let ghost mut done: Seq<bool> = Seq::empty();
    while stack.len() > 0
        invariant
            out@ == head + done,
            done + chain_of(stack@) == chain(n as nat),
            forall|i: int| 0 <= i < stack.len() ==> stack[i] >= 2,
        decreases stack.len(),
    {
        let ghost before = stack@;
        let v = stack.pop().unwrap();
        let len = count_digits(v);
        proof {
            assert(stack@ =~= before.drop_last());
            assert(chain_of(before) == binary(v as nat, digits(v as nat)) + chain_of(stack@));
        }
        push_binary(v, len, out);
        proof {
            let group = binary(v as nat, digits(v as nat));
            assert(done + chain_of(before) =~= (done + group) + chain_of(stack@));
            done = done + group;
            assert(out@ =~= head + done);
        }
    }
    proof {
        assert(chain_of(stack@) =~= Seq::<bool>::empty());
        assert(done + Seq::<bool>::empty() =~= done);
        assert(out@ =~= start + natural_code(n as nat));
    }
}

/// The digits of the numbers of a list, those of the last number first.
pub open spec fn chain_of(stack: Seq<u32>) -> Seq<bool>
    decreases stack.len(),
{
    if stack.len() == 0 {
        Seq::empty()
    } else {
        binary(stack.last() as nat, digits(stack.last() as nat)) + chain_of(stack.drop_last())
    }
}

/// Counts the binary digits of `n` behind the leading one.
pub fn count_digits(n: u32) -> (r: u32)
    ensures
        r == digits(n as nat),
        r <= 31,
{
    proof {
        lemma_digits_32(n as nat);
    }
    let mut m: u32 = n;
    let mut r: u32 = 0;
    while m > 1
        invariant
            r + digits(m as nat) == digits(n as nat),
            digits(n as nat) <= 31,
        decreases m,
    {
        m = m / 2;
        r = r + 1;
    }
    r
}

/// Appends the last `len` binary digits of `n`, the most significant first.
pub fn push_binary(n: u32, len: u32, out: &mut Vec<bool>)
    requires
        len <= 32,
    ensures
        final(out)@ == old(out)@ + binary(n as nat, len as nat),
    decreases len,
{
    if len > 0 {
        let ghost start = out@;
        push_binary(n / 2, len - 1, out);
        out.push(n % 2 == 1);
        assert(out@ =~= start + binary(n as nat, len as nat));
    } else {
        assert(out@ + binary(n as nat, 0) =~= out@);
    }
}

/// How a node is written as node number `index`.
pub open spec fn node_code(node: Node, index: int) -> Seq<bool> {
    match node {
        Node::Comp(l, r) => seq![false] + binary(0, 2) + binary(0, 2) + natural_code(
            (index - l) as nat,
        ) + natural_code((index - r) as nat),
        Node::Case(l, r) => seq![false] + binary(0, 2) + binary(1, 2) + natural_code(
            (index - l) as nat,
        ) + natural_code((index - r) as nat),
        Node::Pair(l, r) => seq![false] + binary(0, 2) + binary(2, 2) + natural_code(
            (index - l) as nat,
        ) + natural_code((index - r) as nat),
        Node::Disconnect(l, r) => seq![false] + binary(0, 2) + binary(3, 2) + natural_code(
            (index - l) as nat,
        ) + natural_code((index - r) as nat),
        Node::InjL(c) => seq![false] + binary(1, 2) + binary(0, 2) + natural_code(
            (index - c) as nat,
        ),
        Node::InjR(c) => seq![false] + binary(1, 2) + binary(1, 2) + natural_code(
            (index - c) as nat,
        ),
        Node::Take(c) => seq![false] + binary(1, 2) + binary(2, 2) + natural_code(
            (index - c) as nat,
        ),
        Node::Drop(c) => seq![false] + binary(1, 2) + binary(3, 2) + natural_code(
            (index - c) as nat,
        ),
        Node::Iden => seq![false] + binary(2, 2) + binary(0, 2),
        Node::Unit => seq![false] + binary(2, 2) + binary(1, 2),
        Node::Hidden(h) => seq![false] + binary(3, 2) + binary(0, 1) + bits_of(h@),
        Node::Witness => seq![false] + binary(3, 2) + binary(1, 1),
        Node::Jet(id) => seq![true] + natural_code(id as nat),
    }
}

/// How the first `n` nodes are written, one behind the other.
pub open spec fn nodes_code(nodes: Seq<Node>, n: nat) -> Seq<bool>
    decreases n,
{
    if n == 0 || n > nodes.len() {
        Seq::empty()
    } else {
        nodes_code(nodes, (n - 1) as nat) + node_code(nodes[n - 1], n - 1)
    }
}

/// How a witness is written.
pub open spec fn witness_code(witness: Seq<bool>) -> Seq<bool> {
    if witness.len() == 0 {
        seq![false]
    } else {
        seq![true] + natural_code(witness.len()) + witness
    }
}

/// How a program is written: the number of nodes, the nodes, the witness.
pub open spec fn program_code(nodes: Seq<Node>, witness: Seq<bool>) -> Seq<bool> {
    natural_code(nodes.len()) + nodes_code(nodes, nodes.len()) + witness_code(witness)
}

/// The bits, filled up with zeros to whole bytes.
pub open spec fn padded(bits: Seq<bool>) -> Seq<bool> {
    bits + Seq::new(((8 - bits.len() % 8) % 8) as nat, |i: int| false)
}

/// The bytes that hold the bits, the first bit in the most significant place;
/// the last byte is filled up with zeros.
pub open spec fn packed(bits: Seq<bool>) -> Seq<u8> {
    Seq::new(padded(bits).len() / 8, |j: int| code(padded(bits), (8 * j) as nat, 8) as u8)
}

/// The bytes of a program.
pub open spec fn program_bytes(nodes: Seq<Node>, witness: Seq<bool>) -> Seq<u8> {
    packed(program_code(nodes, witness))
}

/// Every number that the code of a node holds can be written: children are
/// less than 2^32 nodes back, and a jet has a positive number.
pub open spec fn writable(node: Node, index: int) -> bool {
    &&& node.refers_below(index)
    &&& index < 0x1_0000_0000
    &&& node matches Node::Jet(id) ==> id >= 1
}

/// Appends the last `len` binary digits of `v`.
fn push_code(v: u8, len: u8, out: &mut Vec<bool>)
    requires
        len <= 8,
    ensures
        final(out)@ == old(out)@ + binary(v as nat, len as nat),
{
    push_binary(v as u32, len as u32, out);
}

/// Appends the first three parts of the code of a node that is no jet.
fn encode_head(c: u8, s: u8, width: u8, out: &mut Vec<bool>)
    requires
        width <= 2,
    ensures
        final(out)@ == old(out)@ + (seq![false] + binary(c as nat, 2) + binary(
            s as nat,
            width as nat,
        )),
{
    let ghost start = out@;
    out.push(false);
    push_code(c, 2, out);
    push_code(s, width, out);
    assert(out@ =~= start + (seq![false] + binary(c as nat, 2) + binary(s as nat, width as nat)));
}

/// Appends the bits of a digest.
fn encode_digest(h: &[u8; 32], out: &mut Vec<bool>)
    ensures
        final(out)@ == old(out)@ + bits_of(h@),
{
    let ghost head = out@;
    let mut j: usize = 0;
    assert(head + bits_of(h@).take(0) =~= head);
    while j < 32
        invariant
            j <= 32,
            bits_of(h@).len() == 256,
            out@ == head + bits_of(h@).take(8 * j),
        decreases 32 - j,
    {
        let b: u8 = h[j];
        let mut i: u8 = 0;
        while i < 8
            invariant
                i <= 8,
                j < 32,
                b == h@[j as int],
                bits_of(h@).len() == 256,
                out@ == head + bits_of(h@).take(8 * j + i),
            decreases 8 - i,
        {
            let shift: u8 = 7 - i;
            out.push((b >> shift) & 1 == 1);
            proof {
                let p = 8 * j + i;
                assert(p / 8 == j && p % 8 == i);
                assert(bits_of(h@)[p] == bit_at(h@[j as int], i as int));
                assert(out@ =~= head + bits_of(h@).take(p + 1));
            }
            i = i + 1;
        }
        j = j + 1;
    }
    assert(bits_of(h@).take(256) =~= bits_of(h@));
}

/// Appends the code of a node with one child.
fn encode_unary(s: u8, c: usize, index: usize, out: &mut Vec<bool>)
    requires
        c < index < 0x1_0000_0000,
    ensures
        final(out)@ == old(out)@ + (seq![false] + binary(1, 2) + binary(s as nat, 2) + natural_code(
            (index - c) as nat,
        )),
{
    let ghost start = out@;
    encode_head(1, s, 2, out);
    encode_natural((index - c) as u32, out);
    assert(out@ =~= start + (seq![false] + binary(1, 2) + binary(s as nat, 2) + natural_code(
        (index - c) as nat,
    )));
}

/// Appends the code of a node with two children.
fn encode_binary(s: u8, l: usize, r: usize, index: usize, out: &mut Vec<bool>)
    requires
        l < index < 0x1_0000_0000,
        r < index,
    ensures
        final(out)@ == old(out)@ + (seq![false] + binary(0, 2) + binary(s as nat, 2) + natural_code(
            (index - l) as nat,
        ) + natural_code((index - r) as nat)),
{
    let ghost start = out@;
    encode_head(0, s, 2, out);
    encode_natural((index - l) as u32, out);
    encode_natural((index - r) as u32, out);
    assert(out@ =~= start + (seq![false] + binary(0, 2) + binary(s as nat, 2) + natural_code(
        (index - l) as nat,
    ) + natural_code((index - r) as nat)));
}

/// Appends the code of a node that is written as node number `index`.
pub fn encode_node(node: &Node, index: usize, out: &mut Vec<bool>)
    requires
        writable(*node, index as int),
    ensures
        final(out)@ == old(out)@ + node_code(*node, index as int),
{
    let ghost start = out@;
    match node {
        Node::Jet(id) => {
            out.push(true);
            encode_natural(*id, out);
            assert(out@ =~= start + node_code(*node, index as int));
        },
        Node::Hidden(h) => {
            encode_head(3, 0, 1, out);
            encode_digest(h, out);
            assert(out@ =~= start + node_code(*node, index as int));
        },
        Node::Iden => encode_head(2, 0, 2, out),
        Node::Unit => encode_head(2, 1, 2, out),
        Node::Witness => encode_head(3, 1, 1, out),
        Node::InjL(c) => encode_unary(0, *c, index, out),
        Node::InjR(c) => encode_unary(1, *c, index, out),
        Node::Take(c) => encode_unary(2, *c, index, out),
        Node::Drop(c) => encode_unary(3, *c, index, out),
        Node::Comp(l, r) => encode_binary(0, *l, *r, index, out),
        Node::Case(l, r) => encode_binary(1, *l, *r, index, out),
        Node::Pair(l, r) => encode_binary(2, *l, *r, index, out),
        Node::Disconnect(l, r) => encode_binary(3, *l, *r, index, out),
    }
}

/// A byte whose bits are given, the most significant first.
proof fn lemma_byte_of_bits(v: u8, x0: u8, x1: u8, x2: u8, x3: u8, x4: u8, x5: u8, x6: u8, x7: u8)
    requires
        x0 <= 1,
        x1 <= 1,
        x2 <= 1,
        x3 <= 1,
        x4 <= 1,
        x5 <= 1,
        x6 <= 1,
        x7 <= 1,
        v == 128 * x0 + 64 * x1 + 32 * x2 + 16 * x3 + 8 * x4 + 4 * x5 + 2 * x6 + x7,
    ensures
        (v >> 7) & 1 == x0,
        (v >> 6) & 1 == x1,
        (v >> 5) & 1 == x2,
        (v >> 4) & 1 == x3,
        (v >> 3) & 1 == x4,
        (v >> 2) & 1 == x5,
        (v >> 1) & 1 == x6,
        (v >> 0) & 1 == x7,
{
    assert((v >> 7) & 1 == x0 && (v >> 6) & 1 == x1 && (v >> 5) & 1 == x2 && (v >> 4) & 1 == x3
        && (v >> 3) & 1 == x4 && (v >> 2) & 1 == x5 && (v >> 1) & 1 == x6 && (v >> 0) & 1 == x7)
        by (bit_vector)
        requires
            x0 <= 1,
            x1 <= 1,
            x2 <= 1,
            x3 <= 1,
            x4 <= 1,
            x5 <= 1,
            x6 <= 1,
            x7 <= 1,
            v == 128 * x0 + 64 * x1 + 32 * x2 + 16 * x3 + 8 * x4 + 4 * x5 + 2 * x6 + x7,
    ;
}

/// The bits of a byte, the most significant first, make up the byte.
proof fn lemma_bits_of_byte(v: u8)
    ensures
        v == 128 * ((v >> 7) & 1) + 64 * ((v >> 6) & 1) + 32 * ((v >> 5) & 1) + 16 * ((v >> 4)
            & 1) + 8 * ((v >> 3) & 1) + 4 * ((v >> 2) & 1) + 2 * ((v >> 1) & 1) + ((v >> 0) & 1),
        (v >> 7) & 1 <= 1,
        (v >> 6) & 1 <= 1,
        (v >> 5) & 1 <= 1,
        (v >> 4) & 1 <= 1,
        (v >> 3) & 1 <= 1,
        (v >> 2) & 1 <= 1,
        (v >> 1) & 1 <= 1,
        (v >> 0) & 1 <= 1,
{
    assert(v == 128 * ((v >> 7) & 1) + 64 * ((v >> 6) & 1) + 32 * ((v >> 5) & 1) + 16 * ((v >> 4)
        & 1) + 8 * ((v >> 3) & 1) + 4 * ((v >> 2) & 1) + 2 * ((v >> 1) & 1) + ((v >> 0) & 1) && (v
        >> 7) & 1 <= 1 && (v >> 6) & 1 <= 1 && (v >> 5) & 1 <= 1 && (v >> 4) & 1 <= 1 && (v >> 3)
        & 1 <= 1 && (v >> 2) & 1 <= 1 && (v >> 1) & 1 <= 1 && (v >> 0) & 1 <= 1) by (bit_vector);
}

/// The value of a bit.
pub open spec fn bit_value(b: bool) -> nat {
    if b {
        1
    } else {
        0
    }
}

/// A code of eight bits, written out.
proof fn lemma_code_8(bits: Seq<bool>, pos: nat)
    ensures
        code(bits, pos, 8) == 128 * bit_value(bits[pos as int]) + 64 * bit_value(bits[pos as int + 1])
            + 32 * bit_value(bits[pos as int + 2]) + 16 * bit_value(bits[pos as int + 3]) + 8 * bit_value(
            bits[pos as int + 4],
        ) + 4 * bit_value(bits[pos as int + 5]) + 2 * bit_value(bits[pos as int + 6]) + bit_value(
            bits[pos as int + 7],
        ),
{
    reveal_with_fuel(code, 9);
}

/// The byte that is read from the bits of a byte is that byte.
pub proof fn lemma_code_of_byte(bytes: Seq<u8>, j: int)
    requires
        0 <= j < bytes.len(),
    ensures
        code(bits_of(bytes), (8 * j) as nat, 8) == bytes[j],
{
    let bits = bits_of(bytes);
    let v = bytes[j];
    lemma_code_8(bits, (8 * j) as nat);
    lemma_bits_of_byte(v);
    assert forall|i: int| 0 <= i < 8 implies #[trigger] bits[8 * j + i] == bit_at(v, i) by {
        let p = 8 * j + i;
        assert(p / 8 == j && p % 8 == i);
    }
    assert(bits[8 * j + 0] == bit_at(v, 0));
    assert(bits[8 * j + 1] == bit_at(v, 1));
    assert(bits[8 * j + 2] == bit_at(v, 2));
    assert(bits[8 * j + 3] == bit_at(v, 3));
    assert(bits[8 * j + 4] == bit_at(v, 4));
    assert(bits[8 * j + 5] == bit_at(v, 5));
    assert(bits[8 * j + 6] == bit_at(v, 6));
    assert(bits[8 * j + 7] == bit_at(v, 7));
}

/// The bits of the bytes that hold a bit string are the bit string, filled
/// up with zeros.
pub proof fn lemma_bits_of_packed(bits: Seq<bool>)
    ensures
        bits_of(packed(bits)) == padded(bits),
{
    let p = padded(bits);
    let bytes = packed(bits);
    assert(p.len() % 8 == 0);
    assert forall|k: int| 0 <= k < p.len() implies bits_of(bytes)[k] == p[k] by {
        let j = k / 8;
        let i = k % 8;
        let pos = (8 * j) as nat;
        lemma_code_8(p, pos);
        crate::decode::lemma_code_bound(p, pos, 8);
        lemma2_to64();
        let v = code(p, pos, 8) as u8;
        assert(bytes[j] == v);
        lemma_byte_of_bits(
            v,
            bit_value(p[pos as int]) as u8,
            bit_value(p[pos as int + 1]) as u8,
            bit_value(p[pos as int + 2]) as u8,
            bit_value(p[pos as int + 3]) as u8,
            bit_value(p[pos as int + 4]) as u8,
            bit_value(p[pos as int + 5]) as u8,
            bit_value(p[pos as int + 6]) as u8,
            bit_value(p[pos as int + 7]) as u8,
        );
    }
    assert(bits_of(bytes) =~= p);
}

/// Packs bits into bytes.
pub fn pack(bits: &Vec<bool>) -> (r: Vec<u8>)
    ensures
        r@ == packed(bits@),
{
    let ghost p = padded(bits@);
    let n = bits.len();
    let mut out: Vec<u8> = Vec::new();
    let extra: usize = if n % 8 == 0 {
        0
    } else {
        1
    };
    let total: usize = n / 8 + extra;
    let mut j: usize = 0;
    while j < total
        invariant
            total == n / 8 + extra,
            extra == (if n % 8 == 0 {
                0int
            } else {
                1int
            }),
            n == bits.len(),
            p == padded(bits@),
            p.len() % 8 == 0,
            out.len() == j,
            8 * j <= p.len(),
            forall|k: int| 0 <= k < j ==> out@[k] == code(p, (8 * k) as nat, 8) as u8,
        decreases p.len() - 8 * j,
    {
        let mut v: u8 = 0;
        let mut i: usize = 0;
        proof {
            lemma2_to64();
        }
        while i < 8
            invariant
                i <= 8,
                n == bits.len(),
                p == padded(bits@),
                8 * j + 8 <= p.len(),
                8 * j < n,
                v == code(p, (8 * j) as nat, i as nat),
                v < pow2(i as nat),
            decreases 8 - i,
        {
            let b = if 8 * j + i < n {
                bits[8 * j + i]
            } else {
                false
            };
            proof {
                lemma_pow2_unfold((i + 1) as nat);
                lemma2_to64();
                if i + 1 < 8 {
                    lemma_pow2_strictly_increases((i + 1) as nat, 8);
                }
                assert(p[8 * j + i] == b);
            }
            v = 2 * v + if b {
                1
            } else {
                0
            };
            i = i + 1;
        }
        out.push(v);
        j = j + 1;
    }
    assert(out@ =~= packed(bits@));
    out
}

/// Every node can be written at its place.
pub open spec fn all_writable(nodes: Seq<Node>) -> bool {
    forall|i: int| 0 <= i < nodes.len() ==> writable(#[trigger] nodes[i], i)
}

/// Whether a node can be written as node number `index`, where `index` is
/// below 2^32.
fn is_writable(node: &Node, index: usize) -> (r: bool)
    requires
        index < 0x1_0000_0000,
    ensures
        r == writable(*node, index as int),
{
    let a = match node.first_child() {
        Some(c) => c < index,
        None => true,
    };
    let b = match node.second_child() {
        Some(c) => c < index,
        None => true,
    };
    let j = match node {
        Node::Jet(id) => *id >= 1,
        _ => true,
    };
    a && b && j
}

/// Writes the nodes and the witness of a program in the wire format.
///
/// The program must have a node and at most `MAX_NODES` of them, every node
/// must refer to earlier nodes only, the number of a jet must be positive,
/// and the witness must have less than 2^32 bits.
pub fn encode_program(nodes: &Vec<Node>, witness: &Vec<bool>) -> (r: Result<Vec<u8>, Error>)
    ensures
        match r {
            Ok(bytes) => {
                &&& 0 < nodes.len() <= MAX_NODES
                &&& all_writable(nodes@)
                &&& witness.len() < 0x1_0000_0000
                &&& bytes@ == program_bytes(nodes@, witness@)
            },
            Err(e) => if nodes.len() == 0 {
                e == Error::EmptyProgram
            } else if nodes.len() > MAX_NODES {
                e == Error::TooManyNodes(nodes.len())
            } else if !all_writable(nodes@) {
                e == Error::BadIndex
            } else {
                e == Error::NaturalOverflow && witness.len() >= 0x1_0000_0000
            },
        },
{
    if nodes.len() == 0 {
        return Err(Error::EmptyProgram);
    }
    if nodes.len() > MAX_NODES {
        return Err(Error::TooManyNodes(nodes.len()));
    }
    let mut k: usize = 0;
    while k < nodes.len()
        invariant
            k <= nodes.len() <= MAX_NODES,
            forall|i: int| 0 <= i < k ==> writable(#[trigger] nodes@[i], i),
        decreases nodes.len() - k,
    {
        if !is_writable(&nodes[k], k) {
            return Err(Error::BadIndex);
        }
        k = k + 1;
    }
    if witness.len() as u64 >= 0x1_0000_0000 {
        return Err(Error::NaturalOverflow);
    }
    let mut bits: Vec<bool> = Vec::new();
    encode_natural(nodes.len() as u32, &mut bits);
    let ghost head = bits@;
    assert(head =~= natural_code(nodes@.len()));
    let mut k: usize = 0;
    assert(head + nodes_code(nodes@, 0) =~= head);
    while k < nodes.len()
        invariant
            k <= nodes.len() <= MAX_NODES,
            all_writable(nodes@),
            bits@ == head + nodes_code(nodes@, k as nat),
        decreases nodes.len() - k,
    {
        assert(writable(nodes@[k as int], k as int));
        encode_node(&nodes[k], k, &mut bits);
        assert(bits@ =~= head + nodes_code(nodes@, (k + 1) as nat));
        k = k + 1;
    }
    if witness.len() == 0 {
        bits.push(false);
        assert(bits@ =~= program_code(nodes@, witness@));
    } else {
        bits.push(true);
        encode_natural(witness.len() as u32, &mut bits);
        let ghost mid = bits@;
        let mut i: usize = 0;
        assert(mid + witness@.take(0) =~= mid);
        while i < witness.len()
            invariant
                i <= witness.len(),
                bits@ == mid + witness@.take(i as int),
            decreases witness.len() - i,
        {
            bits.push(witness[i]);
            assert(bits@ =~= mid + witness@.take(i + 1));
            i = i + 1;
        }
        assert(witness@.take(witness.len() as int) =~= witness@);
        assert(bits@ =~= program_code(nodes@, witness@));
    }
    Ok(pack(&bits))
}

} // verus!
