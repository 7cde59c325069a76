//! Commitments: the identity hash of each node, computed from its combinator
//! and the commitments of its children.

use vstd::prelude::*;
use crate::dag::Node;

verus! {

/// The SHA256 digest of a byte string.
pub uninterp spec fn sha256_digest(data: Seq<u8>) -> Seq<u8>;

/// Calls `bitcoin_hashes::sha256::Hash::hash` and takes the 32 bytes of the
/// digest, which depends on the data alone.
#[verifier::external_body]
pub(crate) fn sha256(data: &[u8]) -> (r: [u8; 32])
    ensures
        r@ == sha256_digest(data@),
{
    bitcoin_hashes::Hash::into_inner(<bitcoin_hashes::sha256::Hash as bitcoin_hashes::Hash>::hash(data))
}

/// The four bytes of a number, the most significant first.
pub open spec fn big_endian(n: u32) -> Seq<u8> {
    seq![
        (n / 0x100_0000) as u8,
        (n / 0x1_0000 % 0x100) as u8,
        (n / 0x100 % 0x100) as u8,
        (n % 0x100) as u8,
    ]
}

/// Calls `byteorder::BigEndian::write_u32` on a buffer of four bytes, which
/// writes the number's bytes from the most significant to the least.
#[verifier::external_body]
pub(crate) fn be_bytes(n: u32) -> (r: [u8; 4])
    ensures
        r@ == big_endian(n),
{
    let mut buf = [0u8; 4];
    <byteorder::BigEndian as byteorder::ByteOrder>::write_u32(&mut buf, n);
    buf
}

/// The byte that stands for a combinator in a commitment.
pub open spec fn tag(node: Node) -> u8 {
    match node {
        Node::Iden => 0,
        Node::Unit => 1,
        Node::InjL(_) => 2,
        Node::InjR(_) => 3,
        Node::Take(_) => 4,
        Node::Drop(_) => 5,
        Node::Comp(_, _) => 6,
        Node::Case(_, _) => 7,
        Node::Pair(_, _) => 8,
        Node::Disconnect(_, _) => 9,
        Node::Witness => 10,
        Node::Hidden(_) => 11,
        Node::Jet(_) => 12,
    }
}

/// The commitment of a node, given the commitments of the nodes before it:
/// a pruned branch carries its own; every other node hashes its tag, followed
/// by the number of the jet or by the commitments of its children.
pub open spec fn node_commitment(before: Seq<Seq<u8>>, node: Node) -> Seq<u8> {
    match node {
        Node::Hidden(h) => h@,
        Node::Jet(id) => sha256_digest(seq![tag(node)] + big_endian(id)),
        _ => sha256_digest(
            seq![tag(node)] + (match node.first() {
                Some(c) => before[c as int],
                None => Seq::empty(),
            }) + (match node.second() {
                Some(c) => before[c as int],
                None => Seq::empty(),
            }),
        ),
    }
}

/// The commitments of the first `n` nodes.
pub open spec fn commitments(nodes: Seq<Node>, n: nat) -> Seq<Seq<u8>>
    decreases n,
{
    if n == 0 || n > nodes.len() {
        Seq::empty()
    } else {
        let before = commitments(nodes, (n - 1) as nat);
        before.push(node_commitment(before, nodes[n - 1]))
    }
}

/// The commitment of node `i`.
pub open spec fn commitment(nodes: Seq<Node>, i: int) -> Seq<u8> {
    commitments(nodes, nodes.len())[i]
}

/// The list of commitments has one entry for each node, and a longer list
/// begins with the shorter one.
pub proof fn lemma_commitments(nodes: Seq<Node>, n: nat, m: nat)
    requires
        n <= m <= nodes.len(),
    ensures
        commitments(nodes, n).len() == n,
        commitments(nodes, m).len() == m,
        forall|i: int| 0 <= i < n ==> commitments(nodes, n)[i] == commitments(nodes, m)[i],
    decreases m,
{
    if n < m {
        lemma_commitments(nodes, n, (m - 1) as nat);
        lemma_commitments(nodes, (m - 1) as nat, (m - 1) as nat);
    } else if n > 0 {
        lemma_commitments(nodes, (n - 1) as nat, (n - 1) as nat);
    }
}

/// The commitments of a prefix do not depend on what follows it.
pub proof fn lemma_commitments_prefix(a: Seq<Node>, b: Seq<Node>, n: nat)
    requires
        n <= a.len(),
        n <= b.len(),
        forall|i: int| 0 <= i < n ==> a[i] == b[i],
    ensures
        commitments(a, n) == commitments(b, n),
    decreases n,
{
    if n > 0 {
        lemma_commitments_prefix(a, b, (n - 1) as nat);
    }
}

/// The views of a list of digests.
pub open spec fn digest_views(hashes: Seq<[u8; 32]>) -> Seq<Seq<u8>> {
    Seq::new(hashes.len(), |i: int| hashes[i]@)
}

/// Whether two digests are the same.
pub fn same_digest(a: &[u8; 32], b: &[u8; 32]) -> (r: bool)
    ensures
        r == (a@ == b@),
{
    let mut i: usize = 0;
    while i < 32
        invariant
            i <= 32,
            forall|j: int| 0 <= j < i ==> a@[j] == b@[j],
        decreases 32 - i,
    {
        if a[i] != b[i] {
            return false;
        }
        i = i + 1;
    }
    assert(a@ =~= b@);
    true
}

/// Appends a digest to a buffer.
fn push_digest(buf: &mut Vec<u8>, h: &[u8; 32])
    ensures
        final(buf)@ == old(buf)@ + h@,
{
    let ghost start = buf@;
    let mut i: usize = 0;
    while i < 32
        invariant
            i <= 32,
            buf@ == start + h@.take(i as int),
        decreases 32 - i,
    {
        buf.push(h[i]);
        assert(buf@ =~= start + h@.take(i as int + 1));
        i = i + 1;
    }
    assert(h@.take(32) =~= h@);
}

/// The byte that stands for a combinator in a commitment.
pub fn tag_of(node: &Node) -> (r: u8)
    ensures
        r == tag(*node),
{
    match node {
        Node::Iden => 0,
        Node::Unit => 1,
        Node::InjL(_) => 2,
        Node::InjR(_) => 3,
        Node::Take(_) => 4,
        Node::Drop(_) => 5,
        Node::Comp(_, _) => 6,
        Node::Case(_, _) => 7,
        Node::Pair(_, _) => 8,
        Node::Disconnect(_, _) => 9,
        Node::Witness => 10,
        Node::Hidden(_) => 11,
        Node::Jet(_) => 12,
    }
}

/// Computes the commitment of a node from the commitments of the nodes before it.
pub fn commit(before: &Vec<[u8; 32]>, node: &Node) -> (r: [u8; 32])
    requires
        node.refers_below(before.len() as int),
    ensures
        r@ == node_commitment(digest_views(before@), *node),
{
    match node {
        Node::Hidden(h) => *h,
        Node::Jet(id) => {
            let mut buf: Vec<u8> = Vec::new();
            buf.push(tag_of(node));
            let b = be_bytes(*id);
            buf.push(b[0]);
            buf.push(b[1]);
            buf.push(b[2]);
            buf.push(b[3]);
            assert(buf@ =~= seq![tag(*node)] + big_endian(*id));
            sha256(buf.as_slice())
        },
        _ => {
            let mut buf: Vec<u8> = Vec::new();
            buf.push(tag_of(node));
            assert(buf@ =~= seq![tag(*node)]);
            match node.first_child() {
                Some(c) => {
                    push_digest(&mut buf, &before[c]);
                },
                None => {
                    assert(buf@ + Seq::<u8>::empty() =~= buf@);
                },
            }
            let ghost mid = buf@;
            match node.second_child() {
                Some(c) => {
                    push_digest(&mut buf, &before[c]);
                },
                None => {
                    assert(buf@ + Seq::<u8>::empty() =~= buf@);
                },
            }
            sha256(buf.as_slice())
        },
    }
}

} // verus!
