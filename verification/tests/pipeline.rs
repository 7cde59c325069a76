use simplicity::bit_machine::Failure;
use simplicity::bititer::BitIter;
use simplicity::dag::{is_canonical_order, Node};
use simplicity::decode::{decode_untyped, MAX_NODES};
use simplicity::encode::{encode_natural, encode_program};
use simplicity::error::Error;
use simplicity::inference::{infer, Binding, Unifier};
use simplicity::jet::{JET_NOT, JET_VERIFY, JET_XOR};
use simplicity::merkle::commit;
use simplicity::natural::decode_natural;
use simplicity::program::Program;
use simplicity::types::{Type, TypeArena, TypeNode};

fn bytes_of(bits: &str) -> Vec<u8> {
    let mut out = Vec::new();
    let mut cur = 0u8;
    let mut n = 0;
    for ch in bits.chars() {
        if ch == ' ' {
            continue;
        }
        cur = (cur << 1) | if ch == '1' { 1 } else { 0 };
        n += 1;
        if n == 8 {
            out.push(cur);
            cur = 0;
            n = 0;
        }
    }
    if n > 0 {
        out.push(cur << (8 - n));
    }
    out
}

fn sha256(data: &[u8]) -> [u8; 32] {
    let h = <bitcoin_hashes::sha256::Hash as bitcoin_hashes::Hash>::hash(data);
    bitcoin_hashes::Hash::into_inner(h)
}

fn bits_of_bytes(bytes: &[u8]) -> Vec<bool> {
    let mut out = Vec::new();
    for b in bytes {
        for i in 0..8 {
            out.push((b >> (7 - i)) & 1 == 1);
        }
    }
    out
}

fn natural_bits(n: u32) -> String {
    let mut v = Vec::new();
    encode_natural(n, &mut v);
    v.iter().map(|b| if *b { '1' } else { '0' }).collect()
}

fn decode_err(bits: &str) -> Error {
    match Program::decode(&bytes_of(bits)) {
        Ok(_) => panic!("decoded"),
        Err(e) => e,
    }
}

// nodes: witness, xor, take, drop, pair, take, drop, pair, comp: the witness
// is the input of four xor jets
fn xor_program() -> Vec<Node> {
    vec![
        Node::Witness,
        Node::Jet(JET_XOR),
        Node::Take(1),
        Node::Drop(1),
        Node::Pair(2, 3),
        Node::Take(4),
        Node::Drop(4),
        Node::Pair(5, 6),
        Node::Comp(0, 7),
    ]
}

#[test]
fn bit_iter_reads_the_most_significant_bit_first() {
    let data = [0b1010_0001u8, 0xff];
    let mut it = BitIter::new(&data);
    let mut got = Vec::new();
    while let Some(b) = it.next() {
        got.push(b);
    }
    assert_eq!(got, bits_of_bytes(&data));
    assert_eq!(it.next(), None);
}

#[test]
fn naturals_are_read() {
    let cases: Vec<(&str, usize)> = vec![
        ("0", 1),
        ("100", 2),
        ("101", 3),
        ("110000", 4),
        ("110011", 7),
        ("1101000", 8),
        ("1101111", 15),
        ("11100000000", 16),
    ];
    for (bits, n) in cases {
        let data = bytes_of(bits);
        let mut it = BitIter::new(&data);
        assert_eq!(decode_natural(&mut it, None).unwrap(), n, "{}", bits);
    }
}

#[test]
fn naturals_are_written_as_they_are_read() {
    for n in [1u32, 2, 3, 4, 5, 7, 8, 15, 16, 31, 32, 255, 256, 65535, 65536, 1 << 20, u32::MAX] {
        let code = natural_bits(n);
        let data = bytes_of(&code);
        let mut it = BitIter::new(&data);
        assert_eq!(decode_natural(&mut it, None).unwrap(), n as usize);
    }
    assert_eq!(natural_bits(1), "0");
    assert_eq!(natural_bits(3), "101");
    assert_eq!(natural_bits(5), "110001");
}

#[test]
fn natural_bound_and_failures() {
    let data = bytes_of("110000");
    let mut it = BitIter::new(&data);
    assert!(matches!(decode_natural(&mut it, Some(3)), Err(Error::BadIndex)));
    let mut it = BitIter::new(&data);
    assert_eq!(decode_natural(&mut it, Some(4)).unwrap(), 4);
    let mut it = BitIter::new(&[]);
    assert!(matches!(decode_natural(&mut it, None), Err(Error::EndOfStream)));
    let data = [0xffu8, 0xff];
    let mut it = BitIter::new(&data);
    assert!(matches!(decode_natural(&mut it, None), Err(Error::EndOfStream)));
    // five links: the fourth group would be the length of a number of more than 32 bits
    let data = bytes_of("111110 1 111 111111111111111 0000000000000000");
    let mut it = BitIter::new(&data);
    assert!(matches!(decode_natural(&mut it, None), Err(Error::NaturalOverflow)));
}

#[test]
fn the_unit_program_runs_end_to_end() {
    let p = Program::decode(&[0x24]).unwrap();
    assert_eq!(p.nodes, vec![Node::Unit]);
    assert!(p.witness.is_empty());
    assert_eq!(p.typing.arena.nodes[p.typing.source[0]], TypeNode::Unit);
    assert_eq!(p.typing.arena.nodes[p.typing.target[0]], TypeNode::Unit);
    assert_eq!(p.exec(&vec![]).unwrap(), Vec::<bool>::new());
    assert_eq!(p.identity(), sha256(&[1]));
    assert_eq!(p.encode().unwrap(), vec![0x24]);
}

#[test]
fn the_identity_program() {
    let p = Program::decode(&bytes_of("0 01000 0")).unwrap();
    assert_eq!(p.nodes, vec![Node::Iden]);
    assert_eq!(p.exec(&vec![]).unwrap(), Vec::<bool>::new());
    assert!(matches!(p.exec(&vec![true]), Err(Failure::InputWidth)));
}

#[test]
fn a_reference_past_the_beginning_is_a_bad_index() {
    // node 0 is an injection whose child lies one node back
    assert!(matches!(decode_err("0 00100 0"), Error::BadIndex));
    // node 1 refers two nodes back
    assert!(matches!(decode_err("100 01001 00100 100"), Error::BadIndex));
    // a node cannot refer to itself or forward: a distance is at least one
    let p = Program::from_nodes(vec![Node::Unit, Node::InjL(1)], vec![]);
    assert!(matches!(p, Err(Error::BadIndex)));
    let p = Program::from_nodes(vec![Node::Unit, Node::Comp(0, 2), Node::Iden], vec![]);
    assert!(matches!(p, Err(Error::BadIndex)));
    assert!(matches!(infer(&vec![Node::Take(0)]), Err(Error::BadIndex)));
}

#[test]
fn equal_subtrees_at_two_indices_are_refused() {
    // unit, unit
    assert!(matches!(decode_err("100 01001 01001 0"), Error::SharingNotMaximal));
    // unit, injl(unit), injl(unit), pair
    let bits = format!("{} 01001 00100 0 00100 100 00010 100 0 0", natural_bits(4));
    assert!(matches!(decode_err(&bits), Error::SharingNotMaximal));
    // a pruned branch with the commitment of an earlier node
    let mut bits = String::from("101 01001 0110");
    for b in bits_of_bytes(&sha256(&[1])) {
        bits.push(if b { '1' } else { '0' });
    }
    bits.push_str(" 00001 100 0 0");
    assert!(matches!(decode_err(&bits), Error::SharingNotMaximal));
}

#[test]
fn order_of_the_nodes_must_be_canonical() {
    // unit, iden, comp(unit, iden)
    let p = Program::decode(&bytes_of("101 01001 01000 00000 100 0 0")).unwrap();
    assert_eq!(p.nodes, vec![Node::Unit, Node::Iden, Node::Comp(0, 1)]);
    // iden, unit, comp(unit, iden): the first child was written second
    assert!(matches!(decode_err("101 01000 01001 00000 0 100 0"), Error::NotInCanonicalOrder));
    // unit, iden: the first node is not part of the program
    assert!(matches!(decode_err("100 01001 01000 0"), Error::NotInCanonicalOrder));
    assert!(is_canonical_order(&xor_program()));
    assert!(!is_canonical_order(&vec![]));
    assert!(!is_canonical_order(&vec![Node::Iden, Node::Unit, Node::Comp(1, 0)]));
}

#[test]
fn decode_failures() {
    assert!(matches!(decode_err(""), Error::EndOfStream));
    // two nodes are announced, the bytes end behind the first
    assert!(matches!(decode_err("100 01001"), Error::EndOfStream));
    // the bytes end within the number of nodes
    assert!(matches!(decode_err("11111111"), Error::EndOfStream));
    // the bytes end behind the node, where the witness should begin
    assert!(matches!(decode_err("0 1 110000"), Error::EndOfStream));
    match decode_err("0 01010 0") {
        Error::ParseError(s) => assert_eq!(s, "01010"),
        e => panic!("{:?}", e),
    }
    match decode_err("0 01011 0") {
        Error::ParseError(s) => assert_eq!(s, "01011"),
        e => panic!("{:?}", e),
    }
    match decode_err(&natural_bits(MAX_NODES as u32 + 1)) {
        Error::TooManyNodes(n) => assert_eq!(n, MAX_NODES + 1),
        e => panic!("{:?}", e),
    }
    // a pruned branch that is cut short
    assert!(matches!(decode_err("100 0110 1111 0000"), Error::EndOfStream));
    // a witness that is shorter than announced
    assert!(matches!(decode_err("0 0111 1 11100000000 101"), Error::EndOfStream));
}

#[test]
fn pruned_branches_hang_below_case_only() {
    let h = [7u8; 32];
    let p = Program::from_nodes(vec![Node::Hidden(h), Node::InjL(0)], vec![]);
    assert!(matches!(p, Err(Error::NonCaseHiddenChild)));
    let p = Program::from_nodes(vec![Node::Hidden(h), Node::Unit, Node::Pair(0, 1)], vec![]);
    assert!(matches!(p, Err(Error::NonCaseHiddenChild)));
    let p = Program::from_nodes(
        vec![Node::Hidden(h), Node::Hidden([8u8; 32]), Node::Case(0, 1)],
        vec![],
    );
    assert!(matches!(p, Err(Error::CaseMultipleHiddenChildren)));
    let mut bits = String::from("100 0110");
    for _ in 0..32 {
        bits.push_str("00000111");
    }
    bits.push_str(" 00100 0 0");
    assert!(matches!(decode_err(&bits), Error::NonCaseHiddenChild));
}

#[test]
fn an_empty_program_is_refused() {
    assert!(matches!(Program::from_nodes(vec![], vec![]), Err(Error::EmptyProgram)));
    assert!(matches!(infer(&vec![]), Err(Error::EmptyProgram)));
    assert!(matches!(encode_program(&vec![], &vec![]), Err(Error::EmptyProgram)));
}

#[test]
fn a_type_that_contains_itself_fails_the_occurs_check() {
    // the shared iden forces its type A to equal A x A
    let nodes = vec![Node::Iden, Node::Pair(0, 0), Node::Comp(1, 0)];
    assert!(matches!(infer(&nodes), Err(Error::OccursCheck)));
    let bytes = encode_program(&nodes, &vec![]).unwrap();
    assert!(matches!(Program::decode(&bytes), Err(Error::OccursCheck)));
}

#[test]
fn types_of_different_shapes_do_not_unify() {
    // unit returns the unit type, the jet wants a bit
    let nodes = vec![Node::Unit, Node::Jet(JET_NOT), Node::Comp(0, 1)];
    assert!(matches!(infer(&nodes), Err(Error::TypeCheck)));
    // a sum is no product
    let nodes = vec![Node::Unit, Node::InjL(0), Node::Take(0), Node::Comp(1, 2)];
    assert!(matches!(infer(&nodes), Err(Error::TypeCheck)));
}

#[test]
fn an_unknown_jet_is_refused() {
    match infer(&vec![Node::Jet(99)]) {
        Err(Error::ParseError(s)) => assert_eq!(s, "jet"),
        other => panic!("{:?}", other.map(|_| ())),
    }
}

#[test]
fn unconstrained_types_are_unit() {
    let t = infer(&vec![Node::Witness]).unwrap();
    assert_eq!(t.arena.nodes[t.source[0]], TypeNode::Unit);
    assert_eq!(t.arena.nodes[t.target[0]], TypeNode::Unit);
}

#[test]
fn inferred_types_of_a_pair() {
    let nodes = vec![Node::Jet(JET_NOT), Node::Pair(0, 0)];
    let t = infer(&nodes).unwrap();
    let bit = t.source[0];
    assert_eq!(t.target[0], bit);
    assert_eq!(t.source[1], bit);
    assert_eq!(t.arena.nodes[t.target[1]], TypeNode::Product(bit, bit));
    assert_eq!(t.arena.widths[bit], 1);
    assert_eq!(t.arena.widths[t.target[1]], 2);
    match t.arena.nodes[bit] {
        TypeNode::Sum(a, b) => {
            assert_eq!(a, b);
            assert_eq!(t.arena.nodes[a], TypeNode::Unit);
        }
        other => panic!("{:?}", other),
    }
}

#[test]
fn widths_of_types() {
    let bit = || Type::Sum(Box::new(Type::Unit), Box::new(Type::Unit));
    assert_eq!(Type::Unit.width().unwrap(), 0);
    assert_eq!(bit().width().unwrap(), 1);
    assert_eq!(Type::Product(Box::new(bit()), Box::new(bit())).width().unwrap(), 2);
    let wide = Type::Sum(
        Box::new(Type::Product(Box::new(bit()), Box::new(bit()))),
        Box::new(Type::Unit),
    );
    assert_eq!(wide.width().unwrap(), 3);
    assert_eq!(
        Type::Product(Box::new(wide), Box::new(bit())).width().unwrap(),
        4
    );
}

#[test]
fn a_width_that_does_not_fit_32_bits_is_refused() {
    let mut arena = TypeArena::new();
    let unit = arena.intern(TypeNode::Unit).unwrap();
    let mut t = arena.intern(TypeNode::Sum(unit, unit)).unwrap();
    for _ in 0..31 {
        t = arena.intern(TypeNode::Product(t, t)).unwrap();
    }
    assert_eq!(arena.widths[t], 1 << 31);
    let before = arena.nodes.len();
    assert!(matches!(arena.intern(TypeNode::Product(t, t)), Err(Error::NaturalOverflow)));
    assert_eq!(arena.nodes.len(), before);
    // the same type is stored once
    assert_eq!(arena.intern(TypeNode::Sum(unit, unit)).unwrap(), 1);
    assert_eq!(arena.nodes.len(), before);
}

#[test]
fn the_witness_must_have_the_bits_that_are_taken() {
    let witness = vec![true, false, true, true, false, false, false, true];
    let p = Program::from_nodes(xor_program(), witness.clone()).unwrap();
    assert_eq!(p.exec(&vec![]).unwrap(), vec![true, false, false, true]);
    let seven = witness[..7].to_vec();
    assert!(matches!(
        Program::from_nodes(xor_program(), seven.clone()),
        Err(Error::InconsistentWitnessLength)
    ));
    let mut nine = witness.clone();
    nine.push(false);
    assert!(matches!(
        Program::from_nodes(xor_program(), nine.clone()),
        Err(Error::InconsistentWitnessLength)
    ));
    for w in [seven, nine] {
        let bytes = encode_program(&xor_program(), &w).unwrap();
        assert!(matches!(Program::decode(&bytes), Err(Error::InconsistentWitnessLength)));
    }
    let bytes = encode_program(&xor_program(), &witness).unwrap();
    assert_eq!(Program::decode(&bytes).unwrap().witness, witness);
}

#[test]
fn what_is_written_is_read_back() {
    let witness = vec![false, true, true, false, true, false, false, true];
    let bytes = encode_program(&xor_program(), &witness).unwrap();
    let u = decode_untyped(&bytes).unwrap();
    assert_eq!(u.nodes, xor_program());
    assert_eq!(u.witness, witness);
    let p = Program::decode(&bytes).unwrap();
    assert_eq!(p.nodes, xor_program());
    let q = Program::from_nodes(xor_program(), witness).unwrap();
    assert_eq!(p.commitments, q.commitments);
    assert_eq!(p.typing.arena.nodes, q.typing.arena.nodes);
    assert_eq!(p.typing.source, q.typing.source);
    assert_eq!(p.typing.target, q.typing.target);
    assert_eq!(p.encode().unwrap(), bytes);
}

#[test]
fn equal_programs_have_equal_bytes() {
    let w = vec![true; 8];
    let a = Program::from_nodes(xor_program(), w.clone()).unwrap();
    let b = Program::decode(&a.encode().unwrap()).unwrap();
    assert_eq!(a.encode().unwrap(), b.encode().unwrap());
    assert_eq!(a.identity(), b.identity());
}

#[test]
fn running_twice_gives_the_same() {
    let p = Program::from_nodes(xor_program(), vec![true, true, false, true, false, false, true, false])
        .unwrap();
    let first = p.exec(&vec![]);
    let second = p.exec(&vec![]);
    assert_eq!(first, second);
    assert_eq!(first.unwrap(), vec![false, true, false, true]);
}

#[test]
fn a_pruned_branch_is_never_run() {
    let nodes = vec![Node::Hidden([9u8; 32]), Node::Unit, Node::Case(0, 1)];
    let p = Program::from_nodes(nodes.clone(), vec![]).unwrap();
    // source: (1 + 1) x 1, one bit wide
    assert_eq!(p.typing.arena.widths[p.typing.source[2]], 1);
    assert_eq!(p.exec(&vec![true]).unwrap(), Vec::<bool>::new());
    assert!(matches!(p.exec(&vec![false]), Err(Failure::HiddenBranch)));
    let bytes = p.encode().unwrap();
    let q = Program::decode(&bytes).unwrap();
    assert_eq!(q.nodes, nodes);
    assert_eq!(q.exec(&vec![true]).unwrap(), Vec::<bool>::new());
    // the commitment of the case covers that of the pruned branch
    let mut data = vec![7u8];
    data.extend_from_slice(&[9u8; 32]);
    data.extend_from_slice(&sha256(&[1]));
    assert_eq!(p.identity(), sha256(&data));
}

#[test]
fn case_selects_by_the_tag_and_skips_the_padding() {
    // left: take(xor) on (2 x 2) x C, right: take(not) on 2 x C
    let nodes = vec![
        Node::Jet(JET_XOR),
        Node::Take(0),
        Node::Jet(JET_NOT),
        Node::Take(2),
        Node::Case(1, 3),
    ];
    let p = Program::from_nodes(nodes, vec![]).unwrap();
    // the sum of 2 x 2 and 2 takes a tag and two bits
    assert_eq!(p.typing.arena.widths[p.typing.source[4]], 3);
    assert_eq!(p.exec(&vec![false, true, false]).unwrap(), vec![true]);
    assert_eq!(p.exec(&vec![false, true, true]).unwrap(), vec![false]);
    // the right side stands behind a bit of padding
    assert_eq!(p.exec(&vec![true, false, true]).unwrap(), vec![false]);
    assert_eq!(p.exec(&vec![true, true, false]).unwrap(), vec![true]);
}

#[test]
fn injections_write_tag_padding_and_value() {
    // injl(not) and injr(xor) into the sum 2 + (2 x 2) ... of the case below
    let nodes = vec![Node::Jet(JET_NOT), Node::InjL(0)];
    let p = Program::from_nodes(nodes, vec![]).unwrap();
    // target: 2 + 1
    assert_eq!(p.exec(&vec![true]).unwrap(), vec![false, false]);
    let nodes = vec![Node::Jet(JET_NOT), Node::InjR(0)];
    let p = Program::from_nodes(nodes, vec![]).unwrap();
    assert_eq!(p.exec(&vec![false]).unwrap(), vec![true, true]);
    // a bit from the witness into the right of (2 x 2) + 2: the case reads
    // it behind the tag and one bit of padding
    let nodes = vec![
        Node::Witness,
        Node::InjR(0),
        Node::Unit,
        Node::Pair(1, 2),
        Node::Jet(JET_XOR),
        Node::Take(4),
        Node::Jet(JET_NOT),
        Node::Take(6),
        Node::Case(5, 7),
        Node::Comp(3, 8),
    ];
    assert!(is_canonical_order(&nodes));
    let p = Program::from_nodes(nodes.clone(), vec![true]).unwrap();
    assert_eq!(p.typing.arena.widths[p.typing.target[1]], 3);
    assert_eq!(p.typing.arena.widths[p.typing.target[3]], 3);
    assert_eq!(p.exec(&vec![]).unwrap(), vec![false]);
    let p = Program::from_nodes(nodes, vec![false]).unwrap();
    assert_eq!(p.exec(&vec![]).unwrap(), vec![true]);
}

#[test]
fn composition_take_and_drop() {
    // pair(drop(not), take(not)) swaps and inverts two bits
    let nodes = vec![Node::Jet(JET_NOT), Node::Drop(0), Node::Take(0), Node::Pair(1, 2)];
    let p = Program::from_nodes(nodes, vec![]).unwrap();
    assert_eq!(p.exec(&vec![true, false]).unwrap(), vec![true, false]);
    assert_eq!(p.exec(&vec![true, true]).unwrap(), vec![false, false]);
    assert_eq!(p.exec(&vec![false, true]).unwrap(), vec![false, true]);
    // not after not
    let p = Program::from_nodes(vec![Node::Jet(JET_NOT), Node::Comp(0, 0)], vec![]).unwrap();
    assert_eq!(p.exec(&vec![true]).unwrap(), vec![true]);
    assert_eq!(p.exec(&vec![false]).unwrap(), vec![false]);
}

#[test]
fn a_jet_that_refuses_its_input_fails_the_run() {
    let p = Program::from_nodes(vec![Node::Jet(JET_VERIFY)], vec![]).unwrap();
    assert_eq!(p.exec(&vec![true]).unwrap(), Vec::<bool>::new());
    assert!(matches!(p.exec(&vec![false]), Err(Failure::Jet)));
    assert!(matches!(p.exec(&vec![]), Err(Failure::InputWidth)));
}

#[test]
fn disconnect_hands_over_the_commitment() {
    // iden keeps the 256 bits; unit is the program whose commitment they are
    let nodes = vec![Node::Iden, Node::Unit, Node::Disconnect(0, 1)];
    let p = Program::from_nodes(nodes, vec![]).unwrap();
    assert_eq!(p.typing.arena.widths[p.typing.target[2]], 256);
    assert_eq!(p.exec(&vec![]).unwrap(), bits_of_bytes(&sha256(&[1])));
}

#[test]
fn commitments_hash_tag_and_children() {
    let unit = commit(&vec![], &Node::Unit);
    assert_eq!(unit, sha256(&[1]));
    let iden = commit(&vec![unit], &Node::Iden);
    assert_eq!(iden, sha256(&[0]));
    let mut data = vec![6u8];
    data.extend_from_slice(&unit);
    data.extend_from_slice(&iden);
    assert_eq!(commit(&vec![unit, iden], &Node::Comp(0, 1)), sha256(&data));
    let mut data = vec![2u8];
    data.extend_from_slice(&iden);
    assert_eq!(commit(&vec![unit, iden], &Node::InjL(1)), sha256(&data));
    assert_eq!(commit(&vec![], &Node::Hidden([3u8; 32])), [3u8; 32]);
    assert_eq!(commit(&vec![], &Node::Witness), sha256(&[10]));
    // the number of a jet is hashed most significant byte first
    assert_eq!(commit(&vec![], &Node::Jet(0x0102_0304)), sha256(&[12, 1, 2, 3, 4]));
}

#[test]
fn encoder_refuses_what_cannot_be_written() {
    assert!(matches!(encode_program(&vec![Node::InjL(0)], &vec![]), Err(Error::BadIndex)));
    assert!(matches!(encode_program(&vec![Node::Jet(0)], &vec![]), Err(Error::BadIndex)));
    match encode_program(&vec![Node::Unit; MAX_NODES + 1], &vec![]) {
        Err(Error::TooManyNodes(n)) => assert_eq!(n, MAX_NODES + 1),
        other => panic!("{:?}", other),
    }
    assert_eq!(encode_program(&vec![Node::Iden], &vec![]).unwrap(), vec![0x20]);
}

#[test]
fn unification_links_and_clashes() {
    let mut u = Unifier::new();
    let a = u.fresh(Binding::Free);
    let b = u.fresh(Binding::Free);
    let unit = u.fresh(Binding::Unit);
    let sum = u.fresh(Binding::Sum(a, unit));
    let product = u.fresh(Binding::Product(a, b));
    assert_eq!(u.find(b), b);
    assert!(u.unify(a, b).is_ok());
    assert_eq!(u.find(b), a);
    assert_eq!(u.find(a), a);
    // a free variable takes the binding of the other
    let c = u.fresh(Binding::Free);
    assert!(u.unify(c, sum).is_ok());
    assert_eq!(u.find(sum), sum.min(c));
    // a sum is no product, and neither is unit
    assert!(matches!(u.unify(sum, product), Err(Error::TypeCheck)));
    assert!(matches!(u.unify(unit, product), Err(Error::TypeCheck)));
    // two sums are unified part by part
    let d = u.fresh(Binding::Free);
    let other = u.fresh(Binding::Sum(d, d));
    assert!(u.unify(sum, other).is_ok());
    assert_eq!(u.find(d), u.find(a));
    assert_eq!(u.find(d), u.find(unit));
    assert_eq!(u.vars.len(), 8);
}

#[test]
fn inference_gives_the_narrowest_types() {
    // nothing constrains the other side of the sum
    let t = infer(&vec![Node::Jet(JET_NOT), Node::InjL(0)]).unwrap();
    assert_eq!(t.arena.widths[t.target[1]], 2);
    match t.arena.nodes[t.target[1]] {
        TypeNode::Sum(l, r) => {
            assert_eq!(l, t.target[0]);
            assert_eq!(t.arena.nodes[r], TypeNode::Unit);
        }
        other => panic!("{:?}", other),
    }
    // a pruned branch leaves its side of the sum unconstrained
    let t = infer(&vec![Node::Hidden([1u8; 32]), Node::Jet(JET_XOR), Node::Take(1), Node::Case(0, 2)])
        .unwrap();
    // source: (1 + (2 x 2)) x 1
    assert_eq!(t.arena.widths[t.source[3]], 3);
    assert_eq!(t.arena.widths[t.target[3]], 1);
}

#[test]
fn a_type_wider_than_32_bits_is_refused() {
    // each pair doubles the width of the target type
    let mut nodes = vec![Node::Jet(JET_NOT)];
    for k in 0..31 {
        nodes.push(Node::Pair(k, k));
    }
    let t = infer(&nodes).unwrap();
    assert_eq!(t.arena.widths[t.target[31]], 1 << 31);
    nodes.push(Node::Pair(31, 31));
    assert!(matches!(infer(&nodes), Err(Error::NaturalOverflow)));
}

#[test]
fn disconnect_is_typed_with_a_word_of_256_bits() {
    let nodes = vec![Node::Iden, Node::Unit, Node::Disconnect(0, 1)];
    let t = infer(&nodes).unwrap();
    // iden: 2^256 x 1 -> 2^256 x 1
    assert_eq!(t.arena.widths[t.source[0]], 256);
    assert_eq!(t.source[0], t.target[0]);
    assert_eq!(t.arena.widths[t.source[2]], 0);
    // the first child must take the 256 bits
    let nodes = vec![Node::Jet(JET_NOT), Node::Unit, Node::Disconnect(0, 1)];
    assert!(matches!(infer(&nodes), Err(Error::TypeCheck)));
}
