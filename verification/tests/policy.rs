use simplicity::error::Error;
use simplicity::policy::ast::Policy;
use simplicity::policy::syntax::{Expression, SyntaxError};
use simplicity::text::{decimal_string, hex_string};

fn key(s: &str) -> Result<String, String> {
    if s.is_empty() {
        Err("empty key".to_string())
    } else {
        Ok(s.to_string())
    }
}

fn pk(s: &str) -> Policy<String> {
    Policy::Key(s.to_string())
}

fn parse(s: &str) -> Result<Policy<String>, SyntaxError> {
    Policy::from_str(s, key)
}

fn text(p: &Policy<String>) -> String {
    p.to_text(|k: &String| k.clone())
}

fn leaf(name: &str) -> Expression {
    Expression { name: name.to_string(), args: vec![] }
}

fn node(name: &str, args: Vec<Expression>) -> Expression {
    Expression { name: name.to_string(), args }
}

const IMAGE: &str = "000102030405060708090a0b0c0d0e0f101112131415161718191a1b1c1d1e1f";

fn image() -> [u8; 32] {
    let mut h = [0u8; 32];
    for (i, b) in h.iter_mut().enumerate() {
        *b = i as u8;
    }
    h
}

#[test]
fn parse_constants() {
    assert_eq!(parse("UNSATISFIABLE").unwrap(), Policy::Unsatisfiable);
    assert_eq!(parse("TRIVIAL").unwrap(), Policy::Trivial);
    assert_eq!(parse("UNSATISFIABLE()").unwrap_err().message(), "unexpected «UNSATISFIABLE»");
}

#[test]
fn parse_key_and_timelocks() {
    assert_eq!(parse("pk(alice)").unwrap(), pk("alice"));
    assert_eq!(parse("after(12)").unwrap(), Policy::After(12));
    assert_eq!(parse("older(4294967295)").unwrap(), Policy::Older(u32::MAX));
    assert_eq!(parse("after(0)").unwrap(), Policy::After(0));
}

#[test]
fn parse_number_failures() {
    match parse("after(4294967296)") {
        Err(SyntaxError::Unexpected(t)) => assert_eq!(t, "unexpected «4294967296»"),
        other => panic!("{:?}", other),
    }
    match parse("older(012)") {
        Err(SyntaxError::Unexpected(t)) => {
            assert_eq!(t, "unexpected «Number must start with a digit 1-9»")
        }
        other => panic!("{:?}", other),
    }
    match parse("older(+1)") {
        Err(SyntaxError::Unexpected(t)) => {
            assert_eq!(t, "unexpected «Number must start with a digit 1-9»")
        }
        other => panic!("{:?}", other),
    }
    match parse("older(x)") {
        Err(SyntaxError::Unexpected(t)) => assert_eq!(t, "unexpected «x»"),
        other => panic!("{:?}", other),
    }
    match parse("older(1(2))") {
        Err(SyntaxError::Unexpected(t)) => assert_eq!(t, "1"),
        other => panic!("{:?}", other),
    }
}

#[test]
fn parse_hash_image() {
    let s = format!("sha256({})", IMAGE);
    assert_eq!(parse(&s).unwrap(), Policy::Sha256(image()));
    let upper = format!("sha256({})", IMAGE.to_uppercase());
    assert_eq!(parse(&upper).unwrap(), Policy::Sha256(image()));
}

#[test]
fn parse_hash_image_failures() {
    match parse("sha256(abc)") {
        Err(SyntaxError::Unexpected(t)) => assert_eq!(t, "odd hex string length 3"),
        other => panic!("{:?}", other),
    }
    match parse("sha256(abcd)") {
        Err(SyntaxError::Unexpected(t)) => {
            assert_eq!(t, "bad hex string length 4 (expected 64)")
        }
        other => panic!("{:?}", other),
    }
    let bad = format!("sha256({}g{})", &IMAGE[..10], &IMAGE[11..]);
    match parse(&bad) {
        Err(SyntaxError::Unexpected(t)) => assert_eq!(t, "invalid hex character 103"),
        other => panic!("{:?}", other),
    }
}

#[test]
fn parse_and_or() {
    assert_eq!(
        parse("and(pk(a),older(9))").unwrap(),
        Policy::And(vec![pk("a"), Policy::Older(9)])
    );
    assert_eq!(
        parse("or(pk(a),and(pk(b),pk(c)))").unwrap(),
        Policy::Or(vec![pk("a"), Policy::And(vec![pk("b"), pk("c")])])
    );
    assert!(matches!(parse("and(pk(a))"), Err(SyntaxError::NonBinaryArgAnd)));
    assert!(matches!(parse("and(pk(a),pk(b),pk(c))"), Err(SyntaxError::NonBinaryArgAnd)));
    assert!(matches!(parse("or(pk(a))"), Err(SyntaxError::NonBinaryArgOr)));
    assert!(matches!(parse("and"), Err(SyntaxError::NonBinaryArgAnd)));
}

#[test]
fn parse_first_failure_wins() {
    match parse("and(foo(a),after(x))") {
        Err(SyntaxError::Unexpected(t)) => assert_eq!(t, "foo"),
        other => panic!("{:?}", other),
    }
    match parse("and(pk(a),after(x))") {
        Err(SyntaxError::Unexpected(t)) => assert_eq!(t, "unexpected «x»"),
        other => panic!("{:?}", other),
    }
}

#[test]
fn parse_key_failure_is_reported_as_unexpected() {
    match parse("pk()") {
        Err(SyntaxError::Unexpected(t)) => assert_eq!(t, "empty key"),
        other => panic!("{:?}", other),
    }
}

#[test]
fn parse_threshold() {
    assert_eq!(
        parse("thresh(2,pk(a),pk(b),pk(c))").unwrap(),
        Policy::Threshold(2, vec![pk("a"), pk("b"), pk("c")])
    );
    assert_eq!(parse("thresh(0)").unwrap(), Policy::Threshold(0, vec![]));
    match parse("thresh") {
        Err(SyntaxError::Unexpected(t)) => assert_eq!(t, "thresh without args"),
        other => panic!("{:?}", other),
    }
    match parse("thresh(3,pk(a),pk(b))") {
        Err(SyntaxError::Unexpected(t)) => assert_eq!(t, "3"),
        other => panic!("{:?}", other),
    }
    match parse("thresh(k(1),pk(a))") {
        Err(SyntaxError::Unexpected(t)) => assert_eq!(t, "1"),
        other => panic!("{:?}", other),
    }
    match parse("thresh(x,pk(a))") {
        Err(SyntaxError::Unexpected(t)) => assert_eq!(t, "x"),
        other => panic!("{:?}", other),
    }
}

#[test]
fn parse_unknown_fragment() {
    match parse("multi(1,a)") {
        Err(SyntaxError::Unexpected(t)) => assert_eq!(t, "multi"),
        other => panic!("{:?}", other),
    }
}

#[test]
fn parse_unprintable() {
    assert!(matches!(parse("pk(a\u{7}b)"), Err(SyntaxError::Unprintable(7))));
    assert!(matches!(parse("pk(\u{e9})"), Err(SyntaxError::Unprintable(0xc3))));
    // bytes from 20 up pass the first test, whatever they are
    assert_eq!(parse("pk(a\u{1f}b)").unwrap(), pk("a\u{1f}b"));
}

#[test]
fn parse_unbalanced() {
    assert!(matches!(parse("and(pk(a),pk(b)"), Err(SyntaxError::ExpectedChar(')'))));
    match parse("pk(a))") {
        Err(SyntaxError::Unexpected(t)) => assert_eq!(t, ")"),
        other => panic!("{:?}", other),
    }
}

#[test]
fn from_tree_reads_a_hand_made_tree() {
    let t = node("and", vec![node("pk", vec![leaf("k")]), node("after", vec![leaf("7")])]);
    let p: Policy<String> = Policy::from_tree(&t, &key).unwrap();
    assert_eq!(p, Policy::And(vec![pk("k"), Policy::After(7)]));
    let t = node("pk", vec![node("k", vec![leaf("x")])]);
    match Policy::<String>::from_tree(&t, &key) {
        Err(SyntaxError::Unexpected(s)) => assert_eq!(s, "k"),
        other => panic!("{:?}", other),
    }
}

#[test]
fn text_of_each_fragment() {
    assert_eq!(text(&Policy::Unsatisfiable), "UNSATISFIABLE");
    assert_eq!(text(&Policy::Trivial), "TRIVIAL");
    assert_eq!(text(&pk("alice")), "pk(alice)");
    assert_eq!(text(&Policy::After(0)), "after(0)");
    assert_eq!(text(&Policy::Older(4294967295)), "older(4294967295)");
    assert_eq!(text(&Policy::Sha256(image())), format!("sha256({})", IMAGE));
    assert_eq!(text(&Policy::And(vec![])), "and()");
    assert_eq!(text(&Policy::Or(vec![pk("a")])), "or(pk(a))");
    assert_eq!(
        text(&Policy::And(vec![pk("a"), Policy::Or(vec![pk("b"), Policy::Trivial])])),
        "and(pk(a),or(pk(b),TRIVIAL))"
    );
    assert_eq!(text(&Policy::Threshold(0, vec![])), "thresh(0)");
    assert_eq!(
        text(&Policy::Threshold(2, vec![pk("a"), pk("b"), Policy::After(5)])),
        "thresh(2,pk(a),pk(b),after(5))"
    );
}

#[test]
fn debug_text_marks_the_constants() {
    let dbg = |p: &Policy<String>| p.to_debug_text(|k: &String| format!("{:?}", k));
    assert_eq!(dbg(&Policy::Unsatisfiable), "UNSATISFIABLE()");
    assert_eq!(dbg(&Policy::Trivial), "TRIVIAL()");
    assert_eq!(dbg(&pk("a")), "pk(\"a\")");
    assert_eq!(
        dbg(&Policy::Threshold(1, vec![Policy::Trivial, Policy::Older(3)])),
        "thresh(1,TRIVIAL(),older(3))"
    );
    assert_eq!(dbg(&Policy::Or(vec![Policy::Unsatisfiable, pk("b")])), "or(UNSATISFIABLE(),pk(\"b\"))");
}

#[test]
fn text_is_read_back() {
    for s in [
        "and(pk(a),or(pk(b),older(12)))",
        "thresh(2,pk(a),pk(b),after(5))",
        "or(TRIVIAL,UNSATISFIABLE)",
    ] {
        assert_eq!(text(&parse(s).unwrap()), s);
    }
}

#[test]
fn normalized_flattens_conjunctions() {
    let p = Policy::And(vec![
        pk("a"),
        Policy::Trivial,
        Policy::And(vec![pk("b"), Policy::And(vec![pk("c"), Policy::Trivial])]),
    ]);
    assert_eq!(p.normalized(), Policy::And(vec![pk("a"), pk("b"), pk("c")]));
}

#[test]
fn normalized_conjunction_edge_cases() {
    assert_eq!(Policy::<String>::And(vec![]).normalized(), Policy::Trivial);
    assert_eq!(Policy::And(vec![Policy::Trivial, pk("a")]).normalized(), pk("a"));
    assert_eq!(
        Policy::And(vec![pk("a"), Policy::Unsatisfiable, pk("b")]).normalized(),
        Policy::Unsatisfiable
    );
    assert_eq!(
        Policy::And(vec![pk("a"), Policy::And(vec![Policy::Unsatisfiable])]).normalized(),
        Policy::Unsatisfiable
    );
}

#[test]
fn normalized_disjunctions_are_one_level_deep() {
    let p = Policy::Or(vec![
        pk("a"),
        Policy::Unsatisfiable,
        Policy::Or(vec![pk("b"), Policy::Or(vec![pk("c"), Policy::Unsatisfiable])]),
    ]);
    assert_eq!(
        p.normalized(),
        Policy::Or(vec![pk("a"), pk("b"), Policy::Or(vec![pk("c"), Policy::Unsatisfiable])])
    );
    assert_eq!(Policy::Or(vec![pk("a"), Policy::Trivial]).normalized(), Policy::Trivial);
    assert_eq!(Policy::<String>::Or(vec![]).normalized(), Policy::Trivial);
    assert_eq!(Policy::Or(vec![Policy::Unsatisfiable, pk("z")]).normalized(), pk("z"));
    // a conjunction inside a disjunction is left as it is
    assert_eq!(
        Policy::Or(vec![pk("a"), Policy::And(vec![Policy::Trivial])]).normalized(),
        Policy::Or(vec![pk("a"), Policy::And(vec![Policy::Trivial])])
    );
}

#[test]
fn normalized_leaves_the_rest() {
    assert_eq!(pk("a").normalized(), pk("a"));
    assert_eq!(
        Policy::Threshold(1, vec![Policy::And(vec![pk("a")]), Policy::Trivial]).normalized(),
        Policy::Threshold(1, vec![Policy::And(vec![pk("a")]), Policy::Trivial])
    );
}

#[test]
fn translate_replaces_each_key() {
    let p = Policy::And(vec![
        pk("a"),
        Policy::Threshold(1, vec![pk("bb"), Policy::Older(4)]),
        Policy::Sha256(image()),
    ]);
    let q: Result<Policy<usize>, ()> = p.translate(|k: &String| Ok(k.len()));
    assert_eq!(
        q.unwrap(),
        Policy::And(vec![
            Policy::Key(1),
            Policy::Threshold(1, vec![Policy::Key(2), Policy::Older(4)]),
            Policy::Sha256(image()),
        ])
    );
}

#[test]
fn translate_stops_at_the_first_failure() {
    let p = Policy::Or(vec![pk("a"), Policy::And(vec![pk("bad1"), pk("b")]), pk("bad2")]);
    let q: Result<Policy<String>, String> = p.translate(|k: &String| {
        if k.starts_with("bad") {
            Err(k.clone())
        } else {
            Ok(k.to_uppercase())
        }
    });
    assert_eq!(q.unwrap_err(), "bad1");
}

#[test]
fn sorted_orders_every_level() {
    let p = Policy::And(vec![
        Policy::Or(vec![pk("z"), pk("a"), Policy::Trivial]),
        Policy::Older(3),
        pk("m"),
        Policy::After(9),
        Policy::Unsatisfiable,
    ]);
    assert_eq!(
        p.sorted(),
        Policy::And(vec![
            Policy::Unsatisfiable,
            pk("m"),
            Policy::After(9),
            Policy::Older(3),
            Policy::Or(vec![Policy::Trivial, pk("a"), pk("z")]),
        ])
    );
}

fn samples() -> Vec<Policy<String>> {
    let mut other = image();
    other[31] = 0;
    vec![
        Policy::Threshold(2, vec![pk("a")]),
        Policy::Threshold(1, vec![pk("b"), pk("a")]),
        Policy::Threshold(1, vec![pk("b")]),
        Policy::Or(vec![pk("b"), pk("a")]),
        Policy::Or(vec![]),
        Policy::And(vec![pk("b"), pk("a"), pk("c")]),
        Policy::And(vec![pk("b")]),
        Policy::Sha256(image()),
        Policy::Sha256(other),
        Policy::Older(7),
        Policy::Older(2),
        Policy::After(7),
        Policy::After(8),
        pk("b"),
        pk("ab"),
        pk("a"),
        Policy::Trivial,
        Policy::Unsatisfiable,
        Policy::Older(7),
    ]
}

#[test]
fn sorted_agrees_with_the_derived_order() {
    let mut expected: Vec<Policy<String>> = samples().into_iter().map(Policy::sorted).collect();
    expected.sort();
    assert_eq!(Policy::Threshold(3, samples()).sorted(), Policy::Threshold(3, expected));
}

#[test]
fn compare_agrees_with_the_derived_order() {
    let a = samples();
    let b = samples();
    for x in &a {
        for y in &b {
            let expected = match x.cmp(y) {
                std::cmp::Ordering::Less => -1,
                std::cmp::Ordering::Equal => 0,
                std::cmp::Ordering::Greater => 1,
            };
            assert_eq!(x.compare(y), expected, "{:?} {:?}", x, y);
        }
    }
}

#[test]
fn sorted_keeps_leaves() {
    assert_eq!(pk("a").sorted(), pk("a"));
    assert_eq!(Policy::<String>::After(3).sorted(), Policy::After(3));
}

#[test]
fn error_messages() {
    assert_eq!(Error::TypeCheck.message(), "Unable to unify types in a DAG");
    assert_eq!(
        Error::OccursCheck.message(),
        "A recursive type was inferred, violating the of the type inference engine"
    );
    assert_eq!(
        Error::BadIndex.message(),
        "Node made a back-reference past the beginning of the program"
    );
    assert_eq!(Error::NaturalOverflow.message(), "Number exceeded 32 bits");
    assert_eq!(
        Error::NonCaseHiddenChild.message(),
        "Non-'case' nodes may not have hidden children"
    );
    assert_eq!(
        Error::CaseMultipleHiddenChildren.message(),
        "'case' nodes may have at most one hidden child"
    );
    assert_eq!(Error::EndOfStream.message(), "Bitstream ended early");
    assert_eq!(Error::EmptyProgram.message(), "Program must not be empty");
    assert_eq!(
        Error::TooManyNodes(1000001).message(),
        "Tried to allocate too many nodes in a program: 1000001"
    );
    assert_eq!(Error::ParseError("01011").message(), "Unrecognized node 01011");
    assert_eq!(Error::NotInCanonicalOrder.message(), "Program is not in canonical order");
    assert_eq!(
        Error::InconsistentWitnessLength.message(),
        "Witness has different length than defined in its preamble"
    );
    assert_eq!(
        Error::SharingNotMaximal.message(),
        "Decoded programs must have maximal sharing"
    );
}

#[test]
fn upstream_error_messages_are_those_of_miniscript() {
    let pairs: Vec<(SyntaxError, miniscript::Error)> = vec![
        (SyntaxError::Unprintable(7), miniscript::Error::Unprintable(7)),
        (SyntaxError::Unprintable(0xc3), miniscript::Error::Unprintable(0xc3)),
        (SyntaxError::ExpectedChar(')'), miniscript::Error::ExpectedChar(')')),
        (
            SyntaxError::Unexpected("foo".to_string()),
            miniscript::Error::Unexpected("foo".to_string()),
        ),
        (
            SyntaxError::MaxRecursiveDepthExceeded,
            miniscript::Error::MaxRecursiveDepthExceeded,
        ),
        (
            SyntaxError::NonBinaryArgAnd,
            miniscript::Error::PolicyError(miniscript::policy::concrete::PolicyError::NonBinaryArgAnd),
        ),
        (
            SyntaxError::NonBinaryArgOr,
            miniscript::Error::PolicyError(miniscript::policy::concrete::PolicyError::NonBinaryArgOr),
        ),
    ];
    for (mine, theirs) in pairs {
        assert_eq!(mine.message(), theirs.to_string());
    }
    assert_eq!(SyntaxError::Other("x y".to_string()).message(), "x y");
}

#[test]
fn upstream_errors_are_wrapped() {
    let e: Error = SyntaxError::NonBinaryArgOr.into();
    assert!(matches!(e, Error::MiniscriptError(SyntaxError::NonBinaryArgOr)));
    assert_eq!(e.message(), "Or policy fragment must take 2 arguments");
}

#[test]
fn deep_nesting_is_refused() {
    let mut s = String::new();
    for _ in 0..500 {
        s.push_str("and(");
    }
    assert!(matches!(parse(&s), Err(SyntaxError::MaxRecursiveDepthExceeded)));
}

#[test]
fn decimal_and_hex_text() {
    assert_eq!(decimal_string(0), "0");
    assert_eq!(decimal_string(10), "10");
    assert_eq!(decimal_string(u64::MAX), u64::MAX.to_string());
    assert_eq!(hex_string(&[]), "");
    assert_eq!(hex_string(&[0x00, 0x0f, 0xa5, 0xff]), "000fa5ff");
    let h = <bitcoin_hashes::sha256::Hash as bitcoin_hashes::Hash>::from_inner(image());
    assert_eq!(hex_string(&image()), h.to_string());
}
