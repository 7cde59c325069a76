//! Reading a policy from its text.

use vstd::prelude::*;
use vstd::string::*;
use crate::policy::ast::{Policy, PolicyView, views, lemma_views, lemma_view_subs};
use crate::policy::syntax::{
    Expression, ExpressionView, SyntaxError, SyntaxErrorView, expression_tree, expression_views,
    hash_from_hex, lemma_expression_views, number_spec, parse_expression, parse_num,
    sha256_from_hex,
};

verus! {

/// The view of a parse outcome.
pub open spec fn parse_outcome_view<Pk>(r: Result<Policy<Pk>, SyntaxError>) -> Result<
    PolicyView<Pk>,
    SyntaxErrorView,
> {
    match r {
        Ok(p) => Ok(p@),
        Err(e) => Err(e@),
    }
}

/// `r` is a possible outcome of reading a key from `name` with the key parser `f`.
pub open spec fn key_outcome<Pk, F: Fn(&str) -> Result<Pk, String>>(
    f: F,
    name: Seq<char>,
    r: Result<PolicyView<Pk>, SyntaxErrorView>,
) -> bool {
    exists|s: &str, raw: Result<Pk, String>|
        #![trigger call_ensures(f, (s,), raw)]
        s@ == name && call_ensures(f, (s,), raw) && r == match raw {
            Ok(pk) => Ok::<PolicyView<Pk>, SyntaxErrorView>(PolicyView::Key(pk)),
            Err(t) => Err::<PolicyView<Pk>, SyntaxErrorView>(SyntaxErrorView::Unexpected(t@)),
        }
}

/// The outcome of reading a number from a terminal: a failure is reported
/// with the text of the number parser's own error.
pub open spec fn number_outcome(name: Seq<char>) -> Result<u32, SyntaxErrorView> {
    match number_spec(name) {
        Ok(n) => Ok(n),
        Err(t) => Err(SyntaxErrorView::Unexpected("unexpected «"@ + t + "»"@)),
    }
}

/// The outcome of reading a SHA256 image from a terminal.
pub open spec fn hash_outcome(name: Seq<char>) -> Result<Seq<u8>, SyntaxErrorView> {
    match hash_from_hex(vstd::utf8::encode_utf8(name)) {
        Ok(h) => Ok(h),
        Err(t) => Err(SyntaxErrorView::Unexpected(t)),
    }
}

/// The number of arguments as the parser counts them: in 32 bits.
pub open spec fn counted_args(t: ExpressionView) -> int {
    (t.args.len() % 0x1_0000_0000) as int
}

/// `out` holds one possible reading of each argument from `from` on, in order.
pub open spec fn each_parses<Pk, F: Fn(&str) -> Result<Pk, String>>(
    f: F,
    args: Seq<ExpressionView>,
    from: int,
    out: Seq<PolicyView<Pk>>,
) -> bool
    decreases args, 1int,
{
    &&& out.len() == args.len() - from
    &&& forall|i: int|
        0 <= from <= i < args.len() ==> parses(
            f,
            (#[trigger] args[i]),
            Ok::<PolicyView<Pk>, SyntaxErrorView>(out[i - from]),
        )
}

/// Some argument from `from` on fails with `e`, and every one between `from`
/// and it can be read.
pub open spec fn fails_at_first<Pk, F: Fn(&str) -> Result<Pk, String>>(
    f: F,
    args: Seq<ExpressionView>,
    from: int,
    e: SyntaxErrorView,
) -> bool
    decreases args, 1int,
{
    exists|i: int, before: Seq<PolicyView<Pk>>|
        #![trigger args[i], before.len()]
        0 <= from <= i < args.len() && before.len() == i - from && parses(
            f,
            args[i],
            Err::<PolicyView<Pk>, SyntaxErrorView>(e),
        ) && forall|j: int|
            0 <= from <= j < i ==> parses(
                f,
                args[j],
                Ok::<PolicyView<Pk>, SyntaxErrorView>(#[trigger] before[j - from]),
            )
}

/// The outcome of reading the arguments from `from` on as the branches of a
/// fragment: all of them in order, or the first failure.
pub open spec fn branches_outcome<Pk, F: Fn(&str) -> Result<Pk, String>>(
    f: F,
    args: Seq<ExpressionView>,
    from: int,
    r: Result<Seq<PolicyView<Pk>>, SyntaxErrorView>,
) -> bool
    decreases args, 2int,
{
    match r {
        Ok(out) => each_parses(f, args, from, out),
        Err(e) => fails_at_first::<Pk, F>(f, args, from, e),
    }
}

/// `r` is a possible outcome of reading the token tree `t` as a policy, with
/// keys read by `f`.
pub open spec fn parses<Pk, F: Fn(&str) -> Result<Pk, String>>(
    f: F,
    t: ExpressionView,
    r: Result<PolicyView<Pk>, SyntaxErrorView>,
) -> bool
    decreases t, 0int,
{
    let n = counted_args(t);
    if t.name == "UNSATISFIABLE"@ && n == 0 {
        r == Ok::<PolicyView<Pk>, SyntaxErrorView>(PolicyView::Unsatisfiable)
    } else if t.name == "TRIVIAL"@ && n == 0 {
        r == Ok::<PolicyView<Pk>, SyntaxErrorView>(PolicyView::Trivial)
    } else if t.name == "pk"@ && n == 1 {
        if t.args[0].args.len() == 0 {
            key_outcome(f, t.args[0].name, r)
        } else {
            r == Err::<PolicyView<Pk>, SyntaxErrorView>(
                SyntaxErrorView::Unexpected(t.args[0].name),
            )
        }
    } else if t.name == "after"@ && n == 1 {
        if t.args[0].args.len() == 0 {
            r == match number_outcome(t.args[0].name) {
                Ok(k) => Ok::<PolicyView<Pk>, SyntaxErrorView>(PolicyView::After(k)),
                Err(e) => Err(e),
            }
        } else {
            r == Err::<PolicyView<Pk>, SyntaxErrorView>(
                SyntaxErrorView::Unexpected(t.args[0].name),
            )
        }
    } else if t.name == "older"@ && n == 1 {
        if t.args[0].args.len() == 0 {
            r == match number_outcome(t.args[0].name) {
                Ok(k) => Ok::<PolicyView<Pk>, SyntaxErrorView>(PolicyView::Older(k)),
                Err(e) => Err(e),
            }
        } else {
            r == Err::<PolicyView<Pk>, SyntaxErrorView>(
                SyntaxErrorView::Unexpected(t.args[0].name),
            )
        }
    } else if t.name == "sha256"@ && n == 1 {
        if t.args[0].args.len() == 0 {
            r == match hash_outcome(t.args[0].name) {
                Ok(h) => Ok::<PolicyView<Pk>, SyntaxErrorView>(PolicyView::Sha256(h)),
                Err(e) => Err(e),
            }
        } else {
            r == Err::<PolicyView<Pk>, SyntaxErrorView>(
                SyntaxErrorView::Unexpected(t.args[0].name),
            )
        }
    } else if t.name == "and"@ {
        if t.args.len() != 2 {
            r == Err::<PolicyView<Pk>, SyntaxErrorView>(SyntaxErrorView::NonBinaryArgAnd)
        } else {
            match r {
                Ok(PolicyView::And(out)) => each_parses(f, t.args, 0, out),
                Ok(_) => false,
                Err(e) => fails_at_first::<Pk, F>(f, t.args, 0, e),
            }
        }
    } else if t.name == "or"@ {
        if t.args.len() != 2 {
            r == Err::<PolicyView<Pk>, SyntaxErrorView>(SyntaxErrorView::NonBinaryArgOr)
        } else {
            match r {
                Ok(PolicyView::Or(out)) => each_parses(f, t.args, 0, out),
                Ok(_) => false,
                Err(e) => fails_at_first::<Pk, F>(f, t.args, 0, e),
            }
        }
    } else if t.name == "thresh"@ {
        if n == 0 {
            r == Err::<PolicyView<Pk>, SyntaxErrorView>(
                SyntaxErrorView::Unexpected("thresh without args"@),
            )
        } else if t.args[0].args.len() != 0 {
            r == Err::<PolicyView<Pk>, SyntaxErrorView>(
                SyntaxErrorView::Unexpected(t.args[0].args[0].name),
            )
        } else {
            match number_spec(t.args[0].name) {
                Err(msg) => r == Err::<PolicyView<Pk>, SyntaxErrorView>(
                    SyntaxErrorView::Unexpected(msg),
                ),
                Ok(k) => if k >= n {
                    r == Err::<PolicyView<Pk>, SyntaxErrorView>(
                        SyntaxErrorView::Unexpected(t.args[0].name),
                    )
                } else {
                    match r {
                        Ok(PolicyView::Threshold(k2, out)) => k2 == k && each_parses(
                            f,
                            t.args,
                            1,
                            out,
                        ),
                        Ok(_) => false,
                        Err(e) => fails_at_first::<Pk, F>(f, t.args, 1, e),
                    }
                },
            }
        }
    } else {
        r == Err::<PolicyView<Pk>, SyntaxErrorView>(SyntaxErrorView::Unexpected(t.name))
    }
}

/// Whether a byte is refused before the text is split into tokens.
pub open spec fn unprintable(b: u8) -> bool {
    b < 20 || b > 127
}

/// The first byte of the text that is refused, if there is one.
pub open spec fn first_unprintable(bytes: Seq<u8>) -> Option<u8>
    decreases bytes.len(),
{
    if bytes.len() == 0 {
        None
    } else if unprintable(bytes[0]) {
        Some(bytes[0])
    } else {
        first_unprintable(bytes.drop_first())
    }
}

/// Whether a name is the given word.
fn name_is(name: &String, word: &str) -> (r: bool)
    ensures
        r == (name@ == word@),
{
    let w = String::from_str(word);
    *name == w
}

/// The list of views of the results of a list of outcomes.
pub open spec fn branches_view<Pk>(r: Result<Vec<Policy<Pk>>, SyntaxError>) -> Result<
    Seq<PolicyView<Pk>>,
    SyntaxErrorView,
> {
    match r {
        Ok(out) => Ok(views(out@)),
        Err(e) => Err(e@),
    }
}

impl<Pk> Policy<Pk> {
    /// Reads a policy from its text: the text must consist of printable
    /// characters, is split into a token tree and then read by `from_tree`.
    pub fn from_str<F>(s: &str, parse_key: F) -> (r: Result<Policy<Pk>, SyntaxError>) where
        F: Fn(&str) -> Result<Pk, String>,

        requires
            forall|k: &str| #[trigger] call_requires(parse_key, (k,)),
        ensures
            match first_unprintable(s.spec_bytes()) {
                Some(b) => parse_outcome_view(r) == Err::<PolicyView<Pk>, SyntaxErrorView>(
                    SyntaxErrorView::Unprintable(b),
                ),
                None => match expression_tree(s@) {
                    Ok(t) => parses(parse_key, t, parse_outcome_view(r)),
                    Err(e) => parse_outcome_view(r) == Err::<PolicyView<Pk>, SyntaxErrorView>(e),
                },
            },
    {
        let bytes = s.as_bytes();
        let mut i: usize = 0;
        assert(bytes@.skip(0) =~= bytes@);
        while i < bytes.len()
            invariant
                i <= bytes.len(),
                bytes@ == s.spec_bytes(),
                first_unprintable(bytes@) == first_unprintable(bytes@.skip(i as int)),
            decreases bytes.len() - i,
        {
            let ch: u8 = bytes[i];
            if ch < 20 || ch > 127 {
                return Err(SyntaxError::Unprintable(ch));
            }
            assert(bytes@.skip(i as int).drop_first() =~= bytes@.skip(i as int + 1));
            i = i + 1;
        }
        match parse_expression(s) {
            Ok(tree) => Self::from_tree(&tree, &parse_key),
            Err(e) => Err(e),
        }
    }

    /// Extract a policy from a token tree. Keys are read with `parse_key`,
    /// whose error text is reported as unexpected.
    pub fn from_tree<F>(top: &Expression, parse_key: &F) -> (r: Result<
        Policy<Pk>,
        SyntaxError,
    >) where F: Fn(&str) -> Result<Pk, String>
        requires
            forall|k: &str| #[trigger] call_requires(*parse_key, (k,)),
        ensures
            parses(*parse_key, top@, parse_outcome_view(r)),
        decreases top, 0int,
    {
        proof {
            lemma_expression_views(top.args@);
        }
        let n: u64 = (top.args.len() as u64) % 0x1_0000_0000;
        if name_is(&top.name, "UNSATISFIABLE") && n == 0 {
            Ok(Policy::Unsatisfiable)
        } else if name_is(&top.name, "TRIVIAL") && n == 0 {
            Ok(Policy::Trivial)
        } else if name_is(&top.name, "pk") && n == 1 {
            let term = &top.args[0];
            proof {
                lemma_expression_views(term.args@);
            }
            if term.args.len() == 0 {
                match parse_key(term.name.as_str()) {
                    Ok(pk) => Ok(Policy::Key(pk)),
                    Err(t) => Err(SyntaxError::Unexpected(t)),
                }
            } else {
                Err(SyntaxError::Unexpected(term.name.clone()))
            }
        } else if name_is(&top.name, "after") && n == 1 {
            match Self::number_terminal(&top.args[0]) {
                Ok(k) => Ok(Policy::After(k)),
                Err(e) => Err(e),
            }
        } else if name_is(&top.name, "older") && n == 1 {
            match Self::number_terminal(&top.args[0]) {
                Ok(k) => Ok(Policy::Older(k)),
                Err(e) => Err(e),
            }
        } else if name_is(&top.name, "sha256") && n == 1 {
            let term = &top.args[0];
            proof {
                lemma_expression_views(term.args@);
            }
            if term.args.len() == 0 {
                match sha256_from_hex(term.name.as_str()) {
                    Ok(h) => Ok(Policy::Sha256(h)),
                    Err(t) => Err(SyntaxError::Unexpected(t)),
                }
            } else {
                Err(SyntaxError::Unexpected(term.name.clone()))
            }
        } else if name_is(&top.name, "and") {
            if top.args.len() != 2 {
                return Err(SyntaxError::NonBinaryArgAnd);
            }
            match Self::branches(&top.args, 0, parse_key) {
                Ok(subs) => {
                    proof {
                        lemma_view_subs(Policy::And(subs));
                    }
                    Ok(Policy::And(subs))
                },
                Err(e) => Err(e),
            }
        } else if name_is(&top.name, "or") {
            if top.args.len() != 2 {
                return Err(SyntaxError::NonBinaryArgOr);
            }
            match Self::branches(&top.args, 0, parse_key) {
                Ok(subs) => {
                    proof {
                        lemma_view_subs(Policy::Or(subs));
                    }
                    Ok(Policy::Or(subs))
                },
                Err(e) => Err(e),
            }
        } else if name_is(&top.name, "thresh") {
            if n == 0 {
                return Err(SyntaxError::Unexpected(String::from_str("thresh without args")));
            }
            let first = &top.args[0];
            proof {
                lemma_expression_views(first.args@);
            }
            if first.args.len() != 0 {
                return Err(SyntaxError::Unexpected(first.args[0].name.clone()));
            }
            let thresh: u32 = match parse_num(first.name.as_str()) {
                Ok(k) => k,
                Err(t) => {
                    return Err(SyntaxError::Unexpected(t));
                },
            };
            if thresh as u64 >= n {
                return Err(SyntaxError::Unexpected(first.name.clone()));
            }
            match Self::branches(&top.args, 1, parse_key) {
                Ok(subs) => {
                    proof {
                        lemma_view_subs(Policy::Threshold(thresh as usize, subs));
                    }
                    Ok(Policy::Threshold(thresh as usize, subs))
                },
                Err(e) => Err(e),
            }
        } else {
            Err(SyntaxError::Unexpected(top.name.clone()))
        }
    }

    /// Reads a number from a token without arguments.
    fn number_terminal(term: &Expression) -> (r: Result<u32, SyntaxError>)
        ensures
            match r {
                Ok(k) => term@.args.len() == 0 && number_outcome(term@.name) == Ok::<
                    u32,
                    SyntaxErrorView,
                >(k),
                Err(e) => if term@.args.len() == 0 {
                    number_outcome(term@.name) == Err::<u32, SyntaxErrorView>(e@)
                } else {
                    e@ == SyntaxErrorView::Unexpected(term@.name)
                },
            },
    {
        proof {
            lemma_expression_views(term.args@);
        }
        if term.args.len() == 0 {
            match parse_num(term.name.as_str()) {
                Ok(k) => Ok(k),
                Err(t) => {
                    let mut msg = String::from_str("unexpected «");
                    msg.append(t.as_str());
                    msg.append("»");
                    Err(SyntaxError::Unexpected(msg))
                },
            }
        } else {
            Err(SyntaxError::Unexpected(term.name.clone()))
        }
    }

    /// Reads the arguments from `from` on, from left to right, and stops at the
    /// first failure.
    fn branches<F>(args: &Vec<Expression>, from: usize, parse_key: &F) -> (r: Result<
        Vec<Policy<Pk>>,
        SyntaxError,
    >) where F: Fn(&str) -> Result<Pk, String>
        requires
            from <= args.len(),
            forall|k: &str| #[trigger] call_requires(*parse_key, (k,)),
        ensures
            branches_outcome(*parse_key, expression_views(args@), from as int, branches_view(r)),
        decreases args, 1int,
    {
        let ghost vs = expression_views(args@);
        proof {
            lemma_expression_views(args@);
        }
        let mut out: Vec<Policy<Pk>> = Vec::with_capacity(args.len() - from);
        let mut i: usize = from;
        while i < args.len()
            invariant
                from <= i <= args.len(),
                out.len() == i - from,
                vs == expression_views(args@),
                vs.len() == args.len(),
                forall|j: int| 0 <= j < args.len() ==> (#[trigger] vs[j]) == args@[j]@,
                forall|k: &str| #[trigger] call_requires(*parse_key, (k,)),
                forall|j: int|
                    from <= j < i ==> parses(
                        *parse_key,
                        vs[j],
                        Ok::<PolicyView<Pk>, SyntaxErrorView>(#[trigger] views(out@)[j - from]),
                    ),
            decreases args.len() - i,
        {
            let ghost before = views(out@);
            proof {
                lemma_views(out@);
            }
            match Self::from_tree(&args[i], parse_key) {
                Ok(p) => {
                    out.push(p);
                    proof {
                        lemma_views(out@);
                        assert forall|j: int| from <= j < i + 1 implies parses(
                            *parse_key,
                            vs[j],
                            Ok::<PolicyView<Pk>, SyntaxErrorView>(
                                #[trigger] views(out@)[j - from],
                            ),
                        ) by {
                            if j < i {
                                assert(views(out@)[j - from] == before[j - from]);
                            }
                        }
                    }
                },
                Err(e) => {
                    proof {
                        let k = i as int;
                        assert(parses(
                            *parse_key,
                            vs[k],
                            Err::<PolicyView<Pk>, SyntaxErrorView>(e@),
                        ));
                        assert(before.len() == k - from);
                        assert(fails_at_first::<Pk, F>(*parse_key, vs, from as int, e@));
                    }
                    return Err(e);
                },
            }
            i = i + 1;
        }
        proof {
            lemma_views(out@);
            assert forall|j: int| from <= j < args.len() implies parses(
                *parse_key,
                (#[trigger] vs[j]),
                Ok::<PolicyView<Pk>, SyntaxErrorView>(views(out@)[j - from]),
            ) by {
                assert(parses(
                    *parse_key,
                    vs[j],
                    Ok::<PolicyView<Pk>, SyntaxErrorView>(views(out@)[j - from]),
                ));
            }
        }
        Ok(out)
    }
}

} // verus!
