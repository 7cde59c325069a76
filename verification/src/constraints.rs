//! The equations that each combinator imposes on the types of its node and
//! of its children, unified node by node.

use vstd::prelude::*;
use crate::dag::{Node, acyclic, is_hidden};
use crate::error::Error;
use crate::inference::{
    Binding, Typing, all_below, binding_holds, node_typed, satisfies, well_typed,
};
use crate::jet::{lookup, signature, word_type};
use crate::solution::{
    Fact, Term, Tracker, agree, eval_term, fact_holds, knows, later, role_small, lemma_small_by,
    lemma_small_node, lemma_small_part, lemma_small_unit, lemma_term_of, term_of, untypable,
};
use crate::types::Type;

verus! {

/// The typing rule of the combinator of node `k`, for source types `s` and
/// target types `t` of the nodes.
pub open spec fn rule(nodes: Seq<Node>, k: int, s: Seq<Type>, t: Seq<Type>) -> bool {
    match nodes[k] {
        Node::Iden => s[k] == t[k],
        Node::Unit => t[k] == Type::Unit,
        Node::InjL(c) => {
            &&& t[k] matches Type::Sum(l, _)
            &&& *l == t[c as int]
            &&& s[k] == s[c as int]
        },
        Node::InjR(c) => {
            &&& t[k] matches Type::Sum(_, r)
            &&& *r == t[c as int]
            &&& s[k] == s[c as int]
        },
        Node::Take(c) => {
            &&& s[k] matches Type::Product(l, _)
            &&& *l == s[c as int]
            &&& t[k] == t[c as int]
        },
        Node::Drop(c) => {
            &&& s[k] matches Type::Product(_, r)
            &&& *r == s[c as int]
            &&& t[k] == t[c as int]
        },
        Node::Comp(l, r) => {
            &&& s[k] == s[l as int]
            &&& t[l as int] == s[r as int]
            &&& t[k] == t[r as int]
        },
        Node::Case(l, r) => {
            &&& s[k] matches Type::Product(ab, c)
            &&& *ab matches Type::Sum(a, b)
            &&& nodes[l as int] is Hidden || (s[l as int] == Type::Product(a, c) && t[l as int]
                == t[k])
            &&& nodes[r as int] is Hidden || (s[r as int] == Type::Product(b, c) && t[r as int]
                == t[k])
        },
        Node::Pair(l, r) => {
            &&& s[k] == s[l as int]
            &&& s[k] == s[r as int]
            &&& t[k] == Type::Product(Box::new(t[l as int]), Box::new(t[r as int]))
        },
        Node::Disconnect(l, r) => {
            &&& t[l as int] matches Type::Product(b, c)
            &&& *c == s[r as int]
            &&& t[k] == Type::Product(b, Box::new(t[r as int]))
            &&& s[l as int] == Type::Product(Box::new(Type::word(8)), Box::new(s[k]))
        },
        Node::Witness => true,
        Node::Hidden(_) => true,
        Node::Jet(id) => signature(id) == Some((s[k], t[k])),
    }
}

/// The types that an assignment gives to a list of variables.
pub open spec fn types(th: spec_fn(int) -> Type, vs: Seq<usize>) -> Seq<Type> {
    Seq::new(vs.len(), |i: int| th(vs[i] as int))
}

/// In every solution, the rule of node `k` holds of the types of the
/// variables `src` and `tgt`.
#[verifier::opaque]
pub open spec fn sound_at(
    nodes: Seq<Node>,
    k: int,
    vars: Seq<Binding>,
    src: Seq<usize>,
    tgt: Seq<usize>,
) -> bool {
    forall|th: spec_fn(int) -> Type|
        #[trigger] satisfies(vars, th) ==> rule(nodes, k, types(th, src), types(th, tgt))
}

/// In every solution, the rules of the nodes below `k` hold.
#[verifier::opaque]
pub open spec fn sound_upto(
    nodes: Seq<Node>,
    k: int,
    vars: Seq<Binding>,
    src: Seq<usize>,
    tgt: Seq<usize>,
) -> bool {
    forall|j: int| 0 <= j < k ==> #[trigger] sound_at(nodes, j, vars, src, tgt)
}

/// The variables of the source and target type of each node stand for that type.
pub open spec fn roles_ok(roles: Seq<Term>, src: Seq<usize>, tgt: Seq<usize>) -> bool {
    &&& src.len() == tgt.len()
    &&& forall|j: int|
        0 <= j < src.len() ==> (#[trigger] src[j]) < roles.len() && roles[src[j] as int]
            == Term::Src(j)
    &&& forall|j: int|
        0 <= j < tgt.len() ==> (#[trigger] tgt[j]) < roles.len() && roles[tgt[j] as int]
            == Term::Tgt(j)
}

/// What holds when the equations of a node are about to be unified.
pub open spec fn ready(tr: Tracker, nodes: Seq<Node>, k: int, src: Seq<usize>, tgt: Seq<usize>) -> bool {
    &&& tr.inv(nodes)
    &&& tr.facts@ == Seq::<Fact>::empty()
    &&& tr.start@ == tr.u.vars@
    &&& acyclic(nodes)
    &&& 0 <= k < nodes.len()
    &&& src.len() == nodes.len()
    &&& roles_ok(tr.roles@, src, tgt)
}

/// What holds when the equations of a node have been unified, or could
/// not be.
pub open spec fn done(
    before: Tracker,
    tr: Tracker,
    nodes: Seq<Node>,
    k: int,
    src: Seq<usize>,
    tgt: Seq<usize>,
    r: Result<(), Error>,
) -> bool {
    &&& tr.u.wf()
    &&& match r {
        Ok(()) => {
            &&& tr.inv(nodes)
            &&& tr.start@ == before.u.vars@
            &&& roles_ok(tr.roles@, src, tgt)
            &&& sound_at(nodes, k, tr.u.vars@, src, tgt)
        },
        Err(e) => (e == Error::TypeCheck || e == Error::ParseError("jet")) && untypable(nodes),
    }
}

/// The rule of a node gives the equation of two variables in every typing.
pub proof fn lemma_agree(
    nodes: Seq<Node>,
    roles: Seq<Term>,
    a: usize,
    b: usize,
    k: int,
    ra: Term,
    rb: Term,
)
    requires
        0 <= k < nodes.len(),
        a < roles.len(),
        b < roles.len(),
        roles[a as int] == ra,
        roles[b as int] == rb,
        forall|ty: Typing|
            #[trigger] node_typed(nodes, ty, k) ==> eval_term(ra, ty) == eval_term(rb, ty),
    ensures
        agree(nodes, roles, a, b),
{
    reveal(agree);
    assert forall|ty: Typing| #[trigger] well_typed(nodes, ty) implies eval_term(
        roles[a as int],
        ty,
    ) == eval_term(roles[b as int], ty) by {
        assert(node_typed(nodes, ty, k));
    }
}

/// Every solution satisfies each of the facts.
pub proof fn lemma_fact(vars: Seq<Binding>, facts: Seq<Fact>, th: spec_fn(int) -> Type, i: int)
    requires
        knows(vars, facts),
        satisfies(vars, th),
        0 <= i < facts.len(),
    ensures
        fact_holds(facts[i], th),
{
    reveal(knows);
}

/// The rule of a node without equations holds.
proof fn lemma_sound_none(nodes: Seq<Node>, k: int, vars: Seq<Binding>, src: Seq<usize>, tgt: Seq<usize>)
    requires
        0 <= k < nodes.len(),
        nodes[k] is Witness || nodes[k] is Hidden,
    ensures
        sound_at(nodes, k, vars, src, tgt),
{
    reveal(sound_at);
}

/// The equations of `iden`, `unit` and `comp` give their rules.
proof fn lemma_sound_plain(
    nodes: Seq<Node>,
    k: int,
    vars: Seq<Binding>,
    facts: Seq<Fact>,
    src: Seq<usize>,
    tgt: Seq<usize>,
    x: usize,
)
    requires
        0 <= k < nodes.len(),
        src.len() == nodes.len(),
        tgt.len() == nodes.len(),
        nodes[k].refers_below(k),
        knows(vars, facts),
        match nodes[k] {
            Node::Iden => facts == seq![Fact::Same(src[k], tgt[k])],
            Node::Unit => facts == seq![Fact::Is(x, Binding::Unit), Fact::Same(tgt[k], x)],
            Node::Comp(l, r) => facts == seq![
                Fact::Same(src[k], src[l as int]),
                Fact::Same(tgt[l as int], src[r as int]),
                Fact::Same(tgt[k], tgt[r as int]),
            ],
            _ => false,
        },
    ensures
        sound_at(nodes, k, vars, src, tgt),
{
    reveal(sound_at);
    assert forall|th: spec_fn(int) -> Type| #[trigger] satisfies(vars, th) implies rule(
        nodes,
        k,
        types(th, src),
        types(th, tgt),
    ) by {
        lemma_fact(vars, facts, th, 0);
        if facts.len() > 1 {
            lemma_fact(vars, facts, th, 1);
        }
        if facts.len() > 2 {
            lemma_fact(vars, facts, th, 2);
        }
    }
}

/// The equations of an injection or a projection give its rule.
proof fn lemma_sound_unary(
    nodes: Seq<Node>,
    k: int,
    vars: Seq<Binding>,
    facts: Seq<Fact>,
    src: Seq<usize>,
    tgt: Seq<usize>,
    f: usize,
    x: usize,
)
    requires
        0 <= k < nodes.len(),
        src.len() == nodes.len(),
        tgt.len() == nodes.len(),
        nodes[k].refers_below(k),
        knows(vars, facts),
        match nodes[k] {
            Node::InjL(c) => facts == seq![
                Fact::Is(f, Binding::Free),
                Fact::Is(x, Binding::Sum(tgt[c as int], f)),
                Fact::Same(tgt[k], x),
                Fact::Same(src[k], src[c as int]),
            ],
            Node::InjR(c) => facts == seq![
                Fact::Is(f, Binding::Free),
                Fact::Is(x, Binding::Sum(f, tgt[c as int])),
                Fact::Same(tgt[k], x),
                Fact::Same(src[k], src[c as int]),
            ],
            Node::Take(c) => facts == seq![
                Fact::Is(f, Binding::Free),
                Fact::Is(x, Binding::Product(src[c as int], f)),
                Fact::Same(src[k], x),
                Fact::Same(tgt[k], tgt[c as int]),
            ],
            Node::Drop(c) => facts == seq![
                Fact::Is(f, Binding::Free),
                Fact::Is(x, Binding::Product(f, src[c as int])),
                Fact::Same(src[k], x),
                Fact::Same(tgt[k], tgt[c as int]),
            ],
            _ => false,
        },
    ensures
        sound_at(nodes, k, vars, src, tgt),
{
    reveal(sound_at);
    assert forall|th: spec_fn(int) -> Type| #[trigger] satisfies(vars, th) implies rule(
        nodes,
        k,
        types(th, src),
        types(th, tgt),
    ) by {
        lemma_fact(vars, facts, th, 1);
        lemma_fact(vars, facts, th, 2);
        lemma_fact(vars, facts, th, 3);
    }
}

/// The equations of `pair` give its rule.
proof fn lemma_sound_pair(
    nodes: Seq<Node>,
    k: int,
    vars: Seq<Binding>,
    facts: Seq<Fact>,
    src: Seq<usize>,
    tgt: Seq<usize>,
    x: usize,
)
    requires
        0 <= k < nodes.len(),
        src.len() == nodes.len(),
        tgt.len() == nodes.len(),
        nodes[k].refers_below(k),
        knows(vars, facts),
        nodes[k] matches Node::Pair(l, r) && facts == seq![
            Fact::Is(x, Binding::Product(tgt[l as int], tgt[r as int])),
            Fact::Same(src[k], src[l as int]),
            Fact::Same(src[k], src[r as int]),
            Fact::Same(tgt[k], x),
        ],
    ensures
        sound_at(nodes, k, vars, src, tgt),
{
    reveal(sound_at);
    assert forall|th: spec_fn(int) -> Type| #[trigger] satisfies(vars, th) implies rule(
        nodes,
        k,
        types(th, src),
        types(th, tgt),
    ) by {
        lemma_fact(vars, facts, th, 0);
        lemma_fact(vars, facts, th, 1);
        lemma_fact(vars, facts, th, 2);
        lemma_fact(vars, facts, th, 3);
    }
}

/// The equations of a jet give its rule.
proof fn lemma_sound_jet(
    nodes: Seq<Node>,
    k: int,
    vars: Seq<Binding>,
    facts: Seq<Fact>,
    src: Seq<usize>,
    tgt: Seq<usize>,
    x: usize,
    y: usize,
    st: Type,
    tt: Type,
)
    requires
        0 <= k < nodes.len(),
        src.len() == nodes.len(),
        tgt.len() == nodes.len(),
        knows(vars, facts),
        nodes[k] matches Node::Jet(id) && signature(id) == Some((st, tt)),
        facts == seq![
            Fact::Const(x, st),
            Fact::Const(y, tt),
            Fact::Same(src[k], x),
            Fact::Same(tgt[k], y),
        ],
    ensures
        sound_at(nodes, k, vars, src, tgt),
{
    reveal(sound_at);
    assert forall|th: spec_fn(int) -> Type| #[trigger] satisfies(vars, th) implies rule(
        nodes,
        k,
        types(th, src),
        types(th, tgt),
    ) by {
        lemma_fact(vars, facts, th, 0);
        lemma_fact(vars, facts, th, 1);
        lemma_fact(vars, facts, th, 2);
        lemma_fact(vars, facts, th, 3);
    }
}

/// The facts of a `case` node: the parts of its source type, and the
/// equations of each child that is not pruned.
pub open spec fn case_facts(
    s: usize,
    t: usize,
    sl: usize,
    tl: usize,
    sr: usize,
    tr: usize,
    e: int,
    left: bool,
    right: bool,
) -> Seq<Fact> {
    let a = e as usize;
    let b = (e + 1) as usize;
    let c = (e + 2) as usize;
    let ab = (e + 3) as usize;
    let x = (e + 4) as usize;
    let y = (e + 5) as usize;
    let z = (e + 6) as usize;
    seq![
        Fact::Is(a, Binding::Free),
        Fact::Is(b, Binding::Free),
        Fact::Is(c, Binding::Free),
        Fact::Is(ab, Binding::Sum(a, b)),
        Fact::Is(x, Binding::Product(ab, c)),
        Fact::Is(y, Binding::Product(a, c)),
        Fact::Is(z, Binding::Product(b, c)),
        Fact::Same(s, x),
    ] + (if left {
        seq![Fact::Same(sl, y), Fact::Same(tl, t)]
    } else {
        Seq::empty()
    }) + (if right {
        seq![Fact::Same(sr, z), Fact::Same(tr, t)]
    } else {
        Seq::empty()
    })
}

/// The equations of `case` give its rule.
proof fn lemma_sound_case(
    nodes: Seq<Node>,
    k: int,
    vars: Seq<Binding>,
    facts: Seq<Fact>,
    src: Seq<usize>,
    tgt: Seq<usize>,
    e: int,
)
    requires
        0 <= k < nodes.len(),
        src.len() == nodes.len(),
        tgt.len() == nodes.len(),
        nodes[k].refers_below(k),
        knows(vars, facts),
        0 <= e,
        e + 6 <= usize::MAX,
        nodes[k] matches Node::Case(l, r) && facts == case_facts(
            src[k],
            tgt[k],
            src[l as int],
            tgt[l as int],
            src[r as int],
            tgt[r as int],
            e,
            !(nodes[l as int] is Hidden),
            !(nodes[r as int] is Hidden),
        ),
    ensures
        sound_at(nodes, k, vars, src, tgt),
{
    reveal(sound_at);
    let l = nodes[k]->Case_0;
    let r = nodes[k]->Case_1;
    let left = !(nodes[l as int] is Hidden);
    let right = !(nodes[r as int] is Hidden);
    assert forall|th: spec_fn(int) -> Type| #[trigger] satisfies(vars, th) implies rule(
        nodes,
        k,
        types(th, src),
        types(th, tgt),
    ) by {
        lemma_fact(vars, facts, th, 3);
        lemma_fact(vars, facts, th, 4);
        lemma_fact(vars, facts, th, 5);
        lemma_fact(vars, facts, th, 6);
        lemma_fact(vars, facts, th, 7);
        if left {
            lemma_fact(vars, facts, th, 8);
            lemma_fact(vars, facts, th, 9);
            if right {
                lemma_fact(vars, facts, th, 10);
                lemma_fact(vars, facts, th, 11);
            }
        } else if right {
            lemma_fact(vars, facts, th, 8);
            lemma_fact(vars, facts, th, 9);
        }
    }
}

/// The equations of `disconnect` give its rule.
proof fn lemma_sound_disconnect(
    nodes: Seq<Node>,
    k: int,
    vars: Seq<Binding>,
    facts: Seq<Fact>,
    src: Seq<usize>,
    tgt: Seq<usize>,
    w: usize,
    x: usize,
    b: usize,
    c: usize,
    y: usize,
    z: usize,
)
    requires
        0 <= k < nodes.len(),
        src.len() == nodes.len(),
        tgt.len() == nodes.len(),
        nodes[k].refers_below(k),
        knows(vars, facts),
        nodes[k] matches Node::Disconnect(l, r) && facts == seq![
            Fact::Const(w, Type::word(8)),
            Fact::Is(x, Binding::Product(w, src[k])),
            Fact::Is(b, Binding::Free),
            Fact::Is(c, Binding::Free),
            Fact::Is(y, Binding::Product(b, c)),
            Fact::Is(z, Binding::Product(b, tgt[r as int])),
            Fact::Same(src[l as int], x),
            Fact::Same(tgt[l as int], y),
            Fact::Same(src[r as int], c),
            Fact::Same(tgt[k], z),
        ],
    ensures
        sound_at(nodes, k, vars, src, tgt),
{
    reveal(sound_at);
    assert forall|th: spec_fn(int) -> Type| #[trigger] satisfies(vars, th) implies rule(
        nodes,
        k,
        types(th, src),
        types(th, tgt),
    ) by {
        lemma_fact(vars, facts, th, 0);
        lemma_fact(vars, facts, th, 1);
        lemma_fact(vars, facts, th, 4);
        lemma_fact(vars, facts, th, 5);
        lemma_fact(vars, facts, th, 6);
        lemma_fact(vars, facts, th, 7);
        lemma_fact(vars, facts, th, 8);
        lemma_fact(vars, facts, th, 9);
    }
}

/// Unifies the equations of `iden`, `unit` or `comp`.
fn node_plain(tr: &mut Tracker, nodes: &Vec<Node>, k: usize, src: &Vec<usize>, tgt: &Vec<usize>) -> (r:
    Result<(), Error>)
    requires
        ready(*old(tr), nodes@, k as int, src@, tgt@),
        nodes@[k as int] is Iden || nodes@[k as int] is Unit || nodes@[k as int] is Comp,
    ensures
        done(*old(tr), *final(tr), nodes@, k as int, src@, tgt@, r),
{
    let ghost g = nodes@;
    assert(g[k as int].refers_below(k as int));
    let s = src[k];
    let t = tgt[k];
    match nodes[k] {
        Node::Iden => {
            proof {
                reveal_with_fuel(eval_term, 4);
                lemma_agree(g, tr.roles@, s, t, k as int, Term::Src(k as int), Term::Tgt(k as int));
            }
            match tr.unify(s, t, Ghost(g)) {
                Ok(()) => {},
                Err(e) => {
                    return Err(e);
                },
            }
            proof {
                assert(tr.facts@ =~= seq![Fact::Same(s, t)]);
                lemma_sound_plain(g, k as int, tr.u.vars@, tr.facts@, src@, tgt@, 0);
            }
            Ok(())
        },
        Node::Unit => {
            proof {
                lemma_small_unit(g);
            }
            let x = tr.fresh(Binding::Unit, Ghost(Term::Unit), Ghost(g));
            proof {
                reveal_with_fuel(eval_term, 4);
                lemma_agree(g, tr.roles@, t, x, k as int, Term::Tgt(k as int), Term::Unit);
            }
            match tr.unify(t, x, Ghost(g)) {
                Ok(()) => {},
                Err(e) => {
                    return Err(e);
                },
            }
            proof {
                assert(tr.facts@ =~= seq![Fact::Is(x, Binding::Unit), Fact::Same(t, x)]);
                lemma_sound_plain(g, k as int, tr.u.vars@, tr.facts@, src@, tgt@, x);
            }
            Ok(())
        },
        Node::Comp(l, r) => {
            proof {
                reveal_with_fuel(eval_term, 4);
                lemma_agree(g, tr.roles@, s, src@[l as int], k as int, Term::Src(k as int), Term::Src(l as int));
            }
            match tr.unify(s, src[l], Ghost(g)) {
                Ok(()) => {},
                Err(e) => {
                    return Err(e);
                },
            }
            proof {
                reveal_with_fuel(eval_term, 4);
                lemma_agree(g, tr.roles@, tgt@[l as int], src@[r as int], k as int, Term::Tgt(l as int), Term::Src(r as int));
            }
            match tr.unify(tgt[l], src[r], Ghost(g)) {
                Ok(()) => {},
                Err(e) => {
                    return Err(e);
                },
            }
            proof {
                reveal_with_fuel(eval_term, 4);
                lemma_agree(g, tr.roles@, t, tgt@[r as int], k as int, Term::Tgt(k as int), Term::Tgt(r as int));
            }
            match tr.unify(t, tgt[r], Ghost(g)) {
                Ok(()) => {},
                Err(e) => {
                    return Err(e);
                },
            }
            proof {
                assert(tr.facts@ =~= seq![
                    Fact::Same(s, src@[l as int]),
                    Fact::Same(tgt@[l as int], src@[r as int]),
                    Fact::Same(t, tgt@[r as int]),
                ]);
                lemma_sound_plain(g, k as int, tr.u.vars@, tr.facts@, src@, tgt@, 0);
            }
            Ok(())
        },
        _ => Ok(()),
    }
}

/// Unifies the equations of a left injection.
fn node_injl(tr: &mut Tracker, nodes: &Vec<Node>, k: usize, src: &Vec<usize>, tgt: &Vec<usize>) -> (r:
    Result<(), Error>)
    requires
        ready(*old(tr), nodes@, k as int, src@, tgt@),
        nodes@[k as int] is InjL,
    ensures
        done(*old(tr), *final(tr), nodes@, k as int, src@, tgt@, r),
{
    let ghost g = nodes@;
    assert(g[k as int].refers_below(k as int));
    let s = src[k];
    let t = tgt[k];
    match nodes[k] {
        Node::InjL(c) => {
            proof {
                lemma_small_node(g, k as int);
                lemma_small_part(g, Term::Tgt(k as int));
            }
            let f = tr.fresh(Binding::Free, Ghost(Term::Second(Box::new(Term::Tgt(k as int)))), Ghost(g));
            proof {
                reveal_with_fuel(eval_term, 4);
                reveal_with_fuel(Type::bit_width, 3);
                lemma_small_node(g, k as int);
                lemma_small_by(g, Term::Sum(Box::new(Term::Tgt(c as int)), Box::new(Term::Second(Box::new(Term::Tgt(k as int))))), Term::Tgt(k as int), k as int);
            }
            let x = tr.fresh(
                Binding::Sum(tgt[c], f),
                Ghost(Term::Sum(Box::new(Term::Tgt(c as int)), Box::new(Term::Second(Box::new(Term::Tgt(k as int)))))),
                Ghost(g),
            );
            proof {
                reveal_with_fuel(eval_term, 4);
                lemma_agree(g, tr.roles@, t, x, k as int, Term::Tgt(k as int), Term::Sum(Box::new(Term::Tgt(c as int)), Box::new(Term::Second(Box::new(Term::Tgt(k as int))))));
            }
            match tr.unify(t, x, Ghost(g)) {
                Ok(()) => {},
                Err(e) => {
                    return Err(e);
                },
            }
            proof {
                reveal_with_fuel(eval_term, 4);
                lemma_agree(g, tr.roles@, s, src@[c as int], k as int, Term::Src(k as int), Term::Src(c as int));
            }
            match tr.unify(s, src[c], Ghost(g)) {
                Ok(()) => {},
                Err(e) => {
                    return Err(e);
                },
            }
            proof {
                assert(tr.facts@ =~= seq![
                    Fact::Is(f, Binding::Free),
                    Fact::Is(x, Binding::Sum(tgt@[c as int], f)),
                    Fact::Same(t, x),
                    Fact::Same(s, src@[c as int]),
                ]);
                lemma_sound_unary(g, k as int, tr.u.vars@, tr.facts@, src@, tgt@, f, x);
            }
            Ok(())
        },
        _ => Ok(()),
    }
}

/// Unifies the equations of a right injection.
fn node_injr(tr: &mut Tracker, nodes: &Vec<Node>, k: usize, src: &Vec<usize>, tgt: &Vec<usize>) -> (r:
    Result<(), Error>)
    requires
        ready(*old(tr), nodes@, k as int, src@, tgt@),
        nodes@[k as int] is InjR,
    ensures
        done(*old(tr), *final(tr), nodes@, k as int, src@, tgt@, r),
{
    let ghost g = nodes@;
    assert(g[k as int].refers_below(k as int));
    let s = src[k];
    let t = tgt[k];
    match nodes[k] {
        Node::InjR(c) => {
            proof {
                lemma_small_node(g, k as int);
                lemma_small_part(g, Term::Tgt(k as int));
            }
            let f = tr.fresh(Binding::Free, Ghost(Term::First(Box::new(Term::Tgt(k as int)))), Ghost(g));
            proof {
                reveal_with_fuel(eval_term, 4);
                reveal_with_fuel(Type::bit_width, 3);
                lemma_small_node(g, k as int);
                lemma_small_by(g, Term::Sum(Box::new(Term::First(Box::new(Term::Tgt(k as int)))), Box::new(Term::Tgt(c as int))), Term::Tgt(k as int), k as int);
            }
            let x = tr.fresh(
                Binding::Sum(f, tgt[c]),
                Ghost(Term::Sum(Box::new(Term::First(Box::new(Term::Tgt(k as int)))), Box::new(Term::Tgt(c as int)))),
                Ghost(g),
            );
            proof {
                reveal_with_fuel(eval_term, 4);
                lemma_agree(g, tr.roles@, t, x, k as int, Term::Tgt(k as int), Term::Sum(Box::new(Term::First(Box::new(Term::Tgt(k as int)))), Box::new(Term::Tgt(c as int))));
            }
            match tr.unify(t, x, Ghost(g)) {
                Ok(()) => {},
                Err(e) => {
                    return Err(e);
                },
            }
            proof {
                reveal_with_fuel(eval_term, 4);
                lemma_agree(g, tr.roles@, s, src@[c as int], k as int, Term::Src(k as int), Term::Src(c as int));
            }
            match tr.unify(s, src[c], Ghost(g)) {
                Ok(()) => {},
                Err(e) => {
                    return Err(e);
                },
            }
            proof {
                assert(tr.facts@ =~= seq![
                    Fact::Is(f, Binding::Free),
                    Fact::Is(x, Binding::Sum(f, tgt@[c as int])),
                    Fact::Same(t, x),
                    Fact::Same(s, src@[c as int]),
                ]);
                lemma_sound_unary(g, k as int, tr.u.vars@, tr.facts@, src@, tgt@, f, x);
            }
            Ok(())
        },
        _ => Ok(()),
    }
}

/// Unifies the equations of `take`.
fn node_take(tr: &mut Tracker, nodes: &Vec<Node>, k: usize, src: &Vec<usize>, tgt: &Vec<usize>) -> (r:
    Result<(), Error>)
    requires
        ready(*old(tr), nodes@, k as int, src@, tgt@),
        nodes@[k as int] is Take,
    ensures
        done(*old(tr), *final(tr), nodes@, k as int, src@, tgt@, r),
{
    let ghost g = nodes@;
    assert(g[k as int].refers_below(k as int));
    let s = src[k];
    let t = tgt[k];
    match nodes[k] {
        Node::Take(c) => {
            proof {
                lemma_small_node(g, k as int);
                lemma_small_part(g, Term::Src(k as int));
            }
            let f = tr.fresh(Binding::Free, Ghost(Term::Second(Box::new(Term::Src(k as int)))), Ghost(g));
            proof {
                reveal_with_fuel(eval_term, 4);
                reveal_with_fuel(Type::bit_width, 3);
                lemma_small_node(g, k as int);
                lemma_small_by(g, Term::Product(Box::new(Term::Src(c as int)), Box::new(Term::Second(Box::new(Term::Src(k as int))))), Term::Src(k as int), k as int);
            }
            let x = tr.fresh(
                Binding::Product(src[c], f),
                Ghost(Term::Product(Box::new(Term::Src(c as int)), Box::new(Term::Second(Box::new(Term::Src(k as int)))))),
                Ghost(g),
            );
            proof {
                reveal_with_fuel(eval_term, 4);
                lemma_agree(g, tr.roles@, s, x, k as int, Term::Src(k as int), Term::Product(Box::new(Term::Src(c as int)), Box::new(Term::Second(Box::new(Term::Src(k as int))))));
            }
            match tr.unify(s, x, Ghost(g)) {
                Ok(()) => {},
                Err(e) => {
                    return Err(e);
                },
            }
            proof {
                reveal_with_fuel(eval_term, 4);
                lemma_agree(g, tr.roles@, t, tgt@[c as int], k as int, Term::Tgt(k as int), Term::Tgt(c as int));
            }
            match tr.unify(t, tgt[c], Ghost(g)) {
                Ok(()) => {},
                Err(e) => {
                    return Err(e);
                },
            }
            proof {
                assert(tr.facts@ =~= seq![
                    Fact::Is(f, Binding::Free),
                    Fact::Is(x, Binding::Product(src@[c as int], f)),
                    Fact::Same(s, x),
                    Fact::Same(t, tgt@[c as int]),
                ]);
                lemma_sound_unary(g, k as int, tr.u.vars@, tr.facts@, src@, tgt@, f, x);
            }
            Ok(())
        },
        _ => Ok(()),
    }
}

/// Unifies the equations of `drop`.
fn node_drop(tr: &mut Tracker, nodes: &Vec<Node>, k: usize, src: &Vec<usize>, tgt: &Vec<usize>) -> (r:
    Result<(), Error>)
    requires
        ready(*old(tr), nodes@, k as int, src@, tgt@),
        nodes@[k as int] is Drop,
    ensures
        done(*old(tr), *final(tr), nodes@, k as int, src@, tgt@, r),
{
    let ghost g = nodes@;
    assert(g[k as int].refers_below(k as int));
    let s = src[k];
    let t = tgt[k];
    match nodes[k] {
        Node::Drop(c) => {
            proof {
                lemma_small_node(g, k as int);
                lemma_small_part(g, Term::Src(k as int));
            }
            let f = tr.fresh(Binding::Free, Ghost(Term::First(Box::new(Term::Src(k as int)))), Ghost(g));
            proof {
                reveal_with_fuel(eval_term, 4);
                reveal_with_fuel(Type::bit_width, 3);
                lemma_small_node(g, k as int);
                lemma_small_by(g, Term::Product(Box::new(Term::First(Box::new(Term::Src(k as int)))), Box::new(Term::Src(c as int))), Term::Src(k as int), k as int);
            }
            let x = tr.fresh(
                Binding::Product(f, src[c]),
                Ghost(Term::Product(Box::new(Term::First(Box::new(Term::Src(k as int)))), Box::new(Term::Src(c as int)))),
                Ghost(g),
            );
            proof {
                reveal_with_fuel(eval_term, 4);
                lemma_agree(g, tr.roles@, s, x, k as int, Term::Src(k as int), Term::Product(Box::new(Term::First(Box::new(Term::Src(k as int)))), Box::new(Term::Src(c as int))));
            }
            match tr.unify(s, x, Ghost(g)) {
                Ok(()) => {},
                Err(e) => {
                    return Err(e);
                },
            }
            proof {
                reveal_with_fuel(eval_term, 4);
                lemma_agree(g, tr.roles@, t, tgt@[c as int], k as int, Term::Tgt(k as int), Term::Tgt(c as int));
            }
            match tr.unify(t, tgt[c], Ghost(g)) {
                Ok(()) => {},
                Err(e) => {
                    return Err(e);
                },
            }
            proof {
                assert(tr.facts@ =~= seq![
                    Fact::Is(f, Binding::Free),
                    Fact::Is(x, Binding::Product(f, src@[c as int])),
                    Fact::Same(s, x),
                    Fact::Same(t, tgt@[c as int]),
                ]);
                lemma_sound_unary(g, k as int, tr.u.vars@, tr.facts@, src@, tgt@, f, x);
            }
            Ok(())
        },
        _ => Ok(()),
    }
}

/// Unifies the equations of `pair`.
fn node_pair(tr: &mut Tracker, nodes: &Vec<Node>, k: usize, src: &Vec<usize>, tgt: &Vec<usize>) -> (r:
    Result<(), Error>)
    requires
        ready(*old(tr), nodes@, k as int, src@, tgt@),
        nodes@[k as int] is Pair,
    ensures
        done(*old(tr), *final(tr), nodes@, k as int, src@, tgt@, r),
{
    let ghost g = nodes@;
    assert(g[k as int].refers_below(k as int));
    let s = src[k];
    let t = tgt[k];
    match nodes[k] {
        Node::Pair(l, r) => {
            proof {
                reveal_with_fuel(eval_term, 4);
                reveal_with_fuel(Type::bit_width, 3);
                lemma_small_node(g, k as int);
                lemma_small_by(g, Term::Product(Box::new(Term::Tgt(l as int)), Box::new(Term::Tgt(r as int))), Term::Tgt(k as int), k as int);
            }
            let x = tr.fresh(
                Binding::Product(tgt[l], tgt[r]),
                Ghost(Term::Product(Box::new(Term::Tgt(l as int)), Box::new(Term::Tgt(r as int)))),
                Ghost(g),
            );
            proof {
                reveal_with_fuel(eval_term, 4);
                lemma_agree(g, tr.roles@, s, src@[l as int], k as int, Term::Src(k as int), Term::Src(l as int));
            }
            match tr.unify(s, src[l], Ghost(g)) {
                Ok(()) => {},
                Err(e) => {
                    return Err(e);
                },
            }
            proof {
                reveal_with_fuel(eval_term, 4);
                lemma_agree(g, tr.roles@, s, src@[r as int], k as int, Term::Src(k as int), Term::Src(r as int));
            }
            match tr.unify(s, src[r], Ghost(g)) {
                Ok(()) => {},
                Err(e) => {
                    return Err(e);
                },
            }
            proof {
                reveal_with_fuel(eval_term, 4);
                lemma_agree(g, tr.roles@, t, x, k as int, Term::Tgt(k as int), Term::Product(Box::new(Term::Tgt(l as int)), Box::new(Term::Tgt(r as int))));
            }
            match tr.unify(t, x, Ghost(g)) {
                Ok(()) => {},
                Err(e) => {
                    return Err(e);
                },
            }
            proof {
                assert(tr.facts@ =~= seq![
                    Fact::Is(x, Binding::Product(tgt@[l as int], tgt@[r as int])),
                    Fact::Same(s, src@[l as int]),
                    Fact::Same(s, src@[r as int]),
                    Fact::Same(t, x),
                ]);
                lemma_sound_pair(g, k as int, tr.u.vars@, tr.facts@, src@, tgt@, x);
            }
            Ok(())
        },
        _ => Ok(()),
    }
}

/// The term of the first side of the sum that a `case` node reads.
pub open spec fn case_a(k: int) -> Term {
    Term::First(Box::new(Term::First(Box::new(Term::Src(k)))))
}

/// The term of the second side of the sum that a `case` node reads.
pub open spec fn case_b(k: int) -> Term {
    Term::Second(Box::new(Term::First(Box::new(Term::Src(k)))))
}

/// The term of what a `case` node reads beside the sum.
pub open spec fn case_c(k: int) -> Term {
    Term::Second(Box::new(Term::Src(k)))
}

/// The term of the sum that a `case` node reads.
pub open spec fn case_ab(k: int) -> Term {
    Term::Sum(Box::new(case_a(k)), Box::new(case_b(k)))
}

/// The term of the source type of a `case` node, built from its parts.
pub open spec fn case_x(k: int) -> Term {
    Term::Product(Box::new(case_ab(k)), Box::new(case_c(k)))
}

/// The term of the source type of the first child of a `case` node.
pub open spec fn case_y(k: int) -> Term {
    Term::Product(Box::new(case_a(k)), Box::new(case_c(k)))
}

/// The term of the source type of the second child of a `case` node.
pub open spec fn case_z(k: int) -> Term {
    Term::Product(Box::new(case_b(k)), Box::new(case_c(k)))
}

/// The types around a `case` node are what its terms stand for, in every
/// typing, and none of them is wider than the source type of the node.
proof fn lemma_case_terms(nodes: Seq<Node>, k: int, l: usize, r: usize)
    requires
        0 <= k < nodes.len(),
        nodes[k] == Node::Case(l, r),
    ensures
        forall|ty: Typing| #[trigger]
            node_typed(nodes, ty, k) ==> {
                &&& eval_term(Term::Src(k), ty) == eval_term(case_x(k), ty)
                &&& !(nodes[l as int] is Hidden) ==> eval_term(Term::Src(l as int), ty)
                    == eval_term(case_y(k), ty) && eval_term(Term::Tgt(l as int), ty) == eval_term(
                    Term::Tgt(k),
                    ty,
                )
                &&& !(nodes[r as int] is Hidden) ==> eval_term(Term::Src(r as int), ty)
                    == eval_term(case_z(k), ty) && eval_term(Term::Tgt(r as int), ty) == eval_term(
                    Term::Tgt(k),
                    ty,
                )
            },
        role_small(nodes, case_a(k)),
        role_small(nodes, case_b(k)),
        role_small(nodes, case_c(k)),
        role_small(nodes, case_ab(k)),
        role_small(nodes, case_x(k)),
        role_small(nodes, case_y(k)),
        role_small(nodes, case_z(k)),
{
    reveal_with_fuel(eval_term, 5);
    reveal_with_fuel(Type::bit_width, 3);
    lemma_small_node(nodes, k);
    lemma_small_part(nodes, Term::Src(k));
    lemma_small_part(nodes, Term::First(Box::new(Term::Src(k))));
    lemma_small_by(nodes, case_ab(k), Term::Src(k), k);
    lemma_small_by(nodes, case_x(k), Term::Src(k), k);
    lemma_small_by(nodes, case_y(k), Term::Src(k), k);
    lemma_small_by(nodes, case_z(k), Term::Src(k), k);
}

/// Unifies the equations of `case`.
#[verifier::rlimit(50)]
fn node_case(tr: &mut Tracker, nodes: &Vec<Node>, k: usize, src: &Vec<usize>, tgt: &Vec<usize>) -> (r:
    Result<(), Error>)
    requires
        ready(*old(tr), nodes@, k as int, src@, tgt@),
        nodes@[k as int] is Case,
    ensures
        done(*old(tr), *final(tr), nodes@, k as int, src@, tgt@, r),
{
    let ghost g = nodes@;
    assert(g[k as int].refers_below(k as int));
    let s = src[k];
    let t = tgt[k];
    match nodes[k] {
        Node::Case(l, r) => {
            proof {
                lemma_case_terms(g, k as int, l, r);
            }
            let a = tr.fresh(Binding::Free, Ghost(case_a(k as int)), Ghost(g));
            let b = tr.fresh(Binding::Free, Ghost(case_b(k as int)), Ghost(g));
            let c = tr.fresh(Binding::Free, Ghost(case_c(k as int)), Ghost(g));
            let ab = tr.fresh(Binding::Sum(a, b), Ghost(case_ab(k as int)), Ghost(g));
            let x = tr.fresh(Binding::Product(ab, c), Ghost(case_x(k as int)), Ghost(g));
            let y = tr.fresh(Binding::Product(a, c), Ghost(case_y(k as int)), Ghost(g));
            let z = tr.fresh(Binding::Product(b, c), Ghost(case_z(k as int)), Ghost(g));
            let left = !is_hidden(&nodes[l]);
            let right = !is_hidden(&nodes[r]);
            let sl = src[l];
            let tl = tgt[l];
            let sr = src[r];
            let tr_ = tgt[r];
            proof {
                lemma_agree(g, tr.roles@, s, x, k as int, Term::Src(k as int), case_x(k as int));
            }
            match tr.unify(s, x, Ghost(g)) {
                Ok(()) => {},
                Err(e) => {
                    return Err(e);
                },
            }
            if left {
                proof {
                    lemma_agree(
                        g,
                        tr.roles@,
                        sl,
                        y,
                        k as int,
                        Term::Src(l as int),
                        case_y(k as int),
                    );
                }
                match tr.unify(sl, y, Ghost(g)) {
                    Ok(()) => {},
                    Err(e) => {
                        return Err(e);
                    },
                }
                proof {
                    lemma_agree(
                        g,
                        tr.roles@,
                        tl,
                        t,
                        k as int,
                        Term::Tgt(l as int),
                        Term::Tgt(k as int),
                    );
                }
                match tr.unify(tl, t, Ghost(g)) {
                    Ok(()) => {},
                    Err(e) => {
                        return Err(e);
                    },
                }
            }
            if right {
                proof {
                    lemma_agree(
                        g,
                        tr.roles@,
                        sr,
                        z,
                        k as int,
                        Term::Src(r as int),
                        case_z(k as int),
                    );
                }
                match tr.unify(sr, z, Ghost(g)) {
                    Ok(()) => {},
                    Err(e) => {
                        return Err(e);
                    },
                }
                proof {
                    lemma_agree(
                        g,
                        tr.roles@,
                        tr_,
                        t,
                        k as int,
                        Term::Tgt(r as int),
                        Term::Tgt(k as int),
                    );
                }
                match tr.unify(tr_, t, Ghost(g)) {
                    Ok(()) => {},
                    Err(e) => {
                        return Err(e);
                    },
                }
            }
            proof {
                assert(tr.facts@ =~= case_facts(s, t, sl, tl, sr, tr_, a as int, left, right));
                lemma_sound_case(g, k as int, tr.u.vars@, tr.facts@, src@, tgt@, a as int);
            }
            Ok(())
        },
        _ => Ok(()),
    }
}

/// Unifies the equations of `disconnect`.
fn node_disconnect(
    tr: &mut Tracker,
    nodes: &Vec<Node>,
    k: usize,
    src: &Vec<usize>,
    tgt: &Vec<usize>,
) -> (r: Result<(), Error>)
    requires
        ready(*old(tr), nodes@, k as int, src@, tgt@),
        nodes@[k as int] is Disconnect,
    ensures
        done(*old(tr), *final(tr), nodes@, k as int, src@, tgt@, r),
{
    let ghost g = nodes@;
    assert(g[k as int].refers_below(k as int));
    let s = src[k];
    let t = tgt[k];
    match nodes[k] {
        Node::Disconnect(l, r) => {
            let word = word_type(8);
            let ghost r0 = tr.roles@;
            proof {
                crate::bit_machine::lemma_word_width(8);
                vstd::arithmetic::power2::lemma2_to64();
            }
            let w = tr.type_var(&word, Ghost(g));
            let ghost rw = term_of(Type::word(8));
            proof {
                assert forall|j: int| 0 <= j < r0.len() implies tr.roles@[j] == r0[j] by {
                    assert(tr.roles@.take(r0.len() as int)[j] == r0[j]);
                }
            }
            proof {
                reveal_with_fuel(eval_term, 3);
                lemma_small_node(g, k as int);
                lemma_small_node(g, l as int);
                lemma_small_part(g, Term::Tgt(l as int));
                assert forall|ty: Typing| #[trigger] node_typed(g, ty, k as int) implies eval_term(
                    Term::Product(Box::new(rw), Box::new(Term::Src(k as int))),
                    ty,
                ).bit_width() <= eval_term(Term::Src(l as int), ty).bit_width() by {
                    lemma_term_of(Type::word(8), ty);
                }
                lemma_small_by(
                    g,
                    Term::Product(Box::new(rw), Box::new(Term::Src(k as int))),
                    Term::Src(l as int),
                    k as int,
                );
                lemma_small_by(
                    g,
                    Term::Product(
                        Box::new(Term::First(Box::new(Term::Tgt(l as int)))),
                        Box::new(Term::Second(Box::new(Term::Tgt(l as int)))),
                    ),
                    Term::Tgt(l as int),
                    k as int,
                );
                lemma_small_by(
                    g,
                    Term::Product(
                        Box::new(Term::First(Box::new(Term::Tgt(l as int)))),
                        Box::new(Term::Tgt(r as int)),
                    ),
                    Term::Tgt(k as int),
                    k as int,
                );
            }
            let x = tr.fresh(
                Binding::Product(w, s),
                Ghost(Term::Product(Box::new(rw), Box::new(Term::Src(k as int)))),
                Ghost(g),
            );
            let ghost rb = Term::First(Box::new(Term::Tgt(l as int)));
            let ghost rc = Term::Second(Box::new(Term::Tgt(l as int)));
            let b = tr.fresh(Binding::Free, Ghost(rb), Ghost(g));
            let c = tr.fresh(Binding::Free, Ghost(rc), Ghost(g));
            let y = tr.fresh(
                Binding::Product(b, c),
                Ghost(Term::Product(Box::new(rb), Box::new(rc))),
                Ghost(g),
            );
            let z = tr.fresh(
                Binding::Product(b, tgt[r]),
                Ghost(Term::Product(Box::new(rb), Box::new(Term::Tgt(r as int)))),
                Ghost(g),
            );
            proof {
                assert forall|ty: Typing| #[trigger] node_typed(g, ty, k as int) implies eval_term(
                    Term::Src(l as int),
                    ty,
                ) == eval_term(
                    Term::Product(Box::new(rw), Box::new(Term::Src(k as int))),
                    ty,
                ) by {
                    reveal_with_fuel(eval_term, 3);
                    lemma_term_of(Type::word(8), ty);
                }
            }
            proof {
                reveal_with_fuel(eval_term, 2);
                lemma_agree(g, tr.roles@, src@[l as int], x, k as int, Term::Src(l as int), Term::Product(Box::new(rw), Box::new(Term::Src(k as int))));
            }
            match tr.unify(src[l], x, Ghost(g)) {
                Ok(()) => {},
                Err(e) => {
                    return Err(e);
                },
            }
            proof {
                reveal_with_fuel(eval_term, 4);
                lemma_agree(g, tr.roles@, tgt@[l as int], y, k as int, Term::Tgt(l as int), Term::Product(Box::new(rb), Box::new(rc)));
            }
            match tr.unify(tgt[l], y, Ghost(g)) {
                Ok(()) => {},
                Err(e) => {
                    return Err(e);
                },
            }
            proof {
                reveal_with_fuel(eval_term, 4);
                lemma_agree(g, tr.roles@, src@[r as int], c, k as int, Term::Src(r as int), rc);
            }
            match tr.unify(src[r], c, Ghost(g)) {
                Ok(()) => {},
                Err(e) => {
                    return Err(e);
                },
            }
            proof {
                reveal_with_fuel(eval_term, 4);
                lemma_agree(g, tr.roles@, t, z, k as int, Term::Tgt(k as int), Term::Product(Box::new(rb), Box::new(Term::Tgt(r as int))));
            }
            match tr.unify(t, z, Ghost(g)) {
                Ok(()) => {},
                Err(e) => {
                    return Err(e);
                },
            }
            proof {
                assert(tr.facts@ =~= seq![
                    Fact::Const(w, Type::word(8)),
                    Fact::Is(x, Binding::Product(w, s)),
                    Fact::Is(b, Binding::Free),
                    Fact::Is(c, Binding::Free),
                    Fact::Is(y, Binding::Product(b, c)),
                    Fact::Is(z, Binding::Product(b, tgt@[r as int])),
                    Fact::Same(src@[l as int], x),
                    Fact::Same(tgt@[l as int], y),
                    Fact::Same(src@[r as int], c),
                    Fact::Same(t, z),
                ]);
                lemma_sound_disconnect(
                    g,
                    k as int,
                    tr.u.vars@,
                    tr.facts@,
                    src@,
                    tgt@,
                    w,
                    x,
                    b,
                    c,
                    y,
                    z,
                );
            }
            Ok(())
        },
        _ => Ok(()),
    }
}

/// Unifies the equations of a jet. A number without a jet has no typing.
fn node_jet(tr: &mut Tracker, nodes: &Vec<Node>, k: usize, src: &Vec<usize>, tgt: &Vec<usize>) -> (r:
    Result<(), Error>)
    requires
        ready(*old(tr), nodes@, k as int, src@, tgt@),
        nodes@[k as int] is Jet,
    ensures
        done(*old(tr), *final(tr), nodes@, k as int, src@, tgt@, r),
{
    let ghost g = nodes@;
    assert(g[k as int].refers_below(k as int));
    let s = src[k];
    let t = tgt[k];
    match nodes[k] {
        Node::Jet(id) => match lookup(id) {
            Some((st, tt)) => {
                    let ghost r0 = tr.roles@;
                    proof {
                    crate::jet::lemma_signature_small(id);
                }
                let x = tr.type_var(&st, Ghost(g));
                    let ghost r1 = tr.roles@;
                    let y = tr.type_var(&tt, Ghost(g));
                proof {
                    assert forall|j: int| 0 <= j < r1.len() implies tr.roles@[j] == r1[j] by {
                        assert(tr.roles@.take(r1.len() as int)[j] == r1[j]);
                    }
                    assert forall|j: int| 0 <= j < r0.len() implies r1[j] == r0[j] by {
                        assert(r1.take(r0.len() as int)[j] == r0[j]);
                    }
                    assert forall|ty: Typing| #[trigger] node_typed(g, ty, k as int) implies eval_term(
                        Term::Src(k as int),
                        ty,
                    ) == eval_term(term_of(st), ty) && eval_term(Term::Tgt(k as int), ty)
                        == eval_term(term_of(tt), ty) by {
                        lemma_term_of(st, ty);
                        lemma_term_of(tt, ty);
                    }
                }
                proof {
                    reveal_with_fuel(eval_term, 2);
                    lemma_agree(g, tr.roles@, s, x, k as int, Term::Src(k as int), term_of(st));
                }
                match tr.unify(s, x, Ghost(g)) {
                    Ok(()) => {},
                    Err(e) => {
                        return Err(e);
                    },
                }
                proof {
                    reveal_with_fuel(eval_term, 2);
                    lemma_agree(g, tr.roles@, t, y, k as int, Term::Tgt(k as int), term_of(tt));
                }
                match tr.unify(t, y, Ghost(g)) {
                    Ok(()) => {},
                    Err(e) => {
                        return Err(e);
                    },
                }
                proof {
                    assert(tr.facts@ =~= seq![
                        Fact::Const(x, st),
                        Fact::Const(y, tt),
                        Fact::Same(s, x),
                        Fact::Same(t, y),
                    ]);
                    lemma_sound_jet(g, k as int, tr.u.vars@, tr.facts@, src@, tgt@, x, y, st, tt);
                }
                Ok(())
            },
            None => {
                proof {
                    assert forall|ty: Typing| !#[trigger] well_typed(g, ty) by {
                        if well_typed(g, ty) {
                            assert(node_typed(g, ty, k as int));
                        }
                    }
                }
                Err(Error::ParseError("jet"))
            },
        },
        _ => Ok(()),
    }
}

/// One more node is done: the rules of the nodes up to it hold in every solution.
proof fn lemma_node_done(
    nodes: Seq<Node>,
    k: int,
    before: Seq<Binding>,
    vars: Seq<Binding>,
    src: Seq<usize>,
    tgt: Seq<usize>,
)
    requires
        sound_upto(nodes, k, before, src, tgt),
        later(vars, before),
        sound_at(nodes, k, vars, src, tgt),
    ensures
        sound_upto(nodes, k + 1, vars, src, tgt),
{
    reveal(sound_upto);
    reveal(later);
    assert forall|j: int| 0 <= j < k + 1 implies #[trigger] sound_at(nodes, j, vars, src, tgt) by {
        if j < k {
            assert(sound_at(nodes, j, before, src, tgt));
            reveal(sound_at);
        }
    }
}

/// Gives every node a variable for its source and one for its target type,
/// and unifies the equations of every node, in the order of the sequence.
/// Where that fails, the program has no typing.
pub fn unify_nodes(nodes: &Vec<Node>) -> (r: Result<(Tracker, Vec<usize>, Vec<usize>), Error>)
    requires
        acyclic(nodes@),
    ensures
        match r {
            Ok((tr, src, tgt)) => {
                &&& tr.inv(nodes@)
                &&& src.len() == nodes.len()
                &&& roles_ok(tr.roles@, src@, tgt@)
                &&& sound_upto(nodes@, nodes.len() as int, tr.u.vars@, src@, tgt@)
            },
            Err(e) => (e == Error::TypeCheck || e == Error::ParseError("jet")) && untypable(
                nodes@,
            ),
        },
{
    let ghost g = nodes@;
    let mut tr = Tracker::new(Ghost(g));
    let mut src: Vec<usize> = Vec::with_capacity(nodes.len());
    let mut tgt: Vec<usize> = Vec::with_capacity(nodes.len());
    let mut k: usize = 0;
    while k < nodes.len()
        invariant
            g == nodes@,
            tr.inv(g),
            k <= nodes.len(),
            src.len() == k,
            tgt.len() == k,
            roles_ok(tr.roles@, src@, tgt@),
        decreases nodes.len() - k,
    {
        let ghost r0 = tr.roles@;
        proof {
            lemma_small_node(g, k as int);
        }
        let s = tr.fresh(Binding::Free, Ghost(Term::Src(k as int)), Ghost(g));
        let t = tr.fresh(Binding::Free, Ghost(Term::Tgt(k as int)), Ghost(g));
        src.push(s);
        tgt.push(t);
        k = k + 1;
    }
    let mut k: usize = 0;
    proof {
        reveal(sound_upto);
    }
    while k < nodes.len()
        invariant
            g == nodes@,
            acyclic(g),
            tr.inv(g),
            k <= nodes.len(),
            src.len() == nodes.len(),
            roles_ok(tr.roles@, src@, tgt@),
            sound_upto(g, k as int, tr.u.vars@, src@, tgt@),
        decreases nodes.len() - k,
    {
        tr.mark(Ghost(g));
        let ghost before = tr.u.vars@;
        let outcome = match nodes[k] {
            Node::Iden | Node::Unit | Node::Comp(_, _) => node_plain(&mut tr, nodes, k, &src, &tgt),
            Node::InjL(_) => node_injl(&mut tr, nodes, k, &src, &tgt),
            Node::InjR(_) => node_injr(&mut tr, nodes, k, &src, &tgt),
            Node::Take(_) => node_take(&mut tr, nodes, k, &src, &tgt),
            Node::Drop(_) => node_drop(&mut tr, nodes, k, &src, &tgt),
            Node::Pair(_, _) => node_pair(&mut tr, nodes, k, &src, &tgt),
            Node::Case(_, _) => node_case(&mut tr, nodes, k, &src, &tgt),
            Node::Disconnect(_, _) => node_disconnect(&mut tr, nodes, k, &src, &tgt),
            Node::Jet(_) => node_jet(&mut tr, nodes, k, &src, &tgt),
            Node::Witness | Node::Hidden(_) => {
                proof {
                    lemma_sound_none(g, k as int, tr.u.vars@, src@, tgt@);
                }
                Ok(())
            },
        };
        match outcome {
            Ok(()) => {},
            Err(e) => {
                return Err(e);
            },
        }
        proof {
            lemma_node_done(g, k as int, before, tr.u.vars@, src@, tgt@);
        }
        k = k + 1;
    }
    Ok((tr, src, tgt))
}

/// A rule that holds of the types of a typing is the typing rule of the node.
pub proof fn lemma_rule_typed(nodes: Seq<Node>, ty: Typing, k: int, s: Seq<Type>, t: Seq<Type>)
    requires
        0 <= k < nodes.len(),
        nodes[k].refers_below(k),
        s.len() == nodes.len(),
        t.len() == nodes.len(),
        forall|j: int| 0 <= j < nodes.len() ==> s[j] == ty.source_type(j),
        forall|j: int| 0 <= j < nodes.len() ==> t[j] == ty.target_type(j),
        rule(nodes, k, s, t),
    ensures
        node_typed(nodes, ty, k),
{
}

} // verus!
