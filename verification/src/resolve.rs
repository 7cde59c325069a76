//! Resolving the type variables to finite types, once all equations are
//! unified.
//!
//! A variable that stands for itself is resolved when the parts of its type
//! are; a free variable is resolved to the unit type. This goes on until
//! nothing more can be resolved. What is then left unresolved is part of its
//! own type, and there is no solution.

use vstd::prelude::*;
use crate::error::Error;
use crate::inference::{
    Binding, Unifier, binding_holds, binding_ok, lemma_root, lemma_root_type, root, satisfies,
};
use crate::types::{Type, TypeArena, TypeNode, lemma_tree_prefix, tree};

verus! {

/// The entry of a resolved variable fits what is known of the variable:
/// only a variable that stands for itself is resolved, and the parts of its
/// entry are the entries of the parts of its type.
pub open spec fn entry_ok(
    vars: Seq<Binding>,
    resolved: Seq<Option<usize>>,
    nodes: Seq<TypeNode>,
    v: int,
) -> bool {
    resolved[v] matches Some(i) ==> {
        &&& i < nodes.len()
        &&& match vars[v] {
            Binding::Link(_) => false,
            Binding::Free => nodes[i as int] == TypeNode::Unit,
            Binding::Unit => nodes[i as int] == TypeNode::Unit,
            Binding::Sum(x, y) => {
                &&& nodes[i as int] matches TypeNode::Sum(ia, ib)
                &&& resolved[root(vars, x as int)] == Some(ia)
                &&& resolved[root(vars, y as int)] == Some(ib)
            },
            Binding::Product(x, y) => {
                &&& nodes[i as int] matches TypeNode::Product(ia, ib)
                &&& resolved[root(vars, x as int)] == Some(ia)
                &&& resolved[root(vars, y as int)] == Some(ib)
            },
        }
    }
}

/// Every entry fits.
#[verifier::opaque]
pub open spec fn consistent(
    vars: Seq<Binding>,
    resolved: Seq<Option<usize>>,
    nodes: Seq<TypeNode>,
) -> bool {
    &&& resolved.len() == vars.len()
    &&& forall|v: int| 0 <= v < vars.len() ==> entry_ok(vars, resolved, nodes, v)
}

/// The variable that stands for `v` cannot be resolved yet: it is built of
/// parts of which one is not resolved.
pub open spec fn stuck_at(vars: Seq<Binding>, resolved: Seq<Option<usize>>, v: int) -> bool {
    let r = root(vars, v);
    resolved[r] is None ==> match vars[r] {
        Binding::Sum(x, y) | Binding::Product(x, y) => resolved[root(vars, x as int)] is None
            || resolved[root(vars, y as int)] is None,
        _ => false,
    }
}

/// Nothing more can be resolved.
#[verifier::opaque]
pub open spec fn stuck(vars: Seq<Binding>, resolved: Seq<Option<usize>>) -> bool {
    forall|v: int| 0 <= v < vars.len() ==> stuck_at(vars, resolved, v)
}

/// The number of variables among the first `n` that are not resolved.
pub open spec fn unresolved(resolved: Seq<Option<usize>>, n: nat) -> nat
    decreases n,
{
    if n == 0 || n > resolved.len() {
        0
    } else {
        unresolved(resolved, (n - 1) as nat) + if resolved[n - 1] is None {
            1nat
        } else {
            0nat
        }
    }
}

/// Resolving a variable leaves one less unresolved.
proof fn lemma_unresolved_update(resolved: Seq<Option<usize>>, r: int, i: usize, n: nat)
    requires
        0 <= r < resolved.len(),
        resolved[r] is None,
        n <= resolved.len(),
    ensures
        unresolved(resolved.update(r, Some(i)), n) + (if r < n {
            1nat
        } else {
            0nat
        }) == unresolved(resolved, n),
    decreases n,
{
    if n > 0 {
        lemma_unresolved_update(resolved, r, i, (n - 1) as nat);
    }
}

/// The types that the resolved variables have.
pub open spec fn solution(
    vars: Seq<Binding>,
    resolved: Seq<Option<usize>>,
    nodes: Seq<TypeNode>,
) -> spec_fn(int) -> Type {
    |v: int|
        if 0 <= v < vars.len() {
            match resolved[root(vars, v)] {
                Some(i) => tree(nodes, i as int),
                None => Type::Unit,
            }
        } else {
            Type::Unit
        }
}

/// Where every variable is resolved, the types of the variables are a solution.
pub proof fn lemma_solution(u: Unifier, resolved: Seq<Option<usize>>, arena: TypeArena)
    requires
        u.wf(),
        arena.wf(),
        consistent(u.vars@, resolved, arena.nodes@),
        forall|v: int| 0 <= v < u.vars.len() ==> (#[trigger] resolved[v]) is Some || u.vars[v] is Link,
    ensures
        satisfies(u.vars@, solution(u.vars@, resolved, arena.nodes@)),
{
    reveal(consistent);
    let vars = u.vars@;
    let th = solution(vars, resolved, arena.nodes@);
    assert forall|v: int| 0 <= v < vars.len() implies binding_holds(#[trigger] vars[v], v, th) by {
        assert(binding_ok(vars[v], v, vars.len() as int));
        lemma_root(vars, v);
        match vars[v] {
            Binding::Free => {},
            Binding::Link(p) => {
                lemma_root(vars, p as int);
            },
            Binding::Unit => {
                assert(entry_ok(vars, resolved, arena.nodes@, v));
                assert(resolved[v] is Some);
            },
            Binding::Sum(x, y) | Binding::Product(x, y) => {
                assert(entry_ok(vars, resolved, arena.nodes@, v));
                assert(resolved[v] is Some);
                let i = resolved[v]->Some_0;
                arena.lemma_shape(i as int);
                lemma_root(vars, x as int);
                lemma_root(vars, y as int);
            },
        }
    }
}

/// Where nothing more can be resolved and a variable is left that stands
/// for itself, there is no solution: the type of that variable would have
/// a part that is as large as itself.
pub proof fn lemma_no_solution(
    vars: Seq<Binding>,
    resolved: Seq<Option<usize>>,
    th: spec_fn(int) -> Type,
    r: int,
)
    requires
        forall|i: int| 0 <= i < vars.len() ==> binding_ok(#[trigger] vars[i], i, vars.len() as int),
        resolved.len() == vars.len(),
        stuck(vars, resolved),
        0 <= r < vars.len(),
        root(vars, r) == r,
        resolved[r] is None,
    ensures
        !satisfies(vars, th),
    decreases th(r).size(),
{
    if satisfies(vars, th) {
        reveal(stuck);
        assert(stuck_at(vars, resolved, r));
        assert(binding_ok(vars[r], r, vars.len() as int));
        assert(binding_holds(vars[r], r, th));
        match vars[r] {
            Binding::Sum(x, y) | Binding::Product(x, y) => {
                lemma_root(vars, x as int);
                lemma_root(vars, y as int);
                lemma_root_type(vars, x as int, th);
                lemma_root_type(vars, y as int, th);
                if resolved[root(vars, x as int)] is None {
                    lemma_no_solution(vars, resolved, th, root(vars, x as int));
                } else {
                    lemma_no_solution(vars, resolved, th, root(vars, y as int));
                }
            },
            _ => {},
        }
    }
}

/// The width of the entry of a resolved variable.
pub open spec fn tree_width(nodes: Seq<TypeNode>, resolved: Seq<Option<usize>>, v: int) -> nat {
    tree(nodes, resolved[v]->Some_0 as int).bit_width()
}

/// In no solution is a resolved variable narrower than its entry.
#[verifier::opaque]
pub open spec fn minimal(
    vars: Seq<Binding>,
    resolved: Seq<Option<usize>>,
    nodes: Seq<TypeNode>,
) -> bool {
    forall|th: spec_fn(int) -> Type, v: int|
        #![trigger satisfies(vars, th), resolved[v]]
        satisfies(vars, th) && 0 <= v < vars.len() && resolved[v] is Some ==> tree_width(
            nodes,
            resolved,
            v,
        ) <= th(v).bit_width()
}

/// In every solution, some variable is wider than 32 bits can count.
#[verifier::opaque]
pub open spec fn too_wide(vars: Seq<Binding>) -> bool {
    forall|th: spec_fn(int) -> Type|
        #[trigger] satisfies(vars, th) ==> exists|v: int|
            0 <= v < vars.len() && (#[trigger] th(v)).bit_width() > u32::MAX
}

/// The width that an entry for variable `r` would have is a lower bound of
/// the width of `r` in every solution.
proof fn lemma_width_bound(
    u: Unifier,
    resolved: Seq<Option<usize>>,
    arena: TypeArena,
    r: int,
    node: TypeNode,
    th: spec_fn(int) -> Type,
)
    requires
        u.wf(),
        arena.wf(),
        resolved.len() == u.vars.len(),
        minimal(u.vars@, resolved, arena.nodes@),
        satisfies(u.vars@, th),
        0 <= r < u.vars.len(),
        node.parts_below(arena.nodes.len() as int),
        match u.vars[r] {
            Binding::Link(_) => false,
            Binding::Free => node == TypeNode::Unit,
            Binding::Unit => node == TypeNode::Unit,
            Binding::Sum(x, y) => {
                &&& node matches TypeNode::Sum(ia, ib)
                &&& resolved[root(u.vars@, x as int)] == Some(ia)
                &&& resolved[root(u.vars@, y as int)] == Some(ib)
            },
            Binding::Product(x, y) => {
                &&& node matches TypeNode::Product(ia, ib)
                &&& resolved[root(u.vars@, x as int)] == Some(ia)
                &&& resolved[root(u.vars@, y as int)] == Some(ib)
            },
        },
    ensures
        arena.width_of(node) <= th(r).bit_width(),
{
    reveal(minimal);
    let vars = u.vars@;
    assert(binding_ok(vars[r], r, vars.len() as int));
    assert(binding_holds(vars[r], r, th));
    match vars[r] {
        Binding::Sum(x, y) | Binding::Product(x, y) => {
            lemma_root(vars, x as int);
            lemma_root(vars, y as int);
            lemma_root_type(vars, x as int, th);
            lemma_root_type(vars, y as int, th);
            let rx = root(vars, x as int);
            let ry = root(vars, y as int);
            let ia = resolved[rx]->Some_0;
            let ib = resolved[ry]->Some_0;
            assert(tree(arena.nodes@, ia as int).bit_width() <= th(rx).bit_width());
            assert(tree(arena.nodes@, ib as int).bit_width() <= th(ry).bit_width());
            arena.lemma_shape(ia as int);
            arena.lemma_shape(ib as int);
        },
        _ => {},
    }
}

/// An entry that is added for a variable is not wider than the variable
/// is in any solution.
proof fn lemma_minimal(
    u: Unifier,
    resolved: Seq<Option<usize>>,
    old_arena: TypeArena,
    arena: TypeArena,
    r: int,
    i: usize,
    node: TypeNode,
)
    requires
        u.wf(),
        old_arena.wf(),
        arena.wf(),
        arena.extends(&old_arena),
        resolved.len() == u.vars.len(),
        consistent(u.vars@, resolved, old_arena.nodes@),
        minimal(u.vars@, resolved, old_arena.nodes@),
        0 <= r < u.vars.len(),
        resolved[r] is None,
        i < arena.nodes.len(),
        arena.nodes[i as int] == node,
        old_arena.width_of(node) <= u32::MAX,
        node.parts_below(old_arena.nodes.len() as int),
        match u.vars[r] {
            Binding::Link(_) => false,
            Binding::Free => node == TypeNode::Unit,
            Binding::Unit => node == TypeNode::Unit,
            Binding::Sum(x, y) => {
                &&& node matches TypeNode::Sum(ia, ib)
                &&& resolved[root(u.vars@, x as int)] == Some(ia)
                &&& resolved[root(u.vars@, y as int)] == Some(ib)
            },
            Binding::Product(x, y) => {
                &&& node matches TypeNode::Product(ia, ib)
                &&& resolved[root(u.vars@, x as int)] == Some(ia)
                &&& resolved[root(u.vars@, y as int)] == Some(ib)
            },
        },
    ensures
        minimal(u.vars@, resolved.update(r, Some(i)), arena.nodes@),
{
    let vars = u.vars@;
    let res2 = resolved.update(r, Some(i));
    assert forall|th: spec_fn(int) -> Type, v: int|
        #![trigger satisfies(vars, th), res2[v]]
        satisfies(vars, th) && 0 <= v < vars.len() && res2[v] is Some implies tree(
        arena.nodes@,
        res2[v]->Some_0 as int,
    ).bit_width() <= th(v).bit_width() by {
        if v == r {
            lemma_width_bound(u, resolved, old_arena, r, node, th);
            arena.lemma_shape(i as int);
            match node {
                TypeNode::Sum(ia, ib) | TypeNode::Product(ia, ib) => {
                    old_arena.lemma_shape(ia as int);
                    old_arena.lemma_shape(ib as int);
                    arena.lemma_shape(ia as int);
                    arena.lemma_shape(ib as int);
                    arena.lemma_extends(&old_arena, ia as int);
                    arena.lemma_extends(&old_arena, ib as int);
                },
                _ => {},
            }
        } else {
            reveal(minimal);
            reveal(consistent);
            assert(entry_ok(vars, resolved, old_arena.nodes@, v));
            let j = resolved[v]->Some_0;
            arena.lemma_extends(&old_arena, j as int);
            assert(tree(old_arena.nodes@, j as int).bit_width() <= th(v).bit_width());
        }
    }
    reveal(minimal);
}

/// Where the entry of a variable would be wider than 32 bits can count,
/// the variable is that wide in every solution.
proof fn lemma_too_wide(
    u: Unifier,
    resolved: Seq<Option<usize>>,
    arena: TypeArena,
    r: int,
    node: TypeNode,
)
    requires
        u.wf(),
        arena.wf(),
        resolved.len() == u.vars.len(),
        minimal(u.vars@, resolved, arena.nodes@),
        0 <= r < u.vars.len(),
        node.parts_below(arena.nodes.len() as int),
        arena.width_of(node) > u32::MAX,
        match u.vars[r] {
            Binding::Link(_) => false,
            Binding::Free => node == TypeNode::Unit,
            Binding::Unit => node == TypeNode::Unit,
            Binding::Sum(x, y) => {
                &&& node matches TypeNode::Sum(ia, ib)
                &&& resolved[root(u.vars@, x as int)] == Some(ia)
                &&& resolved[root(u.vars@, y as int)] == Some(ib)
            },
            Binding::Product(x, y) => {
                &&& node matches TypeNode::Product(ia, ib)
                &&& resolved[root(u.vars@, x as int)] == Some(ia)
                &&& resolved[root(u.vars@, y as int)] == Some(ib)
            },
        },
    ensures
        too_wide(u.vars@),
{
    reveal(too_wide);
    assert forall|th: spec_fn(int) -> Type| #[trigger] satisfies(u.vars@, th) implies exists|
        v: int,
    |
        0 <= v < u.vars.len() && (#[trigger] th(v)).bit_width() > u32::MAX by {
        lemma_width_bound(u, resolved, arena, r, node, th);
        assert(th(r).bit_width() > u32::MAX);
    }
}

/// An entry that is added for a variable keeps the entries fitting.
proof fn lemma_resolved(
    vars: Seq<Binding>,
    resolved: Seq<Option<usize>>,
    old_nodes: Seq<TypeNode>,
    nodes: Seq<TypeNode>,
    r: int,
    i: usize,
)
    requires
        forall|j: int| 0 <= j < vars.len() ==> binding_ok(#[trigger] vars[j], j, vars.len() as int),
        consistent(vars, resolved, old_nodes),
        0 <= r < vars.len(),
        resolved[r] is None,
        old_nodes.len() <= nodes.len(),
        forall|j: int| 0 <= j < old_nodes.len() ==> nodes[j] == old_nodes[j],
        i < nodes.len(),
        match vars[r] {
            Binding::Link(_) => false,
            Binding::Free => nodes[i as int] == TypeNode::Unit,
            Binding::Unit => nodes[i as int] == TypeNode::Unit,
            Binding::Sum(x, y) => {
                &&& nodes[i as int] matches TypeNode::Sum(ia, ib)
                &&& resolved[root(vars, x as int)] == Some(ia)
                &&& resolved[root(vars, y as int)] == Some(ib)
            },
            Binding::Product(x, y) => {
                &&& nodes[i as int] matches TypeNode::Product(ia, ib)
                &&& resolved[root(vars, x as int)] == Some(ia)
                &&& resolved[root(vars, y as int)] == Some(ib)
            },
        },
    ensures
        consistent(vars, resolved.update(r, Some(i)), nodes),
{
    reveal(consistent);
    let res2 = resolved.update(r, Some(i));
    assert forall|v: int| 0 <= v < vars.len() implies entry_ok(vars, res2, nodes, v) by {
        assert(binding_ok(vars[v], v, vars.len() as int));
        match vars[v] {
            Binding::Sum(x, y) | Binding::Product(x, y) => {
                lemma_root(vars, x as int);
                lemma_root(vars, y as int);
            },
            _ => {},
        }
        if v != r {
            assert(entry_ok(vars, resolved, old_nodes, v));
        }
    }
}

/// Resolves the variables to entries of an arena.
///
/// What comes back fits what is known of the variables, and nothing more
/// can be resolved.
pub fn resolve(u: &Unifier, arena: &mut TypeArena) -> (r: Result<Vec<Option<usize>>, Error>)
    requires
        u.wf(),
        old(arena).wf(),
    ensures
        final(arena).wf(),
        match r {
            Ok(resolved) => {
                &&& consistent(u.vars@, resolved@, final(arena).nodes@)
                &&& minimal(u.vars@, resolved@, final(arena).nodes@)
                &&& stuck(u.vars@, resolved@)
            },
            Err(e) => e == Error::NaturalOverflow && too_wide(u.vars@),
        },
{
    let n = u.vars.len();
    let mut resolved: Vec<Option<usize>> = Vec::with_capacity(n);
    while resolved.len() < n
        invariant
            resolved.len() <= n,
            forall|v: int| 0 <= v < resolved.len() ==> (#[trigger] resolved[v]) is None,
        decreases n - resolved.len(),
    {
        resolved.push(None);
    }
    proof {
        reveal(consistent);
        reveal(minimal);
    }
    let mut progress = true;
    while progress
        invariant
            u.wf(),
            arena.wf(),
            n == u.vars.len(),
            resolved.len() == n,
            consistent(u.vars@, resolved@, arena.nodes@),
            minimal(u.vars@, resolved@, arena.nodes@),
            !progress ==> stuck(u.vars@, resolved@),
        decreases
            unresolved(resolved@, n as nat) + if progress {
                1nat
            } else {
                0nat
            },
    {
        progress = false;
        let ghost at_start = resolved@;
        let mut v: usize = 0;
        while v < n
            invariant
                u.wf(),
                arena.wf(),
                n == u.vars.len(),
                resolved.len() == n,
                v <= n,
                consistent(u.vars@, resolved@, arena.nodes@),
                minimal(u.vars@, resolved@, arena.nodes@),
                unresolved(resolved@, n as nat) <= unresolved(at_start, n as nat),
                progress ==> unresolved(resolved@, n as nat) < unresolved(at_start, n as nat),
                !progress ==> resolved@ == at_start,
                !progress ==> forall|w: int| 0 <= w < v ==> stuck_at(u.vars@, resolved@, w),
            decreases n - v,
        {
            let root = u.find(v);
            proof {
                lemma_root(u.vars@, v as int);
                reveal(consistent);
                assert(binding_ok(u.vars@[root as int], root as int, n as int));
            }
            if resolved[root].is_none() {
                let entry: Option<TypeNode> = match u.vars[root] {
                    Binding::Free => Some(TypeNode::Unit),
                    Binding::Unit => Some(TypeNode::Unit),
                    Binding::Sum(a, b) => {
                        let ra = u.find(a);
                        let rb = u.find(b);
                        proof {
                            assert(entry_ok(u.vars@, resolved@, arena.nodes@, ra as int));
                            assert(entry_ok(u.vars@, resolved@, arena.nodes@, rb as int));
                        }
                        match (resolved[ra], resolved[rb]) {
                            (Some(ia), Some(ib)) => Some(TypeNode::Sum(ia, ib)),
                            _ => None,
                        }
                    },
                    Binding::Product(a, b) => {
                        let ra = u.find(a);
                        let rb = u.find(b);
                        proof {
                            assert(entry_ok(u.vars@, resolved@, arena.nodes@, ra as int));
                            assert(entry_ok(u.vars@, resolved@, arena.nodes@, rb as int));
                        }
                        match (resolved[ra], resolved[rb]) {
                            (Some(ia), Some(ib)) => Some(TypeNode::Product(ia, ib)),
                            _ => None,
                        }
                    },
                    Binding::Link(_) => None,
                };
                match entry {
                    Some(node) => {
                        let ghost old_nodes = arena.nodes@;
                        let ghost old_resolved = resolved@;
                        let ghost old_arena = *arena;
                        match arena.intern(node) {
                            Ok(i) => {
                                resolved[root] = Some(i);
                                progress = true;
                                proof {
                                    lemma_minimal(
                                        *u,
                                        old_resolved,
                                        old_arena,
                                        *arena,
                                        root as int,
                                        i,
                                        node,
                                    );
                                    lemma_resolved(
                                        u.vars@,
                                        old_resolved,
                                        old_nodes,
                                        arena.nodes@,
                                        root as int,
                                        i,
                                    );
                                    lemma_unresolved_update(old_resolved, root as int, i, n as nat);
                                }
                            },
                            Err(e) => {
                                proof {
                                    lemma_too_wide(*u, old_resolved, old_arena, root as int, node);
                                }
                                return Err(e);
                            },
                        }
                    },
                    None => {},
                }
            }
            v = v + 1;
        }
        proof {
            if !progress {
                reveal(stuck);
            }
        }
    }
    Ok(resolved)
}

} // verus!
