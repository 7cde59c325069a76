//! Type inference: every node gets a source and a target type, by unifying
//! the equations that its combinator imposes.
//!
//! Type variables are kept in a union-find structure in which a variable
//! is only ever linked to one with a smaller index. Unifying two variables
//! narrows the solutions, the assignments of finite types to the variables,
//! to those in which the two are equal. When all equations are unified, the
//! variables are resolved to finite types; a variable that is part of its
//! own type fails the occurs check. Every typing of the program gives a
//! solution, so inference fails only where the program has no typing.

use vstd::prelude::*;
use crate::dag::{Node, acyclic};
use crate::error::Error;
use crate::jet::signature;
use crate::types::{Type, TypeArena};

verus! {

/// What is known of a type variable.
#[derive(Clone, Copy, Debug, PartialEq, Eq, Structural)]
pub enum Binding {
    /// Nothing
    Free,
    /// It equals an earlier variable
    Link(usize),
    /// It is the unit type
    Unit,
    /// It is the sum of two variables
    Sum(usize, usize),
    /// It is the product of two variables
    Product(usize, usize),
}

/// A link points to an earlier variable, and the parts of a sum or product
/// are variables.
pub open spec fn binding_ok(b: Binding, i: int, n: int) -> bool {
    match b {
        Binding::Link(p) => p < i,
        Binding::Sum(x, y) | Binding::Product(x, y) => x < n && y < n,
        _ => true,
    }
}

/// The number of variables among the first `n` that are not links.
pub open spec fn roots(s: Seq<Binding>, n: nat) -> nat
    decreases n,
{
    if n == 0 || n > s.len() {
        0
    } else {
        roots(s, (n - 1) as nat) + if s[n - 1] is Link {
            0nat
        } else {
            1nat
        }
    }
}

/// How the number of roots changes when one binding is replaced.
pub proof fn lemma_roots_update(s: Seq<Binding>, i: int, x: Binding, n: nat)
    requires
        0 <= i < s.len(),
        n <= s.len(),
    ensures
        roots(s.update(i, x), n) + (if i < n && !(s[i] is Link) {
            1nat
        } else {
            0nat
        }) == roots(s, n) + (if i < n && !(x is Link) {
            1nat
        } else {
            0nat
        }),
    decreases n,
{
    if n > 0 {
        lemma_roots_update(s, i, x, (n - 1) as nat);
    }
}

/// Whether an assignment of types to the variables agrees with what is
/// known of variable `v`.
pub open spec fn binding_holds(b: Binding, v: int, th: spec_fn(int) -> Type) -> bool {
    match b {
        Binding::Free => true,
        Binding::Link(p) => th(v) == th(p as int),
        Binding::Unit => th(v) == Type::Unit,
        Binding::Sum(x, y) => th(v) == Type::Sum(Box::new(th(x as int)), Box::new(th(y as int))),
        Binding::Product(x, y) => th(v) == Type::Product(
            Box::new(th(x as int)),
            Box::new(th(y as int)),
        ),
    }
}

/// Whether an assignment of types to the variables is a solution: it agrees
/// with what is known of every variable.
pub open spec fn satisfies(vars: Seq<Binding>, th: spec_fn(int) -> Type) -> bool {
    forall|v: int| 0 <= v < vars.len() ==> binding_holds(#[trigger] vars[v], v, th)
}

/// Whether an assignment of types makes the two variables of every pair equal.
pub open spec fn pairs_equal(work: Seq<(usize, usize)>, th: spec_fn(int) -> Type) -> bool {
    forall|i: int| 0 <= i < work.len() ==> th((#[trigger] work[i]).0 as int) == th(work[i].1 as int)
}

/// The solutions of `vars` that make the pairs of `work` equal are the
/// solutions of `start` in which `a` and `b` are equal.
#[verifier::opaque]
pub open spec fn refines(
    vars: Seq<Binding>,
    work: Seq<(usize, usize)>,
    start: Seq<Binding>,
    a: usize,
    b: usize,
) -> bool {
    forall|th: spec_fn(int) -> Type|
        #[trigger] satisfies(vars, th) && pairs_equal(work, th) <==> satisfies(start, th) && th(
            a as int,
        ) == th(b as int)
}

/// In every solution, `r` has the type of `x`.
#[verifier::opaque]
pub open spec fn stands_for(vars: Seq<Binding>, x: usize, r: usize) -> bool {
    forall|th: spec_fn(int) -> Type| #[trigger] satisfies(vars, th) ==> th(r as int) == th(x as int)
}

/// The solutions of `after` that make the pairs of `work` equal are the
/// solutions of `before` that make the pairs of `rest` equal, and `x` and `y`.
#[verifier::opaque]
pub open spec fn step(
    before: Seq<Binding>,
    rest: Seq<(usize, usize)>,
    after: Seq<Binding>,
    work: Seq<(usize, usize)>,
    x: usize,
    y: usize,
) -> bool {
    forall|th: spec_fn(int) -> Type|
        #[trigger] satisfies(after, th) && pairs_equal(work, th) <==> satisfies(before, th)
            && pairs_equal(rest, th) && th(x as int) == th(y as int)
}

/// Nothing is to be done for a pair of variables that stand for the same variable.
proof fn lemma_step_same(before: Seq<Binding>, rest: Seq<(usize, usize)>, x: usize)
    ensures
        step(before, rest, before, rest, x, x),
{
    reveal(step);
}

/// Linking a variable that is free, or that is the unit type like the
/// other, adds the equation of the two to what is known.
proof fn lemma_link(before: Seq<Binding>, rest: Seq<(usize, usize)>, lo: usize, hi: usize)
    requires
        0 <= lo < hi < before.len(),
        before[hi as int] is Free || (before[hi as int] is Unit && before[lo as int] is Unit),
    ensures
        step(before, rest, before.update(hi as int, Binding::Link(lo)), rest, lo, hi),
        step(before, rest, before.update(hi as int, Binding::Link(lo)), rest, hi, lo),
{
    reveal(step);
    let after = before.update(hi as int, Binding::Link(lo));
    assert forall|th: spec_fn(int) -> Type| #[trigger] satisfies(after, th) <==> satisfies(
        before,
        th,
    ) && th(lo as int) == th(hi as int) by {
        if satisfies(after, th) {
            assert(binding_holds(after[hi as int], hi as int, th));
            assert(binding_holds(after[lo as int], lo as int, th));
            assert forall|v: int| 0 <= v < before.len() implies binding_holds(
                #[trigger] before[v],
                v,
                th,
            ) by {
                assert(binding_holds(after[v], v, th));
            }
        }
        if satisfies(before, th) && th(lo as int) == th(hi as int) {
            assert forall|v: int| 0 <= v < after.len() implies binding_holds(
                #[trigger] after[v],
                v,
                th,
            ) by {
                assert(binding_holds(before[v], v, th));
            }
        }
    }
}

/// Giving a free variable what is known of a later one, and linking the
/// later one to it, adds the equation of the two to what is known.
proof fn lemma_link_free(before: Seq<Binding>, rest: Seq<(usize, usize)>, lo: usize, hi: usize)
    requires
        0 <= lo < hi < before.len(),
        before[lo as int] is Free,
        !(before[hi as int] is Link),
    ensures
        step(
            before,
            rest,
            before.update(lo as int, before[hi as int]).update(hi as int, Binding::Link(lo)),
            rest,
            lo,
            hi,
        ),
        step(
            before,
            rest,
            before.update(lo as int, before[hi as int]).update(hi as int, Binding::Link(lo)),
            rest,
            hi,
            lo,
        ),
{
    reveal(step);
    let after = before.update(lo as int, before[hi as int]).update(hi as int, Binding::Link(lo));
    assert forall|th: spec_fn(int) -> Type| #[trigger] satisfies(after, th) <==> satisfies(
        before,
        th,
    ) && th(lo as int) == th(hi as int) by {
        if satisfies(after, th) {
            assert(binding_holds(after[hi as int], hi as int, th));
            assert(binding_holds(after[lo as int], lo as int, th));
            assert forall|v: int| 0 <= v < before.len() implies binding_holds(
                #[trigger] before[v],
                v,
                th,
            ) by {
                assert(binding_holds(after[v], v, th));
            }
        }
        if satisfies(before, th) && th(lo as int) == th(hi as int) {
            assert(binding_holds(before[hi as int], hi as int, th));
            assert forall|v: int| 0 <= v < after.len() implies binding_holds(
                #[trigger] after[v],
                v,
                th,
            ) by {
                assert(binding_holds(before[v], v, th));
            }
        }
    }
}

/// Linking one of two variables of the same shape to the other, and putting
/// their parts on the list of pairs, adds the equation of the two to what is
/// known.
proof fn lemma_link_parts(
    before: Seq<Binding>,
    rest: Seq<(usize, usize)>,
    lo: usize,
    hi: usize,
    a1: usize,
    b1: usize,
    a2: usize,
    b2: usize,
)
    requires
        0 <= lo < hi < before.len(),
        (before[lo as int] == Binding::Sum(a1, b1) && before[hi as int] == Binding::Sum(a2, b2))
            || (before[lo as int] == Binding::Product(a1, b1) && before[hi as int]
            == Binding::Product(a2, b2)),
    ensures
        step(
            before,
            rest,
            before.update(hi as int, Binding::Link(lo)),
            rest.push((a1, a2)).push((b1, b2)),
            lo,
            hi,
        ),
        step(
            before,
            rest,
            before.update(hi as int, Binding::Link(lo)),
            rest.push((a1, a2)).push((b1, b2)),
            hi,
            lo,
        ),
{
    reveal(step);
    let after = before.update(hi as int, Binding::Link(lo));
    let now = rest.push((a1, a2)).push((b1, b2));
    assert forall|th: spec_fn(int) -> Type| #[trigger]
        satisfies(after, th) && pairs_equal(now, th) <==> satisfies(before, th) && pairs_equal(
            rest,
            th,
        ) && th(lo as int) == th(hi as int) by {
        if satisfies(after, th) && pairs_equal(now, th) {
            assert(now[rest.len() as int] == (a1, a2));
            assert(now[rest.len() as int + 1] == (b1, b2));
            assert forall|i: int| 0 <= i < rest.len() implies th((#[trigger] rest[i]).0 as int)
                == th(rest[i].1 as int) by {
                assert(rest[i] == now[i]);
            }
            assert(binding_holds(after[hi as int], hi as int, th));
            assert(binding_holds(after[lo as int], lo as int, th));
            assert forall|v: int| 0 <= v < before.len() implies binding_holds(
                #[trigger] before[v],
                v,
                th,
            ) by {
                assert(binding_holds(after[v], v, th));
            }
        }
        if satisfies(before, th) && pairs_equal(rest, th) && th(lo as int) == th(hi as int) {
            assert(binding_holds(before[hi as int], hi as int, th));
            assert(binding_holds(before[lo as int], lo as int, th));
            assert forall|v: int| 0 <= v < after.len() implies binding_holds(
                #[trigger] after[v],
                v,
                th,
            ) by {
                assert(binding_holds(before[v], v, th));
            }
            assert forall|i: int| 0 <= i < now.len() implies th((#[trigger] now[i]).0 as int)
                == th(now[i].1 as int) by {
                if i < rest.len() {
                    assert(rest[i] == now[i]);
                }
            }
        }
    }
}

/// One pair is taken from the list and dealt with: what held of the list
/// holds of the rest.
proof fn lemma_step_done(
    start: Seq<Binding>,
    a: usize,
    b: usize,
    before: Seq<Binding>,
    work_before: Seq<(usize, usize)>,
    after: Seq<Binding>,
    work: Seq<(usize, usize)>,
    x: usize,
    y: usize,
    rx: usize,
    ry: usize,
)
    requires
        refines(before, work_before, start, a, b),
        work_before.len() > 0,
        work_before.last() == (x, y),
        stands_for(before, x, rx),
        stands_for(before, y, ry),
        step(before, work_before.drop_last(), after, work, rx, ry),
    ensures
        refines(after, work, start, a, b),
{
    reveal(refines);
    reveal(stands_for);
    reveal(step);
    let rest = work_before.drop_last();
    assert forall|th: spec_fn(int) -> Type| #[trigger]
        satisfies(after, th) && pairs_equal(work, th) <==> satisfies(start, th) && th(a as int)
            == th(b as int) by {
        if satisfies(before, th) {
            if pairs_equal(work_before, th) {
                assert(th(work_before[work_before.len() - 1].0 as int) == th(
                    work_before[work_before.len() - 1].1 as int,
                ));
                assert forall|i: int| 0 <= i < rest.len() implies th((#[trigger] rest[i]).0 as int)
                    == th(rest[i].1 as int) by {
                    assert(rest[i] == work_before[i]);
                }
            }
            if pairs_equal(rest, th) && th(rx as int) == th(ry as int) {
                assert forall|i: int| 0 <= i < work_before.len() implies th(
                    (#[trigger] work_before[i]).0 as int,
                ) == th(work_before[i].1 as int) by {
                    if i < rest.len() {
                        assert(rest[i] == work_before[i]);
                    }
                }
            }
        }
    }
}

/// Two variables that are known to be types of different shapes are equal
/// in no solution, so there is no solution in which `a` and `b` are equal.
proof fn lemma_clash(
    start: Seq<Binding>,
    a: usize,
    b: usize,
    before: Seq<Binding>,
    work_before: Seq<(usize, usize)>,
    x: usize,
    y: usize,
    rx: usize,
    ry: usize,
)
    requires
        refines(before, work_before, start, a, b),
        work_before.len() > 0,
        work_before.last() == (x, y),
        stands_for(before, x, rx),
        stands_for(before, y, ry),
        rx < before.len(),
        ry < before.len(),
        !(before[rx as int] is Free) && !(before[rx as int] is Link),
        !(before[ry as int] is Free) && !(before[ry as int] is Link),
        !(before[rx as int] is Unit && before[ry as int] is Unit),
        !(before[rx as int] is Sum && before[ry as int] is Sum),
        !(before[rx as int] is Product && before[ry as int] is Product),
    ensures
        forall|th: spec_fn(int) -> Type|
            #[trigger] satisfies(start, th) ==> th(a as int) != th(b as int),
{
    reveal(refines);
    reveal(stands_for);
    assert forall|th: spec_fn(int) -> Type| #[trigger] satisfies(start, th) implies th(a as int)
        != th(b as int) by {
        if th(a as int) == th(b as int) {
            if satisfies(before, th) && pairs_equal(work_before, th) {
                assert(th(work_before[work_before.len() - 1].0 as int) == th(
                    work_before[work_before.len() - 1].1 as int,
                ));
                assert(binding_holds(before[rx as int], rx as int, th));
                assert(binding_holds(before[ry as int], ry as int, th));
            }
        }
    }
}

/// Where only one pair is on the list, the solutions are those in which
/// its two variables are equal.
proof fn lemma_refines_first(start: Seq<Binding>, a: usize, b: usize)
    ensures
        refines(start, seq![(a, b)], start, a, b),
{
    reveal(refines);
    let first = seq![(a, b)];
    assert forall|th: spec_fn(int) -> Type| #[trigger]
        satisfies(start, th) && pairs_equal(first, th) <==> satisfies(start, th) && th(a as int)
            == th(b as int) by {
        if pairs_equal(first, th) {
            assert(th(first[0].0 as int) == th(first[0].1 as int));
        }
    }
}

/// Where the list is empty, the solutions are those of the start in which
/// the two variables are equal.
proof fn lemma_refines_last(vars: Seq<Binding>, start: Seq<Binding>, a: usize, b: usize)
    requires
        refines(vars, Seq::empty(), start, a, b),
    ensures
        forall|th: spec_fn(int) -> Type|
            #[trigger] satisfies(vars, th) <==> satisfies(start, th) && th(a as int) == th(
                b as int,
            ),
{
    reveal(refines);
    assert forall|th: spec_fn(int) -> Type| #[trigger] satisfies(vars, th) <==> satisfies(
        start,
        th,
    ) && th(a as int) == th(b as int) by {
        assert(pairs_equal(Seq::<(usize, usize)>::empty(), th));
    }
}

/// The variable that stands for `v`: the end of the chain of links from `v`.
pub open spec fn root(vars: Seq<Binding>, v: int) -> int
    decreases v,
{
    if 0 <= v < vars.len() {
        match vars[v] {
            Binding::Link(p) => if p < v {
                root(vars, p as int)
            } else {
                v
            },
            _ => v,
        }
    } else {
        v
    }
}

/// The variable that stands for `v` is not after `v`, is no link, and
/// stands for itself.
pub proof fn lemma_root(vars: Seq<Binding>, v: int)
    requires
        0 <= v < vars.len(),
        forall|i: int| 0 <= i < vars.len() ==> binding_ok(#[trigger] vars[i], i, vars.len() as int),
    ensures
        0 <= root(vars, v) <= v,
        !(vars[root(vars, v)] is Link),
        root(vars, root(vars, v)) == root(vars, v),
    decreases v,
{
    match vars[v] {
        Binding::Link(p) => {
            assert(binding_ok(vars[v], v, vars.len() as int));
            lemma_root(vars, p as int);
        },
        _ => {},
    }
}

/// In every solution, a variable has the type of the variable that stands for it.
pub proof fn lemma_root_type(vars: Seq<Binding>, v: int, th: spec_fn(int) -> Type)
    requires
        0 <= v < vars.len(),
        forall|i: int| 0 <= i < vars.len() ==> binding_ok(#[trigger] vars[i], i, vars.len() as int),
        satisfies(vars, th),
    ensures
        th(root(vars, v)) == th(v),
    decreases v,
{
    match vars[v] {
        Binding::Link(p) => {
            assert(binding_ok(vars[v], v, vars.len() as int));
            assert(binding_holds(vars[v], v, th));
            lemma_root_type(vars, p as int, th);
        },
        _ => {},
    }
}

/// The type variables and what is known of them.
pub struct Unifier {
    pub vars: Vec<Binding>,
}

impl Unifier {
    /// Every binding refers to variables that exist, links to earlier ones.
    pub open spec fn wf(&self) -> bool {
        forall|i: int|
            0 <= i < self.vars.len() ==> binding_ok(
                #[trigger] self.vars[i],
                i,
                self.vars.len() as int,
            )
    }

    /// No variables.
    pub fn new() -> (r: Unifier)
        ensures
            r.wf(),
            r.vars.len() == 0,
    {
        Unifier { vars: Vec::new() }
    }

    /// A new variable with the given binding.
    pub fn fresh(&mut self, b: Binding) -> (r: usize)
        requires
            old(self).wf(),
            !(b is Link),
            binding_ok(b, old(self).vars.len() as int, old(self).vars.len() as int),
        ensures
            final(self).wf(),
            r == old(self).vars.len(),
            final(self).vars@ == old(self).vars@.push(b),
    {
        self.vars.push(b);
        self.vars.len() - 1
    }

    /// The variable that stands for `v`: it is the end of the chain of links.
    pub fn find(&self, v: usize) -> (r: usize)
        requires
            self.wf(),
            v < self.vars.len(),
        ensures
            r <= v,
            !(self.vars[r as int] is Link),
            r == root(self.vars@, v as int),
            stands_for(self.vars@, v, r),
        decreases v,
    {
        assert(binding_ok(self.vars@[v as int], v as int, self.vars.len() as int));
        match self.vars[v] {
            Binding::Link(p) => {
                let r = self.find(p);
                proof {
                    reveal(stands_for);
                    assert forall|th: spec_fn(int) -> Type| #[trigger]
                        satisfies(self.vars@, th) implies th(r as int) == th(v as int) by {
                        assert(binding_holds(self.vars@[v as int], v as int, th));
                    }
                }
                r
            },
            _ => {
                proof {
                    reveal(stands_for);
                }
                v
            },
        }
    }

    /// Makes two variables equal, and with them the parts of what they are
    /// bound to. Afterwards the solutions are those of before in which the
    /// two variables are equal. Fails where there is no such solution because
    /// two types of different shapes would have to be equal.
    pub fn unify(&mut self, a: usize, b: usize) -> (r: Result<(), Error>)
        requires
            old(self).wf(),
            a < old(self).vars.len(),
            b < old(self).vars.len(),
        ensures
            final(self).wf(),
            final(self).vars.len() == old(self).vars.len(),
            match r {
                Ok(()) => forall|th: spec_fn(int) -> Type|
                    #[trigger] satisfies(final(self).vars@, th) <==> satisfies(old(self).vars@, th)
                        && th(a as int) == th(b as int),
                Err(e) => e == Error::TypeCheck && forall|th: spec_fn(int) -> Type|
                    #[trigger] satisfies(old(self).vars@, th) ==> th(a as int) != th(b as int),
            },
    {
        let n = self.vars.len();
        let mut work: Vec<(usize, usize)> = Vec::new();
        work.push((a, b));
        proof {
            lemma_refines_first(self.vars@, a, b);
            assert(work@ =~= seq![(a, b)]);
        }
        while work.len() > 0
            invariant
                self.wf(),
                self.vars.len() == n,
                n == old(self).vars.len(),
                forall|i: int| 0 <= i < work.len() ==> (#[trigger] work[i]).0 < n && work[i].1 < n,
                refines(self.vars@, work@, old(self).vars@, a, b),
            decreases 2 * roots(self.vars@, n as nat) + work.len(),
        {
            let ghost work_before = work@;
            let (x, y) = work.pop().unwrap();
            let rx = self.find(x);
            let ry = self.find(y);
            let ghost before = self.vars@;
            let ghost rest = work@;
            assert(rest =~= work_before.drop_last());
            if rx != ry {
                let lo = if rx < ry {
                    rx
                } else {
                    ry
                };
                let hi = if rx < ry {
                    ry
                } else {
                    rx
                };
                let blo = self.vars[lo];
                let bhi = self.vars[hi];
                match (blo, bhi) {
                    (Binding::Free, _) => {
                        self.vars[lo] = bhi;
                        self.vars[hi] = Binding::Link(lo);
                        proof {
                            lemma_roots_update(before, lo as int, bhi, n as nat);
                            lemma_roots_update(
                                before.update(lo as int, bhi),
                                hi as int,
                                Binding::Link(lo),
                                n as nat,
                            );
                            lemma_link_free(before, rest, lo, hi);
                            assert(self.vars@ == before.update(lo as int, bhi).update(
                                hi as int,
                                Binding::Link(lo),
                            ));
                        }
                    },
                    (_, Binding::Free) | (Binding::Unit, Binding::Unit) => {
                        self.vars[hi] = Binding::Link(lo);
                        proof {
                            lemma_roots_update(before, hi as int, Binding::Link(lo), n as nat);
                            lemma_link(before, rest, lo, hi);
                            assert(self.vars@ == before.update(hi as int, Binding::Link(lo)));
                        }
                    },
                    (Binding::Sum(a1, b1), Binding::Sum(a2, b2)) | (
                        Binding::Product(a1, b1),
                        Binding::Product(a2, b2),
                    ) => {
                        self.vars[hi] = Binding::Link(lo);
                        work.push((a1, a2));
                        work.push((b1, b2));
                        proof {
                            lemma_roots_update(before, hi as int, Binding::Link(lo), n as nat);
                            lemma_link_parts(before, rest, lo, hi, a1, b1, a2, b2);
                            assert(self.vars@ == before.update(hi as int, Binding::Link(lo)));
                            assert(work@ == rest.push((a1, a2)).push((b1, b2)));
                        }
                    },
                    _ => {
                        proof {
                            lemma_clash(
                                old(self).vars@,
                                a,
                                b,
                                before,
                                work_before,
                                x,
                                y,
                                rx,
                                ry,
                            );
                        }
                        return Err(Error::TypeCheck);
                    },
                }
            } else {
                proof {
                    lemma_step_same(before, rest, rx);
                }
            }
            proof {
                lemma_step_done(
                    old(self).vars@,
                    a,
                    b,
                    before,
                    work_before,
                    self.vars@,
                    work@,
                    x,
                    y,
                    rx,
                    ry,
                );
            }
        }
        proof {
            assert(work@ =~= Seq::<(usize, usize)>::empty());
            lemma_refines_last(self.vars@, old(self).vars@, a, b);
        }
        Ok(())
    }
}

/// The types of a program: an arena, and for each node the entries of its
/// source and of its target type.
pub struct Typing {
    pub arena: TypeArena,
    pub source: Vec<usize>,
    pub target: Vec<usize>,
}

impl Typing {
    /// The arena is well formed and every one of the `n` nodes has its two entries.
    pub open spec fn wf(&self, n: nat) -> bool {
        &&& self.arena.wf()
        &&& self.source.len() == n
        &&& self.target.len() == n
        &&& forall|k: int| 0 <= k < n ==> (#[trigger] self.source[k]) < self.arena.nodes.len()
        &&& forall|k: int| 0 <= k < n ==> (#[trigger] self.target[k]) < self.arena.nodes.len()
    }

    /// The source type of node `k`.
    pub open spec fn source_type(&self, k: int) -> Type {
        self.arena.type_at(self.source[k] as int)
    }

    /// The target type of node `k`.
    pub open spec fn target_type(&self, k: int) -> Type {
        self.arena.type_at(self.target[k] as int)
    }
}

/// The typing rule of the combinator of node `k`.
pub open spec fn node_typed(nodes: Seq<Node>, t: Typing, k: int) -> bool {
    let s = t.source_type(k);
    let g = t.target_type(k);
    match nodes[k] {
        Node::Iden => s == g,
        Node::Unit => g == Type::Unit,
        Node::InjL(c) => {
            &&& g matches Type::Sum(l, _)
            &&& *l == t.target_type(c as int)
            &&& s == t.source_type(c as int)
        },
        Node::InjR(c) => {
            &&& g matches Type::Sum(_, r)
            &&& *r == t.target_type(c as int)
            &&& s == t.source_type(c as int)
        },
        Node::Take(c) => {
            &&& s matches Type::Product(l, _)
            &&& *l == t.source_type(c as int)
            &&& g == t.target_type(c as int)
        },
        Node::Drop(c) => {
            &&& s matches Type::Product(_, r)
            &&& *r == t.source_type(c as int)
            &&& g == t.target_type(c as int)
        },
        Node::Comp(l, r) => {
            &&& s == t.source_type(l as int)
            &&& t.target_type(l as int) == t.source_type(r as int)
            &&& g == t.target_type(r as int)
        },
        Node::Case(l, r) => {
            &&& s matches Type::Product(ab, c)
            &&& *ab matches Type::Sum(a, b)
            &&& nodes[l as int] is Hidden || (t.source_type(l as int) == Type::Product(a, c)
                && t.target_type(l as int) == g)
            &&& nodes[r as int] is Hidden || (t.source_type(r as int) == Type::Product(b, c)
                && t.target_type(r as int) == g)
        },
        Node::Pair(l, r) => {
            &&& s == t.source_type(l as int)
            &&& s == t.source_type(r as int)
            &&& g == Type::Product(
                Box::new(t.target_type(l as int)),
                Box::new(t.target_type(r as int)),
            )
        },
        Node::Disconnect(l, r) => {
            &&& t.target_type(l as int) matches Type::Product(b, c)
            &&& *c == t.source_type(r as int)
            &&& g == Type::Product(b, Box::new(t.target_type(r as int)))
            &&& t.source_type(l as int) == Type::Product(Box::new(Type::word(8)), Box::new(s))
        },
        Node::Witness => true,
        Node::Hidden(_) => true,
        Node::Jet(id) => signature(id) == Some((s, g)),
    }
}

/// No type of `t` is wider than the type of the same node in any typing of
/// the program.
pub open spec fn narrowest(nodes: Seq<Node>, t: Typing) -> bool {
    forall|ty: Typing, k: int|
        #![trigger ty.source_type(k)]
        well_typed(nodes, ty) && 0 <= k < nodes.len() ==> t.source_type(k).bit_width()
            <= ty.source_type(k).bit_width() && t.target_type(k).bit_width() <= ty.target_type(
            k,
        ).bit_width()
}

/// Every node has types that fit its combinator and its children.
pub open spec fn well_typed(nodes: Seq<Node>, t: Typing) -> bool {
    &&& t.wf(nodes.len())
    &&& forall|k: int| 0 <= k < nodes.len() ==> node_typed(nodes, t, k)
}

/// Whether every index of the list is below `n`.
pub open spec fn all_below(v: Seq<usize>, n: int) -> bool {
    forall|i: int| 0 <= i < v.len() ==> (#[trigger] v[i]) < n
}

/// Infers the types of a program that is given as a sequence of nodes.
///
/// The sequence must not be empty, and every node must refer to earlier
/// nodes only. The typing that is returned satisfies the rule of every
/// combinator; parts of types that nothing constrains are the unit type.
/// Inference fails only where the program has no typing at all: where
/// the equations of the nodes have no solution, or none in which no type is
/// part of itself, or none in which every type is at most 2^32 - 1 bits
/// wide, or where a jet is not known.
pub fn infer(nodes: &Vec<Node>) -> (r: Result<Typing, Error>)
    ensures
        r is Ok <==> nodes.len() > 0 && acyclic(nodes@) && !crate::solution::untypable(nodes@),
        nodes.len() == 0 ==> r matches Err(Error::EmptyProgram),
        nodes.len() > 0 && !acyclic(nodes@) ==> r matches Err(Error::BadIndex),
        r matches Ok(t) ==> nodes.len() > 0 && acyclic(nodes@) && well_typed(nodes@, t)
            && narrowest(nodes@, t),
        r matches Err(e) ==> (e matches Error::EmptyProgram) || (e matches Error::BadIndex) || (
        e matches Error::TypeCheck) || (e matches Error::OccursCheck) || (
        e matches Error::NaturalOverflow) || (e matches Error::ParseError(_)),
        r matches Err(Error::EmptyProgram) ==> nodes.len() == 0,
        r matches Err(Error::BadIndex) ==> !acyclic(nodes@),
        r is Err && nodes.len() > 0 && acyclic(nodes@) ==> crate::solution::untypable(nodes@),
{
    if nodes.len() == 0 {
        return Err(Error::EmptyProgram);
    }
    if !check_acyclic(nodes) {
        return Err(Error::BadIndex);
    }
    let ghost g = nodes@;
    let (tr, src, tgt) = match crate::constraints::unify_nodes(nodes) {
        Ok(found) => found,
        Err(e) => {
            return Err(e);
        },
    };
    let mut arena = TypeArena::new();
    let resolved = match crate::resolve::resolve(&tr.u, &mut arena) {
        Ok(resolved) => resolved,
        Err(e) => {
            proof {
                lemma_too_wide_untypable(g, tr);
            }
            return Err(e);
        },
    };
    let n = tr.u.vars.len();
    proof {
        reveal(crate::resolve::consistent);
    }
    let mut v: usize = 0;
    while v < n
        invariant
            v <= n,
            g == nodes@,
            nodes.len() > 0,
            acyclic(g),
            n == tr.u.vars.len(),
            resolved.len() == n,
            tr.inv(g),
            crate::resolve::stuck(tr.u.vars@, resolved@),
            forall|w: int| 0 <= w < v ==> (#[trigger] resolved[w]) is Some || tr.u.vars[w] is Link,
        decreases n - v,
    {
        let unresolved = match tr.u.vars[v] {
            Binding::Link(_) => false,
            _ => resolved[v].is_none(),
        };
        if unresolved {
            proof {
                lemma_unresolved_untypable(g, tr, resolved@, v as int);
            }
            return Err(Error::OccursCheck);
        }
        v = v + 1;
    }
    let mut source: Vec<usize> = Vec::with_capacity(nodes.len());
    let mut target: Vec<usize> = Vec::with_capacity(nodes.len());
    let mut k: usize = 0;
    while k < nodes.len()
        invariant
            tr.u.wf(),
            arena.wf(),
            g == nodes@,
            k <= nodes.len(),
            n == tr.u.vars.len(),
            src.len() == nodes.len(),
            tgt.len() == nodes.len(),
            crate::constraints::roles_ok(tr.roles@, src@, tgt@),
            tr.roles@.len() == n,
            resolved.len() == n,
            crate::resolve::consistent(tr.u.vars@, resolved@, arena.nodes@),
            crate::resolve::minimal(tr.u.vars@, resolved@, arena.nodes@),
            tr.inv(g),
            forall|w: int| 0 <= w < n ==> (#[trigger] resolved[w]) is Some || tr.u.vars[w] is Link,
            source.len() == k,
            target.len() == k,
            forall|j: int|
                0 <= j < k ==> resolved[root(tr.u.vars@, src[j] as int)] == Some(
                    #[trigger] source[j],
                ),
            forall|j: int|
                0 <= j < k ==> resolved[root(tr.u.vars@, tgt[j] as int)] == Some(
                    #[trigger] target[j],
                ),
            all_below(source@, arena.nodes.len() as int),
            all_below(target@, arena.nodes.len() as int),
        decreases nodes.len() - k,
    {
        let rs = tr.u.find(src[k]);
        let rt = tr.u.find(tgt[k]);
        proof {
            reveal(crate::resolve::consistent);
            assert(crate::resolve::entry_ok(tr.u.vars@, resolved@, arena.nodes@, rs as int));
            assert(crate::resolve::entry_ok(tr.u.vars@, resolved@, arena.nodes@, rt as int));
        }
        match (resolved[rs], resolved[rt]) {
            (Some(i), Some(j)) => {
                source.push(i);
                target.push(j);
            },
            _ => {
                assert(resolved[rs as int] is Some);
                assert(resolved[rt as int] is Some);
                return Err(Error::OccursCheck);
            },
        }
        k = k + 1;
    }
    let typing = Typing { arena, source, target };
    proof {
        lemma_typed(g, tr, src@, tgt@, resolved@, typing);
        lemma_narrowest(g, tr, src@, tgt@, resolved@, typing);
    }
    Ok(typing)
}

/// Where every solution has a variable that is wider than 32 bits can
/// count, the program has no typing.
proof fn lemma_too_wide_untypable(nodes: Seq<Node>, tr: crate::solution::Tracker)
    requires
        tr.inv(nodes),
        crate::resolve::too_wide(tr.u.vars@),
    ensures
        crate::solution::untypable(nodes),
{
    reveal(crate::solution::complete);
    reveal(crate::solution::small);
    reveal(crate::solution::role_small);
    reveal(crate::resolve::too_wide);
    assert forall|ty: Typing| !#[trigger] well_typed(nodes, ty) by {
        if well_typed(nodes, ty) {
            let th = crate::solution::assign(tr.roles@, ty);
            assert(satisfies(tr.u.vars@, th));
            let v = choose|v: int|
                0 <= v < tr.u.vars.len() && (#[trigger] th(v)).bit_width() > u32::MAX;
            assert(crate::solution::role_small(nodes, tr.roles@[v]));
        }
    }
}

/// Where a variable is left unresolved when nothing more can be resolved,
/// the program has no typing.
proof fn lemma_unresolved_untypable(
    nodes: Seq<Node>,
    tr: crate::solution::Tracker,
    resolved: Seq<Option<usize>>,
    v: int,
)
    requires
        tr.inv(nodes),
        resolved.len() == tr.u.vars.len(),
        crate::resolve::stuck(tr.u.vars@, resolved),
        0 <= v < tr.u.vars.len(),
        !(tr.u.vars[v] is Link),
        resolved[v] is None,
    ensures
        crate::solution::untypable(nodes),
{
    reveal(crate::solution::complete);
    assert forall|ty: Typing| !#[trigger] well_typed(nodes, ty) by {
        if well_typed(nodes, ty) {
            let th = crate::solution::assign(tr.roles@, ty);
            assert(satisfies(tr.u.vars@, th));
            crate::resolve::lemma_no_solution(tr.u.vars@, resolved, th, v);
        }
    }
}

/// The types of the resolved variables are the narrowest that the nodes can have.
proof fn lemma_narrowest(
    nodes: Seq<Node>,
    tr: crate::solution::Tracker,
    src: Seq<usize>,
    tgt: Seq<usize>,
    resolved: Seq<Option<usize>>,
    typing: Typing,
)
    requires
        tr.inv(nodes),
        src.len() == nodes.len(),
        tgt.len() == nodes.len(),
        typing.source.len() == nodes.len(),
        typing.target.len() == nodes.len(),
        resolved.len() == tr.u.vars.len(),
        crate::constraints::roles_ok(tr.roles@, src, tgt),
        crate::resolve::minimal(tr.u.vars@, resolved, typing.arena.nodes@),
        forall|j: int|
            0 <= j < nodes.len() ==> resolved[root(tr.u.vars@, src[j] as int)] == Some(
                #[trigger] typing.source[j],
            ),
        forall|j: int|
            0 <= j < nodes.len() ==> resolved[root(tr.u.vars@, tgt[j] as int)] == Some(
                #[trigger] typing.target[j],
            ),
    ensures
        narrowest(nodes, typing),
{
    let vars = tr.u.vars@;
    reveal(crate::solution::complete);
    reveal(crate::resolve::minimal);
    assert forall|ty: Typing, k: int|
        #![trigger ty.source_type(k)]
        well_typed(nodes, ty) && 0 <= k < nodes.len() implies typing.source_type(k).bit_width()
        <= ty.source_type(k).bit_width() && typing.target_type(k).bit_width() <= ty.target_type(
        k,
    ).bit_width() by {
        let th = crate::solution::assign(tr.roles@, ty);
        assert(satisfies(vars, th));
        let s = src[k] as int;
        let t = tgt[k] as int;
        lemma_root(vars, s);
        lemma_root(vars, t);
        lemma_root_type(vars, s, th);
        lemma_root_type(vars, t, th);
        let rs = root(vars, s);
        let rt = root(vars, t);
        assert(resolved[rs] == Some(typing.source[k]));
        assert(resolved[rt] == Some(typing.target[k]));
        assert(crate::resolve::tree_width(typing.arena.nodes@, resolved, rs) <= th(rs).bit_width());
        assert(crate::resolve::tree_width(typing.arena.nodes@, resolved, rt) <= th(rt).bit_width());
        assert(th(s) == ty.source_type(k));
        assert(th(t) == ty.target_type(k));
    }
}

/// The types of the resolved variables are a typing of the program.
proof fn lemma_typed(
    nodes: Seq<Node>,
    tr: crate::solution::Tracker,
    src: Seq<usize>,
    tgt: Seq<usize>,
    resolved: Seq<Option<usize>>,
    typing: Typing,
)
    requires
        acyclic(nodes),
        tr.u.wf(),
        typing.arena.wf(),
        src.len() == nodes.len(),
        tgt.len() == nodes.len(),
        typing.source.len() == nodes.len(),
        typing.target.len() == nodes.len(),
        all_below(src, tr.u.vars.len() as int),
        all_below(tgt, tr.u.vars.len() as int),
        all_below(typing.source@, typing.arena.nodes.len() as int),
        all_below(typing.target@, typing.arena.nodes.len() as int),
        crate::constraints::sound_upto(nodes, nodes.len() as int, tr.u.vars@, src, tgt),
        crate::resolve::consistent(tr.u.vars@, resolved, typing.arena.nodes@),
        forall|w: int|
            0 <= w < tr.u.vars.len() ==> (#[trigger] resolved[w]) is Some || tr.u.vars[w] is Link,
        forall|j: int|
            0 <= j < nodes.len() ==> resolved[root(tr.u.vars@, src[j] as int)] == Some(
                #[trigger] typing.source[j],
            ),
        forall|j: int|
            0 <= j < nodes.len() ==> resolved[root(tr.u.vars@, tgt[j] as int)] == Some(
                #[trigger] typing.target[j],
            ),
    ensures
        well_typed(nodes, typing),
{
    let vars = tr.u.vars@;
    let th = crate::resolve::solution(vars, resolved, typing.arena.nodes@);
    crate::resolve::lemma_solution(tr.u, resolved, typing.arena);
    reveal(crate::constraints::sound_upto);
    reveal(crate::constraints::sound_at);
    let s = crate::constraints::types(th, src);
    let t = crate::constraints::types(th, tgt);
    assert forall|j: int| 0 <= j < nodes.len() implies s[j] == typing.source_type(j) by {
        assert(resolved[root(vars, src[j] as int)] == Some(typing.source[j]));
    }
    assert forall|j: int| 0 <= j < nodes.len() implies t[j] == typing.target_type(j) by {
        assert(resolved[root(vars, tgt[j] as int)] == Some(typing.target[j]));
    }
    assert forall|k: int| 0 <= k < nodes.len() implies node_typed(nodes, typing, k) by {
        assert(crate::constraints::sound_at(nodes, k, vars, src, tgt));
        assert(nodes[k].refers_below(k));
        crate::constraints::lemma_rule_typed(nodes, typing, k, s, t);
    }
}

/// Whether every node refers to earlier nodes only.
pub fn check_acyclic(nodes: &Vec<Node>) -> (r: bool)
    ensures
        r == acyclic(nodes@),
{
    let mut k: usize = 0;
    while k < nodes.len()
        invariant
            k <= nodes.len(),
            forall|i: int| 0 <= i < k ==> (#[trigger] nodes@[i]).refers_below(i),
        decreases nodes.len() - k,
    {
        let a = match nodes[k].first_child() {
            Some(c) => c < k,
            None => true,
        };
        let b = match nodes[k].second_child() {
            Some(c) => c < k,
            None => true,
        };
        if !(a && b) {
            assert(!nodes@[k as int].refers_below(k as int));
            return false;
        }
        k = k + 1;
    }
    true
}

} // verus!
