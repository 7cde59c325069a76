//! What the state of the unifier means for the types of a program: which
//! equations every solution satisfies, and why every typing of the program
//! gives a solution.

use vstd::prelude::*;
use crate::dag::Node;
use crate::error::Error;
use crate::inference::{
    Binding, Typing, Unifier, binding_holds, binding_ok, satisfies, well_typed,
};
use crate::types::Type;

verus! {

/// Something that is known to hold in every solution.
pub enum Fact {
    /// Two variables have the same type
    Same(usize, usize),
    /// A variable is built as its binding says
    Is(usize, Binding),
    /// A variable has the given type
    Const(usize, Type),
}

/// Whether a fact holds in an assignment of types.
pub open spec fn fact_holds(f: Fact, th: spec_fn(int) -> Type) -> bool {
    match f {
        Fact::Same(a, b) => th(a as int) == th(b as int),
        Fact::Is(v, b) => binding_holds(b, v as int, th),
        Fact::Const(v, t) => th(v as int) == t,
    }
}

/// Every solution satisfies the facts.
#[verifier::opaque]
pub open spec fn knows(vars: Seq<Binding>, facts: Seq<Fact>) -> bool {
    forall|th: spec_fn(int) -> Type, i: int|
        #![trigger satisfies(vars, th), facts[i]]
        satisfies(vars, th) && 0 <= i < facts.len() ==> fact_holds(facts[i], th)
}

/// Every solution of `new` is a solution of `old`.
#[verifier::opaque]
pub open spec fn later(new: Seq<Binding>, old: Seq<Binding>) -> bool {
    forall|th: spec_fn(int) -> Type| #[trigger] satisfies(new, th) ==> satisfies(old, th)
}

/// A type that is given by the types of a typing: the source or target
/// type of a node, or a type that is built from such types or is a part of one.
pub enum Term {
    Src(int),
    Tgt(int),
    Unit,
    Sum(Box<Term>, Box<Term>),
    Product(Box<Term>, Box<Term>),
    /// The first part of a sum or of a product
    First(Box<Term>),
    /// The second part of a sum or of a product
    Second(Box<Term>),
}

/// The first part of a sum or of a product.
pub open spec fn first_part(t: Type) -> Type {
    match t {
        Type::Sum(a, _) => *a,
        Type::Product(a, _) => *a,
        Type::Unit => Type::Unit,
    }
}

/// The second part of a sum or of a product.
pub open spec fn second_part(t: Type) -> Type {
    match t {
        Type::Sum(_, b) => *b,
        Type::Product(_, b) => *b,
        Type::Unit => Type::Unit,
    }
}

/// The type that a term stands for in a typing.
pub open spec fn eval_term(term: Term, t: Typing) -> Type
    decreases term,
{
    match term {
        Term::Src(k) => t.source_type(k),
        Term::Tgt(k) => t.target_type(k),
        Term::Unit => Type::Unit,
        Term::Sum(a, b) => Type::Sum(Box::new(eval_term(*a, t)), Box::new(eval_term(*b, t))),
        Term::Product(a, b) => Type::Product(
            Box::new(eval_term(*a, t)),
            Box::new(eval_term(*b, t)),
        ),
        Term::First(a) => first_part(eval_term(*a, t)),
        Term::Second(a) => second_part(eval_term(*a, t)),
    }
}

/// The assignment of types to the variables that a typing gives, where
/// each variable stands for a term.
pub open spec fn assign(roles: Seq<Term>, t: Typing) -> spec_fn(int) -> Type {
    |v: int|
        if 0 <= v < roles.len() {
            eval_term(roles[v], t)
        } else {
            Type::Unit
        }
}

/// Every typing of the program gives a solution.
#[verifier::opaque]
pub open spec fn complete(nodes: Seq<Node>, vars: Seq<Binding>, roles: Seq<Term>) -> bool {
    forall|t: Typing| #[trigger] well_typed(nodes, t) ==> satisfies(vars, assign(roles, t))
}

/// In every typing of the program, the two variables stand for the same type.
#[verifier::opaque]
pub open spec fn agree(nodes: Seq<Node>, roles: Seq<Term>, a: usize, b: usize) -> bool {
    forall|t: Typing|
        #[trigger] well_typed(nodes, t) ==> eval_term(roles[a as int], t) == eval_term(
            roles[b as int],
            t,
        )
}

/// The program has no typing.
pub open spec fn untypable(nodes: Seq<Node>) -> bool {
    forall|t: Typing| !#[trigger] well_typed(nodes, t)
}

/// The term that stands for a given type in every typing.
pub open spec fn term_of(t: Type) -> Term
    decreases t,
{
    match t {
        Type::Unit => Term::Unit,
        Type::Sum(a, b) => Term::Sum(Box::new(term_of(*a)), Box::new(term_of(*b))),
        Type::Product(a, b) => Term::Product(Box::new(term_of(*a)), Box::new(term_of(*b))),
    }
}

/// The term of a type stands for that type.
pub proof fn lemma_term_of(t: Type, ty: Typing)
    ensures
        eval_term(term_of(t), ty) == t,
    decreases t,
{
    match t {
        Type::Unit => {},
        Type::Sum(a, b) => {
            lemma_term_of(*a, ty);
            lemma_term_of(*b, ty);
        },
        Type::Product(a, b) => {
            lemma_term_of(*a, ty);
            lemma_term_of(*b, ty);
        },
    }
}

/// In every typing of the program, the type that the term stands for is
/// at most 2^32 - 1 bits wide.
#[verifier::opaque]
pub open spec fn role_small(nodes: Seq<Node>, role: Term) -> bool {
    forall|ty: Typing|
        #[trigger] well_typed(nodes, ty) ==> eval_term(role, ty).bit_width() <= u32::MAX
}

/// Every variable stands for a term of a type that is at most 2^32 - 1 bits wide.
#[verifier::opaque]
pub open spec fn small(nodes: Seq<Node>, roles: Seq<Term>) -> bool {
    forall|v: int| 0 <= v < roles.len() ==> role_small(nodes, #[trigger] roles[v])
}

/// The types of a node are at most 2^32 - 1 bits wide in every typing.
pub proof fn lemma_small_node(nodes: Seq<Node>, k: int)
    requires
        0 <= k < nodes.len(),
    ensures
        role_small(nodes, Term::Src(k)),
        role_small(nodes, Term::Tgt(k)),
{
    reveal(role_small);
    assert forall|ty: Typing| #[trigger] well_typed(nodes, ty) implies eval_term(
        Term::Src(k),
        ty,
    ).bit_width() <= u32::MAX && eval_term(Term::Tgt(k), ty).bit_width() <= u32::MAX by {
        ty.arena.lemma_shape(ty.source[k] as int);
        ty.arena.lemma_shape(ty.target[k] as int);
    }
}

/// The unit type takes no bits.
pub proof fn lemma_small_unit(nodes: Seq<Node>)
    ensures
        role_small(nodes, Term::Unit),
{
    reveal(role_small);
}

/// A part of a type is not wider than the type.
pub proof fn lemma_small_part(nodes: Seq<Node>, x: Term)
    requires
        role_small(nodes, x),
    ensures
        role_small(nodes, Term::First(Box::new(x))),
        role_small(nodes, Term::Second(Box::new(x))),
{
    reveal(role_small);
}

/// A type that is not wider than one of at most 2^32 - 1 bits is not wider
/// than that either.
pub proof fn lemma_small_by(nodes: Seq<Node>, role: Term, bound: Term, k: int)
    requires
        0 <= k < nodes.len(),
        role_small(nodes, bound),
        forall|ty: Typing|
            #[trigger] crate::inference::node_typed(nodes, ty, k) ==> eval_term(
                role,
                ty,
            ).bit_width() <= eval_term(bound, ty).bit_width(),
    ensures
        role_small(nodes, role),
{
    reveal(role_small);
    assert forall|ty: Typing| #[trigger] well_typed(nodes, ty) implies eval_term(
        role,
        ty,
    ).bit_width() <= u32::MAX by {
        assert(crate::inference::node_typed(nodes, ty, k));
    }
}

/// The term of a type of at most 2^32 - 1 bits stands for such a type.
pub proof fn lemma_small_const(nodes: Seq<Node>, t: Type)
    requires
        t.bit_width() <= u32::MAX,
    ensures
        role_small(nodes, term_of(t)),
{
    reveal(role_small);
    assert forall|ty: Typing| #[trigger] well_typed(nodes, ty) implies eval_term(
        term_of(t),
        ty,
    ).bit_width() <= u32::MAX by {
        lemma_term_of(t, ty);
    }
}

/// The term that a new variable stands for fits its binding.
pub open spec fn role_fits(b: Binding, role: Term, roles: Seq<Term>) -> bool {
    match b {
        Binding::Free => true,
        Binding::Link(_) => false,
        Binding::Unit => role == Term::Unit,
        Binding::Sum(x, y) => role == Term::Sum(
            Box::new(roles[x as int]),
            Box::new(roles[y as int]),
        ),
        Binding::Product(x, y) => role == Term::Product(
            Box::new(roles[x as int]),
            Box::new(roles[y as int]),
        ),
    }
}

/// A unifier together with what its state means.
pub struct Tracker {
    pub u: Unifier,
    /// What every solution satisfies
    pub facts: Ghost<Seq<Fact>>,
    /// The term that each variable stands for in a typing
    pub roles: Ghost<Seq<Term>>,
    /// The variables at the time that `mark` was called last
    pub start: Ghost<Seq<Binding>>,
}

impl Tracker {
    /// The unifier is well formed, its solutions satisfy the facts and are
    /// solutions of the marked state, and every typing of the program
    /// gives a solution.
    pub open spec fn inv(&self, nodes: Seq<Node>) -> bool {
        &&& self.u.wf()
        &&& self.roles@.len() == self.u.vars.len()
        &&& knows(self.u.vars@, self.facts@)
        &&& later(self.u.vars@, self.start@)
        &&& complete(nodes, self.u.vars@, self.roles@)
        &&& small(nodes, self.roles@)
    }

    /// A tracker without variables.
    pub fn new(Ghost(nodes): Ghost<Seq<Node>>) -> (r: Tracker)
        ensures
            r.inv(nodes),
            r.u.vars.len() == 0,
            r.facts@.len() == 0,
    {
        let r = Tracker {
            u: Unifier::new(),
            facts: Ghost(Seq::empty()),
            roles: Ghost(Seq::empty()),
            start: Ghost(Seq::empty()),
        };
        proof {
            reveal(knows);
            reveal(later);
            reveal(complete);
            reveal(small);
        }
        r
    }

    /// Forgets the facts and marks the state.
    pub fn mark(&mut self, Ghost(nodes): Ghost<Seq<Node>>)
        requires
            old(self).inv(nodes),
        ensures
            final(self).inv(nodes),
            final(self).u == old(self).u,
            final(self).roles == old(self).roles,
            final(self).facts@ == Seq::<Fact>::empty(),
            final(self).start@ == old(self).u.vars@,
    {
        self.facts = Ghost(Seq::empty());
        self.start = Ghost(self.u.vars@);
        proof {
            reveal(knows);
            reveal(later);
        }
    }

    /// A new variable with the given binding, which stands for the given term.
    pub fn fresh(&mut self, b: Binding, Ghost(role): Ghost<Term>, Ghost(nodes): Ghost<Seq<Node>>) -> (r:
        usize)
        requires
            old(self).inv(nodes),
            binding_ok(b, old(self).u.vars.len() as int, old(self).u.vars.len() as int),
            role_fits(b, role, old(self).roles@),
            role_small(nodes, role),
        ensures
            final(self).inv(nodes),
            r == old(self).u.vars.len(),
            final(self).u.vars@ == old(self).u.vars@.push(b),
            final(self).roles@ == old(self).roles@.push(role),
            final(self).facts@ == old(self).facts@.push(Fact::Is(r, b)),
            final(self).start == old(self).start,
    {
        let ghost old_vars = self.u.vars@;
        let ghost old_roles = self.roles@;
        let ghost old_facts = self.facts@;
        let r = self.u.fresh(b);
        let n = self.u.vars.len();
        self.roles = Ghost(old_roles.push(role));
        self.facts = Ghost(old_facts.push(Fact::Is(r, b)));
        proof {
            lemma_fresh(nodes, old_vars, old_roles, old_facts, self.start@, b, role);
            reveal(small);
        }
        r
    }

    /// A new variable that is bound to the given type.
    pub fn type_var(&mut self, t: &Type, Ghost(nodes): Ghost<Seq<Node>>) -> (r: usize)
        requires
            old(self).inv(nodes),
            t.bit_width() <= u32::MAX,
        ensures
            final(self).inv(nodes),
            r < final(self).u.vars.len(),
            old(self).u.vars.len() <= final(self).u.vars.len(),
            final(self).roles@.take(old(self).roles@.len() as int) == old(self).roles@,
            final(self).roles@[r as int] == term_of(*t),
            final(self).facts@ == old(self).facts@.push(Fact::Const(r, *t)),
            final(self).start == old(self).start,
        decreases t,
    {
        let ghost old_facts = self.facts@;
        let ghost old_roles = self.roles@;
        let ghost old_vars = self.u.vars@;
        match t {
            Type::Unit => {
                proof {
                    lemma_small_unit(nodes);
                }
                let r = self.fresh(Binding::Unit, Ghost(Term::Unit), Ghost(nodes));
                self.facts = Ghost(old_facts.push(Fact::Const(r, Type::Unit)));
                proof {
                    lemma_const_unit(self.u.vars@, old_facts, r);
                    assert(self.roles@.take(old_roles.len() as int) =~= old_roles);
                }
                r
            },
            Type::Sum(a, b) => {
                let x = self.type_var(a, Ghost(nodes));
                let ghost mid_roles = self.roles@;
                let y = self.type_var(b, Ghost(nodes));
                let ghost roles = self.roles@;
                proof {
                    assert(roles[x as int] == roles.take(mid_roles.len() as int)[x as int]);
                    lemma_small_const(nodes, *t);
                }
                let r = self.fresh(
                    Binding::Sum(x, y),
                    Ghost(Term::Sum(Box::new(roles[x as int]), Box::new(roles[y as int]))),
                    Ghost(nodes),
                );
                self.facts = Ghost(old_facts.push(Fact::Const(r, *t)));
                proof {
                    lemma_const_built(self.u.vars@, old_facts, x, **a, y, **b, r, *t);
                    assert(self.roles@.take(old_roles.len() as int) =~= old_roles) by {
                        assert(mid_roles.take(old_roles.len() as int) == old_roles);
                        assert(roles.take(mid_roles.len() as int) == mid_roles);
                    }
                }
                r
            },
            Type::Product(a, b) => {
                let x = self.type_var(a, Ghost(nodes));
                let ghost mid_roles = self.roles@;
                let y = self.type_var(b, Ghost(nodes));
                let ghost roles = self.roles@;
                proof {
                    assert(roles[x as int] == roles.take(mid_roles.len() as int)[x as int]);
                    lemma_small_const(nodes, *t);
                }
                let r = self.fresh(
                    Binding::Product(x, y),
                    Ghost(Term::Product(Box::new(roles[x as int]), Box::new(roles[y as int]))),
                    Ghost(nodes),
                );
                self.facts = Ghost(old_facts.push(Fact::Const(r, *t)));
                proof {
                    lemma_const_built(self.u.vars@, old_facts, x, **a, y, **b, r, *t);
                    assert(self.roles@.take(old_roles.len() as int) =~= old_roles) by {
                        assert(mid_roles.take(old_roles.len() as int) == old_roles);
                        assert(roles.take(mid_roles.len() as int) == mid_roles);
                    }
                }
                r
            },
        }
    }

    /// Makes two variables equal that stand for the same type in every
    /// typing of the program. Where that fails, the program has no typing.
    pub fn unify(&mut self, a: usize, b: usize, Ghost(nodes): Ghost<Seq<Node>>) -> (r: Result<
        (),
        Error,
    >)
        requires
            old(self).inv(nodes),
            a < old(self).u.vars.len(),
            b < old(self).u.vars.len(),
            agree(nodes, old(self).roles@, a, b),
        ensures
            final(self).roles == old(self).roles,
            final(self).start == old(self).start,
            final(self).u.vars.len() == old(self).u.vars.len(),
            final(self).u.wf(),
            match r {
                Ok(()) => final(self).inv(nodes) && final(self).facts@ == old(self).facts@.push(
                    Fact::Same(a, b),
                ),
                Err(e) => e == Error::TypeCheck && untypable(nodes),
            },
    {
        let ghost old_vars = self.u.vars@;
        let ghost old_facts = self.facts@;
        let r = self.u.unify(a, b);
        match r {
            Ok(()) => {
                self.facts = Ghost(old_facts.push(Fact::Same(a, b)));
                proof {
                    lemma_unified(
                        nodes,
                        old_vars,
                        self.u.vars@,
                        self.roles@,
                        old_facts,
                        self.start@,
                        a,
                        b,
                    );
                }
            },
            Err(_) => {
                proof {
                    lemma_not_unified(nodes, old_vars, self.roles@, a, b);
                }
            },
        }
        r
    }
}

/// A new variable keeps what is known and every typing's solution.
proof fn lemma_fresh(
    nodes: Seq<Node>,
    vars: Seq<Binding>,
    roles: Seq<Term>,
    facts: Seq<Fact>,
    start: Seq<Binding>,
    b: Binding,
    role: Term,
)
    requires
        roles.len() == vars.len(),
        forall|i: int| 0 <= i < vars.len() ==> binding_ok(#[trigger] vars[i], i, vars.len() as int),
        binding_ok(b, vars.len() as int, vars.len() as int),
        role_fits(b, role, roles),
        knows(vars, facts),
        later(vars, start),
        complete(nodes, vars, roles),
        vars.len() < usize::MAX,
    ensures
        knows(vars.push(b), facts.push(Fact::Is(vars.len() as usize, b))),
        later(vars.push(b), start),
        complete(nodes, vars.push(b), roles.push(role)),
{
    reveal(knows);
    reveal(later);
    reveal(complete);
    let new_vars = vars.push(b);
    let new_roles = roles.push(role);
    let new_facts = facts.push(Fact::Is(vars.len() as usize, b));
    let n = vars.len() as int;
    assert forall|th: spec_fn(int) -> Type| #[trigger] satisfies(new_vars, th) implies satisfies(
        vars,
        th,
    ) by {
        assert forall|v: int| 0 <= v < vars.len() implies binding_holds(#[trigger] vars[v], v, th) by {
            assert(binding_holds(new_vars[v], v, th));
        }
    }
    assert forall|th: spec_fn(int) -> Type, i: int|
        #![trigger satisfies(new_vars, th), new_facts[i]]
        satisfies(new_vars, th) && 0 <= i < new_facts.len() implies fact_holds(
        new_facts[i],
        th,
    ) by {
        if i < facts.len() {
            assert(satisfies(vars, th));
            assert(fact_holds(facts[i], th));
        } else {
            assert(binding_holds(new_vars[n], n, th));
        }
    }
    assert forall|t: Typing| #[trigger] well_typed(nodes, t) implies satisfies(
        new_vars,
        assign(new_roles, t),
    ) by {
        let th = assign(roles, t);
        let th2 = assign(new_roles, t);
        assert(satisfies(vars, th));
        assert forall|v: int| 0 <= v < new_vars.len() implies binding_holds(
            #[trigger] new_vars[v],
            v,
            th2,
        ) by {
            if v < n {
                assert(binding_holds(vars[v], v, th));
                assert(binding_ok(vars[v], v, n));
                assert(new_roles[v] == roles[v]);
                match vars[v] {
                    Binding::Link(p) => {
                        assert(new_roles[p as int] == roles[p as int]);
                    },
                    Binding::Sum(x, y) | Binding::Product(x, y) => {
                        assert(new_roles[x as int] == roles[x as int]);
                        assert(new_roles[y as int] == roles[y as int]);
                    },
                    _ => {},
                }
            } else {
                match b {
                    Binding::Sum(x, y) | Binding::Product(x, y) => {
                        assert(new_roles[x as int] == roles[x as int]);
                        assert(new_roles[y as int] == roles[y as int]);
                    },
                    _ => {},
                }
            }
        }
    }
}

/// Unified variables keep what is known and every typing's solution, and
/// their equation is known.
proof fn lemma_unified(
    nodes: Seq<Node>,
    old_vars: Seq<Binding>,
    new_vars: Seq<Binding>,
    roles: Seq<Term>,
    facts: Seq<Fact>,
    start: Seq<Binding>,
    a: usize,
    b: usize,
)
    requires
        a < roles.len(),
        b < roles.len(),
        knows(old_vars, facts),
        later(old_vars, start),
        complete(nodes, old_vars, roles),
        agree(nodes, roles, a, b),
        forall|th: spec_fn(int) -> Type|
            #[trigger] satisfies(new_vars, th) <==> satisfies(old_vars, th) && th(a as int) == th(
                b as int,
            ),
    ensures
        knows(new_vars, facts.push(Fact::Same(a, b))),
        later(new_vars, start),
        complete(nodes, new_vars, roles),
{
    reveal(knows);
    reveal(later);
    reveal(complete);
    reveal(agree);
    let new_facts = facts.push(Fact::Same(a, b));
    assert forall|th: spec_fn(int) -> Type, i: int|
        #![trigger satisfies(new_vars, th), new_facts[i]]
        satisfies(new_vars, th) && 0 <= i < new_facts.len() implies fact_holds(
        new_facts[i],
        th,
    ) by {
        assert(satisfies(old_vars, th));
        if i < facts.len() {
            assert(fact_holds(facts[i], th));
        }
    }
    assert forall|th: spec_fn(int) -> Type| #[trigger] satisfies(new_vars, th) implies satisfies(
        start,
        th,
    ) by {
        assert(satisfies(old_vars, th));
    }
    assert forall|t: Typing| #[trigger] well_typed(nodes, t) implies satisfies(
        new_vars,
        assign(roles, t),
    ) by {
        let th = assign(roles, t);
        assert(satisfies(old_vars, th));
        assert(th(a as int) == th(b as int));
        if !satisfies(new_vars, th) {
        }
    }
}

/// Where two variables cannot be unified that stand for the same type in
/// every typing, there is no typing.
proof fn lemma_not_unified(
    nodes: Seq<Node>,
    old_vars: Seq<Binding>,
    roles: Seq<Term>,
    a: usize,
    b: usize,
)
    requires
        a < roles.len(),
        b < roles.len(),
        complete(nodes, old_vars, roles),
        agree(nodes, roles, a, b),
        forall|th: spec_fn(int) -> Type|
            #[trigger] satisfies(old_vars, th) ==> th(a as int) != th(b as int),
    ensures
        untypable(nodes),
{
    reveal(complete);
    reveal(agree);
    assert forall|t: Typing| !#[trigger] well_typed(nodes, t) by {
        if well_typed(nodes, t) {
            let th = assign(roles, t);
            assert(satisfies(old_vars, th));
            assert(th(a as int) == th(b as int));
        }
    }
}

/// A variable that is bound to the unit type has the unit type.
proof fn lemma_const_unit(vars: Seq<Binding>, facts: Seq<Fact>, r: usize)
    requires
        knows(vars, facts.push(Fact::Is(r, Binding::Unit))),
    ensures
        knows(vars, facts.push(Fact::Const(r, Type::Unit))),
{
    reveal(knows);
    let f1 = facts.push(Fact::Is(r, Binding::Unit));
    let f2 = facts.push(Fact::Const(r, Type::Unit));
    assert forall|th: spec_fn(int) -> Type, i: int|
        #![trigger satisfies(vars, th), f2[i]]
        satisfies(vars, th) && 0 <= i < f2.len() implies fact_holds(f2[i], th) by {
        assert(fact_holds(f1[i], th));
    }
}

/// A variable that is built of two variables of given types has the type
/// that is built of the two types.
proof fn lemma_const_built(
    vars: Seq<Binding>,
    facts: Seq<Fact>,
    x: usize,
    a: Type,
    y: usize,
    b: Type,
    r: usize,
    t: Type,
)
    requires
        (t == Type::Sum(Box::new(a), Box::new(b)) && knows(
            vars,
            facts.push(Fact::Const(x, a)).push(Fact::Const(y, b)).push(
                Fact::Is(r, Binding::Sum(x, y)),
            ),
        )) || (t == Type::Product(Box::new(a), Box::new(b)) && knows(
            vars,
            facts.push(Fact::Const(x, a)).push(Fact::Const(y, b)).push(
                Fact::Is(r, Binding::Product(x, y)),
            ),
        )),
    ensures
        knows(vars, facts.push(Fact::Const(r, t))),
{
    reveal(knows);
    let b3 = if t is Sum {
        Binding::Sum(x, y)
    } else {
        Binding::Product(x, y)
    };
    let f1 = facts.push(Fact::Const(x, a)).push(Fact::Const(y, b)).push(Fact::Is(r, b3));
    let f2 = facts.push(Fact::Const(r, t));
    let n = facts.len() as int;
    assert forall|th: spec_fn(int) -> Type, i: int|
        #![trigger satisfies(vars, th), f2[i]]
        satisfies(vars, th) && 0 <= i < f2.len() implies fact_holds(f2[i], th) by {
        if i < n {
            assert(fact_holds(f1[i], th));
        } else {
            assert(fact_holds(f1[n], th));
            assert(fact_holds(f1[n + 1], th));
            assert(fact_holds(f1[n + 2], th));
        }
    }
}

} // verus!
