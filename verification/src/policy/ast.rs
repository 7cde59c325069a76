//! # Abstract Policies
//!
//! These policies represent spending conditions in the most simplest form
//! Policies are combination of `and`, `or` and `thresh` fragments. For example,
//! or(pk(A),pk(B)) represents a policy that can be spend with either pk(A) or pk(B).

use vstd::prelude::*;
use crate::util::reversed;

verus! {

/// Policy that expresses spending conditions for Simplicity.
///
/// The policy can be normalized and is amenable to semantic analysis.
#[derive(Debug, PartialEq, Eq, PartialOrd, Ord)]
pub enum Policy<Pk> {
    /// Unsatisfiable
    Unsatisfiable,
    /// Trivially satisfiable
    Trivial,
    /// Provide a signature that matches the given public key and some given message hash
    Key(Pk),
    /// Absolute timelock
    After(u32),
    /// Relative timelock
    Older(u32),
    /// Provide the preimage of the given SHA256 hash image
    Sha256([u8; 32]),
    /// Satisfy all of the given sub-policies
    And(Vec<Policy<Pk>>),
    /// Satisfy exactly one of the given sub-policies
    Or(Vec<Policy<Pk>>),
    /// Satisfy exactly `k` of the given sub-policies
    Threshold(usize, Vec<Policy<Pk>>),
}

/// The mathematical value of a policy: the same tree, over sequences.
pub enum PolicyView<Pk> {
    Unsatisfiable,
    Trivial,
    Key(Pk),
    After(u32),
    Older(u32),
    Sha256(Seq<u8>),
    And(Seq<PolicyView<Pk>>),
    Or(Seq<PolicyView<Pk>>),
    Threshold(usize, Seq<PolicyView<Pk>>),
}

impl<Pk> View for Policy<Pk> {
    type V = PolicyView<Pk>;

    open spec fn view(&self) -> PolicyView<Pk> {
        policy_view(*self)
    }
}

/// The value of a policy.
pub open spec fn policy_view<Pk>(p: Policy<Pk>) -> PolicyView<Pk>
    decreases p,
{
    match p {
        Policy::Unsatisfiable => PolicyView::Unsatisfiable,
        Policy::Trivial => PolicyView::Trivial,
        Policy::Key(pk) => PolicyView::Key(pk),
        Policy::After(n) => PolicyView::After(n),
        Policy::Older(n) => PolicyView::Older(n),
        Policy::Sha256(h) => PolicyView::Sha256(h@),
        Policy::And(subs) => PolicyView::And(views_prefix(subs@, subs@.len())),
        Policy::Or(subs) => PolicyView::Or(views_prefix(subs@, subs@.len())),
        Policy::Threshold(k, subs) => PolicyView::Threshold(k, views_prefix(subs@, subs@.len())),
    }
}

/// The values of the first `n` policies of a list.
pub open spec fn views_prefix<Pk>(subs: Seq<Policy<Pk>>, n: nat) -> Seq<PolicyView<Pk>>
    decreases subs, n,
{
    if n == 0 || n > subs.len() {
        Seq::empty()
    } else {
        views_prefix(subs, (n - 1) as nat).push(policy_view(subs[n - 1]))
    }
}

/// The values of a list of policies, item by item.
pub open spec fn views<Pk>(subs: Seq<Policy<Pk>>) -> Seq<PolicyView<Pk>> {
    views_prefix(subs, subs.len())
}

/// `views_prefix` is the item-wise view of the prefix.
pub proof fn lemma_views_prefix<Pk>(subs: Seq<Policy<Pk>>, n: nat)
    requires
        n <= subs.len(),
    ensures
        views_prefix(subs, n).len() == n,
        forall|i: int| 0 <= i < n ==> (#[trigger] views_prefix(subs, n)[i]) == subs[i]@,
    decreases n,
{
    if n > 0 {
        lemma_views_prefix(subs, (n - 1) as nat);
    }
}

/// `views` is the item-wise view of the list.
pub proof fn lemma_views<Pk>(subs: Seq<Policy<Pk>>)
    ensures
        views(subs).len() == subs.len(),
        forall|i: int| 0 <= i < subs.len() ==> (#[trigger] views(subs)[i]) == subs[i]@,
{
    lemma_views_prefix(subs, subs.len());
}

/// The sub-policies of a conjunction after flattening its first `n` branches:
/// each branch is normalized, a trivial one is dropped, a nested conjunction
/// is spliced in. `None` when one of them is unsatisfiable.
pub open spec fn and_flat<Pk>(subs: Seq<PolicyView<Pk>>, n: nat) -> Option<Seq<PolicyView<Pk>>>
    decreases subs, n,
{
    if n == 0 || n > subs.len() {
        Some(Seq::empty())
    } else {
        match and_flat(subs, (n - 1) as nat) {
            None => None,
            Some(acc) => match normalized_view(subs[n - 1]) {
                PolicyView::Trivial => Some(acc),
                PolicyView::Unsatisfiable => None,
                PolicyView::And(inner) => Some(acc + inner),
                x => Some(acc.push(x)),
            },
        }
    }
}

/// The sub-policies of a disjunction after flattening its first `n` branches:
/// an unsatisfiable branch is dropped, a nested disjunction is spliced in.
/// The branches themselves are taken as they are. `None` when one of them is trivial.
pub open spec fn or_flat<Pk>(subs: Seq<PolicyView<Pk>>, n: nat) -> Option<Seq<PolicyView<Pk>>>
    decreases n,
{
    if n == 0 || n > subs.len() {
        Some(Seq::empty())
    } else {
        match or_flat(subs, (n - 1) as nat) {
            None => None,
            Some(acc) => match subs[n - 1] {
                PolicyView::Trivial => None,
                PolicyView::Unsatisfiable => Some(acc),
                PolicyView::Or(inner) => Some(acc + inner),
                x => Some(acc.push(x)),
            },
        }
    }
}

/// The normal form of a policy.
pub open spec fn normalized_view<Pk>(p: PolicyView<Pk>) -> PolicyView<Pk>
    decreases p,
{
    match p {
        PolicyView::And(subs) => match and_flat(subs, subs.len()) {
            None => PolicyView::Unsatisfiable,
            Some(acc) => if acc.len() == 0 {
                PolicyView::Trivial
            } else if acc.len() == 1 {
                acc[0]
            } else {
                PolicyView::And(acc)
            },
        },
        PolicyView::Or(subs) => match or_flat(subs, subs.len()) {
            None => PolicyView::Trivial,
            Some(acc) => if acc.len() == 0 {
                PolicyView::Trivial
            } else if acc.len() == 1 {
                acc[0]
            } else {
                PolicyView::Or(acc)
            },
        },
        x => x,
    }
}

proof fn lemma_views_push<Pk>(s: Seq<Policy<Pk>>, x: Policy<Pk>)
    ensures
        views(s.push(x)) == views(s).push(x@),
{
    lemma_views(s);
    lemma_views(s.push(x));
    assert(views(s.push(x)) =~= views(s).push(x@));
}

proof fn lemma_views_add<Pk>(s: Seq<Policy<Pk>>, t: Seq<Policy<Pk>>)
    ensures
        views(s + t) == views(s) + views(t),
{
    lemma_views(s);
    lemma_views(t);
    lemma_views(s + t);
    assert(views(s + t) =~= views(s) + views(t));
}

/// The view of a policy's branches is the list of the branches' views.
pub proof fn lemma_view_subs<Pk>(p: Policy<Pk>)
    ensures
        p matches Policy::And(subs) ==> p@ == PolicyView::And(views(subs@)),
        p matches Policy::Or(subs) ==> p@ == PolicyView::Or(views(subs@)),
        p matches Policy::Threshold(k, subs) ==> p@ == PolicyView::Threshold(k, views(subs@)),
{
}

impl<Pk> Policy<Pk> {
    /// Flatten out trees of `And`s and `Or`s; eliminate `Trivial` and
    /// `Unsatisfiable`s. Does not reorder any branches; use `.sort`.
    pub fn normalized(self) -> (r: Policy<Pk>)
        ensures
            r@ == normalized_view(self@),
        decreases self,
    {
        proof {
            lemma_view_subs(self);
        }
        match self {
            Policy::And(subs) => {
                let ghost orig = subs@;
                let ghost vs = views(orig);
                let ghost whole = subs;
                let n = subs.len();
                let mut rest = reversed(subs);
                let mut ret_subs: Vec<Policy<Pk>> = Vec::with_capacity(n);
                while rest.len() > 0
                    invariant
                        rest.len() <= orig.len(),
                        whole@ == orig,
                        self == Policy::And(whole),
                        vs == views(orig),
                        forall|j: int|
                            0 <= j < rest.len() ==> rest@[j] == orig[orig.len() - 1 - j],
                        and_flat(vs, (orig.len() - rest.len()) as nat) == Some(views(ret_subs@)),
                    decreases rest.len(),
                {
                    let ghost i = orig.len() - rest.len();
                    let sub = rest.pop().unwrap();
                    assert(sub == orig[i]);
                    proof {
                        lemma_views(orig);
                    }
                    assert(vs[i] == sub@);
                    let ghost before = ret_subs@;
                    assert(decreases_to!(whole => whole@[i]));
                    match sub.normalized() {
                        Policy::Trivial => {},
                        Policy::Unsatisfiable => {
                            proof {
                                lemma_and_flat_none(vs, (i + 1) as nat, orig.len());
                            }
                            return Policy::Unsatisfiable;
                        },
                        Policy::And(and_subs) => {
                            proof {
                                lemma_view_subs(Policy::And(and_subs));
                                lemma_views_add(before, and_subs@);
                            }
                            let mut and_subs = and_subs;
                            ret_subs.append(&mut and_subs);
                        },
                        x => {
                            proof {
                                lemma_views_push(before, x);
                            }
                            ret_subs.push(x);
                        },
                    }
                }
                proof {
                    lemma_view_subs(Policy::And(ret_subs));
                    lemma_views(ret_subs@);
                    lemma_views(orig);
                }
                if ret_subs.len() == 0 {
                    Policy::Trivial
                } else if ret_subs.len() == 1 {
                    ret_subs.pop().unwrap()
                } else {
                    Policy::And(ret_subs)
                }
            },
            Policy::Or(subs) => {
                let ghost orig = subs@;
                let ghost vs = views(orig);
                let ghost whole = subs;
                let n = subs.len();
                let mut rest = reversed(subs);
                let mut ret_subs: Vec<Policy<Pk>> = Vec::with_capacity(n);
                while rest.len() > 0
                    invariant
                        rest.len() <= orig.len(),
                        whole@ == orig,
                        self == Policy::Or(whole),
                        vs == views(orig),
                        forall|j: int|
                            0 <= j < rest.len() ==> rest@[j] == orig[orig.len() - 1 - j],
                        or_flat(vs, (orig.len() - rest.len()) as nat) == Some(views(ret_subs@)),
                    decreases rest.len(),
                {
                    let ghost i = orig.len() - rest.len();
                    let sub = rest.pop().unwrap();
                    assert(sub == orig[i]);
                    proof {
                        lemma_views(orig);
                    }
                    assert(vs[i] == sub@);
                    let ghost before = ret_subs@;
                    proof {
                        lemma_view_subs(sub);
                    }
                    match sub {
                        Policy::Trivial => {
                            proof {
                                lemma_or_flat_none(vs, (i + 1) as nat, orig.len());
                            }
                            return Policy::Trivial;
                        },
                        Policy::Unsatisfiable => {},
                        Policy::Or(or_subs) => {
                            proof {
                                lemma_views_add(before, or_subs@);
                            }
                            let mut or_subs = or_subs;
                            ret_subs.append(&mut or_subs);
                        },
                        x => {
                            proof {
                                lemma_views_push(before, x);
                            }
                            ret_subs.push(x);
                        },
                    }
                }
                proof {
                    lemma_view_subs(Policy::Or(ret_subs));
                    lemma_views(ret_subs@);
                    lemma_views(orig);
                }
                if ret_subs.len() == 0 {
                    Policy::Trivial
                } else if ret_subs.len() == 1 {
                    ret_subs.pop().unwrap()
                } else {
                    Policy::Or(ret_subs)
                }
            },
            x => x,
        }
    }
}

/// Once a branch of a conjunction is unsatisfiable, so is every longer prefix.
proof fn lemma_and_flat_none<Pk>(subs: Seq<PolicyView<Pk>>, n: nat, m: nat)
    requires
        and_flat(subs, n) is None,
        n <= m <= subs.len(),
    ensures
        and_flat(subs, m) is None,
    decreases m,
{
    if n < m {
        lemma_and_flat_none(subs, n, (m - 1) as nat);
    }
}

/// Once a branch of a disjunction is trivial, every longer prefix stays so.
proof fn lemma_or_flat_none<Pk>(subs: Seq<PolicyView<Pk>>, n: nat, m: nat)
    requires
        or_flat(subs, n) is None,
        n <= m <= subs.len(),
    ensures
        or_flat(subs, m) is None,
    decreases m,
{
    if n < m {
        lemma_or_flat_none(subs, n, (m - 1) as nat);
    }
}

} // verus!
