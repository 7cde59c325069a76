//! Converting a policy over one kind of public key to another kind.

use vstd::prelude::*;
use crate::policy::ast::{Policy, PolicyView, views, lemma_views, lemma_view_subs};

verus! {

/// The view of a translation's outcome.
pub open spec fn outcome_view<Q, E>(r: Result<Policy<Q>, E>) -> Result<PolicyView<Q>, E> {
    match r {
        Ok(p) => Ok(p@),
        Err(e) => Err(e),
    }
}

/// `out` holds one possible translation of each branch, in order.
pub open spec fn each_translates<Pk, Q, E, F: Fn(&Pk) -> Result<Q, E>>(
    f: F,
    subs: Seq<PolicyView<Pk>>,
    out: Seq<PolicyView<Q>>,
) -> bool
    decreases subs, 1int,
{
    &&& out.len() == subs.len()
    &&& forall|i: int|
        0 <= i < subs.len() ==> translates(f, (#[trigger] subs[i]), Ok::<PolicyView<Q>, E>(out[i]))
}

/// Some branch fails with `e`, and every branch before it can be translated.
pub open spec fn fails_at_first<Pk, Q, E, F: Fn(&Pk) -> Result<Q, E>>(
    f: F,
    subs: Seq<PolicyView<Pk>>,
    e: E,
) -> bool
    decreases subs, 1int,
{
    exists|i: int, before: Seq<PolicyView<Q>>|
        #![trigger subs[i], before.len()]
        0 <= i < subs.len() && before.len() == i && translates(
            f,
            subs[i],
            Err::<PolicyView<Q>, E>(e),
        ) && forall|j: int|
            0 <= j < i ==> translates(f, subs[j], Ok::<PolicyView<Q>, E>(#[trigger] before[j]))
}

/// `r` is a possible outcome of translating `p` with the key function `f`:
/// the shape is kept, each key is replaced by what `f` may return for it, and
/// the first key (from left to right) that `f` rejects gives the error.
pub open spec fn translates<Pk, Q, E, F: Fn(&Pk) -> Result<Q, E>>(
    f: F,
    p: PolicyView<Pk>,
    r: Result<PolicyView<Q>, E>,
) -> bool
    decreases p, 0int,
{
    match p {
        PolicyView::Unsatisfiable => r == Ok::<PolicyView<Q>, E>(PolicyView::Unsatisfiable),
        PolicyView::Trivial => r == Ok::<PolicyView<Q>, E>(PolicyView::Trivial),
        PolicyView::After(n) => r == Ok::<PolicyView<Q>, E>(PolicyView::After(n)),
        PolicyView::Older(n) => r == Ok::<PolicyView<Q>, E>(PolicyView::Older(n)),
        PolicyView::Sha256(h) => r == Ok::<PolicyView<Q>, E>(PolicyView::Sha256(h)),
        PolicyView::Key(pk) => match r {
            Ok(PolicyView::Key(q)) => call_ensures(f, (&pk,), Ok(q)),
            Ok(_) => false,
            Err(e) => call_ensures(f, (&pk,), Err(e)),
        },
        PolicyView::And(subs) => match r {
            Ok(PolicyView::And(out)) => each_translates::<Pk, Q, E, F>(f, subs, out),
            Ok(_) => false,
            Err(e) => fails_at_first::<Pk, Q, E, F>(f, subs, e),
        },
        PolicyView::Or(subs) => match r {
            Ok(PolicyView::Or(out)) => each_translates::<Pk, Q, E, F>(f, subs, out),
            Ok(_) => false,
            Err(e) => fails_at_first::<Pk, Q, E, F>(f, subs, e),
        },
        PolicyView::Threshold(k, subs) => match r {
            Ok(PolicyView::Threshold(k2, out)) => k2 == k && each_translates::<Pk, Q, E, F>(
                f,
                subs,
                out,
            ),
            Ok(_) => false,
            Err(e) => fails_at_first::<Pk, Q, E, F>(f, subs, e),
        },
    }
}

/// The outcome of translating a list of branches.
pub open spec fn list_outcome<Pk, Q, E, F: Fn(&Pk) -> Result<Q, E>>(
    f: F,
    subs: Seq<PolicyView<Pk>>,
    r: Result<Vec<Policy<Q>>, E>,
) -> bool {
    match r {
        Ok(out) => each_translates::<Pk, Q, E, F>(f, subs, views(out@)),
        Err(e) => fails_at_first::<Pk, Q, E, F>(f, subs, e),
    }
}

impl<Pk> Policy<Pk> {
    /// Convert a policy using one kind of public key to another
    /// type of public key
    pub fn translate<Fpk, Q, E>(&self, translatefpk: Fpk) -> (r: Result<Policy<Q>, E>) where
        Fpk: Fn(&Pk) -> Result<Q, E>,

        requires
            forall|pk: &Pk| #[trigger] call_requires(translatefpk, (pk,)),
        ensures
            translates(translatefpk, self@, outcome_view(r)),
    {
        self.translate_with(&translatefpk)
    }

    /// As `translate`, with the key function borrowed.
    pub fn translate_with<Fpk, Q, E>(&self, translatefpk: &Fpk) -> (r: Result<Policy<Q>, E>) where
        Fpk: Fn(&Pk) -> Result<Q, E>,

        requires
            forall|pk: &Pk| #[trigger] call_requires(*translatefpk, (pk,)),
        ensures
            translates(*translatefpk, self@, outcome_view(r)),
        decreases self, 0int,
    {
        proof {
            lemma_view_subs(*self);
        }
        match self {
            Policy::Unsatisfiable => Ok(Policy::Unsatisfiable),
            Policy::Trivial => Ok(Policy::Trivial),
            Policy::Key(pk) => match translatefpk(pk) {
                Ok(q) => Ok(Policy::Key(q)),
                Err(e) => Err(e),
            },
            Policy::Sha256(h) => Ok(Policy::Sha256(*h)),
            Policy::After(n) => Ok(Policy::After(*n)),
            Policy::Older(n) => Ok(Policy::Older(*n)),
            Policy::Threshold(k, subs) => match Self::translate_all(subs, translatefpk) {
                Ok(out) => {
                    proof {
                        lemma_view_subs(Policy::Threshold(*k, out));
                    }
                    Ok(Policy::Threshold(*k, out))
                },
                Err(e) => Err(e),
            },
            Policy::And(subs) => match Self::translate_all(subs, translatefpk) {
                Ok(out) => {
                    proof {
                        lemma_view_subs(Policy::And(out));
                    }
                    Ok(Policy::And(out))
                },
                Err(e) => Err(e),
            },
            Policy::Or(subs) => match Self::translate_all(subs, translatefpk) {
                Ok(out) => {
                    proof {
                        lemma_view_subs(Policy::Or(out));
                    }
                    Ok(Policy::Or(out))
                },
                Err(e) => Err(e),
            },
        }
    }

    /// Translates the branches from left to right and stops at the first failure.
    fn translate_all<Fpk, Q, E>(subs: &Vec<Policy<Pk>>, translatefpk: &Fpk) -> (r: Result<
        Vec<Policy<Q>>,
        E,
    >) where Fpk: Fn(&Pk) -> Result<Q, E>
        requires
            forall|pk: &Pk| #[trigger] call_requires(*translatefpk, (pk,)),
        ensures
            list_outcome(*translatefpk, views(subs@), r),
        decreases subs, 1int,
    {
        let ghost vs = views(subs@);
        proof {
            lemma_views(subs@);
        }
        let mut out: Vec<Policy<Q>> = Vec::with_capacity(subs.len());
        let mut i: usize = 0;
        while i < subs.len()
            invariant
                i <= subs.len(),
                out.len() == i,
                vs == views(subs@),
                vs.len() == subs.len(),
                forall|j: int| 0 <= j < subs.len() ==> (#[trigger] vs[j]) == subs@[j]@,
                forall|pk: &Pk| #[trigger] call_requires(*translatefpk, (pk,)),
                forall|j: int|
                    0 <= j < i ==> translates(
                        *translatefpk,
                        (#[trigger] vs[j]),
                        Ok::<PolicyView<Q>, E>(views(out@)[j]),
                    ),
            decreases subs.len() - i,
        {
            let ghost before = views(out@);
            proof {
                lemma_views(out@);
            }
            match subs[i].translate_with(translatefpk) {
                Ok(q) => {
                    out.push(q);
                    proof {
                        lemma_views(out@);
                        assert forall|j: int| 0 <= j < i + 1 implies translates(
                            *translatefpk,
                            (#[trigger] vs[j]),
                            Ok::<PolicyView<Q>, E>(views(out@)[j]),
                        ) by {
                            if j < i {
                                assert(views(out@)[j] == before[j]);
                            }
                        }
                    }
                },
                Err(e) => {
                    proof {
                        let k = i as int;
                        assert(translates(*translatefpk, vs[k], Err::<PolicyView<Q>, E>(e)));
                        assert(before.len() == k);
                        assert(fails_at_first::<Pk, Q, E, Fpk>(*translatefpk, vs, e));
                    }
                    return Err(e);
                },
            }
            i = i + 1;
        }
        proof {
            lemma_views(out@);
        }
        Ok(out)
    }
}

} // verus!
