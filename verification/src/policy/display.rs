//! Writing a policy as text, in the plain and in the debugging form.

use vstd::prelude::*;
use vstd::string::*;
use crate::policy::ast::{Policy, PolicyView, views, lemma_views, lemma_view_subs};
use crate::text::{decimal, decimal_string, hex, hex_string};

verus! {

/// The texts, each after a comma.
pub open spec fn listed(parts: Seq<Seq<char>>) -> Seq<char>
    decreases parts.len(),
{
    if parts.len() == 0 {
        Seq::empty()
    } else {
        listed(parts.drop_last()) + ","@ + parts.last()
    }
}

/// The texts with a comma between each two.
pub open spec fn joined(parts: Seq<Seq<char>>) -> Seq<char> {
    if parts.len() == 0 {
        Seq::empty()
    } else {
        parts[0] + listed(parts.drop_first())
    }
}

/// `parts` holds one possible text of each branch, in order.
pub open spec fn each_renders<Pk, F: Fn(&Pk) -> String>(
    f: F,
    subs: Seq<PolicyView<Pk>>,
    debug: bool,
    parts: Seq<Seq<char>>,
) -> bool
    decreases subs, 1int,
{
    &&& parts.len() == subs.len()
    &&& forall|i: int|
        0 <= i < subs.len() ==> renders(f, (#[trigger] subs[i]), debug, parts[i])
}

/// `out` is `pk(`, a text that `f` may write for the key, and `)`.
pub open spec fn key_renders<Pk, F: Fn(&Pk) -> String>(f: F, pk: Pk, out: Seq<char>) -> bool {
    exists|t: String|
        #![trigger call_ensures(f, (&pk,), t)]
        call_ensures(f, (&pk,), t) && out == "pk("@ + t@ + ")"@
}

/// `out` is `head`, possible texts of the branches and `)`. The texts follow
/// a comma each where `leading` is set, and are separated by commas where it
/// is not.
pub open spec fn branches_render<Pk, F: Fn(&Pk) -> String>(
    f: F,
    subs: Seq<PolicyView<Pk>>,
    debug: bool,
    head: Seq<char>,
    leading: bool,
    out: Seq<char>,
) -> bool
    decreases subs, 2int,
{
    exists|parts: Seq<Seq<char>>|
        #![trigger parts.len()]
        each_renders(f, subs, debug, parts) && out == head + (if leading {
            listed(parts)
        } else {
            joined(parts)
        }) + ")"@
}

/// `out` is a possible text of `p`, with keys written by `f`. The debugging
/// form differs from the plain one in the two constants.
pub open spec fn renders<Pk, F: Fn(&Pk) -> String>(
    f: F,
    p: PolicyView<Pk>,
    debug: bool,
    out: Seq<char>,
) -> bool
    decreases p, 0int,
{
    match p {
        PolicyView::Unsatisfiable => out == if debug {
            "UNSATISFIABLE()"@
        } else {
            "UNSATISFIABLE"@
        },
        PolicyView::Trivial => out == if debug {
            "TRIVIAL()"@
        } else {
            "TRIVIAL"@
        },
        PolicyView::Key(pk) => key_renders(f, pk, out),
        PolicyView::After(n) => out == "after("@ + decimal(n as nat) + ")"@,
        PolicyView::Older(n) => out == "older("@ + decimal(n as nat) + ")"@,
        PolicyView::Sha256(h) => out == "sha256("@ + hex(h) + ")"@,
        PolicyView::And(subs) => branches_render(f, subs, debug, "and("@, false, out),
        PolicyView::Or(subs) => branches_render(f, subs, debug, "or("@, false, out),
        PolicyView::Threshold(k, subs) => branches_render(
            f,
            subs,
            debug,
            "thresh("@ + decimal(k as nat),
            true,
            out,
        ),
    }
}

/// Removing the last text removes its comma and itself from the list.
proof fn lemma_listed_push(parts: Seq<Seq<char>>, x: Seq<char>)
    ensures
        listed(parts.push(x)) == listed(parts) + ","@ + x,
{
    assert(parts.push(x).drop_last() =~= parts);
}

/// The texts with commas between them, extended by one more text.
proof fn lemma_joined_push(parts: Seq<Seq<char>>, x: Seq<char>)
    requires
        parts.len() > 0,
    ensures
        joined(parts.push(x)) == joined(parts) + ","@ + x,
{
    assert(parts.push(x).drop_first() =~= parts.drop_first().push(x));
    lemma_listed_push(parts.drop_first(), x);
    assert(parts[0] + (listed(parts.drop_first()) + ","@ + x) =~= (parts[0] + listed(
        parts.drop_first(),
    )) + ","@ + x);
}

/// Texts of the branches are a witness of the text of the whole.
proof fn lemma_branches_render<Pk, F: Fn(&Pk) -> String>(
    f: F,
    subs: Seq<PolicyView<Pk>>,
    debug: bool,
    head: Seq<char>,
    leading: bool,
    parts: Seq<Seq<char>>,
    out: Seq<char>,
)
    requires
        each_renders(f, subs, debug, parts),
        out == head + (if leading {
            listed(parts)
        } else {
            joined(parts)
        }) + ")"@,
    ensures
        branches_render(f, subs, debug, head, leading, out),
{
    assert(parts.len() == subs.len());
}

impl<Pk> Policy<Pk> {
    /// The policy as text: `and(pk(A),older(9))`. Keys are written by `key_text`.
    pub fn to_text<F>(&self, key_text: F) -> (r: String) where F: Fn(&Pk) -> String
        requires
            forall|pk: &Pk| #[trigger] call_requires(key_text, (pk,)),
        ensures
            renders(key_text, self@, false, r@),
    {
        self.render(&key_text, false)
    }

    /// The policy as text for debugging: as `to_text`, but the two constants
    /// are followed by `()`. Keys are written by `key_text`.
    pub fn to_debug_text<F>(&self, key_text: F) -> (r: String) where F: Fn(&Pk) -> String
        requires
            forall|pk: &Pk| #[trigger] call_requires(key_text, (pk,)),
        ensures
            renders(key_text, self@, true, r@),
    {
        self.render(&key_text, true)
    }

    /// Writes the policy in the plain or in the debugging form.
    pub fn render<F>(&self, key_text: &F, debug: bool) -> (r: String) where F: Fn(&Pk) -> String
        requires
            forall|pk: &Pk| #[trigger] call_requires(*key_text, (pk,)),
        ensures
            renders(*key_text, self@, debug, r@),
        decreases self, 0int,
    {
        proof {
            lemma_view_subs(*self);
        }
        match self {
            Policy::Unsatisfiable => if debug {
                String::from_str("UNSATISFIABLE()")
            } else {
                String::from_str("UNSATISFIABLE")
            },
            Policy::Trivial => if debug {
                String::from_str("TRIVIAL()")
            } else {
                String::from_str("TRIVIAL")
            },
            Policy::Key(pk) => {
                let mut s = String::from_str("pk(");
                let t = key_text(pk);
                s.append(t.as_str());
                s.append(")");

                s
            },
            Policy::After(n) => {
                let mut s = String::from_str("after(");
                let t = decimal_string(*n as u64);
                s.append(t.as_str());
                s.append(")");
                s
            },
            Policy::Older(n) => {
                let mut s = String::from_str("older(");
                let t = decimal_string(*n as u64);
                s.append(t.as_str());
                s.append(")");
                s
            },
            Policy::Sha256(h) => {
                let mut s = String::from_str("sha256(");
                let t = hex_string(h.as_slice());
                s.append(t.as_str());
                s.append(")");
                s
            },
            Policy::And(subs) => {
                let mut s = String::from_str("and(");
                let Ghost(parts) = Self::render_branches(subs, key_text, debug, false, &mut s);
                s.append(")");

                s
            },
            Policy::Or(subs) => {
                let mut s = String::from_str("or(");
                let Ghost(parts) = Self::render_branches(subs, key_text, debug, false, &mut s);
                s.append(")");
                assert(s@ == "or("@ + (if false {
                    listed(parts)
                } else {
                    joined(parts)
                }) + ")"@);
                proof {
                    lemma_branches_render(*key_text, views(subs@), debug, "or("@, false, parts, s@);
                }
                s
            },
            Policy::Threshold(k, subs) => {
                let mut s = String::from_str("thresh(");
                let t = decimal_string(*k as u64);
                s.append(t.as_str());
                let Ghost(parts) = Self::render_branches(subs, key_text, debug, true, &mut s);
                s.append(")");
                assert(s@ == ("thresh("@ + decimal(*k as nat)) + (if true {
                    listed(parts)
                } else {
                    joined(parts)
                }) + ")"@);
                proof {
                    lemma_branches_render(
                        *key_text,
                        views(subs@),
                        debug,
                        "thresh("@ + decimal(*k as nat),
                        true,
                        parts,
                        s@,
                    );
                }
                s
            },
        }
    }

    /// Appends the texts of the branches to `s`: each after a comma where
    /// `leading` is set, with commas between them where it is not.
    fn render_branches<F>(
        subs: &Vec<Policy<Pk>>,
        key_text: &F,
        debug: bool,
        leading: bool,
        s: &mut String,
    ) -> (parts: Ghost<Seq<Seq<char>>>) where F: Fn(&Pk) -> String
        requires
            forall|pk: &Pk| #[trigger] call_requires(*key_text, (pk,)),
        ensures
            each_renders(*key_text, views(subs@), debug, parts@),
            final(s)@ == old(s)@ + if leading {
                listed(parts@)
            } else {
                joined(parts@)
            },
        decreases subs, 1int,
    {
        let ghost vs = views(subs@);
        let ghost start = s@;
        let ghost mut parts: Seq<Seq<char>> = Seq::empty();
        proof {
            lemma_views(subs@);
            assert(start + Seq::<char>::empty() =~= start);
        }
        let mut i: usize = 0;
        while i < subs.len()
            invariant
                i <= subs.len(),
                parts.len() == i,
                vs == views(subs@),
                vs.len() == subs.len(),
                forall|j: int| 0 <= j < subs.len() ==> (#[trigger] vs[j]) == subs@[j]@,
                forall|pk: &Pk| #[trigger] call_requires(*key_text, (pk,)),
                forall|j: int| 0 <= j < i ==> renders(*key_text, vs[j], debug, #[trigger] parts[j]),
                s@ == start + if leading {
                    listed(parts)
                } else {
                    joined(parts)
                },
            decreases subs.len() - i,
        {
            let t = subs[i].render(key_text, debug);
            if leading || i > 0 {
                s.append(",");
            }
            s.append(t.as_str());
            proof {
                lemma_listed_push(parts, t@);
                if i > 0 {
                    lemma_joined_push(parts, t@);
                } else {
                    assert(parts.push(t@).drop_first() =~= Seq::<Seq<char>>::empty());
                }
                let next = parts.push(t@);
                assert(s@ =~= start + if leading {
                    listed(next)
                } else {
                    joined(next)
                });
                parts = next;
            }
            i = i + 1;
        }
        Ghost(parts)
    }
}

} // verus!
