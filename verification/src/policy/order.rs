//! The order of policies, and the canonical form in which every list of
//! branches ascends in it.
//!
//! Policies are ordered first by the kind of fragment, in the order in which
//! the kinds are declared, then by their contents from left to right; lists
//! are ordered lexicographically.

use vstd::prelude::*;
use vstd::std_specs::cmp::OrdSpec;
use vstd::seq_lib::{to_multiset_build, to_multiset_remove};
use std::cmp::Ordering;
use crate::policy::ast::{Policy, PolicyView, views, lemma_views, lemma_view_subs};
use crate::util::reversed;

verus! {

/// The order of two integers: -1, 0 or 1.
pub open spec fn int_order(a: int, b: int) -> int {
    if a < b {
        -1
    } else if a == b {
        0
    } else {
        1
    }
}

/// The order of two keys, as the key type's `cmp` gives it: -1, 0 or 1.
pub open spec fn key_order<Pk: Ord>(a: Pk, b: Pk) -> int {
    match a.cmp_spec(&b) {
        Ordering::Less => -1,
        Ordering::Equal => 0,
        Ordering::Greater => 1,
    }
}

/// Whether comparing two keys computes `key_order`.
pub open spec fn key_order_computed<Pk: Ord>() -> bool {
    Pk::obeys_cmp_spec()
}

/// What is asked of the key type's order: comparing computes `key_order`, and
/// exchanging the two keys reverses the result.
pub open spec fn key_order_lawful<Pk: Ord>() -> bool {
    &&& key_order_computed::<Pk>()
    &&& forall|a: Pk, b: Pk| #[trigger] key_order(a, b) == -key_order(b, a)
}

/// The place of a fragment's kind among the kinds.
pub open spec fn variant_rank<Pk>(p: PolicyView<Pk>) -> int {
    match p {
        PolicyView::Unsatisfiable => 0,
        PolicyView::Trivial => 1,
        PolicyView::Key(_) => 2,
        PolicyView::After(_) => 3,
        PolicyView::Older(_) => 4,
        PolicyView::Sha256(_) => 5,
        PolicyView::And(_) => 6,
        PolicyView::Or(_) => 7,
        PolicyView::Threshold(_, _) => 8,
    }
}

/// The lexicographic order of two byte strings from index `i` on.
pub open spec fn bytes_order(a: Seq<u8>, b: Seq<u8>, i: int) -> int
    decreases a.len() - i,
{
    if i < 0 || i >= a.len() || i >= b.len() {
        int_order(a.len() as int, b.len() as int)
    } else if a[i] != b[i] {
        int_order(a[i] as int, b[i] as int)
    } else {
        bytes_order(a, b, i + 1)
    }
}

/// The lexicographic order of two lists of policies from index `i` on.
pub open spec fn list_order<Pk: Ord>(
    a: Seq<PolicyView<Pk>>,
    b: Seq<PolicyView<Pk>>,
    i: int,
) -> int
    decreases a, a.len() - i,
{
    if i < 0 || i >= a.len() || i >= b.len() {
        int_order(a.len() as int, b.len() as int)
    } else {
        let c = order(a[i], b[i]);
        if c != 0 {
            c
        } else {
            list_order(a, b, i + 1)
        }
    }
}

/// The order of two policies: -1 where `a` comes first, 0 where neither
/// does, 1 where `b` comes first.
pub open spec fn order<Pk: Ord>(a: PolicyView<Pk>, b: PolicyView<Pk>) -> int
    decreases a, 0int,
{
    if variant_rank(a) != variant_rank(b) {
        int_order(variant_rank(a), variant_rank(b))
    } else {
        match (a, b) {
            (PolicyView::Key(x), PolicyView::Key(y)) => key_order(x, y),
            (PolicyView::After(x), PolicyView::After(y)) => int_order(x as int, y as int),
            (PolicyView::Older(x), PolicyView::Older(y)) => int_order(x as int, y as int),
            (PolicyView::Sha256(x), PolicyView::Sha256(y)) => bytes_order(x, y, 0),
            (PolicyView::And(x), PolicyView::And(y)) => list_order(x, y, 0),
            (PolicyView::Or(x), PolicyView::Or(y)) => list_order(x, y, 0),
            (PolicyView::Threshold(k, x), PolicyView::Threshold(l, y)) => if k != l {
                int_order(k as int, l as int)
            } else {
                list_order(x, y, 0)
            },
            _ => 0,
        }
    }
}

/// No item is followed by one that comes before it.
pub open spec fn ascending<Pk: Ord>(s: Seq<PolicyView<Pk>>) -> bool {
    forall|i: int| 0 <= i < s.len() - 1 ==> order(#[trigger] s[i], s[i + 1]) <= 0
}

/// `out` holds sorted forms of the branches `subs`, rearranged: the same
/// items, and in ascending order where the key type's order is lawful.
pub open spec fn branches_sorted<Pk: Ord>(
    subs: Seq<PolicyView<Pk>>,
    out: Seq<PolicyView<Pk>>,
) -> bool
    decreases subs, 1int,
{
    exists|mid: Seq<PolicyView<Pk>>|
        #![trigger mid.len()]
        {
            &&& mid.len() == subs.len()
            &&& forall|i: int| 0 <= i < subs.len() ==> sorted_form(subs[i], #[trigger] mid[i])
            &&& out.to_multiset() == mid.to_multiset()
            &&& key_order_lawful::<Pk>() ==> ascending(out)
        }
}

/// `r` is a sorted form of `p`: the same policy, with the branches of each
/// conjunction, disjunction and threshold sorted, at every depth.
pub open spec fn sorted_form<Pk: Ord>(p: PolicyView<Pk>, r: PolicyView<Pk>) -> bool
    decreases p, 0int,
{
    match p {
        PolicyView::And(subs) => r is And && branches_sorted(subs, r->And_0),
        PolicyView::Or(subs) => r is Or && branches_sorted(subs, r->Or_0),
        PolicyView::Threshold(k, subs) => r is Threshold && r->Threshold_0 == k && branches_sorted(
            subs,
            r->Threshold_1,
        ),
        x => r == x,
    }
}

/// Exchanging two byte strings reverses their order.
pub proof fn lemma_bytes_order_flip(a: Seq<u8>, b: Seq<u8>, i: int)
    ensures
        bytes_order(b, a, i) == -bytes_order(a, b, i),
    decreases a.len() - i,
{
    if !(i < 0 || i >= a.len() || i >= b.len()) && a[i] == b[i] {
        lemma_bytes_order_flip(a, b, i + 1);
    }
}

/// Exchanging two lists reverses their order.
pub proof fn lemma_list_order_flip<Pk: Ord>(
    a: Seq<PolicyView<Pk>>,
    b: Seq<PolicyView<Pk>>,
    i: int,
)
    requires
        key_order_lawful::<Pk>(),
    ensures
        list_order(b, a, i) == -list_order(a, b, i),
    decreases a, a.len() - i,
{
    if !(i < 0 || i >= a.len() || i >= b.len()) {
        lemma_order_flip(a[i], b[i]);
        if order(a[i], b[i]) == 0 {
            lemma_list_order_flip(a, b, i + 1);
        }
    }
}

/// Exchanging two policies reverses their order.
pub proof fn lemma_order_flip<Pk: Ord>(a: PolicyView<Pk>, b: PolicyView<Pk>)
    requires
        key_order_lawful::<Pk>(),
    ensures
        order(b, a) == -order(a, b),
    decreases a, 0int,
{
    if variant_rank(a) == variant_rank(b) {
        match (a, b) {
            (PolicyView::Key(x), PolicyView::Key(y)) => {
                assert(key_order(x, y) == -key_order(y, x));
            },
            (PolicyView::Sha256(x), PolicyView::Sha256(y)) => {
                lemma_bytes_order_flip(x, y, 0);
            },
            (PolicyView::And(x), PolicyView::And(y)) => {
                lemma_list_order_flip(x, y, 0);
            },
            (PolicyView::Or(x), PolicyView::Or(y)) => {
                lemma_list_order_flip(x, y, 0);
            },
            (PolicyView::Threshold(k, x), PolicyView::Threshold(l, y)) => {
                lemma_list_order_flip(x, y, 0);
            },
            _ => {},
        }
    }
}

/// What is asked of the key type's order beyond `key_order_lawful`: a key
/// that does not come after a second, which does not come after a third,
/// does not come after the third.
pub open spec fn key_order_transitive<Pk: Ord>() -> bool {
    &&& key_order_lawful::<Pk>()
    &&& forall|a: Pk, b: Pk, c: Pk|
        #![trigger key_order(a, b), key_order(b, c)]
        key_order(a, b) <= 0 && key_order(b, c) <= 0 ==> key_order(a, c) <= 0
}

/// The order of two integers is -1, 0 or 1.
pub proof fn lemma_order_range<Pk: Ord>(a: PolicyView<Pk>, b: PolicyView<Pk>)
    ensures
        -1 <= order(a, b) <= 1,
    decreases a, 0int,
{
    if variant_rank(a) == variant_rank(b) {
        match (a, b) {
            (PolicyView::Sha256(x), PolicyView::Sha256(y)) => {
                lemma_bytes_order_range(x, y, 0);
            },
            (PolicyView::And(x), PolicyView::And(y)) => {
                lemma_list_order_range(x, y, 0);
            },
            (PolicyView::Or(x), PolicyView::Or(y)) => {
                lemma_list_order_range(x, y, 0);
            },
            (PolicyView::Threshold(k, x), PolicyView::Threshold(l, y)) => {
                lemma_list_order_range(x, y, 0);
            },
            _ => {},
        }
    }
}

/// The order of two byte strings is -1, 0 or 1.
pub proof fn lemma_bytes_order_range(a: Seq<u8>, b: Seq<u8>, i: int)
    ensures
        -1 <= bytes_order(a, b, i) <= 1,
    decreases a.len() - i,
{
    if !(i < 0 || i >= a.len() || i >= b.len()) && a[i] == b[i] {
        lemma_bytes_order_range(a, b, i + 1);
    }
}

/// The order of two lists is -1, 0 or 1.
pub proof fn lemma_list_order_range<Pk: Ord>(
    a: Seq<PolicyView<Pk>>,
    b: Seq<PolicyView<Pk>>,
    i: int,
)
    ensures
        -1 <= list_order(a, b, i) <= 1,
    decreases a, a.len() - i,
{
    if !(i < 0 || i >= a.len() || i >= b.len()) {
        lemma_order_range(a[i], b[i]);
        if order(a[i], b[i]) == 0 {
            lemma_list_order_range(a, b, i + 1);
        }
    }
}

/// The order of byte strings is transitive, and strictly so where one of
/// the two steps is strict.
pub proof fn lemma_bytes_order_transitive(a: Seq<u8>, b: Seq<u8>, c: Seq<u8>, i: int)
    requires
        0 <= i,
        bytes_order(a, b, i) <= 0,
        bytes_order(b, c, i) <= 0,
    ensures
        bytes_order(a, c, i) <= 0,
        bytes_order(a, c, i) == 0 ==> bytes_order(a, b, i) == 0 && bytes_order(b, c, i) == 0,
    decreases a.len() - i,
{
    if i < a.len() && i < b.len() && i < c.len() && a[i] == b[i] && b[i] == c[i] {
        lemma_bytes_order_transitive(a, b, c, i + 1);
    }
}

/// The order of lists is transitive, and strictly so where one of the two
/// steps is strict.
pub proof fn lemma_list_order_transitive<Pk: Ord>(
    a: Seq<PolicyView<Pk>>,
    b: Seq<PolicyView<Pk>>,
    c: Seq<PolicyView<Pk>>,
    i: int,
)
    requires
        key_order_transitive::<Pk>(),
        0 <= i,
        list_order(a, b, i) <= 0,
        list_order(b, c, i) <= 0,
    ensures
        list_order(a, c, i) <= 0,
        list_order(a, c, i) == 0 ==> list_order(a, b, i) == 0 && list_order(b, c, i) == 0,
    decreases a, a.len() - i,
{
    if i < a.len() && i < b.len() && i < c.len() {
        lemma_order_range(a[i], b[i]);
        lemma_order_range(b[i], c[i]);
        lemma_order_transitive(a[i], b[i], c[i]);
        if order(a[i], b[i]) == 0 && order(b[i], c[i]) == 0 {
            lemma_list_order_transitive(a, b, c, i + 1);
        }
    } else if i < a.len() && i < b.len() {
        lemma_order_range(a[i], b[i]);
    }
}

/// The order of policies is transitive, and strictly so where one of the
/// two steps is strict.
pub proof fn lemma_order_transitive<Pk: Ord>(
    a: PolicyView<Pk>,
    b: PolicyView<Pk>,
    c: PolicyView<Pk>,
)
    requires
        key_order_transitive::<Pk>(),
        order(a, b) <= 0,
        order(b, c) <= 0,
    ensures
        order(a, c) <= 0,
        order(a, c) == 0 ==> order(a, b) == 0 && order(b, c) == 0,
    decreases a, 0int,
{
    if variant_rank(a) == variant_rank(b) && variant_rank(b) == variant_rank(c) {
        match (a, b, c) {
            (PolicyView::Key(x), PolicyView::Key(y), PolicyView::Key(z)) => {
                assert(key_order(x, y) <= 0 && key_order(y, z) <= 0);
                assert(key_order(x, z) <= 0);
                if key_order(x, z) == 0 {
                    // z does not come after x, so neither after y, nor y after x
                    assert(key_order(z, x) == -key_order(x, z));
                    assert(key_order(z, x) <= 0 && key_order(x, y) <= 0);
                    assert(key_order(z, y) <= 0);
                    assert(key_order(y, z) == -key_order(z, y));
                    assert(key_order(y, z) <= 0 && key_order(z, x) <= 0);
                    assert(key_order(y, x) <= 0);
                    assert(key_order(x, y) == -key_order(y, x));
                }
            },
            (PolicyView::Sha256(x), PolicyView::Sha256(y), PolicyView::Sha256(z)) => {
                lemma_bytes_order_transitive(x, y, z, 0);
            },
            (PolicyView::And(x), PolicyView::And(y), PolicyView::And(z)) => {
                lemma_list_order_transitive(x, y, z, 0);
            },
            (PolicyView::Or(x), PolicyView::Or(y), PolicyView::Or(z)) => {
                lemma_list_order_transitive(x, y, z, 0);
            },
            (
                PolicyView::Threshold(k, x),
                PolicyView::Threshold(l, y),
                PolicyView::Threshold(m, z),
            ) => {
                if k == l && l == m {
                    lemma_list_order_transitive(x, y, z, 0);
                }
            },
            _ => {},
        }
    }
}

/// In a list in which no item is followed by one that comes before it, no
/// item comes after any later one, where the key type's order is transitive.
pub proof fn lemma_ascending_pairwise<Pk: Ord>(s: Seq<PolicyView<Pk>>, i: int, j: int)
    requires
        key_order_transitive::<Pk>(),
        ascending(s),
        0 <= i < j < s.len(),
    ensures
        order(s[i], s[j]) <= 0,
    decreases j - i,
{
    if i + 1 < j {
        lemma_ascending_pairwise(s, i, j - 1);
        assert(order(s[j - 1], s[j - 1 + 1]) <= 0);
        lemma_order_transitive(s[i], s[j - 1], s[j]);
    } else {
        assert(order(s[i], s[i + 1]) <= 0);
    }
}

/// An item put into a list is one more item of its multiset.
proof fn lemma_insert_multiset<A>(s: Seq<A>, j: int, x: A)
    requires
        0 <= j <= s.len(),
    ensures
        s.insert(j, x).to_multiset() == s.to_multiset().insert(x),
{
    let t = s.insert(j, x);
    assert(t.remove(j) =~= s);
    to_multiset_remove(t, j);
    t.to_multiset_ensures();
    assert(t.contains(x)) by {
        assert(t[j] == x);
    }
    assert(t.to_multiset() =~= t.to_multiset().remove(x).insert(x));
}

proof fn lemma_views_insert<Pk>(s: Seq<Policy<Pk>>, j: int, x: Policy<Pk>)
    requires
        0 <= j <= s.len(),
    ensures
        views(s.insert(j, x)) == views(s).insert(j, x@),
{
    lemma_views(s);
    lemma_views(s.insert(j, x));
    assert(views(s.insert(j, x)) =~= views(s).insert(j, x@));
}

/// A list stays ascending when an item is put behind one that does not
/// come after it and before one that comes after it.
proof fn lemma_insert_keeps_ascending<Pk: Ord>(s: Seq<PolicyView<Pk>>, x: PolicyView<Pk>, j: int)
    requires
        key_order_lawful::<Pk>(),
        ascending(s),
        0 <= j <= s.len(),
        j > 0 ==> order(s[j - 1], x) <= 0,
        j < s.len() ==> order(s[j], x) > 0,
    ensures
        ascending(s.insert(j, x)),
{
    let t = s.insert(j, x);
    assert forall|k: int| 0 <= k < t.len() - 1 implies order(#[trigger] t[k], t[k + 1]) <= 0 by {
        if k + 1 < j {
            assert(t[k] == s[k]);
            assert(t[k + 1] == s[k + 1]);
        } else if k + 1 == j {
            assert(t[k] == s[j - 1]);
            assert(t[k + 1] == x);
        } else if k == j {
            assert(t[k] == x);
            assert(t[k + 1] == s[j]);
            lemma_order_flip(s[j], x);
        } else {
            assert(t[k] == s[k - 1]);
            assert(t[k + 1] == s[k]);
            assert(order(s[k - 1], s[k - 1 + 1]) <= 0);
        }
    }
}

/// The sorted forms of the branches are a witness of the sorted list.
proof fn lemma_branches_sorted<Pk: Ord>(
    subs: Seq<PolicyView<Pk>>,
    mid: Seq<PolicyView<Pk>>,
    out: Seq<PolicyView<Pk>>,
)
    requires
        mid.len() == subs.len(),
        forall|i: int| 0 <= i < subs.len() ==> sorted_form(subs[i], #[trigger] mid[i]),
        out.to_multiset() == mid.to_multiset(),
        key_order_lawful::<Pk>() ==> ascending(out),
    ensures
        branches_sorted(subs, out),
{
    assert(mid.len() == subs.len());
}

/// Compares two hash images byte by byte.
fn compare_images(x: &[u8; 32], y: &[u8; 32]) -> (r: i8)
    ensures
        -1 <= r <= 1,
        r == bytes_order(x@, y@, 0),
{
    let mut i: usize = 0;
    while i < 32
        invariant
            i <= 32,
            bytes_order(x@, y@, 0) == bytes_order(x@, y@, i as int),
        decreases 32 - i,
    {
        if x[i] < y[i] {
            return -1;
        }
        if x[i] > y[i] {
            return 1;
        }
        i = i + 1;
    }
    0
}

impl<Pk: Ord> Policy<Pk> {
    /// Compares two keys with the key type's own order.
    fn compare_keys(x: &Pk, y: &Pk) -> (r: i8)
        ensures
            -1 <= r <= 1,
            key_order_computed::<Pk>() ==> r == key_order(*x, *y),
    {
        match x.cmp(y) {
            Ordering::Less => -1,
            Ordering::Equal => 0,
            Ordering::Greater => 1,
        }
    }

    /// The place of the fragment's kind among the kinds.
    fn rank(&self) -> (r: u8)
        ensures
            r == variant_rank(self@),
    {
        match self {
            Policy::Unsatisfiable => 0,
            Policy::Trivial => 1,
            Policy::Key(_) => 2,
            Policy::After(_) => 3,
            Policy::Older(_) => 4,
            Policy::Sha256(_) => 5,
            Policy::And(_) => 6,
            Policy::Or(_) => 7,
            Policy::Threshold(_, _) => 8,
        }
    }

    /// Compares two policies: -1 where `self` comes first, 0 where neither
    /// does, 1 where `other` comes first.
    pub fn compare(&self, other: &Policy<Pk>) -> (r: i8)
        ensures
            -1 <= r <= 1,
            key_order_computed::<Pk>() ==> r == order(self@, other@),
        decreases self, 0int,
    {
        proof {
            lemma_view_subs(*self);
            lemma_view_subs(*other);
        }
        let ra: u8 = self.rank();
        let rb: u8 = other.rank();
        if ra < rb {
            return -1;
        }
        if ra > rb {
            return 1;
        }
        match (self, other) {
            (Policy::Key(x), Policy::Key(y)) => Self::compare_keys(x, y),
            (Policy::After(x), Policy::After(y)) => if *x < *y {
                -1
            } else if *x == *y {
                0
            } else {
                1
            },
            (Policy::Older(x), Policy::Older(y)) => if *x < *y {
                -1
            } else if *x == *y {
                0
            } else {
                1
            },
            (Policy::Sha256(x), Policy::Sha256(y)) => compare_images(x, y),
            (Policy::And(x), Policy::And(y)) => Self::compare_lists(x, y),
            (Policy::Or(x), Policy::Or(y)) => Self::compare_lists(x, y),
            (Policy::Threshold(k, x), Policy::Threshold(l, y)) => if *k < *l {
                -1
            } else if *k > *l {
                1
            } else {
                Self::compare_lists(x, y)
            },
            _ => 0,
        }
    }

    /// Compares two lists of policies lexicographically.
    fn compare_lists(a: &Vec<Policy<Pk>>, b: &Vec<Policy<Pk>>) -> (r: i8)
        ensures
            -1 <= r <= 1,
            key_order_computed::<Pk>() ==> r == list_order(views(a@), views(b@), 0),
        decreases a, 1int,
    {
        proof {
            lemma_views(a@);
            lemma_views(b@);
        }
        let mut i: usize = 0;
        while i < a.len() && i < b.len()
            invariant
                i <= a.len(),
                i <= b.len(),
                views(a@).len() == a.len(),
                views(b@).len() == b.len(),
                forall|j: int| 0 <= j < a.len() ==> (#[trigger] views(a@)[j]) == a@[j]@,
                forall|j: int| 0 <= j < b.len() ==> (#[trigger] views(b@)[j]) == b@[j]@,
                key_order_computed::<Pk>() ==> list_order(views(a@), views(b@), 0) == list_order(
                    views(a@),
                    views(b@),
                    i as int,
                ),
            decreases a.len() - i,
        {
            let c: i8 = a[i].compare(&b[i]);
            if c != 0 {
                return c;
            }
            i = i + 1;
        }
        if a.len() < b.len() {
            -1
        } else if a.len() == b.len() {
            0
        } else {
            1
        }
    }

    /// "Sort" a policy to bring it into a canonical form to allow comparisons.
    /// Does **not** allow policies to be compared for functional equivalence;
    /// in general this appears to require Gröbner basis techniques that are not
    /// implemented.
    pub fn sorted(self) -> (r: Policy<Pk>)
        ensures
            sorted_form(self@, r@),
        decreases self, 0int,
    {
        proof {
            lemma_view_subs(self);
        }
        match self {
            Policy::And(subs) => {
                let out = Self::sorted_branches(subs);
                proof {
                    lemma_view_subs(Policy::And(out));
                }
                Policy::And(out)
            },
            Policy::Or(subs) => {
                let out = Self::sorted_branches(subs);
                proof {
                    lemma_view_subs(Policy::Or(out));
                }
                Policy::Or(out)
            },
            Policy::Threshold(k, subs) => {
                let out = Self::sorted_branches(subs);
                proof {
                    lemma_view_subs(Policy::Threshold(k, out));
                }
                Policy::Threshold(k, out)
            },
            x => x,
        }
    }

    /// Sorts each branch and puts it in its place among those sorted before.
    fn sorted_branches(subs: Vec<Policy<Pk>>) -> (out: Vec<Policy<Pk>>)
        ensures
            branches_sorted(views(subs@), views(out@)),
        decreases subs, 1int,
    {
        let ghost orig = subs@;
        let ghost vs = views(orig);
        let ghost whole = subs;
        let ghost mut mid: Seq<PolicyView<Pk>> = Seq::empty();
        let n = subs.len();
        let mut rest = reversed(subs);
        let mut out: Vec<Policy<Pk>> = Vec::with_capacity(n);
        proof {
            lemma_views(orig);
            lemma_views(out@);
            assert(views(out@) =~= mid);
        }
        while rest.len() > 0
            invariant
                rest.len() <= orig.len(),
                whole@ == orig,
                whole == subs,
                vs == views(orig),
                vs.len() == orig.len(),
                forall|j: int| 0 <= j < orig.len() ==> (#[trigger] vs[j]) == orig[j]@,
                forall|j: int| 0 <= j < rest.len() ==> rest@[j] == orig[orig.len() - 1 - j],
                mid.len() == orig.len() - rest.len(),
                forall|j: int| 0 <= j < mid.len() ==> sorted_form(vs[j], #[trigger] mid[j]),
                views(out@).to_multiset() == mid.to_multiset(),
                key_order_lawful::<Pk>() ==> ascending(views(out@)),
            decreases rest.len(),
        {
            let ghost i = orig.len() - rest.len();
            let sub = rest.pop().unwrap();
            assert(sub == orig[i]);
            assert(decreases_to!(whole => whole@[i]));
            let item = sub.sorted();
            let ghost before = out@;
            proof {
                lemma_views(before);
            }
            let mut j: usize = 0;
            while j < out.len() && out[j].compare(&item) <= 0
                invariant
                    j <= out.len(),
                    out@ == before,
                    views(before).len() == before.len(),
                    forall|k: int| 0 <= k < before.len() ==> (#[trigger] views(before)[k])
                        == before[k]@,
                    key_order_computed::<Pk>() && j > 0 ==> order(views(before)[j - 1], item@) <= 0,
                decreases out.len() - j,
            {
                j = j + 1;
            }
            out.insert(j, item);
            proof {
                let old_views = views(before);
                let new_views = views(out@);
                lemma_views_insert(before, j as int, item);
                lemma_insert_multiset(old_views, j as int, item@);
                to_multiset_build(mid, item@);
                let new_mid = mid.push(item@);
                assert forall|k: int| 0 <= k < new_mid.len() implies sorted_form(
                    vs[k],
                    #[trigger] new_mid[k],
                ) by {
                    if k < mid.len() {
                        assert(new_mid[k] == mid[k]);
                    }
                }
                if key_order_lawful::<Pk>() {
                    lemma_insert_keeps_ascending(old_views, item@, j as int);
                }
                mid = new_mid;
            }
        }
        proof {
            lemma_branches_sorted(vs, mid, views(out@));
        }
        out
    }
}

} // verus!
