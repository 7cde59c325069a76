//! Programs as flat sequences of combinator nodes that refer to earlier nodes
//! by index.

use vstd::prelude::*;
use crate::error::Error;

verus! {

/// One combinator of a program. Children are indices of earlier nodes.
#[derive(Clone, Copy, Debug, PartialEq, Eq)]
pub enum Node {
    /// Identity
    Iden,
    /// The only value of the unit type
    Unit,
    /// Left injection of the child's result
    InjL(usize),
    /// Right injection of the child's result
    InjR(usize),
    /// The child, run on the left half of the input
    Take(usize),
    /// The child, run on the right half of the input
    Drop(usize),
    /// The second child after the first
    Comp(usize, usize),
    /// The first or the second child, by the tag of the input
    Case(usize, usize),
    /// The results of both children, side by side
    Pair(usize, usize),
    /// The second child on a part of what the first returns, which is given
    /// the second child's commitment as data
    Disconnect(usize, usize),
    /// Data supplied with the program
    Witness,
    /// A pruned branch, of which only the commitment is left
    Hidden([u8; 32]),
    /// A native function, by its number
    Jet(u32),
}

impl Node {
    /// The first child, if the node has children.
    pub open spec fn first(self) -> Option<usize> {
        match self {
            Node::InjL(c) | Node::InjR(c) | Node::Take(c) | Node::Drop(c) => Some(c),
            Node::Comp(l, _) | Node::Case(l, _) | Node::Pair(l, _) | Node::Disconnect(l, _) => Some(
                l,
            ),
            _ => None,
        }
    }

    /// The second child, if the node has two.
    pub open spec fn second(self) -> Option<usize> {
        match self {
            Node::Comp(_, r) | Node::Case(_, r) | Node::Pair(_, r) | Node::Disconnect(_, r) => Some(
                r,
            ),
            _ => None,
        }
    }

    /// Every child is an index below `i`.
    pub open spec fn refers_below(self, i: int) -> bool {
        &&& self.first() matches Some(c) ==> c < i
        &&& self.second() matches Some(c) ==> c < i
    }

    /// The first child, if the node has children.
    pub fn first_child(&self) -> (r: Option<usize>)
        ensures
            r == self.first(),
    {
        match self {
            Node::InjL(c) | Node::InjR(c) | Node::Take(c) | Node::Drop(c) => Some(*c),
            Node::Comp(l, _) | Node::Case(l, _) | Node::Pair(l, _) | Node::Disconnect(l, _) => Some(
                *l,
            ),
            _ => None,
        }
    }

    /// The second child, if the node has two.
    pub fn second_child(&self) -> (r: Option<usize>)
        ensures
            r == self.second(),
    {
        match self {
            Node::Comp(_, r) | Node::Case(_, r) | Node::Pair(_, r) | Node::Disconnect(_, r) => Some(
                *r,
            ),
            _ => None,
        }
    }
}

/// Every node refers to earlier nodes only, so the graph has no cycle.
pub open spec fn acyclic(nodes: Seq<Node>) -> bool {
    forall|i: int| 0 <= i < nodes.len() ==> (#[trigger] nodes[i]).refers_below(i)
}

/// The rule on pruned branches, for a node that is put behind `nodes`: only
/// a `case` may have one as a child, and not as both children.
pub open spec fn hidden_rule(nodes: Seq<Node>, node: Node) -> Result<(), Error>
    recommends
        node.refers_below(nodes.len() as int),
{
    match node {
        Node::Case(l, r) => if nodes[l as int] is Hidden && nodes[r as int] is Hidden {
            Err(Error::CaseMultipleHiddenChildren)
        } else {
            Ok(())
        },
        _ => if (node.first() matches Some(c) && nodes[c as int] is Hidden) || (
        node.second() matches Some(c) && nodes[c as int] is Hidden) {
            Err(Error::NonCaseHiddenChild)
        } else {
            Ok(())
        },
    }
}

/// The rule on pruned branches holds of every node.
pub open spec fn hidden_placed(nodes: Seq<Node>) -> bool {
    forall|i: int|
        0 <= i < nodes.len() ==> hidden_rule(nodes.take(i), #[trigger] nodes[i]) is Ok
}

/// Checks the rule on pruned branches for a node that is put behind `nodes`.
pub fn check_hidden_rule(nodes: &Vec<Node>, node: &Node) -> (r: Result<(), Error>)
    requires
        node.refers_below(nodes.len() as int),
    ensures
        r == hidden_rule(nodes@, *node),
{
    match node {
        Node::Case(l, r) => {
            if is_hidden(&nodes[*l]) && is_hidden(&nodes[*r]) {
                Err(Error::CaseMultipleHiddenChildren)
            } else {
                Ok(())
            }
        },
        _ => {
            let a = match node.first_child() {
                Some(c) => is_hidden(&nodes[c]),
                None => false,
            };
            let b = match node.second_child() {
                Some(c) => is_hidden(&nodes[c]),
                None => false,
            };
            if a || b {
                Err(Error::NonCaseHiddenChild)
            } else {
                Ok(())
            }
        },
    }
}

/// Whether the node is a pruned branch.
pub fn is_hidden(node: &Node) -> (r: bool)
    ensures
        r == (*node is Hidden),
{
    match node {
        Node::Hidden(_) => true,
        _ => false,
    }
}

/// Walks the graph below node `k` in post-order, the first child before the
/// second, when the nodes below `seen` have been met already. Gives the
/// number of nodes met afterwards, or `None` where a node is met that is not
/// the next one in the sequence.
pub open spec fn walk(nodes: Seq<Node>, k: int, seen: int) -> Option<int>
    decreases k,
{
    if k < seen || k < 0 || k >= nodes.len() {
        Some(seen)
    } else {
        let after_first = match nodes[k].first() {
            Some(c) => if c < k {
                walk(nodes, c as int, seen)
            } else {
                None
            },
            None => Some(seen),
        };
        match after_first {
            None => None,
            Some(s1) => {
                let after_second = match nodes[k].second() {
                    Some(c) => if c < k {
                        walk(nodes, c as int, s1)
                    } else {
                        None
                    },
                    None => Some(s1),
                };
                match after_second {
                    None => None,
                    Some(s2) => if s2 == k {
                        Some(k + 1)
                    } else {
                        None
                    },
                }
            },
        }
    }
}

/// The nodes stand in canonical order: a post-order walk from the last node,
/// the first child before the second, meets them in the order of the sequence,
/// and meets all of them.
pub open spec fn canonical_order(nodes: Seq<Node>) -> bool {
    nodes.len() > 0 && walk(nodes, nodes.len() - 1, 0) == Some(nodes.len() as int)
}

/// Computes `walk`.
pub fn walk_from(nodes: &Vec<Node>, k: usize, seen: usize) -> (r: Option<usize>)
    requires
        k < nodes.len(),
        seen <= nodes.len(),
    ensures
        match r {
            Some(s) => walk(nodes@, k as int, seen as int) == Some(s as int) && s <= nodes.len(),
            None => walk(nodes@, k as int, seen as int) is None,
        },
    decreases k,
{
    if k < seen {
        return Some(seen);
    }
    let s1: usize = match nodes[k].first_child() {
        Some(c) => {
            if c < k {
                match walk_from(nodes, c, seen) {
                    Some(s) => s,
                    None => {
                        return None;
                    },
                }
            } else {
                return None;
            }
        },
        None => seen,
    };
    let s2: usize = match nodes[k].second_child() {
        Some(c) => {
            if c < k {
                match walk_from(nodes, c, s1) {
                    Some(s) => s,
                    None => {
                        return None;
                    },
                }
            } else {
                return None;
            }
        },
        None => s1,
    };
    if s2 == k {
        Some(k + 1)
    } else {
        None
    }
}

/// Whether the nodes stand in canonical order.
pub fn is_canonical_order(nodes: &Vec<Node>) -> (r: bool)
    ensures
        r == canonical_order(nodes@),
{
    if nodes.len() == 0 {
        return false;
    }
    match walk_from(nodes, nodes.len() - 1, 0) {
        Some(s) => s == nodes.len(),
        None => false,
    }
}

} // verus!
