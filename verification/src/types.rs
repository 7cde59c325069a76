//! Finite types, and arenas in which equal types are stored once.

use vstd::prelude::*;
use crate::error::Error;

verus! {

/// A finite type.
#[derive(Debug, PartialEq, Eq)]
pub enum Type {
    /// The type with one value
    Unit,
    /// Either a value of the first type or one of the second
    Sum(Box<Type>, Box<Type>),
    /// A value of the first type and one of the second
    Product(Box<Type>, Box<Type>),
}

impl Type {
    /// The number of bits that a value of the type takes.
    pub open spec fn bit_width(self) -> nat
        decreases self,
    {
        match self {
            Type::Unit => 0,
            Type::Sum(a, b) => {
                let wa = a.bit_width();
                let wb = b.bit_width();
                1 + if wa >= wb {
                    wa
                } else {
                    wb
                }
            },
            Type::Product(a, b) => a.bit_width() + b.bit_width(),
        }
    }

    /// The number of constructors of the type.
    pub open spec fn size(self) -> nat
        decreases self,
    {
        match self {
            Type::Unit => 1,
            Type::Sum(a, b) => 1 + a.size() + b.size(),
            Type::Product(a, b) => 1 + a.size() + b.size(),
        }
    }

    /// The type of one bit.
    pub open spec fn bit() -> Type {
        Type::Sum(Box::new(Type::Unit), Box::new(Type::Unit))
    }

    /// The type of 2^`n` bits: a bit, doubled `n` times.
    pub open spec fn word(n: nat) -> Type
        decreases n,
    {
        if n == 0 {
            Type::bit()
        } else {
            Type::Product(Box::new(Type::word((n - 1) as nat)), Box::new(Type::word((n - 1) as nat)))
        }
    }

    /// Computes the width of the type, unless it exceeds 32 bits.
    pub fn width(&self) -> (r: Result<u32, Error>)
        ensures
            match r {
                Ok(w) => w == self.bit_width(),
                Err(e) => e == Error::NaturalOverflow && self.bit_width() > u32::MAX,
            },
        decreases self,
    {
        match self {
            Type::Unit => Ok(0),
            Type::Sum(a, b) => {
                let wa = match a.width() {
                    Ok(w) => w,
                    Err(e) => {
                        return Err(e);
                    },
                };
                let wb = match b.width() {
                    Ok(w) => w,
                    Err(e) => {
                        return Err(e);
                    },
                };
                let m = if wa >= wb {
                    wa
                } else {
                    wb
                };
                if m == u32::MAX {
                    Err(Error::NaturalOverflow)
                } else {
                    Ok(m + 1)
                }
            },
            Type::Product(a, b) => {
                let wa = match a.width() {
                    Ok(w) => w,
                    Err(e) => {
                        return Err(e);
                    },
                };
                let wb = match b.width() {
                    Ok(w) => w,
                    Err(e) => {
                        return Err(e);
                    },
                };
                if wa > u32::MAX - wb {
                    Err(Error::NaturalOverflow)
                } else {
                    Ok(wa + wb)
                }
            },
        }
    }
}

/// An entry of a type arena. The parts of a type are indices of earlier entries.
#[derive(Clone, Copy, Debug, PartialEq, Eq, Structural)]
pub enum TypeNode {
    Unit,
    Sum(usize, usize),
    Product(usize, usize),
}

impl TypeNode {
    /// Every part is an index below `i`.
    pub open spec fn parts_below(self, i: int) -> bool {
        match self {
            TypeNode::Unit => true,
            TypeNode::Sum(a, b) | TypeNode::Product(a, b) => a < i && b < i,
        }
    }
}

/// The type that entry `i` stands for.
pub open spec fn tree(nodes: Seq<TypeNode>, i: int) -> Type
    decreases i,
{
    if i < 0 || i >= nodes.len() {
        Type::Unit
    } else {
        match nodes[i] {
            TypeNode::Unit => Type::Unit,
            TypeNode::Sum(a, b) => if a < i && b < i {
                Type::Sum(Box::new(tree(nodes, a as int)), Box::new(tree(nodes, b as int)))
            } else {
                Type::Unit
            },
            TypeNode::Product(a, b) => if a < i && b < i {
                Type::Product(Box::new(tree(nodes, a as int)), Box::new(tree(nodes, b as int)))
            } else {
                Type::Unit
            },
        }
    }
}

/// The type of an entry does not depend on the entries behind it.
pub proof fn lemma_tree_prefix(a: Seq<TypeNode>, b: Seq<TypeNode>, i: int)
    requires
        0 <= i < a.len() <= b.len(),
        forall|j: int| 0 <= j <= i ==> a[j] == b[j],
    ensures
        tree(a, i) == tree(b, i),
    decreases i,
{
    match a[i] {
        TypeNode::Unit => {},
        TypeNode::Sum(x, y) | TypeNode::Product(x, y) => {
            if x < i && y < i {
                lemma_tree_prefix(a, b, x as int);
                lemma_tree_prefix(a, b, y as int);
            }
        },
    }
}

/// Types stored by their parts, with the width of each.
pub struct TypeArena {
    pub nodes: Vec<TypeNode>,
    pub widths: Vec<u32>,
}

impl TypeArena {
    /// Every entry is built from earlier entries, and its width is recorded.
    pub open spec fn wf(&self) -> bool {
        &&& self.widths.len() == self.nodes.len()
        &&& forall|i: int|
            0 <= i < self.nodes.len() ==> (#[trigger] self.nodes[i]).parts_below(i)
        &&& forall|i: int|
            0 <= i < self.nodes.len() ==> (#[trigger] self.widths[i]) == tree(
                self.nodes@,
                i,
            ).bit_width()
    }

    /// The type that entry `i` stands for.
    pub open spec fn type_at(&self, i: int) -> Type {
        tree(self.nodes@, i)
    }

    /// `self` holds the entries of `old`, at the same places.
    pub open spec fn extends(&self, old: &TypeArena) -> bool {
        &&& old.nodes.len() <= self.nodes.len()
        &&& forall|i: int| 0 <= i < old.nodes.len() ==> self.nodes[i] == old.nodes[i]
    }

    /// An arena without entries.
    pub fn new() -> (r: TypeArena)
        ensures
            r.wf(),
            r.nodes.len() == 0,
    {
        TypeArena { nodes: Vec::new(), widths: Vec::new() }
    }

    /// The types of old entries stay what they were.
    pub proof fn lemma_extends(&self, old: &TypeArena, i: int)
        requires
            self.extends(old),
            0 <= i < old.nodes.len(),
        ensures
            self.type_at(i) == old.type_at(i),
    {
        lemma_tree_prefix(old.nodes@, self.nodes@, i);
    }

    /// An entry stands for the type that is built from the types of its
    /// parts, and its width is recorded.
    pub proof fn lemma_shape(&self, i: int)
        requires
            self.wf(),
            0 <= i < self.nodes.len(),
        ensures
            self.widths[i] == self.type_at(i).bit_width(),
            match self.nodes[i] {
                TypeNode::Unit => self.type_at(i) == Type::Unit,
                TypeNode::Sum(a, b) => a < i && b < i && self.type_at(i) == Type::Sum(
                    Box::new(self.type_at(a as int)),
                    Box::new(self.type_at(b as int)),
                ) && self.type_at(i).bit_width() == 1 + (if self.widths[a as int]
                    >= self.widths[b as int] {
                    self.widths[a as int]
                } else {
                    self.widths[b as int]
                }),
                TypeNode::Product(a, b) => a < i && b < i && self.type_at(i) == Type::Product(
                    Box::new(self.type_at(a as int)),
                    Box::new(self.type_at(b as int)),
                ) && self.type_at(i).bit_width() == self.widths[a as int] + self.widths[b as int],
            },
    {
        assert(self.nodes[i].parts_below(i));
        match self.nodes[i] {
            TypeNode::Unit => {},
            TypeNode::Sum(a, b) | TypeNode::Product(a, b) => {
                assert(self.widths[a as int] == tree(self.nodes@, a as int).bit_width());
                assert(self.widths[b as int] == tree(self.nodes@, b as int).bit_width());
            },
        }
    }

    /// The width that an entry built from earlier entries would have.
    pub open spec fn width_of(&self, node: TypeNode) -> nat {
        match node {
            TypeNode::Unit => 0,
            TypeNode::Sum(a, b) => {
                let wa = self.widths[a as int] as nat;
                let wb = self.widths[b as int] as nat;
                1 + if wa >= wb {
                    wa
                } else {
                    wb
                }
            },
            TypeNode::Product(a, b) => (self.widths[a as int] + self.widths[b as int]) as nat,
        }
    }

    /// The index of the entry with the given parts. The entry is added where
    /// the arena does not hold it yet. A type wider than 32 bits can count is
    /// refused, and the arena stays as it was.
    pub fn intern(&mut self, node: TypeNode) -> (r: Result<usize, Error>)
        requires
            old(self).wf(),
            node.parts_below(old(self).nodes.len() as int),
        ensures
            final(self).wf(),
            final(self).extends(old(self)),
            match r {
                Ok(i) => {
                    &&& old(self).width_of(node) <= u32::MAX
                    &&& i < final(self).nodes.len()
                    &&& final(self).nodes[i as int] == node
                    &&& final(self).nodes.len() <= old(self).nodes.len() + 1
                },
                Err(e) => {
                    &&& e == Error::NaturalOverflow
                    &&& old(self).width_of(node) > u32::MAX
                    &&& final(self).nodes@ == old(self).nodes@
                },
            },
    {
        let mut i: usize = 0;
        while i < self.nodes.len()
            invariant
                i <= self.nodes.len(),
                *self == *old(self),
                self.wf(),
            decreases self.nodes.len() - i,
        {
            if self.nodes[i] == node {
                proof {
                    assert(self.nodes[i as int].parts_below(i as int));
                    assert(self.widths[i as int] == tree(self.nodes@, i as int).bit_width());
                    match node {
                        TypeNode::Unit => {},
                        TypeNode::Sum(a, b) | TypeNode::Product(a, b) => {
                            assert(self.widths[a as int] == tree(self.nodes@, a as int).bit_width());
                            assert(self.widths[b as int] == tree(self.nodes@, b as int).bit_width());
                        },
                    }
                }
                return Ok(i);
            }
            i = i + 1;
        }
        let w: u32 = match node {
            TypeNode::Unit => 0,
            TypeNode::Sum(a, b) => {
                let wa = self.widths[a];
                let wb = self.widths[b];
                let m = if wa >= wb {
                    wa
                } else {
                    wb
                };
                if m == u32::MAX {
                    return Err(Error::NaturalOverflow);
                }
                m + 1
            },
            TypeNode::Product(a, b) => {
                let wa = self.widths[a];
                let wb = self.widths[b];
                if wa > u32::MAX - wb {
                    return Err(Error::NaturalOverflow);
                }
                wa + wb
            },
        };
        let ghost before = *self;
        self.nodes.push(node);
        self.widths.push(w);
        proof {
            let n = before.nodes.len() as int;
            assert forall|k: int| 0 <= k < self.nodes.len() implies (#[trigger] self.widths[k])
                == tree(self.nodes@, k).bit_width() by {
                if k < n {
                    lemma_tree_prefix(before.nodes@, self.nodes@, k);
                } else {
                    match node {
                        TypeNode::Unit => {},
                        TypeNode::Sum(a, b) | TypeNode::Product(a, b) => {
                            lemma_tree_prefix(before.nodes@, self.nodes@, a as int);
                            lemma_tree_prefix(before.nodes@, self.nodes@, b as int);
                        },
                    }
                }
            }
        }
        Ok(self.nodes.len() - 1)
    }
}

} // verus!
