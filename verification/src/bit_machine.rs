//! The Bit Machine: runs a typed program on the bits of its input.
//!
//! All values live in one growing array of cells. A node reads its input
//! from a frame, a stretch of the array as wide as its source type, and
//! appends its output, a frame as wide as its target type, at the end.

use vstd::prelude::*;
use vstd::arithmetic::power2::{pow2, lemma_pow2_unfold, lemma2_to64};
use crate::bititer::{bit_at, bits_of};
use crate::dag::Node;
use crate::inference::node_typed;
use crate::jet;
use crate::merkle::{commitments, digest_views, lemma_commitments};
use crate::program::{Program, witness_used, lemma_witness_used_grows};
use crate::types::{Type, TypeNode, tree};

verus! {

/// Why a run did not give a value.
#[derive(Clone, Copy, Debug, PartialEq, Eq, Structural)]
pub enum Failure {
    /// The input has not the width of the program's source type
    InputWidth,
    /// The run reached a pruned branch
    HiddenBranch,
    /// A jet refused its input
    Jet,
}

/// `n` cells that are not set.
pub open spec fn zeros(n: int) -> Seq<bool> {
    Seq::new(
        if n > 0 {
            n as nat
        } else {
            0nat
        },
        |i: int| false,
    )
}

/// The widths of the two sides of the sum that a `case` node reads: its
/// source type is the product of that sum and of a further type.
pub open spec fn branch_widths(t: Type) -> (nat, nat) {
    match t {
        Type::Product(ab, _) => match *ab {
            Type::Sum(a, b) => (a.bit_width(), b.bit_width()),
            _ => (0, 0),
        },
        _ => (0, 0),
    }
}

/// The larger of two numbers.
pub open spec fn larger(a: nat, b: nat) -> nat {
    if a >= b {
        a
    } else {
        b
    }
}

impl Program {
    /// The width of the source type of node `k`.
    pub open spec fn sw(&self, k: int) -> nat {
        self.typing.source_type(k).bit_width()
    }

    /// The width of the target type of node `k`.
    pub open spec fn tw(&self, k: int) -> nat {
        self.typing.target_type(k).bit_width()
    }

    /// The commitment of node `k`, as bits.
    pub open spec fn commitment_bits(&self, k: int) -> Seq<bool> {
        bits_of(commitments(self.nodes@, self.nodes.len() as nat)[k])
    }

    /// What node `k` returns for an input of its source type, or why it
    /// returns nothing.
    pub open spec fn eval(&self, k: int, input: Seq<bool>) -> Result<Seq<bool>, Failure>
        decreases k,
    {
        if k < 0 || k >= self.nodes.len() {
            Err(Failure::HiddenBranch)
        } else {
            match self.nodes[k] {
                Node::Iden => Ok(input),
                Node::Unit => Ok(Seq::empty()),
                Node::InjL(c) => if c < k {
                    match self.eval(c as int, input) {
                        Ok(o) => Ok(
                            seq![false] + zeros(self.tw(k) - 1 - self.tw(c as int)) + o,
                        ),
                        Err(e) => Err(e),
                    }
                } else {
                    Err(Failure::HiddenBranch)
                },
                Node::InjR(c) => if c < k {
                    match self.eval(c as int, input) {
                        Ok(o) => Ok(seq![true] + zeros(self.tw(k) - 1 - self.tw(c as int)) + o),
                        Err(e) => Err(e),
                    }
                } else {
                    Err(Failure::HiddenBranch)
                },
                Node::Take(c) => if c < k {
                    self.eval(c as int, input.take(self.sw(c as int) as int))
                } else {
                    Err(Failure::HiddenBranch)
                },
                Node::Drop(c) => if c < k {
                    self.eval(c as int, input.skip(self.sw(k) - self.sw(c as int)))
                } else {
                    Err(Failure::HiddenBranch)
                },
                Node::Comp(l, r) => if l < k && r < k {
                    match self.eval(l as int, input) {
                        Ok(m) => self.eval(r as int, m),
                        Err(e) => Err(e),
                    }
                } else {
                    Err(Failure::HiddenBranch)
                },
                Node::Case(l, r) => if l < k && r < k && input.len() > 0 {
                    let (wa, wb) = branch_widths(self.typing.source_type(k));
                    if !input[0] {
                        if self.nodes[l as int] is Hidden {
                            Err(Failure::HiddenBranch)
                        } else {
                            self.eval(l as int, input.skip(1 + larger(wa, wb) - wa))
                        }
                    } else {
                        if self.nodes[r as int] is Hidden {
                            Err(Failure::HiddenBranch)
                        } else {
                            self.eval(r as int, input.skip(1 + larger(wa, wb) - wb))
                        }
                    }
                } else {
                    Err(Failure::HiddenBranch)
                },
                Node::Pair(l, r) => if l < k && r < k {
                    match self.eval(l as int, input) {
                        Ok(a) => match self.eval(r as int, input) {
                            Ok(b) => Ok(a + b),
                            Err(e) => Err(e),
                        },
                        Err(e) => Err(e),
                    }
                } else {
                    Err(Failure::HiddenBranch)
                },
                Node::Disconnect(l, r) => if l < k && r < k {
                    match self.eval(l as int, self.commitment_bits(r as int) + input) {
                        Ok(bc) => {
                            let wb = self.tw(l as int) - self.sw(r as int);
                            match self.eval(r as int, bc.skip(wb)) {
                                Ok(d) => Ok(bc.take(wb) + d),
                                Err(e) => Err(e),
                            }
                        },
                        Err(e) => Err(e),
                    }
                } else {
                    Err(Failure::HiddenBranch)
                },
                Node::Witness => Ok(
                    self.witness@.subrange(
                        self.offsets[k] as int,
                        self.offsets[k] + self.tw(k),
                    ),
                ),
                Node::Hidden(_) => Err(Failure::HiddenBranch),
                Node::Jet(id) => match jet::result(id, input) {
                    Some(o) => Ok(o),
                    None => Err(Failure::Jet),
                },
            }
        }
    }

    /// What the program returns for an input of its source type.
    pub open spec fn output(&self, input: Seq<bool>) -> Result<Seq<bool>, Failure> {
        if input.len() != self.sw(self.nodes.len() - 1) {
            Err(Failure::InputWidth)
        } else {
            self.eval(self.nodes.len() - 1, input)
        }
    }

    /// The width of the source type of node `k`.
    pub fn source_width(&self, k: usize) -> (r: usize)
        requires
            self.wf(),
            k < self.nodes.len(),
        ensures
            r == self.sw(k as int),
    {
        proof {
            self.lemma_wf_node(k as int);
        }
        self.typing.arena.widths[self.typing.source[k]] as usize
    }

    /// The width of the target type of node `k`.
    pub fn target_width(&self, k: usize) -> (r: usize)
        requires
            self.wf(),
            k < self.nodes.len(),
        ensures
            r == self.tw(k as int),
    {
        proof {
            self.lemma_wf_node(k as int);
        }
        self.typing.arena.widths[self.typing.target[k]] as usize
    }

    /// Whether `r` is what a run of the program on `input` returns: the
    /// value of the program, or the failure.
    pub open spec fn gives(&self, input: Seq<bool>, r: Result<Vec<bool>, Failure>) -> bool {
        match self.output(input) {
            Ok(out) => r matches Ok(v) && v@ == out,
            Err(e) => r == Err::<Vec<bool>, Failure>(e),
        }
    }

    /// Runs the program on an input of its source type.
    pub fn exec(&self, input: &Vec<bool>) -> (r: Result<Vec<bool>, Failure>)
        requires
            self.wf(),
        ensures
            self.gives(input@, r),
            r matches Ok(v) ==> v.len() == self.tw(self.nodes.len() - 1),
    {
        proof {
            self.lemma_wf();
        }
        let root = self.nodes.len() - 1;
        if input.len() != self.source_width(root) {
            return Err(Failure::InputWidth);
        }
        let mut cells: Vec<bool> = Vec::with_capacity(input.len());
        let mut i: usize = 0;
        while i < input.len()
            invariant
                i <= input.len(),
                cells@ == input@.take(i as int),
            decreases input.len() - i,
        {
            cells.push(input[i]);
            assert(cells@ =~= input@.take(i + 1));
            i = i + 1;
        }
        assert(cells@ =~= input@);
        assert(cells@.subrange(0, input.len() as int) =~= input@);
        let r = self.run(root, &mut cells, 0);
        match r {
            Ok(()) => {
                let out = cells.split_off(input.len());
                proof {
                    let o = self.eval(root as int, input@)->Ok_0;
                    assert(out@ =~= o);
                }
                Ok(out)
            },
            Err(e) => Err(e),
        }
    }

    /// `r` and `after` are what a run of node `k` leaves, when the cells were
    /// `before` and the frame begins at cell `read`: the output is appended.
    pub open spec fn ran(
        &self,
        k: int,
        before: Seq<bool>,
        read: int,
        after: Seq<bool>,
        r: Result<(), Failure>,
    ) -> bool {
        match self.eval(k, before.subrange(read, read + self.sw(k))) {
            Ok(out) => r is Ok && after == before + out && out.len() == self.tw(k),
            Err(e) => r == Err::<(), Failure>(e),
        }
    }

    /// Runs node `k` on the frame that begins at cell `read`, and appends
    /// what it returns to the cells.
    pub fn run(&self, k: usize, cells: &mut Vec<bool>, read: usize) -> (r: Result<(), Failure>)
        requires
            self.wf(),
            k < self.nodes.len(),
            read + self.sw(k as int) <= old(cells).len(),
        ensures
            self.ran(k as int, old(cells)@, read as int, final(cells)@, r),
        decreases k, 1int,
    {
        let ghost start = cells@;
        let ghost input = start.subrange(read as int, read + self.sw(k as int));
        proof {
            self.lemma_wf_node(k as int);
            self.typing.arena.lemma_shape(self.typing.source[k as int] as int);
            match self.nodes@[k as int] {
                Node::Take(c) | Node::Drop(c) => {
                    self.lemma_wf_node(c as int);
                },
                _ => {},
            }
        }
        match self.nodes[k] {
            Node::Iden => self.run_iden(k, cells, read),
            Node::Unit => {
                assert(cells@ =~= start + Seq::<bool>::empty());
                Ok(())
            },
            Node::InjL(c) => self.run_injection(k, c, false, cells, read),
            Node::InjR(c) => self.run_injection(k, c, true, cells, read),
            Node::Take(c) => {
                proof {
                    assert(start.subrange(read as int, read + self.sw(c as int)) =~= input.take(
                        self.sw(c as int) as int,
                    ));
                }
                self.run(c, cells, read)
            },
            Node::Drop(c) => {
                let ws = self.source_width(k);
                let wc = self.source_width(c);
                proof {
                    assert(start.subrange(read + ws - wc, read + ws - wc + wc) =~= input.skip(
                        ws - wc,
                    ));
                }
                self.run(c, cells, read + (ws - wc))
            },
            Node::Comp(l, r) => self.run_comp(k, l, r, cells, read),
            Node::Case(l, r) => self.run_case(k, l, r, cells, read),
            Node::Pair(l, r) => self.run_pair(k, l, r, cells, read),
            Node::Disconnect(l, r) => self.run_disconnect(k, l, r, cells, read),
            Node::Witness => self.run_witness(k, cells, read),
            Node::Hidden(_) => Err(Failure::HiddenBranch),
            Node::Jet(id) => self.run_jet(k, id, cells, read),
        }
    }

    /// Copies the frame.
    fn run_iden(&self, k: usize, cells: &mut Vec<bool>, read: usize) -> (r: Result<(), Failure>)
        requires
            self.wf(),
            k < self.nodes.len(),
            self.nodes[k as int] is Iden,
            read + self.sw(k as int) <= old(cells).len(),
        ensures
            self.ran(k as int, old(cells)@, read as int, final(cells)@, r),
    {
        let ws = self.source_width(k);
        proof {
            self.lemma_wf_node(k as int);
        }
        self.copy_frame(cells, read, ws);
        Ok(())
    }

    /// Writes the tag and the padding of a sum, and then runs the child.
    fn run_injection(
        &self,
        k: usize,
        c: usize,
        right: bool,
        cells: &mut Vec<bool>,
        read: usize,
    ) -> (r: Result<(), Failure>)
        requires
            self.wf(),
            k < self.nodes.len(),
            self.nodes[k as int] == (if right {
                Node::InjR(c)
            } else {
                Node::InjL(c)
            }),
            read + self.sw(k as int) <= old(cells).len(),
        ensures
            self.ran(k as int, old(cells)@, read as int, final(cells)@, r),
        decreases k, 0int,
    {
        let ghost start = cells@;
        let ghost input = start.subrange(read as int, read + self.sw(k as int));
        let ws = self.source_width(k);
        let wt = self.target_width(k);
        proof {
            self.lemma_wf_node(k as int);
            self.lemma_wf_node(c as int);
            self.typing.arena.lemma_shape(self.typing.target[k as int] as int);
        }
        let wc = self.target_width(c);
        cells.push(right);
        self.pad(cells, wt - 1 - wc);
        proof {
            assert(cells@.take(start.len() as int) =~= start);
            lemma_extended(start, cells@, read as int, read + ws);
        }
        match self.run(c, cells, read) {
            Ok(()) => {
                proof {
                    let o = self.eval(c as int, input)->Ok_0;
                    assert(cells@ =~= start + (seq![right] + zeros(wt - 1 - wc) + o));
                }
                Ok(())
            },
            Err(e) => Err(e),
        }
    }

    /// Runs the first child into a new frame and the second child on that frame.
    fn run_comp(&self, k: usize, l: usize, r: usize, cells: &mut Vec<bool>, read: usize) -> (res:
        Result<(), Failure>)
        requires
            self.wf(),
            k < self.nodes.len(),
            self.nodes[k as int] == Node::Comp(l, r),
            read + self.sw(k as int) <= old(cells).len(),
        ensures
            self.ran(k as int, old(cells)@, read as int, final(cells)@, res),
        decreases k, 0int,
    {
        let ghost start = cells@;
        let ghost input = start.subrange(read as int, read + self.sw(k as int));
        proof {
            self.lemma_wf_node(k as int);
            self.lemma_wf_node(l as int);
            self.lemma_wf_node(r as int);
        }
        let mid = cells.len();
        match self.run(l, cells, read) {
            Ok(()) => {},
            Err(e) => {
                return Err(e);
            },
        }
        let ghost m = self.eval(l as int, input)->Ok_0;
        let wm = cells.len() - mid;
        proof {
            assert(cells@.subrange(mid as int, mid + wm) =~= m);
        }
        match self.run(r, cells, mid) {
            Ok(()) => {},
            Err(e) => {
                return Err(e);
            },
        }
        let ghost o = self.eval(r as int, m)->Ok_0;
        let mut tail = cells.split_off(mid + wm);
        cells.truncate(mid);
        cells.append(&mut tail);
        proof {
            assert(cells@ =~= start + o);
        }
        Ok(())
    }

    /// The types around a `case` node: its source type is the product of a sum
    /// and a further type, and each child that is not pruned reads one side
    /// of the sum and the further type.
    pub proof fn lemma_case_shape(&self, k: int, l: usize, r: usize)
        requires
            self.wf(),
            0 <= k < self.nodes.len(),
            self.nodes[k] == Node::Case(l, r),
        ensures
            l < k,
            r < k,
            self.typing.source.len() == self.nodes.len(),
            self.typing.arena.widths.len() == self.typing.arena.nodes.len(),
            self.typing.source[k] < self.typing.arena.nodes.len(),
            ({
                &&& self.typing.arena.nodes[self.typing.source[k] as int] matches TypeNode::Product(
                    ab,
                    c,
                )
                &&& ab < self.typing.arena.nodes.len()
                &&& c < self.typing.arena.nodes.len()
                &&& self.typing.arena.nodes[ab as int] matches TypeNode::Sum(a, b)
                &&& a < self.typing.arena.nodes.len()
                &&& b < self.typing.arena.nodes.len()
                &&& branch_widths(self.typing.source_type(k)) == (
                    self.typing.arena.widths[a as int] as nat,
                    self.typing.arena.widths[b as int] as nat,
                )
                &&& self.sw(k) == 1 + larger(
                    self.typing.arena.widths[a as int] as nat,
                    self.typing.arena.widths[b as int] as nat,
                ) + self.typing.arena.widths[c as int]
                &&& !(self.nodes[l as int] is Hidden) ==> self.sw(l as int)
                    == self.typing.arena.widths[a as int] + self.typing.arena.widths[c as int]
                &&& !(self.nodes[r as int] is Hidden) ==> self.sw(r as int)
                    == self.typing.arena.widths[b as int] + self.typing.arena.widths[c as int]
                &&& !(self.nodes[l as int] is Hidden) ==> self.tw(l as int) == self.tw(k)
                &&& !(self.nodes[r as int] is Hidden) ==> self.tw(r as int) == self.tw(k)
            }),
    {
        self.lemma_wf_node(k);
        self.lemma_wf_node(l as int);
        self.lemma_wf_node(r as int);
        let arena = self.typing.arena;
        let s = self.typing.source[k];
        arena.lemma_shape(s as int);
        arena.lemma_shape(self.typing.source[l as int] as int);
        arena.lemma_shape(self.typing.source[r as int] as int);
        match arena.nodes[s as int] {
            TypeNode::Product(ab, c) => {
                arena.lemma_shape(ab as int);
                arena.lemma_shape(c as int);
                match arena.nodes[ab as int] {
                    TypeNode::Sum(a, b) => {
                        arena.lemma_shape(a as int);
                        arena.lemma_shape(b as int);
                    },
                    _ => {},
                }
            },
            _ => {},
        }
    }

    /// Reads the tag of the sum and runs the child that it selects, on the
    /// frame behind the tag and the padding.
    #[verifier::rlimit(50)]
    fn run_case(&self, k: usize, l: usize, r: usize, cells: &mut Vec<bool>, read: usize) -> (res:
        Result<(), Failure>)
        requires
            self.wf(),
            k < self.nodes.len(),
            self.nodes[k as int] == Node::Case(l, r),
            read + self.sw(k as int) <= old(cells).len(),
        ensures
            self.ran(k as int, old(cells)@, read as int, final(cells)@, res),
        decreases k, 0int,
    {
        let ghost start = cells@;
        let ghost input = start.subrange(read as int, read + self.sw(k as int));
        proof {
            self.lemma_case_shape(k as int, l, r);
        }
        let s = self.typing.source[k];
        let arena = &self.typing.arena;
        match arena.nodes[s] {
            TypeNode::Product(ab, c) => {
                match arena.nodes[ab] {
                    TypeNode::Sum(a, b) => {
                        let wa = arena.widths[a] as usize;
                        let wb = arena.widths[b] as usize;
                        let m = if wa >= wb {
                            wa
                        } else {
                            wb
                        };
                        proof {
                            assert(input.len() > 0);
                            assert(input[0] == start[read as int]);
                        }
                        if !cells[read] {
                            match self.nodes[l] {
                                Node::Hidden(_) => Err(Failure::HiddenBranch),
                                _ => {
                                    proof {
                                        let off = 1 + m - wa;
                                        assert(start.subrange(
                                            read + off,
                                            read + off + self.sw(l as int),
                                        ) =~= input.skip(off));
                                    }
                                    self.run(l, cells, read + 1 + (m - wa))
                                },
                            }
                        } else {
                            match self.nodes[r] {
                                Node::Hidden(_) => Err(Failure::HiddenBranch),
                                _ => {
                                    proof {
                                        let off = 1 + m - wb;
                                        assert(start.subrange(
                                            read + off,
                                            read + off + self.sw(r as int),
                                        ) =~= input.skip(off));
                                    }
                                    self.run(r, cells, read + 1 + (m - wb))
                                },
                            }
                        }
                    },
                    _ => Err(Failure::HiddenBranch),
                }
            },
            _ => Err(Failure::HiddenBranch),
        }
    }

    /// Runs both children on the same frame, one output behind the other.
    fn run_pair(&self, k: usize, l: usize, r: usize, cells: &mut Vec<bool>, read: usize) -> (res:
        Result<(), Failure>)
        requires
            self.wf(),
            k < self.nodes.len(),
            self.nodes[k as int] == Node::Pair(l, r),
            read + self.sw(k as int) <= old(cells).len(),
        ensures
            self.ran(k as int, old(cells)@, read as int, final(cells)@, res),
        decreases k, 0int,
    {
        let ghost start = cells@;
        let ghost input = start.subrange(read as int, read + self.sw(k as int));
        let ws = self.source_width(k);
        proof {
            self.lemma_wf_node(k as int);
            self.lemma_wf_node(l as int);
            self.lemma_wf_node(r as int);
            self.typing.arena.lemma_shape(self.typing.target[k as int] as int);
        }
        match self.run(l, cells, read) {
            Ok(()) => {},
            Err(e) => {
                return Err(e);
            },
        }
        let ghost a = self.eval(l as int, input)->Ok_0;
        proof {
            assert(cells@.take(start.len() as int) =~= start);
            lemma_extended(start, cells@, read as int, read + ws);
        }
        match self.run(r, cells, read) {
            Ok(()) => {
                proof {
                    let b = self.eval(r as int, input)->Ok_0;
                    assert(cells@ =~= start + (a + b));
                }
                Ok(())
            },
            Err(e) => Err(e),
        }
    }

    /// The types around a `disconnect` node: the first child reads 256 bits
    /// and the input, and returns two parts, the second of which the second
    /// child reads.
    pub proof fn lemma_disconnect_shape(&self, k: int, l: usize, r: usize)
        requires
            self.wf(),
            0 <= k < self.nodes.len(),
            self.nodes[k] == Node::Disconnect(l, r),
        ensures
            l < k,
            r < k,
            self.typing.target.len() == self.nodes.len(),
            self.typing.arena.widths.len() == self.typing.arena.nodes.len(),
            self.typing.target[l as int] < self.typing.arena.nodes.len(),
            self.commitment_bits(r as int).len() == 256,
            self.sw(l as int) == 256 + self.sw(k),
            ({
                &&& self.typing.arena.nodes[self.typing.target[l as int] as int] matches TypeNode::Product(
                    b,
                    _,
                )
                &&& b < self.typing.arena.nodes.len()
                &&& self.typing.arena.widths[b as int] + self.sw(r as int) == self.tw(l as int)
                &&& self.tw(k) == self.typing.arena.widths[b as int] + self.tw(r as int)
            }),
    {
        self.lemma_wf_node(k);
        self.lemma_wf_node(l as int);
        self.lemma_wf_node(r as int);
        let arena = self.typing.arena;
        let tl = self.typing.target[l as int];
        arena.lemma_shape(self.typing.target[k] as int);
        arena.lemma_shape(tl as int);
        arena.lemma_shape(self.typing.source[l as int] as int);
        lemma_word_width(8);
        lemma2_to64();
        match arena.nodes[tl as int] {
            TypeNode::Product(b, c) => {
                arena.lemma_shape(b as int);
                arena.lemma_shape(c as int);
            },
            _ => {},
        }
    }

    /// Runs the first child on the commitment of the second and the input,
    /// and the second child on the second part of what the first returns.
    #[verifier::rlimit(50)]
    fn run_disconnect(
        &self,
        k: usize,
        l: usize,
        r: usize,
        cells: &mut Vec<bool>,
        read: usize,
    ) -> (res: Result<(), Failure>)
        requires
            self.wf(),
            k < self.nodes.len(),
            self.nodes[k as int] == Node::Disconnect(l, r),
            read + self.sw(k as int) <= old(cells).len(),
        ensures
            self.ran(k as int, old(cells)@, read as int, final(cells)@, res),
        decreases k, 0int,
    {
        let ghost start = cells@;
        let ghost input = start.subrange(read as int, read + self.sw(k as int));
        let ws = self.source_width(k);
        proof {
            self.lemma_disconnect_shape(k as int, l, r);
        }
        let frame = cells.len();
        let tl = self.typing.target[l];
        let wb: usize = match self.typing.arena.nodes[tl] {
            TypeNode::Product(b, _) => self.typing.arena.widths[b] as usize,
            _ => 0,
        };
        let wc = self.source_width(r);
        self.push_commitment(cells, r);
        self.copy_frame(cells, read, ws);
        let ghost arg = self.commitment_bits(r as int) + input;
        let inner = cells.len();
        proof {
            assert(cells@ =~= start + arg);
            assert(cells@.subrange(frame as int, frame + self.sw(l as int)) =~= arg);
        }
        match self.run(l, cells, frame) {
            Ok(()) => {},
            Err(e) => {
                return Err(e);
            },
        }
        let ghost bc = self.eval(l as int, arg)->Ok_0;
        let filled = cells.len();
        proof {
            assert(cells@ == start + arg + bc);
            assert(filled == inner + wb + wc);
            assert(cells@.subrange(inner + wb, inner + wb + wc) =~= bc.skip(wb as int));
        }
        match self.run(r, cells, inner + wb) {
            Ok(()) => {},
            Err(e) => {
                return Err(e);
            },
        }
        let ghost d = self.eval(r as int, bc.skip(wb as int))->Ok_0;
        proof {
            assert(cells@ == start + arg + bc + d);
        }
        let mut tail = cells.split_off(inner);
        let mut rest = tail.split_off(wb);
        let mut last = rest.split_off(wc);
        cells.truncate(frame);
        proof {
            assert(tail@ =~= bc.take(wb as int));
            assert(last@ =~= d);
            assert(cells@ =~= start);
        }
        cells.append(&mut tail);
        cells.append(&mut last);
        proof {
            assert(cells@ =~= start + (bc.take(wb as int) + d));
        }
        Ok(())
    }

    /// Appends a copy of the `n` cells from `read` on.
    fn copy_frame(&self, cells: &mut Vec<bool>, read: usize, n: usize)
        requires
            read + n <= old(cells).len(),
        ensures
            final(cells)@ == old(cells)@ + old(cells)@.subrange(read as int, read + n),
    {
        let ghost start = cells@;
        let n0 = cells.len();
        let mut i: usize = 0;
        assert(start + start.subrange(read as int, read as int) =~= start);
        while i < n
            invariant
                i <= n,
                read + n <= start.len(),
                start.len() == n0,
                cells@ == start + start.subrange(read as int, read + i),
            decreases n - i,
        {
            let b = cells[read + i];
            cells.push(b);
            assert(cells@ =~= start + start.subrange(read as int, read + i + 1));
            i = i + 1;
        }
    }

    /// Copies the bits of the node from the witness.
    fn run_witness(&self, k: usize, cells: &mut Vec<bool>, read: usize) -> (r: Result<(), Failure>)
        requires
            self.wf(),
            k < self.nodes.len(),
            self.nodes[k as int] is Witness,
        ensures
            self.ran(k as int, old(cells)@, read as int, final(cells)@, r),
    {
        let ghost start = cells@;
        let wt = self.target_width(k);
        proof {
            self.lemma_wf_node(k as int);
        }
        let off = self.offsets[k];
        let mut i: usize = 0;
        assert(start + self.witness@.subrange(off as int, off as int) =~= start);
        while i < wt
            invariant
                i <= wt,
                off + wt <= self.witness.len(),
                cells@ == start + self.witness@.subrange(off as int, off + i),
            decreases wt - i,
        {
            cells.push(self.witness[off + i]);
            assert(cells@ =~= start + self.witness@.subrange(off as int, off + i + 1));
            i = i + 1;
        }
        Ok(())
    }

    /// Hands the frame to a jet and appends what it returns.
    fn run_jet(&self, k: usize, id: u32, cells: &mut Vec<bool>, read: usize) -> (r: Result<
        (),
        Failure,
    >)
        requires
            self.wf(),
            k < self.nodes.len(),
            self.nodes[k as int] == Node::Jet(id),
            read + self.sw(k as int) <= old(cells).len(),
        ensures
            self.ran(k as int, old(cells)@, read as int, final(cells)@, r),
    {
        let ghost start = cells@;
        let ghost input = start.subrange(read as int, read + self.sw(k as int));
        let ws = self.source_width(k);
        let n0 = cells.len();
        proof {
            self.lemma_wf_node(k as int);
        }
        let mut arg: Vec<bool> = Vec::with_capacity(ws);
        let mut i: usize = 0;
        assert(arg@ =~= start.subrange(read as int, read as int));
        while i < ws
            invariant
                i <= ws,
                read + ws <= start.len(),
                start.len() == n0,
                cells@ == start,
                arg@ == start.subrange(read as int, read + i),
            decreases ws - i,
        {
            arg.push(cells[read + i]);
            assert(arg@ =~= start.subrange(read as int, read + i + 1));
            i = i + 1;
        }
        proof {
            jet::lemma_result_width(id, input);
        }
        match jet::apply(id, &arg) {
            Some(out) => {
                let mut out = out;
                cells.append(&mut out);
                Ok(())
            },
            None => Err(Failure::Jet),
        }
    }

    /// Appends `n` cells that are not set.
    fn pad(&self, cells: &mut Vec<bool>, n: usize)
        ensures
            final(cells)@ == old(cells)@ + zeros(n as int),
    {
        let ghost start = cells@;
        let mut i: usize = 0;
        assert(start + zeros(0) =~= start);
        while i < n
            invariant
                i <= n,
                cells@ == start + zeros(i as int),
            decreases n - i,
        {
            cells.push(false);
            assert(cells@ =~= start + zeros(i + 1));
            i = i + 1;
        }
    }

    /// Appends the commitment of node `k`, bit by bit.
    fn push_commitment(&self, cells: &mut Vec<bool>, k: usize)
        requires
            self.wf(),
            k < self.nodes.len(),
        ensures
            final(cells)@ == old(cells)@ + self.commitment_bits(k as int),
    {
        let ghost start = cells@;
        proof {
            self.lemma_wf_node(k as int);
        }
        let h: [u8; 32] = self.commitments[k];
        let ghost bits = bits_of(h@);
        let mut j: usize = 0;
        assert(start + bits.take(0) =~= start);
        while j < 32
            invariant
                j <= 32,
                bits == bits_of(h@),
                bits.len() == 256,
                cells@ == start + bits.take(8 * j),
            decreases 32 - j,
        {
            let b: u8 = h[j];
            let mut i: u8 = 0;
            while i < 8
                invariant
                    i <= 8,
                    j < 32,
                    b == h@[j as int],
                    bits == bits_of(h@),
                    bits.len() == 256,
                    cells@ == start + bits.take(8 * j + i),
                decreases 8 - i,
            {
                let shift: u8 = 7 - i;
                cells.push((b >> shift) & 1 == 1);
                proof {
                    let p = 8 * j + i;
                    assert(p / 8 == j && p % 8 == i);
                    assert(bits[p] == bit_at(h@[j as int], i as int));
                    assert(cells@ =~= start + bits.take(p + 1));
                }
                i = i + 1;
            }
            j = j + 1;
        }
        assert(bits.take(256) =~= bits);
    }
}

/// Two runs of a program on the same input return the same bits, or fail
/// in the same way.
pub proof fn lemma_runs_agree(
    p: Program,
    input: Seq<bool>,
    first: Result<Vec<bool>, Failure>,
    second: Result<Vec<bool>, Failure>,
)
    requires
        p.gives(input, first),
        p.gives(input, second),
    ensures
        first is Ok <==> second is Ok,
        first matches Ok(a) ==> second matches Ok(b) && a@ == b@,
        first matches Err(e) ==> second matches Err(f) && e == f,
{
}

/// A `case` runs the child that the first bit of its input selects, on the
/// input behind the tag and the padding, and nothing else: the other child
/// may be pruned. Where the selected child is pruned, the run fails.
pub proof fn lemma_case_runs_one_child(p: Program, k: int, l: usize, r: usize, input: Seq<bool>)
    requires
        0 <= k < p.nodes.len(),
        p.nodes[k] == Node::Case(l, r),
        l < k,
        r < k,
        input.len() > 0,
    ensures
        ({
            let (wa, wb) = branch_widths(p.typing.source_type(k));
            let selected = if input[0] {
                r
            } else {
                l
            };
            let skipped = 1 + larger(wa, wb) - if input[0] {
                wb
            } else {
                wa
            };
            p.eval(k, input) == if p.nodes[selected as int] is Hidden {
                Err::<Seq<bool>, Failure>(Failure::HiddenBranch)
            } else {
                p.eval(selected as int, input.skip(skipped))
            }
        }),
{
}

/// The type of 2^`n` bits is 2^`n` bits wide.
pub proof fn lemma_word_width(n: nat)
    ensures
        Type::word(n).bit_width() == pow2(n),
    decreases n,
{
    lemma2_to64();
    reveal_with_fuel(Type::bit_width, 3);
    if n > 0 {
        lemma_word_width((n - 1) as nat);
        lemma_pow2_unfold(n);
    }
}

/// A stretch of cells stays what it was when cells are appended.
pub proof fn lemma_extended(old: Seq<bool>, new: Seq<bool>, i: int, j: int)
    requires
        0 <= i <= j <= old.len(),
        old.len() <= new.len(),
        new.take(old.len() as int) == old,
    ensures
        new.subrange(i, j) == old.subrange(i, j),
{
    assert forall|x: int| 0 <= x < j - i implies new.subrange(i, j)[x] == old.subrange(i, j)[x] by {
        assert(new.take(old.len() as int)[i + x] == new[i + x]);
    }
    assert(new.subrange(i, j) =~= old.subrange(i, j));
}

} // verus!
