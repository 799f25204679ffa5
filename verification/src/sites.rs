//! The inventory of indirect-call sites.
//!
//! Sites are recorded per function in the order of the walk, and within a
//! sequence front to back. When the rewrite will insert a site-index
//! constant before each site, the recorded position already counts the
//! constants that earlier sites of the same sequence will have put in front
//! of it.

use crate::error::Error;
use crate::ir::{FuncId, Instr, LocalFunction, SeqId, TypeId};
use vstd::prelude::*;

verus! {

/// One `call_indirect`: the function and sequence that hold it, the
/// position recorded for it, and the signature it calls through.
#[derive(Clone, Copy, Debug, PartialEq, Eq, Structural)]
pub struct CallSite {
    pub func: FuncId,
    pub seq: SeqId,
    pub position: usize,
    pub ty: TypeId,
}

/// What the walk of one function found: the sequences in the order of the
/// visits, and the sites in the order in which they are numbered.
#[derive(Debug)]
pub struct Inventory {
    pub order: Vec<SeqId>,
    pub sites: Vec<CallSite>,
}

/// The number of indirect calls in a sequence.
pub open spec fn indirect_count(instrs: Seq<Instr>) -> nat
    decreases instrs.len(),
{
    if instrs.len() == 0 {
        0
    } else {
        indirect_count(instrs.drop_last()) + if instrs.last() is CallIndirect {
            1nat
        } else {
            0nat
        }
    }
}

/// The position recorded for the indirect call at `p`: `p` itself, moved
/// right by the number of sites before it when `shift` is set.
pub open spec fn recorded_position(instrs: Seq<Instr>, p: int, shift: bool) -> int {
    if shift {
        p + indirect_count(instrs.take(p))
    } else {
        p
    }
}

/// Every recorded position is a machine integer.
pub open spec fn positions_fit(instrs: Seq<Instr>, shift: bool) -> bool {
    forall|p: int|
        0 <= p < instrs.len() && (#[trigger] instrs[p]) is CallIndirect ==> recorded_position(
            instrs,
            p,
            shift,
        ) <= usize::MAX
}

/// The sites of one sequence, front to back.
pub open spec fn seq_sites(instrs: Seq<Instr>, func: FuncId, seq: SeqId, shift: bool) -> Seq<
    CallSite,
>
    decreases instrs.len(),
{
    if instrs.len() == 0 {
        Seq::empty()
    } else {
        let front = instrs.drop_last();
        let sites = seq_sites(front, func, seq, shift);
        match instrs.last() {
            Instr::CallIndirect { ty, .. } => sites.push(
                CallSite {
                    func,
                    seq,
                    position: recorded_position(instrs, front.len() as int, shift) as usize,
                    ty,
                },
            ),
            _ => sites,
        }
    }
}

/// The sites of the sequences named by `order`, one sequence after another.
pub open spec fn sites_along(
    body: Seq<Seq<Instr>>,
    order: Seq<SeqId>,
    func: FuncId,
    shift: bool,
) -> Seq<CallSite>
    decreases order.len(),
{
    if order.len() == 0 {
        Seq::empty()
    } else {
        sites_along(body, order.drop_last(), func, shift) + seq_sites(
            body[order.last() as int],
            func,
            order.last(),
            shift,
        )
    }
}

/// Every sequence named by `order` has recorded positions that fit.
pub open spec fn order_fits(body: Seq<Seq<Instr>>, order: Seq<SeqId>, shift: bool) -> bool {
    forall|k: int| 0 <= k < order.len() ==> positions_fit(body[#[trigger] order[k] as int], shift)
}

/// One instruction more counts one more if it is an indirect call.
pub proof fn lemma_indirect_count_take(instrs: Seq<Instr>, p: int)
    requires
        0 <= p < instrs.len(),
    ensures
        indirect_count(instrs.take(p + 1)) == indirect_count(instrs.take(p)) + if instrs[p]
            is CallIndirect {
            1nat
        } else {
            0nat
        },
{
    assert(instrs.take(p + 1).drop_last() =~= instrs.take(p));
}

/// A prefix holds no more indirect calls than instructions.
pub proof fn lemma_indirect_count_le(instrs: Seq<Instr>)
    ensures
        indirect_count(instrs) <= instrs.len(),
    decreases instrs.len(),
{
    if instrs.len() != 0 {
        lemma_indirect_count_le(instrs.drop_last());
    }
}

/// Counting is monotone along a sequence and never exceeds its length.
pub proof fn lemma_indirect_count_bounds(instrs: Seq<Instr>, a: int, b: int)
    requires
        0 <= a <= b <= instrs.len(),
    ensures
        indirect_count(instrs.take(a)) <= indirect_count(instrs.take(b)),
        indirect_count(instrs.take(b)) <= indirect_count(instrs.take(a)) + (b - a),
        indirect_count(instrs.take(a)) <= a,
    decreases b,
{
    lemma_indirect_count_le(instrs.take(a));
    if a < b {
        lemma_indirect_count_bounds(instrs, a, b - 1);
        lemma_indirect_count_take(instrs, b - 1);
    }
}

/// There are as many sites as indirect calls.
pub proof fn lemma_seq_sites_len(instrs: Seq<Instr>, func: FuncId, seq: SeqId, shift: bool)
    ensures
        seq_sites(instrs, func, seq, shift).len() == indirect_count(instrs),
    decreases instrs.len(),
{
    if instrs.len() != 0 {
        lemma_seq_sites_len(instrs.drop_last(), func, seq, shift);
    }
}

/// The sites of a prefix are a prefix of the sites.
pub proof fn lemma_seq_sites_take(
    instrs: Seq<Instr>,
    func: FuncId,
    seq: SeqId,
    shift: bool,
    u: int,
)
    requires
        0 <= u <= instrs.len(),
    ensures
        seq_sites(instrs.take(u), func, seq, shift).len() == indirect_count(instrs.take(u)),
        indirect_count(instrs.take(u)) <= seq_sites(instrs, func, seq, shift).len(),
        forall|j: int|
            0 <= j < indirect_count(instrs.take(u)) ==> seq_sites(instrs.take(u), func, seq, shift)[j]
                == seq_sites(instrs, func, seq, shift)[j],
    decreases instrs.len() - u,
{
    lemma_seq_sites_len(instrs.take(u), func, seq, shift);
    lemma_seq_sites_len(instrs, func, seq, shift);
    if u == instrs.len() {
        assert(instrs.take(u) =~= instrs);
    } else {
        lemma_seq_sites_take(instrs, func, seq, shift, u + 1);
        let longer = instrs.take(u + 1);
        assert(longer.drop_last() =~= instrs.take(u));
        lemma_seq_sites_len(longer, func, seq, shift);
    }
}

/// The `j`-th site of a sequence stands for its `j`-th indirect call.
pub proof fn lemma_seq_site(
    instrs: Seq<Instr>,
    func: FuncId,
    seq: SeqId,
    shift: bool,
    p: int,
)
    requires
        0 <= p < instrs.len(),
        instrs[p] is CallIndirect,
    ensures
        indirect_count(instrs.take(p)) < seq_sites(instrs, func, seq, shift).len(),
        seq_sites(instrs, func, seq, shift)[indirect_count(instrs.take(p)) as int] == (CallSite {
            func,
            seq,
            position: recorded_position(instrs, p, shift) as usize,
            ty: instrs[p]->CallIndirect_ty,
        }),
{
    let j = indirect_count(instrs.take(p)) as int;
    lemma_seq_sites_take(instrs, func, seq, shift, p + 1);
    lemma_seq_sites_take(instrs, func, seq, shift, p);
    lemma_indirect_count_take(instrs, p);
    let longer = instrs.take(p + 1);
    assert(longer.drop_last() =~= instrs.take(p));
    assert(longer.take(p) =~= instrs.take(p));
    assert(longer.last() == instrs[p]);
    lemma_seq_sites_len(instrs.take(p), func, seq, shift);
    assert(seq_sites(longer, func, seq, shift)[j] == seq_sites(instrs, func, seq, shift)[j]);
}

/// Each site came from an indirect call: the one at the position that its
/// rank among the sites gives back.
pub proof fn lemma_site_origin(
    instrs: Seq<Instr>,
    func: FuncId,
    seq: SeqId,
    shift: bool,
    j: int,
) -> (p: int)
    requires
        0 <= j < seq_sites(instrs, func, seq, shift).len(),
    ensures
        0 <= p < instrs.len(),
        instrs[p] is CallIndirect,
        indirect_count(instrs.take(p)) == j,
        seq_sites(instrs, func, seq, shift)[j] == (CallSite {
            func,
            seq,
            position: recorded_position(instrs, p, shift) as usize,
            ty: instrs[p]->CallIndirect_ty,
        }),
    decreases instrs.len(),
{
    let front = instrs.drop_last();
    lemma_seq_sites_len(front, func, seq, shift);
    lemma_seq_sites_len(instrs, func, seq, shift);
    if j < seq_sites(front, func, seq, shift).len() {
        let p = lemma_site_origin(front, func, seq, shift, j);
        assert(front.take(p) =~= instrs.take(p));
        p
    } else {
        let p = instrs.len() - 1;
        assert(instrs.take(p) =~= front);
        p
    }
}

/// One sequence more adds the sites of that sequence.
pub proof fn lemma_sites_along_step(
    body: Seq<Seq<Instr>>,
    order: Seq<SeqId>,
    func: FuncId,
    shift: bool,
    k: int,
)
    requires
        0 <= k < order.len(),
    ensures
        sites_along(body, order.take(k + 1), func, shift) == sites_along(
            body,
            order.take(k),
            func,
            shift,
        ) + seq_sites(body[order[k] as int], func, order[k], shift),
{
    assert(order.take(k + 1).drop_last() =~= order.take(k));
}

/// No instruction of the sequence is an indirect call.
pub open spec fn seq_direct(instrs: Seq<Instr>) -> bool {
    forall|p: int| 0 <= p < instrs.len() ==> !((#[trigger] instrs[p]) is CallIndirect)
}

/// No sequence of the body holds an indirect call.
pub open spec fn body_direct(body: Seq<Seq<Instr>>) -> bool {
    forall|s: int| 0 <= s < body.len() ==> seq_direct(#[trigger] body[s])
}

/// A sequence without indirect calls has no sites.
pub proof fn lemma_direct_seq_sites(instrs: Seq<Instr>, func: FuncId, seq: SeqId, shift: bool)
    requires
        seq_direct(instrs),
    ensures
        indirect_count(instrs) == 0,
        seq_sites(instrs, func, seq, shift) == Seq::<CallSite>::empty(),
    decreases instrs.len(),
{
    if instrs.len() != 0 {
        let front = instrs.drop_last();
        assert forall|p: int| 0 <= p < front.len() implies !((#[trigger] front[p]) is CallIndirect) by {
            assert(front[p] == instrs[p]);
        }
        lemma_direct_seq_sites(front, func, seq, shift);
        assert(!(instrs[instrs.len() - 1] is CallIndirect));
    }
}

/// A body without indirect calls has no sites.
pub proof fn lemma_direct_body_sites(
    body: Seq<Seq<Instr>>,
    order: Seq<SeqId>,
    func: FuncId,
    shift: bool,
)
    requires
        body_direct(body),
        forall|i: int| 0 <= i < order.len() ==> (#[trigger] order[i]) < body.len(),
    ensures
        sites_along(body, order, func, shift) == Seq::<CallSite>::empty(),
    decreases order.len(),
{
    if order.len() != 0 {
        let front = order.drop_last();
        assert forall|i: int| 0 <= i < front.len() implies (#[trigger] front[i]) < body.len() by {
            assert(front[i] == order[i]);
        }
        lemma_direct_body_sites(body, front, func, shift);
        let last = order[order.len() - 1];
        assert(seq_direct(body[last as int]));
        lemma_direct_seq_sites(body[last as int], func, last, shift);
    }
}

impl LocalFunction {
    /// The sites of this function in the order in which they are numbered.
    pub open spec fn sites(&self, func: FuncId, shift: bool) -> Seq<CallSite> {
        sites_along(self.body(), self.order(), func, shift)
    }

    /// Every position that [`LocalFunction::sites`] records fits.
    pub open spec fn fits(&self, shift: bool) -> bool {
        order_fits(self.body(), self.order(), shift)
    }

    /// Records the indirect calls of this function. With `shift`, positions
    /// make room for one inserted constant per earlier site of the same
    /// sequence. Fails only if such a position overflows.
    pub fn inventory(&self, func: FuncId, shift: bool) -> (r: Result<Inventory, Error>)
        ensures
            match r {
                Ok(found) => {
                    &&& found.order@ == self.order()
                    &&& found.sites@ == self.sites(func, shift)
                    &&& self.fits(shift)
                },
                Err(e) => e == Error::TooManySites && !self.fits(shift),
            },
    {
        let order = self.visit_order();
        let ghost body = self.body();
        let mut sites: Vec<CallSite> = Vec::new();
        let mut k: usize = 0;
        assert(order@.take(0) =~= Seq::<SeqId>::empty());
        while k < order.len()
            invariant
                k <= order.len(),
                body == self.body(),
                order@ == self.order(),
                forall|i: int| 0 <= i < order@.len() ==> (#[trigger] order@[i]) < self.seqs.len(),
                sites@ == sites_along(body, order@.take(k as int), func, shift),
                order_fits(body, order@.take(k as int), shift),
            decreases order.len() - k,
        {
            let s = order[k];
            let instrs = &self.seqs[s];
            assert(instrs@ == body[s as int]);
            let ghost before = sites@;
            let mut count: usize = 0;
            let mut p: usize = 0;
            assert(instrs@.take(0) =~= Seq::<Instr>::empty());
            assert(before + Seq::<CallSite>::empty() =~= before);
            while p < instrs.len()
                invariant
                    p <= instrs.len(),
                    k < order.len(),
                    s == order@[k as int],
                    s < self.seqs.len(),
                    body == self.body(),
                    order@ == self.order(),
                    instrs@ == body[s as int],
                    count == indirect_count(instrs@.take(p as int)),
                    sites@ == before + seq_sites(instrs@.take(p as int), func, s, shift),
                    positions_fit(instrs@.take(p as int), shift),
                decreases instrs.len() - p,
            {
                proof {
                    lemma_indirect_count_take(instrs@, p as int);
                    lemma_indirect_count_bounds(instrs@, 0, p as int);
                    assert(instrs@.take(p + 1).drop_last() =~= instrs@.take(p as int));
                    assert(instrs@.take(p + 1).take(p as int) =~= instrs@.take(p as int));
                }
                let ghost longer = instrs@.take(p + 1);
                match instrs[p] {
                    Instr::CallIndirect { ty, table } => {
                        let position = if shift {
                            match p.checked_add(count) {
                                Some(position) => position,
                                None => {
                                    proof {
                                        assert(order@[k as int] == s);
                                        assert(instrs@.take(p as int) =~= body[s as int].take(
                                            p as int,
                                        ));
                                        assert(!positions_fit(body[s as int], shift));
                                    }
                                    return Err(Error::TooManySites);
                                },
                            }
                        } else {
                            p
                        };
                        sites.push(CallSite { func, seq: s, position, ty });
                        count = count + 1;
                        proof {
                            assert(sites@ =~= before + seq_sites(longer, func, s, shift));
                        }
                    },
                    _ => {},
                }
                proof {
                    assert forall|q: int|
                        0 <= q < longer.len() && (#[trigger] longer[q]) is CallIndirect implies recorded_position(
                        longer,
                        q,
                        shift,
                    ) <= usize::MAX by {
                        assert(longer.take(q) =~= instrs@.take(q));
                        if q < p {
                            assert(instrs@.take(p as int)[q] == longer[q]);
                            assert(instrs@.take(p as int).take(q) =~= instrs@.take(q));
                        }
                    }
                }
                p += 1;
            }
            proof {
                assert(instrs@.take(instrs.len() as int) =~= instrs@);
                lemma_sites_along_step(body, order@, func, shift, k as int);
                assert forall|i: int| 0 <= i < order@.take(k + 1).len() implies positions_fit(
                    body[#[trigger] order@.take(k + 1)[i] as int],
                    shift,
                ) by {
                    if i < k {
                        assert(order@.take(k as int)[i] == order@[i]);
                    }
                }
            }
            k += 1;
        }
        assert(order@.take(order.len() as int) =~= order@);
        Ok(Inventory { order, sites })
    }

    /// The recorded sites alone.
    pub fn call_sites(&self, func: FuncId, shift: bool) -> (r: Result<Vec<CallSite>, Error>)
        ensures
            match r {
                Ok(sites) => sites@ == self.sites(func, shift) && self.fits(shift),
                Err(e) => e == Error::TooManySites && !self.fits(shift),
            },
    {
        match self.inventory(func, shift) {
            Ok(found) => Ok(found.sites),
            Err(e) => Err(e),
        }
    }
}

} // verus!
