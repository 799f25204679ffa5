//! The order in which the instruction sequences of a function are visited.
//!
//! A worklist starts with the entry sequence. The sequence taken from its
//! end is read front to back, and each nested sequence met on the way is put
//! on the worklist, so what was met last is visited next. A sequence reached
//! a second time is passed over: each is visited once, and the walk ends on
//! every body. In a tree-shaped body, as every parsed function has, no
//! sequence is reached twice.

use crate::ir::{Instr, LocalFunction, SeqId};
use vstd::prelude::*;

verus! {

/// The sequences that one instruction nests, in the order they are queued.
pub open spec fn nested(instr: Instr) -> Seq<SeqId> {
    match instr {
        Instr::Block { seq } => seq![seq],
        Instr::Loop { seq } => seq![seq],
        Instr::IfElse { consequent, alternative } => seq![consequent, alternative],
        _ => Seq::empty(),
    }
}

/// The sequences nested by the instructions of one sequence, front to back.
pub open spec fn children(instrs: Seq<Instr>) -> Seq<SeqId>
    decreases instrs.len(),
{
    if instrs.len() == 0 {
        Seq::empty()
    } else {
        children(instrs.drop_last()) + nested(instrs.last())
    }
}

/// How many sequences are still unvisited.
pub open spec fn unseen(seen: Seq<bool>) -> nat
    decreases seen.len(),
{
    if seen.len() == 0 {
        0
    } else {
        unseen(seen.drop_last()) + if seen.last() {
            0nat
        } else {
            1nat
        }
    }
}

/// Visiting a sequence leaves one fewer unvisited.
pub proof fn lemma_unseen_mark(seen: Seq<bool>, s: int)
    requires
        0 <= s < seen.len(),
        !seen[s],
    ensures
        unseen(seen.update(s, true)) + 1 == unseen(seen),
    decreases seen.len(),
{
    let marked = seen.update(s, true);
    if s == seen.len() - 1 {
        assert(marked.drop_last() =~= seen.drop_last());
    } else {
        assert(marked.drop_last() =~= seen.drop_last().update(s, true));
        lemma_unseen_mark(seen.drop_last(), s);
    }
}

/// The sequences visited from the worklist `stack`, given those already
/// `seen`, in the order of the visits.
pub open spec fn visit_order(body: Seq<Seq<Instr>>, stack: Seq<SeqId>, seen: Seq<bool>) -> Seq<
    SeqId,
>
    decreases unseen(seen), stack.len(),
{
    if stack.len() == 0 {
        Seq::empty()
    } else {
        let s = stack.last();
        let rest = stack.drop_last();
        if s >= body.len() || s >= seen.len() || seen[s as int] {
            visit_order(body, rest, seen)
        } else {
            proof {
                lemma_unseen_mark(seen, s as int);
            }
            seq![s] + visit_order(body, rest + children(body[s as int]), seen.update(s as int, true))
        }
    }
}

/// The visit order of a whole body, from its entry.
pub open spec fn body_order(body: Seq<Seq<Instr>>, entry: SeqId) -> Seq<SeqId> {
    visit_order(body, seq![entry], Seq::new(body.len(), |i: int| false))
}

/// A visit order names existing, previously unseen sequences, each once.
pub proof fn lemma_visit_order_distinct(body: Seq<Seq<Instr>>, stack: Seq<SeqId>, seen: Seq<bool>)
    requires
        seen.len() == body.len(),
    ensures
        forall|i: int|
            0 <= i < visit_order(body, stack, seen).len() ==> {
                &&& (#[trigger] visit_order(body, stack, seen)[i]) < body.len()
                &&& !seen[visit_order(body, stack, seen)[i] as int]
            },
        visit_order(body, stack, seen).no_duplicates(),
    decreases unseen(seen), stack.len(),
{
    if stack.len() != 0 {
        let s = stack.last();
        let rest = stack.drop_last();
        if s >= body.len() || seen[s as int] {
            lemma_visit_order_distinct(body, rest, seen);
        } else {
            lemma_unseen_mark(seen, s as int);
            let marked = seen.update(s as int, true);
            let tail = visit_order(body, rest + children(body[s as int]), marked);
            lemma_visit_order_distinct(body, rest + children(body[s as int]), marked);
            let order = visit_order(body, stack, seen);
            assert(order == seq![s] + tail);
            assert forall|i: int| 0 <= i < order.len() implies (#[trigger] order[i]) < body.len()
                && !seen[order[i] as int] by {
                if i > 0 {
                    assert(order[i] == tail[i - 1]);
                    assert(!marked[tail[i - 1] as int]);
                }
            }
            assert forall|i: int, j: int| 0 <= i < order.len() && 0 <= j < order.len() && i
                != j implies order[i] != order[j] by {
                if i > 0 {
                    assert(order[i] == tail[i - 1]);
                    assert(!marked[tail[i - 1] as int]);
                }
                if j > 0 {
                    assert(order[j] == tail[j - 1]);
                    assert(!marked[tail[j - 1] as int]);
                }
            }
        }
    }
}

/// The walk of a body names existing sequences, each once.
pub proof fn lemma_body_order_distinct(body: Seq<Seq<Instr>>, entry: SeqId)
    ensures
        forall|i: int|
            0 <= i < body_order(body, entry).len() ==> (#[trigger] body_order(body, entry)[i])
                < body.len(),
        body_order(body, entry).no_duplicates(),
{
    lemma_visit_order_distinct(body, seq![entry], Seq::new(body.len(), |i: int| false));
}

/// The instructions of the sequences named by `order`, one sequence after
/// another.
pub open spec fn walked(body: Seq<Seq<Instr>>, order: Seq<SeqId>) -> Seq<Instr>
    decreases order.len(),
{
    if order.len() == 0 {
        Seq::empty()
    } else {
        walked(body, order.drop_last()) + body[order.last() as int]
    }
}

/// `instr` stands in one of the sequences named by `order`.
pub open spec fn stands_in(body: Seq<Seq<Instr>>, order: Seq<SeqId>, instr: Instr) -> bool {
    exists|k: int, p: int|
        0 <= k < order.len() && 0 <= p < body[order[k] as int].len()
            && #[trigger] body[order[k] as int][p] == instr
}

/// Each walked instruction stands in one of the walked sequences, and each
/// instruction of a walked sequence is walked.
pub proof fn lemma_walked(body: Seq<Seq<Instr>>, order: Seq<SeqId>)
    ensures
        forall|i: int|
            0 <= i < walked(body, order).len() ==> stands_in(
                body,
                order,
                #[trigger] walked(body, order)[i],
            ),
        forall|k: int, p: int|
            0 <= k < order.len() && 0 <= p < body[order[k] as int].len() ==> walked(
                body,
                order,
            ).contains(#[trigger] body[order[k] as int][p]),
    decreases order.len(),
{
    if order.len() != 0 {
        let front = order.drop_last();
        let last = order.len() - 1;
        let all = walked(body, order);
        let head = walked(body, front);
        lemma_walked(body, front);
        assert forall|i: int| 0 <= i < all.len() implies stands_in(body, order, #[trigger] all[i]) by {
            if i < head.len() {
                assert(all[i] == head[i]);
                assert(stands_in(body, front, head[i]));
                let (k, p) = choose|k: int, p: int|
                    0 <= k < front.len() && 0 <= p < body[front[k] as int].len()
                        && #[trigger] body[front[k] as int][p] == head[i];
                assert(front[k] == order[k]);
                assert(body[order[k] as int][p] == all[i]);
            } else {
                assert(body[order[last] as int][i - head.len()] == all[i]);
            }
        }
        assert forall|k: int, p: int|
            0 <= k < order.len() && 0 <= p < body[order[k] as int].len() implies all.contains(
            #[trigger] body[order[k] as int][p],
        ) by {
            if k < last {
                assert(front[k] == order[k]);
                assert(head.contains(body[front[k] as int][p]));
                let i = choose|i: int| 0 <= i < head.len() && head[i] == body[front[k] as int][p];
                assert(all[i] == head[i]);
            } else {
                assert(all[head.len() + p] == body[order[k] as int][p]);
            }
        }
    }
}

impl LocalFunction {
    /// The instructions that the walk comes by, in its order.
    pub open spec fn walked(&self) -> Seq<Instr> {
        walked(self.body(), self.order())
    }

    /// The instructions of the walked sequences, copied out in the order of
    /// the walk.
    pub fn walked_instrs(&self) -> (flat: Vec<Instr>)
        ensures
            flat@ == self.walked(),
    {
        let order = self.visit_order();
        let ghost body = self.body();
        let mut flat: Vec<Instr> = Vec::new();
        let mut k: usize = 0;
        assert(order@.take(0) =~= Seq::<SeqId>::empty());
        while k < order.len()
            invariant
                k <= order.len(),
                body == self.body(),
                forall|i: int| 0 <= i < order@.len() ==> (#[trigger] order@[i]) < self.seqs.len(),
                flat@ == walked(body, order@.take(k as int)),
            decreases order.len() - k,
        {
            let instrs = &self.seqs[order[k]];
            let ghost before = flat@;
            let mut p: usize = 0;
            assert(before + instrs@.take(0) =~= before);
            while p < instrs.len()
                invariant
                    p <= instrs.len(),
                    flat@ == before + instrs@.take(p as int),
                decreases instrs.len() - p,
            {
                flat.push(instrs[p]);
                assert(flat@ =~= before + instrs@.take(p + 1));
                p += 1;
            }
            proof {
                assert(instrs@.take(instrs.len() as int) =~= instrs@);
                assert(order@.take(k + 1).drop_last() =~= order@.take(k as int));
                assert(instrs@ == body[order@[k as int] as int]);
            }
            k += 1;
        }
        assert(order@.take(order.len() as int) =~= order@);
        flat
    }

    /// The order in which the walk visits the sequences of this function.
    pub open spec fn order(&self) -> Seq<SeqId> {
        body_order(self.body(), self.entry)
    }

    /// Walks the body from its entry and returns the sequences in the order
    /// of the visits.
    pub fn visit_order(&self) -> (order: Vec<SeqId>)
        ensures
            order@ == self.order(),
            order@.no_duplicates(),
            forall|i: int| 0 <= i < order@.len() ==> (#[trigger] order@[i]) < self.seqs.len(),
    {
        let n = self.seqs.len();
        let ghost body = self.body();
        let mut seen: Vec<bool> = Vec::new();
        while seen.len() < n
            invariant
                seen.len() <= n,
                forall|i: int| 0 <= i < seen.len() ==> !seen[i],
            decreases n - seen.len(),
        {
            seen.push(false);
        }
        assert(seen@ =~= Seq::new(body.len(), |i: int| false));
        let mut stack: Vec<SeqId> = Vec::new();
        stack.push(self.entry);
        assert(stack@ =~= seq![self.entry]);
        let mut order: Vec<SeqId> = Vec::new();
        while stack.len() > 0
            invariant
                n == self.seqs.len(),
                body == self.body(),
                seen.len() == n,
                order@ + visit_order(body, stack@, seen@) == self.order(),
            decreases unseen(seen@), stack.len(),
        {
            let ghost stack0 = stack@;
            let ghost seen0 = seen@;
            let s = stack.pop().unwrap();
            assert(stack@ == stack0.drop_last());
            if s < n && !seen[s] {
                proof {
                    lemma_unseen_mark(seen0, s as int);
                }
                seen[s] = true;
                order.push(s);
                let ghost rest = stack@;
                let instrs = &self.seqs[s];
                assert(instrs@ == body[s as int]);
                let mut i: usize = 0;
                assert(instrs@.take(0) =~= Seq::<Instr>::empty());
                assert(rest + Seq::<SeqId>::empty() =~= rest);
                while i < instrs.len()
                    invariant
                        i <= instrs.len(),
                        stack@ == rest + children(instrs@.take(i as int)),
                    decreases instrs.len() - i,
                {
                    let ghost before = stack@;
                    assert(instrs@.take(i + 1).drop_last() =~= instrs@.take(i as int));
                    assert(instrs@.take(i + 1).last() == instrs@[i as int]);
                    match instrs[i] {
                        Instr::Block { seq } => {
                            stack.push(seq);
                        },
                        Instr::Loop { seq } => {
                            stack.push(seq);
                        },
                        Instr::IfElse { consequent, alternative } => {
                            stack.push(consequent);
                            stack.push(alternative);
                        },
                        _ => {},
                    }
                    assert(stack@ =~= before + nested(instrs@[i as int]));
                    assert(stack@ =~= rest + children(instrs@.take(i + 1)));
                    i += 1;
                }
                assert(instrs@.take(instrs.len() as int) =~= instrs@);
                proof {
                    let tail = visit_order(body, stack@, seen@);
                    assert(visit_order(body, stack0, seen0) == seq![s] + tail);
                    assert(order@ + tail =~= order@.drop_last() + (seq![s] + tail));
                }
            }
        }
        proof {
            assert(order@ + Seq::<SeqId>::empty() =~= order@);
            lemma_body_order_distinct(body, self.entry);
        }
        order
    }
}

} // verus!
