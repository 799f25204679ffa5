//! What holds of the passes beyond what each states of itself.

use crate::calltypes::{call_types, met_types, CallType};
use crate::fastcalls::{is_slowcall, FastCallScan};
use crate::idmap::strictly_increasing;
use crate::instrument::{guard_in_place, is_indirect_stub, is_specialized_body};
use crate::ir::{
    FuncId, Function, FunctionKind, Instr, LocalFunction, LocalId, Module, SeqId, ValType,
};
use crate::profilemap::MapValue;
use crate::rewrite::{
    instrument_seq, lemma_optimize_seq_at, lemma_rewrite_body_at, lemma_sites_along_len,
    lemma_sites_along_prefix, optimize_seq, rewrite_body, rewrite_seq, Plan, Rewrite,
};
use crate::sitepass::{function_sites, lemma_sites_upto_at, sites_upto};
use crate::sites::{
    body_direct, indirect_count, lemma_direct_body_sites, lemma_direct_seq_sites,
    lemma_seq_sites_len, seq_direct, sites_along, CallSite,
};
use crate::verdicts::lemma_visit_order_same;
use crate::walk::{
    children, lemma_body_order_distinct, lemma_walked, nested, stands_in, walked,
};
use crate::wrap::wrapper_body;
use vstd::prelude::*;

verus! {

/// Two lists in increasing order that hold the same are the same list.
pub proof fn lemma_sorted_lists_equal(a: Seq<usize>, b: Seq<usize>)
    requires
        strictly_increasing(a),
        strictly_increasing(b),
        forall|x: usize| a.contains(x) <==> b.contains(x),
    ensures
        a == b,
    decreases a.len(),
{
    if a.len() == 0 {
        if b.len() > 0 {
            assert(b.contains(b[0]));
        }
        assert(a =~= b);
    } else {
        let last = a[a.len() - 1];
        assert(a.contains(last));
        assert(b.contains(last));
        let k = b.index_of(last);
        if k < b.len() - 1 {
            let more = b[b.len() - 1];
            assert(b.contains(more));
            assert(a.contains(more));
            let i = a.index_of(more);
            assert(a[i] == more);
            assert(last < more);
            assert(false);
        }
        let a0 = a.drop_last();
        let b0 = b.drop_last();
        assert forall|x: usize| a0.contains(x) <==> b0.contains(x) by {
            if a0.contains(x) {
                let i = a0.index_of(x);
                assert(a[i] == x);
                assert(a.contains(x));
                let j = b.index_of(x);
                assert(x < last);
                assert(j < b.len() - 1);
                assert(b0[j] == x);
            }
            if b0.contains(x) {
                let j = b0.index_of(x);
                assert(b[j] == x);
                assert(b.contains(x));
                let i = a.index_of(x);
                assert(x < last);
                assert(i < a.len() - 1);
                assert(a0[i] == x);
            }
        }
        assert(k == b.len() - 1);
        assert(b[b.len() - 1] == last);
        assert(strictly_increasing(a0)) by {
            assert forall|i: int, j: int| 0 <= i < j < a0.len() implies a0[i] < a0[j] by {
                assert(a[i] < a[j]);
            }
        }
        assert(strictly_increasing(b0)) by {
            assert forall|i: int, j: int| 0 <= i < j < b0.len() implies b0[i] < b0[j] by {
                assert(b[i] < b[j]);
            }
        }
        lemma_sorted_lists_equal(a0, b0);
        assert(a =~= a0.push(last));
        assert(b =~= b0.push(last));
    }
}

/// The classification is a function of the scans: whatever two runs on the
/// same scans report as slow, in increasing order, is the same list.
pub proof fn lemma_classification_is_determined(
    scans: Seq<FastCallScan>,
    first: Seq<FuncId>,
    second: Seq<FuncId>,
)
    requires
        strictly_increasing(first),
        strictly_increasing(second),
        forall|func: FuncId| first.contains(func) <==> is_slowcall(scans, func),
        forall|func: FuncId| second.contains(func) <==> is_slowcall(scans, func),
    ensures
        first == second,
{
    lemma_sorted_lists_equal(first, second);
}

/// In optimize mode every sequence keeps its number of instructions, and
/// the body its number of sequences.
pub proof fn lemma_optimize_keeps_counts(
    body: Seq<Seq<Instr>>,
    order: Seq<SeqId>,
    base: int,
    decisions: Map<usize, MapValue>,
    s: int,
)
    requires
        order.no_duplicates(),
        forall|i: int| 0 <= i < order.len() ==> (#[trigger] order[i]) < body.len(),
        0 <= s < body.len(),
        body.len() <= usize::MAX,
    ensures
        rewrite_body(body, order, base, Plan::Optimize { decisions }).len() == body.len(),
        rewrite_body(body, order, base, Plan::Optimize { decisions })[s].len() == body[s].len(),
{
    let plan = Plan::Optimize { decisions };
    lemma_rewrite_body_at(body, order, base, plan, s);
    if order.contains(s as usize) {
        let k = order.index_of(s as usize);
        assert(order[k] == s);
        crate::rewrite::lemma_optimize_seq_len(
            body[s],
            base + sites_along(body, order.take(k), 0, true).len(),
            decisions,
        );
    }
}

/// A sequence without indirect calls is left as it is by either rewrite.
pub proof fn lemma_rewrite_direct_seq(instrs: Seq<Instr>, first: int, plan: Plan)
    requires
        seq_direct(instrs),
    ensures
        rewrite_seq(instrs, first, plan) == instrs,
    decreases instrs.len(),
{
    match plan {
        Plan::Instrument { stubs } => {
            if instrs.len() != 0 {
                let front = instrs.drop_last();
                assert forall|p: int| 0 <= p < front.len() implies !((#[trigger] front[p])
                    is CallIndirect) by {
                    assert(front[p] == instrs[p]);
                }
                lemma_rewrite_direct_seq(front, first, plan);
                assert(!(instrs[instrs.len() - 1] is CallIndirect));
                assert(instrument_seq(instrs, first, stubs) =~= instrs);
            } else {
                assert(instrument_seq(instrs, first, stubs) =~= instrs);
            }
        },
        Plan::Optimize { decisions } => {
            let out = optimize_seq(instrs, first, decisions);
            crate::rewrite::lemma_optimize_seq_len(instrs, first, decisions);
            assert forall|p: int| 0 <= p < instrs.len() implies out[p] == instrs[p] by {
                lemma_optimize_seq_at(instrs, first, decisions, p);
            }
            assert(out =~= instrs);
        },
    }
}

/// A body without indirect calls is left as it is by either rewrite: there
/// is no site to rewrite.
pub proof fn lemma_rewrite_direct_body(body: Seq<Seq<Instr>>, order: Seq<SeqId>, base: int, plan: Plan)
    requires
        body_direct(body),
        forall|i: int| 0 <= i < order.len() ==> (#[trigger] order[i]) < body.len(),
    ensures
        rewrite_body(body, order, base, plan) == body,
    decreases order.len(),
{
    if order.len() != 0 {
        let front = order.drop_last();
        assert forall|i: int| 0 <= i < front.len() implies (#[trigger] front[i]) < body.len() by {
            assert(front[i] == order[i]);
        }
        lemma_rewrite_direct_body(body, front, base, plan);
        let s = order[order.len() - 1] as int;
        assert(seq_direct(body[s]));
        lemma_rewrite_direct_seq(body[s], base + sites_along(body, front, 0, true).len(), plan);
        assert(rewrite_body(body, order, base, plan) =~= body);
    }
}

/// Once every site of a sequence has been decided otherwise than to keep
/// the call, the optimized sequence holds no indirect call, so a second
/// run finds no site in it.
pub proof fn lemma_optimized_seq_direct(instrs: Seq<Instr>, base: int, decisions: Map<usize, MapValue>)
    requires
        forall|i: usize|
            base <= i < base + indirect_count(instrs) ==> !(#[trigger] decisions[i] is Retain),
        0 <= base,
        base + indirect_count(instrs) <= usize::MAX,
    ensures
        seq_direct(optimize_seq(instrs, base, decisions)),
{
    let out = optimize_seq(instrs, base, decisions);
    crate::rewrite::lemma_optimize_seq_len(instrs, base, decisions);
    assert forall|p: int| 0 <= p < out.len() implies !((#[trigger] out[p]) is CallIndirect) by {
        lemma_optimize_seq_at(instrs, base, decisions, p);
        if instrs[p] is CallIndirect {
            crate::sites::lemma_indirect_count_take(instrs, p);
            crate::sites::lemma_indirect_count_bounds(instrs, p + 1, instrs.len() as int);
            assert(instrs.take(instrs.len() as int) =~= instrs);
            let i = (base + indirect_count(instrs.take(p))) as usize;
            assert(base <= i < base + indirect_count(instrs));
            assert(!(decisions[i] is Retain));
        }
    }
}

/// Two sequences whose instructions nest the same sequences, one by one,
/// nest the same sequences.
pub proof fn lemma_children_alike(a: Seq<Instr>, b: Seq<Instr>)
    requires
        a.len() == b.len(),
        forall|p: int| 0 <= p < a.len() ==> nested(#[trigger] a[p]) == nested(b[p]),
    ensures
        children(a) == children(b),
    decreases a.len(),
{
    if a.len() != 0 {
        let front = a.drop_last();
        let other = b.drop_last();
        assert forall|p: int| 0 <= p < front.len() implies nested(#[trigger] front[p]) == nested(
            other[p],
        ) by {
            assert(nested(a[p]) == nested(b[p]));
        }
        lemma_children_alike(front, other);
        assert(nested(a[a.len() - 1]) == nested(b[a.len() - 1]));
    }
}

/// Sequences without indirect calls, walked in any order, have no sites.
pub proof fn lemma_direct_walk_sites(body: Seq<Seq<Instr>>, order: Seq<SeqId>, func: FuncId, shift: bool)
    requires
        forall|k: int| 0 <= k < order.len() ==> seq_direct(body[(#[trigger] order[k]) as int]),
    ensures
        sites_along(body, order, func, shift) == Seq::<CallSite>::empty(),
    decreases order.len(),
{
    if order.len() != 0 {
        let front = order.drop_last();
        assert forall|k: int| 0 <= k < front.len() implies seq_direct(
            body[(#[trigger] front[k]) as int],
        ) by {
            assert(front[k] == order[k]);
        }
        lemma_direct_walk_sites(body, front, func, shift);
        let last = order[order.len() - 1];
        lemma_direct_seq_sites(body[last as int], func, last, shift);
    }
}

/// Sequences without indirect calls are left as they are by either
/// rewrite.
pub proof fn lemma_rewrite_direct_walk(body: Seq<Seq<Instr>>, order: Seq<SeqId>, base: int, plan: Plan)
    requires
        forall|k: int|
            0 <= k < order.len() ==> (#[trigger] order[k]) < body.len() && seq_direct(
                body[order[k] as int],
            ),
    ensures
        rewrite_body(body, order, base, plan) == body,
    decreases order.len(),
{
    if order.len() != 0 {
        let front = order.drop_last();
        assert forall|k: int| 0 <= k < front.len() implies (#[trigger] front[k]) < body.len()
            && seq_direct(body[front[k] as int]) by {
            assert(front[k] == order[k]);
        }
        lemma_rewrite_direct_walk(body, front, base, plan);
        let s = order[order.len() - 1] as int;
        lemma_rewrite_direct_seq(body[s], base + sites_along(body, front, 0, true).len(), plan);
        assert(rewrite_body(body, order, base, plan) =~= body);
    }
}

/// A function whose sites were all decided otherwise than to keep the call
/// is walked as before once it is optimized, and the walk comes by no
/// indirect call: a second run finds no site in it and rewrites nothing.
pub proof fn lemma_optimized_function_direct(
    before: LocalFunction,
    after: LocalFunction,
    base: int,
    decisions: Map<usize, MapValue>,
    func: FuncId,
    shift: bool,
    again: int,
    plan: Plan,
)
    requires
        after.entry == before.entry,
        after.body() == rewrite_body(
            before.body(),
            before.order(),
            base,
            Plan::Optimize { decisions },
        ),
        0 <= base,
        base + before.sites(0, true).len() <= usize::MAX,
        forall|i: usize|
            base <= i < base + before.sites(0, true).len() ==> !(#[trigger] decisions[i] is Retain),
    ensures
        after.order() == before.order(),
        after.sites(func, shift) == Seq::<CallSite>::empty(),
        rewrite_body(after.body(), after.order(), again, plan) == after.body(),
{
    let body = before.body();
    let order = before.order();
    let first = Plan::Optimize { decisions };
    let made = after.body();
    assert(body.len() == before.seqs.len());
    lemma_body_order_distinct(body, before.entry);
    if body.len() > 0 {
        lemma_rewrite_body_at(body, order, base, first, 0);
    } else if order.len() > 0 {
        assert(order[0] < body.len());
    }
    assert forall|s: int| 0 <= s < body.len() implies children(#[trigger] made[s]) == children(
        body[s],
    ) by {
        lemma_rewrite_body_at(body, order, base, first, s);
        if order.contains(s as usize) {
            let k = order.index_of(s as usize);
            let at = base + sites_along(body, order.take(k), 0, true).len();
            crate::rewrite::lemma_optimize_seq_len(body[s], at, decisions);
            assert forall|p: int| 0 <= p < body[s].len() implies nested(
                #[trigger] optimize_seq(body[s], at, decisions)[p],
            ) == nested(body[s][p]) by {
                lemma_optimize_seq_at(body[s], at, decisions, p);
            }
            lemma_children_alike(optimize_seq(body[s], at, decisions), body[s]);
        }
    }
    if body.len() > 0 {
        lemma_visit_order_same(
            made,
            body,
            seq![before.entry],
            Seq::new(body.len(), |i: int| false),
        );
    }
    assert(after.order() == order);
    assert forall|k: int| 0 <= k < order.len() implies (#[trigger] order[k]) < made.len()
        && seq_direct(made[order[k] as int]) by {
        let s = order[k] as int;
        let at = base + sites_along(body, order.take(k), 0, true).len();
        lemma_rewrite_body_at(body, order, base, first, s);
        lemma_sites_along_prefix(body, order, 0, true, k + 1);
        assert(order.take(k + 1).drop_last() =~= order.take(k));
        lemma_seq_sites_len(body[s], 0, order[k], true);
        lemma_optimized_seq_direct(body[s], at, decisions);
    }
    lemma_direct_walk_sites(made, order, func, shift);
    lemma_rewrite_direct_walk(made, order, again, plan);
}

/// An optimized module in which no site was kept has no call site among
/// its first `n` functions: the functions that the module had were
/// rewritten, and the stubs hold no indirect call. So a second run with the
/// same profile finds nothing to rewrite.
pub proof fn lemma_optimized_module_direct(
    before: &Module,
    after: &Module,
    rewrite: &Rewrite,
    decisions: Map<usize, MapValue>,
    n: int,
)
    requires
        rewrite.plan() == (Plan::Optimize { decisions }),
        before.funcs.len() <= after.funcs.len(),
        0 <= n <= after.funcs.len(),
        forall|f: int|
            0 <= f < before.funcs.len() ==> before.rewritten_function(
                f,
                rewrite,
                #[trigger] after.funcs[f],
            ),
        forall|f: int|
            before.funcs.len() <= f < after.funcs.len() ==> (#[trigger] after.funcs[f]).kind is Local
                && body_direct(after.funcs[f].kind->Local_0.body()),
        before.sites(rewrite).len() <= usize::MAX,
        forall|i: usize| i < before.sites(rewrite).len() ==> !(#[trigger] decisions[i] is Retain),
    ensures
        sites_upto(after.funcs@, n, usize::MAX + 1, false) == Seq::<CallSite>::empty(),
    decreases n,
{
    let stop = usize::MAX + 1;
    if n > 0 {
        lemma_optimized_module_direct(before, after, rewrite, decisions, n - 1);
        let f = n - 1;
        match after.funcs[f].kind {
            FunctionKind::Local(local) => {
                if f < before.funcs.len() {
                    assert(before.rewritten_function(f, rewrite, after.funcs[f]));
                    let had = before.funcs[f].kind->Local_0;
                    let base = sites_upto(before.funcs@, f, stop, false).len() as int;
                    lemma_sites_upto_at(
                        before.funcs@,
                        before.funcs.len() as int,
                        stop,
                        false,
                        f,
                    );
                    lemma_sites_along_len(had.body(), had.order(), f as usize, false);
                    lemma_optimized_function_direct(
                        had,
                        local,
                        base,
                        decisions,
                        f as usize,
                        false,
                        0,
                        Plan::Optimize { decisions },
                    );
                } else {
                    lemma_body_order_distinct(local.body(), local.entry);
                    lemma_direct_body_sites(local.body(), local.order(), f as usize, false);
                }
                assert(function_sites(after.funcs[f], f as usize, stop, false) =~= Seq::empty());
            },
            FunctionKind::Import { .. } => {},
        }
        assert(sites_upto(after.funcs@, n, stop, false) =~= Seq::empty());
    }
}

/// A module none of whose local functions holds an indirect call has no
/// pair to make a stub for and no call site.
pub proof fn lemma_direct_module(funcs: Seq<Function>, n: int, stop: int, shift: bool)
    requires
        0 <= n <= funcs.len(),
        funcs.len() <= usize::MAX,
        forall|f: int|
            0 <= f < funcs.len() && (#[trigger] funcs[f]).kind is Local ==> body_direct(
                funcs[f].kind->Local_0.body(),
            ),
    ensures
        call_types(funcs, n) == Seq::<CallType>::empty(),
        sites_upto(funcs, n, stop, shift) == Seq::<CallSite>::empty(),
    decreases n,
{
    if n > 0 {
        lemma_direct_module(funcs, n - 1, stop, shift);
        match funcs[n - 1].kind {
            FunctionKind::Local(local) => {
                lemma_body_order_distinct(local.body(), local.entry);
                lemma_direct_body_sites(local.body(), local.order(), (n - 1) as usize, shift);
                lemma_walked(local.body(), local.order());
                let flat = local.walked();
                assert(seq_direct(flat)) by {
                    assert forall|p: int| 0 <= p < flat.len() implies !((#[trigger] flat[p])
                        is CallIndirect) by {
                        assert(stands_in(local.body(), local.order(), flat[p]));
                        let (k, q) = choose|k: int, q: int|
                            0 <= k < local.order().len() && 0 <= q
                                < local.body()[local.order()[k] as int].len()
                                && #[trigger] local.body()[local.order()[k] as int][q] == flat[p];
                        assert(seq_direct(local.body()[local.order()[k] as int]));
                    }
                }
                lemma_direct_met_types(flat);
                assert(function_sites(funcs[n - 1], (n - 1) as usize, stop, shift) =~= Seq::empty());
                assert(sites_upto(funcs, n, stop, shift) =~= Seq::empty());
            },
            FunctionKind::Import { .. } => {
                assert(sites_upto(funcs, n, stop, shift) =~= Seq::empty());
            },
        }
    }
}

/// Instructions without an indirect call among them give no pair.
pub proof fn lemma_direct_met_types(instrs: Seq<Instr>)
    requires
        seq_direct(instrs),
    ensures
        met_types(instrs) == Seq::<CallType>::empty(),
    decreases instrs.len(),
{
    if instrs.len() != 0 {
        let front = instrs.drop_last();
        assert forall|p: int| 0 <= p < front.len() implies !((#[trigger] front[p]) is CallIndirect) by {
            assert(front[p] == instrs[p]);
        }
        lemma_direct_met_types(front);
        assert(!(instrs[instrs.len() - 1] is CallIndirect));
    }
}

/// A stub for indirect calls calls no function directly, so it never calls
/// itself.
pub proof fn lemma_indirect_stub_calls_none(
    module: &Module,
    func: Function,
    index: nat,
    params: Seq<ValType>,
    results: Seq<ValType>,
    ty: usize,
    table: usize,
    p: int,
)
    requires
        is_indirect_stub(module, func, index, params, results, ty, table),
        0 <= p < func.kind->Local_0.seqs[0]@.len(),
    ensures
        !(func.kind->Local_0.seqs[0]@[p] is Call),
{
    let local = func.kind->Local_0;
    if p < local.args@.len() - 1 {
        assert(local.seqs[0]@[p] == Instr::LocalGet { local: local.args@[p] });
    }
}

/// A specialized stub calls its callees and nothing else. The callees are
/// functions that the module had before the stub was made, so the stub
/// never calls itself.
pub proof fn lemma_specialized_stub_calls_callees(
    seqs: Seq<Seq<Instr>>,
    args: Seq<LocalId>,
    callees: Seq<FuncId>,
    targets: Seq<i32>,
    s: int,
    p: int,
)
    requires
        is_specialized_body(seqs, args, callees, targets),
        args.len() >= 1,
        0 <= s < seqs.len(),
        0 <= p < seqs[s].len(),
        seqs[s][p] is Call,
    ensures
        callees.contains(seqs[s][p]->Call_func),
{
    let m = callees.len() as int;
    if s == 0 {
        if p < m {
            assert(seqs[0][p] == Instr::Block { seq: (1 + 3 * (m - 1 - p)) as usize });
        }
    } else {
        let j = (s - 1) / 3;
        assert(0 <= j < m);
        assert(guard_in_place(seqs, args, callees, targets, j));
        if s == 1 + 3 * j {
        } else if s == 2 + 3 * j {
            if p < args.len() - 1 {
                assert(seqs[s][p] == Instr::LocalGet { local: args[p] });
            } else if p == args.len() - 1 {
                assert(seqs[s][p] == Instr::Call { func: callees[j] });
            }
        } else {
            assert(s == 3 + 3 * j);
        }
    }
}

/// A wrapper calls the function it wraps and nothing else.
pub proof fn lemma_wrapper_calls_target(args: Seq<LocalId>, target: FuncId, counter: usize, p: int)
    requires
        0 <= p < wrapper_body(args, target, counter).len(),
        wrapper_body(args, target, counter)[p] is Call,
    ensures
        wrapper_body(args, target, counter)[p] == (Instr::Call { func: target }),
{
    let body = wrapper_body(args, target, counter);
    if p < 4 {
    } else if p < 4 + args.len() {
        assert(body[p] == Instr::LocalGet { local: args[p - 4] });
    }
}

} // verus!
