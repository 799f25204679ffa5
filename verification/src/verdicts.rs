//! The verdicts on a module whose call sites go through stubs.
//!
//! Routing the indirect calls through stubs moves each of them from its
//! function into a stub, and the function calls the stub in its place. A
//! function that depended on the callees of the indirect call now depends
//! on the stub, which depends on those callees. So the verdict on every
//! function that the module had stays what it was, and a stub is a slowcall
//! exactly if one of the callees it could reach is no fastcall.

use crate::calltypes::{lemma_call_types, CallType};
use crate::grow::extends;
use crate::instrument::{forward, lemma_stubbed, stubbed};
use crate::ir::{
    Export, ExportItem, FuncId, Function, FunctionKind, GlobalId, ImportKind, Instr,
    LocalFunction, LocalId, Module, SeqId, TableId, TypeId,
};
use crate::lookup::{first_start, lemma_main_segment, start_name};
use crate::rewrite::{instrument_seq, lemma_rewrite_body_at, rewrite_body, Plan, Rewrite};
use crate::scan::Facts;
use crate::sitepass::sites_upto;
use crate::sites::{indirect_count, seq_direct, sites_along};
use crate::wiring::{is_woven, slot_in_place, Slot};
use crate::walk::{
    body_order, children, lemma_body_order_distinct, lemma_unseen_mark, unseen, visit_order,
    lemma_walked, stands_in, walked,
};
use vstd::prelude::*;

verus! {

/// Routing the indirect calls of a sequence through stubs leaves the
/// sequences that it nests as they were.
pub proof fn lemma_children_instrumented(instrs: Seq<Instr>, base: int, stubs: Map<usize, FuncId>)
    ensures
        children(instrument_seq(instrs, base, stubs)) == children(instrs),
    decreases instrs.len(),
{
    if instrs.len() != 0 {
        let front = instrs.drop_last();
        let done = instrument_seq(front, base, stubs);
        lemma_children_instrumented(front, base, stubs);
        match instrs.last() {
            Instr::CallIndirect { ty, .. } => {
                let index = done.push(Instr::Const { value: (base + indirect_count(front)) as i32 });
                let out = index.push(Instr::Call { func: stubs[ty] });
                assert(out.drop_last() =~= index);
                assert(index.drop_last() =~= done);
                assert(children(index) =~= children(done));
                assert(children(out) =~= children(index));
            },
            other => {
                assert(done.push(other).drop_last() =~= done);
            },
        }
    }
}

/// The walk goes by the nesting alone: two bodies whose sequences nest the
/// same are visited in the same order.
pub proof fn lemma_visit_order_same(
    a: Seq<Seq<Instr>>,
    b: Seq<Seq<Instr>>,
    stack: Seq<SeqId>,
    seen: Seq<bool>,
)
    requires
        a.len() == b.len(),
        forall|s: int| 0 <= s < a.len() ==> children(#[trigger] a[s]) == children(b[s]),
    ensures
        visit_order(a, stack, seen) == visit_order(b, stack, seen),
    decreases unseen(seen), stack.len(),
{
    if stack.len() != 0 {
        let s = stack.last();
        let rest = stack.drop_last();
        if s >= a.len() || s >= seen.len() || seen[s as int] {
            lemma_visit_order_same(a, b, rest, seen);
        } else {
            lemma_unseen_mark(seen, s as int);
            assert(children(a[s as int]) == children(b[s as int]));
            lemma_visit_order_same(a, b, rest + children(a[s as int]), seen.update(s as int, true));
        }
    }
}

/// Routing the indirect calls of a body through stubs does not change the
/// order in which its sequences are visited.
pub proof fn lemma_order_instrumented(
    body: Seq<Seq<Instr>>,
    entry: SeqId,
    base: int,
    stubs: Map<usize, FuncId>,
)
    requires
        body.len() <= usize::MAX,
    ensures
        body_order(
            rewrite_body(body, body_order(body, entry), base, Plan::Instrument { stubs }),
            entry,
        ) == body_order(body, entry),
{
    let order = body_order(body, entry);
    let plan = Plan::Instrument { stubs };
    let after = rewrite_body(body, order, base, plan);
    lemma_body_order_distinct(body, entry);
    if body.len() == 0 {
        assert(order.len() == 0) by {
            if order.len() > 0 {
                assert(order[0] < body.len());
            }
        }
    } else {
        lemma_rewrite_body_at(body, order, base, plan, 0);
    }
    assert forall|s: int| 0 <= s < body.len() implies children(#[trigger] after[s]) == children(
        body[s],
    ) by {
        lemma_rewrite_body_at(body, order, base, plan, s);
        if order.contains(s as usize) {
            let k = order.index_of(s as usize);
            lemma_children_instrumented(
                body[s],
                base + sites_along(body, order.take(k), 0, true).len(),
                stubs,
            );
        }
    }
    lemma_visit_order_same(after, body, seq![entry], Seq::new(body.len(), |i: int| false));
}

/// One of the instructions calls `g`.
pub open spec fn calls(instrs: Seq<Instr>, g: FuncId) -> bool {
    instrs.contains(Instr::Call { func: g })
}

/// The instruction is an indirect call whose stub is `g`.
pub open spec fn routes_to(instr: Instr, stubs: Map<usize, FuncId>, g: FuncId) -> bool {
    match instr {
        Instr::CallIndirect { ty, .. } => stubs[ty] == g,
        _ => false,
    }
}

/// One of the instructions is an indirect call whose stub is `g`.
pub open spec fn routed(instrs: Seq<Instr>, stubs: Map<usize, FuncId>, g: FuncId) -> bool {
    exists|p: int| 0 <= p < instrs.len() && routes_to(#[trigger] instrs[p], stubs, g)
}

/// `after` calls what `before` calls directly and the stubs of what it
/// calls indirectly, and calls nothing indirectly.
pub open spec fn calls_routed(before: Seq<Instr>, after: Seq<Instr>, stubs: Map<usize, FuncId>) -> bool {
    &&& seq_direct(after)
    &&& forall|g: FuncId| #[trigger] calls(after, g) <==> calls(before, g) || routed(before, stubs, g)
}

/// What calls the longer sequence makes, given those of its two parts.
pub proof fn lemma_calls_routed_join(
    a: Seq<Instr>,
    b: Seq<Instr>,
    c: Seq<Instr>,
    d: Seq<Instr>,
    stubs: Map<usize, FuncId>,
)
    requires
        calls_routed(a, b, stubs),
        calls_routed(c, d, stubs),
    ensures
        calls_routed(a + c, b + d, stubs),
{
    let before = a + c;
    let after = b + d;
    assert forall|p: int| 0 <= p < after.len() implies !((#[trigger] after[p]) is CallIndirect) by {
        if p < b.len() {
            assert(after[p] == b[p]);
        } else {
            assert(after[p] == d[p - b.len()]);
        }
    }
    assert forall|g: FuncId| #[trigger] calls(after, g) <==> calls(before, g) || routed(before, stubs, g) by {
        let call = Instr::Call { func: g };
        if calls(after, g) {
            let p = choose|p: int| 0 <= p < after.len() && after[p] == call;
            if p < b.len() {
                assert(b[p] == call);
                assert(calls(b, g));
                lemma_part_calls(a, c, stubs, g);
            } else {
                assert(d[p - b.len()] == call);
                assert(calls(d, g));
                lemma_part_calls(a, c, stubs, g);
            }
        }
        if calls(before, g) || routed(before, stubs, g) {
            lemma_part_calls(a, c, stubs, g);
            if calls(a, g) || routed(a, stubs, g) {
                assert(calls(b, g));
                let p = choose|p: int| 0 <= p < b.len() && b[p] == call;
                assert(after[p] == call);
            } else {
                assert(calls(d, g));
                let p = choose|p: int| 0 <= p < d.len() && d[p] == call;
                assert(after[b.len() + p] == call);
            }
        }
    }
}

/// A sequence calls, and routes, what one of its two parts does.
proof fn lemma_part_calls(a: Seq<Instr>, c: Seq<Instr>, stubs: Map<usize, FuncId>, g: FuncId)
    ensures
        calls(a + c, g) <==> calls(a, g) || calls(c, g),
        routed(a + c, stubs, g) <==> routed(a, stubs, g) || routed(c, stubs, g),
{
    let all = a + c;
    let call = Instr::Call { func: g };
    if calls(all, g) {
        let p = choose|p: int| 0 <= p < all.len() && all[p] == call;
        if p < a.len() {
            assert(a[p] == call);
        } else {
            assert(c[p - a.len()] == call);
        }
    }
    if calls(a, g) {
        let p = choose|p: int| 0 <= p < a.len() && a[p] == call;
        assert(all[p] == call);
    }
    if calls(c, g) {
        let p = choose|p: int| 0 <= p < c.len() && c[p] == call;
        assert(all[a.len() + p] == call);
    }
    if routed(all, stubs, g) {
        let p = choose|p: int| 0 <= p < all.len() && routes_to(#[trigger] all[p], stubs, g);
        if p < a.len() {
            assert(routes_to(a[p], stubs, g));
        } else {
            assert(routes_to(c[p - a.len()], stubs, g));
        }
    }
    if routed(a, stubs, g) {
        let p = choose|p: int| 0 <= p < a.len() && routes_to(#[trigger] a[p], stubs, g);
        assert(routes_to(all[p], stubs, g));
    }
    if routed(c, stubs, g) {
        let p = choose|p: int| 0 <= p < c.len() && routes_to(#[trigger] c[p], stubs, g);
        assert(routes_to(all[a.len() + p], stubs, g));
    }
}

/// A sequence whose indirect calls were routed through stubs calls what it
/// called directly and the stubs of what it called indirectly.
pub proof fn lemma_instrumented_calls(instrs: Seq<Instr>, base: int, stubs: Map<usize, FuncId>)
    ensures
        calls_routed(instrs, instrument_seq(instrs, base, stubs), stubs),
    decreases instrs.len(),
{
    let out = instrument_seq(instrs, base, stubs);
    if instrs.len() == 0 {
        assert forall|g: FuncId| #[trigger] calls(out, g) <==> calls(instrs, g) || routed(instrs, stubs, g) by {}
    } else {
        let front = instrs.drop_last();
        let last = instrs.last();
        let done = instrument_seq(front, base, stubs);
        lemma_instrumented_calls(front, base, stubs);
        assert(instrs =~= front + seq![last]);
        let tail = match last {
            Instr::CallIndirect { ty, .. } => seq![
                Instr::Const { value: (base + indirect_count(front)) as i32 },
                Instr::Call { func: stubs[ty] },
            ],
            other => seq![other],
        };
        assert(out =~= done + tail);
        assert(calls_routed(seq![last], tail, stubs)) by {
            assert forall|g: FuncId| #[trigger]
                calls(tail, g) <==> calls(seq![last], g) || routed(seq![last], stubs, g) by {
                let call = Instr::Call { func: g };
                if calls(tail, g) {
                    let p = choose|p: int| 0 <= p < tail.len() && tail[p] == call;
                    if last is CallIndirect {
                        assert(routes_to(seq![last][0], stubs, g));
                    } else {
                        assert(seq![last][0] == call);
                    }
                }
                if calls(seq![last], g) {
                    let p = choose|p: int| 0 <= p < 1 && seq![last][p] == call;
                    assert(tail[0] == call);
                }
                if routed(seq![last], stubs, g) {
                    let p = choose|p: int| 0 <= p < 1 && routes_to(#[trigger] seq![last][p], stubs, g);
                    assert(tail[1] == call);
                }
            }
        }
        lemma_calls_routed_join(front, done, seq![last], tail, stubs);
    }
}

/// A walk of two bodies along the same sequences, each of which calls in
/// the second body what it called in the first and the stubs of what it
/// called indirectly, does so as a whole.
pub proof fn lemma_walk_routed(
    before: Seq<Seq<Instr>>,
    after: Seq<Seq<Instr>>,
    order: Seq<SeqId>,
    stubs: Map<usize, FuncId>,
)
    requires
        forall|k: int|
            0 <= k < order.len() ==> calls_routed(
                before[(#[trigger] order[k]) as int],
                after[order[k] as int],
                stubs,
            ),
    ensures
        calls_routed(walked(before, order), walked(after, order), stubs),
    decreases order.len(),
{
    if order.len() == 0 {
        assert forall|g: FuncId| #[trigger]
            calls(walked(after, order), g) <==> calls(walked(before, order), g) || routed(
                walked(before, order),
                stubs,
                g,
            ) by {}
    } else {
        let front = order.drop_last();
        assert forall|k: int| 0 <= k < front.len() implies calls_routed(
            before[(#[trigger] front[k]) as int],
            after[front[k] as int],
            stubs,
        ) by {
            assert(front[k] == order[k]);
        }
        lemma_walk_routed(before, after, front, stubs);
        let s = order[order.len() - 1] as int;
        lemma_calls_routed_join(walked(before, front), walked(after, front), before[s], after[s], stubs);
    }
}

/// A function whose call sites were routed through stubs is walked in
/// the order it was, and the walk comes by the calls that it came by and,
/// for each indirect call, by the call of its stub.
pub proof fn lemma_function_routed(
    before: LocalFunction,
    after: LocalFunction,
    base: int,
    stubs: Map<usize, FuncId>,
)
    requires
        after.entry == before.entry,
        after.body() == rewrite_body(
            before.body(),
            before.order(),
            base,
            Plan::Instrument { stubs },
        ),
    ensures
        after.order() == before.order(),
        calls_routed(before.walked(), after.walked(), stubs),
{
    let body = before.body();
    let order = before.order();
    let plan = Plan::Instrument { stubs };
    assert(body.len() == before.seqs.len());
    lemma_order_instrumented(body, before.entry, base, stubs);
    lemma_body_order_distinct(body, before.entry);
    assert forall|k: int| 0 <= k < order.len() implies calls_routed(
        body[(#[trigger] order[k]) as int],
        after.body()[order[k] as int],
        stubs,
    ) by {
        let s = order[k] as int;
        lemma_rewrite_body_at(body, order, base, plan, s);
        lemma_instrumented_calls(body[s], base + sites_along(body, order.take(k), 0, true).len(), stubs);
    }
    lemma_walk_routed(body, after.body(), order, stubs);
}

/// The instruction calls a function, directly or not.
pub open spec fn is_call(instr: Instr) -> bool {
    instr is Call || instr is CallIndirect
}

/// The observation code calls nothing: every call of a woven body stands
/// in the sequence in which it stood.
pub proof fn lemma_woven_calls(
    before: Seq<Seq<Instr>>,
    after: Seq<Seq<Instr>>,
    entry: int,
    slots: Seq<Slot>,
    counter: GlobalId,
    site_param: LocalId,
    target_param: LocalId,
    set_value: LocalId,
    s: int,
    p: int,
)
    requires
        is_woven(before, after, entry, slots, counter, site_param, target_param, set_value),
        0 <= entry < before.len(),
        0 <= s < after.len(),
        0 <= p < after[s].len(),
        is_call(after[s][p]),
    ensures
        s < before.len(),
        before[s].contains(after[s][p]),
{
    let n = before.len() as int;
    if s == entry {
        assert(p >= 2);
        assert(before[s][p - 2] == after[s][p]);
    } else if s < n {
        assert(after[s] == before[s]);
        assert(before[s][p] == after[s][p]);
    } else if s >= n + 2 {
        let k = (s - (n + 2)) / 5;
        assert(slot_in_place(after, slots, k, n + 2, n + 1, site_param, target_param, set_value));
    }
}

impl LocalFunction {
    /// The function does nothing but hand its arguments, the last left
    /// out, to an indirect call through `ty` and `table`.
    pub open spec fn calls_through(&self, ty: TypeId, table: TableId) -> bool {
        &&& self.entry == 0
        &&& self.seqs@.len() == 1
        &&& self.seqs[0]@ == forward(self.args@, self.args@.len() - 1).push(
            Instr::CallIndirect { ty, table },
        )
    }

    /// The walk comes by the indirect call through `ty` and `table` and by
    /// no other call.
    pub open spec fn calls_only_through(&self, ty: TypeId, table: TableId) -> bool {
        &&& self.walked().contains(Instr::CallIndirect { ty, table })
        &&& forall|i: int|
            0 <= i < self.walked().len() && is_call(#[trigger] self.walked()[i]) ==> self.walked()[i]
                == (Instr::CallIndirect { ty, table })
    }
}

/// A stub with the observation code woven in still makes its indirect call
/// and no other.
pub proof fn lemma_woven_stub_calls(
    before: LocalFunction,
    after: LocalFunction,
    ty: TypeId,
    table: TableId,
    slots: Seq<Slot>,
    counter: GlobalId,
    site_param: LocalId,
    target_param: LocalId,
    set_value: LocalId,
)
    requires
        before.calls_through(ty, table),
        after.entry == 0,
        is_woven(before.body(), after.body(), 0, slots, counter, site_param, target_param, set_value),
    ensures
        after.calls_only_through(ty, table),
{
    let body = after.body();
    let order = after.order();
    let flat = after.walked();
    let call = Instr::CallIndirect { ty, table };
    let old_entry = before.body()[0];
    assert(old_entry == before.seqs[0]@);
    lemma_walked(body, order);
    lemma_body_order_distinct(body, after.entry);
    assert forall|i: int| 0 <= i < flat.len() && is_call(#[trigger] flat[i]) implies flat[i] == call by {
        assert(stands_in(body, order, flat[i]));
        let (k, p) = choose|k: int, p: int|
            0 <= k < order.len() && 0 <= p < body[order[k] as int].len()
                && #[trigger] body[order[k] as int][p] == flat[i];
        let s = order[k] as int;
        lemma_woven_calls(
            before.body(),
            body,
            0,
            slots,
            counter,
            site_param,
            target_param,
            set_value,
            s,
            p,
        );
        let q = choose|q: int| 0 <= q < old_entry.len() && old_entry[q] == flat[i];
        if q < old_entry.len() - 1 {
            assert(old_entry[q] is LocalGet);
        }
    }
    lemma_order_starts(body, after.entry);
    let last = body[0].len() - 1;
    assert(body[0][last] == old_entry[last - 2]);
    assert(body[order[0] as int][last] == call);
}

/// The walk of a body starts with its entry.
pub proof fn lemma_order_starts(body: Seq<Seq<Instr>>, entry: SeqId)
    requires
        entry < body.len(),
    ensures
        body_order(body, entry).len() > 0,
        body_order(body, entry)[0] == entry,
{
    let seen = Seq::new(body.len(), |i: int| false);
    assert(seq![entry].last() == entry);
    lemma_unseen_mark(seen, entry as int);
}

/// `after` is `before` with its call sites routed through stubs, as far
/// as the verdicts go: an import as it was, a local function with the
/// signature it had, calling what it called directly and the stubs of what
/// it called indirectly.
pub open spec fn is_routed_function(before: Function, after: Function, stubs: Map<usize, FuncId>) -> bool {
    match before.kind {
        FunctionKind::Import { .. } => after == before,
        FunctionKind::Local(local) => {
            &&& after.kind is Local
            &&& after.kind->Local_0.ty == local.ty
            &&& calls_routed(local.walked(), after.kind->Local_0.walked(), stubs)
        },
    }
}

/// The stub recorded for `ty` is one of those made for `pairs`, numbered
/// from `first`, and was made for a pair of that signature.
pub open spec fn stub_serves(stubs: Map<usize, FuncId>, pairs: Seq<CallType>, first: int, ty: TypeId) -> bool {
    &&& stubs.contains_key(ty)
    &&& first <= stubs[ty] < first + pairs.len()
    &&& pairs[stubs[ty] - first].0 == ty
}

impl Module {
    /// `after` is this module with its call sites routed through stubs,
    /// as far as the verdicts go: the stubs stand behind the functions
    /// that the module had, one for each of `pairs`, and make the indirect
    /// calls; each function that the module had calls the stubs instead;
    /// and imports, exports, tables and the signatures that the module
    /// had are the same.
    pub open spec fn routed_to(&self, after: &Module, stubs: Map<usize, FuncId>, pairs: Seq<CallType>) -> bool {
        let first = self.funcs.len() as int;
        &&& after.imports == self.imports
        &&& after.exports == self.exports
        &&& after.tables == self.tables
        &&& after.elements == self.elements
        &&& extends(after.types@, self.types@)
        &&& after.funcs.len() == first + pairs.len()
        &&& forall|f: int|
            0 <= f < first ==> is_routed_function(self.funcs[f], #[trigger] after.funcs[f], stubs)
        &&& forall|i: int|
            0 <= i < pairs.len() ==> {
                &&& pairs[i].0 < self.types.len()
                &&& (#[trigger] after.funcs[first + i]).kind is Local
                &&& after.funcs[first + i].kind->Local_0.calls_only_through(pairs[i].0, pairs[i].1)
            }
        &&& forall|f: int, p: int|
            0 <= f < first && self.funcs[f].kind is Local && 0 <= p
                < self.funcs[f].kind->Local_0.walked().len()
                ==> match #[trigger] self.funcs[f].kind->Local_0.walked()[p] {
                Instr::CallIndirect { ty, .. } => stub_serves(stubs, pairs, first, ty),
                _ => true,
            }
    }
}

/// The entry function, where a module has one, is a function of the
/// module.
pub proof fn lemma_start_exists(module: &Module)
    requires
        module.wf(),
        module.start() is Some,
    ensures
        module.start().unwrap() < module.funcs.len(),
{
    lemma_first_start(module.exports@, 0);
    let at = choose|at: int|
        0 <= at < module.exports.len() && (#[trigger] module.exports[at]).item == ExportItem::Function(
            module.start().unwrap(),
        );
    assert(module.exports[at].item is Function);
}

/// The entry function found is the function of some export.
proof fn lemma_first_start(exports: Seq<Export>, from: int)
    requires
        first_start(exports, from) is Some,
    ensures
        exists|at: int|
            0 <= at < exports.len() && (#[trigger] exports[at]).item == ExportItem::Function(
                first_start(exports, from).unwrap(),
            ),
    decreases exports.len() - from,
{
    if from < 0 || from >= exports.len() {
    } else if exports[from].name@ == start_name() && exports[from].item is Function {
        assert(exports[from].item == ExportItem::Function(first_start(exports, from).unwrap()));
    } else {
        lemma_first_start(exports, from + 1);
    }
}

/// Routing the call sites through stubs changes none of the facts that
/// the scans go by, and every function that the facts name is one that the
/// module had.
pub proof fn lemma_routed_facts(
    before: &Module,
    after: &Module,
    stubs: Map<usize, FuncId>,
    pairs: Seq<CallType>,
    benign: Seq<Seq<char>>,
)
    requires
        before.wf(),
        before.start() is Some,
        before.routed_to(after, stubs, pairs),
    ensures
        after.facts(benign) == before.facts(benign),
        before.facts(benign).start < before.funcs.len(),
        forall|g: FuncId| #[trigger] before.facts(benign).poison.contains(g) ==> g < before.funcs.len(),
        forall|g: FuncId| #[trigger]
            before.facts(benign).members.contains(Some(g)) ==> g < before.funcs.len(),
        forall|g: FuncId, ty: TypeId|
            g < before.funcs.len() && ty < before.types.len() ==> #[trigger] after.has_type(g, ty)
                == before.has_type(g, ty),
{
    lemma_start_exists(before);
    let facts = before.facts(benign);
    assert(after.facts(benign).poison =~= facts.poison);
    assert forall|g: FuncId| #[trigger] facts.poison.contains(g) implies g < before.funcs.len() by {
        let i = choose|i: int|
            0 <= i < before.imports.len() && (#[trigger] before.imports[i]).kind
                == ImportKind::Function(g) && !benign.contains(before.imports[i].name@);
        assert(before.imports[i].kind == ImportKind::Function(g));
    }
    assert forall|g: FuncId| #[trigger] facts.members.contains(Some(g)) implies g
        < before.funcs.len() by {
        if before.main_segment() is Some {
            lemma_main_segment(before);
            let e = before.main_segment().unwrap() as int;
            let i = choose|i: int| 0 <= i < facts.members.len() && facts.members[i] == Some(g);
            assert(before.elements[e].members[i] == Some(g));
        }
    }
    assert forall|g: FuncId, ty: TypeId|
        g < before.funcs.len() && ty < before.types.len() implies #[trigger] after.has_type(g, ty)
        == before.has_type(g, ty) by {
        let had = before.funcs[g as int];
        assert(had.wf(before.bounds()));
        assert(is_routed_function(had, after.funcs[g as int], stubs));
        let t = had.type_id() as int;
        assert(after.funcs[g as int].type_id() == t);
        assert(after.types@.take(before.types.len() as int)[t] == after.types@[t]);
        assert(after.types@.take(before.types.len() as int)[ty as int] == after.types@[ty as int]);
    }
}

impl Facts {
    /// A direct call rules `func` out: it is the entry function, or it
    /// calls itself or an import that is not benign.
    pub open spec fn calls_out(&self, func: FuncId, flat: Seq<Instr>) -> bool {
        func == self.start || exists|i: int|
            0 <= i < flat.len() && match #[trigger] flat[i] {
                Instr::Call { func: g } => g == func || self.poison.contains(g),
                _ => false,
            }
    }

    /// `func` depends on `d` by a direct call.
    pub open spec fn calls_on(&self, func: FuncId, flat: Seq<Instr>, d: FuncId) -> bool {
        func != self.start && d != func && !self.poison.contains(d) && calls(flat, d)
    }
}

/// What rules out a function whose call sites were routed through stubs,
/// and what it depends on: the direct calls that it made count as before,
/// and in place of the callees of each indirect call it depends on the
/// stub.
pub proof fn lemma_routed_links(
    before: &Module,
    after: &Module,
    stubs: Map<usize, FuncId>,
    pairs: Seq<CallType>,
    benign: Seq<Seq<char>>,
    func: FuncId,
)
    requires
        before.wf(),
        before.start() is Some,
        before.routed_to(after, stubs, pairs),
        before.is_local(func),
    ensures
        after.is_local(func),
        after.ruled_out(benign, func) == before.facts(benign).calls_out(func, before.local_walk(func)),
        forall|d: FuncId| #[trigger]
            after.depends_on(benign, func, d) == (before.facts(benign).calls_on(
                func,
                before.local_walk(func),
                d,
            ) || (func != before.facts(benign).start && routed(before.local_walk(func), stubs, d))),
{
    lemma_routed_facts(before, after, stubs, pairs, benign);
    let facts = before.facts(benign);
    let first = before.funcs.len() as int;
    let had = before.local_walk(func);
    let has = after.local_walk(func);
    assert(is_routed_function(before.funcs[func as int], after.funcs[func as int], stubs));
    assert(calls_routed(had, has, stubs));
    // A stub is neither the function itself nor an import.
    assert forall|g: FuncId| #[trigger] routed(had, stubs, g) implies g >= first by {
        let p = choose|p: int| 0 <= p < had.len() && routes_to(#[trigger] had[p], stubs, g);
        assert(stub_serves(stubs, pairs, first, had[p]->ty));
    }
    if after.ruled_out(benign, func) && func != facts.start {
        let j = choose|j: int|
            0 <= j < has.len() && facts.instr_rules_out(after, func, #[trigger] has[j]);
        let g = has[j]->Call_func;
        assert(has[j] == Instr::Call { func: g });
        assert(calls(has, g));
        if routed(had, stubs, g) {
            assert(g >= first);
            assert(!facts.poison.contains(g));
        }
        let i = choose|i: int| 0 <= i < had.len() && had[i] == (Instr::Call { func: g });
        assert(had[i] is Call);
    }
    if facts.calls_out(func, had) && func != facts.start {
        let i = choose|i: int|
            0 <= i < had.len() && match #[trigger] had[i] {
                Instr::Call { func: g } => g == func || facts.poison.contains(g),
                _ => false,
            };
        let g = had[i]->Call_func;
        assert(had[i] == Instr::Call { func: g });
        assert(calls(had, g));
        assert(calls(has, g));
        let j = choose|j: int| 0 <= j < has.len() && has[j] == (Instr::Call { func: g });
        assert(facts.instr_rules_out(after, func, has[j]));
    }
    assert forall|d: FuncId| #[trigger]
        after.depends_on(benign, func, d) == (facts.calls_on(func, had, d) || (func != facts.start
            && routed(had, stubs, d))) by {
        if after.depends_on(benign, func, d) {
            let j = choose|j: int|
                0 <= j < has.len() && facts.instr_depends(after, func, #[trigger] has[j], d);
            assert(has[j] == Instr::Call { func: d });
            assert(calls(has, d));
        }
        if facts.calls_on(func, had, d) || (func != facts.start && routed(had, stubs, d)) {
            if routed(had, stubs, d) {
                assert(d >= first);
                assert(!facts.poison.contains(d));
            }
            assert(calls(has, d));
            let j = choose|j: int| 0 <= j < has.len() && has[j] == (Instr::Call { func: d });
            assert(facts.instr_depends(after, func, has[j], d));
        }
    }
}

/// A stub is ruled out by nothing, and depends on the functions that its
/// indirect call could reach.
pub proof fn lemma_stub_links(
    before: &Module,
    after: &Module,
    stubs: Map<usize, FuncId>,
    pairs: Seq<CallType>,
    benign: Seq<Seq<char>>,
    i: int,
)
    requires
        before.wf(),
        before.start() is Some,
        before.routed_to(after, stubs, pairs),
        0 <= i < pairs.len(),
    ensures
        after.is_local((before.funcs.len() + i) as usize),
        !after.ruled_out(benign, (before.funcs.len() + i) as usize),
        forall|d: FuncId| #[trigger]
            after.depends_on(benign, (before.funcs.len() + i) as usize, d) == before.facts(
                benign,
            ).targeted(before, pairs[i].0, d),
{
    lemma_routed_facts(before, after, stubs, pairs, benign);
    let facts = before.facts(benign);
    let first = before.funcs.len() as int;
    let stub = (first + i) as usize;
    let (ty, table) = pairs[i];
    let local = after.funcs[first + i].kind->Local_0;
    let flat = after.local_walk(stub);
    assert(local.calls_only_through(ty, table));
    assert(flat == local.walked());
    let call = Instr::CallIndirect { ty, table };
    let at = choose|at: int| 0 <= at < flat.len() && flat[at] == call;
    assert(!facts.members.contains(Some(stub))) by {
        if facts.members.contains(Some(stub)) {
            assert(stub < before.funcs.len());
        }
    }
    if after.ruled_out(benign, stub) {
        let j = choose|j: int|
            0 <= j < flat.len() && facts.instr_rules_out(after, stub, #[trigger] flat[j]);
        assert(is_call(flat[j]));
    }
    assert forall|d: FuncId| #[trigger]
        after.depends_on(benign, stub, d) == facts.targeted(before, ty, d) by {
        if after.depends_on(benign, stub, d) {
            let j = choose|j: int|
                0 <= j < flat.len() && facts.instr_depends(after, stub, #[trigger] flat[j], d);
            assert(is_call(flat[j]));
            assert(facts.targeted(after, ty, d));
            assert(after.has_type(d, ty) == before.has_type(d, ty));
        }
        if facts.targeted(before, ty, d) {
            assert(after.has_type(d, ty) == before.has_type(d, ty));
            assert(facts.instr_depends(after, stub, flat[at], d));
        }
    }
}

/// What it takes to be shown a fastcall at depth `k`.
pub proof fn lemma_fast_in_unfold(module: &Module, benign: Seq<Seq<char>>, k: nat, func: FuncId)
    ensures
        module.fast_in(benign, k, func) == {
            &&& k > 0
            &&& module.is_local(func)
            &&& !module.ruled_out(benign, func)
            &&& forall|d: FuncId| #[trigger]
                module.depends_on(benign, func, d) ==> module.fast_in(benign, (k - 1) as nat, d)
        },
{
    reveal(Module::fast_in);
}

/// A function shown to be a fastcall at one depth is shown to be one at
/// every greater depth.
pub proof fn lemma_fast_in_mono(module: &Module, benign: Seq<Seq<char>>, k: nat, m: nat, func: FuncId)
    requires
        module.fast_in(benign, k, func),
        k <= m,
    ensures
        module.fast_in(benign, m, func),
    decreases k,
{
    lemma_fast_in_unfold(module, benign, k, func);
    lemma_fast_in_unfold(module, benign, m, func);
    assert forall|d: FuncId| #[trigger] module.depends_on(benign, func, d) implies module.fast_in(
        benign,
        (m - 1) as nat,
        d,
    ) by {
        lemma_fast_in_mono(module, benign, (k - 1) as nat, (m - 1) as nat, d);
    }
}

/// Every instruction that the walk of a local function comes by names
/// entities that exist.
pub proof fn lemma_walk_wf(module: &Module, func: FuncId, i: int)
    requires
        module.wf(),
        module.is_local(func),
        0 <= i < module.local_walk(func).len(),
    ensures
        module.local_walk(func)[i].wf(
            module.bounds().with_seqs(module.funcs[func as int].kind->Local_0.seqs.len() as nat),
        ),
{
    let local = module.funcs[func as int].kind->Local_0;
    let flat = local.walked();
    lemma_walked(local.body(), local.order());
    lemma_body_order_distinct(local.body(), local.entry);
    assert(stands_in(local.body(), local.order(), flat[i]));
    let (k, p) = choose|k: int, p: int|
        0 <= k < local.order().len() && 0 <= p < local.body()[local.order()[k] as int].len()
            && #[trigger] local.body()[local.order()[k] as int][p] == flat[i];
    assert(module.funcs[func as int].wf(module.bounds()));
    let s = local.order()[k] as int;
    assert(local.seqs[s]@ == local.body()[s]);
    assert(local.seqs[s]@[p].wf(module.bounds().with_seqs(local.seqs.len() as nat)));
}

/// A function that is shown to be a fastcall once the call sites go
/// through stubs was one before, and no deeper.
pub proof fn lemma_verdict_kept(
    before: &Module,
    after: &Module,
    stubs: Map<usize, FuncId>,
    pairs: Seq<CallType>,
    benign: Seq<Seq<char>>,
    k: nat,
    func: FuncId,
)
    requires
        before.wf(),
        before.start() is Some,
        before.routed_to(after, stubs, pairs),
        func < before.funcs.len(),
        after.fast_in(benign, k, func),
    ensures
        before.fast_in(benign, k, func),
    decreases k,
{
    let facts = before.facts(benign);
    let first = before.funcs.len() as int;
    let had = before.local_walk(func);
    lemma_routed_facts(before, after, stubs, pairs, benign);
    lemma_fast_in_unfold(after, benign, k, func);
    lemma_fast_in_unfold(before, benign, k, func);
    assert(is_routed_function(before.funcs[func as int], after.funcs[func as int], stubs));
    lemma_routed_links(before, after, stubs, pairs, benign, func);
    if before.ruled_out(benign, func) {
        let i = choose|i: int|
            0 <= i < had.len() && facts.instr_rules_out(before, func, #[trigger] had[i]);
        match had[i] {
            Instr::CallIndirect { ty, .. } => {
                assert(stub_serves(stubs, pairs, first, ty));
                let stub = stubs[ty];
                assert(routes_to(had[i], stubs, stub));
                assert(after.depends_on(benign, func, stub));
                lemma_fast_in_unfold(after, benign, (k - 1) as nat, stub);
                lemma_stub_links(before, after, stubs, pairs, benign, stub - first);
                assert(after.depends_on(benign, stub, func));
                lemma_verdict_kept(before, after, stubs, pairs, benign, (k - 2) as nat, func);
                lemma_fast_in_unfold(before, benign, (k - 2) as nat, func);
            },
            _ => {},
        }
        assert(false);
    }
    assert forall|d: FuncId| #[trigger] before.depends_on(benign, func, d) implies before.fast_in(
        benign,
        (k - 1) as nat,
        d,
    ) by {
        let i = choose|i: int|
            0 <= i < had.len() && facts.instr_depends(before, func, #[trigger] had[i], d);
        lemma_walk_wf(before, func, i);
        match had[i] {
            Instr::CallIndirect { ty, .. } => {
                assert(stub_serves(stubs, pairs, first, ty));
                let stub = stubs[ty];
                assert(routes_to(had[i], stubs, stub));
                assert(after.depends_on(benign, func, stub));
                lemma_fast_in_unfold(after, benign, (k - 1) as nat, stub);
                lemma_stub_links(before, after, stubs, pairs, benign, stub - first);
                assert(after.depends_on(benign, stub, d));
                lemma_verdict_kept(before, after, stubs, pairs, benign, (k - 2) as nat, d);
                lemma_fast_in_mono(before, benign, (k - 2) as nat, (k - 1) as nat, d);
            },
            _ => {
                assert(had[i] == Instr::Call { func: d });
                assert(calls(had, d));
                assert(after.depends_on(benign, func, d));
                lemma_verdict_kept(before, after, stubs, pairs, benign, (k - 1) as nat, d);
            },
        }
    }
}

/// A function that was shown to be a fastcall is shown to be one once the
/// call sites go through stubs, each stub on the way taking one step more.
pub proof fn lemma_verdict_carried(
    before: &Module,
    after: &Module,
    stubs: Map<usize, FuncId>,
    pairs: Seq<CallType>,
    benign: Seq<Seq<char>>,
    k: nat,
    func: FuncId,
)
    requires
        before.wf(),
        before.start() is Some,
        before.routed_to(after, stubs, pairs),
        before.fast_in(benign, k, func),
    ensures
        after.fast_in(benign, 2 * k, func),
    decreases k,
{
    let facts = before.facts(benign);
    let first = before.funcs.len() as int;
    let had = before.local_walk(func);
    lemma_routed_facts(before, after, stubs, pairs, benign);
    lemma_fast_in_unfold(before, benign, k, func);
    lemma_fast_in_unfold(after, benign, 2 * k, func);
    lemma_routed_links(before, after, stubs, pairs, benign, func);
    if facts.calls_out(func, had) {
        let i = choose|i: int|
            0 <= i < had.len() && match #[trigger] had[i] {
                Instr::Call { func: g } => g == func || facts.poison.contains(g),
                _ => false,
            };
        assert(facts.instr_rules_out(before, func, had[i]));
        assert(false);
    }
    assert forall|d: FuncId| #[trigger] after.depends_on(benign, func, d) implies after.fast_in(
        benign,
        (2 * k - 1) as nat,
        d,
    ) by {
        if facts.calls_on(func, had, d) {
            let i = choose|i: int| 0 <= i < had.len() && had[i] == (Instr::Call { func: d });
            assert(facts.instr_depends(before, func, had[i], d));
            assert(before.depends_on(benign, func, d));
            lemma_verdict_carried(before, after, stubs, pairs, benign, (k - 1) as nat, d);
            lemma_fast_in_mono(after, benign, (2 * (k - 1)) as nat, (2 * k - 1) as nat, d);
        } else {
            let p = choose|p: int| 0 <= p < had.len() && routes_to(#[trigger] had[p], stubs, d);
            let ty = had[p]->ty;
            assert(stub_serves(stubs, pairs, first, ty));
            lemma_stub_links(before, after, stubs, pairs, benign, d - first);
            lemma_fast_in_unfold(after, benign, (2 * k - 1) as nat, d);
            if facts.targeted(before, ty, func) {
                assert(facts.instr_rules_out(before, func, had[p]));
                assert(false);
            }
            assert forall|e: FuncId| #[trigger] after.depends_on(benign, d, e) implies after.fast_in(
                benign,
                (2 * k - 2) as nat,
                e,
            ) by {
                assert(facts.instr_depends(before, func, had[p], e));
                assert(before.depends_on(benign, func, e));
                lemma_verdict_carried(before, after, stubs, pairs, benign, (k - 1) as nat, e);
            }
        }
    }
}

impl Module {
    /// An indirect call through `ty` could reach a function that is no
    /// fastcall.
    pub open spec fn reaches_slow(&self, benign: Seq<Seq<char>>, ty: TypeId) -> bool {
        exists|d: FuncId| #[trigger]
            self.facts(benign).targeted(self, ty, d) && !self.is_fastcall(benign, d)
    }

    /// `func` is a slowcall once the call sites go through the stubs made
    /// for `pairs`: a function that the module had if it was one, and a
    /// stub if its indirect call could reach a function that is no
    /// fastcall.
    pub open spec fn slow_when_routed(&self, benign: Seq<Seq<char>>, pairs: Seq<CallType>, func: FuncId) -> bool {
        if func < self.funcs.len() {
            self.is_slowcall(benign, func)
        } else {
            func - self.funcs.len() < pairs.len() && self.reaches_slow(
                benign,
                pairs[func - self.funcs.len()].0,
            )
        }
    }
}

/// Where every function that an indirect call through `ty` could reach is
/// a fastcall, one depth shows it of all those among the first `n` slots.
proof fn lemma_reach_depth(before: &Module, benign: Seq<Seq<char>>, ty: TypeId, n: int) -> (k: nat)
    requires
        !before.reaches_slow(benign, ty),
        0 <= n <= before.table_members().len(),
    ensures
        forall|j: int|
            0 <= j < n ==> match #[trigger] before.table_members()[j] {
                Some(d) => before.has_type(d, ty) ==> before.fast_in(benign, k, d),
                None => true,
            },
    decreases n,
{
    let members = before.table_members();
    if n == 0 {
        0
    } else {
        let k0 = lemma_reach_depth(before, benign, ty, n - 1);
        match members[n - 1] {
            Some(d) => {
                if before.has_type(d, ty) {
                    assert(members.contains(Some(d)));
                    assert(before.facts(benign).targeted(before, ty, d));
                    let kd = choose|kd: nat| before.fast_in(benign, kd, d);
                    let k = if kd < k0 {
                        k0
                    } else {
                        kd
                    };
                    lemma_fast_in_mono(before, benign, kd, k, d);
                    assert forall|j: int| 0 <= j < n implies match #[trigger] members[j] {
                        Some(e) => before.has_type(e, ty) ==> before.fast_in(benign, k, e),
                        None => true,
                    } by {
                        match members[j] {
                            Some(e) => {
                                if before.has_type(e, ty) && j < n - 1 {
                                    lemma_fast_in_mono(before, benign, k0, k, e);
                                }
                            },
                            None => {},
                        }
                    }
                    k
                } else {
                    k0
                }
            },
            None => k0,
        }
    }
}

/// Once the call sites go through stubs, the slowcalls are the functions
/// that were slowcalls and the stubs whose indirect call could reach a
/// function that is no fastcall.
pub proof fn lemma_routed_verdicts(
    before: &Module,
    after: &Module,
    stubs: Map<usize, FuncId>,
    pairs: Seq<CallType>,
    benign: Seq<Seq<char>>,
    func: FuncId,
)
    requires
        before.wf(),
        before.start() is Some,
        before.routed_to(after, stubs, pairs),
    ensures
        after.is_slowcall(benign, func) == before.slow_when_routed(benign, pairs, func),
{
    let facts = before.facts(benign);
    let first = before.funcs.len() as int;
    lemma_routed_facts(before, after, stubs, pairs, benign);
    if func < first {
        assert(is_routed_function(before.funcs[func as int], after.funcs[func as int], stubs));
        if after.is_fastcall(benign, func) {
            let k = choose|k: nat| after.fast_in(benign, k, func);
            lemma_verdict_kept(before, after, stubs, pairs, benign, k, func);
        }
        if before.is_fastcall(benign, func) {
            let k = choose|k: nat| before.fast_in(benign, k, func);
            lemma_verdict_carried(before, after, stubs, pairs, benign, k, func);
        }
    } else if func < first + pairs.len() {
        let i = func - first;
        let ty = pairs[i].0;
        lemma_stub_links(before, after, stubs, pairs, benign, i);
        if after.is_fastcall(benign, func) {
            let k = choose|k: nat| after.fast_in(benign, k, func);
            lemma_fast_in_unfold(after, benign, k, func);
            if before.reaches_slow(benign, ty) {
                let d = choose|d: FuncId| #[trigger]
                    facts.targeted(before, ty, d) && !before.is_fastcall(benign, d);
                assert(after.depends_on(benign, func, d));
                lemma_verdict_kept(before, after, stubs, pairs, benign, (k - 1) as nat, d);
            }
        }
        if !before.reaches_slow(benign, ty) {
            let members = before.table_members();
            let k = lemma_reach_depth(before, benign, ty, members.len() as int);
            lemma_fast_in_unfold(after, benign, 2 * k + 1, func);
            assert forall|d: FuncId| #[trigger] after.depends_on(benign, func, d) implies after.fast_in(
                benign,
                2 * k,
                d,
            ) by {
                let j = choose|j: int| 0 <= j < members.len() && members[j] == Some(d);
                assert(before.fast_in(benign, k, d));
                lemma_verdict_carried(before, after, stubs, pairs, benign, k, d);
            }
        }
    } else {
        assert(!after.is_local(func));
    }
}

/// The stub recorded for a signature is one of those made, and was made
/// for a pair of that signature.
pub proof fn lemma_stub_serves(pairs: Seq<CallType>, base: int, n: int, ty: TypeId)
    requires
        0 <= n <= pairs.len(),
        0 <= base,
        base + n <= usize::MAX,
        stubbed(Map::empty(), pairs, base, n).contains_key(ty),
    ensures
        base <= stubbed(Map::empty(), pairs, base, n)[ty] < base + n,
        pairs[stubbed(Map::empty(), pairs, base, n)[ty] - base].0 == ty,
    decreases n,
{
    if n > 0 && ty != pairs[n - 1].0 {
        lemma_stub_serves(pairs, base, n - 1, ty);
    }
}

/// A module whose call sites were rewritten to call the stubs, and whose
/// stubs then had the observation code woven in, is the module it was with
/// its call sites routed through stubs, as far as the verdicts go.
pub proof fn lemma_routed_through_stubs(
    before: &Module,
    sited: &Module,
    woven: &Module,
    rewrite: &Rewrite,
    stubs: Map<usize, FuncId>,
    slots: Seq<Slot>,
    counter: GlobalId,
)
    requires
        before.wf(),
        rewrite.plan() == (Plan::Instrument { stubs }),
        rewrite.stop() == before.funcs.len(),
        stubs == stubbed(
            Map::empty(),
            before.call_types(),
            before.funcs.len() as int,
            before.call_types().len() as int,
        ),
        sited.funcs.len() == before.funcs.len() + before.call_types().len(),
        extends(sited.types@, before.types@),
        sited.imports == before.imports,
        sited.exports == before.exports,
        sited.tables == before.tables,
        sited.elements == before.elements,
        forall|f: int|
            0 <= f < before.funcs.len() ==> before.rewritten_function(
                f,
                rewrite,
                #[trigger] sited.funcs[f],
            ),
        forall|i: int|
            0 <= i < before.call_types().len() ==> {
                &&& (#[trigger] sited.funcs[before.funcs.len() + i]).kind is Local
                &&& sited.funcs[before.funcs.len() + i].kind->Local_0.calls_through(
                    before.call_types()[i].0,
                    before.call_types()[i].1,
                )
            },
        woven.types == sited.types,
        woven.imports == sited.imports,
        woven.exports == sited.exports,
        woven.tables == sited.tables,
        woven.elements == sited.elements,
        woven.funcs.len() == sited.funcs.len(),
        forall|f: int| 0 <= f < before.funcs.len() ==> #[trigger] woven.funcs[f] == sited.funcs[f],
        forall|i: int|
            0 <= i < before.call_types().len() ==> sited.woven_function(
                before.funcs.len() + i,
                slots,
                counter,
                (sited.locals.len() + i) as usize,
                #[trigger] woven.funcs[before.funcs.len() + i],
            ),
    ensures
        before.routed_to(woven, stubs, before.call_types()),
{
    let pairs = before.call_types();
    let first = before.funcs.len() as int;
    lemma_call_types(before.funcs@, first);
    lemma_stubbed(Map::empty(), pairs, first, pairs.len() as int);
    assert forall|f: int| 0 <= f < first implies is_routed_function(
        before.funcs[f],
        #[trigger] woven.funcs[f],
        stubs,
    ) by {
        assert(woven.funcs[f] == sited.funcs[f]);
        assert(before.rewritten_function(f, rewrite, sited.funcs[f]));
        match before.funcs[f].kind {
            FunctionKind::Local(local) => {
                lemma_function_routed(
                    local,
                    sited.funcs[f].kind->Local_0,
                    sites_upto(before.funcs@, f, rewrite.stop(), rewrite.shift()).len() as int,
                    stubs,
                );
            },
            FunctionKind::Import { .. } => {},
        }
    }
    assert forall|i: int| 0 <= i < pairs.len() implies {
        &&& pairs[i].0 < before.types.len()
        &&& (#[trigger] woven.funcs[first + i]).kind is Local
        &&& woven.funcs[first + i].kind->Local_0.calls_only_through(pairs[i].0, pairs[i].1)
    } by {
        let made = sited.funcs[first + i].kind->Local_0;
        assert(sited.woven_function(
            first + i,
            slots,
            counter,
            (sited.locals.len() + i) as usize,
            woven.funcs[first + i],
        ));
        lemma_woven_stub_calls(
            made,
            woven.funcs[first + i].kind->Local_0,
            pairs[i].0,
            pairs[i].1,
            slots,
            counter,
            made.args@[made.args@.len() - 1],
            made.args@[made.args@.len() - 2],
            (sited.locals.len() + i) as usize,
        );
        assert(pairs.contains(pairs[i]));
        let f = choose|f: int|
            0 <= f < first && (#[trigger] before.funcs[f]).kind is Local
                && before.funcs[f].kind->Local_0.walked().contains(
                Instr::CallIndirect { ty: pairs[i].0, table: pairs[i].1 },
            );
        let flat = before.local_walk(f as usize);
        let at = choose|at: int|
            0 <= at < flat.len() && flat[at] == (Instr::CallIndirect {
                ty: pairs[i].0,
                table: pairs[i].1,
            });
        lemma_walk_wf(before, f as usize, at);
    }
    assert forall|f: int, p: int|
        0 <= f < first && before.funcs[f].kind is Local && 0 <= p
            < before.funcs[f].kind->Local_0.walked().len() implies match #[trigger] before.funcs[f].kind->Local_0.walked()[p] {
        Instr::CallIndirect { ty, .. } => stub_serves(stubs, pairs, first, ty),
        _ => true,
    } by {
        let flat = before.funcs[f].kind->Local_0.walked();
        match flat[p] {
            Instr::CallIndirect { ty, table } => {
                assert(flat.contains(flat[p]));
                assert(pairs.contains((ty, table)));
                let i = choose|i: int| 0 <= i < pairs.len() && pairs[i] == (ty, table);
                assert(stubs.contains_key(pairs[i].0));
                lemma_stub_serves(pairs, first, pairs.len() as int, ty);
            },
            _ => {},
        }
    }
}

} // verus!
