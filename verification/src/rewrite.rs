//! Rewriting of the recorded call sites.
//!
//! When instrumenting, each indirect call becomes a constant that holds
//! the site's index followed by a direct call of the stub for the site's
//! signature. When optimizing, each indirect call is replaced in place, so
//! no instruction moves.

use crate::idmap::IdMap;
use crate::ir::{FuncId, Instr, LocalFunction, SeqId};
use crate::profilemap::MapValue;
use crate::sites::{
    indirect_count, lemma_indirect_count_bounds, lemma_indirect_count_take, lemma_seq_sites_len,
    lemma_site_origin, lemma_sites_along_step, order_fits, positions_fit, recorded_position,
    seq_sites, sites_along, CallSite,
};
use vstd::prelude::*;

verus! {

/// A sequence with each indirect call replaced by its site index and a call
/// of the stub for its signature. Sites are numbered from `base`.
pub open spec fn instrument_seq(instrs: Seq<Instr>, base: int, stubs: Map<usize, FuncId>) -> Seq<
    Instr,
>
    decreases instrs.len(),
{
    if instrs.len() == 0 {
        Seq::empty()
    } else {
        let front = instrs.drop_last();
        let done = instrument_seq(front, base, stubs);
        match instrs.last() {
            Instr::CallIndirect { ty, .. } => done.push(
                Instr::Const { value: (base + indirect_count(front)) as i32 },
            ).push(Instr::Call { func: stubs[ty] }),
            other => done.push(other),
        }
    }
}

/// What the decision for a site makes of its indirect call.
pub open spec fn decided_instr(call: Instr, decision: MapValue) -> Instr {
    match decision {
        MapValue::Direct(callees) => Instr::Call { func: callees@[0] },
        MapValue::Retain => call,
        MapValue::Unreachable => Instr::Unreachable,
    }
}

/// A sequence with the indirect calls before position `upto` replaced as
/// decided. Sites are numbered from `base`; no instruction moves.
#[verifier::opaque]
pub open spec fn optimize_prefix(
    instrs: Seq<Instr>,
    upto: int,
    base: int,
    decisions: Map<usize, MapValue>,
) -> Seq<Instr> {
    Seq::new(
        instrs.len(),
        |p: int|
            if p < upto && instrs[p] is CallIndirect {
                decided_instr(instrs[p], decisions[(base + indirect_count(instrs.take(p))) as usize])
            } else {
                instrs[p]
            },
    )
}

/// A sequence with each indirect call replaced as decided.
pub open spec fn optimize_seq(instrs: Seq<Instr>, base: int, decisions: Map<usize, MapValue>) -> Seq<
    Instr,
> {
    optimize_prefix(instrs, instrs.len() as int, base, decisions)
}

/// What a rewrite does to the sites it meets.
pub enum Plan {
    /// Route each site through the stub for its signature.
    Instrument { stubs: Map<usize, FuncId> },
    /// Replace each site as decided for its index.
    Optimize { decisions: Map<usize, MapValue> },
}

/// One sequence rewritten, its sites numbered from `first`.
pub open spec fn rewrite_seq(instrs: Seq<Instr>, first: int, plan: Plan) -> Seq<Instr> {
    match plan {
        Plan::Instrument { stubs } => instrument_seq(instrs, first, stubs),
        Plan::Optimize { decisions } => optimize_seq(instrs, first, decisions),
    }
}

/// A body with the sequences named by `order` rewritten, the sites numbered
/// from `base` along `order`.
pub open spec fn rewrite_body(body: Seq<Seq<Instr>>, order: Seq<SeqId>, base: int, plan: Plan) -> Seq<
    Seq<Instr>,
>
    decreases order.len(),
{
    if order.len() == 0 {
        body
    } else {
        let s = order.last() as int;
        let before = sites_along(body, order.drop_last(), 0, true).len();
        rewrite_body(body, order.drop_last(), base, plan).update(
            s,
            rewrite_seq(body[s], base + before, plan),
        )
    }
}

/// What one recorded site does to its sequence: the stub call goes in at
/// the recorded position, the site index in front of it, and the indirect
/// call, now two places further on, goes out.
pub open spec fn splice_site(instrs: Seq<Instr>, position: int, index: int, stub: FuncId) -> Seq<
    Instr,
> {
    instrs.insert(position, Instr::Call { func: stub }).insert(
        position,
        Instr::Const { value: index as i32 },
    ).remove(position + 2)
}

/// An instrumented sequence is longer by one instruction for each site.
pub proof fn lemma_instrument_seq_len(instrs: Seq<Instr>, base: int, stubs: Map<usize, FuncId>)
    ensures
        instrument_seq(instrs, base, stubs).len() == instrs.len() + indirect_count(instrs),
    decreases instrs.len(),
{
    if instrs.len() != 0 {
        lemma_instrument_seq_len(instrs.drop_last(), base, stubs);
    }
}

/// Instrumenting one instruction more appends that instruction, or what
/// an indirect call becomes.
pub proof fn lemma_instrument_seq_take(
    instrs: Seq<Instr>,
    base: int,
    stubs: Map<usize, FuncId>,
    u: int,
)
    requires
        0 <= u < instrs.len(),
    ensures
        instrument_seq(instrs.take(u + 1), base, stubs) == match instrs[u] {
            Instr::CallIndirect { ty, .. } => instrument_seq(instrs.take(u), base, stubs).push(
                Instr::Const { value: (base + indirect_count(instrs.take(u))) as i32 },
            ).push(Instr::Call { func: stubs[ty] }),
            other => instrument_seq(instrs.take(u), base, stubs).push(other),
        },
{
    assert(instrs.take(u + 1).drop_last() =~= instrs.take(u));
}

/// In an instrumented sequence every instruction that was no indirect call
/// is found again, moved right by the number of sites before it, and every
/// indirect call has become its site index followed by the stub call, at
/// the position recorded for the site.
pub proof fn lemma_instrument_seq_at(
    instrs: Seq<Instr>,
    base: int,
    stubs: Map<usize, FuncId>,
    p: int,
)
    requires
        0 <= p < instrs.len(),
    ensures
        instrument_seq(instrs, base, stubs).len() == instrs.len() + indirect_count(instrs),
        recorded_position(instrs, p, true) + 1 < instrument_seq(instrs, base, stubs).len()
            || !(instrs[p] is CallIndirect),
        recorded_position(instrs, p, true) < instrument_seq(instrs, base, stubs).len(),
        match instrs[p] {
            Instr::CallIndirect { ty, .. } => {
                &&& instrument_seq(instrs, base, stubs)[recorded_position(instrs, p, true)]
                    == (Instr::Const { value: (base + indirect_count(instrs.take(p))) as i32 })
                &&& instrument_seq(instrs, base, stubs)[recorded_position(instrs, p, true) + 1]
                    == (Instr::Call { func: stubs[ty] })
            },
            other => instrument_seq(instrs, base, stubs)[recorded_position(instrs, p, true)]
                == other,
        },
    decreases instrs.len(),
{
    let front = instrs.drop_last();
    lemma_instrument_seq_len(instrs, base, stubs);
    lemma_instrument_seq_len(front, base, stubs);
    if p < instrs.len() - 1 {
        lemma_instrument_seq_at(front, base, stubs, p);
        assert(front.take(p) =~= instrs.take(p));
        lemma_indirect_count_bounds(front, p, front.len() as int);
        assert(front.take(front.len() as int) =~= front);
        lemma_indirect_count_take(front, p);
        lemma_indirect_count_bounds(front, p + 1, front.len() as int);
    } else {
        assert(instrs.take(p) =~= front);
    }
}

/// Splicing the next site into a sequence whose earlier sites are done
/// completes one more site.
pub proof fn lemma_splice_step(
    instrs: Seq<Instr>,
    base: int,
    stubs: Map<usize, FuncId>,
    u: int,
    p: int,
)
    requires
        0 <= u <= p < instrs.len(),
        instrs[p] is CallIndirect,
        indirect_count(instrs.take(u)) == indirect_count(instrs.take(p)),
    ensures
        splice_site(
            instrument_seq(instrs.take(u), base, stubs) + instrs.skip(u),
            recorded_position(instrs, p, true),
            base + indirect_count(instrs.take(p)),
            stubs[instrs[p]->CallIndirect_ty],
        ) == instrument_seq(instrs.take(p + 1), base, stubs) + instrs.skip(p + 1),
        recorded_position(instrs, p, true) < (instrument_seq(instrs.take(u), base, stubs)
            + instrs.skip(u)).len(),
{
    lemma_instrument_seq_gap(instrs, base, stubs, u, p);
    let done = instrument_seq(instrs.take(p), base, stubs);
    lemma_instrument_seq_len(instrs.take(p), base, stubs);
    lemma_instrument_seq_take(instrs, base, stubs, p);
    let pos = recorded_position(instrs, p, true);
    assert(pos == done.len());
    let cur = done + instrs.skip(p);
    let stub = stubs[instrs[p]->CallIndirect_ty];
    let index = base + indirect_count(instrs.take(p));
    let spliced = splice_site(cur, pos, index, stub);
    let want = instrument_seq(instrs.take(p + 1), base, stubs) + instrs.skip(p + 1);
    assert(spliced.len() == want.len());
    assert forall|i: int| 0 <= i < want.len() implies spliced[i] == want[i] by {
        if i >= pos + 2 {
            assert(want[i] == instrs.skip(p + 1)[i - pos - 2]);
        }
    }
    assert(spliced =~= want);
}

/// Where no indirect call lies between `u` and `p`, instrumenting up to
/// `u` or up to `p` leaves the same sequence.
pub proof fn lemma_instrument_seq_gap(
    instrs: Seq<Instr>,
    base: int,
    stubs: Map<usize, FuncId>,
    u: int,
    p: int,
)
    requires
        0 <= u <= p <= instrs.len(),
        indirect_count(instrs.take(u)) == indirect_count(instrs.take(p)),
    ensures
        instrument_seq(instrs.take(u), base, stubs) + instrs.skip(u) == instrument_seq(
            instrs.take(p),
            base,
            stubs,
        ) + instrs.skip(p),
    decreases p - u,
{
    if u < p {
        lemma_indirect_count_take(instrs, u);
        lemma_indirect_count_bounds(instrs, u + 1, p);
        lemma_instrument_seq_take(instrs, base, stubs, u);
        lemma_instrument_seq_gap(instrs, base, stubs, u + 1, p);
        let a = instrument_seq(instrs.take(u), base, stubs);
        assert(a.push(instrs[u]) + instrs.skip(u + 1) =~= a + instrs.skip(u));
    }
}

/// Where a site was recorded lies the site's group: the sequence of
/// `order` that it belongs to, and its rank among that sequence's sites.
pub proof fn lemma_site_group(
    body: Seq<Seq<Instr>>,
    order: Seq<SeqId>,
    func: FuncId,
    shift: bool,
    t: int,
) -> (k: int)
    requires
        0 <= t < sites_along(body, order, func, shift).len(),
    ensures
        0 <= k < order.len(),
        sites_along(body, order.take(k), func, shift).len() <= t,
        t - sites_along(body, order.take(k), func, shift).len() < seq_sites(
            body[order[k] as int],
            func,
            order[k],
            shift,
        ).len(),
        sites_along(body, order, func, shift)[t] == seq_sites(
            body[order[k] as int],
            func,
            order[k],
            shift,
        )[t - sites_along(body, order.take(k), func, shift).len()],
    decreases order.len(),
{
    let front = order.drop_last();
    let head = sites_along(body, front, func, shift);
    if t < head.len() {
        let k = lemma_site_group(body, front, func, shift, t);
        assert(front.take(k) =~= order.take(k));
        k
    } else {
        let k = order.len() - 1;
        assert(order.take(k) =~= front);
        k
    }
}

/// The sites of a prefix of `order` are a prefix of the sites.
pub proof fn lemma_sites_along_prefix(
    body: Seq<Seq<Instr>>,
    order: Seq<SeqId>,
    func: FuncId,
    shift: bool,
    k: int,
)
    requires
        0 <= k <= order.len(),
    ensures
        sites_along(body, order.take(k), func, shift).len() <= sites_along(
            body,
            order,
            func,
            shift,
        ).len(),
        forall|i: int|
            0 <= i < sites_along(body, order.take(k), func, shift).len() ==> sites_along(
                body,
                order.take(k),
                func,
                shift,
            )[i] == sites_along(body, order, func, shift)[i],
    decreases order.len() - k,
{
    if k == order.len() {
        assert(order.take(k) =~= order);
    } else {
        lemma_sites_along_prefix(body, order, func, shift, k + 1);
        lemma_sites_along_step(body, order, func, shift, k);
    }
}

/// The number of sites does not depend on the function they are filed
/// under, nor on whether positions are shifted.
pub proof fn lemma_sites_along_len(
    body: Seq<Seq<Instr>>,
    order: Seq<SeqId>,
    func: FuncId,
    shift: bool,
)
    ensures
        sites_along(body, order, func, shift).len() == sites_along(body, order, 0, true).len(),
    decreases order.len(),
{
    if order.len() != 0 {
        lemma_sites_along_len(body, order.drop_last(), func, shift);
        lemma_seq_sites_len(body[order.last() as int], func, order.last(), shift);
        lemma_seq_sites_len(body[order.last() as int], 0, order.last(), true);
    }
}

/// What a rewritten body holds: the sequences off the walk as they were,
/// and each one on it rewritten, numbered on from the sites of the
/// sequences walked before it.
pub proof fn lemma_rewrite_body_at(
    body: Seq<Seq<Instr>>,
    order: Seq<SeqId>,
    base: int,
    plan: Plan,
    s: int,
)
    requires
        order.no_duplicates(),
        forall|i: int| 0 <= i < order.len() ==> (#[trigger] order[i]) < body.len(),
        0 <= s < body.len(),
    ensures
        rewrite_body(body, order, base, plan).len() == body.len(),
        !order.contains(s as usize) ==> rewrite_body(body, order, base, plan)[s] == body[s],
        forall|k: int|
            0 <= k < order.len() && order[k] == s ==> rewrite_body(body, order, base, plan)[s]
                == rewrite_seq(
                body[s],
                base + sites_along(body, order.take(k), 0, true).len(),
                plan,
            ),
    decreases order.len(),
{
    if order.len() != 0 {
        let front = order.drop_last();
        let last = order.len() - 1;
        assert forall|i: int| 0 <= i < front.len() implies (#[trigger] front[i]) < body.len() by {
            assert(front[i] == order[i]);
        }
        lemma_rewrite_body_at(body, front, base, plan, s);
        if order[last] == s {
            assert(order.take(last) =~= front);
            assert(order.contains(s as usize));
        } else {
            if !order.contains(s as usize) {
                if front.contains(s as usize) {
                    let i = front.index_of(s as usize);
                    assert(order[i] == s);
                }
            }
            assert forall|k: int| 0 <= k < order.len() && order[k] == s implies rewrite_body(
                body,
                order,
                base,
                plan,
            )[s] == rewrite_seq(
                body[s],
                base + sites_along(body, order.take(k), 0, true).len(),
                plan,
            ) by {
                assert(front[k] == s);
                assert(front.take(k) =~= order.take(k));
            }
        }
    }
}

/// Putting an instruction in front of another and taking that other out
/// replaces it.
pub proof fn lemma_insert_remove(instrs: Seq<Instr>, p: int, instr: Instr)
    requires
        0 <= p < instrs.len(),
    ensures
        instrs.insert(p, instr).remove(p + 1) == instrs.update(p, instr),
{
    assert(instrs.insert(p, instr).remove(p + 1) =~= instrs.update(p, instr));
}

/// With no site replaced yet the sequence is as it was.
pub proof fn lemma_optimize_prefix_start(instrs: Seq<Instr>, base: int, decisions: Map<usize, MapValue>)
    ensures
        optimize_prefix(instrs, 0, base, decisions) == instrs,
{
    reveal(optimize_prefix);
    assert(optimize_prefix(instrs, 0, base, decisions) =~= instrs);
}

/// What an optimized sequence holds: each indirect call replaced as
/// decided for its index, every other instruction as it was, and none
/// moved.
pub proof fn lemma_optimize_seq_at(
    instrs: Seq<Instr>,
    base: int,
    decisions: Map<usize, MapValue>,
    p: int,
)
    requires
        0 <= p < instrs.len(),
    ensures
        optimize_seq(instrs, base, decisions).len() == instrs.len(),
        optimize_seq(instrs, base, decisions)[p] == if instrs[p] is CallIndirect {
            decided_instr(instrs[p], decisions[(base + indirect_count(instrs.take(p))) as usize])
        } else {
            instrs[p]
        },
{
    reveal(optimize_prefix);
}

/// Optimizing keeps the length of a sequence.
pub proof fn lemma_optimize_seq_len(instrs: Seq<Instr>, base: int, decisions: Map<usize, MapValue>)
    ensures
        optimize_seq(instrs, base, decisions).len() == instrs.len(),
{
    reveal(optimize_prefix);
}

/// Replacing the next site in place completes one more site.
pub proof fn lemma_replace_step(
    instrs: Seq<Instr>,
    base: int,
    decisions: Map<usize, MapValue>,
    u: int,
    p: int,
)
    requires
        0 <= u <= p < instrs.len(),
        instrs[p] is CallIndirect,
        indirect_count(instrs.take(u)) == indirect_count(instrs.take(p)),
    ensures
        optimize_prefix(instrs, u, base, decisions) == optimize_prefix(instrs, p, base, decisions),
        optimize_prefix(instrs, p, base, decisions).update(
            p,
            decided_instr(instrs[p], decisions[(base + indirect_count(instrs.take(p))) as usize]),
        ) == optimize_prefix(instrs, p + 1, base, decisions),
        optimize_prefix(instrs, p, base, decisions)[p] == instrs[p],
        optimize_prefix(instrs, p, base, decisions).len() == instrs.len(),
{
    reveal(optimize_prefix);
    lemma_optimize_prefix_gap(instrs, base, decisions, u, p);
    assert(optimize_prefix(instrs, p, base, decisions).update(
        p,
        decided_instr(instrs[p], decisions[(base + indirect_count(instrs.take(p))) as usize]),
    ) =~= optimize_prefix(instrs, p + 1, base, decisions));
}

/// Where no indirect call lies between `u` and `p`, replacing up to `u` or
/// up to `p` leaves the same sequence.
pub proof fn lemma_optimize_prefix_gap(
    instrs: Seq<Instr>,
    base: int,
    decisions: Map<usize, MapValue>,
    u: int,
    p: int,
)
    requires
        0 <= u <= p <= instrs.len(),
        indirect_count(instrs.take(u)) == indirect_count(instrs.take(p)),
    ensures
        optimize_prefix(instrs, u, base, decisions) == optimize_prefix(instrs, p, base, decisions),
{
    reveal(optimize_prefix);
    assert forall|q: int| u <= q < p implies !(instrs[q] is CallIndirect) by {
        lemma_indirect_count_bounds(instrs, u, q);
        lemma_indirect_count_take(instrs, q);
        lemma_indirect_count_bounds(instrs, q + 1, p);
    }
    assert(optimize_prefix(instrs, u, base, decisions) =~= optimize_prefix(
        instrs,
        p,
        base,
        decisions,
    ));
}

/// Splices into one sequence the sites recorded for it, which stand in
/// `sites` from `start` on, and returns where the next sequence's begin.
#[verifier::rlimit(40)]
fn instrument_group(
    seq: &mut Vec<Instr>,
    sites: &Vec<CallSite>,
    start: usize,
    first_index: usize,
    stubs: &IdMap<FuncId>,
    func: FuncId,
    s: SeqId,
) -> (t: usize)
    requires
        positions_fit(old(seq)@, true),
        start + seq_sites(old(seq)@, func, s, true).len() <= sites@.len(),
        forall|j: int|
            0 <= j < seq_sites(old(seq)@, func, s, true).len() ==> sites@[start + j] == seq_sites(
                old(seq)@,
                func,
                s,
                true,
            )[j],
        start + seq_sites(old(seq)@, func, s, true).len() < sites@.len() ==> sites@[start
            + seq_sites(old(seq)@, func, s, true).len()].seq != s,
        first_index + seq_sites(old(seq)@, func, s, true).len() <= i32::MAX,
        forall|i: int| 0 <= i < sites@.len() ==> stubs@.contains_key(#[trigger] sites@[i].ty),
    ensures
        t == start + seq_sites(old(seq)@, func, s, true).len(),
        final(seq)@ == instrument_seq(old(seq)@, first_index as int, stubs@),
{
    let ghost instrs = seq@;
    let ghost group = seq_sites(instrs, func, s, true);
    let ghost u: int = 0;
    let mut t = start;
    proof {
        lemma_seq_sites_len(instrs, func, s, true);
        assert(instrs.take(0) =~= Seq::<Instr>::empty());
        assert(instrument_seq(instrs.take(0), first_index as int, stubs@) + instrs.skip(0)
            =~= instrs);
    }
    while t < sites.len() && sites[t].seq == s
        invariant
            group == seq_sites(instrs, func, s, true),
            group.len() == indirect_count(instrs),
            positions_fit(instrs, true),
            start + group.len() <= sites@.len(),
            forall|j: int| 0 <= j < group.len() ==> sites@[start + j] == group[j],
            start + group.len() < sites@.len() ==> sites@[start + group.len()].seq != s,
            first_index + group.len() <= i32::MAX,
            forall|i: int| 0 <= i < sites@.len() ==> stubs@.contains_key(#[trigger] sites@[i].ty),
            0 <= u <= instrs.len(),
            start <= t <= start + group.len(),
            t - start == indirect_count(instrs.take(u)),
            seq@ == instrument_seq(instrs.take(u), first_index as int, stubs@) + instrs.skip(u),
        decreases sites@.len() - t,
    {
        let site = sites[t];
        let ghost j = t - start;
        let ghost cur = seq@;
        let ghost p = lemma_site_origin(instrs, func, s, true, j);
        proof {
            assert(site == group[j]);
            assert(recorded_position(instrs, p, true) <= usize::MAX);
            if u > p {
                lemma_indirect_count_take(instrs, p);
                lemma_indirect_count_bounds(instrs, p + 1, u);
            }
            lemma_splice_step(instrs, first_index as int, stubs@, u, p);
            assert(site.position < cur.len());
        }
        let stub = *stubs.get(site.ty).unwrap();
        let index = first_index + (t - start);
        seq.insert(site.position, Instr::Call { func: stub });
        seq.insert(site.position, Instr::Const { value: index as i32 });
        let grown = seq.len();
        assert(grown == cur.len() + 2);
        seq.remove(site.position + 2);
        proof {
            assert(seq@ == splice_site(cur, site.position as int, index as int, stub));
            u = p + 1;
            lemma_indirect_count_take(instrs, p);
        }
        t += 1;
    }
    proof {
        if t - start < group.len() {
            let origin = lemma_site_origin(instrs, func, s, true, t - start);
            assert(sites@[t as int] == group[t - start]);
            assert(false);
        }
        assert(instrs.take(instrs.len() as int) =~= instrs);
        lemma_instrument_seq_gap(instrs, first_index as int, stubs@, u, instrs.len() as int);
        assert(instrs.skip(instrs.len() as int) =~= Seq::<Instr>::empty());
        assert(instrument_seq(instrs, first_index as int, stubs@) + Seq::<Instr>::empty()
            =~= instrument_seq(instrs, first_index as int, stubs@));
    }
    t
}

/// Replaces in one sequence the sites recorded for it, which stand in
/// `sites` from `start` on, and returns where the next sequence's begin.
#[verifier::rlimit(40)]
fn optimize_group(
    seq: &mut Vec<Instr>,
    sites: &Vec<CallSite>,
    start: usize,
    first_index: usize,
    decisions: &IdMap<MapValue>,
    func: FuncId,
    s: SeqId,
) -> (t: usize)
    requires
        start + seq_sites(old(seq)@, func, s, false).len() <= sites@.len(),
        forall|j: int|
            0 <= j < seq_sites(old(seq)@, func, s, false).len() ==> sites@[start + j] == seq_sites(
                old(seq)@,
                func,
                s,
                false,
            )[j],
        start + seq_sites(old(seq)@, func, s, false).len() < sites@.len() ==> sites@[start
            + seq_sites(old(seq)@, func, s, false).len()].seq != s,
        positions_fit(old(seq)@, false),
        first_index + seq_sites(old(seq)@, func, s, false).len() <= usize::MAX,
        decided_range(
            decisions@,
            first_index as int,
            seq_sites(old(seq)@, func, s, false).len() as int,
        ),
    ensures
        t == start + seq_sites(old(seq)@, func, s, false).len(),
        final(seq)@ == optimize_seq(old(seq)@, first_index as int, decisions@),
{
    let ghost instrs = seq@;
    let ghost group = seq_sites(instrs, func, s, false);
    let ghost u: int = 0;
    let mut t = start;
    proof {
        lemma_seq_sites_len(instrs, func, s, false);
        assert(instrs.take(0) =~= Seq::<Instr>::empty());
        lemma_optimize_prefix_start(instrs, first_index as int, decisions@);
    }
    while t < sites.len() && sites[t].seq == s
        invariant
            group == seq_sites(instrs, func, s, false),
            group.len() == indirect_count(instrs),
            start + group.len() <= sites@.len(),
            forall|j: int| 0 <= j < group.len() ==> sites@[start + j] == group[j],
            start + group.len() < sites@.len() ==> sites@[start + group.len()].seq != s,
            positions_fit(instrs, false),
            first_index + group.len() <= usize::MAX,
            decided_range(decisions@, first_index as int, group.len() as int),
            0 <= u <= instrs.len(),
            start <= t <= start + group.len(),
            t - start == indirect_count(instrs.take(u)),
            seq@ == optimize_prefix(instrs, u, first_index as int, decisions@),
        decreases sites@.len() - t,
    {
        let site = sites[t];
        let ghost j = t - start;
        let ghost cur = seq@;
        let ghost p = lemma_site_origin(instrs, func, s, false, j);
        let index = first_index + (t - start);
        proof {
            assert(site == group[j]);
            if u > p {
                lemma_indirect_count_take(instrs, p);
                lemma_indirect_count_bounds(instrs, p + 1, u);
            }
            lemma_replace_step(instrs, first_index as int, decisions@, u, p);
            assert(recorded_position(instrs, p, false) <= usize::MAX);
            assert(site.position == p);
            assert(first_index <= index < first_index + group.len());
            assert(decisions@.contains_key(index));
            assert(cur == optimize_prefix(instrs, p, first_index as int, decisions@));
        }
        let decision = decisions.get(index).unwrap();
        let ghost replaced = decided_instr(instrs[p], *decision);
        match decision {
            MapValue::Direct(callees) => {
                let stub = callees[0];
                seq.insert(site.position, Instr::Call { func: stub });
                let grown = seq.len();
                seq.remove(site.position + 1);
                proof {
                    lemma_insert_remove(cur, p, replaced);
                }
            },
            MapValue::Unreachable => {
                seq.insert(site.position, Instr::Unreachable);
                let grown = seq.len();
                seq.remove(site.position + 1);
                proof {
                    lemma_insert_remove(cur, p, replaced);
                }
            },
            MapValue::Retain => {
                assert(replaced == cur[p]);
                assert(cur.update(p, replaced) =~= cur);
            },
        }
        assert(seq@ == cur.update(p, replaced));
        proof {
            u = p + 1;
            lemma_indirect_count_take(instrs, p);
        }
        t += 1;
    }
    proof {
        if t - start < group.len() {
            let origin = lemma_site_origin(instrs, func, s, false, t - start);
            assert(sites@[t as int] == group[t - start]);
            assert(false);
        }
        assert(instrs.take(instrs.len() as int) =~= instrs);
        lemma_optimize_prefix_gap(instrs, first_index as int, decisions@, u, instrs.len() as int);
    }
    t
}

/// The `count` sites numbered from `from` each have a settled decision.
pub open spec fn decided_range(decisions: Map<usize, MapValue>, from: int, count: int) -> bool {
    forall|i: usize|
        from <= i < from + count ==> #[trigger] decisions.contains_key(i) && decisions[i].settled()
}

/// What holds of a range of sites holds of every range within it.
pub proof fn lemma_decided_subrange(
    decisions: Map<usize, MapValue>,
    from: int,
    count: int,
    inner_from: int,
    inner_count: int,
)
    requires
        decided_range(decisions, from, count),
        from <= inner_from,
        inner_from + inner_count <= from + count,
    ensures
        decided_range(decisions, inner_from, inner_count),
{
}

/// The rewrite to perform on the recorded sites.
pub enum Rewrite<'a> {
    /// Route each site through the stub for its signature. The stubs are
    /// the functions from `first_stub` on.
    Instrument { stubs: &'a IdMap<FuncId>, first_stub: FuncId },
    /// Replace each site as decided for its index.
    Optimize { decisions: &'a IdMap<MapValue> },
}

impl<'a> Rewrite<'a> {
    /// The rewrite as a mathematical value.
    pub open spec fn plan(&self) -> Plan {
        match self {
            Rewrite::Instrument { stubs, .. } => Plan::Instrument { stubs: stubs@ },
            Rewrite::Optimize { decisions } => Plan::Optimize { decisions: decisions@ },
        }
    }

    /// Whether recorded positions make room for the inserted constants.
    pub open spec fn shift(&self) -> bool {
        self is Instrument
    }

    /// The rewrite can handle these sites, numbered from `base`: when
    /// instrumenting, each index fits a 32-bit constant and each signature
    /// has a stub; when optimizing, each index has a settled decision.
    pub open spec fn covers(&self, sites: Seq<CallSite>, base: int) -> bool {
        match self {
            Rewrite::Instrument { stubs, .. } => {
                &&& base + sites.len() <= i32::MAX
                &&& forall|t: int|
                    0 <= t < sites.len() ==> stubs@.contains_key(#[trigger] sites[t].ty)
            },
            Rewrite::Optimize { decisions } => {
                &&& base + sites.len() <= usize::MAX
                &&& decided_range(decisions@, base, sites.len() as int)
            },
        }
    }
}

impl LocalFunction {
    /// Rewrites the recorded sites of this function, numbering them from
    /// `base`.
    ///
    /// `order` and `sites` are the walk and the inventory of the function as
    /// it stands, the positions shifted if and only if the rewrite is an
    /// instrumentation.
    pub fn rewrite_sites(
        &mut self,
        func: FuncId,
        order: &Vec<SeqId>,
        sites: &Vec<CallSite>,
        base: usize,
        rewrite: &Rewrite,
    )
        requires
            order@ == old(self).order(),
            sites@ == old(self).sites(func, rewrite.shift()),
            old(self).fits(rewrite.shift()),
            rewrite.covers(sites@, base as int),
        ensures
            final(self).ty == old(self).ty,
            final(self).args == old(self).args,
            final(self).entry == old(self).entry,
            final(self).body() == rewrite_body(
                old(self).body(),
                old(self).order(),
                base as int,
                rewrite.plan(),
            ),
    {
        let ghost body = self.body();
        let ghost shift = rewrite.shift();
        let ghost plan = rewrite.plan();
        proof {
            crate::walk::lemma_body_order_distinct(body, self.entry);
        }
        let mut t: usize = 0;
        let mut k: usize = 0;
        assert(order@.take(0) =~= Seq::<SeqId>::empty());
        while k < order.len()
            invariant
                k <= order.len(),
                t <= sites@.len(),
                body.len() == self.seqs.len(),
                self.ty == old(self).ty,
                self.args == old(self).args,
                self.entry == old(self).entry,
                shift == rewrite.shift(),
                plan == rewrite.plan(),
                order@.no_duplicates(),
                forall|i: int| 0 <= i < order@.len() ==> (#[trigger] order@[i]) < body.len(),
                sites@ == sites_along(body, order@, func, shift),
                order_fits(body, order@, shift),
                rewrite.covers(sites@, base as int),
                t == sites_along(body, order@.take(k as int), func, shift).len(),
                self.body() == rewrite_body(body, order@.take(k as int), base as int, plan),
            decreases order.len() - k,
        {
            let s = order[k];
            let ghost instrs = body[s as int];
            let ghost entered = self.body();
            let ghost group = seq_sites(instrs, func, s, shift);
            proof {
                lemma_rewrite_body_at(body, order@.take(k as int), base as int, plan, s as int);
                if order@.take(k as int).contains(s) {
                    let i = order@.take(k as int).index_of(s);
                    assert(order@[i] == s);
                }
                assert(entered[s as int] == instrs);
                lemma_sites_along_step(body, order@, func, shift, k as int);
                lemma_sites_along_prefix(body, order@, func, shift, k + 1);
                lemma_sites_along_len(body, order@.take(k as int), func, shift);
                assert forall|j: int| 0 <= j < group.len() implies sites@[t + j] == group[j] by {
                    assert(sites_along(body, order@.take(k + 1), func, shift)[t + j] == group[j]);
                }
                if t + group.len() < sites@.len() {
                    let next = t + group.len();
                    let kk = lemma_site_group(body, order@, func, shift, next);
                    let origin = lemma_site_origin(
                        body[order@[kk] as int],
                        func,
                        order@[kk],
                        shift,
                        next - sites_along(body, order@.take(kk), func, shift).len(),
                    );
                    if order@[kk] == s {
                        assert(kk == k);
                    }
                }
            }
            match rewrite {
                Rewrite::Instrument { stubs, .. } => {
                    proof {
                        assert(shift);
                        assert(self.seqs@[s as int]@ == instrs);
                        assert(group == seq_sites(self.seqs@[s as int]@, func, s, true));
                    }
                    t = instrument_group(&mut self.seqs[s], sites, t, base + t, stubs, func, s);
                },
                Rewrite::Optimize { decisions } => {
                    proof {
                        assert(!shift);
                        assert(self.seqs@[s as int]@ == instrs);
                        assert(group == seq_sites(self.seqs@[s as int]@, func, s, false));
                        assert(t + group.len() <= sites@.len());
                        lemma_decided_subrange(
                            decisions@,
                            base as int,
                            sites@.len() as int,
                            base + t,
                            group.len() as int,
                        );
                    }
                    t = optimize_group(&mut self.seqs[s], sites, t, base + t, decisions, func, s);
                },
            }
            proof {
                assert(order@.take(k + 1).drop_last() =~= order@.take(k as int));
                assert(self.body() =~= entered.update(
                    s as int,
                    rewrite_seq(
                        instrs,
                        base + sites_along(body, order@.take(k as int), func, shift).len(),
                        plan,
                    ),
                ));
                assert(self.body() =~= rewrite_body(body, order@.take(k + 1), base as int, plan));
            }
            k += 1;
        }
        assert(order@.take(order.len() as int) =~= order@);
    }
}

} // verus!
