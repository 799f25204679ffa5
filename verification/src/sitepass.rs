//! The call-site pass over a whole module.
//!
//! Inventories are taken of every function first and the rewrite is applied
//! in a second walk, so a failure is found before anything has changed.
//! Sites are numbered across the module: local functions in the order of
//! their ids, stubs left out, and within a function in the order of its
//! inventory.

use crate::error::Error;
use crate::ir::{seq_wf, Bounds, FuncId, Function, FunctionKind, Instr, Module, SeqId};
use crate::profilemap::MapValue;
use crate::rewrite::{
    decided_instr, instrument_seq, lemma_optimize_seq_at, lemma_optimize_seq_len,
    lemma_rewrite_body_at, lemma_site_group, lemma_sites_along_len, lemma_sites_along_prefix,
    optimize_seq, rewrite_body, rewrite_seq, Plan, Rewrite,
};
use crate::sites::{
    indirect_count, lemma_indirect_count_bounds, lemma_indirect_count_take, lemma_seq_sites_len,
    lemma_site_origin, lemma_sites_along_step, sites_along, CallSite,
};
use crate::walk::lemma_body_order_distinct;
use vstd::prelude::*;

verus! {

/// The sites of one function: those of its inventory if it is local and
/// stands before `stop`, none otherwise.
pub open spec fn function_sites(func: Function, f: FuncId, stop: int, shift: bool) -> Seq<CallSite> {
    match func.kind {
        FunctionKind::Local(local) => if f >= stop {
            Seq::empty()
        } else {
            local.sites(f, shift)
        },
        FunctionKind::Import { .. } => Seq::empty(),
    }
}

/// Whether the recorded positions of one function fit.
pub open spec fn function_fits(func: Function, f: FuncId, stop: int, shift: bool) -> bool {
    match func.kind {
        FunctionKind::Local(local) => f >= stop || local.fits(shift),
        FunctionKind::Import { .. } => true,
    }
}

/// The sites of the first `n` functions, in the order of their numbering.
pub open spec fn sites_upto(funcs: Seq<Function>, n: int, stop: int, shift: bool) -> Seq<
    CallSite,
>
    decreases n,
{
    if n <= 0 {
        Seq::empty()
    } else {
        sites_upto(funcs, n - 1, stop, shift) + function_sites(
            funcs[n - 1],
            (n - 1) as usize,
            stop,
            shift,
        )
    }
}

/// The sites of a function stand in the module's list from the number of
/// the sites before it.
pub proof fn lemma_sites_upto_at(
    funcs: Seq<Function>,
    n: int,
    stop: int,
    shift: bool,
    f: int,
)
    requires
        0 <= f < n <= funcs.len(),
    ensures
        sites_upto(funcs, f, stop, shift).len() + function_sites(
            funcs[f],
            f as usize,
            stop,
            shift,
        ).len() <= sites_upto(funcs, n, stop, shift).len(),
        forall|t: int|
            0 <= t < function_sites(funcs[f], f as usize, stop, shift).len() ==> sites_upto(
                funcs,
                n,
                stop,
                shift,
            )[sites_upto(funcs, f, stop, shift).len() + t] == #[trigger] function_sites(
                funcs[f],
                f as usize,
                stop,
                shift,
            )[t],
    decreases n,
{
    if f < n - 1 {
        lemma_sites_upto_at(funcs, n - 1, stop, shift, f);
    }
}

/// More functions have no fewer sites.
pub proof fn lemma_sites_upto_mono(
    funcs: Seq<Function>,
    a: int,
    b: int,
    stop: int,
    shift: bool,
)
    requires
        0 <= a <= b,
    ensures
        sites_upto(funcs, a, stop, shift).len() <= sites_upto(funcs, b, stop, shift).len(),
    decreases b,
{
    if a < b {
        lemma_sites_upto_mono(funcs, a, b - 1, stop, shift);
    }
}

impl<'a> Rewrite<'a> {
    /// Where the pass stops: the functions from this id on are left alone.
    /// When instrumenting, they are the stubs themselves.
    pub open spec fn stop(&self) -> int {
        match self {
            Rewrite::Instrument { first_stub, .. } => *first_stub as int,
            Rewrite::Optimize { .. } => usize::MAX + 1,
        }
    }

    /// The largest number of sites that can be indexed.
    pub open spec fn limit(&self) -> int {
        match self {
            Rewrite::Instrument { .. } => i32::MAX as int,
            Rewrite::Optimize { .. } => usize::MAX as int,
        }
    }

    /// Every function that the rewrite will call exists, and each direct
    /// decision is settled.
    pub open spec fn wf(&self, funcs: nat) -> bool {
        match self {
            Rewrite::Instrument { stubs, .. } => forall|k: usize| #[trigger]
                stubs@.contains_key(k) ==> stubs@[k] < funcs,
            Rewrite::Optimize { decisions } => forall|k: usize| #[trigger]
                decisions@.contains_key(k) ==> match decisions@[k] {
                    MapValue::Direct(callees) => callees@.len() == 1 && callees@[0] < funcs,
                    _ => true,
                },
        }
    }

    /// Whether `f` is left alone.
    fn skips(&self, f: FuncId) -> (r: bool)
        ensures
            r == (f >= self.stop()),
    {
        match self {
            Rewrite::Instrument { first_stub, .. } => f >= *first_stub,
            Rewrite::Optimize { .. } => false,
        }
    }
}

/// What the first walk found for one function.
struct Planned {
    base: usize,
    order: Vec<SeqId>,
    sites: Vec<CallSite>,
}

/// The plan for function `f` is its inventory, numbered on from the sites
/// before it; functions without sites of their own have no plan.
spec fn plan_matches(
    funcs: Seq<Function>,
    f: int,
    plan: Option<Planned>,
    stop: int,
    shift: bool,
) -> bool {
    match plan {
        Some(planned) => {
            &&& funcs[f].kind is Local
            &&& f < stop
            &&& planned.order@ == funcs[f].kind->Local_0.order()
            &&& planned.sites@ == funcs[f].kind->Local_0.sites(f as usize, shift)
            &&& funcs[f].kind->Local_0.fits(shift)
            &&& planned.base == sites_upto(funcs, f, stop, shift).len()
        },
        None => funcs[f].kind is Import || f >= stop,
    }
}

impl Module {
    /// All the sites of the module in the order of their numbering.
    pub open spec fn sites(&self, rewrite: &Rewrite) -> Seq<CallSite> {
        sites_upto(self.funcs@, self.funcs.len() as int, rewrite.stop(), rewrite.shift())
    }

    /// Every recorded position of every function fits.
    pub open spec fn sites_fit(&self, rewrite: &Rewrite) -> bool {
        forall|f: int|
            0 <= f < self.funcs.len() ==> function_fits(
                #[trigger] self.funcs[f],
                f as usize,
                rewrite.stop(),
                rewrite.shift(),
            )
    }

    /// The module has more sites before `stop` than `limit`, or one of them
    /// cannot be placed.
    pub open spec fn sites_overflow(&self, stop: int, shift: bool, limit: int) -> bool {
        ||| exists|f: int|
            0 <= f < self.funcs.len() && !function_fits(#[trigger] self.funcs[f], f as usize, stop, shift)
        ||| sites_upto(self.funcs@, self.funcs.len() as int, stop, shift).len() > limit
    }

    /// The module has more sites than can be numbered or placed.
    pub open spec fn too_many_sites(&self, rewrite: &Rewrite) -> bool {
        self.sites_overflow(rewrite.stop(), rewrite.shift(), rewrite.limit())
    }

    /// Some site has no decision.
    pub open spec fn missing_site(&self, rewrite: &Rewrite) -> bool {
        match rewrite {
            Rewrite::Instrument { .. } => false,
            Rewrite::Optimize { decisions } => exists|i: usize|
                i < self.sites(rewrite).len() && !#[trigger] decisions@.contains_key(i),
        }
    }

    /// Function `f` after the pass: imports and skipped functions as they
    /// were, every other with its walked sequences rewritten and its sites
    /// numbered on from those of the functions before it.
    pub open spec fn rewritten_function(&self, f: int, rewrite: &Rewrite, after: Function) -> bool {
        let before = self.funcs[f];
        match before.kind {
            FunctionKind::Local(local) => if f >= rewrite.stop() {
                after == before
            } else {
                &&& after.name == before.name
                &&& after.kind is Local
                &&& after.kind->Local_0.ty == local.ty
                &&& after.kind->Local_0.args == local.args
                &&& after.kind->Local_0.entry == local.entry
                &&& after.kind->Local_0.body() == rewrite_body(
                    local.body(),
                    local.order(),
                    sites_upto(self.funcs@, f, rewrite.stop(), rewrite.shift()).len() as int,
                    rewrite.plan(),
                )
            },
            FunctionKind::Import { .. } => after == before,
        }
    }

    /// `after` is this module with its call sites rewritten: nothing but
    /// function bodies differs.
    pub open spec fn rewritten(&self, rewrite: &Rewrite, after: &Module) -> bool {
        &&& after.types == self.types
        &&& after.imports == self.imports
        &&& after.exports == self.exports
        &&& after.tables == self.tables
        &&& after.elements == self.elements
        &&& after.globals == self.globals
        &&& after.locals == self.locals
        &&& after.funcs.len() == self.funcs.len()
        &&& forall|f: int|
            0 <= f < self.funcs.len() ==> self.rewritten_function(
                f,
                rewrite,
                #[trigger] after.funcs[f],
            )
    }

    /// Takes the inventory of every function and checks that the rewrite
    /// can be carried out.
    fn plan_rewrite(&self, rewrite: &Rewrite) -> (r: Result<Vec<Option<Planned>>, Error>)
        ensures
            match r {
                Ok(plans) => {
                    &&& plans@.len() == self.funcs.len()
                    &&& forall|f: int|
                        0 <= f < self.funcs.len() ==> plan_matches(
                            self.funcs@,
                            f,
                            #[trigger] plans@[f],
                            rewrite.stop(),
                            rewrite.shift(),
                        )
                    &&& !self.too_many_sites(rewrite)
                    &&& !self.missing_site(rewrite)
                },
                Err(e) => if self.too_many_sites(rewrite) {
                    e == Error::TooManySites
                } else {
                    e == Error::MissingSite && self.missing_site(rewrite)
                },
            },
    {
        let shift = match rewrite {
            Rewrite::Instrument { .. } => true,
            Rewrite::Optimize { .. } => false,
        };
        let ghost stop = rewrite.stop();
        let ghost funcs = self.funcs@;
        let n = self.funcs.len();
        let mut plans: Vec<Option<Planned>> = Vec::new();
        let mut total: usize = 0;
        let mut f: usize = 0;
        while f < n
            invariant
                f <= n,
                n == self.funcs.len(),
                funcs == self.funcs@,
                stop == rewrite.stop(),
                shift == rewrite.shift(),
                plans@.len() == f,
                total == sites_upto(funcs, f as int, stop, shift).len(),
                forall|g: int| 0 <= g < f ==> plan_matches(funcs, g, #[trigger] plans@[g], stop, shift),
                forall|g: int| 0 <= g < f ==> function_fits(#[trigger] funcs[g], g as usize, stop, shift),
            decreases n - f,
        {
            let skipped = rewrite.skips(f);
            match &self.funcs[f].kind {
                FunctionKind::Local(local) => {
                    if skipped {
                        plans.push(None);
                    } else {
                        match local.inventory(f, shift) {
                            Ok(found) => {
                                let count = found.sites.len();
                                match total.checked_add(count) {
                                    Some(sum) => {
                                        plans.push(
                                            Some(
                                                Planned {
                                                    base: total,
                                                    order: found.order,
                                                    sites: found.sites,
                                                },
                                            ),
                                        );
                                        total = sum;
                                    },
                                    None => {
                                        proof {
                                            lemma_sites_upto_mono(funcs, f + 1, n as int, stop, shift);
                                        }
                                        return Err(Error::TooManySites);
                                    },
                                }
                            },
                            Err(e) => {
                                assert(!function_fits(funcs[f as int], f, stop, shift));
                                return Err(Error::TooManySites);
                            },
                        }
                    }
                },
                FunctionKind::Import { .. } => {
                    plans.push(None);
                },
            }
            f += 1;
        }
        assert(self.sites_fit(rewrite));
        assert(total == self.sites(rewrite).len());
        match rewrite {
            Rewrite::Instrument { .. } => {
                if total > 0x7fff_ffff {
                    return Err(Error::TooManySites);
                }
            },
            Rewrite::Optimize { decisions } => {
                let mut i: usize = 0;
                while i < total
                    invariant
                        i <= total,
                        self.missing_site(rewrite) == (exists|j: usize|
                            j < self.sites(rewrite).len() && !#[trigger] decisions@.contains_key(j)),
                        self.sites_fit(rewrite),
                        total == self.sites(rewrite).len(),
                        forall|j: usize| j < i ==> #[trigger] decisions@.contains_key(j),
                    decreases total - i,
                {
                    if !decisions.contains_key(i) {
                        assert(i < self.sites(rewrite).len() && !decisions@.contains_key(i));
                        assert(self.missing_site(rewrite));
                        return Err(Error::MissingSite);
                    }
                    i += 1;
                }
            },
        }
        Ok(plans)
    }

    /// Counts the call sites of the module and tells whether the rewrite can
    /// be carried out, without changing anything.
    pub fn count_call_sites(&self, rewrite: &Rewrite) -> (r: Result<usize, Error>)
        ensures
            match r {
                Ok(count) => {
                    &&& count == self.sites(rewrite).len()
                    &&& !self.too_many_sites(rewrite)
                    &&& !self.missing_site(rewrite)
                },
                Err(e) => if self.too_many_sites(rewrite) {
                    e == Error::TooManySites
                } else {
                    e == Error::MissingSite && self.missing_site(rewrite)
                },
            },
    {
        match self.plan_rewrite(rewrite) {
            Ok(plans) => {
                let mut count: usize = 0;
                let mut f: usize = 0;
                while f < plans.len()
                    invariant
                        f <= plans@.len(),
                        plans@.len() == self.funcs.len(),
                        !self.too_many_sites(rewrite),
                        forall|g: int|
                            0 <= g < self.funcs.len() ==> plan_matches(
                                self.funcs@,
                                g,
                                #[trigger] plans@[g],
                                rewrite.stop(),
                                rewrite.shift(),
                            ),
                        count == sites_upto(self.funcs@, f as int, rewrite.stop(), rewrite.shift()).len(),
                    decreases plans@.len() - f,
                {
                    assert(plan_matches(
                        self.funcs@,
                        f as int,
                        plans@[f as int],
                        rewrite.stop(),
                        rewrite.shift(),
                    ));
                    proof {
                        lemma_sites_upto_mono(
                            self.funcs@,
                            f + 1,
                            self.funcs.len() as int,
                            rewrite.stop(),
                            rewrite.shift(),
                        );
                    }
                    match &plans[f] {
                        Some(planned) => {
                            count = count + planned.sites.len();
                        },
                        None => {},
                    }
                    f += 1;
                }
                Ok(count)
            },
            Err(e) => Err(e),
        }
    }

    /// Rewrites every call site of the module and returns their number.
    ///
    /// On failure the module is left as it was.
    pub fn rewrite_call_sites(&mut self, rewrite: &Rewrite) -> (r: Result<usize, Error>)
        requires
            old(self).wf(),
            rewrite.wf(old(self).funcs.len() as nat),
            rewrite is Instrument ==> old(self).stubs_cover(rewrite->Instrument_stubs@, rewrite.stop()),
        ensures
            match r {
                Ok(count) => {
                    &&& count == old(self).sites(rewrite).len()
                    &&& !old(self).too_many_sites(rewrite)
                    &&& !old(self).missing_site(rewrite)
                    &&& old(self).rewritten(rewrite, final(self))
                    &&& final(self).wf()
                },
                Err(e) => {
                    &&& *final(self) == *old(self)
                    &&& if old(self).too_many_sites(rewrite) {
                        e == Error::TooManySites
                    } else {
                        e == Error::MissingSite && old(self).missing_site(rewrite)
                    }
                },
            },
    {
        let plans = match self.plan_rewrite(rewrite) {
            Ok(plans) => plans,
            Err(e) => {
                return Err(e);
            },
        };
        let ghost before = *self;
        let ghost funcs = self.funcs@;
        let ghost stop = rewrite.stop();
        let ghost shift = rewrite.shift();
        let ghost all = before.sites(rewrite);
        let n = self.funcs.len();
        let mut count: usize = 0;
        let mut f: usize = 0;
        while f < n
            invariant
                f <= n,
                n == funcs.len(),
                funcs == before.funcs@,
                stop == rewrite.stop(),
                shift == rewrite.shift(),
                all == sites_upto(funcs, n as int, stop, shift),
                before.wf(),
                rewrite.wf(n as nat),
                rewrite is Instrument ==> before.stubs_cover(rewrite->Instrument_stubs@, rewrite.stop()),
                !before.too_many_sites(rewrite),
                !before.missing_site(rewrite),
                plans@.len() == n,
                forall|g: int|
                    0 <= g < n ==> plan_matches(funcs, g, #[trigger] plans@[g], stop, shift),
                count == sites_upto(funcs, f as int, stop, shift).len(),
                self.types == before.types,
                self.imports == before.imports,
                self.exports == before.exports,
                self.tables == before.tables,
                self.elements == before.elements,
                self.globals == before.globals,
                self.locals == before.locals,
                self.funcs.len() == n,
                forall|g: int| 0 <= g < f ==> before.rewritten_function(g, rewrite, #[trigger] self.funcs[g]),
                forall|g: int| 0 <= g < f ==> (#[trigger] self.funcs[g]).wf(before.bounds()),
                forall|g: int| f <= g < n ==> #[trigger] self.funcs[g] == funcs[g],
            decreases n - f,
        {
            assert(plan_matches(funcs, f as int, plans@[f as int], stop, shift));
            proof {
                lemma_sites_upto_at(funcs, n as int, stop, shift, f as int);
            }
            match &plans[f] {
                Some(planned) => {
                    let ghost local0 = funcs[f as int].kind->Local_0;
                    proof {
                        assert(before.funcs[f as int].wf(before.bounds()));
                        lemma_body_order_distinct(local0.body(), local0.entry);
                        assert(function_sites(funcs[f as int], f, stop, shift) == planned.sites@);
                        before.lemma_function_covered(rewrite, f as int);
                    }
                    match &mut self.funcs[f].kind {
                        FunctionKind::Local(local) => {
                            local.rewrite_sites(
                                f,
                                &planned.order,
                                &planned.sites,
                                planned.base,
                                rewrite,
                            );
                            proof {
                                let b = before.bounds().with_seqs(local0.seqs.len() as nat);
                                assert forall|s: int| 0 <= s < local0.body().len() implies seq_wf(
                                    #[trigger] local0.body()[s],
                                    b,
                                ) by {
                                    assert(local0.seqs[s]@ == local0.body()[s]);
                                }
                                before.lemma_function_targets(rewrite, f as int);
                                lemma_rewrite_body_wf(
                                    local0.body(),
                                    local0.order(),
                                    planned.base as int,
                                    rewrite.plan(),
                                    b,
                                );
                                assert(local.body().len() == local.seqs.len());
                                assert forall|s: int| 0 <= s < local.seqs.len() implies seq_wf(
                                    #[trigger] local.seqs[s]@,
                                    before.bounds().with_seqs(local.seqs.len() as nat),
                                ) by {
                                    assert(local.seqs[s]@ == local.body()[s]);
                                }
                            }
                        },
                        FunctionKind::Import { .. } => {},
                    }
                    count = count + planned.sites.len();
                },
                None => {},
            }
            f += 1;
        }
        Ok(count)
    }
}

/// Rewriting keeps a sequence well formed, given that the functions it
/// comes to call exist.
pub proof fn lemma_rewrite_seq_wf(instrs: Seq<Instr>, first: int, plan: Plan, b: Bounds)
    requires
        seq_wf(instrs, b),
        match plan {
            Plan::Instrument { stubs } => forall|p: int|
                0 <= p < instrs.len() ==> match #[trigger] instrs[p] {
                    Instr::CallIndirect { ty, .. } => stubs[ty] < b.funcs,
                    _ => true,
                },
            Plan::Optimize { decisions } => forall|p: int|
                0 <= p < instrs.len() && (#[trigger] instrs[p]) is CallIndirect ==> decided_instr(
                    instrs[p],
                    decisions[(first + indirect_count(instrs.take(p))) as usize],
                ).wf(b),
        },
    ensures
        seq_wf(rewrite_seq(instrs, first, plan), b),
    decreases instrs.len(),
{
    match plan {
        Plan::Instrument { stubs } => {
            if instrs.len() != 0 {
                let front = instrs.drop_last();
                assert forall|p: int| 0 <= p < front.len() implies match #[trigger] front[p] {
                    Instr::CallIndirect { ty, .. } => stubs[ty] < b.funcs,
                    _ => true,
                } by {
                    assert(front[p] == instrs[p]);
                }
                assert(seq_wf(front, b)) by {
                    assert forall|p: int| 0 <= p < front.len() implies (#[trigger] front[p]).wf(
                        b,
                    ) by {
                        assert(front[p] == instrs[p]);
                    }
                }
                lemma_rewrite_seq_wf(front, first, plan, b);
                let done = instrument_seq(front, first, stubs);
                let out = instrument_seq(instrs, first, stubs);
                assert(instrs.last() == instrs[instrs.len() - 1]);
                assert forall|i: int| 0 <= i < out.len() implies (#[trigger] out[i]).wf(b) by {
                    if i < done.len() {
                        assert(out[i] == done[i]);
                    }
                }
            }
        },
        Plan::Optimize { decisions } => {
            let out = optimize_seq(instrs, first, decisions);
            if instrs.len() > 0 {
                lemma_optimize_seq_at(instrs, first, decisions, 0);
            } else {
                lemma_optimize_seq_len(instrs, first, decisions);
            }
            assert forall|i: int| 0 <= i < out.len() implies (#[trigger] out[i]).wf(b) by {
                lemma_optimize_seq_at(instrs, first, decisions, i);
                assert(instrs[i].wf(b));
            }
        },
    }
}

/// The functions that the plan comes to call for the sites of one body,
/// numbered from `base` along `order`, all lie below the bound.
pub open spec fn body_targets_below(
    body: Seq<Seq<Instr>>,
    order: Seq<SeqId>,
    base: int,
    plan: Plan,
    funcs: nat,
) -> bool {
    match plan {
        Plan::Instrument { stubs } => forall|k: int, p: int|
            0 <= k < order.len() && 0 <= p < body[order[k] as int].len() ==> match #[trigger] body[order[k] as int][p] {
                Instr::CallIndirect { ty, .. } => stubs[ty] < funcs,
                _ => true,
            },
        Plan::Optimize { decisions } => forall|i: usize|
            base <= i < base + sites_along(body, order, 0, true).len() ==> match #[trigger] decisions[i] {
                MapValue::Direct(callees) => callees@.len() == 1 && callees@[0] < funcs,
                _ => true,
            },
    }
}

/// Rewriting keeps a body well formed.
pub proof fn lemma_rewrite_body_wf(
    body: Seq<Seq<Instr>>,
    order: Seq<SeqId>,
    base: int,
    plan: Plan,
    b: Bounds,
)
    requires
        0 <= base,
        base + sites_along(body, order, 0, true).len() <= usize::MAX,
        body.len() <= usize::MAX,
        order.no_duplicates(),
        forall|i: int| 0 <= i < order.len() ==> (#[trigger] order[i]) < body.len(),
        forall|s: int| 0 <= s < body.len() ==> seq_wf(#[trigger] body[s], b),
        body_targets_below(body, order, base, plan, b.funcs),
    ensures
        rewrite_body(body, order, base, plan).len() == body.len(),
        forall|s: int|
            0 <= s < body.len() ==> seq_wf(#[trigger] rewrite_body(body, order, base, plan)[s], b),
{
    assert forall|s: int| 0 <= s < body.len() implies seq_wf(
        #[trigger] rewrite_body(body, order, base, plan)[s],
        b,
    ) by {
        lemma_rewrite_body_at(body, order, base, plan, s);
        if order.contains(s as usize) {
            let k = order.index_of(s as usize);
            assert(order[k] == s);
            let instrs = body[s];
            let start = sites_along(body, order.take(k), 0, true).len();
            lemma_sites_along_prefix(body, order, 0, true, k + 1);
            lemma_sites_along_step(body, order, 0, true, k);
            lemma_seq_sites_len(instrs, 0, s as usize, true);
            match plan {
                Plan::Instrument { stubs } => {
                    assert forall|p: int| 0 <= p < instrs.len() implies match #[trigger] instrs[p] {
                        Instr::CallIndirect { ty, .. } => stubs[ty] < b.funcs,
                        _ => true,
                    } by {
                        assert(body[order[k] as int][p] == instrs[p]);
                    }
                },
                Plan::Optimize { decisions } => {
                    assert forall|p: int|
                        0 <= p < instrs.len() && (#[trigger] instrs[p])
                            is CallIndirect implies decided_instr(
                        instrs[p],
                        decisions[(base + start + indirect_count(instrs.take(p))) as usize],
                    ).wf(b) by {
                        lemma_indirect_count_take(instrs, p);
                        lemma_indirect_count_bounds(instrs, p + 1, instrs.len() as int);
                        assert(instrs.take(instrs.len() as int) =~= instrs);
                        let i = (base + start + indirect_count(instrs.take(p))) as usize;
                        assert(base <= i < base + sites_along(body, order, 0, true).len());
                        assert(instrs[p].wf(b));
                    }
                },
            }
            lemma_rewrite_seq_wf(instrs, base + start, plan, b);
        }
    }
    if body.len() > 0 {
        lemma_rewrite_body_at(body, order, base, plan, 0);
    } else {
        lemma_rewrite_body_len(body, order, base, plan);
    }
}

/// Rewriting neither adds nor drops a sequence.
pub proof fn lemma_rewrite_body_len(body: Seq<Seq<Instr>>, order: Seq<SeqId>, base: int, plan: Plan)
    requires
        forall|i: int| 0 <= i < order.len() ==> (#[trigger] order[i]) < body.len(),
    ensures
        rewrite_body(body, order, base, plan).len() == body.len(),
    decreases order.len(),
{
    if order.len() != 0 {
        let front = order.drop_last();
        assert forall|i: int| 0 <= i < front.len() implies (#[trigger] front[i]) < body.len() by {
            assert(front[i] == order[i]);
        }
        lemma_rewrite_body_len(body, front, base, plan);
    }
}

impl Module {
    /// Every indirect call that the walk of a local function before `stop`
    /// comes by has a stub for its signature.
    pub open spec fn stubs_cover(&self, stubs: Map<usize, FuncId>, stop: int) -> bool {
        forall|f: int, k: int, p: int|
            0 <= f < self.funcs.len() && f < stop && self.funcs[f].kind is Local && 0 <= k
                < self.funcs[f].kind->Local_0.order().len() && 0 <= p
                < self.funcs[f].body()[self.funcs[f].kind->Local_0.order()[k] as int].len()
                ==> match #[trigger] self.funcs[f].body()[self.funcs[f].kind->Local_0.order()[k] as int][p] {
                Instr::CallIndirect { ty, .. } => stubs.contains_key(ty),
                _ => true,
            }
    }

    /// A rewrite that can handle the module can handle each function.
    proof fn lemma_function_covered(&self, rewrite: &Rewrite, f: int)
        requires
            0 <= f < self.funcs.len(),
            self.funcs[f].kind is Local,
            f < rewrite.stop(),
            !self.too_many_sites(rewrite),
            !self.missing_site(rewrite),
            rewrite.wf(self.funcs.len() as nat),
            rewrite is Instrument ==> self.stubs_cover(rewrite->Instrument_stubs@, rewrite.stop()),
        ensures
            rewrite.covers(
                self.funcs[f].kind->Local_0.sites(f as usize, rewrite.shift()),
                sites_upto(self.funcs@, f, rewrite.stop(), rewrite.shift()).len() as int,
            ),
    {
        let local = self.funcs[f].kind->Local_0;
        let shift = rewrite.shift();
        let sites = local.sites(f as usize, shift);
        let base = sites_upto(self.funcs@, f, rewrite.stop(), shift).len() as int;
        lemma_sites_upto_at(self.funcs@, self.funcs.len() as int, rewrite.stop(), shift, f);
        lemma_body_order_distinct(local.body(), local.entry);
        assert(function_sites(self.funcs[f], f as usize, rewrite.stop(), shift) == sites);
        match rewrite {
            Rewrite::Instrument { stubs, .. } => {
                assert forall|t: int| 0 <= t < sites.len() implies stubs@.contains_key(
                    #[trigger] sites[t].ty,
                ) by {
                    let body = local.body();
                    let order = local.order();
                    let k = lemma_site_group(body, order, f as usize, shift, t);
                    let p = lemma_site_origin(
                        body[order[k] as int],
                        f as usize,
                        order[k],
                        shift,
                        t - sites_along(body, order.take(k), f as usize, shift).len(),
                    );
                    assert(self.funcs[f].body()[order[k] as int][p] is CallIndirect);
                }
            },
            Rewrite::Optimize { decisions } => {
                assert forall|i: usize| base <= i < base + sites.len() implies #[trigger] decisions@.contains_key(
                    i,
                ) && decisions@[i].settled() by {
                    assert(i < self.sites(rewrite).len());
                    assert(decisions@.contains_key(i));
                    assert(decisions@[i].settled());
                }
            },
        }
    }

    /// What the rewrite comes to call for the sites of a function exists.
    proof fn lemma_function_targets(&self, rewrite: &Rewrite, f: int)
        requires
            0 <= f < self.funcs.len(),
            self.funcs[f].kind is Local,
            f < rewrite.stop(),
            !self.too_many_sites(rewrite),
            !self.missing_site(rewrite),
            rewrite.wf(self.funcs.len() as nat),
            rewrite is Instrument ==> self.stubs_cover(rewrite->Instrument_stubs@, rewrite.stop()),
        ensures
            body_targets_below(
                self.funcs[f].kind->Local_0.body(),
                self.funcs[f].kind->Local_0.order(),
                sites_upto(self.funcs@, f, rewrite.stop(), rewrite.shift()).len() as int,
                rewrite.plan(),
                self.funcs.len() as nat,
            ),
            sites_upto(self.funcs@, f, rewrite.stop(), rewrite.shift()).len() + sites_along(
                self.funcs[f].kind->Local_0.body(),
                self.funcs[f].kind->Local_0.order(),
                0,
                true,
            ).len() <= usize::MAX,
    {
        let local = self.funcs[f].kind->Local_0;
        let shift = rewrite.shift();
        let body = local.body();
        let order = local.order();
        let base = sites_upto(self.funcs@, f, rewrite.stop(), shift).len() as int;
        lemma_sites_upto_at(self.funcs@, self.funcs.len() as int, rewrite.stop(), shift, f);
        lemma_sites_along_len(body, order, f as usize, shift);
        lemma_body_order_distinct(body, local.entry);
        assert(function_sites(self.funcs[f], f as usize, rewrite.stop(), shift) == local.sites(
            f as usize,
            shift,
        ));
        match rewrite {
            Rewrite::Instrument { stubs, .. } => {
                assert forall|k: int, p: int|
                    0 <= k < order.len() && 0 <= p < body[order[k] as int].len() implies match #[trigger] body[order[k] as int][p] {
                    Instr::CallIndirect { ty, .. } => stubs@[ty] < self.funcs.len(),
                    _ => true,
                } by {
                    assert(self.funcs[f].body()[order[k] as int][p] == body[order[k] as int][p]);
                    match body[order[k] as int][p] {
                        Instr::CallIndirect { ty, .. } => {
                            assert(stubs@.contains_key(ty));
                        },
                        _ => {},
                    }
                }
            },
            Rewrite::Optimize { decisions } => {
                assert forall|i: usize|
                    base <= i < base + sites_along(body, order, 0, true).len() implies match #[trigger] decisions@[i] {
                    MapValue::Direct(callees) => callees@.len() == 1 && callees@[0]
                        < self.funcs.len(),
                    _ => true,
                } by {
                    assert(i < self.sites(rewrite).len());
                    assert(decisions@.contains_key(i));
                }
            },
        }
    }
}

} // verus!
