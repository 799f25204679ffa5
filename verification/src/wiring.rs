//! The observation state of an instrumented module and the code that
//! fills it.
//!
//! Every call site gets a window of globals, each of which can hold one
//! table slot that the site was seen to call through; `-1` marks a free
//! one. A stub, before it calls through, counts the call and then walks the
//! windows: in the window of the calling site, the first global that is
//! free or already holds the slot receives the slot, and the walk ends.

use crate::grow::{extends, lemma_grown_refl, lemma_grown_trans};
use crate::ir::{
    lemma_function_wf_covers, seq_wf, BinaryOp, Bounds, Export, ExportItem, FuncId, Function,
    FunctionKind, Global, GlobalId, GlobalKind, InitExpr, Instr, LocalFunction, LocalId, Module,
    ValType,
};
use crate::names::{decimal, push_decimal};
use crate::wrap::count_call;
use vstd::prelude::*;
use vstd::string::StringExecFns;

verus! {

/// The number of globals that record the callees of one site.
pub const INDIRECT_WINDOW: usize = 5;

/// What a free observation global holds.
pub const UNOBSERVED: i32 = -1;

/// One observation global: the site it belongs to, its place in the site's
/// window, and its id.
#[derive(Clone, Copy, Debug, PartialEq, Eq, Structural)]
pub struct Slot {
    pub site: usize,
    pub index: usize,
    pub global: GlobalId,
}

/// A mutable 32-bit global that starts out as `-1`.
pub open spec fn observation_global() -> Global {
    Global { ty: ValType::I32, mutable: true, kind: GlobalKind::Local(InitExpr::I32(UNOBSERVED)) }
}

/// The slots of `sites` sites with `window` globals each, the globals
/// numbered from `first`: site by site, and within a site in the order of
/// the window.
pub open spec fn slots_of(sites: int, window: int, first: int) -> Seq<Slot> {
    Seq::new(
        (sites * window) as nat,
        |k: int|
            Slot {
                site: (k / window) as usize,
                index: (k % window) as usize,
                global: (first + k) as usize,
            },
    )
}

/// The check whether the stub was called from site `site`, and what to do
/// if so.
pub open spec fn site_check(site: usize, site_param: LocalId, then: int, otherwise: int) -> Seq<Instr> {
    seq![
        Instr::LocalGet { local: site_param },
        Instr::Const { value: site as i32 },
        Instr::Binop { op: BinaryOp::I32Eq },
        Instr::IfElse { consequent: then as usize, alternative: otherwise as usize },
    ]
}

/// The check whether the global is free or holds the slot called through,
/// and what to do if so.
pub open spec fn slot_check(global: GlobalId, target_param: LocalId, then: int, otherwise: int) -> Seq<
    Instr,
> {
    seq![
        Instr::GlobalGet { global },
        Instr::Const { value: UNOBSERVED },
        Instr::Binop { op: BinaryOp::I32Eq },
        Instr::GlobalGet { global },
        Instr::LocalGet { local: target_param },
        Instr::Binop { op: BinaryOp::I32Eq },
        Instr::Binop { op: BinaryOp::I32Or },
        Instr::IfElse { consequent: then as usize, alternative: otherwise as usize },
    ]
}

/// Recording the slot called through: the global receives it, the flag
/// `set_value` is raised, and control leaves the walk.
pub open spec fn record(global: GlobalId, target_param: LocalId, set_value: LocalId, walk: int) -> Seq<
    Instr,
> {
    seq![
        Instr::LocalGet { local: target_param },
        Instr::GlobalSet { global },
        Instr::Const { value: 1 },
        Instr::LocalSet { local: set_value },
        Instr::Br { block: walk as usize },
    ]
}

/// The five sequences made for slot `k` stand from `base + 5 * k` on.
pub open spec fn slot_in_place(
    seqs: Seq<Seq<Instr>>,
    slots: Seq<Slot>,
    k: int,
    base: int,
    walk: int,
    site_param: LocalId,
    target_param: LocalId,
    set_value: LocalId,
) -> bool {
    let at = base + 5 * k;
    &&& seqs[at] == site_check(slots[k].site, site_param, at + 1, at + 4)
    &&& seqs[at + 1] == slot_check(slots[k].global, target_param, at + 2, at + 3)
    &&& seqs[at + 2] == record(slots[k].global, target_param, set_value, walk)
    &&& seqs[at + 3] == Seq::<Instr>::empty()
    &&& seqs[at + 4] == Seq::<Instr>::empty()
}

/// `after` is the body `before` with the observation code woven in: the
/// entry sequence begins with a block that counts the call and a block
/// that walks the slots; every other sequence is as it was; and the new
/// sequences stand behind the old ones.
pub open spec fn is_woven(
    before: Seq<Seq<Instr>>,
    after: Seq<Seq<Instr>>,
    entry: int,
    slots: Seq<Slot>,
    counter: GlobalId,
    site_param: LocalId,
    target_param: LocalId,
    set_value: LocalId,
) -> bool {
    let n = before.len() as int;
    &&& after.len() == n + 2 + 5 * slots.len()
    &&& after[entry] == seq![
        Instr::Block { seq: n as usize },
        Instr::Block { seq: (n + 1) as usize },
    ] + before[entry]
    &&& forall|s: int| 0 <= s < n && s != entry ==> #[trigger] after[s] == before[s]
    &&& after[n] == count_call(counter)
    &&& after[n + 1] == Seq::new(slots.len(), |k: int| Instr::Block { seq: (n + 2 + 5 * k) as usize })
    &&& forall|k: int|
        0 <= k < slots.len() ==> #[trigger] slot_in_place(
            after,
            slots,
            k,
            n + 2,
            n + 1,
            site_param,
            target_param,
            set_value,
        )
}

/// The sequence that counts one call.
fn build_count_call(counter: GlobalId) -> (body: Vec<Instr>)
    ensures
        body@ == count_call(counter),
{
    let mut body: Vec<Instr> = Vec::new();
    body.push(Instr::GlobalGet { global: counter });
    body.push(Instr::Const { value: 1 });
    body.push(Instr::Binop { op: BinaryOp::I32Add });
    body.push(Instr::GlobalSet { global: counter });
    assert(body@ =~= count_call(counter));
    body
}

impl LocalFunction {
    /// Weaves the observation code into this function, a stub whose last
    /// two arguments are the slot called through and the index of the
    /// calling site.
    pub fn weave(&mut self, slots: &Vec<Slot>, counter: GlobalId, set_value: LocalId)
        requires
            old(self).entry < old(self).seqs.len(),
            old(self).args.len() >= 2,
            forall|k: int| 0 <= k < slots@.len() ==> (#[trigger] slots@[k]).site <= i32::MAX,
        ensures
            final(self).ty == old(self).ty,
            final(self).args == old(self).args,
            final(self).entry == old(self).entry,
            is_woven(
                old(self).body(),
                final(self).body(),
                old(self).entry as int,
                slots@,
                counter,
                old(self).args@[old(self).args@.len() - 1],
                old(self).args@[old(self).args@.len() - 2],
                set_value,
            ),
    {
        let ghost before = self.body();
        let ghost raw = self.seqs@;
        let site_param = self.args[self.args.len() - 1];
        let target_param = self.args[self.args.len() - 2];
        let count_id = self.seqs.len();
        self.seqs.push(build_count_call(counter));
        let walk_id = self.seqs.len();
        self.seqs.push(Vec::new());
        let ghost n = before.len() as int;
        let mut k: usize = 0;
        proof {
            assert(self.seqs@[walk_id as int]@ =~= Seq::new(
                0,
                |k: int| Instr::Block { seq: (n + 2 + 5 * k) as usize },
            ));
        }
        while k < slots.len()
            invariant
                k <= slots@.len(),
                n == before.len(),
                n == raw.len(),
                count_id == n,
                walk_id == n + 1,
                self.ty == old(self).ty,
                self.args == old(self).args,
                self.entry == old(self).entry,
                self.entry < n,
                forall|i: int| 0 <= i < slots@.len() ==> (#[trigger] slots@[i]).site <= i32::MAX,
                self.seqs.len() == n + 2 + 5 * k,
                forall|s: int| 0 <= s < n ==> #[trigger] self.seqs@[s] == raw[s],
                self.seqs@[n]@ == count_call(counter),
                self.seqs@[n + 1]@ == Seq::new(
                    k as nat,
                    |i: int| Instr::Block { seq: (n + 2 + 5 * i) as usize },
                ),
                forall|i: int|
                    0 <= i < k ==> #[trigger] slot_in_place(
                        self.body(),
                        slots@,
                        i,
                        n + 2,
                        n + 1,
                        site_param,
                        target_param,
                        set_value,
                    ),
            decreases slots@.len() - k,
        {
            let slot = slots[k];
            let ghost entered = self.seqs@;
            let ghost entered_body = self.body();
            let check_id = self.seqs.len();
            self.seqs.push(Vec::new());
            let inner_id = self.seqs.len();
            self.seqs.push(Vec::new());
            let record_id = self.seqs.len();
            let mut rec: Vec<Instr> = Vec::new();
            rec.push(Instr::LocalGet { local: target_param });
            rec.push(Instr::GlobalSet { global: slot.global });
            rec.push(Instr::Const { value: 1 });
            rec.push(Instr::LocalSet { local: set_value });
            rec.push(Instr::Br { block: walk_id });
            let ghost full_record = rec@;
            self.seqs.push(rec);
            let inner_else = self.seqs.len();
            self.seqs.push(Vec::new());
            let outer_else = self.seqs.len();
            self.seqs.push(Vec::new());
            let ghost pushed = self.seqs@;
            let mut inner: Vec<Instr> = Vec::new();
            inner.push(Instr::GlobalGet { global: slot.global });
            inner.push(Instr::Const { value: UNOBSERVED });
            inner.push(Instr::Binop { op: BinaryOp::I32Eq });
            inner.push(Instr::GlobalGet { global: slot.global });
            inner.push(Instr::LocalGet { local: target_param });
            inner.push(Instr::Binop { op: BinaryOp::I32Eq });
            inner.push(Instr::Binop { op: BinaryOp::I32Or });
            inner.push(Instr::IfElse { consequent: record_id, alternative: inner_else });
            let ghost full_inner = inner@;
            self.seqs[inner_id] = inner;
            let ghost with_inner = self.seqs@;
            let mut check: Vec<Instr> = Vec::new();
            check.push(Instr::LocalGet { local: site_param });
            check.push(Instr::Const { value: slot.site as i32 });
            check.push(Instr::Binop { op: BinaryOp::I32Eq });
            check.push(Instr::IfElse { consequent: inner_id, alternative: outer_else });
            let ghost full_check = check@;
            self.seqs[check_id] = check;
            let ghost with_check = self.seqs@;
            self.seqs[walk_id].push(Instr::Block { seq: check_id });
            proof {
                let at = n + 2 + 5 * k;
                let now = self.body();
                assert forall|s: int| 0 <= s < n + 2 + 5 * k && s != n + 1 implies self.seqs@[s]
                    == entered[s] by {
                    assert(pushed[s] == entered[s]);
                    assert(with_inner[s] == pushed[s]);
                    assert(with_check[s] == with_inner[s]);
                }
                assert(self.seqs@[at + 2] == pushed[at + 2]);
                assert(self.seqs@[at + 3] == pushed[at + 3]);
                assert(self.seqs@[at + 4] == pushed[at + 4]);
                assert(self.seqs@[at + 1] == with_inner[at + 1]);
                assert(full_check =~= site_check(slot.site, site_param, at + 1, at + 4));
                assert(full_inner =~= slot_check(slot.global, target_param, at + 2, at + 3));
                assert(full_record =~= record(slot.global, target_param, set_value, n + 1));
                assert(now[at + 3] =~= Seq::<Instr>::empty());
                assert(now[at + 4] =~= Seq::<Instr>::empty());
                assert(self.seqs@[n + 1]@ =~= Seq::new(
                    (k + 1) as nat,
                    |i: int| Instr::Block { seq: (n + 2 + 5 * i) as usize },
                ));
                assert forall|i: int| 0 <= i < k + 1 implies #[trigger] slot_in_place(
                    now,
                    slots@,
                    i,
                    n + 2,
                    n + 1,
                    site_param,
                    target_param,
                    set_value,
                ) by {
                    if i < k {
                        assert(slot_in_place(
                            entered_body,
                            slots@,
                            i,
                            n + 2,
                            n + 1,
                            site_param,
                            target_param,
                            set_value,
                        ));
                        let a = n + 2 + 5 * i;
                        assert(now[a] == entered_body[a]);
                        assert(now[a + 1] == entered_body[a + 1]);
                        assert(now[a + 2] == entered_body[a + 2]);
                        assert(now[a + 3] == entered_body[a + 3]);
                        assert(now[a + 4] == entered_body[a + 4]);
                    }
                }
            }
            k += 1;
        }
        let entry = self.entry;
        let ghost built = self.seqs@;
        let ghost built_body = self.body();
        self.seqs[entry].insert(0, Instr::Block { seq: walk_id });
        self.seqs[entry].insert(0, Instr::Block { seq: count_id });
        proof {
            let now = self.body();
            assert forall|s: int| 0 <= s < self.seqs@.len() && s != entry implies self.seqs@[s]
                == built[s] by {}
            assert(now[entry as int] =~= seq![
                Instr::Block { seq: n as usize },
                Instr::Block { seq: (n + 1) as usize },
            ] + before[entry as int]);
            assert forall|s: int| 0 <= s < n && s != entry implies #[trigger] now[s] == before[s] by {
                assert(self.seqs@[s] == built[s]);
            }
            assert forall|i: int| 0 <= i < slots@.len() implies #[trigger] slot_in_place(
                now,
                slots@,
                i,
                n + 2,
                n + 1,
                site_param,
                target_param,
                set_value,
            ) by {
                assert(slot_in_place(
                    built_body,
                    slots@,
                    i,
                    n + 2,
                    n + 1,
                    site_param,
                    target_param,
                    set_value,
                ));
                let a = n + 2 + 5 * i;
                assert(now[a] == built_body[a]);
                assert(now[a + 1] == built_body[a + 1]);
                assert(now[a + 2] == built_body[a + 2]);
                assert(now[a + 3] == built_body[a + 3]);
                assert(now[a + 4] == built_body[a + 4]);
            }
        }
    }
}

/// Weaving keeps a body well formed, given that the globals and locals it
/// uses exist.
pub proof fn lemma_woven_wf(
    before: Seq<Seq<Instr>>,
    after: Seq<Seq<Instr>>,
    entry: int,
    slots: Seq<Slot>,
    counter: GlobalId,
    site_param: LocalId,
    target_param: LocalId,
    set_value: LocalId,
    b: Bounds,
)
    requires
        is_woven(before, after, entry, slots, counter, site_param, target_param, set_value),
        0 <= entry < before.len(),
        after.len() <= usize::MAX,
        forall|s: int| 0 <= s < before.len() ==> seq_wf(#[trigger] before[s], b.with_seqs(before.len())),
        counter < b.globals,
        site_param < b.locals,
        target_param < b.locals,
        set_value < b.locals,
        forall|k: int| 0 <= k < slots.len() ==> (#[trigger] slots[k]).global < b.globals,
    ensures
        forall|s: int| 0 <= s < after.len() ==> seq_wf(#[trigger] after[s], b.with_seqs(after.len())),
{
    let n = before.len() as int;
    let small = b.with_seqs(before.len());
    let large = b.with_seqs(after.len());
    assert forall|s: int| 0 <= s < after.len() implies seq_wf(#[trigger] after[s], large) by {
        if s < n {
            crate::ir::lemma_seq_wf_covers(before[s], small, large);
            if s == entry {
                assert forall|i: int| 0 <= i < after[s].len() implies (#[trigger] after[s][i]).wf(
                    large,
                ) by {
                    if i >= 2 {
                        assert(after[s][i] == before[s][i - 2]);
                    }
                }
            }
        } else if s == n {
        } else if s == n + 1 {
            assert forall|i: int| 0 <= i < after[s].len() implies (#[trigger] after[s][i]).wf(large) by {
                assert(after[s][i] == Instr::Block { seq: (n + 2 + 5 * i) as usize });
            }
        } else {
            let k = (s - n - 2) / 5;
            assert(0 <= k < slots.len());
            assert(slot_in_place(after, slots, k, n + 2, n + 1, site_param, target_param, set_value));
            let at = n + 2 + 5 * k;
            assert(slots[k].global < b.globals);
            if s == at {
            } else if s == at + 1 {
            } else if s == at + 2 {
            } else if s == at + 3 {
            } else {
                assert(s == at + 4);
            }
        }
    }
}

impl Module {
    /// Adds the observation globals of `sites` sites, `window` for each,
    /// and lists them site by site.
    pub fn add_observation_globals(&mut self, sites: usize, window: usize) -> (slots: Vec<Slot>)
        requires
            old(self).wf(),
        ensures
            final(self).wf(),
            final(self).grown_from(old(self)),
            final(self).types == old(self).types,
            final(self).funcs == old(self).funcs,
            final(self).locals == old(self).locals,
            final(self).exports == old(self).exports,
            slots@ == slots_of(sites as int, window as int, old(self).globals.len() as int),
            final(self).globals@ == old(self).globals@ + Seq::new(
                (sites * window) as nat,
                |k: int| observation_global(),
            ),
    {
        let ghost start = *self;
        let ghost first = self.globals.len() as int;
        let mut slots: Vec<Slot> = Vec::new();
        let mut site: usize = 0;
        proof {
            lemma_grown_refl(&start);
            assert(slots@ =~= slots_of(0, window as int, first));
            assert(self.globals@ =~= start.globals@ + Seq::new(0, |k: int| observation_global()));
        }
        while site < sites
            invariant
                site <= sites,
                first == start.globals.len(),
                self.wf(),
                self.grown_from(&start),
                self.types == start.types,
                self.funcs == start.funcs,
                self.locals == start.locals,
                self.exports == start.exports,
                slots@ == slots_of(site as int, window as int, first),
                self.globals@ == start.globals@ + Seq::new(
                    (site * window) as nat,
                    |k: int| observation_global(),
                ),
            decreases sites - site,
        {
            let mut index: usize = 0;
            let ghost done = site * window;
            assert(slots@.len() == done);
            while index < window
                invariant
                    index <= window,
                    site < sites,
                    done == site * window,
                    first == start.globals.len(),
                    self.wf(),
                    self.grown_from(&start),
                    self.types == start.types,
                    self.funcs == start.funcs,
                    self.locals == start.locals,
                    self.exports == start.exports,
                    slots@.len() == done + index,
                    forall|k: int|
                        0 <= k < done + index ==> #[trigger] slots@[k] == (Slot {
                            site: (k / (window as int)) as usize,
                            index: (k % (window as int)) as usize,
                            global: (first + k) as usize,
                        }),
                    self.globals@ == start.globals@ + Seq::new(
                        (done + index) as nat,
                        |k: int| observation_global(),
                    ),
                decreases window - index,
            {
                let ghost before = *self;
                let global = self.add_global(
                    Global {
                        ty: ValType::I32,
                        mutable: true,
                        kind: GlobalKind::Local(InitExpr::I32(UNOBSERVED)),
                    },
                );
                slots.push(Slot { site, index, global });
                proof {
                    lemma_grown_trans(&start, &before, &*self);
                    assert(self.globals@ =~= start.globals@ + Seq::new(
                        (done + index + 1) as nat,
                        |k: int| observation_global(),
                    ));
                    let k = done + index;
                    lemma_slot_position(site as int, index as int, window as int);
                }
                index += 1;
            }
            proof {
                assert((site + 1) * window == site * window + window) by (nonlinear_arith);
                assert(slots@ =~= slots_of(site + 1, window as int, first));
            }
            site += 1;
        }
        slots
    }
}

/// The `index`-th global of site `site` is the one numbered
/// `site * window + index`.
proof fn lemma_slot_position(site: int, index: int, window: int)
    requires
        0 <= site,
        0 <= index < window,
    ensures
        (site * window + index) / window == site,
        (site * window + index) % window == index,
{
    vstd::arithmetic::div_mod::lemma_fundamental_div_mod_converse(
        site * window + index,
        window,
        site,
        index,
    );
}

/// Every slot names a global of the module and a site whose index fits a
/// 32-bit constant.
pub open spec fn slots_valid(module: &Module, slots: Seq<Slot>) -> bool {
    forall|k: int|
        0 <= k < slots.len() ==> (#[trigger] slots[k]).global < module.globals.len() && slots[k].site
            <= i32::MAX
}

/// `after` is the stub `before` with the observation code woven in, the
/// flag being the local `set_value`.
pub open spec fn is_woven_function(
    before: Function,
    slots: Seq<Slot>,
    counter: GlobalId,
    set_value: LocalId,
    after: Function,
) -> bool {
    let local = before.kind->Local_0;
    &&& after.name == before.name
    &&& after.kind is Local
    &&& after.kind->Local_0.ty == local.ty
    &&& after.kind->Local_0.args == local.args
    &&& after.kind->Local_0.entry == local.entry
    &&& is_woven(
        local.body(),
        after.kind->Local_0.body(),
        local.entry as int,
        slots,
        counter,
        local.args@[local.args@.len() - 1],
        local.args@[local.args@.len() - 2],
        set_value,
    )
}

impl Module {
    /// Function `stub` of `after` is function `stub` of this module with
    /// the observation code woven in, the flag being the local `set_value`.
    pub open spec fn woven_function(
        &self,
        stub: int,
        slots: Seq<Slot>,
        counter: GlobalId,
        set_value: LocalId,
        after: Function,
    ) -> bool {
        is_woven_function(self.funcs[stub], slots, counter, set_value, after)
    }

    /// Weaves the observation code into the stub `stub`, with a new local
    /// for the flag.
    pub fn weave_stub(&mut self, stub: FuncId, slots: &Vec<Slot>, counter: GlobalId)
        requires
            old(self).wf(),
            stub < old(self).funcs.len(),
            old(self).funcs[stub as int].kind is Local,
            old(self).funcs[stub as int].kind->Local_0.args.len() >= 2,
            slots_valid(old(self), slots@),
            counter < old(self).globals.len(),
        ensures
            final(self).wf(),
            final(self).types == old(self).types,
            final(self).imports == old(self).imports,
            final(self).exports == old(self).exports,
            final(self).tables == old(self).tables,
            final(self).elements == old(self).elements,
            final(self).globals == old(self).globals,
            final(self).locals@ == old(self).locals@.push(ValType::I32),
            final(self).funcs.len() == old(self).funcs.len(),
            forall|f: int|
                0 <= f < old(self).funcs.len() && f != stub ==> #[trigger] final(self).funcs[f] == old(
                    self,
                ).funcs[f],
            old(self).woven_function(
                stub as int,
                slots@,
                counter,
                old(self).locals.len(),
                final(self).funcs[stub as int],
            ),
    {
        let ghost start = *self;
        let set_value = self.locals.len();
        self.locals.push(ValType::I32);
        let ghost local0 = start.funcs[stub as int].kind->Local_0;
        proof {
            assert(start.funcs[stub as int].wf(start.bounds()));
        }
        match &mut self.funcs[stub].kind {
            FunctionKind::Local(local) => {
                local.weave(slots, counter, set_value);
                proof {
                    let b = (Bounds { locals: (start.locals.len() + 1) as nat, ..start.bounds() });
                    assert forall|s: int| 0 <= s < local0.body().len() implies seq_wf(
                        #[trigger] local0.body()[s],
                        b.with_seqs(local0.body().len()),
                    ) by {
                        assert(local0.seqs[s]@ == local0.body()[s]);
                        crate::ir::lemma_seq_wf_covers(
                            local0.seqs[s]@,
                            start.bounds().with_seqs(local0.seqs.len() as nat),
                            b.with_seqs(local0.body().len()),
                        );
                    }
                    assert(local.body().len() == local.seqs.len());
                    lemma_woven_wf(
                        local0.body(),
                        local.body(),
                        local0.entry as int,
                        slots@,
                        counter,
                        local0.args@[local0.args@.len() - 1],
                        local0.args@[local0.args@.len() - 2],
                        set_value,
                        b,
                    );
                    assert forall|s: int| 0 <= s < local.seqs.len() implies seq_wf(
                        #[trigger] local.seqs[s]@,
                        b.with_seqs(local.seqs.len() as nat),
                    ) by {
                        assert(local.seqs[s]@ == local.body()[s]);
                    }
                }
            },
            FunctionKind::Import { .. } => {},
        }
        proof {
            assert forall|f: int| 0 <= f < self.funcs.len() implies (#[trigger] self.funcs[f]).wf(
                self.bounds(),
            ) by {
                if f != stub {
                    lemma_function_wf_covers(start.funcs[f], start.bounds(), self.bounds());
                }
            }
        }
    }
}

/// The name under which the call counter is exported.
pub open spec fn counter_name() -> Seq<char> {
    "slowcalls"@
}

/// The name under which the global of a slot is exported.
pub open spec fn observation_name(slot: Slot) -> Seq<char> {
    "profiling_global_"@ + decimal(slot.site as nat) + "_"@ + decimal(slot.index as nat)
}

/// `export` makes the global of `slot` known under the slot's name.
pub open spec fn exports_slot(export: Export, slot: Slot) -> bool {
    export.name@ == observation_name(slot) && export.item == ExportItem::Global(slot.global)
}

impl Module {
    /// Exports the call counter as `slowcalls` and then the global of each
    /// slot as `profiling_global_<site>_<index>`, in the order of the slots.
    pub fn export_observations(&mut self, counter: GlobalId, slots: &Vec<Slot>)
        requires
            old(self).wf(),
            counter < old(self).globals.len(),
            slots_valid(old(self), slots@),
        ensures
            final(self).wf(),
            final(self).types == old(self).types,
            final(self).funcs == old(self).funcs,
            final(self).imports == old(self).imports,
            final(self).tables == old(self).tables,
            final(self).elements == old(self).elements,
            final(self).globals == old(self).globals,
            final(self).locals == old(self).locals,
            extends(final(self).exports@, old(self).exports@),
            final(self).exports.len() == old(self).exports.len() + 1 + slots@.len(),
            final(self).exports[old(self).exports.len() as int].name@ == counter_name(),
            final(self).exports[old(self).exports.len() as int].item == ExportItem::Global(counter),
            forall|k: int|
                0 <= k < slots@.len() ==> exports_slot(
                    #[trigger] final(self).exports[old(self).exports.len() + 1 + k],
                    slots@[k],
                ),
    {
        let ghost start = *self;
        let ghost base = start.exports.len() as int;
        self.export_global(String::from_str("slowcalls"), counter);
        let ghost counted = *self;
        let mut k: usize = 0;
        while k < slots.len()
            invariant
                k <= slots@.len(),
                base == start.exports.len(),
                self.wf(),
                self.grown_from(&start),
                self.types == start.types,
                self.funcs == start.funcs,
                self.globals == start.globals,
                self.locals == start.locals,
                slots_valid(&start, slots@),
                self.exports.len() == base + 1 + k,
                self.exports[base].name@ == counter_name(),
                self.exports[base].item == ExportItem::Global(counter),
                forall|i: int|
                    0 <= i < k ==> exports_slot(#[trigger] self.exports[base + 1 + i], slots@[i]),
            decreases slots@.len() - k,
        {
            let slot = slots[k];
            let ghost before = *self;
            let mut name = String::from_str("profiling_global_");
            push_decimal(&mut name, slot.site);
            name.append("_");
            push_decimal(&mut name, slot.index);
            self.export_global(name, slot.global);
            proof {
                lemma_grown_trans(&start, &before, &*self);
                assert(self.exports@.take(before.exports.len() as int) == before.exports@);
                assert forall|i: int| 0 <= i < k + 1 implies exports_slot(
                    #[trigger] self.exports[base + 1 + i],
                    slots@[i],
                ) by {
                    if i < k {
                        assert(self.exports@.take(before.exports.len() as int)[base + 1 + i]
                            == self.exports@[base + 1 + i]);
                    }
                }
                assert(self.exports@.take(before.exports.len() as int)[base] == self.exports@[base]);
            }
            k += 1;
        }
    }
}

} // verus!
