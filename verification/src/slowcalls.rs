//! The fastcall analysis of a whole module.

use crate::error::Error;
use crate::fastcalls::{
    fast_within, is_slowcall, lemma_fast_within_elim, lemma_fast_within_intro, scanned,
    scans_sorted, slow_functions, FastCallScan,
};
use crate::idmap::strictly_increasing;
use crate::ir::{FuncId, FunctionKind, Instr, Module};
use crate::lookup::{default_benign, names};
use crate::scan::{Facts, ScanContext};
use vstd::prelude::*;
use vstd::string::StringExecFns;

verus! {

impl Module {
    /// The facts that the module gives the scans, `benign` being the names
    /// of the imports whose calls do no harm.
    pub open spec fn facts(&self, benign: Seq<Seq<char>>) -> Facts {
        Facts {
            start: self.start().unwrap(),
            poison: Set::new(|g: FuncId| self.poisons(benign, g)),
            members: self.table_members(),
        }
    }

    /// The instructions that the walk of the local function `func` comes by.
    pub open spec fn local_walk(&self, func: FuncId) -> Seq<Instr> {
        self.funcs[func as int].kind->Local_0.walked()
    }

    /// `func` is a local function.
    pub open spec fn is_local(&self, func: FuncId) -> bool {
        func < self.funcs.len() && self.funcs[func as int].kind is Local
    }

    /// The scan of `func` rules it out.
    pub open spec fn ruled_out(&self, benign: Seq<Seq<char>>, func: FuncId) -> bool {
        self.facts(benign).rules_out(self, func, self.local_walk(func))
    }

    /// The verdict on `func` hangs on that on `d`.
    pub open spec fn depends_on(&self, benign: Seq<Seq<char>>, func: FuncId, d: FuncId) -> bool {
        self.facts(benign).depends(self, func, self.local_walk(func), d)
    }

    /// `func` is shown to be a fastcall by a chain of dependencies at most
    /// `k` functions deep: it is local, nothing rules it out, and whatever
    /// it depends on is shown to be a fastcall one level down.
    #[verifier::opaque]
    pub open spec fn fast_in(&self, benign: Seq<Seq<char>>, k: nat, func: FuncId) -> bool
        decreases k,
    {
        &&& k > 0
        &&& self.is_local(func)
        &&& !self.ruled_out(benign, func)
        &&& forall|d: FuncId| #[trigger]
            self.depends_on(benign, func, d) ==> self.fast_in(benign, (k - 1) as nat, d)
    }

    /// `func` is a fastcall.
    pub open spec fn is_fastcall(&self, benign: Seq<Seq<char>>, func: FuncId) -> bool {
        exists|k: nat| self.fast_in(benign, k, func)
    }

    /// `func` is a slowcall: a local function that is no fastcall.
    pub open spec fn is_slowcall(&self, benign: Seq<Seq<char>>, func: FuncId) -> bool {
        self.is_local(func) && !self.is_fastcall(benign, func)
    }
}

/// The scans are those of the local functions of the module, each holding
/// what the walk of its function says.
pub open spec fn scans_describe(scans: Seq<FastCallScan>, module: &Module, facts: Facts) -> bool {
    &&& scans_sorted(scans)
    &&& forall|i: int|
        0 <= i < scans.len() ==> module.is_local((#[trigger] scans[i]).func) && scans[i].holds(
            module,
            facts,
            module.local_walk(scans[i].func),
        )
    &&& forall|f: FuncId| #[trigger] module.is_local(f) ==> scanned(scans, f)
}

/// What the scans show of a function is what holds of it in the module.
pub proof fn lemma_scans_agree(
    scans: Seq<FastCallScan>,
    module: &Module,
    benign: Seq<Seq<char>>,
    k: nat,
    func: FuncId,
)
    requires
        scans_describe(scans, module, module.facts(benign)),
    ensures
        fast_within(scans, k, func) == module.fast_in(benign, k, func),
    decreases k,
{
    let facts = module.facts(benign);
    if fast_within(scans, k, func) {
        let i = lemma_fast_within_elim(scans, k, func);
        assert(scans[i].holds(module, facts, module.local_walk(func)));
        assert forall|d: FuncId| #[trigger]
            module.depends_on(benign, func, d) implies module.fast_in(
            benign,
            (k - 1) as nat,
            d,
        ) by {
            assert(scans[i].deps@.contains(d));
            let e = choose|e: int| 0 <= e < scans[i].deps@.len() && scans[i].deps@[e] == d;
            assert(fast_within(scans, (k - 1) as nat, scans[i].deps@[e]));
            lemma_scans_agree(scans, module, benign, (k - 1) as nat, d);
        }
        reveal(Module::fast_in);
    }
    if module.fast_in(benign, k, func) {
        reveal(Module::fast_in);
        assert(module.is_local(func));
        let i = choose|i: int| 0 <= i < scans.len() && #[trigger] scans[i].func == func;
        assert(scans[i].holds(module, facts, module.local_walk(func)));
        assert forall|e: int| 0 <= e < scans[i].deps@.len() implies fast_within(
            scans,
            (k - 1) as nat,
            #[trigger] scans[i].deps@[e],
        ) by {
            let d = scans[i].deps@[e];
            assert(scans[i].deps@.contains(d));
            assert(module.depends_on(benign, func, d));
            lemma_scans_agree(scans, module, benign, (k - 1) as nat, d);
        }
        lemma_fast_within_intro(scans, (k - 1) as nat, i);
    }
}

impl ScanContext {
    /// Gathers what the scans need from the module. Fails if the module
    /// exports no function as `_start`.
    pub fn new(module: &Module, benign: &Vec<String>) -> (r: Result<ScanContext, Error>)
        requires
            module.wf(),
        ensures
            match r {
                Ok(ctx) => ctx.wf(module) && ctx@ == module.facts(names(benign@))
                    && module.start() is Some,
                Err(e) => e == Error::MissingStart && module.start() is None,
            },
    {
        let start = match module.start_function() {
            Some(start) => start,
            None => {
                return Err(Error::MissingStart);
            },
        };
        let poison = module.poison_marks(benign);
        let mut members: Vec<Option<FuncId>> = Vec::new();
        match module.main_element_segment() {
            Some(segment) => {
                let slots = &module.elements[segment].members;
                let mut j: usize = 0;
                while j < slots.len()
                    invariant
                        j <= slots@.len(),
                        members@ == slots@.take(j as int),
                    decreases slots@.len() - j,
                {
                    members.push(slots[j]);
                    assert(members@ =~= slots@.take(j + 1));
                    j += 1;
                }
                assert(slots@.take(slots@.len() as int) =~= slots@);
            },
            None => {},
        }
        let ctx = ScanContext { start, poison, members };
        proof {
            assert(ctx@.members =~= module.table_members());
            assert forall|g: FuncId|
                ctx@.poison.contains(g) <==> module.facts(names(benign@)).poison.contains(g) by {
                if module.poisons(names(benign@), g) {
                    let i = choose|i: int|
                        0 <= i < module.imports.len() && (#[trigger] module.imports[i]).kind
                            == crate::ir::ImportKind::Function(g);
                    assert(g < module.funcs.len());
                }
            }
            assert(ctx@.poison =~= module.facts(names(benign@)).poison);
            assert forall|j: int| 0 <= j < ctx.members@.len() implies match #[trigger] ctx.members@[j] {
                Some(h) => h < module.funcs.len(),
                None => true,
            } by {
                let segment = module.main_segment().unwrap();
                assert(module.elements[segment as int].members[j] == ctx.members@[j]);
            }
        }
        Ok(ctx)
    }
}

/// Scans one local function.
pub fn scan_function(module: &Module, ctx: &ScanContext, func: FuncId) -> (scan: FastCallScan)
    requires
        module.wf(),
        ctx.wf(module),
        module.is_local(func),
    ensures
        scan.func == func,
        scan.holds(module, ctx@, module.local_walk(func)),
{
    let mut scan = FastCallScan::new(func, ctx);
    assert(scan.holds(module, ctx@, Seq::empty()));
    match &module.funcs[func].kind {
        FunctionKind::Local(local) => {
            let flat = local.walked_instrs();
            proof {
                crate::walk::lemma_walked(local.body(), local.order());
                crate::walk::lemma_body_order_distinct(local.body(), local.entry);
                assert(module.funcs[func as int].wf(module.bounds()));
            }
            let mut i: usize = 0;
            assert(flat@.take(0) =~= Seq::<Instr>::empty());
            while i < flat.len()
                invariant
                    i <= flat@.len(),
                    module.wf(),
                    ctx.wf(module),
                    func < module.funcs.len(),
                    scan.func == func,
                    scan.holds(module, ctx@, flat@.take(i as int)),
                    forall|j: int|
                        0 <= j < flat@.len() ==> (#[trigger] flat@[j]).wf(
                            module.bounds().with_seqs(local.seqs.len() as nat),
                        ),
                decreases flat@.len() - i,
            {
                let ghost before = scan;
                let ghost seen = flat@.take(i as int);
                let ghost more = flat@.take(i + 1);
                let instr = flat[i];
                assert(instr.wf(module.bounds().with_seqs(local.seqs.len() as nat)));
                scan.visit_instr(instr, module, ctx);
                proof {
                    let facts = ctx@;
                    assert(more.drop_last() =~= seen);
                    assert(more.last() == instr);
                    lemma_rules_step(facts, module, func, seen, instr);
                    assert forall|d: FuncId|
                        scan.deps@.contains(d) <==> facts.depends(module, func, more, d) by {
                        lemma_depends_step(facts, module, func, seen, instr, d);
                    }
                    assert forall|g: FuncId|
                        scan.imports@.contains(g) <==> facts.imports(func, more, g) by {
                        lemma_imports_step(facts, func, seen, instr, g);
                    }
                }
                i += 1;
            }
            assert(flat@.take(flat@.len() as int) =~= flat@);
        },
        FunctionKind::Import { .. } => {},
    }
    scan
}

proof fn lemma_rules_step(facts: Facts, module: &Module, func: FuncId, seen: Seq<Instr>, instr: Instr)
    ensures
        facts.rules_out(module, func, seen.push(instr)) == (facts.rules_out(module, func, seen)
            || facts.instr_rules_out(module, func, instr)),
{
    let more = seen.push(instr);
    if facts.rules_out(module, func, seen) && func != facts.start {
        let i = choose|i: int|
            0 <= i < seen.len() && facts.instr_rules_out(module, func, #[trigger] seen[i]);
        assert(more[i] == seen[i]);
    }
    if facts.instr_rules_out(module, func, instr) {
        assert(more[seen.len() as int] == instr);
    }
    if facts.rules_out(module, func, more) && func != facts.start {
        let i = choose|i: int|
            0 <= i < more.len() && facts.instr_rules_out(module, func, #[trigger] more[i]);
        if i < seen.len() {
            assert(seen[i] == more[i]);
        }
    }
}

proof fn lemma_depends_step(
    facts: Facts,
    module: &Module,
    func: FuncId,
    seen: Seq<Instr>,
    instr: Instr,
    d: FuncId,
)
    ensures
        facts.depends(module, func, seen.push(instr), d) == (facts.depends(module, func, seen, d) || (
        func != facts.start && facts.instr_depends(module, func, instr, d))),
{
    let more = seen.push(instr);
    if facts.depends(module, func, seen, d) {
        let i = choose|i: int|
            0 <= i < seen.len() && facts.instr_depends(module, func, #[trigger] seen[i], d);
        assert(more[i] == seen[i]);
    }
    if func != facts.start && facts.instr_depends(module, func, instr, d) {
        assert(more[seen.len() as int] == instr);
    }
    if facts.depends(module, func, more, d) {
        let i = choose|i: int|
            0 <= i < more.len() && facts.instr_depends(module, func, #[trigger] more[i], d);
        if i < seen.len() {
            assert(seen[i] == more[i]);
        }
    }
}

proof fn lemma_imports_step(facts: Facts, func: FuncId, seen: Seq<Instr>, instr: Instr, g: FuncId)
    ensures
        facts.imports(func, seen.push(instr), g) == (facts.imports(func, seen, g) || (func
            != facts.start && facts.instr_imports(func, instr, g))),
{
    let more = seen.push(instr);
    if facts.imports(func, seen, g) {
        let i = choose|i: int| 0 <= i < seen.len() && facts.instr_imports(func, #[trigger] seen[i], g);
        assert(more[i] == seen[i]);
    }
    if func != facts.start && facts.instr_imports(func, instr, g) {
        assert(more[seen.len() as int] == instr);
    }
    if facts.imports(func, more, g) {
        let i = choose|i: int| 0 <= i < more.len() && facts.instr_imports(func, #[trigger] more[i], g);
        if i < seen.len() {
            assert(seen[i] == more[i]);
        }
    }
}

/// Scans every local function of the module, in the order of their ids.
pub fn scan_functions(module: &Module, ctx: &ScanContext) -> (scans: Vec<FastCallScan>)
    requires
        module.wf(),
        ctx.wf(module),
    ensures
        scans_describe(scans@, module, ctx@),
{
    let mut scans: Vec<FastCallScan> = Vec::new();
    let mut f: usize = 0;
    while f < module.funcs.len()
        invariant
            f <= module.funcs.len(),
            module.wf(),
            ctx.wf(module),
            scans_sorted(scans@),
            forall|i: int| 0 <= i < scans@.len() ==> (#[trigger] scans@[i]).func < f,
            forall|i: int|
                0 <= i < scans@.len() ==> module.is_local((#[trigger] scans@[i]).func)
                    && scans@[i].holds(module, ctx@, module.local_walk(scans@[i].func)),
            forall|g: FuncId| g < f && #[trigger] module.is_local(g) ==> scanned(scans@, g),
        decreases module.funcs.len() - f,
    {
        let ghost before = scans@;
        match &module.funcs[f].kind {
            FunctionKind::Local(_) => {
                let scan = scan_function(module, ctx, f);
                scans.push(scan);
                proof {
                    assert forall|g: FuncId| g < f + 1 && #[trigger] module.is_local(g) implies scanned(
                        scans@,
                        g,
                    ) by {
                        if g < f {
                            let i = choose|i: int| 0 <= i < before.len() && #[trigger] before[i].func == g;
                            assert(scans@[i].func == g);
                        } else {
                            assert(scans@[before.len() as int].func == g);
                        }
                    }
                }
            },
            FunctionKind::Import { .. } => {},
        }
        f += 1;
    }
    scans
}

/// The slowcalls of the module in increasing order, `benign` naming the
/// imports whose calls do no harm.
pub fn compute_slowcalls_with(module: &Module, benign: &Vec<String>) -> (r: Result<Vec<FuncId>, Error>)
    requires
        module.wf(),
    ensures
        match r {
            Ok(slow) => {
                &&& module.start() is Some
                &&& strictly_increasing(slow@)
                &&& forall|func: FuncId|
                    slow@.contains(func) <==> module.is_slowcall(names(benign@), func)
            },
            Err(e) => e == Error::MissingStart && module.start() is None,
        },
{
    let ctx = match ScanContext::new(module, benign) {
        Ok(ctx) => ctx,
        Err(e) => {
            return Err(e);
        },
    };
    let scans = scan_functions(module, &ctx);
    let slow = slow_functions(&scans);
    proof {
        let list = names(benign@);
        assert forall|func: FuncId| slow@.contains(func) <==> module.is_slowcall(list, func) by {
            lemma_slowcalls_agree(scans@, module, list, func);
        }
    }
    Ok(slow)
}

/// The slowcalls by the scans are the slowcalls of the module.
pub proof fn lemma_slowcalls_agree(
    scans: Seq<FastCallScan>,
    module: &Module,
    benign: Seq<Seq<char>>,
    func: FuncId,
)
    requires
        scans_describe(scans, module, module.facts(benign)),
    ensures
        is_slowcall(scans, func) == module.is_slowcall(benign, func),
{
    if scanned(scans, func) {
        let i = choose|i: int| 0 <= i < scans.len() && #[trigger] scans[i].func == func;
        assert(module.is_local(scans[i].func));
    }
    if crate::fastcalls::is_fastcall(scans, func) {
        let k = choose|k: nat| fast_within(scans, k, func);
        lemma_scans_agree(scans, module, benign, k, func);
    }
    if module.is_fastcall(benign, func) {
        let k = choose|k: nat| module.fast_in(benign, k, func);
        lemma_scans_agree(scans, module, benign, k, func);
    }
}

/// The slowcalls of the module in increasing order. Calls of the imports
/// `proc_exit` and `fd_write` count as benign.
pub fn compute_slowcalls(module: &Module) -> (r: Result<Vec<FuncId>, Error>)
    requires
        module.wf(),
    ensures
        match r {
            Ok(slow) => {
                &&& module.start() is Some
                &&& strictly_increasing(slow@)
                &&& forall|func: FuncId|
                    slow@.contains(func) <==> module.is_slowcall(default_benign(), func)
            },
            Err(e) => e == Error::MissingStart && module.start() is None,
        },
{
    let mut benign: Vec<String> = Vec::new();
    benign.push(String::from_str("proc_exit"));
    benign.push(String::from_str("fd_write"));
    assert(names(benign@) =~= default_benign());
    compute_slowcalls_with(module, &benign)
}

} // verus!
