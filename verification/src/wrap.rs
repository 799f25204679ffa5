//! Wrapping of the slowcalls.
//!
//! Each slowcall gets a wrapper of the same signature that counts the call
//! in a global and then calls the slowcall with its own arguments. Every
//! direct call of a slowcall, wherever it stands, is then turned into a
//! call of the wrapper, except inside the wrapper itself.

use crate::grow::{
    lemma_find_type, lemma_grown_refl, lemma_grown_trans, lemma_with_function,
    lemma_with_functions_more, lemma_with_no_function, params_upto, placed, Sig,
};
use crate::idmap::IdMap;
use crate::instrument::{args_typed, forward};
use crate::ir::{
    copy_types, seq_wf, BinaryOp, Bounds, FuncId, Function, FunctionKind, GlobalId, Instr,
    LocalFunction, LocalId, Module, ValType,
};
use crate::names::{decimal, numbered};
use vstd::prelude::*;

verus! {

/// What turns calls of wrapped functions into calls of their wrappers while
/// it visits the instructions of one function.
#[derive(Debug)]
pub struct CallScanner {
    /// The wrapper of each wrapped function.
    pub mapping: IdMap<FuncId>,
    /// The function whose instructions are visited.
    pub curr_func: FuncId,
}

/// An instruction with its callee replaced by the callee's wrapper, unless
/// the instruction stands in that wrapper.
pub open spec fn redirected(instr: Instr, mapping: Map<usize, FuncId>, current: FuncId) -> Instr {
    match instr {
        Instr::Call { func } => if mapping.contains_key(func) && mapping[func] != current {
            Instr::Call { func: mapping[func] }
        } else {
            instr
        },
        _ => instr,
    }
}

/// A sequence with every instruction redirected.
pub open spec fn redirect_seq(instrs: Seq<Instr>, mapping: Map<usize, FuncId>, current: FuncId) -> Seq<
    Instr,
> {
    Seq::new(instrs.len(), |p: int| redirected(instrs[p], mapping, current))
}

/// A body with every sequence redirected.
pub open spec fn redirect_body(body: Seq<Seq<Instr>>, mapping: Map<usize, FuncId>, current: FuncId) -> Seq<
    Seq<Instr>,
> {
    Seq::new(body.len(), |s: int| redirect_seq(body[s], mapping, current))
}

/// The wrappers of the functions `slow`, numbered from `base` in the order
/// of `slow`.
pub open spec fn wrappers(slow: Seq<FuncId>, base: int) -> Map<usize, FuncId> {
    Map::new(|f: usize| slow.contains(f), |f: usize| (base + slow.index_of(f)) as usize)
}

/// The instructions that count one call in the global `counter`.
pub open spec fn count_call(counter: GlobalId) -> Seq<Instr> {
    seq![
        Instr::GlobalGet { global: counter },
        Instr::Const { value: 1 },
        Instr::Binop { op: BinaryOp::I32Add },
        Instr::GlobalSet { global: counter },
    ]
}

/// The body of the wrapper of `target`: count the call, hand on all
/// arguments, call.
pub open spec fn wrapper_body(args: Seq<LocalId>, target: FuncId, counter: GlobalId) -> Seq<Instr> {
    count_call(counter) + forward(args, args.len() as int).push(Instr::Call { func: target })
}

/// `func` is the wrapper numbered `index` of `target`, whose signature has
/// the given parameters and results.
pub open spec fn is_slowcall_stub(
    module: &Module,
    func: Function,
    index: nat,
    params: Seq<ValType>,
    results: Seq<ValType>,
    target: FuncId,
    counter: GlobalId,
) -> bool {
    &&& func.name is Some
    &&& func.name->0@ == "slowcall_stub_"@ + decimal(index)
    &&& func.kind is Local
    &&& {
        let local = func.kind->Local_0;
        &&& local.ty < module.types.len()
        &&& module.types[local.ty as int].params@ == params
        &&& module.types[local.ty as int].results@ == results
        &&& args_typed(module.locals@, local.args@, params)
        &&& local.entry == 0
        &&& local.seqs@.len() == 1
        &&& local.seqs[0]@ == wrapper_body(local.args@, target, counter)
    }
}

impl CallScanner {
    /// Redirects one instruction.
    pub fn visit_instr(&self, instr: &mut Instr)
        ensures
            *final(instr) == redirected(*old(instr), self.mapping@, self.curr_func),
    {
        match *instr {
            Instr::Call { func } => {
                match self.mapping.get(func) {
                    Some(wrapper) => {
                        if *wrapper != self.curr_func {
                            *instr = Instr::Call { func: *wrapper };
                        }
                    },
                    None => {},
                }
            },
            _ => {},
        }
    }

    /// Redirects every instruction of a sequence.
    pub fn visit_seq(&self, instrs: &mut Vec<Instr>)
        ensures
            final(instrs)@ == redirect_seq(old(instrs)@, self.mapping@, self.curr_func),
    {
        let ghost before = instrs@;
        let mut p: usize = 0;
        while p < instrs.len()
            invariant
                p <= instrs@.len(),
                instrs@.len() == before.len(),
                forall|q: int|
                    0 <= q < p ==> #[trigger] instrs@[q] == redirected(
                        before[q],
                        self.mapping@,
                        self.curr_func,
                    ),
                forall|q: int| p <= q < instrs@.len() ==> #[trigger] instrs@[q] == before[q],
            decreases instrs@.len() - p,
        {
            self.visit_instr(&mut instrs[p]);
            p += 1;
        }
        assert(instrs@ =~= redirect_seq(before, self.mapping@, self.curr_func));
    }

    /// Redirects every instruction of a function.
    pub fn visit_function(&self, local: &mut LocalFunction)
        ensures
            final(local).ty == old(local).ty,
            final(local).args == old(local).args,
            final(local).entry == old(local).entry,
            final(local).body() == redirect_body(old(local).body(), self.mapping@, self.curr_func),
    {
        let ghost before = local.body();
        let mut s: usize = 0;
        while s < local.seqs.len()
            invariant
                s <= local.seqs@.len(),
                local.ty == old(local).ty,
                local.args == old(local).args,
                local.entry == old(local).entry,
                local.seqs@.len() == before.len(),
                forall|t: int|
                    0 <= t < s ==> #[trigger] local.seqs@[t]@ == redirect_seq(
                        before[t],
                        self.mapping@,
                        self.curr_func,
                    ),
                forall|t: int| s <= t < local.seqs@.len() ==> #[trigger] local.seqs@[t]@ == before[t],
            decreases local.seqs@.len() - s,
        {
            self.visit_seq(&mut local.seqs[s]);
            s += 1;
        }
        assert(local.body() =~= redirect_body(before, self.mapping@, self.curr_func));
    }
}

/// Redirecting keeps a body well formed, given that the wrappers exist.
pub proof fn lemma_redirect_wf(
    body: Seq<Seq<Instr>>,
    mapping: Map<usize, FuncId>,
    current: FuncId,
    b: Bounds,
)
    requires
        forall|s: int| 0 <= s < body.len() ==> seq_wf(#[trigger] body[s], b),
        forall|f: usize| #[trigger] mapping.contains_key(f) ==> mapping[f] < b.funcs,
    ensures
        forall|s: int|
            0 <= s < body.len() ==> seq_wf(#[trigger] redirect_body(body, mapping, current)[s], b),
{
    assert forall|s: int| 0 <= s < body.len() implies seq_wf(
        #[trigger] redirect_body(body, mapping, current)[s],
        b,
    ) by {
        let out = redirect_body(body, mapping, current)[s];
        assert(seq_wf(body[s], b));
        assert forall|p: int| 0 <= p < out.len() implies (#[trigger] out[p]).wf(b) by {
            assert(body[s][p].wf(b));
        }
    }
}

/// After redirection, a call of a wrapped function that stands anywhere but
/// in the function's own wrapper is a call of the wrapper.
pub proof fn lemma_redirected_calls(
    body: Seq<Seq<Instr>>,
    mapping: Map<usize, FuncId>,
    current: FuncId,
    s: int,
    p: int,
)
    requires
        0 <= s < body.len(),
        0 <= p < body[s].len(),
    ensures
        redirect_body(body, mapping, current).len() == body.len(),
        redirect_body(body, mapping, current)[s].len() == body[s].len(),
        match body[s][p] {
            Instr::Call { func } => mapping.contains_key(func) && mapping[func] != current
                ==> redirect_body(body, mapping, current)[s][p] == (Instr::Call {
                func: mapping[func],
            }),
            other => redirect_body(body, mapping, current)[s][p] == other,
        },
{
}

/// The body of a wrapper.
fn build_wrapper_body(args: &Vec<LocalId>, target: FuncId, counter: GlobalId) -> (body: Vec<Instr>)
    ensures
        body@ == wrapper_body(args@, target, counter),
{
    let mut body: Vec<Instr> = Vec::new();
    body.push(Instr::GlobalGet { global: counter });
    body.push(Instr::Const { value: 1 });
    body.push(Instr::Binop { op: BinaryOp::I32Add });
    body.push(Instr::GlobalSet { global: counter });
    assert(body@ =~= count_call(counter) + forward(args@, 0));
    let mut j: usize = 0;
    while j < args.len()
        invariant
            j <= args@.len(),
            body@ == count_call(counter) + forward(args@, j as int),
        decreases args@.len() - j,
    {
        body.push(Instr::LocalGet { local: args[j] });
        assert(body@ =~= count_call(counter) + forward(args@, j + 1));
        j += 1;
    }
    body.push(Instr::Call { func: target });
    assert(body@ =~= wrapper_body(args@, target, counter));
    body
}

/// Makes the wrapper numbered `index` of `target` and adds it to the
/// module.
fn add_wrapper(module: &mut Module, index: usize, target: FuncId, counter: GlobalId) -> (stub: FuncId)
    requires
        old(module).wf(),
        target < old(module).funcs.len(),
        counter < old(module).globals.len(),
    ensures
        final(module).wf(),
        final(module).grown_from(old(module)),
        final(module).globals == old(module).globals,
        final(module).exports == old(module).exports,
        stub == old(module).funcs.len(),
        final(module).funcs.len() == old(module).funcs.len() + 1,
        is_slowcall_stub(
            final(module),
            final(module).funcs[stub as int],
            index as nat,
            old(module).params_of(target),
            old(module).results_of(target),
            target,
            counter,
        ),
        final(module).types == old(module).types,
        final(module).with_functions(
            old(module),
            seq![(old(module).params_of(target), old(module).results_of(target))],
        ),
{
    let ghost start = *module;
    assert(start.funcs[target as int].wf(start.bounds()));
    let ty = module.funcs[target].ty();
    let params = copy_types(&module.types[ty].params);
    let results = copy_types(&module.types[ty].results);
    let own = copy_types(&params);
    proof {
        lemma_find_type(start.types@, params@, results@, 0);
    }
    let stub_ty = module.add_type(own, results);
    let ghost typed = *module;
    let args = module.add_locals(&params);
    let ghost ready = *module;
    let body = build_wrapper_body(&args, target, counter);
    let name = numbered("slowcall_stub_", index);
    let mut seqs: Vec<Vec<Instr>> = Vec::new();
    seqs.push(body);
    let func = Function {
        name: Some(name),
        kind: FunctionKind::Local(LocalFunction { ty: stub_ty, args, entry: 0, seqs }),
    };
    proof {
        lemma_grown_trans(&start, &typed, &ready);
        let local = func.kind->Local_0;
        let b = (Bounds { funcs: (ready.funcs.len() + 1) as nat, ..ready.bounds() });
        assert(seq_wf(local.seqs[0]@, b.with_seqs(1))) by {
            assert forall|i: int| 0 <= i < local.seqs[0]@.len() implies (#[trigger] local.seqs[0]@[i]).wf(
                b.with_seqs(1),
            ) by {
                if 4 <= i < 4 + local.args@.len() {
                    assert(local.seqs[0]@[i] == Instr::LocalGet { local: local.args@[i - 4] });
                }
            }
        }
        assert(ready.types[stub_ty as int] == typed.types[stub_ty as int]);
        assert(args_typed(ready.locals@, local.args@, params@)) by {
            assert forall|i: int, j: int|
                0 <= i < local.args@.len() && 0 <= j < local.args@.len() && i != j implies local.args@[i]
                != local.args@[j] by {}
        }
    }
    let stub = module.add_function(func);
    proof {
        lemma_grown_trans(&start, &ready, &*module);
        assert(module.locals@ == ready.locals@);
        assert(module.types@ == ready.types@);
        assert(func.kind->Local_0.args@ =~= Seq::new(
            params@.len(),
            |j: int| (start.locals.len() + j) as usize,
        ));
        lemma_with_function(&start, &*module, (params@, results@));
    }
    stub
}

/// A wrapper stays the wrapper it is when the module grows.
pub proof fn lemma_slowcall_stub_stays(
    before: &Module,
    after: &Module,
    func: Function,
    index: nat,
    params: Seq<ValType>,
    results: Seq<ValType>,
    target: FuncId,
    counter: GlobalId,
)
    requires
        after.grown_from(before),
        is_slowcall_stub(before, func, index, params, results, target, counter),
    ensures
        is_slowcall_stub(after, func, index, params, results, target, counter),
{
    let local = func.kind->Local_0;
    assert(after.types@.take(before.types.len() as int)[local.ty as int] == after.types@[local.ty as int]);
    assert forall|j: int| 0 <= j < local.args@.len() implies (#[trigger] local.args@[j])
        < after.locals.len() && after.locals[local.args@[j] as int] == params[j] by {
        let a = local.args@[j] as int;
        assert(after.locals@.take(before.locals.len() as int)[a] == after.locals@[a]);
    }
}

/// `after` is `before`, the function `current`, with its calls redirected.
pub open spec fn is_redirected(
    before: Function,
    mapping: Map<usize, FuncId>,
    current: FuncId,
    after: Function,
) -> bool {
    match before.kind {
        FunctionKind::Local(local) => {
            &&& after.name == before.name
            &&& after.kind is Local
            &&& after.kind->Local_0.ty == local.ty
            &&& after.kind->Local_0.args == local.args
            &&& after.kind->Local_0.entry == local.entry
            &&& after.kind->Local_0.body() == redirect_body(local.body(), mapping, current)
        },
        FunctionKind::Import { .. } => after == before,
    }
}

impl Module {
    /// Function `f` of `after` is function `f` of this module with its
    /// calls redirected.
    pub open spec fn redirected_function(&self, f: int, mapping: Map<usize, FuncId>, after: Function) -> bool {
        is_redirected(self.funcs[f], mapping, f as usize, after)
    }

    /// Redirects the calls of every function of the module, and hands the
    /// map of wrappers back.
    pub fn redirect_calls(&mut self, mapping: IdMap<FuncId>) -> (kept: IdMap<FuncId>)
        requires
            old(self).wf(),
            forall|f: usize| #[trigger]
                mapping@.contains_key(f) ==> mapping@[f] < old(self).funcs.len(),
        ensures
            final(self).wf(),
            kept@ == mapping@,
            final(self).types == old(self).types,
            final(self).imports == old(self).imports,
            final(self).exports == old(self).exports,
            final(self).tables == old(self).tables,
            final(self).elements == old(self).elements,
            final(self).globals == old(self).globals,
            final(self).locals == old(self).locals,
            final(self).funcs.len() == old(self).funcs.len(),
            forall|f: int|
                0 <= f < old(self).funcs.len() ==> old(self).redirected_function(
                    f,
                    mapping@,
                    #[trigger] final(self).funcs[f],
                ),
    {
        let ghost before = *self;
        let ghost map = mapping@;
        let mut scanner = CallScanner { mapping, curr_func: 0 };
        let n = self.funcs.len();
        let mut f: usize = 0;
        while f < n
            invariant
                f <= n,
                n == before.funcs.len(),
                before.wf(),
                scanner.mapping@ == map,
                forall|g: usize| #[trigger] map.contains_key(g) ==> map[g] < n,
                self.types == before.types,
                self.imports == before.imports,
                self.exports == before.exports,
                self.tables == before.tables,
                self.elements == before.elements,
                self.globals == before.globals,
                self.locals == before.locals,
                self.funcs.len() == n,
                forall|g: int|
                    0 <= g < f ==> before.redirected_function(g, map, #[trigger] self.funcs[g]),
                forall|g: int| 0 <= g < f ==> (#[trigger] self.funcs[g]).wf(before.bounds()),
                forall|g: int| f <= g < n ==> #[trigger] self.funcs[g] == before.funcs[g],
            decreases n - f,
        {
            scanner.curr_func = f;
            assert(before.funcs[f as int].wf(before.bounds()));
            let ghost local0 = before.funcs[f as int].kind->Local_0;
            match &mut self.funcs[f].kind {
                FunctionKind::Local(local) => {
                    scanner.visit_function(local);
                    proof {
                        let b = before.bounds().with_seqs(local0.seqs.len() as nat);
                        assert forall|s: int| 0 <= s < local0.body().len() implies seq_wf(
                            #[trigger] local0.body()[s],
                            b,
                        ) by {
                            assert(local0.seqs[s]@ == local0.body()[s]);
                        }
                        lemma_redirect_wf(local0.body(), map, f, b);
                        assert(local.body().len() == local.seqs.len());
                        assert forall|s: int| 0 <= s < local.seqs.len() implies seq_wf(
                            #[trigger] local.seqs[s]@,
                            before.bounds().with_seqs(local.seqs.len() as nat),
                        ) by {
                            assert(local.seqs[s]@ == local.body()[s]);
                        }
                    }
                },
                FunctionKind::Import { .. } => {},
            }
            f += 1;
        }
        scanner.mapping
    }
}

/// The signatures of the wrappers of `slowcalls`: those of the functions
/// they wrap.
pub open spec fn wrapper_sigs(module: &Module, slowcalls: Seq<FuncId>) -> Seq<Sig> {
    Seq::new(
        slowcalls.len(),
        |i: int| (module.params_of(slowcalls[i]), module.results_of(slowcalls[i])),
    )
}

/// The functions to wrap exist, and none is named twice.
pub open spec fn slowcalls_valid(module: &Module, slowcalls: Seq<FuncId>) -> bool {
    &&& slowcalls.no_duplicates()
    &&& forall|i: int| 0 <= i < slowcalls.len() ==> (#[trigger] slowcalls[i]) < module.funcs.len()
}

/// Makes a wrapper for each of `slowcalls`, in order, and redirects every
/// direct call of a wrapped function to its wrapper.
///
/// The wrappers are the functions added. Every function that the module had
/// is as it was but for the redirected calls; in a wrapper the call of the
/// function it wraps stays.
pub fn generate_slowcall_stubs(module: &mut Module, slowcalls: &Vec<FuncId>, slowcall_ctr: GlobalId)
    requires
        old(module).wf(),
        slowcalls_valid(old(module), slowcalls@),
        slowcall_ctr < old(module).globals.len(),
    ensures
        final(module).wf(),
        final(module).types == old(module).types,
        final(module).with_functions(old(module), wrapper_sigs(old(module), slowcalls@)),
        final(module).globals == old(module).globals,
        final(module).exports == old(module).exports,
        final(module).imports == old(module).imports,
        final(module).tables == old(module).tables,
        final(module).elements == old(module).elements,
        final(module).funcs.len() == old(module).funcs.len() + slowcalls@.len(),
        forall|f: int|
            0 <= f < old(module).funcs.len() ==> old(module).redirected_function(
                f,
                wrappers(slowcalls@, old(module).funcs.len() as int),
                #[trigger] final(module).funcs[f],
            ),
        forall|i: int|
            0 <= i < slowcalls@.len() ==> is_slowcall_stub(
                final(module),
                #[trigger] final(module).funcs[old(module).funcs.len() + i],
                i as nat,
                old(module).params_of(slowcalls@[i]),
                old(module).results_of(slowcalls@[i]),
                slowcalls@[i],
                slowcall_ctr,
            ),
{
    let ghost start = *module;
    let base = module.funcs.len();
    let mut mapping: IdMap<FuncId> = IdMap::new();
    let mut i: usize = 0;
    proof {
        lemma_grown_refl(&start);
        assert(mapping@ =~= wrappers(slowcalls@.take(0), base as int));
        assert(wrapper_sigs(&start, slowcalls@.take(0)) =~= Seq::<Sig>::empty());
        lemma_with_no_function(&start);
    }
    while i < slowcalls.len()
        invariant
            i <= slowcalls@.len(),
            start == *old(module),
            base == start.funcs.len(),
            module.types == start.types,
            module.with_functions(&start, wrapper_sigs(&start, slowcalls@.take(i as int))),
            start.wf(),
            slowcalls_valid(&start, slowcalls@),
            slowcall_ctr < start.globals.len(),
            module.wf(),
            module.grown_from(&start),
            module.globals == start.globals,
            module.exports == start.exports,
            module.funcs.len() == base + i,
            mapping@ == wrappers(slowcalls@.take(i as int), base as int),
            forall|j: int|
                0 <= j < i ==> is_slowcall_stub(
                    &*module,
                    #[trigger] module.funcs[base + j],
                    j as nat,
                    start.params_of(slowcalls@[j]),
                    start.results_of(slowcalls@[j]),
                    slowcalls@[j],
                    slowcall_ctr,
                ),
        decreases slowcalls@.len() - i,
    {
        let target = slowcalls[i];
        let ghost before = *module;
        proof {
            assert(before.funcs@.take(start.funcs.len() as int)[target as int]
                == before.funcs@[target as int]);
            assert(start.funcs[target as int].wf(start.bounds()));
            let ty = start.funcs[target as int].type_id();
            assert(before.types@.take(start.types.len() as int)[ty as int] == before.types@[ty as int]);
        }
        let stub = add_wrapper(module, i, target, slowcall_ctr);
        mapping.insert(target, stub);
        proof {
            lemma_grown_trans(&start, &before, &*module);
            let had = wrapper_sigs(&start, slowcalls@.take(i as int));
            let sig = (start.params_of(target), start.results_of(target));
            lemma_with_functions_more(&start, &before, &*module, had, seq![sig]);
            assert(had + seq![sig] =~= wrapper_sigs(&start, slowcalls@.take(i + 1)));
            lemma_wrappers_push(slowcalls@, i as int, base as int);
            assert forall|j: int| 0 <= j < i + 1 implies is_slowcall_stub(
                &*module,
                #[trigger] module.funcs[base + j],
                j as nat,
                start.params_of(slowcalls@[j]),
                start.results_of(slowcalls@[j]),
                slowcalls@[j],
                slowcall_ctr,
            ) by {
                if j < i {
                    assert(module.funcs@.take(before.funcs.len() as int)[base + j]
                        == before.funcs@[base + j]);
                    lemma_slowcall_stub_stays(
                        &before,
                        &*module,
                        before.funcs[base + j],
                        j as nat,
                        start.params_of(slowcalls@[j]),
                        start.results_of(slowcalls@[j]),
                        slowcalls@[j],
                        slowcall_ctr,
                    );
                }
            }
        }
        i += 1;
    }
    let ghost wrapped = *module;
    let ghost map = mapping@;
    proof {
        assert(slowcalls@.take(slowcalls@.len() as int) =~= slowcalls@);
        assert forall|f: usize| #[trigger] map.contains_key(f) implies map[f] < module.funcs.len() by {
            let k = slowcalls@.index_of(f);
        }
    }
    let mapping = module.redirect_calls(mapping);
    proof {
        reveal(Module::with_functions);
        let sigs = wrapper_sigs(&start, slowcalls@);
        assert forall|i: int| 0 <= i < sigs.len() implies placed(
            module.types@,
            #[trigger] module.funcs[start.funcs.len() + i],
            sigs[i],
            start.locals.len() + params_upto(sigs, i).len(),
        ) by {
            assert(wrapped.redirected_function(base + i, map, module.funcs[base + i]));
            assert(placed(
                wrapped.types@,
                wrapped.funcs[start.funcs.len() + i],
                sigs[i],
                start.locals.len() + params_upto(sigs, i).len(),
            ));
        }
        assert forall|f: int| 0 <= f < start.funcs.len() implies start.redirected_function(
            f,
            map,
            #[trigger] module.funcs[f],
        ) by {
            assert(wrapped.funcs@.take(start.funcs.len() as int)[f] == wrapped.funcs@[f]);
            assert(wrapped.redirected_function(f, map, module.funcs[f]));
        }
        assert forall|i: int| 0 <= i < slowcalls@.len() implies is_slowcall_stub(
            &*module,
            #[trigger] module.funcs[base + i],
            i as nat,
            start.params_of(slowcalls@[i]),
            start.results_of(slowcalls@[i]),
            slowcalls@[i],
            slowcall_ctr,
        ) by {
            let w = base + i;
            let made = wrapped.funcs[w];
            assert(is_slowcall_stub(
                &wrapped,
                made,
                i as nat,
                start.params_of(slowcalls@[i]),
                start.results_of(slowcalls@[i]),
                slowcalls@[i],
                slowcall_ctr,
            ));
            assert(wrapped.redirected_function(w, map, module.funcs[w]));
            let local = made.kind->Local_0;
            let after = module.funcs[w].kind->Local_0;
            assert(slowcalls@.contains(slowcalls@[i]));
            assert(slowcalls@.index_of(slowcalls@[i]) == i);
            assert(map[slowcalls@[i]] == w);
            assert(after.body()[0] =~= local.body()[0]) by {
                let body = local.body()[0];
                assert forall|p: int| 0 <= p < body.len() implies redirected(body[p], map, w as usize) == body[p] by {
                    if p < 4 {
                    } else if p < 4 + local.args@.len() {
                        assert(body[p] == Instr::LocalGet { local: local.args@[p - 4] });
                    } else {
                        assert(body[p] == Instr::Call { func: slowcalls@[i] });
                    }
                }
            }
            assert(after.body().len() == after.seqs@.len());
            assert(local.body().len() == local.seqs@.len());
            assert(after.seqs[0]@ == after.body()[0]);
            assert(local.seqs[0]@ == local.body()[0]);
            assert(module.types == wrapped.types);
            assert(module.locals == wrapped.locals);
        }
    }
}

/// Recording one more wrapper extends the map of wrappers by it.
proof fn lemma_wrappers_push(slow: Seq<FuncId>, i: int, base: int)
    requires
        0 <= i < slow.len(),
        slow.no_duplicates(),
        0 <= base,
        base + i <= usize::MAX,
    ensures
        wrappers(slow.take(i), base).insert(slow[i], (base + i) as usize) == wrappers(
            slow.take(i + 1),
            base,
        ),
{
    let short = slow.take(i);
    let long = slow.take(i + 1);
    let left = wrappers(short, base).insert(slow[i], (base + i) as usize);
    let right = wrappers(long, base);
    assert forall|f: usize| left.contains_key(f) <==> right.contains_key(f) by {
        if short.contains(f) {
            let k = short.index_of(f);
            assert(long[k] == f);
        }
        if f == slow[i] {
            assert(long[i] == f);
        }
        if long.contains(f) {
            let k = long.index_of(f);
            if k < i {
                assert(short[k] == f);
            }
        }
    }
    assert forall|f: usize| left.contains_key(f) implies left[f] == right[f] by {
        let k = long.index_of(f);
        assert(long.contains(f));
        assert(long[k] == f);
        if f == slow[i] {
            assert(long[i] == f);
            assert(k == i);
        } else {
            assert(short.contains(f));
            let k0 = short.index_of(f);
            assert(long[k0] == f);
            assert(k0 == k);
        }
    }
    assert(left =~= right);
}

} // verus!
