//! The operand stack along straight-line code.
//!
//! Each instruction that moves values takes some from the top of the
//! operand stack and puts some there. The calls that the passes put in
//! place of others take and give what those took and gave, so code that
//! found the stack it needed before a rewrite finds it after; and a
//! wrapper, read from an empty stack, ends with the results of its
//! signature. Code that steers control is beyond what is modelled here.

use crate::instrument::{args_typed, forward};
use crate::ir::{FuncId, GlobalId, Instr, LocalId, Module, TableId, TypeId, ValType};
use crate::profilemap::MapValue;
use crate::rewrite::{instrument_seq, lemma_optimize_seq_at, lemma_optimize_seq_len, optimize_seq};
use crate::sites::indirect_count;
use crate::wrap::{count_call, redirect_seq, wrapper_body};
use vstd::prelude::*;

verus! {

/// What an instruction takes from the operand stack and what it puts
/// there, the top last.
pub struct Effect {
    pub takes: Seq<ValType>,
    pub gives: Seq<ValType>,
}

/// `stack` with `effect` applied, if its top is what the effect takes.
pub open spec fn apply(stack: Seq<ValType>, effect: Effect) -> Option<Seq<ValType>> {
    let rest = stack.len() - effect.takes.len();
    if rest >= 0 && stack.skip(rest) == effect.takes {
        Some(stack.take(rest) + effect.gives)
    } else {
        None
    }
}

impl Module {
    /// The effect of an instruction that moves values; none for one that
    /// steers control, sets a global that cannot be set, or stands for
    /// something that the passes do not look into.
    pub open spec fn effect(&self, instr: Instr) -> Option<Effect> {
        match instr {
            Instr::LocalGet { local } => Some(
                Effect { takes: Seq::empty(), gives: seq![self.locals[local as int]] },
            ),
            Instr::LocalSet { local } => Some(
                Effect { takes: seq![self.locals[local as int]], gives: Seq::empty() },
            ),
            Instr::GlobalGet { global } => Some(
                Effect { takes: Seq::empty(), gives: seq![self.globals[global as int].ty] },
            ),
            Instr::GlobalSet { global } => if self.globals[global as int].mutable {
                Some(Effect { takes: seq![self.globals[global as int].ty], gives: Seq::empty() })
            } else {
                None
            },
            Instr::Const { .. } => Some(Effect { takes: Seq::empty(), gives: seq![ValType::I32] }),
            Instr::Binop { .. } => Some(
                Effect { takes: seq![ValType::I32, ValType::I32], gives: seq![ValType::I32] },
            ),
            Instr::Call { func } => Some(
                Effect { takes: self.params_of(func), gives: self.results_of(func) },
            ),
            Instr::CallIndirect { ty, .. } => Some(
                Effect {
                    takes: self.types[ty as int].params@ + seq![ValType::I32],
                    gives: self.types[ty as int].results@,
                },
            ),
            _ => None,
        }
    }

    /// The stack after the instruction, if the instruction moves values
    /// and finds on the stack what it takes.
    pub open spec fn step(&self, stack: Seq<ValType>, instr: Instr) -> Option<Seq<ValType>> {
        match self.effect(instr) {
            Some(effect) => apply(stack, effect),
            None => None,
        }
    }

    /// The steps that the instructions take on the operand stack.
    pub open spec fn stepper(&self) -> spec_fn(Seq<ValType>, Instr) -> Option<Seq<ValType>> {
        |stack: Seq<ValType>, instr: Instr| self.step(stack, instr)
    }

    /// The stack after the instructions, one after another.
    pub open spec fn run(&self, stack: Seq<ValType>, instrs: Seq<Instr>) -> Option<Seq<ValType>> {
        run_by(self.stepper(), stack, instrs)
    }
}

/// The state after the instructions, each taking the step that `step`
/// gives it.
pub open spec fn run_by<S>(step: spec_fn(S, Instr) -> Option<S>, state: S, instrs: Seq<Instr>) -> Option<
    S,
>
    decreases instrs.len(),
{
    if instrs.len() == 0 {
        Some(state)
    } else {
        match run_by(step, state, instrs.drop_last()) {
            Some(before) => step(before, instrs.last()),
            None => None,
        }
    }
}

/// Running one instruction more is running what came before it and then
/// taking the step.
pub proof fn lemma_run_push(module: &Module, stack: Seq<ValType>, instrs: Seq<Instr>, instr: Instr)
    ensures
        module.run(stack, instrs.push(instr)) == match module.run(stack, instrs) {
            Some(before) => module.step(before, instr),
            None => None,
        },
{
    assert(instrs.push(instr).drop_last() =~= instrs);
}

/// Running two pieces of code is running the one and then the other.
pub proof fn lemma_run_join(module: &Module, stack: Seq<ValType>, a: Seq<Instr>, b: Seq<Instr>)
    ensures
        module.run(stack, a + b) == match module.run(stack, a) {
            Some(between) => module.run(between, b),
            None => None,
        },
    decreases b.len(),
{
    if b.len() == 0 {
        assert(a + b =~= a);
    } else {
        lemma_run_join(module, stack, a, b.drop_last());
        assert((a + b).drop_last() =~= a + b.drop_last());
    }
}

/// Where an indirect call stood, the site's index and the call of the stub
/// leave the stack as the indirect call left it: the stub takes what the
/// indirect call took and the index, and gives what it gave.
pub proof fn lemma_instrumented_site_typed(
    module: &Module,
    stack: Seq<ValType>,
    ty: TypeId,
    table: TableId,
    index: i32,
    stub: FuncId,
)
    requires
        module.params_of(stub) == module.types[ty as int].params@ + seq![ValType::I32, ValType::I32],
        module.results_of(stub) == module.types[ty as int].results@,
    ensures
        module.run(stack, seq![Instr::Const { value: index }, Instr::Call { func: stub }])
            == module.step(stack, Instr::CallIndirect { ty, table }),
{
    let params = module.types[ty as int].params@;
    let took = params + seq![ValType::I32];
    let rest = stack.len() - took.len();
    let pushed = stack + seq![ValType::I32];
    let site = seq![Instr::Const { value: index }];
    assert(module.run(stack, Seq::empty()) == Some(stack));
    lemma_run_push(module, stack, Seq::empty(), Instr::Const { value: index });
    assert(Seq::<Instr>::empty().push(Instr::Const { value: index }) =~= site);
    assert(stack.skip(stack.len() as int) =~= Seq::<ValType>::empty());
    assert(stack.take(stack.len() as int) =~= stack);
    assert(module.run(stack, site) == Some(pushed));
    lemma_run_push(module, stack, site, Instr::Call { func: stub });
    assert(site.push(Instr::Call { func: stub }) =~= seq![
        Instr::Const { value: index },
        Instr::Call { func: stub },
    ]);
    assert(took + seq![ValType::I32] =~= params + seq![ValType::I32, ValType::I32]);
    if rest >= 0 {
        assert(pushed.skip(rest) =~= stack.skip(rest) + seq![ValType::I32]);
        assert(pushed.take(rest) =~= stack.take(rest));
        if pushed.skip(rest) == took + seq![ValType::I32] {
            assert(stack.skip(rest) =~= pushed.skip(rest).drop_last());
            assert((took + seq![ValType::I32]).drop_last() =~= took);
        }
    }
}

/// By `step`, the index of a site and the call of the stub do together
/// what the indirect call does that they stand for.
pub open spec fn site_alike<S>(
    step: spec_fn(S, Instr) -> Option<S>,
    stubs: Map<usize, FuncId>,
    state: S,
    call: Instr,
    index: i32,
) -> bool {
    step(state, call) == match step(state, Instr::Const { value: index }) {
        Some(between) => step(between, Instr::Call { func: stubs[call->CallIndirect_ty] }),
        None => None,
    }
}

/// At every site among `instrs`, whatever the state and the index.
pub open spec fn sites_alike<S>(
    step: spec_fn(S, Instr) -> Option<S>,
    stubs: Map<usize, FuncId>,
    instrs: Seq<Instr>,
) -> bool {
    forall|state: S, p: int, index: i32|
        0 <= p < instrs.len() && instrs[p] is CallIndirect ==> #[trigger] site_alike(
            step,
            stubs,
            state,
            instrs[p],
            index,
        )
}

/// Whatever the instructions do step by step: if at every site the index
/// and the call of the stub do together what the indirect call did, the
/// instrumented sequence does what the sequence did.
pub proof fn lemma_instrumented_runs_alike<S>(
    step: spec_fn(S, Instr) -> Option<S>,
    state: S,
    instrs: Seq<Instr>,
    base: int,
    stubs: Map<usize, FuncId>,
)
    requires
        sites_alike(step, stubs, instrs),
    ensures
        run_by(step, state, instrument_seq(instrs, base, stubs)) == run_by(step, state, instrs),
    decreases instrs.len(),
{
    if instrs.len() != 0 {
        let front = instrs.drop_last();
        let done = instrument_seq(front, base, stubs);
        assert forall|state: S, p: int, index: i32|
            0 <= p < front.len() && front[p] is CallIndirect implies #[trigger] site_alike(
            step,
            stubs,
            state,
            front[p],
            index,
        ) by {
            assert(site_alike(step, stubs, state, instrs[p], index));
        }
        lemma_instrumented_runs_alike(step, state, front, base, stubs);
        match instrs.last() {
            Instr::CallIndirect { ty, table } => {
                let index = Instr::Const { value: (base + indirect_count(front)) as i32 };
                let call = Instr::Call { func: stubs[ty] };
                let mid = done.push(index);
                let out = mid.push(call);
                assert(out.drop_last() =~= mid);
                assert(mid.drop_last() =~= done);
                assert(run_by(step, state, mid) == match run_by(step, state, done) {
                    Some(before) => step(before, index),
                    None => None,
                });
                assert(run_by(step, state, out) == match run_by(step, state, mid) {
                    Some(between) => step(between, call),
                    None => None,
                });
                match run_by(step, state, done) {
                    Some(before) => {
                        assert(site_alike(
                            step,
                            stubs,
                            before,
                            instrs[instrs.len() - 1],
                            (base + indirect_count(front)) as i32,
                        ));
                    },
                    None => {},
                }
            },
            other => {
                assert(done.push(other).drop_last() =~= done);
            },
        }
    }
}

/// Where an indirect call stood, the call of a function that takes what
/// the indirect call took and gives what it gave leaves the stack as the
/// indirect call left it. Such is the stub of a site whose callees have
/// the signature that the site calls through.
pub proof fn lemma_optimized_site_typed(
    module: &Module,
    stack: Seq<ValType>,
    ty: TypeId,
    table: TableId,
    stub: FuncId,
)
    requires
        module.params_of(stub) == module.types[ty as int].params@ + seq![ValType::I32],
        module.results_of(stub) == module.types[ty as int].results@,
    ensures
        module.step(stack, Instr::Call { func: stub }) == module.step(
            stack,
            Instr::CallIndirect { ty, table },
        ),
{
}

/// The call of a wrapper leaves the stack as the call of the function it
/// wraps: the two have the same signature.
pub proof fn lemma_redirected_call_typed(
    module: &Module,
    stack: Seq<ValType>,
    target: FuncId,
    wrapper: FuncId,
)
    requires
        module.params_of(wrapper) == module.params_of(target),
        module.results_of(wrapper) == module.results_of(target),
    ensures
        module.step(stack, Instr::Call { func: wrapper }) == module.step(
            stack,
            Instr::Call { func: target },
        ),
{
}

/// Loading the first `n` arguments puts their types on the stack.
pub proof fn lemma_forward_typed(
    module: &Module,
    stack: Seq<ValType>,
    args: Seq<LocalId>,
    params: Seq<ValType>,
    n: int,
)
    requires
        args_typed(module.locals@, args, params),
        0 <= n <= args.len(),
    ensures
        module.run(stack, forward(args, n)) == Some(stack + params.take(n)),
    decreases n,
{
    if n == 0 {
        assert(forward(args, 0) =~= Seq::<Instr>::empty());
        assert(stack + params.take(0) =~= stack);
    } else {
        lemma_forward_typed(module, stack, args, params, n - 1);
        let before = stack + params.take(n - 1);
        let load = Instr::LocalGet { local: args[n - 1] };
        assert(forward(args, n) =~= forward(args, n - 1).push(load));
        lemma_run_push(module, stack, forward(args, n - 1), load);
        assert(before.skip(before.len() as int) =~= Seq::<ValType>::empty());
        assert(before.take(before.len() as int) =~= before);
        assert(before + seq![params[n - 1]] =~= stack + params.take(n));
    }
}

/// Counting a call leaves the stack as it was.
pub proof fn lemma_count_call_typed(module: &Module, stack: Seq<ValType>, counter: GlobalId)
    requires
        module.globals[counter as int].ty == ValType::I32,
        module.globals[counter as int].mutable,
    ensures
        module.run(stack, count_call(counter)) == Some(stack),
{
    let get = Instr::GlobalGet { global: counter };
    let one = Instr::Const { value: 1 };
    let add = Instr::Binop { op: crate::ir::BinaryOp::I32Add };
    let set = Instr::GlobalSet { global: counter };
    let s1 = stack + seq![ValType::I32];
    let s2 = s1 + seq![ValType::I32];
    assert(module.run(stack, Seq::empty()) == Some(stack));
    lemma_run_push(module, stack, Seq::empty(), get);
    assert(stack.skip(stack.len() as int) =~= Seq::<ValType>::empty());
    assert(stack.take(stack.len() as int) =~= stack);
    assert(Seq::<Instr>::empty().push(get) =~= seq![get]);
    assert(module.run(stack, seq![get]) == Some(s1));
    lemma_run_push(module, stack, seq![get], one);
    assert(s1.skip(s1.len() as int) =~= Seq::<ValType>::empty());
    assert(s1.take(s1.len() as int) =~= s1);
    assert(seq![get].push(one) =~= seq![get, one]);
    assert(module.run(stack, seq![get, one]) == Some(s2));
    lemma_run_push(module, stack, seq![get, one], add);
    assert(s2.skip(s2.len() - 2) =~= seq![ValType::I32, ValType::I32]);
    assert(s2.take(s2.len() - 2) + seq![ValType::I32] =~= s1);
    assert(seq![get, one].push(add) =~= seq![get, one, add]);
    assert(module.run(stack, seq![get, one, add]) == Some(s1));
    lemma_run_push(module, stack, seq![get, one, add], set);
    assert(s1.skip(s1.len() - 1) =~= seq![ValType::I32]);
    assert(s1.take(s1.len() - 1) + Seq::<ValType>::empty() =~= stack);
    assert(seq![get, one, add].push(set) =~= count_call(counter));
}

/// A wrapper, read from an empty stack, ends with the results of its
/// signature: it counts the call, loads its arguments, and calls the
/// function it wraps, which takes them and gives those results.
pub proof fn lemma_wrapper_typed(
    module: &Module,
    args: Seq<LocalId>,
    target: FuncId,
    counter: GlobalId,
)
    requires
        args_typed(module.locals@, args, module.params_of(target)),
        module.globals[counter as int].ty == ValType::I32,
        module.globals[counter as int].mutable,
    ensures
        module.run(Seq::empty(), wrapper_body(args, target, counter)) == Some(
            module.results_of(target),
        ),
{
    let params = module.params_of(target);
    let empty = Seq::<ValType>::empty();
    let loads = forward(args, args.len() as int);
    let call = Instr::Call { func: target };
    lemma_count_call_typed(module, empty, counter);
    lemma_forward_typed(module, empty, args, params, args.len() as int);
    assert(params.take(args.len() as int) =~= params);
    assert(empty + params =~= params);
    lemma_run_push(module, empty, loads, call);
    assert(params.skip(0) =~= params);
    assert(params.take(0) + module.results_of(target) =~= module.results_of(target));
    lemma_run_join(module, empty, count_call(counter), loads.push(call));
}

/// The call-through of a stub, read from an empty stack, ends with the
/// results of the signature it calls through: it loads its arguments but
/// the last, and the indirect call takes them, the slot on top.
pub proof fn lemma_call_through_typed(
    module: &Module,
    args: Seq<LocalId>,
    ty: TypeId,
    table: TableId,
)
    requires
        args_typed(
            module.locals@,
            args,
            module.types[ty as int].params@ + seq![ValType::I32, ValType::I32],
        ),
    ensures
        module.run(
            Seq::empty(),
            forward(args, args.len() - 1).push(Instr::CallIndirect { ty, table }),
        ) == Some(module.types[ty as int].results@),
{
    let params = module.types[ty as int].params@;
    let taken = params + seq![ValType::I32, ValType::I32];
    let empty = Seq::<ValType>::empty();
    let loads = forward(args, args.len() - 1);
    lemma_forward_typed(module, empty, args, taken, args.len() - 1);
    let loaded = empty + taken.take(args.len() - 1);
    assert(loaded =~= params + seq![ValType::I32]);
    lemma_run_push(module, empty, loads, Instr::CallIndirect { ty, table });
    assert(loaded.skip(0) =~= loaded);
    assert(loaded.take(0) + module.types[ty as int].results@ =~= module.types[ty as int].results@);
}

/// Two sequences of the same length, each of whose instructions takes the
/// step that its counterpart takes, do the same.
pub proof fn lemma_runs_alike<S>(
    step: spec_fn(S, Instr) -> Option<S>,
    state: S,
    a: Seq<Instr>,
    b: Seq<Instr>,
)
    requires
        a.len() == b.len(),
        forall|at: S, p: int| 0 <= p < a.len() ==> #[trigger] step(at, a[p]) == step(at, b[p]),
    ensures
        run_by(step, state, a) == run_by(step, state, b),
    decreases a.len(),
{
    if a.len() != 0 {
        let front = a.drop_last();
        let other = b.drop_last();
        assert forall|at: S, p: int| 0 <= p < front.len() implies #[trigger] step(at, front[p])
            == step(at, other[p]) by {
            assert(step(at, a[p]) == step(at, b[p]));
        }
        lemma_runs_alike(step, state, front, other);
        match run_by(step, state, front) {
            Some(before) => {
                assert(step(before, a[a.len() - 1]) == step(before, b[a.len() - 1]));
            },
            None => {},
        }
    }
}

/// Optimizing straight-line code leaves the stack after it as it was,
/// given that every site in it is kept or calls a function that takes what
/// the indirect call took and gives what it gave.
pub proof fn lemma_optimized_typed(
    module: &Module,
    stack: Seq<ValType>,
    instrs: Seq<Instr>,
    base: int,
    decisions: Map<usize, MapValue>,
)
    requires
        forall|p: int|
            0 <= p < instrs.len() ==> match #[trigger] instrs[p] {
                Instr::CallIndirect { ty, .. } => match decisions[(base + indirect_count(
                    instrs.take(p),
                )) as usize] {
                    MapValue::Direct(callees) => {
                        &&& module.params_of(callees@[0]) == module.types[ty as int].params@ + seq![
                            ValType::I32,
                        ]
                        &&& module.results_of(callees@[0]) == module.types[ty as int].results@
                    },
                    MapValue::Retain => true,
                    MapValue::Unreachable => false,
                },
                _ => true,
            },
    ensures
        module.run(stack, optimize_seq(instrs, base, decisions)) == module.run(stack, instrs),
{
    let step = module.stepper();
    let out = optimize_seq(instrs, base, decisions);
    lemma_optimize_seq_len(instrs, base, decisions);
    assert forall|at: Seq<ValType>, p: int| 0 <= p < out.len() implies #[trigger] step(at, out[p])
        == step(at, instrs[p]) by {
        lemma_optimize_seq_at(instrs, base, decisions, p);
        match instrs[p] {
            Instr::CallIndirect { ty, table } => {
                match decisions[(base + indirect_count(instrs.take(p))) as usize] {
                    MapValue::Direct(callees) => {
                        lemma_optimized_site_typed(module, at, ty, table, callees@[0]);
                    },
                    _ => {},
                }
            },
            _ => {},
        }
    }
    lemma_runs_alike(step, stack, out, instrs);
}

/// Redirecting the calls of straight-line code leaves the stack after it
/// as it was, given that each wrapper has the signature of the function it
/// wraps.
pub proof fn lemma_redirected_typed(
    module: &Module,
    stack: Seq<ValType>,
    instrs: Seq<Instr>,
    mapping: Map<usize, FuncId>,
    current: FuncId,
)
    requires
        forall|f: FuncId| #[trigger]
            mapping.contains_key(f) ==> module.params_of(mapping[f]) == module.params_of(f)
                && module.results_of(mapping[f]) == module.results_of(f),
    ensures
        module.run(stack, redirect_seq(instrs, mapping, current)) == module.run(stack, instrs),
{
    let step = module.stepper();
    let out = redirect_seq(instrs, mapping, current);
    assert forall|at: Seq<ValType>, p: int| 0 <= p < out.len() implies #[trigger] step(at, out[p])
        == step(at, instrs[p]) by {
        match instrs[p] {
            Instr::Call { func } => {
                if mapping.contains_key(func) {
                    lemma_redirected_call_typed(module, at, func, mapping[func]);
                }
            },
            _ => {},
        }
    }
    lemma_runs_alike(step, stack, out, instrs);
}

/// Instrumenting straight-line code leaves the stack after it as it was,
/// given that each stub takes what the indirect calls through its
/// signature take and the index, and gives what they give.
pub proof fn lemma_instrumented_typed(
    module: &Module,
    stack: Seq<ValType>,
    instrs: Seq<Instr>,
    base: int,
    stubs: Map<usize, FuncId>,
)
    requires
        forall|p: int|
            0 <= p < instrs.len() ==> match #[trigger] instrs[p] {
                Instr::CallIndirect { ty, .. } => {
                    &&& module.params_of(stubs[ty]) == module.types[ty as int].params@ + seq![
                        ValType::I32,
                        ValType::I32,
                    ]
                    &&& module.results_of(stubs[ty]) == module.types[ty as int].results@
                },
                _ => true,
            },
    ensures
        module.run(stack, instrument_seq(instrs, base, stubs)) == module.run(stack, instrs),
{
    let step = module.stepper();
    assert forall|state: Seq<ValType>, p: int, index: i32|
        0 <= p < instrs.len() && instrs[p] is CallIndirect implies #[trigger] site_alike(
        step,
        stubs,
        state,
        instrs[p],
        index,
    ) by {
        let ty = instrs[p]->CallIndirect_ty;
        let table = instrs[p]->CallIndirect_table;
        let stub = stubs[ty];
        lemma_instrumented_site_typed(module, state, ty, table, index, stub);
        let site = seq![Instr::Const { value: index }, Instr::Call { func: stub }];
        assert(site.drop_last() =~= seq![Instr::Const { value: index }]);
        assert(seq![Instr::Const { value: index }].drop_last() =~= Seq::<Instr>::empty());
        assert(run_by(step, state, Seq::empty()) == Some(state));
        assert(run_by(step, state, seq![Instr::Const { value: index }]) == step(
            state,
            Instr::Const { value: index },
        ));
    }
    lemma_instrumented_runs_alike(step, stack, instrs, base, stubs);
}

} // verus!
