//! Synthesis of the stubs that stand between a call site and its callee.
//!
//! When instrumenting, one stub is made for each pair of signature and
//! table through which the module calls indirectly. It takes the
//! parameters of the signature and two more: the slot to call through and
//! the index of the site that calls. Its body hands everything but the
//! site index on to a `call_indirect`.
//!
//! When optimizing, one stub is made for each site that the profile sends
//! to known callees. It takes the parameters of the callees and the slot
//! that the site would have called through, calls the callee recorded for
//! that slot, and traps on any other slot.

use crate::calltypes::CallType;
use crate::error::Error;
use crate::grow::{
    find_type, lemma_grown_refl, lemma_grown_trans, lemma_with_function,
    lemma_with_functions_more, lemma_with_no_function, Sig,
};
use crate::idmap::IdMap;
use crate::ir::{
    body_view, copy_types, BinaryOp, FuncId, Function, FunctionKind, Instr, LocalFunction, LocalId, Module,
    Signature, TypeId, ValType,
};
use crate::names::{decimal, numbered};
use crate::profilemap::{observed_slots, MapValue, Profile};
use vstd::prelude::*;

verus! {

/// The instructions that load the first `n` of `args`.
pub open spec fn forward(args: Seq<LocalId>, n: int) -> Seq<Instr> {
    Seq::new(n as nat, |j: int| Instr::LocalGet { local: args[j] })
}

/// `args` are locals of the module, of the types `params`, each its own.
pub open spec fn args_typed(locals: Seq<ValType>, args: Seq<LocalId>, params: Seq<ValType>) -> bool {
    &&& args.len() == params.len()
    &&& args.no_duplicates()
    &&& forall|j: int|
        0 <= j < args.len() ==> (#[trigger] args[j]) < locals.len() && locals[args[j] as int]
            == params[j]
}

/// `func` is the stub numbered `index` for indirect calls through `ty` and
/// `table`, whose signature has the given parameters and results: it takes
/// two more 32-bit integers, returns the same, and calls through with all
/// arguments but the last.
pub open spec fn is_indirect_stub(
    module: &Module,
    func: Function,
    index: nat,
    params: Seq<ValType>,
    results: Seq<ValType>,
    ty: TypeId,
    table: usize,
) -> bool {
    &&& func.name is Some
    &&& func.name->0@ == "indirect_stub_"@ + decimal(index)
    &&& func.kind is Local
    &&& {
        let local = func.kind->Local_0;
        &&& local.ty < module.types.len()
        &&& module.types[local.ty as int].params@ == params + seq![ValType::I32, ValType::I32]
        &&& module.types[local.ty as int].results@ == results
        &&& args_typed(module.locals@, local.args@, params + seq![ValType::I32, ValType::I32])
        &&& local.entry == 0
        &&& local.seqs@.len() == 1
        &&& local.seqs[0]@ == forward(local.args@, local.args@.len() - 1).push(
            Instr::CallIndirect { ty, table },
        )
    }
}

/// The stub map after stubs numbered from `base` have been recorded for
/// the first `n` pairs, a later pair of the same signature taking the place
/// of an earlier one.
pub open spec fn stubbed(map: Map<usize, FuncId>, pairs: Seq<CallType>, base: int, n: int) -> Map<
    usize,
    FuncId,
>
    decreases n,
{
    if n <= 0 {
        map
    } else {
        stubbed(map, pairs, base, n - 1).insert(pairs[n - 1].0, (base + n - 1) as usize)
    }
}

/// None of the first `n` pairs is of the signature `ty`.
pub open spec fn no_pair_through(pairs: Seq<CallType>, n: int, ty: TypeId) -> bool {
    forall|i: int| 0 <= i < n ==> (#[trigger] pairs[i]).0 != ty
}

/// Each pair has its stub recorded, and what is recorded for a pair is one
/// of the stubs made.
pub proof fn lemma_stubbed(map: Map<usize, FuncId>, pairs: Seq<CallType>, base: int, n: int)
    requires
        0 <= n <= pairs.len(),
        0 <= base,
        base + n <= usize::MAX,
    ensures
        forall|i: int|
            0 <= i < n ==> stubbed(map, pairs, base, n).contains_key((#[trigger] pairs[i]).0) && base
                <= stubbed(map, pairs, base, n)[pairs[i].0] < base + n,
        forall|ty: usize| #[trigger]
            stubbed(map, pairs, base, n).contains_key(ty) ==> map.contains_key(ty) || exists|i: int|
                0 <= i < n && (#[trigger] pairs[i]).0 == ty,
        forall|ty: usize|
            map.contains_key(ty) && #[trigger] no_pair_through(pairs, n, ty) ==> stubbed(
                map,
                pairs,
                base,
                n,
            ).contains_key(ty) && stubbed(map, pairs, base, n)[ty] == map[ty],
    decreases n,
{
    if n > 0 {
        lemma_stubbed(map, pairs, base, n - 1);
        let before = stubbed(map, pairs, base, n - 1);
        let now = stubbed(map, pairs, base, n);
        assert forall|ty: usize| #[trigger] now.contains_key(ty) implies map.contains_key(ty)
            || exists|i: int| 0 <= i < n && (#[trigger] pairs[i]).0 == ty by {
            if ty == pairs[n - 1].0 {
                assert(pairs[n - 1].0 == ty);
            } else {
                assert(before.contains_key(ty));
                if !map.contains_key(ty) {
                    let i = choose|i: int| 0 <= i < n - 1 && (#[trigger] pairs[i]).0 == ty;
                    assert(pairs[i].0 == ty);
                }
            }
        }
        assert forall|ty: usize|
            map.contains_key(ty) && #[trigger] no_pair_through(pairs, n, ty) implies now.contains_key(
            ty,
        ) && now[ty] == map[ty] by {
            assert(pairs[n - 1].0 != ty);
            assert(no_pair_through(pairs, n - 1, ty));
        }
    }
}

/// The signature of some pair is not the first of its kind in the module.
pub open spec fn type_mismatch(types: Seq<Signature>, pairs: Seq<CallType>) -> bool {
    exists|i: int|
        0 <= i < pairs.len() && find_type(
            types,
            types[(#[trigger] pairs[i]).0 as int].params@,
            types[pairs[i].0 as int].results@,
            0,
        ) != Some(pairs[i].0)
}

/// The signatures of the stubs for `pairs`: that of the pair with two more
/// 32-bit integers to take.
pub open spec fn indirect_sigs(types: Seq<Signature>, pairs: Seq<CallType>) -> Seq<Sig> {
    Seq::new(
        pairs.len(),
        |i: int|
            (
                types[pairs[i].0 as int].params@ + seq![ValType::I32, ValType::I32],
                types[pairs[i].0 as int].results@,
            ),
    )
}

/// Every pair names a signature and a table that exist.
pub open spec fn pairs_valid(module: &Module, pairs: Seq<CallType>) -> bool {
    forall|i: int|
        0 <= i < pairs.len() ==> (#[trigger] pairs[i]).0 < module.types.len() && pairs[i].1
            < module.tables.len()
}

/// The body of a stub for indirect calls: the arguments but the last, then
/// the call.
fn indirect_stub_body(args: &Vec<LocalId>, ty: TypeId, table: usize) -> (body: Vec<Instr>)
    requires
        args@.len() >= 1,
    ensures
        body@ == forward(args@, args@.len() - 1).push(Instr::CallIndirect { ty, table }),
{
    let mut body: Vec<Instr> = Vec::new();
    let n = args.len() - 1;
    let mut j: usize = 0;
    while j < n
        invariant
            j <= n,
            n == args@.len() - 1,
            body@ == forward(args@, j as int),
        decreases n - j,
    {
        body.push(Instr::LocalGet { local: args[j] });
        assert(body@ =~= forward(args@, j + 1));
        j += 1;
    }
    body.push(Instr::CallIndirect { ty, table });
    body
}

/// Makes the stub numbered `index` for the pair and adds it to the module.
fn add_indirect_stub(module: &mut Module, index: usize, ty: TypeId, table: usize) -> (stub: FuncId)
    requires
        old(module).wf(),
        ty < old(module).types.len(),
        table < old(module).tables.len(),
    ensures
        final(module).wf(),
        final(module).grown_from(old(module)),
        final(module).globals == old(module).globals,
        final(module).exports == old(module).exports,
        stub == old(module).funcs.len(),
        final(module).funcs.len() == old(module).funcs.len() + 1,
        is_indirect_stub(
            final(module),
            final(module).funcs[stub as int],
            index as nat,
            old(module).types[ty as int].params@,
            old(module).types[ty as int].results@,
            ty,
            table,
        ),
        final(module).with_functions(
            old(module),
            seq![
                (
                    old(module).types[ty as int].params@ + seq![ValType::I32, ValType::I32],
                    old(module).types[ty as int].results@,
                ),
            ],
        ),
{
    let ghost start = *module;
    let mut params = copy_types(&module.types[ty].params);
    let results = copy_types(&module.types[ty].results);
    params.push(ValType::I32);
    params.push(ValType::I32);
    assert(params@ =~= start.types[ty as int].params@ + seq![ValType::I32, ValType::I32]);
    let own = copy_types(&params);
    let stub_ty = module.add_type(own, results);
    let ghost typed = *module;
    let args = module.add_locals(&params);
    let ghost ready = *module;
    let body = indirect_stub_body(&args, ty, table);
    let name = numbered("indirect_stub_", index);
    let mut seqs: Vec<Vec<Instr>> = Vec::new();
    seqs.push(body);
    let func = Function {
        name: Some(name),
        kind: FunctionKind::Local(LocalFunction { ty: stub_ty, args, entry: 0, seqs }),
    };
    proof {
        lemma_grown_trans(&start, &typed, &ready);
        let local = func.kind->Local_0;
        let b = (crate::ir::Bounds { funcs: (ready.funcs.len() + 1) as nat, ..ready.bounds() });
        assert(crate::ir::seq_wf(local.seqs[0]@, b.with_seqs(1))) by {
            assert forall|i: int| 0 <= i < local.seqs[0]@.len() implies (#[trigger] local.seqs[0]@[i]).wf(
                b.with_seqs(1),
            ) by {
                if i < local.args@.len() - 1 {
                    assert(local.seqs[0]@[i] == Instr::LocalGet { local: local.args@[i] });
                }
            }
        }
        assert(typed.types@.take(start.types.len() as int) == start.types@);
        assert(ready.types[stub_ty as int] == typed.types[stub_ty as int]);
        assert(args_typed(ready.locals@, local.args@, params@)) by {
            assert forall|i: int, j: int|
                0 <= i < local.args@.len() && 0 <= j < local.args@.len() && i != j implies local.args@[i]
                != local.args@[j] by {}
        }
    }
    let stub = module.add_function(func);
    proof {
        lemma_grown_trans(&start, &ready, &*module);
        assert(module.locals@ == ready.locals@);
        assert(module.types@ == ready.types@);
        let sig = (params@, results@);
        assert(func.kind->Local_0.args@ =~= Seq::new(
            params@.len(),
            |j: int| (start.locals.len() + j) as usize,
        ));
        lemma_with_function(&start, &*module, sig);
    }
    stub
}

/// Makes one stub for each pair, in order, and records for each signature
/// the stub to call.
///
/// Fails, with nothing changed, if the signature of a pair is not the
/// first of its parameters and results in the module.
pub fn instrument_stubs(module: &mut Module, pairs: &Vec<CallType>, stubs: &mut IdMap<FuncId>) -> (r:
    Result<(), Error>)
    requires
        old(module).wf(),
        pairs_valid(old(module), pairs@),
    ensures
        match r {
            Ok(()) => {
                &&& !type_mismatch(old(module).types@, pairs@)
                &&& final(module).wf()
                &&& final(module).grown_from(old(module))
                &&& final(module).globals == old(module).globals
                &&& final(module).exports == old(module).exports
                &&& final(module).funcs.len() == old(module).funcs.len() + pairs@.len()
                &&& forall|i: int|
                    0 <= i < pairs@.len() ==> is_indirect_stub(
                        final(module),
                        #[trigger] final(module).funcs[old(module).funcs.len() + i],
                        i as nat,
                        old(module).types[pairs@[i].0 as int].params@,
                        old(module).types[pairs@[i].0 as int].results@,
                        pairs@[i].0,
                        pairs@[i].1,
                    )
                &&& final(stubs)@ == stubbed(
                    old(stubs)@,
                    pairs@,
                    old(module).funcs.len() as int,
                    pairs@.len() as int,
                )
                &&& final(module).with_functions(
                    old(module),
                    indirect_sigs(old(module).types@, pairs@),
                )
            },
            Err(e) => {
                &&& e == Error::TypeMismatch
                &&& type_mismatch(old(module).types@, pairs@)
                &&& *final(module) == *old(module)
                &&& final(stubs)@ == old(stubs)@
            },
        },
{
    let ghost start = *module;
    let mut i: usize = 0;
    while i < pairs.len()
        invariant
            i <= pairs@.len(),
            *module == start,
            pairs_valid(&start, pairs@),
            forall|j: int|
                0 <= j < i ==> find_type(
                    start.types@,
                    start.types[(#[trigger] pairs@[j]).0 as int].params@,
                    start.types[pairs@[j].0 as int].results@,
                    0,
                ) == Some(pairs@[j].0),
        decreases pairs@.len() - i,
    {
        let ty = pairs[i].0;
        let found = module.find_type(&module.types[ty].params, &module.types[ty].results);
        if found != Some(ty) {
            return Err(Error::TypeMismatch);
        }
        i += 1;
    }
    let base = module.funcs.len();
    let mut i: usize = 0;
    proof {
        lemma_grown_refl(&start);
        assert(indirect_sigs(start.types@, pairs@.take(0)) =~= Seq::<Sig>::empty());
        lemma_with_no_function(&start);
    }
    while i < pairs.len()
        invariant
            i <= pairs@.len(),
            start == *old(module),
            base == start.funcs.len(),
            module.with_functions(&start, indirect_sigs(start.types@, pairs@.take(i as int))),
            start.wf(),
            pairs_valid(&start, pairs@),
            !type_mismatch(start.types@, pairs@),
            module.wf(),
            module.grown_from(&start),
            module.globals == start.globals,
            module.exports == start.exports,
            module.funcs.len() == base + i,
            forall|j: int|
                0 <= j < i ==> is_indirect_stub(
                    &*module,
                    #[trigger] module.funcs[base + j],
                    j as nat,
                    start.types[pairs@[j].0 as int].params@,
                    start.types[pairs@[j].0 as int].results@,
                    pairs@[j].0,
                    pairs@[j].1,
                ),
            stubs@ == stubbed(old(stubs)@, pairs@, base as int, i as int),
        decreases pairs@.len() - i,
    {
        let ty = pairs[i].0;
        let table = pairs[i].1;
        let ghost before = *module;
        assert(before.types@.take(start.types.len() as int) == start.types@);
        assert(before.types[ty as int] == start.types[ty as int]) by {
            assert(before.types@.take(start.types.len() as int)[ty as int] == before.types@[ty as int]);
        }
        let stub = add_indirect_stub(module, i, ty, table);
        stubs.insert(ty, stub);
        proof {
            lemma_grown_trans(&start, &before, &*module);
            let had = indirect_sigs(start.types@, pairs@.take(i as int));
            let sig = (
                start.types[ty as int].params@ + seq![ValType::I32, ValType::I32],
                start.types[ty as int].results@,
            );
            lemma_with_functions_more(&start, &before, &*module, had, seq![sig]);
            assert(had + seq![sig] =~= indirect_sigs(start.types@, pairs@.take(i + 1)));
            assert forall|j: int| 0 <= j < i + 1 implies is_indirect_stub(
                &*module,
                #[trigger] module.funcs[base + j],
                j as nat,
                start.types[pairs@[j].0 as int].params@,
                start.types[pairs@[j].0 as int].results@,
                pairs@[j].0,
                pairs@[j].1,
            ) by {
                if j < i {
                    assert(module.funcs@.take(before.funcs.len() as int)[base + j]
                        == before.funcs@[base + j]);
                    lemma_indirect_stub_stays(
                        &before,
                        &*module,
                        before.funcs[base + j],
                        j as nat,
                        start.types[pairs@[j].0 as int].params@,
                        start.types[pairs@[j].0 as int].results@,
                        pairs@[j].0,
                        pairs@[j].1,
                    );
                }
            }
        }
        i += 1;
    }
    assert(pairs@.take(pairs@.len() as int) =~= pairs@);
    Ok(())
}

/// A stub stays the stub it is when the module grows.
pub proof fn lemma_indirect_stub_stays(
    before: &Module,
    after: &Module,
    func: Function,
    index: nat,
    params: Seq<ValType>,
    results: Seq<ValType>,
    ty: TypeId,
    table: usize,
)
    requires
        after.grown_from(before),
        is_indirect_stub(before, func, index, params, results, ty, table),
    ensures
        is_indirect_stub(after, func, index, params, results, ty, table),
{
    let local = func.kind->Local_0;
    assert(after.types@.take(before.types.len() as int)[local.ty as int] == after.types@[local.ty as int]);
    assert forall|j: int| 0 <= j < local.args@.len() implies (#[trigger] local.args@[j])
        < after.locals.len() && after.locals[local.args@[j] as int] == (params + seq![
        ValType::I32,
        ValType::I32,
    ])[j] by {
        let a = local.args@[j] as int;
        assert(after.locals@.take(before.locals.len() as int)[a] == after.locals@[a]);
    }
}

/// The compare-and-branch that guards the call of one callee.
pub open spec fn guard_seq(target: i32, selector: LocalId, then: int, otherwise: int) -> Seq<Instr> {
    seq![
        Instr::Const { value: target },
        Instr::LocalGet { local: selector },
        Instr::Binop { op: BinaryOp::I32Eq },
        Instr::IfElse { consequent: then as usize, alternative: otherwise as usize },
    ]
}

/// The call of one callee with the arguments handed on, and the return.
pub open spec fn call_seq(args: Seq<LocalId>, callee: FuncId) -> Seq<Instr> {
    forward(args, args.len() - 1).push(Instr::Call { func: callee }).push(Instr::Return)
}

/// The three sequences made for callee `j` are in place.
pub open spec fn guard_in_place(
    seqs: Seq<Seq<Instr>>,
    args: Seq<LocalId>,
    callees: Seq<FuncId>,
    targets: Seq<i32>,
    j: int,
) -> bool {
    &&& seqs[1 + 3 * j] == guard_seq(targets[j], args.last(), 2 + 3 * j, 3 + 3 * j)
    &&& seqs[2 + 3 * j] == call_seq(args, callees[j])
    &&& seqs[3 + 3 * j] == Seq::<Instr>::empty()
}

/// The sequences made for each of the first `m` callees are in place.
pub open spec fn guards_in_place(
    seqs: Seq<Seq<Instr>>,
    args: Seq<LocalId>,
    callees: Seq<FuncId>,
    targets: Seq<i32>,
    m: int,
) -> bool {
    forall|j: int| 0 <= j < m ==> #[trigger] guard_in_place(seqs, args, callees, targets, j)
}

/// The sequences of a stub specialized for `callees`, which the profile
/// saw called through the slots `targets`.
///
/// The entry sequence holds one block per callee, the block of the last
/// callee first, and then traps. The block of a callee compares its slot
/// with the last argument; if they are equal, it hands the other arguments
/// to the callee and returns what the callee returned.
pub open spec fn is_specialized_body(
    seqs: Seq<Seq<Instr>>,
    args: Seq<LocalId>,
    callees: Seq<FuncId>,
    targets: Seq<i32>,
) -> bool {
    let m = callees.len() as int;
    &&& seqs.len() == 1 + 3 * m
    &&& seqs[0] == Seq::new(m as nat, |i: int| Instr::Block { seq: (1 + 3 * (m - 1 - i)) as usize }).push(
        Instr::Unreachable,
    )
    &&& guards_in_place(seqs, args, callees, targets, m)
}

/// `func` is the stub numbered `index` that stands for a site calling
/// `callees`, whose signature has the given parameters and results: it
/// takes one more 32-bit integer, the slot, and returns the same.
pub open spec fn is_specialized_stub(
    module: &Module,
    func: Function,
    index: nat,
    params: Seq<ValType>,
    results: Seq<ValType>,
    callees: Seq<FuncId>,
    targets: Seq<i32>,
) -> bool {
    &&& func.name is Some
    &&& func.name->0@ == "indirect_call_stub_"@ + decimal(index)
    &&& func.kind is Local
    &&& {
        let local = func.kind->Local_0;
        &&& local.ty < module.types.len()
        &&& module.types[local.ty as int].params@ == params + seq![ValType::I32]
        &&& module.types[local.ty as int].results@ == results
        &&& args_typed(module.locals@, local.args@, params + seq![ValType::I32])
        &&& local.entry == 0
        &&& is_specialized_body(local.body(), local.args@, callees, targets)
    }
}

/// Builds the sequences of a specialized stub.
fn specialized_body(args: &Vec<LocalId>, callees: &Vec<FuncId>, targets: &Vec<i32>) -> (seqs: Vec<
    Vec<Instr>,
>)
    requires
        args@.len() >= 1,
        targets@.len() == callees@.len(),
    ensures
        is_specialized_body(
            body_view(seqs@),
            args@,
            callees@,
            targets@,
        ),
{
    let m = callees.len();
    let selector = args[args.len() - 1];
    let mut seqs: Vec<Vec<Instr>> = Vec::new();
    seqs.push(Vec::new());
    let mut j: usize = 0;
    while j < m
        invariant
            j <= m,
            m == callees@.len(),
            targets@.len() == m,
            args@.len() >= 1,
            selector == args@.last(),
            seqs.len() == 1 + 3 * j,
            seqs@[0]@ == Seq::new(j as nat, |i: int| Instr::Block { seq: (1 + 3 * (j - 1 - i)) as usize }),
            guards_in_place(
                body_view(seqs@),
                args@,
                callees@,
                targets@,
                j as int,
            ),
        decreases m - j,
    {
        let ghost before = body_view(seqs@);
        let ghost start = seqs@;
        let guard_id = seqs.len();
        seqs.push(Vec::new());
        let then_id = seqs.len();
        let mut then: Vec<Instr> = Vec::new();
        let n = args.len() - 1;
        let mut a: usize = 0;
        while a < n
            invariant
                a <= n,
                n == args@.len() - 1,
                then@ == forward(args@, a as int),
            decreases n - a,
        {
            then.push(Instr::LocalGet { local: args[a] });
            assert(then@ =~= forward(args@, a + 1));
            a += 1;
        }
        then.push(Instr::Call { func: callees[j] });
        then.push(Instr::Return);
        let ghost full_then = then@;
        seqs.push(then);
        let else_id = seqs.len();
        seqs.push(Vec::new());
        let mut guard: Vec<Instr> = Vec::new();
        guard.push(Instr::Const { value: targets[j] });
        guard.push(Instr::LocalGet { local: selector });
        guard.push(Instr::Binop { op: BinaryOp::I32Eq });
        guard.push(Instr::IfElse { consequent: then_id, alternative: else_id });
        let ghost full_guard = guard@;
        let ghost pushed = seqs@;
        seqs[guard_id] = guard;
        let ghost guarded = seqs@;
        seqs[0].insert(0, Instr::Block { seq: guard_id });
        proof {
            let now = body_view(seqs@);
            assert forall|k: int| 1 <= k < 1 + 3 * j implies seqs@[k] == start[k] by {
                assert(pushed[k] == start[k]);
                assert(guarded[k] == pushed[k]);
                assert(seqs@[k] == guarded[k]);
            }
            assert(seqs@[2 + 3 * j] == pushed[2 + 3 * j]);
            assert(seqs@[3 + 3 * j] == pushed[3 + 3 * j]);
            assert(full_guard =~= guard_seq(
                targets@[j as int],
                args@.last(),
                2 + 3 * j,
                3 + 3 * j,
            ));
            assert(full_then == call_seq(args@, callees@[j as int]));
            assert(now[1 + 3 * j] == full_guard);
            assert(now[2 + 3 * j] == full_then);
            assert(now[3 + 3 * j] =~= Seq::<Instr>::empty());
            assert(seqs@[0]@ =~= Seq::new(
                (j + 1) as nat,
                |i: int| Instr::Block { seq: (1 + 3 * (j + 1 - 1 - i)) as usize },
            ));
            assert forall|i: int| 0 <= i < j + 1 implies #[trigger] guard_in_place(
                now,
                args@,
                callees@,
                targets@,
                i,
            ) by {
                if i < j {
                    assert(guard_in_place(before, args@, callees@, targets@, i));
                    assert(seqs@[1 + 3 * i] == start[1 + 3 * i]);
                    assert(seqs@[2 + 3 * i] == start[2 + 3 * i]);
                    assert(seqs@[3 + 3 * i] == start[3 + 3 * i]);
                    assert(now[1 + 3 * i] == before[1 + 3 * i]);
                    assert(now[2 + 3 * i] == before[2 + 3 * i]);
                    assert(now[3 + 3 * i] == before[3 + 3 * i]);
                } else {
                    assert(i == j);
                    assert(now[1 + 3 * i] == full_guard);
                    assert(full_guard == guard_seq(
                        targets@[i],
                        args@.last(),
                        2 + 3 * i,
                        3 + 3 * i,
                    ));
                }
            }
        }
        j += 1;
    }
    let ghost built = body_view(seqs@);
    let ghost raw = seqs@;
    seqs[0].push(Instr::Unreachable);
    proof {
        let body = body_view(seqs@);
        assert forall|k: int| 1 <= k < 1 + 3 * m implies seqs@[k] == raw[k] by {}
        assert(body[0] =~= Seq::new(
            m as nat,
            |i: int| Instr::Block { seq: (1 + 3 * (m - 1 - i)) as usize },
        ).push(Instr::Unreachable));
        assert forall|i: int| 0 <= i < m implies #[trigger] guard_in_place(
            body,
            args@,
            callees@,
            targets@,
            i,
        ) by {
            assert(guard_in_place(built, args@, callees@, targets@, i));
            assert(seqs@[1 + 3 * i] == raw[1 + 3 * i]);
            assert(seqs@[2 + 3 * i] == raw[2 + 3 * i]);
            assert(seqs@[3 + 3 * i] == raw[3 + 3 * i]);
            assert(body[1 + 3 * i] == built[1 + 3 * i]);
            assert(body[2 + 3 * i] == built[2 + 3 * i]);
            assert(body[3 + 3 * i] == built[3 + 3 * i]);
        }
    }
    seqs
}

/// The callees do not share one signature, or that signature is not the
/// first of its kind in the module.
pub open spec fn callees_mismatch(module: &Module, callees: Seq<FuncId>) -> bool {
    let ty = module.funcs[callees[0] as int].type_id();
    ||| exists|j: int| 0 <= j < callees.len() && !module.has_type(#[trigger] callees[j], ty)
    ||| find_type(
        module.types@,
        module.types[ty as int].params@,
        module.types[ty as int].results@,
        0,
    ) != Some(ty)
}

/// The decision sends its site to callees, of which there is at least one.
pub open spec fn is_direct(value: MapValue) -> bool {
    value matches MapValue::Direct(callees) && callees@.len() > 0
}

/// The callees of a direct decision.
pub open spec fn direct_callees(value: MapValue) -> Seq<FuncId> {
    value->Direct_0@
}

/// Those of the first `n` keys whose decision is direct, in order.
pub open spec fn direct_keys(keys: Seq<usize>, map: Map<usize, MapValue>, n: int) -> Seq<usize>
    decreases n,
{
    if n <= 0 {
        Seq::empty()
    } else if is_direct(map[keys[n - 1]]) {
        direct_keys(keys, map, n - 1).push(keys[n - 1])
    } else {
        direct_keys(keys, map, n - 1)
    }
}

/// The direct keys are keys with a direct decision, in increasing order.
pub proof fn lemma_direct_keys(keys: Seq<usize>, map: Map<usize, MapValue>, n: int)
    requires
        0 <= n <= keys.len(),
        crate::idmap::strictly_increasing(keys),
    ensures
        crate::idmap::strictly_increasing(direct_keys(keys, map, n)),
        forall|i: int|
            0 <= i < direct_keys(keys, map, n).len() ==> is_direct(
                map[#[trigger] direct_keys(keys, map, n)[i]],
            ) && keys.take(n).contains(direct_keys(keys, map, n)[i]),
        forall|k: int|
            0 <= k < n && is_direct(map[#[trigger] keys[k]]) ==> direct_keys(keys, map, n).contains(
                keys[k],
            ),
    decreases n,
{
    if n > 0 {
        lemma_direct_keys(keys, map, n - 1);
        let before = direct_keys(keys, map, n - 1);
        let now = direct_keys(keys, map, n);
        assert forall|i: int| 0 <= i < now.len() implies is_direct(map[#[trigger] now[i]])
            && keys.take(n).contains(now[i]) by {
            let short = keys.take(n - 1);
            let long = keys.take(n);
            if i < before.len() {
                assert(now[i] == before[i]);
                assert(short.contains(before[i]));
                let k = short.index_of(before[i]);
                assert(long[k] == now[i]);
            } else {
                assert(long[n - 1] == now[i]);
            }
        }
        assert forall|a: int, b: int| 0 <= a < b < now.len() implies now[a] < now[b] by {
            let short = keys.take(n - 1);
            if b == before.len() {
                assert(short.contains(before[a]));
                let k = short.index_of(before[a]);
                assert(keys[k] < keys[n - 1]);
            }
        }
        assert forall|k: int| 0 <= k < n && is_direct(map[#[trigger] keys[k]]) implies now.contains(
            keys[k],
        ) by {
            if k < n - 1 {
                let i = choose|i: int| 0 <= i < before.len() && before[i] == keys[k];
                assert(now[i] == keys[k]);
            } else {
                assert(now[now.len() - 1] == keys[k]);
            }
        }
    }
}

/// The profile covers every site that is sent to callees, with as many
/// observed slots as callees.
pub open spec fn profile_matches(map: Map<usize, MapValue>, profile: Option<Profile>) -> bool {
    forall|key: usize| #[trigger]
        map.contains_key(key) && is_direct(map[key]) ==> profile is Some
            && profile->0@.contains_key(key) && observed_slots(profile->0@[key]).len()
            == direct_callees(map[key]).len()
}

/// Every callee of every decision exists.
pub open spec fn callees_valid(module: &Module, map: Map<usize, MapValue>) -> bool {
    forall|key: usize| #[trigger]
        map.contains_key(key) ==> match map[key] {
            MapValue::Direct(callees) => forall|j: int|
                0 <= j < callees@.len() ==> (#[trigger] callees@[j]) < module.funcs.len(),
            _ => true,
        }
}

/// Some site is sent to callees that cannot share a stub.
pub open spec fn specialize_mismatch(module: &Module, map: Map<usize, MapValue>) -> bool {
    exists|key: usize| #[trigger]
        map.contains_key(key) && is_direct(map[key]) && callees_mismatch(
            module,
            direct_callees(map[key]),
        )
}

/// The signatures of the stubs for the sites `direct`: that of the first
/// callee of the site with one more 32-bit integer to take.
pub open spec fn specialized_sigs(module: &Module, map: Map<usize, MapValue>, direct: Seq<usize>) -> Seq<
    Sig,
> {
    Seq::new(
        direct.len(),
        |i: int|
            (
                module.params_of(direct_callees(map[direct[i]])[0]) + seq![ValType::I32],
                module.results_of(direct_callees(map[direct[i]])[0]),
            ),
    )
}

/// One stub to make: the site, its callees, and the slots through which the
/// profile saw them called.
struct Work {
    key: usize,
    ty: TypeId,
    callees: Vec<FuncId>,
    targets: Vec<i32>,
}

/// The slot numbers among the observations, in their order.
fn observed(obs: &Vec<i32>) -> (slots: Vec<i32>)
    ensures
        slots@ == observed_slots(obs@),
{
    let mut slots: Vec<i32> = Vec::new();
    let mut i: usize = 0;
    assert(obs@.take(0) =~= Seq::<i32>::empty());
    while i < obs.len()
        invariant
            i <= obs@.len(),
            slots@ == observed_slots(obs@.take(i as int)),
        decreases obs@.len() - i,
    {
        assert(obs@.take(i + 1).drop_last() =~= obs@.take(i as int));
        if obs[i] >= 0 {
            slots.push(obs[i]);
        }
        i += 1;
    }
    assert(obs@.take(obs@.len() as int) =~= obs@);
    slots
}

/// A copy of a list of functions.
fn copy_funcs(list: &Vec<FuncId>) -> (copy: Vec<FuncId>)
    ensures
        copy@ == list@,
{
    let mut copy: Vec<FuncId> = Vec::new();
    let mut i: usize = 0;
    while i < list.len()
        invariant
            i <= list@.len(),
            copy@ == list@.take(i as int),
        decreases list@.len() - i,
    {
        copy.push(list[i]);
        assert(copy@ =~= list@.take(i + 1));
        i += 1;
    }
    assert(list@.take(list@.len() as int) =~= list@);
    copy
}

/// Whether the callees can share a stub.
fn callees_agree(module: &Module, callees: &Vec<FuncId>) -> (r: bool)
    requires
        module.wf(),
        callees@.len() > 0,
        forall|j: int| 0 <= j < callees@.len() ==> (#[trigger] callees@[j]) < module.funcs.len(),
    ensures
        r == !callees_mismatch(module, callees@),
{
    assert(module.funcs[callees@[0] as int].wf(module.bounds()));
    let ty = module.funcs[callees[0]].ty();
    let mut j: usize = 0;
    while j < callees.len()
        invariant
            j <= callees@.len(),
            module.wf(),
            ty == module.funcs[callees@[0] as int].type_id(),
            ty < module.types.len(),
            forall|i: int| 0 <= i < callees@.len() ==> (#[trigger] callees@[i]) < module.funcs.len(),
            forall|i: int| 0 <= i < j ==> module.has_type(#[trigger] callees@[i], ty),
        decreases callees@.len() - j,
    {
        assert(module.funcs[callees@[j as int] as int].wf(module.bounds()));
        let own = module.funcs[callees[j]].ty();
        if !module.types[own].matches(&module.types[ty]) {
            assert(!module.has_type(callees@[j as int], ty));
            return false;
        }
        j += 1;
    }
    let found = module.find_type(&module.types[ty].params, &module.types[ty].results);
    found == Some(ty)
}

/// What is planned is the stubs to make, one for each direct decision
/// among the first `n` keys, in order.
spec fn work_matches(
    work: Seq<Work>,
    module: &Module,
    keys: Seq<usize>,
    map: Map<usize, MapValue>,
    profile: Profile,
    n: int,
) -> bool {
    &&& work.len() == direct_keys(keys, map, n).len()
    &&& forall|i: int|
        0 <= i < work.len() ==> {
            &&& (#[trigger] work[i]).key == direct_keys(keys, map, n)[i]
            &&& work[i].callees@ == direct_callees(map[work[i].key])
            &&& work[i].targets@ == observed_slots(profile@[work[i].key])
            &&& work[i].ty == module.funcs[work[i].callees@[0] as int].type_id()
            &&& work[i].ty < module.types.len()
            &&& work[i].callees@.len() > 0
            &&& work[i].targets@.len() == work[i].callees@.len()
            &&& forall|j: int|
                0 <= j < work[i].callees@.len() ==> (#[trigger] work[i].callees@[j])
                    < module.funcs.len()
        }
}

/// Lists the stubs to make and checks that each can be made.
fn plan_specialized(module: &Module, map: &IdMap<MapValue>, profile: &Profile) -> (r: Result<
    Vec<Work>,
    Error,
>)
    requires
        module.wf(),
        callees_valid(module, map@),
        profile_matches(map@, Some(*profile)),
    ensures
        map.wf(),
        match r {
            Ok(work) => !specialize_mismatch(module, map@) && work_matches(
                work@,
                module,
                map.keys(),
                map@,
                *profile,
                map.keys().len() as int,
            ),
            Err(e) => e == Error::TypeMismatch && specialize_mismatch(module, map@),
        },
{
    let n = map.len();
    let mut work: Vec<Work> = Vec::new();
    let mut e: usize = 0;
    while e < n
        invariant
            e <= n,
            n == map.keys().len(),
            map.wf(),
            module.wf(),
            callees_valid(module, map@),
            profile_matches(map@, Some(*profile)),
            work_matches(work@, module, map.keys(), map@, *profile, e as int),
            forall|k: int|
                0 <= k < e && is_direct(map@[#[trigger] map.keys()[k]]) ==> !callees_mismatch(
                    module,
                    direct_callees(map@[map.keys()[k]]),
                ),
        decreases n - e,
    {
        let key = map.key_at(e);
        let value = map.value_at(e);
        assert(map.keys().contains(key));
        assert(map@.contains_key(key) && map@[key] == *value);
        let ghost before = work@;
        match value {
            MapValue::Direct(callees) => {
                if callees.len() > 0 {
                    if !callees_agree(module, callees) {
                        return Err(Error::TypeMismatch);
                    }
                    assert(module.funcs[callees@[0] as int].wf(module.bounds()));
                    let ty = module.funcs[callees[0]].ty();
                    let targets = match profile.get(key) {
                        Some(obs) => observed(obs),
                        None => Vec::new(),
                    };
                    work.push(Work { key, ty, callees: copy_funcs(callees), targets });
                    proof {
                        assert forall|i: int| 0 <= i < work@.len() implies {
                            &&& (#[trigger] work@[i]).key == direct_keys(
                                map.keys(),
                                map@,
                                e + 1,
                            )[i]
                        } by {
                            if i < before.len() {
                                assert(work@[i] == before[i]);
                            }
                        }
                        assert(work_matches(work@, module, map.keys(), map@, *profile, e + 1)) by {
                            assert forall|i: int| 0 <= i < work@.len() implies {
                                &&& (#[trigger] work@[i]).key == direct_keys(
                                    map.keys(),
                                    map@,
                                    e + 1,
                                )[i]
                                &&& work@[i].callees@ == direct_callees(map@[work@[i].key])
                                &&& work@[i].targets@ == observed_slots(profile@[work@[i].key])
                                &&& work@[i].ty == module.funcs[work@[i].callees@[0] as int].type_id()
                                &&& work@[i].ty < module.types.len()
                                &&& work@[i].callees@.len() > 0
                                &&& work@[i].targets@.len() == work@[i].callees@.len()
                                &&& forall|j: int|
                                    0 <= j < work@[i].callees@.len() ==> (#[trigger] work@[i].callees@[j])
                                        < module.funcs.len()
                            } by {
                                if i < before.len() {
                                    assert(work@[i] == before[i]);
                                }
                            }
                        }
                    }
                }
            },
            _ => {},
        }
        e += 1;
    }
    proof {
        if specialize_mismatch(module, map@) {
            let key = choose|key: usize| #[trigger]
                map@.contains_key(key) && is_direct(map@[key]) && callees_mismatch(
                    module,
                    direct_callees(map@[key]),
                );
            assert(map.keys().contains(key));
            let k = map.keys().index_of(key);
            assert(is_direct(map@[map.keys()[k]]));
        }
    }
    Ok(work)
}

/// Makes the stub numbered `index` for `callees` and adds it to the
/// module.
fn add_specialized_stub(
    module: &mut Module,
    index: usize,
    ty: TypeId,
    callees: &Vec<FuncId>,
    targets: &Vec<i32>,
) -> (stub: FuncId)
    requires
        old(module).wf(),
        ty < old(module).types.len(),
        callees@.len() > 0,
        targets@.len() == callees@.len(),
        forall|j: int| 0 <= j < callees@.len() ==> (#[trigger] callees@[j]) < old(module).funcs.len(),
    ensures
        final(module).wf(),
        final(module).grown_from(old(module)),
        final(module).globals == old(module).globals,
        final(module).exports == old(module).exports,
        stub == old(module).funcs.len(),
        final(module).funcs.len() == old(module).funcs.len() + 1,
        is_specialized_stub(
            final(module),
            final(module).funcs[stub as int],
            index as nat,
            old(module).types[ty as int].params@,
            old(module).types[ty as int].results@,
            callees@,
            targets@,
        ),
        final(module).with_functions(
            old(module),
            seq![
                (
                    old(module).types[ty as int].params@ + seq![ValType::I32],
                    old(module).types[ty as int].results@,
                ),
            ],
        ),
{
    let ghost start = *module;
    let mut params = copy_types(&module.types[ty].params);
    let results = copy_types(&module.types[ty].results);
    params.push(ValType::I32);
    assert(params@ =~= start.types[ty as int].params@ + seq![ValType::I32]);
    let own = copy_types(&params);
    let stub_ty = module.add_type(own, results);
    let ghost typed = *module;
    let args = module.add_locals(&params);
    let ghost ready = *module;
    let seqs = specialized_body(&args, callees, targets);
    let name = numbered("indirect_call_stub_", index);
    let func = Function {
        name: Some(name),
        kind: FunctionKind::Local(LocalFunction { ty: stub_ty, args, entry: 0, seqs }),
    };
    proof {
        lemma_grown_trans(&start, &typed, &ready);
        let local = func.kind->Local_0;
        let b = (crate::ir::Bounds { funcs: (ready.funcs.len() + 1) as nat, ..ready.bounds() });
        assert(local.body().len() == local.seqs.len());
        lemma_specialized_body_wf(local.body(), local.args@, callees@, targets@, b);
        assert forall|s: int| 0 <= s < local.seqs.len() implies crate::ir::seq_wf(
            #[trigger] local.seqs[s]@,
            b.with_seqs(local.seqs.len() as nat),
        ) by {
            assert(local.seqs[s]@ == local.body()[s]);
        }
        assert(typed.types@.take(start.types.len() as int) == start.types@);
        assert(ready.types[stub_ty as int] == typed.types[stub_ty as int]);
        assert(args_typed(ready.locals@, local.args@, params@)) by {
            assert forall|i: int, j: int|
                0 <= i < local.args@.len() && 0 <= j < local.args@.len() && i != j implies local.args@[i]
                != local.args@[j] by {}
        }
    }
    let stub = module.add_function(func);
    proof {
        lemma_grown_trans(&start, &ready, &*module);
        assert(module.locals@ == ready.locals@);
        assert(module.types@ == ready.types@);
        assert(func.kind->Local_0.args@ =~= Seq::new(
            params@.len(),
            |j: int| (start.locals.len() + j) as usize,
        ));
        lemma_with_function(&start, &*module, (params@, results@));
    }
    stub
}

/// The sequences of a specialized stub refer to what exists, given that
/// the arguments and the callees do.
proof fn lemma_specialized_body_wf(
    seqs: Seq<Seq<Instr>>,
    args: Seq<LocalId>,
    callees: Seq<FuncId>,
    targets: Seq<i32>,
    b: crate::ir::Bounds,
)
    requires
        is_specialized_body(seqs, args, callees, targets),
        args.len() >= 1,
        seqs.len() <= usize::MAX,
        forall|j: int| 0 <= j < args.len() ==> (#[trigger] args[j]) < b.locals,
        forall|j: int| 0 <= j < callees.len() ==> (#[trigger] callees[j]) < b.funcs,
    ensures
        forall|s: int| 0 <= s < seqs.len() ==> crate::ir::seq_wf(#[trigger] seqs[s], b.with_seqs(seqs.len())),
{
    let m = callees.len() as int;
    let bound = b.with_seqs(seqs.len());
    assert forall|s: int| 0 <= s < seqs.len() implies crate::ir::seq_wf(#[trigger] seqs[s], bound) by {
        if s == 0 {
            assert forall|i: int| 0 <= i < seqs[0].len() implies (#[trigger] seqs[0][i]).wf(bound) by {
                if i < m {
                    assert(seqs[0][i] == Instr::Block { seq: (1 + 3 * (m - 1 - i)) as usize });
                }
            }
        } else {
            let j = (s - 1) / 3;
            assert(0 <= j < m);
            assert(guard_in_place(seqs, args, callees, targets, j));
            if s == 1 + 3 * j {
                assert forall|i: int| 0 <= i < seqs[s].len() implies (#[trigger] seqs[s][i]).wf(bound) by {
                    assert(args.last() == args[args.len() - 1]);
                }
            } else if s == 2 + 3 * j {
                assert forall|i: int| 0 <= i < seqs[s].len() implies (#[trigger] seqs[s][i]).wf(bound) by {
                    if i < args.len() - 1 {
                        assert(seqs[s][i] == Instr::LocalGet { local: args[i] });
                    } else if i == args.len() - 1 {
                        assert(seqs[s][i] == Instr::Call { func: callees[j] });
                    }
                }
            } else {
                assert(s == 3 + 3 * j);
            }
        }
    }
}

/// A specialized stub calls directly only.
pub proof fn lemma_specialized_body_direct(
    seqs: Seq<Seq<Instr>>,
    args: Seq<LocalId>,
    callees: Seq<FuncId>,
    targets: Seq<i32>,
)
    requires
        is_specialized_body(seqs, args, callees, targets),
        args.len() >= 1,
    ensures
        crate::sites::body_direct(seqs),
{
    let m = callees.len() as int;
    assert forall|s: int| 0 <= s < seqs.len() implies crate::sites::seq_direct(#[trigger] seqs[s]) by {
        if s == 0 {
            assert forall|i: int| 0 <= i < seqs[0].len() implies !((#[trigger] seqs[0][i])
                is CallIndirect) by {
                if i < m {
                    assert(seqs[0][i] == Instr::Block { seq: (1 + 3 * (m - 1 - i)) as usize });
                }
            }
        } else {
            let j = (s - 1) / 3;
            assert(0 <= j < m);
            assert(guard_in_place(seqs, args, callees, targets, j));
            if s == 1 + 3 * j {
            } else if s == 2 + 3 * j {
                assert forall|i: int| 0 <= i < seqs[s].len() implies !((#[trigger] seqs[s][i])
                    is CallIndirect) by {
                    if i < args.len() - 1 {
                        assert(seqs[s][i] == Instr::LocalGet { local: args[i] });
                    } else if i == args.len() - 1 {
                        assert(seqs[s][i] == Instr::Call { func: callees[j] });
                    }
                }
            } else {
                assert(s == 3 + 3 * j);
            }
        }
    }
}

/// A specialized stub stays the stub it is when the module grows.
pub proof fn lemma_specialized_stub_stays(
    before: &Module,
    after: &Module,
    func: Function,
    index: nat,
    params: Seq<ValType>,
    results: Seq<ValType>,
    callees: Seq<FuncId>,
    targets: Seq<i32>,
)
    requires
        after.grown_from(before),
        is_specialized_stub(before, func, index, params, results, callees, targets),
    ensures
        is_specialized_stub(after, func, index, params, results, callees, targets),
{
    let local = func.kind->Local_0;
    assert(after.types@.take(before.types.len() as int)[local.ty as int] == after.types@[local.ty as int]);
    assert forall|j: int| 0 <= j < local.args@.len() implies (#[trigger] local.args@[j])
        < after.locals.len() && after.locals[local.args@[j] as int] == (params + seq![ValType::I32])[j] by {
        let a = local.args@[j] as int;
        assert(after.locals@.take(before.locals.len() as int)[a] == after.locals@[a]);
    }
}

/// The decisions after stubs numbered from `base` have been made for the
/// direct ones: each direct decision now names its stub alone, and every
/// other is as it was.
pub open spec fn specialized_map(
    before: Map<usize, MapValue>,
    after: Map<usize, MapValue>,
    direct: Seq<usize>,
    base: int,
) -> bool {
    &&& forall|key: usize| after.contains_key(key) <==> before.contains_key(key)
    &&& forall|i: int|
        0 <= i < direct.len() ==> after[#[trigger] direct[i]]@ == crate::profilemap::Decision::Direct(
            seq![(base + i) as usize],
        )
    &&& forall|key: usize|
        before.contains_key(key) && !direct.contains(key) ==> #[trigger] after[key] == before[key]
}

/// Makes one stub for each site that is sent to callees, in the order of
/// the sites, and makes each such decision name its stub.
///
/// Fails, with nothing changed, if the callees of a site do not share a
/// signature, or if that signature is not the first of its parameters and
/// results in the module.
pub fn specialize_stubs(module: &mut Module, modified_map: &mut IdMap<MapValue>, profile: &Profile) -> (r:
    Result<(), Error>)
    requires
        old(module).wf(),
        callees_valid(old(module), old(modified_map)@),
        profile_matches(old(modified_map)@, Some(*profile)),
    ensures
        old(modified_map).wf(),
        match r {
            Ok(()) => {
                let direct = direct_keys(
                    old(modified_map).keys(),
                    old(modified_map)@,
                    old(modified_map).keys().len() as int,
                );
                &&& !specialize_mismatch(old(module), old(modified_map)@)
                &&& final(module).wf()
                &&& final(module).grown_from(old(module))
                &&& final(module).globals == old(module).globals
                &&& final(module).exports == old(module).exports
                &&& final(module).funcs.len() == old(module).funcs.len() + direct.len()
                &&& forall|i: int|
                    0 <= i < direct.len() ==> is_specialized_stub(
                        final(module),
                        #[trigger] final(module).funcs[old(module).funcs.len() + i],
                        i as nat,
                        old(module).params_of(direct_callees(old(modified_map)@[direct[i]])[0]),
                        old(module).results_of(direct_callees(old(modified_map)@[direct[i]])[0]),
                        direct_callees(old(modified_map)@[direct[i]]),
                        observed_slots(profile@[direct[i]]),
                    )
                &&& specialized_map(
                    old(modified_map)@,
                    final(modified_map)@,
                    direct,
                    old(module).funcs.len() as int,
                )
                &&& final(module).with_functions(
                    old(module),
                    specialized_sigs(old(module), old(modified_map)@, direct),
                )
            },
            Err(e) => {
                &&& e == Error::TypeMismatch
                &&& specialize_mismatch(old(module), old(modified_map)@)
                &&& *final(module) == *old(module)
                &&& final(modified_map)@ == old(modified_map)@
            },
        },
{
    let work = match plan_specialized(module, modified_map, profile) {
        Ok(work) => work,
        Err(e) => {
            return Err(e);
        },
    };
    let ghost start = *module;
    let ghost map0 = modified_map@;
    let ghost keys = modified_map.keys();
    let ghost direct = direct_keys(keys, map0, keys.len() as int);
    let base = module.funcs.len();
    proof {
        lemma_grown_refl(&start);
        lemma_direct_keys(keys, map0, keys.len() as int);
        assert(specialized_sigs(&start, map0, direct.take(0)) =~= Seq::<Sig>::empty());
        lemma_with_no_function(&start);
    }
    let mut i: usize = 0;
    while i < work.len()
        invariant
            i <= work@.len(),
            start == *old(module),
            map0 == old(modified_map)@,
            base == start.funcs.len(),
            module.with_functions(&start, specialized_sigs(&start, map0, direct.take(i as int))),
            start.wf(),
            direct == direct_keys(keys, map0, keys.len() as int),
            crate::idmap::strictly_increasing(direct),
            crate::idmap::strictly_increasing(keys),
            forall|k: usize| map0.contains_key(k) <==> keys.contains(k),
            work_matches(work@, &start, keys, map0, *profile, keys.len() as int),
            module.wf(),
            module.grown_from(&start),
            module.globals == start.globals,
            module.exports == start.exports,
            module.funcs.len() == base + i,
            forall|j: int|
                0 <= j < i ==> is_specialized_stub(
                    &*module,
                    #[trigger] module.funcs[base + j],
                    j as nat,
                    start.types[work@[j].ty as int].params@,
                    start.types[work@[j].ty as int].results@,
                    work@[j].callees@,
                    work@[j].targets@,
                ),
            specialized_map(map0, modified_map@, direct.take(i as int), base as int),
        decreases work@.len() - i,
    {
        let item = &work[i];
        let ghost before = *module;
        let ghost map_before = modified_map@;
        proof {
            assert(before.types@.take(start.types.len() as int)[item.ty as int]
                == before.types@[item.ty as int]);
        }
        let stub = add_specialized_stub(module, i, item.ty, &item.callees, &item.targets);
        let mut only: Vec<FuncId> = Vec::new();
        only.push(stub);
        modified_map.insert(item.key, MapValue::Direct(only));
        proof {
            lemma_grown_trans(&start, &before, &*module);
            let had = specialized_sigs(&start, map0, direct.take(i as int));
            let sig = (
                start.types[item.ty as int].params@ + seq![ValType::I32],
                start.types[item.ty as int].results@,
            );
            lemma_with_functions_more(&start, &before, &*module, had, seq![sig]);
            assert(had + seq![sig] =~= specialized_sigs(&start, map0, direct.take(i + 1)));
            assert forall|j: int| 0 <= j < i + 1 implies is_specialized_stub(
                &*module,
                #[trigger] module.funcs[base + j],
                j as nat,
                start.types[work@[j].ty as int].params@,
                start.types[work@[j].ty as int].results@,
                work@[j].callees@,
                work@[j].targets@,
            ) by {
                if j < i {
                    assert(module.funcs@.take(before.funcs.len() as int)[base + j]
                        == before.funcs@[base + j]);
                    lemma_specialized_stub_stays(
                        &before,
                        &*module,
                        before.funcs[base + j],
                        j as nat,
                        start.types[work@[j].ty as int].params@,
                        start.types[work@[j].ty as int].results@,
                        work@[j].callees@,
                        work@[j].targets@,
                    );
                }
            }
            let done = direct.take(i as int);
            let more = direct.take(i + 1);
            assert(item.key == direct[i as int]);
            assert(map0.contains_key(item.key)) by {
                lemma_direct_keys(keys, map0, keys.len() as int);
                assert(keys.take(keys.len() as int).contains(direct[i as int]));
                let k = keys.take(keys.len() as int).index_of(direct[i as int]);
                assert(keys[k] == item.key);
                assert(keys.contains(item.key));
            }
            assert forall|j: int| 0 <= j < more.len() implies modified_map@[#[trigger] more[j]]@
                == crate::profilemap::Decision::Direct(seq![(base + j) as usize]) by {
                if j < i {
                    assert(done[j] == more[j]);
                    assert(direct[j] < direct[i as int]);
                } else {
                    assert(only@ =~= seq![(base + j) as usize]);
                }
            }
            assert forall|key: usize|
                map0.contains_key(key) && !more.contains(key) implies #[trigger] modified_map@[key]
                == map0[key] by {
                assert(more[i as int] == item.key);
                if done.contains(key) {
                    let j = done.index_of(key);
                    assert(more[j] == key);
                }
            }
        }
        i += 1;
    }
    assert(direct.take(direct.len() as int) =~= direct);
    Ok(())
}

/// Makes the stubs that the mode calls for: when instrumenting, one for
/// each pair through which the module calls indirectly; when optimizing,
/// one for each site that the profile sends to callees, and none where
/// there is no profile.
pub fn generate_stubs(
    module: &mut Module,
    final_types: &Vec<CallType>,
    stubs: &mut IdMap<FuncId>,
    modified_map: &mut IdMap<MapValue>,
    map: &Option<Profile>,
    is_opt: bool,
) -> (r: Result<(), Error>)
    requires
        old(module).wf(),
        !is_opt ==> pairs_valid(old(module), final_types@),
        is_opt ==> callees_valid(old(module), old(modified_map)@) && profile_matches(
            old(modified_map)@,
            *map,
        ),
    ensures
        match r {
            Ok(()) => if is_opt && map is None {
                &&& *final(module) == *old(module)
                &&& final(stubs)@ == old(stubs)@
                &&& final(modified_map)@ == old(modified_map)@
            } else {
                &&& final(module).wf()
                &&& final(module).grown_from(old(module))
                &&& final(module).globals == old(module).globals
                &&& final(module).exports == old(module).exports
                &&& if is_opt {
                    let direct = direct_keys(
                        old(modified_map).keys(),
                        old(modified_map)@,
                        old(modified_map).keys().len() as int,
                    );
                    &&& !specialize_mismatch(old(module), old(modified_map)@)
                    &&& final(stubs)@ == old(stubs)@
                    &&& final(module).funcs.len() == old(module).funcs.len() + direct.len()
                    &&& forall|i: int|
                        0 <= i < direct.len() ==> is_specialized_stub(
                            final(module),
                            #[trigger] final(module).funcs[old(module).funcs.len() + i],
                            i as nat,
                            old(module).params_of(direct_callees(old(modified_map)@[direct[i]])[0]),
                            old(module).results_of(direct_callees(old(modified_map)@[direct[i]])[0]),
                            direct_callees(old(modified_map)@[direct[i]]),
                            observed_slots(map->0@[direct[i]]),
                        )
                    &&& specialized_map(
                        old(modified_map)@,
                        final(modified_map)@,
                        direct,
                        old(module).funcs.len() as int,
                    )
                    &&& final(module).with_functions(
                        old(module),
                        specialized_sigs(old(module), old(modified_map)@, direct),
                    )
                } else {
                    &&& !type_mismatch(old(module).types@, final_types@)
                    &&& final(modified_map)@ == old(modified_map)@
                    &&& final(module).funcs.len() == old(module).funcs.len() + final_types@.len()
                    &&& forall|i: int|
                        0 <= i < final_types@.len() ==> is_indirect_stub(
                            final(module),
                            #[trigger] final(module).funcs[old(module).funcs.len() + i],
                            i as nat,
                            old(module).types[final_types@[i].0 as int].params@,
                            old(module).types[final_types@[i].0 as int].results@,
                            final_types@[i].0,
                            final_types@[i].1,
                        )
                    &&& final(stubs)@ == stubbed(
                        old(stubs)@,
                        final_types@,
                        old(module).funcs.len() as int,
                        final_types@.len() as int,
                    )
                    &&& final(module).with_functions(
                        old(module),
                        indirect_sigs(old(module).types@, final_types@),
                    )
                }
            },
            Err(e) => {
                &&& e == Error::TypeMismatch
                &&& *final(module) == *old(module)
                &&& final(stubs)@ == old(stubs)@
                &&& final(modified_map)@ == old(modified_map)@
                &&& if is_opt {
                    specialize_mismatch(old(module), old(modified_map)@)
                } else {
                    type_mismatch(old(module).types@, final_types@)
                }
            },
        },
{
    if is_opt {
        match map {
            Some(profile) => specialize_stubs(module, modified_map, profile),
            None => Ok(()),
        }
    } else {
        instrument_stubs(module, final_types, stubs)
    }
}

} // verus!
