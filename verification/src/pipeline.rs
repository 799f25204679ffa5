//! The two modes from end to end.

use crate::calltypes::{call_types, lemma_call_types};
use crate::error::Error;
use crate::grow::{
    extends, lemma_with_functions_kept, lemma_with_functions_locals, params_upto, placed,
    same_frame, sigs, with_sigs, Sig,
};
use crate::idmap::{strictly_increasing, IdMap};
use crate::instrument::{
    callees_valid, direct_callees, direct_keys, indirect_sigs, instrument_stubs, is_direct,
    is_indirect_stub, is_specialized_stub, lemma_direct_keys, lemma_stubbed, pairs_valid,
    profile_matches, specialize_mismatch, specialize_stubs, specialized_map, specialized_sigs,
    stubbed, type_mismatch,
};
use crate::calltypes::CallType;
use crate::ir::{
    ExportItem, FuncId, Function, FunctionKind, Global, GlobalId, GlobalKind, InitExpr, Instr,
    LocalId, Module, ValType,
};
use crate::lookup::default_benign;
use crate::profilemap::{
    callees, decision, lemma_callees, observed_slots, process_map, Decision, MapValue, Profile,
};
use crate::rewrite::Rewrite;
use crate::sitepass::{function_fits, function_sites, sites_upto};
use crate::slowcalls::compute_slowcalls;
use crate::verdicts::{lemma_routed_through_stubs, lemma_routed_verdicts, lemma_walk_wf};
use crate::walk::{lemma_body_order_distinct, lemma_walked};
use crate::wiring::{
    counter_name, exports_slot, is_woven_function, observation_global, slots_of, slots_valid, Slot,
    INDIRECT_WINDOW, UNOBSERVED,
};
use crate::wrap::{
    generate_slowcall_stubs, is_redirected, is_slowcall_stub, wrapper_sigs, wrappers,
};
use vstd::prelude::*;

verus! {

/// What instrumenting the call sites made: the stub to call for each
/// signature, the id of the first stub, and the numbers of stubs and of
/// sites.
#[derive(Debug)]
pub struct Stubbed {
    pub stubs: IdMap<FuncId>,
    pub first_stub: FuncId,
    pub stub_count: usize,
    pub sites: usize,
}

/// The sites before function `n` are the same in a module that has grown,
/// as long as `n` is a function that the module had.
pub proof fn lemma_sites_upto_grown(
    before: Seq<Function>,
    after: Seq<Function>,
    n: int,
    stop: int,
    shift: bool,
)
    requires
        extends(after, before),
        0 <= n <= before.len(),
    ensures
        sites_upto(after, n, stop, shift) == sites_upto(before, n, stop, shift),
    decreases n,
{
    if n > 0 {
        lemma_sites_upto_grown(before, after, n - 1, stop, shift);
        assert(after.take(before.len() as int)[n - 1] == after[n - 1]);
    }
}

/// Functions from `stop` on add no sites.
pub proof fn lemma_sites_upto_stop(funcs: Seq<Function>, n: int, stop: int, shift: bool)
    requires
        0 <= stop <= n <= funcs.len(),
        funcs.len() <= usize::MAX,
    ensures
        sites_upto(funcs, n, stop, shift) == sites_upto(funcs, stop, stop, shift),
    decreases n,
{
    if n > stop {
        lemma_sites_upto_stop(funcs, n - 1, stop, shift);
        assert(function_sites(funcs[n - 1], (n - 1) as usize, stop, shift) =~= Seq::empty());
        assert(sites_upto(funcs, n, stop, shift) =~= sites_upto(funcs, n - 1, stop, shift));
    }
}

/// Whether the sites overflow does not change when functions are added
/// behind `stop`.
pub proof fn lemma_overflow_grown(before: &Module, after: &Module, stop: int, shift: bool, limit: int)
    requires
        extends(after.funcs@, before.funcs@),
        stop == before.funcs.len(),
    ensures
        after.sites_overflow(stop, shift, limit) == before.sites_overflow(stop, shift, limit),
{
    lemma_sites_upto_stop(after.funcs@, after.funcs.len() as int, stop, shift);
    lemma_sites_upto_grown(before.funcs@, after.funcs@, stop, stop, shift);
    if exists|f: int|
        0 <= f < after.funcs.len() && !function_fits(#[trigger] after.funcs[f], f as usize, stop, shift) {
        let f = choose|f: int|
            0 <= f < after.funcs.len() && !function_fits(
                #[trigger] after.funcs[f],
                f as usize,
                stop,
                shift,
            );
        assert(f < stop);
        assert(after.funcs@.take(before.funcs.len() as int)[f] == after.funcs@[f]);
        assert(!function_fits(before.funcs[f], f as usize, stop, shift));
    }
    if exists|f: int|
        0 <= f < before.funcs.len() && !function_fits(
            #[trigger] before.funcs[f],
            f as usize,
            stop,
            shift,
        ) {
        let f = choose|f: int|
            0 <= f < before.funcs.len() && !function_fits(
                #[trigger] before.funcs[f],
                f as usize,
                stop,
                shift,
            );
        assert(after.funcs@.take(before.funcs.len() as int)[f] == after.funcs@[f]);
        assert(!function_fits(after.funcs[f], f as usize, stop, shift));
    }
}

/// Every pair through which a well-formed module calls indirectly names a
/// signature and a table that exist.
pub proof fn lemma_call_types_valid(module: &Module)
    requires
        module.wf(),
    ensures
        pairs_valid(module, module.call_types()),
{
    let pairs = module.call_types();
    lemma_call_types(module.funcs@, module.funcs.len() as int);
    assert forall|i: int| 0 <= i < pairs.len() implies (#[trigger] pairs[i]).0 < module.types.len()
        && pairs[i].1 < module.tables.len() by {
        let (ty, table) = pairs[i];
        assert(pairs.contains((ty, table)));
        let f = choose|f: int|
            0 <= f < module.funcs.len() && (#[trigger] module.funcs[f]).kind is Local
                && module.funcs[f].kind->Local_0.walked().contains(
                Instr::CallIndirect { ty, table },
            );
        let flat = module.local_walk(f as usize);
        let at = choose|at: int| 0 <= at < flat.len() && flat[at] == (Instr::CallIndirect { ty, table });
        lemma_walk_wf(module, f as usize, at);
    }
}

/// Once every pair of the module has its stub recorded, the stubs cover
/// the indirect calls of the functions that the module had.
pub proof fn lemma_stubs_cover(before: &Module, after: &Module, stubs: Map<usize, FuncId>)
    requires
        before.wf(),
        extends(after.funcs@, before.funcs@),
        forall|i: int|
            0 <= i < before.call_types().len() ==> stubs.contains_key(
                (#[trigger] before.call_types()[i]).0,
            ),
    ensures
        after.stubs_cover(stubs, before.funcs.len() as int),
{
    let pairs = before.call_types();
    lemma_call_types(before.funcs@, before.funcs.len() as int);
    assert forall|f: int, k: int, p: int|
        0 <= f < after.funcs.len() && f < before.funcs.len() && after.funcs[f].kind is Local && 0
            <= k < after.funcs[f].kind->Local_0.order().len() && 0 <= p
            < after.funcs[f].body()[after.funcs[f].kind->Local_0.order()[k] as int].len() implies match #[trigger] after.funcs[f].body()[after.funcs[f].kind->Local_0.order()[k] as int][p] {
        Instr::CallIndirect { ty, .. } => stubs.contains_key(ty),
        _ => true,
    } by {
        assert(after.funcs@.take(before.funcs.len() as int)[f] == after.funcs@[f]);
        let local = before.funcs[f].kind->Local_0;
        let instr = local.body()[local.order()[k] as int][p];
        match instr {
            Instr::CallIndirect { ty, table } => {
                lemma_walked(local.body(), local.order());
                assert(local.walked().contains(instr));
                assert(before.funcs[f].kind is Local);
                assert(pairs.contains((ty, table)));
                let i = choose|i: int| 0 <= i < pairs.len() && pairs[i] == (ty, table);
                assert(stubs.contains_key(pairs[i].0));
            },
            _ => {},
        }
    }
}

/// Makes the stubs for indirect calls and routes every call site through
/// the stub for its signature, with the site's index as the last argument.
///
/// Fails if the signature of an indirect call is not the first of its kind
/// in the module, in which case nothing has changed, or if the sites are
/// more than can be numbered.
pub fn instrument_call_sites(module: &mut Module) -> (r: Result<Stubbed, Error>)
    requires
        old(module).wf(),
    ensures
        match r {
            Ok(made) => {
                let pairs = old(module).call_types();
                let first = old(module).funcs.len() as int;
                let rewrite = Rewrite::Instrument { stubs: &made.stubs, first_stub: made.first_stub };
                &&& final(module).wf()
                &&& made.first_stub == first
                &&& made.stub_count == pairs.len()
                &&& made.stubs@ == stubbed(Map::empty(), pairs, first, pairs.len() as int)
                &&& made.sites == sites_upto(old(module).funcs@, first, first, true).len()
                &&& made.sites <= i32::MAX
                &&& !type_mismatch(old(module).types@, pairs)
                &&& !old(module).sites_overflow(first, true, i32::MAX as int)
                &&& extends(final(module).types@, old(module).types@)
                &&& extends(final(module).locals@, old(module).locals@)
                &&& final(module).globals == old(module).globals
                &&& final(module).exports == old(module).exports
                &&& final(module).imports == old(module).imports
                &&& final(module).tables == old(module).tables
                &&& final(module).elements == old(module).elements
                &&& final(module).funcs.len() == first + pairs.len()
                &&& final(module).with_functions(old(module), indirect_sigs(old(module).types@, pairs))
                &&& forall|f: int|
                    0 <= f < first ==> old(module).rewritten_function(
                        f,
                        &rewrite,
                        #[trigger] final(module).funcs[f],
                    )
                &&& forall|i: int|
                    0 <= i < pairs.len() ==> is_indirect_stub(
                        final(module),
                        #[trigger] final(module).funcs[first + i],
                        i as nat,
                        old(module).types[pairs[i].0 as int].params@,
                        old(module).types[pairs[i].0 as int].results@,
                        pairs[i].0,
                        pairs[i].1,
                    )
            },
            Err(e) => if type_mismatch(old(module).types@, old(module).call_types()) {
                e == Error::TypeMismatch && *final(module) == *old(module)
            } else {
                e == Error::TooManySites && old(module).sites_overflow(
                    old(module).funcs.len() as int,
                    true,
                    i32::MAX as int,
                )
            },
        },
{
    let ghost start = *module;
    let pairs = module.collect_call_types();
    proof {
        lemma_call_types_valid(&start);
    }
    let mut stubs: IdMap<FuncId> = IdMap::new();
    let first_stub = module.funcs.len();
    match instrument_stubs(module, &pairs, &mut stubs) {
        Ok(()) => {},
        Err(e) => {
            return Err(e);
        },
    }
    let ghost stubbed_module = *module;
    let rewrite = Rewrite::Instrument { stubs: &stubs, first_stub };
    proof {
        lemma_stubbed(Map::empty(), pairs@, first_stub as int, pairs@.len() as int);
        lemma_stubs_cover(&start, &stubbed_module, stubs@);
        let made = stubbed(
            Map::<usize, FuncId>::empty(),
            pairs@,
            first_stub as int,
            pairs@.len() as int,
        );
        assert(stubs@ == made);
        assert forall|ty: usize| #[trigger] stubs@.contains_key(ty) implies stubs@[ty]
            < stubbed_module.funcs.len() by {
            assert(made.contains_key(ty));
            let i = choose|i: int| 0 <= i < pairs@.len() && (#[trigger] pairs@[i]).0 == ty;
            assert(made.contains_key(pairs@[i].0));
        }
    }
    let sites = match module.rewrite_call_sites(&rewrite) {
        Ok(sites) => sites,
        Err(e) => {
            proof {
                lemma_overflow_grown(&start, &stubbed_module, first_stub as int, true, i32::MAX as int);
            }
            return Err(e);
        },
    };
    proof {
        lemma_overflow_grown(&start, &stubbed_module, first_stub as int, true, i32::MAX as int);
        let first = first_stub as int;
        lemma_sites_upto_stop(stubbed_module.funcs@, stubbed_module.funcs.len() as int, first, true);
        lemma_sites_upto_grown(start.funcs@, stubbed_module.funcs@, first, first, true);
        assert forall|f: int| 0 <= f < first implies start.rewritten_function(
            f,
            &rewrite,
            #[trigger] module.funcs[f],
        ) by {
            assert(stubbed_module.rewritten_function(f, &rewrite, module.funcs[f]));
            assert(stubbed_module.funcs@.take(start.funcs.len() as int)[f]
                == stubbed_module.funcs@[f]);
            lemma_sites_upto_grown(start.funcs@, stubbed_module.funcs@, f, first, true);
        }
        assert(module.types == stubbed_module.types);
        assert(module.locals == stubbed_module.locals);
        assert forall|i: int| 0 <= i < pairs@.len() implies same_frame(
            stubbed_module.funcs[first + i],
            #[trigger] module.funcs[first + i],
        ) by {
            assert(stubbed_module.rewritten_function(first + i, &rewrite, module.funcs[first + i]));
            assert(is_indirect_stub(
                &stubbed_module,
                stubbed_module.funcs[first + i],
                i as nat,
                start.types[pairs@[i].0 as int].params@,
                start.types[pairs@[i].0 as int].results@,
                pairs@[i].0,
                pairs@[i].1,
            ));
        }
        lemma_with_functions_kept(
            &start,
            &stubbed_module,
            &*module,
            indirect_sigs(start.types@, pairs@),
        );
        assert(sites == sites_upto(start.funcs@, first, first, true).len());
        assert(sites <= i32::MAX);
        assert forall|i: int| 0 <= i < pairs@.len() implies is_indirect_stub(
            &*module,
            #[trigger] module.funcs[first + i],
            i as nat,
            start.types[pairs@[i].0 as int].params@,
            start.types[pairs@[i].0 as int].results@,
            pairs@[i].0,
            pairs@[i].1,
        ) by {
            assert(stubbed_module.rewritten_function(first + i, &rewrite, module.funcs[first + i]));
        }
    }
    Ok(Stubbed { stubs, first_stub, stub_count: pairs.len(), sites })
}

/// The observation state of an instrumented module: the call counter and
/// the globals of the windows, site by site.
#[derive(Debug)]
pub struct Wired {
    pub counter: GlobalId,
    pub slots: Vec<Slot>,
}

/// Adds the observation globals and the call counter, and weaves the
/// observation code into every stub.
pub fn wire_observations(module: &mut Module, made: &Stubbed) -> (wired: Wired)
    requires
        old(module).wf(),
        made.sites <= i32::MAX,
        made.first_stub + made.stub_count == old(module).funcs.len(),
        forall|i: int|
            0 <= i < made.stub_count ==> (#[trigger] old(module).funcs[made.first_stub + i]).kind
                is Local && old(module).funcs[made.first_stub + i].kind->Local_0.args.len() >= 2,
    ensures
        final(module).wf(),
        final(module).types == old(module).types,
        final(module).imports == old(module).imports,
        final(module).exports == old(module).exports,
        final(module).tables == old(module).tables,
        final(module).elements == old(module).elements,
        wired.slots@ == slots_of(
            made.sites as int,
            INDIRECT_WINDOW as int,
            old(module).globals.len() as int,
        ),
        wired.counter == old(module).globals.len() + made.sites * INDIRECT_WINDOW,
        final(module).globals@ == (old(module).globals@ + Seq::new(
            (made.sites * INDIRECT_WINDOW) as nat,
            |k: int| observation_global(),
        )).push(observation_global()),
        final(module).locals@ == old(module).locals@ + Seq::new(
            made.stub_count as nat,
            |i: int| ValType::I32,
        ),
        final(module).funcs.len() == old(module).funcs.len(),
        forall|f: int| 0 <= f < made.first_stub ==> #[trigger] final(module).funcs[f] == old(module).funcs[f],
        forall|i: int|
            0 <= i < made.stub_count ==> old(module).woven_function(
                made.first_stub + i,
                wired.slots@,
                wired.counter,
                (old(module).locals.len() + i) as usize,
                #[trigger] final(module).funcs[made.first_stub + i],
            ),
{
    let ghost start = *module;
    let slots = module.add_observation_globals(made.sites, INDIRECT_WINDOW);
    let counter = module.add_global(
        Global {
            ty: ValType::I32,
            mutable: true,
            kind: GlobalKind::Local(InitExpr::I32(UNOBSERVED)),
        },
    );
    let ghost ready = *module;
    proof {
        assert forall|k: int| 0 <= k < slots@.len() implies (#[trigger] slots@[k]).global
            < ready.globals.len() && slots@[k].site <= i32::MAX by {
            vstd::arithmetic::div_mod::lemma_div_is_ordered_by_denominator(k, 1, INDIRECT_WINDOW as int);
            assert(k / 1 == k);
            if slots@[k].site >= made.sites {
                vstd::arithmetic::div_mod::lemma_fundamental_div_mod(k, INDIRECT_WINDOW as int);
                assert(false);
            }
        }
        assert(ready.locals@ =~= start.locals@ + Seq::new(0, |i: int| ValType::I32));
    }
    let first = made.first_stub;
    let mut i: usize = 0;
    while i < made.stub_count
        invariant
            i <= made.stub_count,
            first == made.first_stub,
            first + made.stub_count == start.funcs.len(),
            ready.funcs == start.funcs,
            ready.wf(),
            module.wf(),
            module.types == start.types,
            module.imports == start.imports,
            module.exports == start.exports,
            module.tables == start.tables,
            module.elements == start.elements,
            module.globals == ready.globals,
            counter < ready.globals.len(),
            slots_valid(&ready, slots@),
            module.locals@ == start.locals@ + Seq::new(i as nat, |j: int| ValType::I32),
            module.funcs.len() == start.funcs.len(),
            forall|f: int|
                0 <= f < start.funcs.len() && !(first <= f < first + i) ==> #[trigger] module.funcs[f]
                    == start.funcs[f],
            forall|j: int|
                0 <= j < made.stub_count ==> (#[trigger] start.funcs[first + j]).kind is Local
                    && start.funcs[first + j].kind->Local_0.args.len() >= 2,
            forall|j: int|
                0 <= j < i ==> start.woven_function(
                    first + j,
                    slots@,
                    counter,
                    (start.locals.len() + j) as usize,
                    #[trigger] module.funcs[first + j],
                ),
        decreases made.stub_count - i,
    {
        let ghost before = *module;
        assert(start.funcs[first + i].kind is Local);
        assert(before.funcs[first + i] == start.funcs[first + i]);
        module.weave_stub(first + i, &slots, counter);
        proof {
            assert(module.locals@ =~= start.locals@ + Seq::new((i + 1) as nat, |j: int| ValType::I32));
            assert forall|j: int| 0 <= j < i + 1 implies start.woven_function(
                first + j,
                slots@,
                counter,
                (start.locals.len() + j) as usize,
                #[trigger] module.funcs[first + j],
            ) by {
                if j < i {
                    assert(module.funcs[first + j] == before.funcs[first + j]);
                } else {
                    assert(before.woven_function(
                        first + i,
                        slots@,
                        counter,
                        before.locals.len(),
                        module.funcs[first + i],
                    ));
                }
            }
        }
        i += 1;
    }
    Wired { counter, slots }
}

/// What wrapping the slowcalls made: the functions wrapped, in increasing
/// order, the id of the first wrapper, and the number of fastcalls. None
/// is wrapped where the module has no main function table.
#[derive(Debug)]
pub struct Wrapped {
    pub slowcalls: Vec<FuncId>,
    pub first_wrapper: FuncId,
    pub fastcalls: usize,
}

/// The number of local functions among the first `n`.
pub open spec fn local_count(funcs: Seq<Function>, n: int) -> nat
    decreases n,
{
    if n <= 0 {
        0
    } else {
        local_count(funcs, n - 1) + if funcs[n - 1].kind is Local {
            1nat
        } else {
            0nat
        }
    }
}

/// Local functions among the first `n`, listed in increasing order, are no
/// more than the local functions among the first `n`.
pub proof fn lemma_locals_counted(funcs: Seq<Function>, n: int, list: Seq<FuncId>)
    requires
        0 <= n <= funcs.len(),
        strictly_increasing(list),
        forall|i: int|
            0 <= i < list.len() ==> (#[trigger] list[i]) < n && funcs[list[i] as int].kind is Local,
    ensures
        list.len() <= local_count(funcs, n),
    decreases n,
{
    if n == 0 {
        if list.len() > 0 {
            assert(list[0] < n);
        }
    } else if list.len() > 0 && list[list.len() - 1] == n - 1 {
        let front = list.drop_last();
        assert forall|i: int| 0 <= i < front.len() implies (#[trigger] front[i]) < n - 1
            && funcs[front[i] as int].kind is Local by {
            assert(front[i] == list[i]);
            assert(list[i] < list[list.len() - 1]);
        }
        assert(strictly_increasing(front)) by {
            assert forall|i: int, j: int| 0 <= i < j < front.len() implies front[i] < front[j] by {
                assert(list[i] < list[j]);
            }
        }
        lemma_locals_counted(funcs, n - 1, front);
    } else {
        assert forall|i: int| 0 <= i < list.len() implies (#[trigger] list[i]) < n - 1
            && funcs[list[i] as int].kind is Local by {
            if list[i] == n - 1 {
                assert(i < list.len() - 1);
                assert(list[i] < list[list.len() - 1]);
            }
        }
        lemma_locals_counted(funcs, n - 1, list);
    }
}

/// Counts the local functions of the module.
pub fn count_locals(module: &Module) -> (n: usize)
    ensures
        n == local_count(module.funcs@, module.funcs.len() as int),
{
    let mut n: usize = 0;
    let mut f: usize = 0;
    while f < module.funcs.len()
        invariant
            f <= module.funcs.len(),
            n <= f,
            n == local_count(module.funcs@, f as int),
        decreases module.funcs.len() - f,
    {
        match &module.funcs[f].kind {
            FunctionKind::Local(_) => {
                n = n + 1;
            },
            FunctionKind::Import { .. } => {},
        }
        f += 1;
    }
    n
}

/// Classifies the local functions and wraps the slowcalls, each wrapper
/// counting its calls in `counter`.
///
/// A module without a main function table is left as it is. Fails, with
/// nothing changed, if the module has such a table and exports no function
/// as `_start`.
pub fn wrap_slowcalls(module: &mut Module, counter: GlobalId) -> (r: Result<Wrapped, Error>)
    requires
        old(module).wf(),
        counter < old(module).globals.len(),
    ensures
        match r {
            Ok(made) => {
                let first = old(module).funcs.len() as int;
                &&& old(module).main_table() is Some ==> old(module).start() is Some
                &&& final(module).wf()
                &&& made.first_wrapper == first
                &&& strictly_increasing(made.slowcalls@)
                &&& forall|f: FuncId|
                    made.slowcalls@.contains(f) <==> old(module).main_table() is Some && old(
                        module,
                    ).is_slowcall(default_benign(), f)
                &&& made.fastcalls + made.slowcalls@.len() == local_count(old(module).funcs@, first)
                &&& final(module).types == old(module).types
                &&& final(module).with_functions(
                    old(module),
                    wrapper_sigs(old(module), made.slowcalls@),
                )
                &&& final(module).globals == old(module).globals
                &&& final(module).exports == old(module).exports
                &&& final(module).imports == old(module).imports
                &&& final(module).tables == old(module).tables
                &&& final(module).elements == old(module).elements
                &&& final(module).funcs.len() == first + made.slowcalls@.len()
                &&& forall|f: int|
                    0 <= f < first ==> old(module).redirected_function(
                        f,
                        wrappers(made.slowcalls@, first),
                        #[trigger] final(module).funcs[f],
                    )
                &&& forall|i: int|
                    0 <= i < made.slowcalls@.len() ==> is_slowcall_stub(
                        final(module),
                        #[trigger] final(module).funcs[first + i],
                        i as nat,
                        old(module).params_of(made.slowcalls@[i]),
                        old(module).results_of(made.slowcalls@[i]),
                        made.slowcalls@[i],
                        counter,
                    )
            },
            Err(e) => {
                &&& e == Error::MissingStart
                &&& old(module).main_table() is Some
                &&& old(module).start() is None
                &&& *final(module) == *old(module)
            },
        },
{
    let first_wrapper = module.funcs.len();
    let locals = count_locals(module);
    let slowcalls = match module.main_function_table() {
        Some(_) => match compute_slowcalls(module) {
            Ok(slow) => slow,
            Err(e) => {
                return Err(e);
            },
        },
        None => Vec::new(),
    };
    proof {
        assert forall|i: int| 0 <= i < slowcalls@.len() implies (#[trigger] slowcalls@[i])
            < module.funcs.len() by {
            assert(slowcalls@.contains(slowcalls@[i]));
        }
        assert forall|i: int| 0 <= i < slowcalls@.len() implies module.is_local(
            #[trigger] slowcalls@[i],
        ) by {
            assert(slowcalls@.contains(slowcalls@[i]));
        }
        lemma_locals_counted(module.funcs@, module.funcs.len() as int, slowcalls@);
    }
    let fastcalls = locals - slowcalls.len();
    generate_slowcall_stubs(module, &slowcalls, counter);
    Ok(Wrapped { slowcalls, first_wrapper, fastcalls })
}

/// Behind the functions that a module had, every function added that is a
/// local one counts.
pub proof fn lemma_local_count_grown(before: Seq<Function>, after: Seq<Function>, n: int)
    requires
        before.len() <= n <= after.len(),
        forall|f: int| 0 <= f < before.len() ==> (#[trigger] after[f]).kind is Local == (before[f].kind is Local),
        forall|f: int| before.len() <= f < after.len() ==> (#[trigger] after[f]).kind is Local,
    ensures
        local_count(after, n) == local_count(before, before.len() as int) + (n - before.len()),
    decreases n,
{
    if n == before.len() {
        lemma_local_count_same(before, after, n);
    } else {
        lemma_local_count_grown(before, after, n - 1);
    }
}

proof fn lemma_local_count_same(before: Seq<Function>, after: Seq<Function>, n: int)
    requires
        0 <= n <= before.len() <= after.len(),
        forall|f: int| 0 <= f < before.len() ==> (#[trigger] after[f]).kind is Local == (before[f].kind is Local),
    ensures
        local_count(after, n) == local_count(before, n),
    decreases n,
{
    if n > 0 {
        lemma_local_count_same(before, after, n - 1);
    }
}

/// A stub for indirect calls stays the stub it is when types and locals
/// are added to the module.
pub proof fn lemma_indirect_stub_grown(
    before: &Module,
    after: &Module,
    func: Function,
    index: nat,
    params: Seq<ValType>,
    results: Seq<ValType>,
    ty: usize,
    table: usize,
)
    requires
        extends(after.types@, before.types@),
        extends(after.locals@, before.locals@),
        is_indirect_stub(before, func, index, params, results, ty, table),
    ensures
        is_indirect_stub(after, func, index, params, results, ty, table),
{
    let local = func.kind->Local_0;
    assert(after.types@.take(before.types.len() as int)[local.ty as int] == after.types@[local.ty as int]);
    assert forall|j: int| 0 <= j < local.args@.len() implies (#[trigger] local.args@[j])
        < after.locals.len() && after.locals[local.args@[j] as int] == (params + seq![
        ValType::I32,
        ValType::I32,
    ])[j] by {
        let a = local.args@[j] as int;
        assert(after.locals@.take(before.locals.len() as int)[a] == after.locals@[a]);
    }
}

/// What instrumenting a module made.
#[derive(Debug)]
pub struct Instrumented {
    /// The stub to call for each signature.
    pub stubs: IdMap<FuncId>,
    /// The id of the first stub; the others follow.
    pub first_stub: FuncId,
    /// The number of stubs.
    pub stub_count: usize,
    /// The number of call sites, which are indexed from 0.
    pub sites: usize,
    /// The global that counts the calls of stubs and wrappers.
    pub counter: GlobalId,
    /// The observation globals, site by site.
    pub slots: Vec<Slot>,
    /// The slowcalls, in increasing order.
    pub slowcalls: Vec<FuncId>,
    /// The id of the first wrapper; the others follow.
    pub first_wrapper: FuncId,
    /// The number of fastcalls.
    pub fastcalls: usize,
}

/// The module cannot be instrumented for want of an entry function.
pub open spec fn lacks_start(module: &Module) -> bool {
    module.main_table() is Some && module.start() is None
}

impl Module {
    /// `after` is the stub numbered `index` for indirect calls through `ty`
    /// and `table`, with the observation code woven in, its flag being the
    /// local `set_value`, and then its direct calls redirected. The module
    /// is the one that holds the stub.
    pub open spec fn instrumented_stub(
        &self,
        index: nat,
        params: Seq<ValType>,
        results: Seq<ValType>,
        ty: usize,
        table: usize,
        slots: Seq<Slot>,
        counter: GlobalId,
        set_value: LocalId,
        mapping: Map<usize, FuncId>,
        current: FuncId,
        after: Function,
    ) -> bool {
        &&& set_value < self.locals.len()
        &&& self.locals[set_value as int] == ValType::I32
        &&& exists|made: Function, woven: Function|
            #![trigger is_woven_function(made, slots, counter, set_value, woven)]
            {
                &&& is_indirect_stub(self, made, index, params, results, ty, table)
                &&& is_woven_function(made, slots, counter, set_value, woven)
                &&& is_redirected(woven, mapping, current, after)
            }
    }

    /// The signatures and the locals of the instrumented module `after`,
    /// and where its stubs and wrappers stand. The signatures are those
    /// that the module had and then those of the stubs that it lacked; a
    /// wrapper has the signature of what it wraps. The locals are those
    /// that the module had, then the arguments of the stubs, stub by stub,
    /// then one flag for each stub, then the arguments of the wrappers.
    #[verifier::opaque]
    pub open spec fn instrumented_frame(
        &self,
        after: &Module,
        pairs: Seq<CallType>,
        slowcalls: Seq<FuncId>,
    ) -> bool {
        let stubs = indirect_sigs(self.types@, pairs);
        let wraps = wrapper_sigs(after, slowcalls);
        let first = self.funcs.len();
        let flags = self.locals.len() + params_upto(stubs, stubs.len() as int).len();
        &&& sigs(after.types@) == with_sigs(sigs(self.types@), stubs)
        &&& after.locals@ == self.locals@ + params_upto(stubs, stubs.len() as int) + Seq::new(
            stubs.len(),
            |i: int| ValType::I32,
        ) + params_upto(wraps, wraps.len() as int)
        &&& forall|i: int|
            0 <= i < stubs.len() ==> placed(
                after.types@,
                #[trigger] after.funcs[first + i],
                stubs[i],
                self.locals.len() + params_upto(stubs, i).len(),
            )
        &&& forall|i: int|
            0 <= i < wraps.len() ==> placed(
                after.types@,
                #[trigger] after.funcs[first + stubs.len() + i],
                wraps[i],
                flags + stubs.len() + params_upto(wraps, i).len(),
            )
    }

    /// `after` is function `f` of this module with its call sites rewritten
    /// and then its direct calls redirected.
    pub open spec fn instrumented_function(
        &self,
        f: int,
        rewrite: &Rewrite,
        mapping: Map<usize, FuncId>,
        after: Function,
    ) -> bool {
        exists|mid: Function|
            self.rewritten_function(f, rewrite, mid) && is_redirected(mid, mapping, f as usize, after)
    }
}

/// The signatures and locals of a module whose stubs were made, then
/// woven, and whose slowcalls were then wrapped.
proof fn lemma_instrumented_frame(
    start: &Module,
    sited: &Module,
    woven: &Module,
    done: &Module,
    last: &Module,
    pairs: Seq<CallType>,
    slowcalls: Seq<FuncId>,
)
    requires
        sited.with_functions(start, indirect_sigs(start.types@, pairs)),
        woven.types == sited.types,
        woven.locals@ == sited.locals@ + Seq::new(pairs.len(), |i: int| ValType::I32),
        woven.funcs.len() == sited.funcs.len(),
        forall|i: int|
            0 <= i < pairs.len() ==> same_frame(
                sited.funcs[start.funcs.len() + i],
                #[trigger] woven.funcs[start.funcs.len() + i],
            ),
        done.types == woven.types,
        done.with_functions(woven, wrapper_sigs(woven, slowcalls)),
        forall|i: int|
            0 <= i < pairs.len() ==> same_frame(
                woven.funcs[start.funcs.len() + i],
                #[trigger] done.funcs[start.funcs.len() + i],
            ),
        wrapper_sigs(done, slowcalls) == wrapper_sigs(woven, slowcalls),
        last.types == done.types,
        last.locals == done.locals,
        last.funcs == done.funcs,
    ensures
        start.instrumented_frame(last, pairs, slowcalls),
{
    reveal(Module::with_functions);
    reveal(Module::instrumented_frame);
    let stubs = indirect_sigs(start.types@, pairs);
    let wraps = wrapper_sigs(last, slowcalls);
    let first = start.funcs.len();
    assert(wraps == wrapper_sigs(woven, slowcalls));
    assert forall|i: int| 0 <= i < stubs.len() implies placed(
        last.types@,
        #[trigger] last.funcs[first + i],
        stubs[i],
        start.locals.len() + params_upto(stubs, i).len(),
    ) by {
        assert(placed(
            sited.types@,
            sited.funcs[first + i],
            stubs[i],
            start.locals.len() + params_upto(stubs, i).len(),
        ));
        assert(same_frame(sited.funcs[first + i], woven.funcs[first + i]));
        assert(same_frame(woven.funcs[first + i], done.funcs[first + i]));
    }
    assert forall|i: int| 0 <= i < wraps.len() implies placed(
        last.types@,
        #[trigger] last.funcs[first + stubs.len() + i],
        wraps[i],
        start.locals.len() + params_upto(stubs, stubs.len() as int).len() + stubs.len()
            + params_upto(wraps, i).len(),
    ) by {
        assert(placed(
            done.types@,
            done.funcs[woven.funcs.len() + i],
            wraps[i],
            woven.locals.len() + params_upto(wraps, i).len(),
        ));
    }
}

/// Instruments a module: every indirect call goes through a stub that
/// records in the globals of the calling site the slot it calls through;
/// every slowcall goes through a wrapper; stubs and wrappers count their
/// calls; and the counter and the observation globals are exported.
///
/// The counter and the observation globals start at `-1`, so the counter
/// always is one less than the number of calls counted.
///
/// The functions that the module had keep their verdicts: the slowcalls
/// are those of the module as it was, and each stub whose indirect call
/// could reach a function that is no fastcall. Stubs come first among the
/// functions added, in the order in which the pairs of signature and table
/// that they serve are first met, then the wrappers, in the order of the
/// functions they wrap.
///
/// Fails if the module has a main function table and exports no function
/// as `_start`, if the sites are more than can be numbered, or if the
/// signature of an indirect call is not the first of its kind in the
/// module. Whatever the failure, the module is left as it was.
pub fn instrument(module: &mut Module) -> (r: Result<Instrumented, Error>)
    requires
        old(module).wf(),
    ensures
        match r {
            Ok(made) => {
                let pairs = old(module).call_types();
                let first = old(module).funcs.len() as int;
                let rewrite = Rewrite::Instrument { stubs: &made.stubs, first_stub: made.first_stub };
                &&& !type_mismatch(old(module).types@, pairs)
                &&& !lacks_start(old(module))
                &&& !old(module).sites_overflow(first, true, i32::MAX as int)
                &&& final(module).wf()
                &&& made.first_stub == first
                &&& made.stub_count == pairs.len()
                &&& made.stubs@ == stubbed(Map::empty(), pairs, first, pairs.len() as int)
                &&& made.sites == sites_upto(old(module).funcs@, first, first, true).len()
                &&& made.sites <= i32::MAX
                &&& made.first_wrapper == first + pairs.len()
                &&& made.slots@ == slots_of(
                    made.sites as int,
                    INDIRECT_WINDOW as int,
                    old(module).globals.len() as int,
                )
                &&& made.counter == old(module).globals.len() + made.sites * INDIRECT_WINDOW
                &&& strictly_increasing(made.slowcalls@)
                &&& final(module).imports == old(module).imports
                &&& final(module).tables == old(module).tables
                &&& final(module).elements == old(module).elements
                &&& extends(final(module).types@, old(module).types@)
                &&& extends(final(module).locals@, old(module).locals@)
                &&& final(module).globals@ == (old(module).globals@ + Seq::new(
                    (made.sites * INDIRECT_WINDOW) as nat,
                    |k: int| observation_global(),
                )).push(observation_global())
                &&& extends(final(module).exports@, old(module).exports@)
                &&& final(module).exports.len() == old(module).exports.len() + 1 + made.slots@.len()
                &&& final(module).exports[old(module).exports.len() as int].name@ == counter_name()
                &&& final(module).exports[old(module).exports.len() as int].item
                    == ExportItem::Global(made.counter)
                &&& forall|k: int|
                    0 <= k < made.slots@.len() ==> exports_slot(
                        #[trigger] final(module).exports[old(module).exports.len() + 1 + k],
                        made.slots@[k],
                    )
                &&& final(module).funcs.len() == first + pairs.len() + made.slowcalls@.len()
                &&& forall|f: int|
                    0 <= f < first ==> #[trigger] old(module).instrumented_function(
                        f,
                        &rewrite,
                        wrappers(made.slowcalls@, made.first_wrapper as int),
                        final(module).funcs[f],
                    )
                &&& forall|i: int|
                    0 <= i < pairs.len() ==> #[trigger] final(module).instrumented_stub(
                        i as nat,
                        old(module).types[pairs[i].0 as int].params@,
                        old(module).types[pairs[i].0 as int].results@,
                        pairs[i].0,
                        pairs[i].1,
                        made.slots@,
                        made.counter,
                        (old(module).locals.len() + params_upto(
                            indirect_sigs(old(module).types@, pairs),
                            pairs.len() as int,
                        ).len() + i) as usize,
                        wrappers(made.slowcalls@, made.first_wrapper as int),
                        (first + i) as usize,
                        final(module).funcs[first + i],
                    )
                &&& old(module).instrumented_frame(final(module), pairs, made.slowcalls@)
                &&& forall|i: int|
                    0 <= i < made.slowcalls@.len() ==> is_slowcall_stub(
                        final(module),
                        #[trigger] final(module).funcs[made.first_wrapper + i],
                        i as nat,
                        final(module).params_of(made.slowcalls@[i]),
                        final(module).results_of(made.slowcalls@[i]),
                        made.slowcalls@[i],
                        made.counter,
                    )
                &&& forall|f: FuncId| #[trigger]
                    made.slowcalls@.contains(f) <==> old(module).main_table() is Some && old(
                        module,
                    ).slow_when_routed(default_benign(), pairs, f)
                &&& made.fastcalls + made.slowcalls@.len() == local_count(old(module).funcs@, first)
                    + made.stub_count
            },
            Err(e) => {
                &&& *final(module) == *old(module)
                &&& if lacks_start(old(module)) {
                    e == Error::MissingStart
                } else if old(module).sites_overflow(
                    old(module).funcs.len() as int,
                    true,
                    i32::MAX as int,
                ) {
                    e == Error::TooManySites
                } else {
                    e == Error::TypeMismatch && type_mismatch(
                        old(module).types@,
                        old(module).call_types(),
                    )
                }
            },
        },
{
    let ghost start = *module;
    if module.main_function_table().is_some() && module.start_function().is_none() {
        return Err(Error::MissingStart);
    }
    let none: IdMap<FuncId> = IdMap::new();
    match module.count_call_sites(&Rewrite::Instrument { stubs: &none, first_stub: module.funcs.len() }) {
        Ok(_) => {},
        Err(e) => {
            return Err(e);
        },
    }
    let made = match instrument_call_sites(module) {
        Ok(made) => made,
        Err(e) => {
            return Err(e);
        },
    };
    let ghost sited = *module;
    proof {
        assert forall|i: int| 0 <= i < made.stub_count implies (#[trigger] sited.funcs[made.first_stub
            + i]).kind is Local && sited.funcs[made.first_stub + i].kind->Local_0.args.len()
            >= 2 by {
            let pairs = start.call_types();
            assert(is_indirect_stub(
                &sited,
                sited.funcs[made.first_stub + i],
                i as nat,
                start.types[pairs[i].0 as int].params@,
                start.types[pairs[i].0 as int].results@,
                pairs[i].0,
                pairs[i].1,
            ));
        }
    }
    let wired = wire_observations(module, &made);
    let ghost woven = *module;
    let wrapped = match wrap_slowcalls(module, wired.counter) {
        Ok(wrapped) => wrapped,
        Err(e) => {
            assert(false);
            return Err(e);
        },
    };
    let ghost done = *module;
    proof {
        if start.main_table() is Some {
            let pairs = start.call_types();
            let first = start.funcs.len() as int;
            let rewrite = Rewrite::Instrument { stubs: &made.stubs, first_stub: made.first_stub };
            assert forall|i: int| 0 <= i < pairs.len() implies {
                &&& (#[trigger] sited.funcs[first + i]).kind is Local
                &&& sited.funcs[first + i].kind->Local_0.calls_through(pairs[i].0, pairs[i].1)
            } by {
                assert(is_indirect_stub(
                    &sited,
                    sited.funcs[first + i],
                    i as nat,
                    start.types[pairs[i].0 as int].params@,
                    start.types[pairs[i].0 as int].results@,
                    pairs[i].0,
                    pairs[i].1,
                ));
            }
            lemma_routed_through_stubs(
                &start,
                &sited,
                &woven,
                &rewrite,
                made.stubs@,
                wired.slots@,
                wired.counter,
            );
            assert forall|f: FuncId| #[trigger]
                wrapped.slowcalls@.contains(f) <==> start.slow_when_routed(
                    default_benign(),
                    pairs,
                    f,
                ) by {
                lemma_routed_verdicts(&start, &woven, made.stubs@, pairs, default_benign(), f);
            }
        }
        assert forall|k: int| 0 <= k < wired.slots@.len() implies (#[trigger] wired.slots@[k]).global
            < done.globals.len() && wired.slots@[k].site <= i32::MAX by {
            vstd::arithmetic::div_mod::lemma_fundamental_div_mod(k, INDIRECT_WINDOW as int);
            if wired.slots@[k].site >= made.sites {
                assert(false);
            }
        }
    }
    module.export_observations(wired.counter, &wired.slots);
    proof {
        let first = start.funcs.len() as int;
        let rewrite = Rewrite::Instrument { stubs: &made.stubs, first_stub: made.first_stub };
        let mapping = wrappers(wrapped.slowcalls@, wrapped.first_wrapper as int);
        assert forall|f: int| 0 <= f < first implies #[trigger] start.instrumented_function(
            f,
            &rewrite,
            mapping,
            module.funcs[f],
        ) by {
            let mid = sited.funcs[f];
            assert(woven.funcs[f] == mid);
            assert(woven.redirected_function(f, mapping, done.funcs[f]));
            assert(start.rewritten_function(f, &rewrite, mid) && is_redirected(
                mid,
                mapping,
                f as usize,
                module.funcs[f],
            ));
        }
        assert(module.types == sited.types);
        assert(extends(module.types@, sited.types@)) by {
            assert(module.types@.take(sited.types.len() as int) =~= sited.types@);
        }
        let pairs = start.call_types();
        lemma_with_functions_locals(&start, &sited, indirect_sigs(start.types@, pairs));
        lemma_with_functions_locals(&woven, &done, wrapper_sigs(&woven, wrapped.slowcalls@));
        assert(extends(done.locals@, sited.locals@)) by {
            assert(done.locals@.take(woven.locals.len() as int) == woven.locals@);
            assert(done.locals@.take(sited.locals.len() as int) =~= sited.locals@);
        }
        assert forall|i: int| 0 <= i < pairs.len() implies #[trigger] module.instrumented_stub(
            i as nat,
            start.types[pairs[i].0 as int].params@,
            start.types[pairs[i].0 as int].results@,
            pairs[i].0,
            pairs[i].1,
            wired.slots@,
            wired.counter,
            (start.locals.len() + params_upto(
                indirect_sigs(start.types@, pairs),
                pairs.len() as int,
            ).len() + i) as usize,
            mapping,
            (first + i) as usize,
            module.funcs[first + i],
        ) by {
            let stub0 = sited.funcs[first + i];
            let stub1 = woven.funcs[first + i];
            let set_value = (sited.locals.len() + i) as usize;
            assert(is_indirect_stub(
                &sited,
                stub0,
                i as nat,
                start.types[pairs[i].0 as int].params@,
                start.types[pairs[i].0 as int].results@,
                pairs[i].0,
                pairs[i].1,
            ));
            lemma_indirect_stub_grown(
                &sited,
                &*module,
                stub0,
                i as nat,
                start.types[pairs[i].0 as int].params@,
                start.types[pairs[i].0 as int].results@,
                pairs[i].0,
                pairs[i].1,
            );
            assert(sited.woven_function(first + i, wired.slots@, wired.counter, set_value, stub1));
            assert(woven.redirected_function(first + i, mapping, done.funcs[first + i]));
            assert(woven.locals@[set_value as int] == ValType::I32);
            assert(done.locals@.take(woven.locals.len() as int)[set_value as int]
                == done.locals@[set_value as int]);
            assert(is_woven_function(stub0, wired.slots@, wired.counter, set_value, stub1));
        }
        assert forall|i: int| 0 <= i < wrapped.slowcalls@.len() implies is_slowcall_stub(
            &*module,
            #[trigger] module.funcs[wrapped.first_wrapper + i],
            i as nat,
            module.params_of(wrapped.slowcalls@[i]),
            module.results_of(wrapped.slowcalls@[i]),
            wrapped.slowcalls@[i],
            wired.counter,
        ) by {
            let target = wrapped.slowcalls@[i] as int;
            assert(wrapped.slowcalls@.contains(wrapped.slowcalls@[i]));
            assert(woven.is_local(wrapped.slowcalls@[i]));
            assert(woven.funcs[target].wf(woven.bounds()));
            assert(woven.redirected_function(target, mapping, done.funcs[target]));
            let ty = woven.funcs[target].type_id() as int;
            assert(done.funcs[target].type_id() == ty);
            assert(done.types@.take(woven.types.len() as int)[ty] == done.types@[ty]);
        }
        assert forall|f: int| 0 <= f < start.funcs.len() implies (#[trigger] woven.funcs@[f]).kind
            is Local == (start.funcs@[f].kind is Local) by {
            assert(woven.funcs[f] == sited.funcs[f]);
            assert(start.rewritten_function(f, &rewrite, sited.funcs[f]));
        }
        assert forall|f: int| start.funcs.len() <= f < woven.funcs.len() implies (#[trigger] woven.funcs@[f]).kind
            is Local by {
            let i = f - first;
            assert(sited.woven_function(
                first + i,
                wired.slots@,
                wired.counter,
                (sited.locals.len() + i) as usize,
                woven.funcs[first + i],
            ));
        }
        lemma_local_count_grown(start.funcs@, woven.funcs@, woven.funcs.len() as int);
        assert forall|i: int| 0 <= i < pairs.len() implies same_frame(
            sited.funcs[first + i],
            #[trigger] woven.funcs[first + i],
        ) && same_frame(woven.funcs[first + i], done.funcs[first + i]) by {
            assert(sited.woven_function(
                first + i,
                wired.slots@,
                wired.counter,
                (sited.locals.len() + i) as usize,
                woven.funcs[first + i],
            ));
            assert(woven.redirected_function(first + i, mapping, done.funcs[first + i]));
        }
        assert(wrapper_sigs(&done, wrapped.slowcalls@) =~= wrapper_sigs(&woven, wrapped.slowcalls@)) by {
            assert forall|i: int| 0 <= i < wrapped.slowcalls@.len() implies done.params_of(
                wrapped.slowcalls@[i],
            ) == woven.params_of(wrapped.slowcalls@[i]) && done.results_of(wrapped.slowcalls@[i])
                == woven.results_of(wrapped.slowcalls@[i]) by {
                let target = wrapped.slowcalls@[i] as int;
                assert(wrapped.slowcalls@.contains(wrapped.slowcalls@[i]));
                assert(woven.is_local(wrapped.slowcalls@[i]));
                assert(woven.redirected_function(target, mapping, done.funcs[target]));
            }
        }
        lemma_instrumented_frame(
            &start,
            &sited,
            &woven,
            &done,
            &*module,
            pairs,
            wrapped.slowcalls@,
        );
        assert(extends(module.locals@, start.locals@)) by {
            assert(sited.locals@.take(start.locals.len() as int) == start.locals@);
            assert(done.locals@.take(woven.locals.len() as int) == woven.locals@);
            assert(module.locals@.take(start.locals.len() as int) =~= start.locals@);
        }
    }
    Ok(
        Instrumented {
            stubs: made.stubs,
            first_stub: made.first_stub,
            stub_count: made.stub_count,
            sites: made.sites,
            counter: wired.counter,
            slots: wired.slots,
            slowcalls: wrapped.slowcalls,
            first_wrapper: wrapped.first_wrapper,
            fastcalls: wrapped.fastcalls,
        },
    )
}

/// Functions without indirect calls, added behind those that a module had,
/// add no sites.
pub proof fn lemma_stubs_add_no_sites(before: &Module, after: &Module, shift: bool)
    requires
        extends(after.funcs@, before.funcs@),
        forall|f: int|
            before.funcs.len() <= f < after.funcs.len() ==> (#[trigger] after.funcs[f]).kind is Local
                && crate::sites::body_direct(after.funcs[f].kind->Local_0.body()),
    ensures
        sites_upto(after.funcs@, after.funcs.len() as int, usize::MAX + 1, shift) == sites_upto(
            before.funcs@,
            before.funcs.len() as int,
            usize::MAX + 1,
            shift,
        ),
{
    lemma_added_no_sites(before.funcs@, after.funcs@, after.funcs.len() as int, shift);
}

proof fn lemma_added_no_sites(before: Seq<Function>, after: Seq<Function>, n: int, shift: bool)
    requires
        extends(after, before),
        before.len() <= n <= after.len(),
        after.len() <= usize::MAX,
        forall|f: int|
            before.len() <= f < after.len() ==> (#[trigger] after[f]).kind is Local
                && crate::sites::body_direct(after[f].kind->Local_0.body()),
    ensures
        sites_upto(after, n, usize::MAX + 1, shift) == sites_upto(
            before,
            before.len() as int,
            usize::MAX + 1,
            shift,
        ),
    decreases n,
{
    if n == before.len() {
        lemma_sites_upto_grown(before, after, n, usize::MAX + 1, shift);
    } else {
        lemma_added_no_sites(before, after, n - 1, shift);
        let local = after[n - 1].kind->Local_0;
        lemma_body_order_distinct(local.body(), local.entry);
        crate::sites::lemma_direct_body_sites(local.body(), local.order(), (n - 1) as usize, shift);
        assert(function_sites(after[n - 1], (n - 1) as usize, usize::MAX + 1, shift)
            =~= Seq::empty());
        assert(sites_upto(after, n, usize::MAX + 1, shift) =~= sites_upto(
            after,
            n - 1,
            usize::MAX + 1,
            shift,
        ));
    }
}

/// What optimizing a module made.
#[derive(Debug)]
pub struct Optimized {
    /// The decision for each site that the profile covers; a site sent to
    /// callees names its stub alone.
    pub decisions: IdMap<MapValue>,
    /// The id of the first stub; the others follow.
    pub first_stub: FuncId,
    /// The number of stubs.
    pub stub_count: usize,
    /// The number of call sites, which are indexed from 0.
    pub sites: usize,
}

/// What the profile decides for each site it covers, resolved against the
/// main function table; nothing where the module has no such table.
pub open spec fn resolved(module: &Module, profile: &Profile, decisions: Map<usize, MapValue>) -> bool {
    if module.main_segment() is Some {
        &&& forall|site: usize| decisions.contains_key(site) <==> profile@.contains_key(site)
        &&& forall|site: usize| #[trigger]
            profile@.contains_key(site) ==> decisions[site]@ == decision(
                module.table_members(),
                module.table_base(),
                profile@[site],
            )
    } else {
        decisions == Map::<usize, MapValue>::empty()
    }
}

impl Module {
    /// The functions that the profile saw called at `site`, in the order of
    /// the observations.
    pub open spec fn callees_at(&self, profile: &Profile, site: usize) -> Seq<FuncId> {
        callees(self.table_members(), self.table_base(), profile@[site])
    }
}

/// The profile sends a site to callees that cannot share a stub.
pub open spec fn profile_mismatch(module: &Module, profile: &Profile) -> bool {
    module.main_segment() is Some && exists|site: usize| #[trigger]
        profile@.contains_key(site) && decision(
            module.table_members(),
            module.table_base(),
            profile@[site],
        ) is Direct && crate::instrument::callees_mismatch(
            module,
            callees(module.table_members(), module.table_base(), profile@[site]),
        )
}

/// The profile has a decision for `site`: it covers the site, and the
/// module has a table to resolve it against.
pub open spec fn profile_covers(module: &Module, profile: &Profile, site: usize) -> bool {
    module.main_segment() is Some && profile@.contains_key(site)
}

/// The profile does not cover one of the first `sites` sites.
pub open spec fn profile_misses(module: &Module, profile: &Profile, sites: int) -> bool {
    exists|i: usize| i < sites && !#[trigger] profile_covers(module, profile, i)
}

/// The decision for `site` names the function `stub` alone.
pub open spec fn names_stub(decisions: Map<usize, MapValue>, site: usize, stub: int) -> bool {
    decisions.contains_key(site) && decisions[site]@ == Decision::Direct(seq![stub as usize])
}

/// The decision for some site names the function `stub` alone.
pub open spec fn stub_named(decisions: Map<usize, MapValue>, stub: int) -> bool {
    exists|site: usize| #[trigger] names_stub(decisions, site, stub)
}

/// The stubs are numbered in the order of their sites: `count` stubs from
/// `first` on, each named by a site, and a later site names a later stub.
pub open spec fn stubs_in_order(decisions: Map<usize, MapValue>, first: int, count: int) -> bool {
    &&& forall|stub: int| first <= stub < first + count ==> #[trigger] stub_named(decisions, stub)
    &&& forall|a: usize, b: usize|
        #![trigger decisions[a], decisions[b]]
        decisions.contains_key(a) && decisions.contains_key(b) && decisions[a]@ is Direct
            && decisions[b]@ is Direct && a < b ==> decisions[a]->Direct_0@[0]
            < decisions[b]->Direct_0@[0]
}

/// The site whose decision names the function `stub` alone.
pub open spec fn stub_site(decisions: Map<usize, MapValue>, stub: int) -> usize {
    choose|site: usize| names_stub(decisions, site, stub)
}

/// The signatures of the stubs of an optimized module, `count` of them
/// from `first` on: that of the callees of the stub's site, with one more
/// 32-bit integer to take.
pub open spec fn optimized_sigs(
    module: &Module,
    profile: &Profile,
    decisions: Map<usize, MapValue>,
    first: int,
    count: int,
) -> Seq<Sig> {
    Seq::new(
        count as nat,
        |i: int|
            {
                let callee = module.callees_at(profile, stub_site(decisions, first + i))[0];
                (module.params_of(callee) + seq![ValType::I32], module.results_of(callee))
            },
    )
}

/// The signatures of the stubs made for the resolved decisions are those
/// of the stubs that the final decisions name.
proof fn lemma_optimized_sigs(
    start: &Module,
    profile: &Profile,
    resolved_map: Map<usize, MapValue>,
    decisions: Map<usize, MapValue>,
    keys: Seq<usize>,
    first: int,
)
    requires
        start.wf(),
        !start.profile_unresolved(profile),
        resolved(start, profile, resolved_map),
        strictly_increasing(keys),
        forall|k: usize| resolved_map.contains_key(k) <==> keys.contains(k),
        0 <= first,
        first + direct_keys(keys, resolved_map, keys.len() as int).len() <= usize::MAX,
        specialized_map(
            resolved_map,
            decisions,
            direct_keys(keys, resolved_map, keys.len() as int),
            first,
        ),
    ensures
        specialized_sigs(start, resolved_map, direct_keys(keys, resolved_map, keys.len() as int))
            == optimized_sigs(
            start,
            profile,
            decisions,
            first,
            direct_keys(keys, resolved_map, keys.len() as int).len() as int,
        ),
{
    let direct = direct_keys(keys, resolved_map, keys.len() as int);
    lemma_direct_keys(keys, resolved_map, keys.len() as int);
    assert(keys.take(keys.len() as int) =~= keys);
    let made = specialized_sigs(start, resolved_map, direct);
    let named = optimized_sigs(start, profile, decisions, first, direct.len() as int);
    assert forall|i: int| 0 <= i < direct.len() implies made[i] == named[i] by {
        let site = stub_site(decisions, first + i);
        assert(keys.contains(direct[i]));
        assert(names_stub(decisions, direct[i], first + i));
        assert(names_stub(decisions, site, first + i));
        assert(resolved_map.contains_key(site));
        if direct.contains(site) {
            let j = direct.index_of(site);
            assert(decisions[direct[j]]@ == Decision::Direct(seq![(first + j) as usize]));
            assert(seq![(first + j) as usize][0] == seq![(first + i) as usize][0]);
            assert(j == i);
        } else {
            assert(decisions[site] == resolved_map[site]);
            assert(keys.contains(site));
            let e = keys.index_of(site);
            assert(keys[e] == site);
            assert(!is_direct(resolved_map[keys[e]]));
            lemma_resolved_direct(start, profile, resolved_map, site);
            assert(false);
        }
        lemma_resolved_direct(start, profile, resolved_map, direct[i]);
    }
    assert(made =~= named);
}

/// Optimizes a module by a profile: every site that the profile saw call
/// known functions calls a stub that checks the slot and calls the
/// function directly; every site that never ran traps; a site that called
/// through too many slots is kept.
///
/// The stubs are added in the order of their sites, each with the
/// signature of its callees and one more 32-bit integer to take.
///
/// Fails if the profile names a slot that holds no function, if the sites
/// are more than can be counted, if the profile does not cover a site, or
/// if the callees of a site cannot share a stub. Whatever the failure, the
/// module is left as it was.
pub fn optimize(module: &mut Module, profile: &Profile) -> (r: Result<Optimized, Error>)
    requires
        old(module).wf(),
    ensures
        match r {
            Ok(made) => {
                let first = old(module).funcs.len() as int;
                let rewrite = Rewrite::Optimize { decisions: &made.decisions };
                &&& !old(module).profile_unresolved(profile)
                &&& final(module).wf()
                &&& made.first_stub == first
                &&& final(module).funcs.len() == first + made.stub_count
                &&& made.sites == sites_upto(old(module).funcs@, first, usize::MAX + 1, false).len()
                &&& extends(final(module).types@, old(module).types@)
                &&& extends(final(module).locals@, old(module).locals@)
                &&& final(module).globals == old(module).globals
                &&& final(module).exports == old(module).exports
                &&& final(module).imports == old(module).imports
                &&& final(module).tables == old(module).tables
                &&& final(module).elements == old(module).elements
                &&& forall|site: usize|
                    made.decisions@.contains_key(site) <==> old(module).main_segment() is Some
                        && profile@.contains_key(site)
                &&& forall|site: usize| #[trigger]
                    made.decisions@.contains_key(site) ==> match decision(
                        old(module).table_members(),
                        old(module).table_base(),
                        profile@[site],
                    ) {
                        Decision::Direct(_) => made.decisions@[site]@ is Direct
                            && made.decisions@[site]->Direct_0@.len() == 1 && first
                            <= made.decisions@[site]->Direct_0@[0] < first + made.stub_count,
                        other => made.decisions@[site]@ == other,
                    }
                &&& forall|f: int|
                    0 <= f < first ==> old(module).rewritten_function(
                        f,
                        &rewrite,
                        #[trigger] final(module).funcs[f],
                    )
                &&& forall|site: usize| #[trigger]
                    made.decisions@.contains_key(site) && made.decisions@[site]@ is Direct
                        ==> is_specialized_stub(
                        final(module),
                        final(module).funcs[made.decisions@[site]->Direct_0@[0] as int],
                        (made.decisions@[site]->Direct_0@[0] - first) as nat,
                        old(module).params_of(old(module).callees_at(profile, site)[0]),
                        old(module).results_of(old(module).callees_at(profile, site)[0]),
                        old(module).callees_at(profile, site),
                        observed_slots(profile@[site]),
                    )
                &&& stubs_in_order(made.decisions@, first, made.stub_count as int)
                &&& final(module).with_functions(
                    old(module),
                    optimized_sigs(
                        old(module),
                        profile,
                        made.decisions@,
                        first,
                        made.stub_count as int,
                    ),
                )
                &&& !profile_mismatch(old(module), profile)
                &&& !old(module).sites_overflow(usize::MAX + 1, false, usize::MAX as int)
                &&& !profile_misses(old(module), profile, made.sites as int)
            },
            Err(e) => {
                &&& *final(module) == *old(module)
                &&& if old(module).profile_unresolved(profile) {
                    e == Error::TargetOutOfRange
                } else if old(module).sites_overflow(usize::MAX + 1, false, usize::MAX as int) {
                    e == Error::TooManySites
                } else if profile_misses(
                    old(module),
                    profile,
                    sites_upto(
                        old(module).funcs@,
                        old(module).funcs.len() as int,
                        usize::MAX + 1,
                        false,
                    ).len() as int,
                ) {
                    e == Error::MissingSite
                } else {
                    e == Error::TypeMismatch && profile_mismatch(old(module), profile)
                }
            },
        },
{
    let ghost start = *module;
    let mut decisions: IdMap<MapValue> = IdMap::new();
    match process_map(module, profile, &mut decisions) {
        Ok(()) => {},
        Err(e) => {
            return Err(e);
        },
    }
    let ghost resolved_map = decisions@;
    let ghost keys = decisions.keys();
    proof {
        if start.main_segment() is None {
            assert(resolved_map =~= Map::<usize, MapValue>::empty());
        }
        assert(resolved(&start, profile, resolved_map));
        lemma_decisions_valid(&start, profile, resolved_map);
    }
    let first_stub = module.funcs.len();
    proof {
        lemma_mismatch_agrees(&start, profile, resolved_map);
        assert forall|i: usize|
            resolved_map.contains_key(i) <==> profile_covers(&start, profile, i) by {}
    }
    {
        let early = Rewrite::Optimize { decisions: &decisions };
        let ghost count = start.sites(&early).len();
        proof {
            assert(count == sites_upto(
                start.funcs@,
                start.funcs.len() as int,
                usize::MAX + 1,
                false,
            ).len());
            assert(start.too_many_sites(&early) == start.sites_overflow(
                usize::MAX + 1,
                false,
                usize::MAX as int,
            ));
            if start.missing_site(&early) {
                let i = choose|i: usize| i < count && !#[trigger] decisions@.contains_key(i);
                assert(!profile_covers(&start, profile, i));
                assert(profile_misses(&start, profile, count as int));
            }
            if profile_misses(&start, profile, count as int) {
                let i = choose|i: usize| i < count && !#[trigger] profile_covers(&start, profile, i);
                assert(!decisions@.contains_key(i));
                assert(early->Optimize_decisions@ == decisions@);
                assert(start.missing_site(&early));
            }
        }
        match module.count_call_sites(&early) {
            Ok(_) => {},
            Err(e) => {
                return Err(e);
            },
        }
    }
    match specialize_stubs(module, &mut decisions, profile) {
        Ok(()) => {},
        Err(e) => {
            return Err(e);
        },
    }
    let ghost stubbed_module = *module;
    let ghost direct = direct_keys(keys, resolved_map, keys.len() as int);
    let stub_count = module.funcs.len() - first_stub;
    proof {
        assert forall|f: int|
            start.funcs.len() <= f < stubbed_module.funcs.len() implies (#[trigger] stubbed_module.funcs[f]).kind
            is Local && crate::sites::body_direct(stubbed_module.funcs[f].kind->Local_0.body()) by {
            let i = f - start.funcs.len();
            let callees = direct_callees(resolved_map[direct[i]]);
            let func = stubbed_module.funcs[start.funcs.len() + i];
            assert(is_specialized_stub(
                &stubbed_module,
                func,
                i as nat,
                start.params_of(callees[0]),
                start.results_of(callees[0]),
                callees,
                observed_slots(profile@[direct[i]]),
            ));
            let local = func.kind->Local_0;
            crate::instrument::lemma_specialized_body_direct(
                local.body(),
                local.args@,
                callees,
                observed_slots(profile@[direct[i]]),
            );
        }
        lemma_stubs_add_no_sites(&start, &stubbed_module, false);
    }
    proof {
        lemma_direct_keys(keys, resolved_map, keys.len() as int);
        assert forall|k: usize| #[trigger] decisions@.contains_key(k) implies match decisions@[k] {
            MapValue::Direct(callees) => callees@.len() == 1 && callees@[0]
                < stubbed_module.funcs.len(),
            _ => true,
        } by {
            if direct.contains(k) {
                let i = direct.index_of(k);
                assert(decisions@[direct[i]]@ == Decision::Direct(seq![(first_stub + i) as usize]));
            } else {
                assert(decisions@[k] == resolved_map[k]);
                assert(resolved_map.contains_key(k));
                assert(keys.contains(k));
                let e = keys.index_of(k);
                assert(!is_direct(resolved_map[keys[e]]));
                lemma_resolved_direct(&start, profile, resolved_map, k);
            }
        }
    }
    let rewrite = Rewrite::Optimize { decisions: &decisions };
    proof {
        lemma_overflow_direct(&start, &stubbed_module, false, usize::MAX as int);
        assert forall|i: usize|
            decisions@.contains_key(i) <==> start.main_segment() is Some && profile@.contains_key(
                i,
            ) by {
            assert(decisions@.contains_key(i) <==> resolved_map.contains_key(i));
        }
    }
    let sites = match module.rewrite_call_sites(&rewrite) {
        Ok(sites) => sites,
        Err(e) => {
            proof {
                assert(stubbed_module.too_many_sites(&rewrite) == start.sites_overflow(
                    usize::MAX + 1,
                    false,
                    usize::MAX as int,
                ));
                if stubbed_module.missing_site(&rewrite) {
                    let count = stubbed_module.sites(&rewrite).len();
                    let i = choose|i: usize| i < count && !#[trigger] decisions@.contains_key(i);
                    assert(!profile_covers(&start, profile, i));
                    assert(profile_misses(&start, profile, count as int));
                }
                assert(false);
            }
            return Err(e);
        },
    };
    proof {
        let first = first_stub as int;
        if profile_misses(&start, profile, sites as int) {
            let i = choose|i: usize| i < sites && !#[trigger] profile_covers(&start, profile, i);
            assert(!decisions@.contains_key(i));
            assert(rewrite->Optimize_decisions@ == decisions@);
            assert(stubbed_module.missing_site(&rewrite));
        }
        assert forall|site: usize| #[trigger]
            decisions@.contains_key(site) && decisions@[site]@ is Direct implies is_specialized_stub(
            &*module,
            module.funcs[decisions@[site]->Direct_0@[0] as int],
            (decisions@[site]->Direct_0@[0] - first) as nat,
            start.params_of(callees(start.table_members(), start.table_base(), profile@[site])[0]),
            start.results_of(callees(start.table_members(), start.table_base(), profile@[site])[0]),
            callees(start.table_members(), start.table_base(), profile@[site]),
            observed_slots(profile@[site]),
        ) by {
            assert(resolved_map.contains_key(site));
            lemma_resolved_direct(&start, profile, resolved_map, site);
            if direct.contains(site) {
                let i = direct.index_of(site);
                assert(direct[i] == site);
                assert(decisions@[direct[i]]@ == Decision::Direct(seq![(first_stub + i) as usize]));
                assert(is_direct(resolved_map[direct[i]]));
                let list = callees(start.table_members(), start.table_base(), profile@[site]);
                assert(direct_callees(resolved_map[site]) == list);
                let made = stubbed_module.funcs[first + i];
                assert(is_specialized_stub(
                    &stubbed_module,
                    made,
                    i as nat,
                    start.params_of(list[0]),
                    start.results_of(list[0]),
                    list,
                    observed_slots(profile@[site]),
                ));
                let local = made.kind->Local_0;
                crate::instrument::lemma_specialized_body_direct(
                    local.body(),
                    local.args@,
                    list,
                    observed_slots(profile@[site]),
                );
                lemma_body_order_distinct(local.body(), local.entry);
                crate::laws::lemma_rewrite_direct_body(
                    local.body(),
                    local.order(),
                    sites_upto(stubbed_module.funcs@, first + i, usize::MAX + 1, false).len() as int,
                    rewrite.plan(),
                );
                assert(stubbed_module.rewritten_function(first + i, &rewrite, module.funcs[first + i]));
            } else {
                assert(decisions@[site] == resolved_map[site]);
                assert(keys.contains(site));
                let e = keys.index_of(site);
                assert(!is_direct(resolved_map[keys[e]]));
            }
        }
        assert forall|f: int| 0 <= f < first implies start.rewritten_function(
            f,
            &rewrite,
            #[trigger] module.funcs[f],
        ) by {
            assert(stubbed_module.rewritten_function(f, &rewrite, module.funcs[f]));
            assert(stubbed_module.funcs@.take(start.funcs.len() as int)[f]
                == stubbed_module.funcs@[f]);
            lemma_sites_upto_grown(start.funcs@, stubbed_module.funcs@, f, usize::MAX + 1, false);
        }
        assert forall|site: usize| #[trigger] decisions@.contains_key(site) implies match decision(
            start.table_members(),
            start.table_base(),
            profile@[site],
        ) {
            Decision::Direct(_) => decisions@[site]@ is Direct && decisions@[site]->Direct_0@.len()
                == 1 && first <= decisions@[site]->Direct_0@[0] < first + stub_count,
            other => decisions@[site]@ == other,
        } by {
            assert(resolved_map.contains_key(site));
            lemma_resolved_direct(&start, profile, resolved_map, site);
            if direct.contains(site) {
                let i = direct.index_of(site);
                assert(decisions@[direct[i]]@ == Decision::Direct(seq![(first_stub + i) as usize]));
                assert(is_direct(resolved_map[direct[i]]));
            } else {
                assert(decisions@[site] == resolved_map[site]);
                assert(keys.contains(site));
                let e = keys.index_of(site);
                assert(!is_direct(resolved_map[keys[e]]));
            }
        }
        assert forall|i: int| 0 <= i < direct.len() implies same_frame(
            stubbed_module.funcs[first + i],
            #[trigger] module.funcs[first + i],
        ) by {
            assert(stubbed_module.rewritten_function(first + i, &rewrite, module.funcs[first + i]));
        }
        lemma_with_functions_kept(
            &start,
            &stubbed_module,
            &*module,
            specialized_sigs(&start, resolved_map, direct),
        );
        lemma_optimized_sigs(&start, profile, resolved_map, decisions@, keys, first);
        assert forall|stub: int| first <= stub < first + stub_count implies #[trigger] stub_named(
            decisions@,
            stub,
        ) by {
            let i = stub - first;
            assert(decisions@[direct[i]]@ == Decision::Direct(seq![(first_stub + i) as usize]));
            assert(keys.take(keys.len() as int) =~= keys);
            assert(keys.contains(direct[i]));
            assert(resolved_map.contains_key(direct[i]));
            assert(names_stub(decisions@, direct[i], stub));
        }
        assert forall|a: usize, b: usize|
            #![trigger decisions@[a], decisions@[b]]
            decisions@.contains_key(a) && decisions@.contains_key(b) && decisions@[a]@ is Direct
                && decisions@[b]@ is Direct && a < b implies decisions@[a]->Direct_0@[0]
            < decisions@[b]->Direct_0@[0] by {
            if direct.contains(a) && direct.contains(b) {
                let i = direct.index_of(a);
                let j = direct.index_of(b);
                assert(decisions@[direct[i]]@ == Decision::Direct(seq![(first_stub + i) as usize]));
                assert(decisions@[direct[j]]@ == Decision::Direct(seq![(first_stub + j) as usize]));
                if j <= i {
                    if j < i {
                        assert(direct[j] < direct[i]);
                    }
                }
            } else {
                let site = if direct.contains(a) {
                    b
                } else {
                    a
                };
                assert(decisions@[site] == resolved_map[site]);
                assert(keys.contains(site));
                let e = keys.index_of(site);
                assert(!is_direct(resolved_map[keys[e]]));
                lemma_resolved_direct(&start, profile, resolved_map, site);
            }
        }
    }
    Ok(Optimized { decisions, first_stub, stub_count, sites })
}

/// The callees that a resolved profile names exist, and the profile has an
/// observed slot for each.
proof fn lemma_decisions_valid(module: &Module, profile: &Profile, decisions: Map<usize, MapValue>)
    requires
        module.wf(),
        !module.profile_unresolved(profile),
        resolved(module, profile, decisions),
    ensures
        callees_valid(module, decisions),
        profile_matches(decisions, Some(*profile)),
{
    assert forall|key: usize| #[trigger] decisions.contains_key(key) implies match decisions[key] {
        MapValue::Direct(callees) => forall|j: int|
            0 <= j < callees@.len() ==> (#[trigger] callees@[j]) < module.funcs.len(),
        _ => true,
    } by {
        assert(module.main_segment() is Some);
        match decisions[key] {
            MapValue::Direct(list) => {
                assert(profile@.contains_key(key));
                lemma_callees(module.table_members(), module.table_base(), profile@[key]);
                assert forall|j: int| 0 <= j < list@.len() implies (#[trigger] list@[j])
                    < module.funcs.len() by {
                    let members = module.table_members();
                    assert(members.contains(Some(list@[j])));
                    let i = choose|i: int| 0 <= i < members.len() && members[i] == Some(list@[j]);
                    let segment = module.main_segment().unwrap();
                    crate::lookup::lemma_main_segment(module);
                    assert(module.elements[segment as int].members[i] == Some(list@[j]));
                }
            },
            _ => {},
        }
    }
    assert forall|key: usize| #[trigger]
        decisions.contains_key(key) && is_direct(decisions[key]) implies profile@.contains_key(key)
        && observed_slots(profile@[key]).len() == direct_callees(decisions[key]).len() by {
        assert(module.main_segment() is Some);
        lemma_callees(module.table_members(), module.table_base(), profile@[key]);
    }
}

/// Whether the sites overflow does not change when functions without
/// indirect calls are added.
pub proof fn lemma_overflow_direct(before: &Module, after: &Module, shift: bool, limit: int)
    requires
        extends(after.funcs@, before.funcs@),
        forall|f: int|
            before.funcs.len() <= f < after.funcs.len() ==> (#[trigger] after.funcs[f]).kind is Local
                && crate::sites::body_direct(after.funcs[f].kind->Local_0.body()),
    ensures
        after.sites_overflow(usize::MAX + 1, shift, limit) == before.sites_overflow(
            usize::MAX + 1,
            shift,
            limit,
        ),
{
    let stop = usize::MAX + 1;
    lemma_stubs_add_no_sites(before, after, shift);
    if exists|f: int|
        0 <= f < after.funcs.len() && !function_fits(#[trigger] after.funcs[f], f as usize, stop, shift) {
        let f = choose|f: int|
            0 <= f < after.funcs.len() && !function_fits(
                #[trigger] after.funcs[f],
                f as usize,
                stop,
                shift,
            );
        if f >= before.funcs.len() {
            let local = after.funcs[f].kind->Local_0;
            lemma_body_order_distinct(local.body(), local.entry);
            assert forall|k: int| 0 <= k < local.order().len() implies crate::sites::positions_fit(
                local.body()[#[trigger] local.order()[k] as int],
                shift,
            ) by {
                assert(crate::sites::seq_direct(local.body()[local.order()[k] as int]));
            }
            assert(false);
        }
        assert(after.funcs@.take(before.funcs.len() as int)[f] == after.funcs@[f]);
        assert(!function_fits(before.funcs[f], f as usize, stop, shift));
    }
    if exists|f: int|
        0 <= f < before.funcs.len() && !function_fits(
            #[trigger] before.funcs[f],
            f as usize,
            stop,
            shift,
        ) {
        let f = choose|f: int|
            0 <= f < before.funcs.len() && !function_fits(
                #[trigger] before.funcs[f],
                f as usize,
                stop,
                shift,
            );
        assert(after.funcs@.take(before.funcs.len() as int)[f] == after.funcs@[f]);
        assert(!function_fits(after.funcs[f], f as usize, stop, shift));
    }
}

/// The resolved decisions cannot share stubs exactly where the profile
/// sends a site to callees that cannot.
proof fn lemma_mismatch_agrees(module: &Module, profile: &Profile, decisions: Map<usize, MapValue>)
    requires
        module.wf(),
        !module.profile_unresolved(profile),
        resolved(module, profile, decisions),
    ensures
        specialize_mismatch(module, decisions) == profile_mismatch(module, profile),
{
    if specialize_mismatch(module, decisions) {
        let key = choose|key: usize| #[trigger]
            decisions.contains_key(key) && is_direct(decisions[key])
                && crate::instrument::callees_mismatch(module, direct_callees(decisions[key]));
        lemma_resolved_direct(module, profile, decisions, key);
        assert(profile@.contains_key(key));
    }
    if profile_mismatch(module, profile) {
        let site = choose|site: usize| #[trigger]
            profile@.contains_key(site) && decision(
                module.table_members(),
                module.table_base(),
                profile@[site],
            ) is Direct && crate::instrument::callees_mismatch(
                module,
                callees(module.table_members(), module.table_base(), profile@[site]),
            );
        assert(decisions.contains_key(site));
        lemma_resolved_direct(module, profile, decisions, site);
    }
}

/// A resolved decision that is direct has at least one callee, and it is
/// direct exactly if the profile observed a slot.
proof fn lemma_resolved_direct(
    module: &Module,
    profile: &Profile,
    decisions: Map<usize, MapValue>,
    site: usize,
)
    requires
        module.wf(),
        !module.profile_unresolved(profile),
        resolved(module, profile, decisions),
        decisions.contains_key(site),
    ensures
        decisions[site]@ == decision(module.table_members(), module.table_base(), profile@[site]),
        decisions[site]@ is Direct <==> is_direct(decisions[site]),
{
    assert(module.main_segment() is Some);
    assert(profile@.contains_key(site));
    lemma_callees(module.table_members(), module.table_base(), profile@[site]);
}

} // verus!
