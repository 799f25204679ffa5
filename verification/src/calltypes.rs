//! The signatures through which a module calls indirectly.
//!
//! Each local function is walked, and every `call_indirect` met gives its
//! signature and table. The pairs are listed in the order in which they
//! are first met, each once.

use crate::ir::{Function, FunctionKind, Instr, Module, TableId, TypeId};
use vstd::prelude::*;

verus! {

/// What one `call_indirect` calls through.
pub type CallType = (TypeId, TableId);

/// The pairs met in one function, in the order of the walk.
#[derive(Debug)]
pub struct TypeScan {
    pub ty: Vec<CallType>,
}

/// The pairs of the indirect calls among `instrs`, in their order.
pub open spec fn met_types(instrs: Seq<Instr>) -> Seq<CallType>
    decreases instrs.len(),
{
    if instrs.len() == 0 {
        Seq::empty()
    } else {
        match instrs.last() {
            Instr::CallIndirect { ty, table } => met_types(instrs.drop_last()).push((ty, table)),
            _ => met_types(instrs.drop_last()),
        }
    }
}

/// `list` with those of `more` that it lacks put at its end, in their
/// order.
pub open spec fn with_new(list: Seq<CallType>, more: Seq<CallType>) -> Seq<CallType>
    decreases more.len(),
{
    if more.len() == 0 {
        list
    } else {
        let sofar = with_new(list, more.drop_last());
        if sofar.contains(more.last()) {
            sofar
        } else {
            sofar.push(more.last())
        }
    }
}

/// The pairs met in the first `n` functions.
pub open spec fn call_types(funcs: Seq<Function>, n: int) -> Seq<CallType>
    decreases n,
{
    if n <= 0 {
        Seq::empty()
    } else {
        match funcs[n - 1].kind {
            FunctionKind::Local(local) => with_new(call_types(funcs, n - 1), met_types(local.walked())),
            FunctionKind::Import { .. } => call_types(funcs, n - 1),
        }
    }
}

/// A pair is met exactly where an indirect call through it stands.
pub proof fn lemma_met_types(instrs: Seq<Instr>, ty: TypeId, table: TableId)
    ensures
        met_types(instrs).contains((ty, table)) <==> instrs.contains(
            Instr::CallIndirect { ty, table },
        ),
    decreases instrs.len(),
{
    let want = Instr::CallIndirect { ty, table };
    if instrs.len() != 0 {
        let front = instrs.drop_last();
        lemma_met_types(front, ty, table);
        let met = met_types(instrs);
        let before = met_types(front);
        if instrs.contains(want) {
            let i = choose|i: int| 0 <= i < instrs.len() && instrs[i] == want;
            if i < front.len() {
                assert(front[i] == want);
                let j = choose|j: int| 0 <= j < before.len() && before[j] == (ty, table);
                assert(met[j] == (ty, table));
            } else {
                assert(met[met.len() - 1] == (ty, table));
            }
        }
        if met.contains((ty, table)) {
            let j = choose|j: int| 0 <= j < met.len() && met[j] == (ty, table);
            if j < before.len() {
                assert(before[j] == (ty, table));
                let i = choose|i: int| 0 <= i < front.len() && front[i] == want;
                assert(instrs[i] == want);
            } else {
                assert(instrs[instrs.len() - 1] == want);
            }
        }
    }
}

/// Adding what is new keeps a list free of duplicates and makes it hold
/// what either list held.
pub proof fn lemma_with_new(list: Seq<CallType>, more: Seq<CallType>)
    requires
        list.no_duplicates(),
    ensures
        with_new(list, more).no_duplicates(),
        forall|x: CallType|
            with_new(list, more).contains(x) <==> list.contains(x) || more.contains(x),
    decreases more.len(),
{
    if more.len() != 0 {
        let front = more.drop_last();
        lemma_with_new(list, front);
        let sofar = with_new(list, front);
        let all = with_new(list, more);
        assert forall|x: CallType| all.contains(x) <==> list.contains(x) || more.contains(x) by {
            if more.contains(x) {
                let i = choose|i: int| 0 <= i < more.len() && more[i] == x;
                if i < front.len() {
                    assert(front[i] == x);
                }
            }
            if front.contains(x) {
                let i = choose|i: int| 0 <= i < front.len() && front[i] == x;
                assert(more[i] == x);
            }
            if sofar.contains(x) {
                let i = choose|i: int| 0 <= i < sofar.len() && sofar[i] == x;
                assert(all[i] == x);
            }
            if all.contains(x) && !sofar.contains(x) {
                assert(x == more.last());
                assert(more[more.len() - 1] == x);
            }
            if x == more.last() {
                assert(more[more.len() - 1] == x);
                if !sofar.contains(x) {
                    assert(all[all.len() - 1] == x);
                }
            }
        }
    }
}

/// The pairs met in a module are those of the indirect calls that the walk
/// of some local function comes by, each once.
pub proof fn lemma_call_types(funcs: Seq<Function>, n: int)
    requires
        0 <= n <= funcs.len(),
    ensures
        call_types(funcs, n).no_duplicates(),
        forall|ty: TypeId, table: TableId|
            #![trigger call_types(funcs, n).contains((ty, table))]
            call_types(funcs, n).contains((ty, table)) <==> exists|f: int|
                0 <= f < n && (#[trigger] funcs[f]).kind is Local && funcs[f].kind->Local_0.walked().contains(
                    Instr::CallIndirect { ty, table },
                ),
    decreases n,
{
    if n > 0 {
        lemma_call_types(funcs, n - 1);
        let before = call_types(funcs, n - 1);
        let now = call_types(funcs, n);
        match funcs[n - 1].kind {
            FunctionKind::Local(local) => {
                lemma_with_new(before, met_types(local.walked()));
                assert forall|ty: TypeId, table: TableId|
                    #![trigger now.contains((ty, table))]
                    now.contains((ty, table)) <==> exists|f: int|
                        0 <= f < n && (#[trigger] funcs[f]).kind is Local && funcs[f].kind->Local_0.walked().contains(
                            Instr::CallIndirect { ty, table },
                        ) by {
                    lemma_met_types(local.walked(), ty, table);
                    let want = Instr::CallIndirect { ty, table };
                    if before.contains((ty, table)) {
                        let f = choose|f: int|
                            0 <= f < n - 1 && (#[trigger] funcs[f]).kind is Local && funcs[f].kind->Local_0.walked().contains(
                                want,
                            );
                        assert(funcs[f].kind is Local);
                    }
                    if local.walked().contains(want) {
                        assert(funcs[n - 1].kind is Local);
                    }
                    if exists|f: int|
                        0 <= f < n && (#[trigger] funcs[f]).kind is Local && funcs[f].kind->Local_0.walked().contains(
                            want,
                        ) {
                        let f = choose|f: int|
                            0 <= f < n && (#[trigger] funcs[f]).kind is Local && funcs[f].kind->Local_0.walked().contains(
                                want,
                            );
                        if f < n - 1 {
                            assert(before.contains((ty, table)));
                        }
                    }
                }
            },
            FunctionKind::Import { .. } => {
                assert forall|ty: TypeId, table: TableId|
                    #![trigger now.contains((ty, table))]
                    now.contains((ty, table)) <==> exists|f: int|
                        0 <= f < n && (#[trigger] funcs[f]).kind is Local && funcs[f].kind->Local_0.walked().contains(
                            Instr::CallIndirect { ty, table },
                        ) by {
                    let want = Instr::CallIndirect { ty, table };
                    if before.contains((ty, table)) {
                        let f = choose|f: int|
                            0 <= f < n - 1 && (#[trigger] funcs[f]).kind is Local && funcs[f].kind->Local_0.walked().contains(
                                want,
                            );
                        assert(funcs[f].kind is Local);
                    }
                    if exists|f: int|
                        0 <= f < n && (#[trigger] funcs[f]).kind is Local && funcs[f].kind->Local_0.walked().contains(
                            want,
                        ) {
                        let f = choose|f: int|
                            0 <= f < n && (#[trigger] funcs[f]).kind is Local && funcs[f].kind->Local_0.walked().contains(
                                want,
                            );
                        assert(f < n - 1);
                        assert(before.contains((ty, table)));
                    }
                }
            },
        }
    }
}

impl TypeScan {
    /// A scan that has met nothing.
    pub fn new() -> (scan: TypeScan)
        ensures
            scan.ty@ == Seq::<CallType>::empty(),
    {
        TypeScan { ty: Vec::new() }
    }

    /// Notes the pair of `instr` if it is an indirect call.
    pub fn visit_instr(&mut self, instr: Instr)
        ensures
            final(self).ty@ == match instr {
                Instr::CallIndirect { ty, table } => old(self).ty@.push((ty, table)),
                _ => old(self).ty@,
            },
    {
        match instr {
            Instr::CallIndirect { ty, table } => {
                self.ty.push((ty, table));
            },
            _ => {},
        }
    }
}

/// Whether `list` holds `x`.
fn holds(list: &Vec<CallType>, x: CallType) -> (r: bool)
    ensures
        r == list@.contains(x),
{
    let mut i: usize = 0;
    while i < list.len()
        invariant
            i <= list@.len(),
            forall|j: int| 0 <= j < i ==> list@[j] != x,
        decreases list@.len() - i,
    {
        if list[i].0 == x.0 && list[i].1 == x.1 {
            assert(list@[i as int] == x);
            return true;
        }
        i += 1;
    }
    false
}

impl Module {
    /// The pairs through which the module calls indirectly.
    pub open spec fn call_types(&self) -> Seq<CallType> {
        call_types(self.funcs@, self.funcs.len() as int)
    }

    /// Lists the pairs through which the module calls indirectly, in the
    /// order in which they are first met.
    pub fn collect_call_types(&self) -> (list: Vec<CallType>)
        ensures
            list@ == self.call_types(),
    {
        let mut list: Vec<CallType> = Vec::new();
        let mut f: usize = 0;
        while f < self.funcs.len()
            invariant
                f <= self.funcs.len(),
                list@ == call_types(self.funcs@, f as int),
            decreases self.funcs.len() - f,
        {
            match &self.funcs[f].kind {
                FunctionKind::Local(local) => {
                    let flat = local.walked_instrs();
                    let mut scan = TypeScan::new();
                    let mut i: usize = 0;
                    assert(flat@.take(0) =~= Seq::<Instr>::empty());
                    while i < flat.len()
                        invariant
                            i <= flat@.len(),
                            scan.ty@ == met_types(flat@.take(i as int)),
                        decreases flat@.len() - i,
                    {
                        scan.visit_instr(flat[i]);
                        assert(flat@.take(i + 1).drop_last() =~= flat@.take(i as int));
                        i += 1;
                    }
                    assert(flat@.take(flat@.len() as int) =~= flat@);
                    let ghost before = list@;
                    let mut j: usize = 0;
                    assert(scan.ty@.take(0) =~= Seq::<CallType>::empty());
                    while j < scan.ty.len()
                        invariant
                            j <= scan.ty@.len(),
                            list@ == with_new(before, scan.ty@.take(j as int)),
                        decreases scan.ty@.len() - j,
                    {
                        let x = scan.ty[j];
                        assert(scan.ty@.take(j + 1).drop_last() =~= scan.ty@.take(j as int));
                        if !holds(&list, x) {
                            list.push(x);
                        }
                        j += 1;
                    }
                    assert(scan.ty@.take(scan.ty@.len() as int) =~= scan.ty@);
                },
                FunctionKind::Import { .. } => {},
            }
            f += 1;
        }
        list
    }
}

} // verus!
