//! Additions to a module. Arenas only grow, so every identifier handed out
//! earlier keeps its meaning.

use crate::ir::{
    lemma_function_wf_covers, Export, ExportItem, FuncId, Function, Global, GlobalId, LocalId,
    Module, Signature, TypeId, ValType,
};
use vstd::prelude::*;

verus! {

/// The first signature from `from` on with these parameters and results.
pub open spec fn find_type(
    types: Seq<Signature>,
    params: Seq<ValType>,
    results: Seq<ValType>,
    from: int,
) -> Option<TypeId>
    decreases types.len() - from,
{
    if from < 0 || from >= types.len() {
        None
    } else if types[from].params@ == params && types[from].results@ == results {
        Some(from as usize)
    } else {
        find_type(types, params, results, from + 1)
    }
}

/// What is found is a signature as asked for, and the first such.
pub proof fn lemma_find_type(
    types: Seq<Signature>,
    params: Seq<ValType>,
    results: Seq<ValType>,
    from: int,
)
    requires
        0 <= from,
        types.len() <= usize::MAX,
    ensures
        match find_type(types, params, results, from) {
            Some(t) => from <= t < types.len() && types[t as int].params@ == params
                && types[t as int].results@ == results,
            None => forall|t: int|
                from <= t < types.len() ==> !((#[trigger] types[t]).params@ == params
                    && types[t].results@ == results),
        },
    decreases types.len() - from,
{
    if from < types.len() && !(types[from].params@ == params && types[from].results@ == results) {
        lemma_find_type(types, params, results, from + 1);
    }
}

/// A signature as a value: its parameters and its results.
pub type Sig = (Seq<ValType>, Seq<ValType>);

/// The signatures that the types stand for, in order.
pub open spec fn sigs(types: Seq<Signature>) -> Seq<Sig> {
    Seq::new(types.len(), |t: int| (types[t].params@, types[t].results@))
}

/// `list` with `sig` at its end, unless it holds it.
pub open spec fn with_sig(list: Seq<Sig>, sig: Sig) -> Seq<Sig> {
    if list.contains(sig) {
        list
    } else {
        list.push(sig)
    }
}

/// `list` with those of `wanted` that it lacks at its end, in their order.
pub open spec fn with_sigs(list: Seq<Sig>, wanted: Seq<Sig>) -> Seq<Sig>
    decreases wanted.len(),
{
    if wanted.len() == 0 {
        list
    } else {
        with_sig(with_sigs(list, wanted.drop_last()), wanted.last())
    }
}

/// The parameters of the first `n` signatures, one signature after
/// another.
pub open spec fn params_upto(wanted: Seq<Sig>, n: int) -> Seq<ValType>
    decreases n,
{
    if n <= 0 {
        Seq::empty()
    } else {
        params_upto(wanted, n - 1) + wanted[n - 1].0
    }
}

/// `func` is a local function of signature `sig`: its type id is the
/// first among `types` of that signature, and its arguments are the locals
/// from `first_arg` on, one for each parameter.
pub open spec fn placed(types: Seq<Signature>, func: Function, sig: Sig, first_arg: int) -> bool {
    &&& func.kind is Local
    &&& find_type(types, sig.0, sig.1, 0) == Some(func.kind->Local_0.ty)
    &&& func.kind->Local_0.args@ == Seq::new(sig.0.len(), |j: int| (first_arg + j) as usize)
}

/// A signature is found exactly if one of the types stands for it.
pub proof fn lemma_find_sig(types: Seq<Signature>, params: Seq<ValType>, results: Seq<ValType>)
    requires
        types.len() <= usize::MAX,
    ensures
        find_type(types, params, results, 0) is Some <==> sigs(types).contains((params, results)),
{
    lemma_find_type(types, params, results, 0);
    let list = sigs(types);
    if find_type(types, params, results, 0) is Some {
        let t = find_type(types, params, results, 0).unwrap() as int;
        assert(list[t] == (params, results));
    }
    if list.contains((params, results)) {
        let t = choose|t: int| 0 <= t < list.len() && list[t] == (params, results);
        assert(types[t].params@ == params && types[t].results@ == results);
    }
}

/// What is found among the types is found among them when more have been
/// added.
pub proof fn lemma_find_type_grown(
    before: Seq<Signature>,
    after: Seq<Signature>,
    params: Seq<ValType>,
    results: Seq<ValType>,
    from: int,
)
    requires
        extends(after, before),
        0 <= from,
        find_type(before, params, results, from) is Some,
    ensures
        find_type(after, params, results, from) == find_type(before, params, results, from),
    decreases before.len() - from,
{
    if from < before.len() {
        assert(after.take(before.len() as int)[from] == after[from]);
        if !(before[from].params@ == params && before[from].results@ == results) {
            lemma_find_type_grown(before, after, params, results, from + 1);
        }
    }
}

/// The parameters of the first signatures do not depend on the later
/// ones.
pub proof fn lemma_params_upto_prefix(wanted: Seq<Sig>, more: Seq<Sig>, n: int)
    requires
        0 <= n <= wanted.len(),
    ensures
        params_upto(wanted + more, n) == params_upto(wanted, n),
    decreases n,
{
    if n > 0 {
        lemma_params_upto_prefix(wanted, more, n - 1);
        assert((wanted + more)[n - 1] == wanted[n - 1]);
    }
}

/// `after` is `before` with more at its end.
pub open spec fn extends<T>(after: Seq<T>, before: Seq<T>) -> bool {
    before.len() <= after.len() && after.take(before.len() as int) == before
}

impl Module {
    /// `self` is `before` with entities added: every arena holds at its
    /// front what it held, and imports, exports, tables and element
    /// segments are the same but for exports added at the end.
    pub open spec fn grown_from(&self, before: &Module) -> bool {
        &&& extends(self.types@, before.types@)
        &&& extends(self.funcs@, before.funcs@)
        &&& extends(self.globals@, before.globals@)
        &&& extends(self.locals@, before.locals@)
        &&& extends(self.exports@, before.exports@)
        &&& self.imports == before.imports
        &&& self.tables == before.tables
        &&& self.elements == before.elements
    }

    /// `self` is `before` with one local function added for each of
    /// `wanted`, in order: each has its signature, which was added to the
    /// types if they lacked it, and fresh locals for its arguments.
    #[verifier::opaque]
    pub open spec fn with_functions(&self, before: &Module, wanted: Seq<Sig>) -> bool {
        &&& self.funcs.len() == before.funcs.len() + wanted.len()
        &&& sigs(self.types@) == with_sigs(sigs(before.types@), wanted)
        &&& self.locals@ == before.locals@ + params_upto(wanted, wanted.len() as int)
        &&& forall|i: int|
            0 <= i < wanted.len() ==> placed(
                self.types@,
                #[trigger] self.funcs[before.funcs.len() + i],
                wanted[i],
                before.locals.len() + params_upto(wanted, i).len(),
            )
    }

    /// Finds the id of the signature with these parameters and results.
    pub fn find_type(&self, params: &Vec<ValType>, results: &Vec<ValType>) -> (r: Option<TypeId>)
        ensures
            r == find_type(self.types@, params@, results@, 0),
            r matches Some(t) ==> t < self.types.len(),
    {
        let mut t: usize = 0;
        while t < self.types.len()
            invariant
                t <= self.types.len(),
                find_type(self.types@, params@, results@, t as int) == find_type(
                    self.types@,
                    params@,
                    results@,
                    0,
                ),
            decreases self.types.len() - t,
        {
            if crate::ir::same_types(&self.types[t].params, params) && crate::ir::same_types(
                &self.types[t].results,
                results,
            ) {
                return Some(t);
            }
            t += 1;
        }
        None
    }

    /// The id of the signature with these parameters and results, which is
    /// added if the module does not have it.
    pub fn add_type(&mut self, params: Vec<ValType>, results: Vec<ValType>) -> (t: TypeId)
        requires
            old(self).wf(),
        ensures
            final(self).wf(),
            final(self).grown_from(old(self)),
            final(self).funcs == old(self).funcs,
            final(self).globals == old(self).globals,
            final(self).locals == old(self).locals,
            final(self).exports == old(self).exports,
            t < final(self).types.len(),
            final(self).types[t as int].params@ == params@,
            final(self).types[t as int].results@ == results@,
            match find_type(old(self).types@, params@, results@, 0) {
                Some(found) => t == found && final(self).types == old(self).types,
                None => t == old(self).types.len() && final(self).types@ == old(self).types@.push(
                    final(self).types[t as int],
                ),
            },
            find_type(final(self).types@, params@, results@, 0) == Some(t),
            sigs(final(self).types@) == with_sig(sigs(old(self).types@), (params@, results@)),
    {
        proof {
            assert(self.types@.len() == self.types.len());
            lemma_find_type(self.types@, params@, results@, 0);
            lemma_find_sig(self.types@, params@, results@);
        }
        match self.find_type(&params, &results) {
            Some(t) => {
                proof {
                    lemma_grown_refl(self);
                }
                t
            },
            None => {
                let t = self.types.len();
                let ghost before = *self;
                self.types.push(Signature { params, results });
                proof {
                    assert(self.types@.take(before.types.len() as int) =~= before.types@);
                    assert(self.funcs@.take(before.funcs.len() as int) =~= before.funcs@);
                    assert(self.globals@.take(before.globals.len() as int) =~= before.globals@);
                    assert(self.locals@.take(before.locals.len() as int) =~= before.locals@);
                    assert(self.exports@.take(before.exports.len() as int) =~= before.exports@);
                    assert forall|f: int| 0 <= f < self.funcs.len() implies (#[trigger] self.funcs[f]).wf(
                        self.bounds(),
                    ) by {
                        lemma_function_wf_covers(before.funcs[f], before.bounds(), self.bounds());
                    }
                    assert(sigs(self.types@) =~= sigs(before.types@).push((params@, results@)));
                    lemma_find_type_first(self.types@, params@, results@, 0, t as int);
                }
                t
            },
        }
    }

    /// Adds one local for each of `types` and returns their ids, which are
    /// consecutive.
    pub fn add_locals(&mut self, types: &Vec<ValType>) -> (locals: Vec<LocalId>)
        requires
            old(self).wf(),
        ensures
            final(self).wf(),
            final(self).grown_from(old(self)),
            final(self).types == old(self).types,
            final(self).funcs == old(self).funcs,
            final(self).globals == old(self).globals,
            final(self).exports == old(self).exports,
            final(self).locals@ == old(self).locals@ + types@,
            locals@.len() == types@.len(),
            forall|j: int| 0 <= j < locals@.len() ==> #[trigger] locals@[j] == old(self).locals.len() + j,
    {
        let ghost before = *self;
        let mut locals: Vec<LocalId> = Vec::new();
        let mut j: usize = 0;
        assert(before.locals@ + types@.take(0) =~= before.locals@);
        while j < types.len()
            invariant
                j <= types@.len(),
                self.types == before.types,
                self.funcs == before.funcs,
                self.imports == before.imports,
                self.exports == before.exports,
                self.tables == before.tables,
                self.elements == before.elements,
                self.globals == before.globals,
                self.locals@ == before.locals@ + types@.take(j as int),
                locals@.len() == j,
                forall|i: int| 0 <= i < j ==> #[trigger] locals@[i] == before.locals.len() + i,
            decreases types@.len() - j,
        {
            locals.push(self.locals.len());
            self.locals.push(types[j]);
            assert(self.locals@ =~= before.locals@ + types@.take(j + 1));
            j += 1;
        }
        proof {
            assert(types@.take(types@.len() as int) =~= types@);
            assert(self.types@.take(before.types.len() as int) =~= before.types@);
            assert(self.funcs@.take(before.funcs.len() as int) =~= before.funcs@);
            assert(self.globals@.take(before.globals.len() as int) =~= before.globals@);
            assert(self.locals@.take(before.locals.len() as int) =~= before.locals@);
            assert(self.exports@.take(before.exports.len() as int) =~= before.exports@);
            assert forall|f: int| 0 <= f < self.funcs.len() implies (#[trigger] self.funcs[f]).wf(
                self.bounds(),
            ) by {
                lemma_function_wf_covers(before.funcs[f], before.bounds(), self.bounds());
            }
        }
        locals
    }

    /// Adds a function and returns its id.
    pub fn add_function(&mut self, func: Function) -> (f: FuncId)
        requires
            old(self).wf(),
            func.wf(
                (crate::ir::Bounds {
                    funcs: (old(self).funcs.len() + 1) as nat,
                    ..old(self).bounds()
                }),
            ),
        ensures
            final(self).wf(),
            final(self).grown_from(old(self)),
            final(self).types == old(self).types,
            final(self).globals == old(self).globals,
            final(self).locals == old(self).locals,
            final(self).exports == old(self).exports,
            f == old(self).funcs.len(),
            final(self).funcs@ == old(self).funcs@.push(func),
    {
        let ghost before = *self;
        let f = self.funcs.len();
        self.funcs.push(func);
        proof {
            assert(self.types@.take(before.types.len() as int) =~= before.types@);
            assert(self.funcs@.take(before.funcs.len() as int) =~= before.funcs@);
            assert(self.globals@.take(before.globals.len() as int) =~= before.globals@);
            assert(self.locals@.take(before.locals.len() as int) =~= before.locals@);
            assert(self.exports@.take(before.exports.len() as int) =~= before.exports@);
            assert forall|g: int| 0 <= g < self.funcs.len() implies (#[trigger] self.funcs[g]).wf(
                self.bounds(),
            ) by {
                if g < f {
                    lemma_function_wf_covers(before.funcs[g], before.bounds(), self.bounds());
                }
            }
            assert forall|e: int, i: int|
                0 <= e < self.elements.len() && 0 <= i < self.elements[e].members.len() implies match #[trigger] self.elements[e].members[i] {
                Some(h) => h < self.funcs.len(),
                None => true,
            } by {
                assert(before.elements[e].members[i] == self.elements[e].members[i]);
            }
        }
        f
    }

    /// Adds a global and returns its id.
    pub fn add_global(&mut self, global: Global) -> (g: GlobalId)
        requires
            old(self).wf(),
        ensures
            final(self).wf(),
            final(self).grown_from(old(self)),
            final(self).types == old(self).types,
            final(self).funcs == old(self).funcs,
            final(self).locals == old(self).locals,
            final(self).exports == old(self).exports,
            g == old(self).globals.len(),
            final(self).globals@ == old(self).globals@.push(global),
    {
        let ghost before = *self;
        let g = self.globals.len();
        self.globals.push(global);
        proof {
            assert(self.types@.take(before.types.len() as int) =~= before.types@);
            assert(self.funcs@.take(before.funcs.len() as int) =~= before.funcs@);
            assert(self.globals@.take(before.globals.len() as int) =~= before.globals@);
            assert(self.locals@.take(before.locals.len() as int) =~= before.locals@);
            assert(self.exports@.take(before.exports.len() as int) =~= before.exports@);
            assert forall|f: int| 0 <= f < self.funcs.len() implies (#[trigger] self.funcs[f]).wf(
                self.bounds(),
            ) by {
                lemma_function_wf_covers(before.funcs[f], before.bounds(), self.bounds());
            }
        }
        g
    }

    /// Exports a global under `name`.
    pub fn export_global(&mut self, name: String, global: GlobalId)
        requires
            old(self).wf(),
            global < old(self).globals.len(),
        ensures
            final(self).wf(),
            final(self).grown_from(old(self)),
            final(self).types == old(self).types,
            final(self).funcs == old(self).funcs,
            final(self).globals == old(self).globals,
            final(self).locals == old(self).locals,
            final(self).exports@ == old(self).exports@.push(
                Export { name, item: ExportItem::Global(global) },
            ),
    {
        let ghost before = *self;
        self.exports.push(Export { name, item: ExportItem::Global(global) });
        proof {
            assert(self.types@.take(before.types.len() as int) =~= before.types@);
            assert(self.funcs@.take(before.funcs.len() as int) =~= before.funcs@);
            assert(self.globals@.take(before.globals.len() as int) =~= before.globals@);
            assert(self.locals@.take(before.locals.len() as int) =~= before.locals@);
            assert(self.exports@.take(before.exports.len() as int) =~= before.exports@);
            assert forall|i: int| 0 <= i < self.exports.len() implies match (#[trigger] self.exports[i]).item {
                ExportItem::Function(f) => f < self.funcs.len(),
                ExportItem::Global(g) => g < self.globals.len(),
                ExportItem::Other => true,
            } by {
                if i < before.exports.len() {
                    assert(self.exports[i] == before.exports[i]);
                }
            }
        }
    }
}

/// The first type of a signature from `from` on is found.
pub proof fn lemma_find_type_first(
    types: Seq<Signature>,
    params: Seq<ValType>,
    results: Seq<ValType>,
    from: int,
    t: int,
)
    requires
        0 <= from <= t < types.len(),
        types[t].params@ == params,
        types[t].results@ == results,
        forall|u: int|
            from <= u < t ==> !((#[trigger] types[u]).params@ == params && types[u].results@
                == results),
    ensures
        find_type(types, params, results, from) == Some(t as usize),
    decreases t - from,
{
    if from < t {
        lemma_find_type_first(types, params, results, from + 1, t);
    }
}

/// A module is itself with no function added.
pub proof fn lemma_with_no_function(module: &Module)
    ensures
        module.with_functions(module, Seq::empty()),
{
    reveal(Module::with_functions);
    assert(module.locals@ + params_upto(Seq::<Sig>::empty(), 0) =~= module.locals@);
}

/// A module to which one function was added with its signature and
/// fresh locals for its arguments is the module with that function.
pub proof fn lemma_with_function(before: &Module, after: &Module, sig: Sig)
    requires
        after.funcs.len() == before.funcs.len() + 1,
        sigs(after.types@) == with_sig(sigs(before.types@), sig),
        after.locals@ == before.locals@ + sig.0,
        placed(after.types@, after.funcs[before.funcs.len() as int], sig, before.locals.len() as int),
    ensures
        after.with_functions(before, seq![sig]),
{
    reveal(Module::with_functions);
    let one = seq![sig];
    assert(one.drop_last() =~= Seq::<Sig>::empty());
    assert(with_sigs(sigs(before.types@), one.drop_last()) == sigs(before.types@));
    assert(params_upto(one, 0) =~= Seq::<ValType>::empty());
    assert(params_upto(one, 1) =~= sig.0);
}

/// The locals of a module to which functions were added are those it had
/// and the arguments of the functions.
pub proof fn lemma_with_functions_locals(before: &Module, after: &Module, wanted: Seq<Sig>)
    requires
        after.with_functions(before, wanted),
    ensures
        after.funcs.len() == before.funcs.len() + wanted.len(),
        after.locals@ == before.locals@ + params_upto(wanted, wanted.len() as int),
        extends(after.locals@, before.locals@),
{
    reveal(Module::with_functions);
    assert(after.locals@.take(before.locals.len() as int) =~= before.locals@);
}

/// `after` has the signature and the arguments of `before`.
pub open spec fn same_frame(before: Function, after: Function) -> bool {
    &&& after.kind is Local
    &&& after.kind->Local_0.ty == before.kind->Local_0.ty
    &&& after.kind->Local_0.args == before.kind->Local_0.args
}

/// The functions added stay the functions added when bodies change and
/// nothing else does.
pub proof fn lemma_with_functions_kept(start: &Module, before: &Module, after: &Module, wanted: Seq<Sig>)
    requires
        before.with_functions(start, wanted),
        after.types == before.types,
        after.locals == before.locals,
        after.funcs.len() == before.funcs.len(),
        forall|i: int|
            0 <= i < wanted.len() ==> same_frame(
                before.funcs[start.funcs.len() + i],
                #[trigger] after.funcs[start.funcs.len() + i],
            ),
    ensures
        after.with_functions(start, wanted),
{
    reveal(Module::with_functions);
    assert forall|i: int| 0 <= i < wanted.len() implies placed(
        after.types@,
        #[trigger] after.funcs[start.funcs.len() + i],
        wanted[i],
        start.locals.len() + params_upto(wanted, i).len(),
    ) by {
        assert(placed(
            before.types@,
            before.funcs[start.funcs.len() + i],
            wanted[i],
            start.locals.len() + params_upto(wanted, i).len(),
        ));
    }
}

/// Adding the functions of `more` after those of `wanted` is adding those
/// of both.
pub proof fn lemma_with_functions_more(
    start: &Module,
    before: &Module,
    after: &Module,
    wanted: Seq<Sig>,
    more: Seq<Sig>,
)
    requires
        before.grown_from(start),
        after.grown_from(before),
        before.with_functions(start, wanted),
        after.with_functions(before, more),
    ensures
        after.with_functions(start, wanted + more),
{
    reveal(Module::with_functions);
    let all = wanted + more;
    lemma_with_sigs_more(sigs(start.types@), wanted, more);
    lemma_params_upto_more(wanted, more, more.len() as int);
    assert(after.locals@ =~= start.locals@ + params_upto(all, all.len() as int));
    assert forall|i: int| 0 <= i < all.len() implies placed(
        after.types@,
        #[trigger] after.funcs[start.funcs.len() + i],
        all[i],
        start.locals.len() + params_upto(all, i).len(),
    ) by {
        if i < wanted.len() {
            let func = before.funcs[start.funcs.len() + i];
            assert(after.funcs@.take(before.funcs.len() as int)[start.funcs.len() + i] == func);
            assert(placed(
                before.types@,
                func,
                wanted[i],
                start.locals.len() + params_upto(wanted, i).len(),
            ));
            lemma_find_type_grown(before.types@, after.types@, wanted[i].0, wanted[i].1, 0);
            lemma_params_upto_prefix(wanted, more, i);
        } else {
            let j = i - wanted.len();
            assert(placed(
                after.types@,
                after.funcs[before.funcs.len() + j],
                more[j],
                before.locals.len() + params_upto(more, j).len(),
            ));
            lemma_params_upto_more(wanted, more, j);
        }
    }
}

/// Adding the signatures of `more` after those of `wanted` is adding those
/// of both.
pub proof fn lemma_with_sigs_more(list: Seq<Sig>, wanted: Seq<Sig>, more: Seq<Sig>)
    ensures
        with_sigs(with_sigs(list, wanted), more) == with_sigs(list, wanted + more),
    decreases more.len(),
{
    if more.len() == 0 {
        assert(wanted + more =~= wanted);
    } else {
        lemma_with_sigs_more(list, wanted, more.drop_last());
        assert((wanted + more).drop_last() =~= wanted + more.drop_last());
        assert((wanted + more).last() == more.last());
    }
}

/// The parameters of the signatures of `wanted` and of the first `n` of
/// `more` are those of the former followed by those of the latter.
pub proof fn lemma_params_upto_more(wanted: Seq<Sig>, more: Seq<Sig>, n: int)
    requires
        0 <= n <= more.len(),
    ensures
        params_upto(wanted + more, wanted.len() + n) == params_upto(wanted, wanted.len() as int)
            + params_upto(more, n),
    decreases n,
{
    if n == 0 {
        lemma_params_upto_prefix(wanted, more, wanted.len() as int);
        assert(params_upto(wanted, wanted.len() as int) + params_upto(more, 0) =~= params_upto(
            wanted,
            wanted.len() as int,
        ));
    } else {
        lemma_params_upto_more(wanted, more, n - 1);
        assert((wanted + more)[wanted.len() + n - 1] == more[n - 1]);
        assert(params_upto(wanted + more, wanted.len() + n) =~= params_upto(
            wanted,
            wanted.len() as int,
        ) + params_upto(more, n));
    }
}

/// A module has grown from itself.
pub proof fn lemma_grown_refl(module: &Module)
    ensures
        module.grown_from(module),
{
    assert(module.types@.take(module.types.len() as int) =~= module.types@);
    assert(module.funcs@.take(module.funcs.len() as int) =~= module.funcs@);
    assert(module.globals@.take(module.globals.len() as int) =~= module.globals@);
    assert(module.locals@.take(module.locals.len() as int) =~= module.locals@);
    assert(module.exports@.take(module.exports.len() as int) =~= module.exports@);
}

/// Growing is transitive.
pub proof fn lemma_grown_trans(first: &Module, second: &Module, third: &Module)
    requires
        second.grown_from(first),
        third.grown_from(second),
    ensures
        third.grown_from(first),
{
    assert(third.types@.take(first.types.len() as int) =~= first.types@) by {
        assert(second.types@.take(first.types.len() as int) == first.types@);
        assert(third.types@.take(second.types.len() as int) == second.types@);
        assert forall|i: int| 0 <= i < first.types.len() implies third.types@[i] == first.types@[i] by {
            assert(third.types@.take(second.types.len() as int)[i] == second.types@[i]);
            assert(second.types@.take(first.types.len() as int)[i] == first.types@[i]);
        }
    }
    assert(third.funcs@.take(first.funcs.len() as int) =~= first.funcs@) by {
        assert forall|i: int| 0 <= i < first.funcs.len() implies third.funcs@[i] == first.funcs@[i] by {
            assert(third.funcs@.take(second.funcs.len() as int)[i] == second.funcs@[i]);
            assert(second.funcs@.take(first.funcs.len() as int)[i] == first.funcs@[i]);
        }
    }
    assert(third.globals@.take(first.globals.len() as int) =~= first.globals@) by {
        assert forall|i: int| 0 <= i < first.globals.len() implies third.globals@[i]
            == first.globals@[i] by {
            assert(third.globals@.take(second.globals.len() as int)[i] == second.globals@[i]);
            assert(second.globals@.take(first.globals.len() as int)[i] == first.globals@[i]);
        }
    }
    assert(third.locals@.take(first.locals.len() as int) =~= first.locals@) by {
        assert forall|i: int| 0 <= i < first.locals.len() implies third.locals@[i]
            == first.locals@[i] by {
            assert(third.locals@.take(second.locals.len() as int)[i] == second.locals@[i]);
            assert(second.locals@.take(first.locals.len() as int)[i] == first.locals@[i]);
        }
    }
    assert(third.exports@.take(first.exports.len() as int) =~= first.exports@) by {
        assert forall|i: int| 0 <= i < first.exports.len() implies third.exports@[i]
            == first.exports@[i] by {
            assert(third.exports@.take(second.exports.len() as int)[i] == second.exports@[i]);
            assert(second.exports@.take(first.exports.len() as int)[i] == first.exports@[i]);
        }
    }
}

} // verus!
