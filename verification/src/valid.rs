//! The test of whether a module is well formed, for callers that build
//! modules by hand.

use crate::ir::{
    Bounds, ExportItem, Function, FunctionKind, ImportKind, LocalFunction, Module, seq_wf,
};
use vstd::prelude::*;

verus! {

impl LocalFunction {
    /// Whether every identifier in the function names an entity that
    /// exists, given how many there are of each kind.
    pub fn is_well_formed(
        &self,
        types: usize,
        funcs: usize,
        tables: usize,
        globals: usize,
        locals: usize,
    ) -> (r: bool)
        ensures
            r == self.wf(
                Bounds {
                    types: types as nat,
                    funcs: funcs as nat,
                    tables: tables as nat,
                    globals: globals as nat,
                    locals: locals as nat,
                    seqs: 0,
                },
            ),
    {
        let ghost b = Bounds {
            types: types as nat,
            funcs: funcs as nat,
            tables: tables as nat,
            globals: globals as nat,
            locals: locals as nat,
            seqs: 0,
        };
        if self.ty >= types || self.entry >= self.seqs.len() {
            return false;
        }
        let mut a: usize = 0;
        while a < self.args.len()
            invariant
                a <= self.args@.len(),
                forall|i: int| 0 <= i < a ==> (#[trigger] self.args[i]) < locals,
            decreases self.args@.len() - a,
        {
            if self.args[a] >= locals {
                return false;
            }
            a += 1;
        }
        let seqs = self.seqs.len();
        let mut s: usize = 0;
        while s < seqs
            invariant
                s <= seqs,
                seqs == self.seqs@.len(),
                b == (Bounds {
                    types: types as nat,
                    funcs: funcs as nat,
                    tables: tables as nat,
                    globals: globals as nat,
                    locals: locals as nat,
                    seqs: 0,
                }),
                forall|t: int| 0 <= t < s ==> seq_wf(#[trigger] self.seqs[t]@, b.with_seqs(seqs as nat)),
            decreases seqs - s,
        {
            let instrs = &self.seqs[s];
            let mut p: usize = 0;
            while p < instrs.len()
                invariant
                    p <= instrs@.len(),
                    s < seqs,
                    seqs == self.seqs@.len(),
                    instrs@ == self.seqs[s as int]@,
                    b == (Bounds {
                        types: types as nat,
                        funcs: funcs as nat,
                        tables: tables as nat,
                        globals: globals as nat,
                        locals: locals as nat,
                        seqs: 0,
                    }),
                    forall|q: int| 0 <= q < p ==> (#[trigger] instrs@[q]).wf(b.with_seqs(seqs as nat)),
                decreases instrs@.len() - p,
            {
                if !instrs[p].check(types, funcs, tables, globals, locals, seqs) {
                    assert(!instrs@[p as int].wf(b.with_seqs(seqs as nat)));
                    assert(!seq_wf(self.seqs[s as int]@, b.with_seqs(seqs as nat)));
                    return false;
                }
                p += 1;
            }
            s += 1;
        }
        true
    }
}

impl Module {
    /// Whether every identifier stored anywhere in the module names an
    /// entity that exists.
    pub fn is_well_formed(&self) -> (r: bool)
        ensures
            r == self.wf(),
    {
        let types = self.types.len();
        let funcs = self.funcs.len();
        let tables = self.tables.len();
        let globals = self.globals.len();
        let locals = self.locals.len();
        let mut f: usize = 0;
        while f < funcs
            invariant
                f <= funcs,
                types == self.types.len(),
                funcs == self.funcs.len(),
                tables == self.tables.len(),
                globals == self.globals.len(),
                locals == self.locals.len(),
                forall|g: int| 0 <= g < f ==> (#[trigger] self.funcs[g]).wf(self.bounds()),
            decreases funcs - f,
        {
            let ok = match &self.funcs[f].kind {
                FunctionKind::Import { ty } => *ty < types,
                FunctionKind::Local(local) => local.is_well_formed(
                    types,
                    funcs,
                    tables,
                    globals,
                    locals,
                ),
            };
            if !ok {
                assert(!self.funcs[f as int].wf(self.bounds()));
                return false;
            }
            f += 1;
        }
        let mut i: usize = 0;
        while i < self.imports.len()
            invariant
                i <= self.imports.len(),
                funcs == self.funcs.len(),
                forall|j: int|
                    0 <= j < i ==> match (#[trigger] self.imports[j]).kind {
                        ImportKind::Function(g) => g < self.funcs.len(),
                        ImportKind::Other => true,
                    },
            decreases self.imports.len() - i,
        {
            match self.imports[i].kind {
                ImportKind::Function(g) => {
                    if g >= funcs {
                        return false;
                    }
                },
                ImportKind::Other => {},
            }
            i += 1;
        }
        let mut i: usize = 0;
        while i < self.exports.len()
            invariant
                i <= self.exports.len(),
                funcs == self.funcs.len(),
                globals == self.globals.len(),
                forall|j: int|
                    0 <= j < i ==> match (#[trigger] self.exports[j]).item {
                        ExportItem::Function(g) => g < self.funcs.len(),
                        ExportItem::Global(g) => g < self.globals.len(),
                        ExportItem::Other => true,
                    },
            decreases self.exports.len() - i,
        {
            match self.exports[i].item {
                ExportItem::Function(g) => {
                    if g >= funcs {
                        return false;
                    }
                },
                ExportItem::Global(g) => {
                    if g >= globals {
                        return false;
                    }
                },
                ExportItem::Other => {},
            }
            i += 1;
        }
        let mut t: usize = 0;
        while t < tables
            invariant
                t <= tables,
                tables == self.tables.len(),
                forall|u: int, j: int|
                    0 <= u < t && 0 <= j < self.tables[u].segments.len()
                        ==> (#[trigger] self.tables[u].segments[j]) < self.elements.len(),
            decreases tables - t,
        {
            let segments = &self.tables[t].segments;
            let mut j: usize = 0;
            while j < segments.len()
                invariant
                    j <= segments@.len(),
                    t < tables,
                    tables == self.tables.len(),
                    segments@ == self.tables[t as int].segments@,
                    forall|k: int| 0 <= k < j ==> (#[trigger] segments@[k]) < self.elements.len(),
                decreases segments@.len() - j,
            {
                if segments[j] >= self.elements.len() {
                    assert(self.tables[t as int].segments[j as int] >= self.elements.len());
                    return false;
                }
                j += 1;
            }
            t += 1;
        }
        let mut e: usize = 0;
        while e < self.elements.len()
            invariant
                e <= self.elements.len(),
                funcs == self.funcs.len(),
                forall|d: int, j: int|
                    0 <= d < e && 0 <= j < self.elements[d].members.len()
                        ==> match #[trigger] self.elements[d].members[j] {
                        Some(g) => g < self.funcs.len(),
                        None => true,
                    },
            decreases self.elements.len() - e,
        {
            let members = &self.elements[e].members;
            let mut j: usize = 0;
            while j < members.len()
                invariant
                    j <= members@.len(),
                    e < self.elements.len(),
                    funcs == self.funcs.len(),
                    members@ == self.elements[e as int].members@,
                    forall|k: int|
                        0 <= k < j ==> match #[trigger] members@[k] {
                            Some(g) => g < self.funcs.len(),
                            None => true,
                        },
                decreases members@.len() - j,
            {
                match members[j] {
                    Some(g) => {
                        if g >= funcs {
                            assert(self.elements[e as int].members[j as int] == Some(g));
                            return false;
                        }
                    },
                    None => {},
                }
                j += 1;
            }
            e += 1;
        }
        true
    }
}

} // verus!
