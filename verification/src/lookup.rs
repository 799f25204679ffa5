//! What the passes look up in a module: the main function table and the
//! segment that fills it, the entry function, and the imports that count
//! as leaving the module.

use crate::ir::{
    ElemId, Element, ElementKind, Export, ExportItem, FuncId, Import, ImportKind, Module, Table,
    TableId,
};
use vstd::prelude::*;
use vstd::string::StringExecFns;

verus! {

/// The name under which the entry function is exported.
pub open spec fn start_name() -> Seq<char> {
    "_start"@
}

/// The first table from `from` on that holds function references.
pub open spec fn first_funcref(tables: Seq<Table>, from: int) -> Option<TableId>
    decreases tables.len() - from,
{
    if from < 0 || from >= tables.len() {
        None
    } else if tables[from].funcref {
        Some(from as usize)
    } else {
        first_funcref(tables, from + 1)
    }
}

/// The first segment from position `from` of `segments` on that is active.
pub open spec fn first_active(elements: Seq<Element>, segments: Seq<ElemId>, from: int) -> Option<
    ElemId,
>
    decreases segments.len() - from,
{
    if from < 0 || from >= segments.len() {
        None
    } else if elements[segments[from] as int].kind is Active {
        Some(segments[from])
    } else {
        first_active(elements, segments, from + 1)
    }
}

/// The function of the first export from `from` on that is named `_start`
/// and is a function.
pub open spec fn first_start(exports: Seq<Export>, from: int) -> Option<FuncId>
    decreases exports.len() - from,
{
    if from < 0 || from >= exports.len() {
        None
    } else if exports[from].name@ == start_name() && exports[from].item is Function {
        Some(exports[from].item->Function_0)
    } else {
        first_start(exports, from + 1)
    }
}

/// The main segment is a segment of the module.
pub proof fn lemma_main_segment(module: &Module)
    requires
        module.wf(),
        module.main_segment() is Some,
    ensures
        module.main_segment().unwrap() < module.elements.len(),
{
    let table = module.main_table().unwrap();
    assert(module.tables@.len() == module.tables.len());
    lemma_first_funcref(module.tables@, 0);
    lemma_first_active(module.elements@, module.tables[table as int].segments@, 0);
    let e = module.main_segment().unwrap();
    let i = choose|i: int|
        0 <= i < module.tables[table as int].segments@.len() && module.tables[table as int].segments@[i]
            == e;
    assert(module.tables[table as int].segments[i] < module.elements.len());
}

/// The table found holds function references.
pub proof fn lemma_first_funcref(tables: Seq<Table>, from: int)
    requires
        0 <= from,
        tables.len() <= usize::MAX,
    ensures
        first_funcref(tables, from) matches Some(t) ==> from <= t < tables.len(),
    decreases tables.len() - from,
{
    if from < tables.len() && !tables[from].funcref {
        lemma_first_funcref(tables, from + 1);
    }
}

/// The segment found is one of the segments.
pub proof fn lemma_first_active(elements: Seq<Element>, segments: Seq<ElemId>, from: int)
    requires
        0 <= from,
    ensures
        first_active(elements, segments, from) matches Some(e) ==> exists|i: int|
            from <= i < segments.len() && segments[i] == e,
    decreases segments.len() - from,
{
    if from < segments.len() && !(elements[segments[from] as int].kind is Active) {
        lemma_first_active(elements, segments, from + 1);
    }
}

/// One of the first `n` imports brings in `func` under a name that is not
/// among `benign`.
pub open spec fn poisoned_upto(imports: Seq<Import>, n: int, benign: Seq<Seq<char>>, func: FuncId) -> bool {
    exists|i: int|
        0 <= i < n && (#[trigger] imports[i]).kind == ImportKind::Function(func)
            && !benign.contains(imports[i].name@)
}

proof fn lemma_poisoned_step(imports: Seq<Import>, n: int, benign: Seq<Seq<char>>, func: FuncId)
    requires
        0 <= n < imports.len(),
    ensures
        poisoned_upto(imports, n + 1, benign, func) == (poisoned_upto(imports, n, benign, func) || (
        imports[n].kind == ImportKind::Function(func) && !benign.contains(imports[n].name@))),
{
    if poisoned_upto(imports, n, benign, func) {
        let i = choose|i: int|
            0 <= i < n && (#[trigger] imports[i]).kind == ImportKind::Function(func)
                && !benign.contains(imports[i].name@);
        assert(imports[i].kind == ImportKind::Function(func));
    }
    if imports[n].kind == ImportKind::Function(func) && !benign.contains(imports[n].name@) {
        assert(imports[n].kind == ImportKind::Function(func));
    }
}

/// The names as sequences of characters.
pub open spec fn names(list: Seq<String>) -> Seq<Seq<char>> {
    list.map_values(|name: String| name@)
}

/// The imports that count as benign unless the caller says otherwise.
pub open spec fn default_benign() -> Seq<Seq<char>> {
    seq!["proc_exit"@, "fd_write"@]
}

/// Whether `name` is one of `list`.
pub fn name_among(name: &String, list: &Vec<String>) -> (r: bool)
    ensures
        r == names(list@).contains(name@),
{
    let mut i: usize = 0;
    while i < list.len()
        invariant
            i <= list@.len(),
            forall|j: int| 0 <= j < i ==> names(list@)[j] != name@,
        decreases list@.len() - i,
    {
        if list[i] == *name {
            assert(names(list@)[i as int] == name@);
            return true;
        }
        i += 1;
    }
    false
}

impl Module {
    /// The main function table: the first table that holds function
    /// references.
    pub open spec fn main_table(&self) -> Option<TableId> {
        first_funcref(self.tables@, 0)
    }

    /// The segment that fills the main function table: the first active one
    /// among the table's segments.
    pub open spec fn main_segment(&self) -> Option<ElemId> {
        match self.main_table() {
            Some(table) => first_active(self.elements@, self.tables[table as int].segments@, 0),
            None => None,
        }
    }

    /// The slots of the main function table as its segment fills them; none
    /// where the module has no such table or segment.
    pub open spec fn table_members(&self) -> Seq<Option<FuncId>> {
        match self.main_segment() {
            Some(segment) => self.elements[segment as int].members@,
            None => Seq::empty(),
        }
    }

    /// The entry function: the one exported as `_start`.
    pub open spec fn start(&self) -> Option<FuncId> {
        first_start(self.exports@, 0)
    }

    /// `func` is imported under a name that is not among `benign`, so a call
    /// of it leaves the module for good.
    pub open spec fn poisons(&self, benign: Seq<Seq<char>>, func: FuncId) -> bool {
        exists|i: int|
            0 <= i < self.imports.len() && (#[trigger] self.imports[i]).kind == ImportKind::Function(
                func,
            ) && !benign.contains(self.imports[i].name@)
    }

    /// Finds the main function table.
    pub fn main_function_table(&self) -> (r: Option<TableId>)
        ensures
            r == self.main_table(),
            r matches Some(t) ==> t < self.tables.len(),
    {
        let mut t: usize = 0;
        while t < self.tables.len()
            invariant
                t <= self.tables.len(),
                first_funcref(self.tables@, t as int) == self.main_table(),
            decreases self.tables.len() - t,
        {
            if self.tables[t].funcref {
                return Some(t);
            }
            t += 1;
        }
        None
    }

    /// Finds the segment that fills the main function table.
    pub fn main_element_segment(&self) -> (r: Option<ElemId>)
        requires
            self.wf(),
        ensures
            r == self.main_segment(),
            r matches Some(e) ==> e < self.elements.len(),
    {
        match self.main_function_table() {
            Some(table) => {
                let segments = &self.tables[table].segments;
                let mut i: usize = 0;
                while i < segments.len()
                    invariant
                        i <= segments.len(),
                        self.wf(),
                        table < self.tables.len(),
                        self.main_table() == Some(table),
                        segments@ == self.tables[table as int].segments@,
                        first_active(self.elements@, segments@, i as int) == first_active(
                            self.elements@,
                            segments@,
                            0,
                        ),
                    decreases segments.len() - i,
                {
                    let e = segments[i];
                    assert(self.tables[table as int].segments[i as int] < self.elements.len());
                    match self.elements[e].kind {
                        ElementKind::Active { .. } => {
                            return Some(e);
                        },
                        _ => {},
                    }
                    i += 1;
                }
                None
            },
            None => None,
        }
    }

    /// Finds the entry function.
    pub fn start_function(&self) -> (r: Option<FuncId>)
        ensures
            r == self.start(),
    {
        let name = String::from_str("_start");
        let mut i: usize = 0;
        while i < self.exports.len()
            invariant
                i <= self.exports.len(),
                name@ == start_name(),
                first_start(self.exports@, i as int) == self.start(),
            decreases self.exports.len() - i,
        {
            if self.exports[i].name == name {
                match self.exports[i].item {
                    ExportItem::Function(f) => {
                        return Some(f);
                    },
                    _ => {},
                }
            }
            i += 1;
        }
        None
    }

    /// Marks, function by function, the imports that are not benign.
    pub fn poison_marks(&self, benign: &Vec<String>) -> (marks: Vec<bool>)
        requires
            self.wf(),
        ensures
            marks@.len() == self.funcs.len(),
            forall|f: int|
                0 <= f < marks@.len() ==> #[trigger] marks@[f] == self.poisons(
                    names(benign@),
                    f as usize,
                ),
    {
        let n = self.funcs.len();
        let ghost list = names(benign@);
        let mut marks: Vec<bool> = Vec::new();
        while marks.len() < n
            invariant
                marks.len() <= n,
                forall|f: int| 0 <= f < marks@.len() ==> !#[trigger] marks@[f],
            decreases n - marks.len(),
        {
            marks.push(false);
        }
        let mut i: usize = 0;
        while i < self.imports.len()
            invariant
                i <= self.imports.len(),
                self.wf(),
                n == self.funcs.len(),
                list == names(benign@),
                marks@.len() == n,
                forall|f: int|
                    0 <= f < n ==> #[trigger] marks@[f] == poisoned_upto(
                        self.imports@,
                        i as int,
                        list,
                        f as usize,
                    ),
            decreases self.imports.len() - i,
        {
            let import = &self.imports[i];
            match import.kind {
                ImportKind::Function(g) => {
                    if !name_among(&import.name, benign) {
                        marks[g] = true;
                    }
                },
                ImportKind::Other => {},
            }
            proof {
                assert forall|f: int| 0 <= f < n implies #[trigger] marks@[f] == poisoned_upto(
                    self.imports@,
                    i + 1,
                    list,
                    f as usize,
                ) by {
                    lemma_poisoned_step(self.imports@, i as int, list, f as usize);
                }
            }
            i += 1;
        }
        marks
    }
}

} // verus!
