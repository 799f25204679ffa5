//! A plain-data model of a WebAssembly module: just the parts that the
//! profiling and devirtualization passes read or change.
//!
//! Every entity is named by its position in the arena that owns it, so an
//! identifier stays valid for as long as the module lives: arenas only grow.

use vstd::prelude::*;

verus! {

/// Position of a function signature in [`Module::types`].
pub type TypeId = usize;

/// Position of a function in [`Module::funcs`].
pub type FuncId = usize;

/// Position of a table in [`Module::tables`].
pub type TableId = usize;

/// Position of an element segment in [`Module::elements`].
pub type ElemId = usize;

/// Position of a global in [`Module::globals`].
pub type GlobalId = usize;

/// Position of a local in [`Module::locals`].
pub type LocalId = usize;

/// Position of an instruction sequence in [`LocalFunction::seqs`].
pub type SeqId = usize;

/// A WebAssembly value type.
#[derive(Clone, Copy, Debug, PartialEq, Eq, Structural)]
pub enum ValType {
    I32,
    I64,
    F32,
    F64,
    V128,
    Externref,
    Funcref,
}

/// A function signature. Two signatures are the same when their parameter
/// and result vectors are.
#[derive(Clone, Debug, PartialEq, Eq)]
pub struct Signature {
    pub params: Vec<ValType>,
    pub results: Vec<ValType>,
}

/// The binary operators that the passes emit.
#[derive(Clone, Copy, Debug, PartialEq, Eq, Structural)]
pub enum BinaryOp {
    I32Add,
    I32Eq,
    I32Ne,
    I32Or,
}

/// One instruction. Structured control flow refers to nested sequences by
/// id. Everything the passes neither inspect nor emit is [`Instr::Other`],
/// whose handle is the caller's to choose and is carried along untouched.
#[derive(Clone, Copy, Debug, PartialEq, Eq, Structural)]
pub enum Instr {
    /// `block ... end` around the nested sequence.
    Block { seq: SeqId },
    /// `loop ... end` around the nested sequence.
    Loop { seq: SeqId },
    /// `if ... else ... end` with its two nested sequences.
    IfElse { consequent: SeqId, alternative: SeqId },
    /// `call` of a function.
    Call { func: FuncId },
    /// `call_indirect` through a signature and a table.
    CallIndirect { ty: TypeId, table: TableId },
    /// `local.get`.
    LocalGet { local: LocalId },
    /// `local.set`.
    LocalSet { local: LocalId },
    /// `global.get`.
    GlobalGet { global: GlobalId },
    /// `global.set`.
    GlobalSet { global: GlobalId },
    /// `i32.const`.
    Const { value: i32 },
    /// One of the binary operators that the passes emit.
    Binop { op: BinaryOp },
    /// `br` out of the sequence named.
    Br { block: SeqId },
    /// `return`.
    Return,
    /// `unreachable`.
    Unreachable,
    /// Any other instruction.
    Other { handle: usize },
}

/// A locally defined function: its instruction sequences, the one execution
/// starts in, and the locals that receive the arguments.
#[derive(Clone, Debug, PartialEq, Eq)]
pub struct LocalFunction {
    pub ty: TypeId,
    pub args: Vec<LocalId>,
    pub entry: SeqId,
    pub seqs: Vec<Vec<Instr>>,
}

/// What a function is: imported with a signature, or defined in the module.
#[derive(Clone, Debug, PartialEq, Eq)]
pub enum FunctionKind {
    Import { ty: TypeId },
    Local(LocalFunction),
}

/// A function and the name it goes by, if it has one.
#[derive(Clone, Debug, PartialEq, Eq)]
pub struct Function {
    pub name: Option<String>,
    pub kind: FunctionKind,
}

/// What an import brings in: a function, or something the passes do not
/// look at.
#[derive(Clone, Copy, Debug, PartialEq, Eq, Structural)]
pub enum ImportKind {
    Function(FuncId),
    Other,
}

/// An import, by the names of the module it comes from and of the item.
#[derive(Clone, Debug, PartialEq, Eq)]
pub struct Import {
    pub module: String,
    pub name: String,
    pub kind: ImportKind,
}

/// What an export makes known: a function, a global, or something the
/// passes do not look at.
#[derive(Clone, Copy, Debug, PartialEq, Eq, Structural)]
pub enum ExportItem {
    Function(FuncId),
    Global(GlobalId),
    Other,
}

/// An export and the name it is known by.
#[derive(Clone, Debug, PartialEq, Eq)]
pub struct Export {
    pub name: String,
    pub item: ExportItem,
}

/// A constant initializer. Only 32-bit integer constants are read.
#[derive(Clone, Copy, Debug, PartialEq, Eq, Structural)]
pub enum InitExpr {
    I32(i32),
    Other,
}

/// How an element segment is used. An active one fills a table from the
/// slot that its offset gives.
#[derive(Clone, Copy, Debug, PartialEq, Eq, Structural)]
pub enum ElementKind {
    Passive,
    Declared,
    Active { table: TableId, offset: InitExpr },
}

/// An element segment: the functions it places in a table, slot by slot.
#[derive(Clone, Debug, PartialEq, Eq)]
pub struct Element {
    pub kind: ElementKind,
    pub members: Vec<Option<FuncId>>,
}

/// A table and the element segments that initialize it. `funcref` says
/// whether the table holds function references.
#[derive(Clone, Debug, PartialEq, Eq)]
pub struct Table {
    pub funcref: bool,
    pub segments: Vec<ElemId>,
}

/// Where a global comes from: an import, or the module with an initializer.
#[derive(Clone, Copy, Debug, PartialEq, Eq, Structural)]
pub enum GlobalKind {
    Import,
    Local(InitExpr),
}

/// A global.
#[derive(Clone, Copy, Debug, PartialEq, Eq, Structural)]
pub struct Global {
    pub ty: ValType,
    pub mutable: bool,
    pub kind: GlobalKind,
}

/// The module that the passes rewrite in place.
#[derive(Clone, Debug, PartialEq, Eq)]
pub struct Module {
    pub types: Vec<Signature>,
    pub funcs: Vec<Function>,
    pub imports: Vec<Import>,
    pub exports: Vec<Export>,
    pub tables: Vec<Table>,
    pub elements: Vec<Element>,
    pub globals: Vec<Global>,
    pub locals: Vec<ValType>,
}

/// How many entities of each kind an instruction may refer to.
pub struct Bounds {
    pub types: nat,
    pub funcs: nat,
    pub tables: nat,
    pub globals: nat,
    pub locals: nat,
    pub seqs: nat,
}

impl Bounds {
    /// `self` admits every reference that `other` admits.
    pub open spec fn covers(self, other: Bounds) -> bool {
        &&& other.types <= self.types
        &&& other.funcs <= self.funcs
        &&& other.tables <= self.tables
        &&& other.globals <= self.globals
        &&& other.locals <= self.locals
        &&& other.seqs <= self.seqs
    }

    /// The same bounds, for a function of `seqs` sequences.
    pub open spec fn with_seqs(self, seqs: nat) -> Bounds {
        Bounds { seqs, ..self }
    }
}

impl Signature {
    /// The two signatures have the same parameters and results.
    pub open spec fn same(&self, other: &Signature) -> bool {
        self.params@ == other.params@ && self.results@ == other.results@
    }

    /// Whether the two signatures have the same parameters and results.
    pub fn matches(&self, other: &Signature) -> (r: bool)
        ensures
            r == self.same(other),
    {
        same_types(&self.params, &other.params) && same_types(&self.results, &other.results)
    }
}

/// Whether two vectors of value types are equal, element by element.
pub fn same_types(a: &Vec<ValType>, b: &Vec<ValType>) -> (r: bool)
    ensures
        r == (a@ == b@),
{
    if a.len() != b.len() {
        return false;
    }
    let mut i: usize = 0;
    while i < a.len()
        invariant
            i <= a.len(),
            a.len() == b.len(),
            forall|j: int| 0 <= j < i ==> a[j] == b[j],
        decreases a.len() - i,
    {
        if a[i] != b[i] {
            return false;
        }
        i += 1;
    }
    assert(a@ =~= b@);
    true
}

/// A copy of a vector of value types.
pub fn copy_types(a: &Vec<ValType>) -> (r: Vec<ValType>)
    ensures
        r@ == a@,
{
    let mut r: Vec<ValType> = Vec::new();
    let mut i: usize = 0;
    while i < a.len()
        invariant
            i <= a.len(),
            r@ == a@.take(i as int),
        decreases a.len() - i,
    {
        r.push(a[i]);
        assert(a@.take(i as int).push(a[i as int]) =~= a@.take(i + 1));
        i += 1;
    }
    assert(a@.take(a.len() as int) =~= a@);
    r
}

impl Instr {
    /// Every entity the instruction names exists.
    pub open spec fn wf(self, b: Bounds) -> bool {
        match self {
            Instr::Block { seq } => seq < b.seqs,
            Instr::Loop { seq } => seq < b.seqs,
            Instr::IfElse { consequent, alternative } => consequent < b.seqs && alternative
                < b.seqs,
            Instr::Call { func } => func < b.funcs,
            Instr::CallIndirect { ty, table } => ty < b.types && table < b.tables,
            Instr::LocalGet { local } => local < b.locals,
            Instr::LocalSet { local } => local < b.locals,
            Instr::GlobalGet { global } => global < b.globals,
            Instr::GlobalSet { global } => global < b.globals,
            Instr::Br { block } => block < b.seqs,
            _ => true,
        }
    }

    /// Checks [`Instr::wf`] against the given counts.
    pub fn check(
        &self,
        types: usize,
        funcs: usize,
        tables: usize,
        globals: usize,
        locals: usize,
        seqs: usize,
    ) -> (r: bool)
        ensures
            r == self.wf(
                Bounds {
                    types: types as nat,
                    funcs: funcs as nat,
                    tables: tables as nat,
                    globals: globals as nat,
                    locals: locals as nat,
                    seqs: seqs as nat,
                },
            ),
    {
        match *self {
            Instr::Block { seq } => seq < seqs,
            Instr::Loop { seq } => seq < seqs,
            Instr::IfElse { consequent, alternative } => consequent < seqs && alternative < seqs,
            Instr::Call { func } => func < funcs,
            Instr::CallIndirect { ty, table } => ty < types && table < tables,
            Instr::LocalGet { local } => local < locals,
            Instr::LocalSet { local } => local < locals,
            Instr::GlobalGet { global } => global < globals,
            Instr::GlobalSet { global } => global < globals,
            Instr::Br { block } => block < seqs,
            _ => true,
        }
    }
}

/// Every instruction of the sequence is well formed.
pub open spec fn seq_wf(instrs: Seq<Instr>, b: Bounds) -> bool {
    forall|i: int| 0 <= i < instrs.len() ==> (#[trigger] instrs[i]).wf(b)
}

/// Instruction sequences as mathematical sequences.
pub open spec fn body_view(seqs: Seq<Vec<Instr>>) -> Seq<Seq<Instr>> {
    seqs.map_values(|v: Vec<Instr>| v@)
}

impl LocalFunction {
    /// The instruction sequences as mathematical sequences.
    pub open spec fn body(&self) -> Seq<Seq<Instr>> {
        body_view(self.seqs@)
    }

    /// Every identifier in the function names an entity that exists. The
    /// number of sequences is the function's own.
    pub open spec fn wf(&self, b: Bounds) -> bool {
        &&& self.ty < b.types
        &&& self.entry < self.seqs.len()
        &&& forall|a: int| 0 <= a < self.args.len() ==> (#[trigger] self.args[a]) < b.locals
        &&& forall|s: int|
            0 <= s < self.seqs.len() ==> seq_wf(
                #[trigger] self.seqs[s]@,
                b.with_seqs(self.seqs.len() as nat),
            )
    }
}

impl Function {
    /// Every identifier in the function names an entity that exists.
    pub open spec fn wf(&self, b: Bounds) -> bool {
        match self.kind {
            FunctionKind::Import { ty } => ty < b.types,
            FunctionKind::Local(local) => local.wf(b),
        }
    }

    /// The function is defined in the module.
    pub open spec fn is_local(&self) -> bool {
        self.kind is Local
    }

    /// The signature id of the function, imported or local.
    pub open spec fn type_id(&self) -> TypeId {
        match self.kind {
            FunctionKind::Import { ty } => ty,
            FunctionKind::Local(local) => local.ty,
        }
    }

    /// The body of a local function; an import has none.
    pub open spec fn body(&self) -> Seq<Seq<Instr>> {
        match self.kind {
            FunctionKind::Import { .. } => Seq::empty(),
            FunctionKind::Local(local) => local.body(),
        }
    }

    /// The signature id of the function.
    pub fn ty(&self) -> (t: TypeId)
        ensures
            t == self.type_id(),
    {
        match &self.kind {
            FunctionKind::Import { ty } => *ty,
            FunctionKind::Local(local) => local.ty,
        }
    }
}

impl Module {
    /// The counts that references into this module are held to. The number
    /// of sequences is a function's own, so it is left at zero here.
    pub open spec fn bounds(&self) -> Bounds {
        Bounds {
            types: self.types.len() as nat,
            funcs: self.funcs.len() as nat,
            tables: self.tables.len() as nat,
            globals: self.globals.len() as nat,
            locals: self.locals.len() as nat,
            seqs: 0,
        }
    }

    /// The parameters of the signature of function `func`.
    pub open spec fn params_of(&self, func: FuncId) -> Seq<ValType> {
        self.types[self.funcs[func as int].type_id() as int].params@
    }

    /// The results of the signature of function `func`.
    pub open spec fn results_of(&self, func: FuncId) -> Seq<ValType> {
        self.types[self.funcs[func as int].type_id() as int].results@
    }

    /// Every identifier stored anywhere in the module names an entity that
    /// exists.
    pub open spec fn wf(&self) -> bool {
        &&& forall|f: int| 0 <= f < self.funcs.len() ==> (#[trigger] self.funcs[f]).wf(self.bounds())
        &&& forall|i: int|
            0 <= i < self.imports.len() ==> match (#[trigger] self.imports[i]).kind {
                ImportKind::Function(f) => f < self.funcs.len(),
                ImportKind::Other => true,
            }
        &&& forall|i: int|
            0 <= i < self.exports.len() ==> match (#[trigger] self.exports[i]).item {
                ExportItem::Function(f) => f < self.funcs.len(),
                ExportItem::Global(g) => g < self.globals.len(),
                ExportItem::Other => true,
            }
        &&& forall|t: int, i: int|
            0 <= t < self.tables.len() && 0 <= i < self.tables[t].segments.len()
                ==> (#[trigger] self.tables[t].segments[i]) < self.elements.len()
        &&& forall|e: int, i: int|
            0 <= e < self.elements.len() && 0 <= i < self.elements[e].members.len()
                ==> match #[trigger] self.elements[e].members[i] {
                Some(f) => f < self.funcs.len(),
                None => true,
            }
    }
}

/// A reference that fits smaller bounds fits larger ones.
pub proof fn lemma_instr_wf_covers(instr: Instr, small: Bounds, large: Bounds)
    requires
        instr.wf(small),
        large.covers(small),
    ensures
        instr.wf(large),
{
}

/// A sequence that fits smaller bounds fits larger ones.
pub proof fn lemma_seq_wf_covers(instrs: Seq<Instr>, small: Bounds, large: Bounds)
    requires
        seq_wf(instrs, small),
        large.covers(small),
    ensures
        seq_wf(instrs, large),
{
    assert forall|i: int| 0 <= i < instrs.len() implies (#[trigger] instrs[i]).wf(large) by {
        lemma_instr_wf_covers(instrs[i], small, large);
    }
}

/// A function that fits smaller bounds fits larger ones.
pub proof fn lemma_function_wf_covers(func: Function, small: Bounds, large: Bounds)
    requires
        func.wf(small),
        large.covers(small),
    ensures
        func.wf(large),
{
    match func.kind {
        FunctionKind::Import { .. } => {},
        FunctionKind::Local(local) => {
            let n = local.seqs.len() as nat;
            assert forall|s: int| 0 <= s < local.seqs.len() implies seq_wf(
                #[trigger] local.seqs[s]@,
                large.with_seqs(n),
            ) by {
                lemma_seq_wf_covers(local.seqs[s]@, small.with_seqs(n), large.with_seqs(n));
            }
        },
    }
}

} // verus!
