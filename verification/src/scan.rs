//! The scan of one function for the fastcall analysis.
//!
//! The entry function is ruled out by decree. Any other function is ruled
//! out by a direct call of itself, by a call of an import that is not
//! benign, and by an indirect call that could reach the function itself.
//! Every other direct call, and every function that an indirect call could
//! reach, is a dependency.

use crate::fastcalls::FastCallScan;
use crate::ir::{FuncId, Instr, Module, TypeId};
use vstd::prelude::*;

verus! {

/// What a scan needs to know of the module around the function.
#[derive(Debug)]
pub struct ScanContext {
    /// The entry function.
    pub start: FuncId,
    /// For each function, whether it is an import that is not benign.
    pub poison: Vec<bool>,
    /// The slots of the main function table.
    pub members: Vec<Option<FuncId>>,
}

/// The facts that a scan goes by.
pub struct Facts {
    /// The entry function.
    pub start: FuncId,
    /// The imports that are not benign.
    pub poison: Set<FuncId>,
    /// The slots of the main function table.
    pub members: Seq<Option<FuncId>>,
}

impl View for ScanContext {
    type V = Facts;

    open spec fn view(&self) -> Facts {
        Facts {
            start: self.start,
            poison: Set::new(|g: FuncId| g < self.poison@.len() && self.poison@[g as int]),
            members: self.members@,
        }
    }
}

impl Facts {
    /// An indirect call through signature `ty` could reach `h`: the main
    /// function table holds `h`, and `h` has that signature.
    pub open spec fn targeted(&self, module: &Module, ty: TypeId, h: FuncId) -> bool {
        self.members.contains(Some(h)) && module.has_type(h, ty)
    }

    /// The instruction alone rules out `func`.
    pub open spec fn instr_rules_out(&self, module: &Module, func: FuncId, instr: Instr) -> bool {
        match instr {
            Instr::Call { func: g } => g == func || self.poison.contains(g),
            Instr::CallIndirect { ty, .. } => self.targeted(module, ty, func),
            _ => false,
        }
    }

    /// The instruction makes `func` depend on `d`.
    pub open spec fn instr_depends(&self, module: &Module, func: FuncId, instr: Instr, d: FuncId) -> bool {
        match instr {
            Instr::Call { func: g } => g == d && g != func && !self.poison.contains(g),
            Instr::CallIndirect { ty, .. } => self.targeted(module, ty, d) && !self.targeted(
                module,
                ty,
                func,
            ),
            _ => false,
        }
    }

    /// The instruction calls the import `g`, which is not benign.
    pub open spec fn instr_imports(&self, func: FuncId, instr: Instr, g: FuncId) -> bool {
        instr == (Instr::Call { func: g }) && g != func && self.poison.contains(g)
    }

    /// `func` is ruled out: it is the entry function, or one of the
    /// instructions rules it out.
    pub open spec fn rules_out(&self, module: &Module, func: FuncId, flat: Seq<Instr>) -> bool {
        func == self.start || exists|i: int|
            0 <= i < flat.len() && self.instr_rules_out(module, func, #[trigger] flat[i])
    }

    /// `func` depends on `d` by one of the instructions.
    pub open spec fn depends(&self, module: &Module, func: FuncId, flat: Seq<Instr>, d: FuncId) -> bool {
        func != self.start && exists|i: int|
            0 <= i < flat.len() && self.instr_depends(module, func, #[trigger] flat[i], d)
    }

    /// `func` calls the import `g`, which is not benign.
    pub open spec fn imports(&self, func: FuncId, flat: Seq<Instr>, g: FuncId) -> bool {
        func != self.start && exists|i: int|
            0 <= i < flat.len() && self.instr_imports(func, #[trigger] flat[i], g)
    }
}

impl ScanContext {
    /// The context fits the module: one mark per function, and every table
    /// slot names a function that exists.
    pub open spec fn wf(&self, module: &Module) -> bool {
        &&& self.poison@.len() == module.funcs.len()
        &&& forall|j: int|
            0 <= j < self.members@.len() ==> match #[trigger] self.members@[j] {
                Some(h) => h < module.funcs.len(),
                None => true,
            }
    }

    /// Whether `h` has the signature `ty`.
    fn has_signature(&self, module: &Module, h: FuncId, ty: TypeId) -> (r: bool)
        requires
            module.wf(),
            h < module.funcs.len(),
            ty < module.types.len(),
        ensures
            r == module.has_type(h, ty),
    {
        assert(module.funcs[h as int].wf(module.bounds()));
        let own = module.funcs[h].ty();
        module.types[own].matches(&module.types[ty])
    }

    /// Whether an indirect call through `ty` could reach `func`.
    fn reaches(&self, module: &Module, ty: TypeId, func: FuncId) -> (r: bool)
        requires
            module.wf(),
            self.wf(module),
            func < module.funcs.len(),
            ty < module.types.len(),
        ensures
            r == self@.targeted(module, ty, func),
    {
        if !self.has_signature(module, func, ty) {
            return false;
        }
        let mut j: usize = 0;
        while j < self.members.len()
            invariant
                j <= self.members@.len(),
                module.has_type(func, ty),
                forall|e: int| 0 <= e < j ==> self.members@[e] != Some(func),
            decreases self.members@.len() - j,
        {
            match self.members[j] {
                Some(h) => {
                    if h == func {
                        assert(self.members@[j as int] == Some(func));
                        return true;
                    }
                },
                None => {},
            }
            j += 1;
        }
        false
    }
}

impl Module {
    /// The signature of `h` is the one that `ty` names.
    pub open spec fn has_type(&self, h: FuncId, ty: TypeId) -> bool {
        self.types[self.funcs[h as int].type_id() as int].same(&self.types[ty as int])
    }
}

/// A longer prefix holds what the shorter one holds and the next element.
pub proof fn lemma_take_contains<T>(s: Seq<T>, j: int, x: T)
    requires
        0 <= j < s.len(),
    ensures
        s.take(j + 1).contains(x) <==> s.take(j).contains(x) || s[j] == x,
{
    let short = s.take(j);
    let long = s.take(j + 1);
    if short.contains(x) {
        let i = choose|i: int| 0 <= i < short.len() && short[i] == x;
        assert(long[i] == x);
    }
    if s[j] == x {
        assert(long[j] == x);
    }
    if long.contains(x) {
        let i = choose|i: int| 0 <= i < long.len() && long[i] == x;
        if i < j {
            assert(short[i] == x);
        }
    }
}

impl ScanContext {
    /// Adds to `deps` every function that an indirect call through `ty`
    /// could reach.
    fn add_targets(&self, deps: &mut Vec<FuncId>, module: &Module, ty: TypeId)
        requires
            module.wf(),
            self.wf(module),
            ty < module.types.len(),
            old(deps)@.no_duplicates(),
        ensures
            final(deps)@.no_duplicates(),
            forall|d: FuncId|
                final(deps)@.contains(d) <==> old(deps)@.contains(d) || self@.targeted(module, ty, d),
    {
        let ghost before = deps@;
        let mut j: usize = 0;
        assert(self.members@.take(0) =~= Seq::<Option<FuncId>>::empty());
        while j < self.members.len()
            invariant
                j <= self.members@.len(),
                module.wf(),
                self.wf(module),
                ty < module.types.len(),
                deps@.no_duplicates(),
                forall|d: FuncId|
                    deps@.contains(d) <==> before.contains(d) || (self.members@.take(
                        j as int,
                    ).contains(Some(d)) && module.has_type(d, ty)),
            decreases self.members@.len() - j,
        {
            match self.members[j] {
                Some(h) => {
                    if self.has_signature(module, h, ty) {
                        add_once(deps, h);
                    }
                },
                None => {},
            }
            proof {
                assert forall|d: FuncId|
                    deps@.contains(d) <==> before.contains(d) || (self.members@.take(
                        j + 1,
                    ).contains(Some(d)) && module.has_type(d, ty)) by {
                    lemma_take_contains(self.members@, j as int, Some(d));
                }
            }
            j += 1;
        }
        proof {
            assert(self.members@.take(self.members@.len() as int) =~= self.members@);
        }
    }
}

/// Puts `func` at the end of `list` unless it is in it.
fn add_once(list: &mut Vec<FuncId>, func: FuncId)
    requires
        old(list)@.no_duplicates(),
    ensures
        final(list)@.no_duplicates(),
        forall|d: FuncId| final(list)@.contains(d) <==> old(list)@.contains(d) || d == func,
{
    let ghost before = list@;
    let mut i: usize = 0;
    while i < list.len()
        invariant
            i <= list@.len(),
            list@ == before,
            before.no_duplicates(),
            forall|j: int| 0 <= j < i ==> list@[j] != func,
        decreases list@.len() - i,
    {
        if list[i] == func {
            assert(list@.contains(func));
            return ;
        }
        i += 1;
    }
    list.push(func);
    proof {
        assert forall|d: FuncId| list@.contains(d) <==> before.contains(d) || d == func by {
            if before.contains(d) {
                let j = choose|j: int| 0 <= j < before.len() && before[j] == d;
                assert(list@[j] == d);
            }
            if d == func {
                assert(list@[before.len() as int] == d);
            }
        }
    }
}

impl FastCallScan {
    /// The scan holds what the instructions `flat` say of its function.
    pub open spec fn holds(&self, module: &Module, facts: Facts, flat: Seq<Instr>) -> bool {
        &&& self.is_fastcall == !facts.rules_out(module, self.func, flat)
        &&& self.deps@.no_duplicates()
        &&& self.imports@.no_duplicates()
        &&& forall|d: FuncId| self.deps@.contains(d) <==> facts.depends(module, self.func, flat, d)
        &&& forall|g: FuncId| self.imports@.contains(g) <==> facts.imports(self.func, flat, g)
    }

    /// A scan that has seen no instruction yet.
    pub fn new(func: FuncId, ctx: &ScanContext) -> (scan: FastCallScan)
        ensures
            scan.func == func,
            forall|module: &Module| #[trigger] scan.holds(module, ctx@, Seq::empty()),
    {
        FastCallScan {
            func,
            is_fastcall: func != ctx.start,
            deps: Vec::new(),
            imports: Vec::new(),
        }
    }

    /// Takes one more instruction of the function into account.
    pub fn visit_instr(&mut self, instr: Instr, module: &Module, ctx: &ScanContext)
        requires
            module.wf(),
            ctx.wf(module),
            old(self).func < module.funcs.len(),
            instr is Call ==> instr->Call_func < module.funcs.len(),
            instr is CallIndirect ==> instr->CallIndirect_ty < module.types.len(),
            old(self).deps@.no_duplicates(),
            old(self).imports@.no_duplicates(),
        ensures
            final(self).func == old(self).func,
            final(self).deps@.no_duplicates(),
            final(self).imports@.no_duplicates(),
            final(self).is_fastcall == (old(self).is_fastcall && old(self).func != ctx.start
                && !ctx@.instr_rules_out(module, old(self).func, instr)),
            forall|d: FuncId|
                final(self).deps@.contains(d) <==> old(self).deps@.contains(d) || (old(self).func
                    != ctx.start && ctx@.instr_depends(module, old(self).func, instr, d)),
            forall|g: FuncId|
                final(self).imports@.contains(g) <==> old(self).imports@.contains(g) || (old(
                    self,
                ).func != ctx.start && ctx@.instr_imports(old(self).func, instr, g)),
    {
        if ctx.start == self.func {
            self.is_fastcall = false;
            return ;
        }
        match instr {
            Instr::CallIndirect { ty, table } => {
                if ctx.reaches(module, ty, self.func) {
                    self.is_fastcall = false;
                } else {
                    ctx.add_targets(&mut self.deps, module, ty);
                }
            },
            Instr::Call { func: g } => {
                if self.func == g {
                    self.is_fastcall = false;
                } else if ctx.poison[g] {
                    self.is_fastcall = false;
                    add_once(&mut self.imports, g);
                } else {
                    add_once(&mut self.deps, g);
                }
            },
            _ => {},
        }
    }
}

} // verus!
