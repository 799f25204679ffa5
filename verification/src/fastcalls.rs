//! Classification of local functions as fastcalls or slowcalls.
//!
//! A function is scanned on its own first: the scan says whether anything
//! in its body rules it out at once, and which functions it depends on.
//! The verdict then spreads along the dependencies until nothing changes.
//! A fastcall is a function that is not ruled out and depends on fastcalls
//! only; every other function is a slowcall.

use crate::ir::FuncId;
use vstd::prelude::*;

verus! {

/// What the scan of one local function found.
#[derive(Clone, Debug, PartialEq, Eq)]
pub struct FastCallScan {
    /// The function scanned.
    pub func: FuncId,
    /// Nothing in the body rules the function out by itself. Where this is
    /// `false` the function is a slowcall whatever it depends on.
    pub is_fastcall: bool,
    /// The functions that the body may call and whose verdict decides this
    /// one's. None occurs twice.
    pub deps: Vec<FuncId>,
    /// The imports that the body calls and that rule it out.
    pub imports: Vec<FuncId>,
}

/// The verdict on a scanned function while the analysis runs.
#[derive(Clone, Copy, Debug, PartialEq, Eq, Structural)]
pub enum Verdict {
    Fast,
    Slow,
    Unknown,
}

/// One scan per function, in increasing order of the functions.
pub open spec fn scans_sorted(scans: Seq<FastCallScan>) -> bool {
    forall|i: int, j: int| 0 <= i < j < scans.len() ==> scans[i].func < scans[j].func
}

/// Whether `func` has a scan.
pub open spec fn scanned(scans: Seq<FastCallScan>, func: FuncId) -> bool {
    exists|i: int| 0 <= i < scans.len() && #[trigger] scans[i].func == func
}

/// `func` is shown to be a fastcall by a chain of dependencies at most `k`
/// functions deep.
#[verifier::opaque]
pub open spec fn fast_within(scans: Seq<FastCallScan>, k: nat, func: FuncId) -> bool
    decreases k,
{
    k > 0 && exists|i: int|
        0 <= i < scans.len() && #[trigger] scans[i].func == func && scans[i].is_fastcall
            && forall|d: int|
            0 <= d < scans[i].deps@.len() ==> fast_within(
                scans,
                (k - 1) as nat,
                #[trigger] scans[i].deps@[d],
            )
}

/// `func` is a fastcall.
pub open spec fn is_fastcall(scans: Seq<FastCallScan>, func: FuncId) -> bool {
    exists|k: nat| fast_within(scans, k, func)
}

/// `func` is a slowcall: it has a scan and is no fastcall.
pub open spec fn is_slowcall(scans: Seq<FastCallScan>, func: FuncId) -> bool {
    scanned(scans, func) && !is_fastcall(scans, func)
}

/// What it takes to show a fastcall: a scan that does not rule the
/// function out, and dependencies shown to be fastcalls one level down.
pub proof fn lemma_fast_within_intro(scans: Seq<FastCallScan>, k: nat, i: int)
    requires
        0 <= i < scans.len(),
        scans[i].is_fastcall,
        forall|d: int| 0 <= d < scans[i].deps@.len() ==> fast_within(scans, k, #[trigger] scans[i].deps@[d]),
    ensures
        fast_within(scans, k + 1, scans[i].func),
{
    reveal(fast_within);
    assert(scans[i].func == scans[i].func);
}

/// What a shown fastcall gives: its scan, which does not rule it out, and
/// dependencies shown to be fastcalls one level down.
pub proof fn lemma_fast_within_elim(scans: Seq<FastCallScan>, k: nat, func: FuncId) -> (i: int)
    requires
        fast_within(scans, k, func),
    ensures
        k > 0,
        0 <= i < scans.len(),
        scans[i].func == func,
        scans[i].is_fastcall,
        forall|d: int|
            0 <= d < scans[i].deps@.len() ==> fast_within(
                scans,
                (k - 1) as nat,
                #[trigger] scans[i].deps@[d],
            ),
{
    reveal(fast_within);
    choose|i: int|
        0 <= i < scans.len() && #[trigger] scans[i].func == func && scans[i].is_fastcall
            && forall|d: int|
            0 <= d < scans[i].deps@.len() ==> fast_within(
                scans,
                (k - 1) as nat,
                #[trigger] scans[i].deps@[d],
            )
}

/// A deeper chain is allowed whatever a shallower one is.
pub proof fn lemma_fast_within_mono(scans: Seq<FastCallScan>, k: nat, m: nat, func: FuncId)
    requires
        fast_within(scans, k, func),
        k <= m,
    ensures
        fast_within(scans, m, func),
    decreases k,
{
    let i = lemma_fast_within_elim(scans, k, func);
    assert forall|d: int| 0 <= d < scans[i].deps@.len() implies fast_within(
        scans,
        (m - 1) as nat,
        #[trigger] scans[i].deps@[d],
    ) by {
        lemma_fast_within_mono(scans, (k - 1) as nat, (m - 1) as nat, scans[i].deps@[d]);
    }
    lemma_fast_within_intro(scans, (m - 1) as nat, i);
}

/// A function is a fastcall exactly if its own scan does not rule it out
/// and every function it depends on is a fastcall.
pub proof fn lemma_fastcall_unfold(scans: Seq<FastCallScan>, i: int)
    requires
        scans_sorted(scans),
        0 <= i < scans.len(),
    ensures
        is_fastcall(scans, scans[i].func) <==> scans[i].is_fastcall && forall|d: int|
            0 <= d < scans[i].deps@.len() ==> is_fastcall(scans, #[trigger] scans[i].deps@[d]),
{
    let func = scans[i].func;
    if is_fastcall(scans, func) {
        let k = choose|k: nat| fast_within(scans, k, func);
        let j = lemma_fast_within_elim(scans, k, func);
        assert(j == i);
        assert forall|d: int| 0 <= d < scans[i].deps@.len() implies is_fastcall(
            scans,
            #[trigger] scans[i].deps@[d],
        ) by {
            assert(fast_within(scans, (k - 1) as nat, scans[i].deps@[d]));
        }
    }
    if scans[i].is_fastcall && forall|d: int|
        0 <= d < scans[i].deps@.len() ==> is_fastcall(scans, #[trigger] scans[i].deps@[d]) {
        let k = lemma_common_depth(scans, scans[i].deps@, scans[i].deps@.len() as int);
        lemma_fast_within_intro(scans, k, i);
    }
}

/// Fastcalls, finitely many, are all shown to be so within one depth.
pub proof fn lemma_common_depth(scans: Seq<FastCallScan>, deps: Seq<FuncId>, n: int) -> (k: nat)
    requires
        0 <= n <= deps.len(),
        forall|d: int| 0 <= d < n ==> is_fastcall(scans, #[trigger] deps[d]),
    ensures
        forall|d: int| 0 <= d < n ==> fast_within(scans, k, #[trigger] deps[d]),
    decreases n,
{
    if n == 0 {
        0
    } else {
        let rest = lemma_common_depth(scans, deps, n - 1);
        let last = deps[n - 1];
        assert(is_fastcall(scans, last));
        let own = choose|k: nat| fast_within(scans, k, last);
        let k = if rest < own {
            own
        } else {
            rest
        };
        assert forall|d: int| 0 <= d < n implies fast_within(scans, k, #[trigger] deps[d]) by {
            if d < n - 1 {
                lemma_fast_within_mono(scans, rest, k, deps[d]);
            } else {
                lemma_fast_within_mono(scans, own, k, deps[d]);
            }
        }
        k
    }
}

/// The position of the scan of `func`, if it has one.
pub fn find_scan(scans: &Vec<FastCallScan>, func: FuncId) -> (r: Option<usize>)
    requires
        scans_sorted(scans@),
    ensures
        match r {
            Some(i) => i < scans@.len() && scans@[i as int].func == func,
            None => !scanned(scans@, func),
        },
{
    let mut lo: usize = 0;
    let mut hi: usize = scans.len();
    while lo < hi
        invariant
            lo <= hi <= scans@.len(),
            scans_sorted(scans@),
            forall|i: int| 0 <= i < lo ==> scans@[i].func < func,
            forall|i: int| hi <= i < scans@.len() ==> scans@[i].func > func,
        decreases hi - lo,
    {
        let mid = lo + (hi - lo) / 2;
        let at = scans[mid].func;
        if at == func {
            return Some(mid);
        } else if at < func {
            lo = mid + 1;
        } else {
            hi = mid;
        }
    }
    None
}

/// What the verdicts say of `func`: that of its scan, and `Unknown` of a
/// function without one, which is never shown to be anything.
#[verifier::opaque]
pub open spec fn verdict_of(scans: Seq<FastCallScan>, verdicts: Seq<Verdict>, func: FuncId) -> Verdict {
    if scanned(scans, func) {
        verdicts[choose|i: int| 0 <= i < scans.len() && #[trigger] scans[i].func == func]
    } else {
        Verdict::Unknown
    }
}

/// The verdict on a scanned function is that of its scan.
pub proof fn lemma_verdict_of(scans: Seq<FastCallScan>, verdicts: Seq<Verdict>, i: int)
    requires
        scans_sorted(scans),
        0 <= i < scans.len(),
    ensures
        verdict_of(scans, verdicts, scans[i].func) == verdicts[i],
{
    reveal(verdict_of);
    let j = choose|j: int| 0 <= j < scans.len() && #[trigger] scans[j].func == scans[i].func;
    assert(j == i);
}

/// A verdict other than `Unknown` is that of a scan.
pub proof fn lemma_verdict_scanned(scans: Seq<FastCallScan>, verdicts: Seq<Verdict>, func: FuncId) -> (i:
    int)
    requires
        scans_sorted(scans),
        verdict_of(scans, verdicts, func) != Verdict::Unknown,
    ensures
        0 <= i < scans.len(),
        scans[i].func == func,
        verdicts[i] == verdict_of(scans, verdicts, func),
{
    reveal(verdict_of);
    choose|i: int| 0 <= i < scans.len() && #[trigger] scans[i].func == func
}

/// Some function among `deps` is known to be slow.
pub open spec fn any_dep_slow(scans: Seq<FastCallScan>, verdicts: Seq<Verdict>, deps: Seq<FuncId>) -> bool {
    exists|d: int|
        0 <= d < deps.len() && verdict_of(scans, verdicts, #[trigger] deps[d]) == Verdict::Slow
}

/// Every function among `deps` is known to be fast.
pub open spec fn all_deps_fast(scans: Seq<FastCallScan>, verdicts: Seq<Verdict>, deps: Seq<FuncId>) -> bool {
    forall|d: int|
        0 <= d < deps.len() ==> verdict_of(scans, verdicts, #[trigger] deps[d]) == Verdict::Fast
}

/// The verdict on `func` as it stands.
fn lookup(scans: &Vec<FastCallScan>, verdicts: &Vec<Verdict>, func: FuncId) -> (v: Verdict)
    requires
        scans_sorted(scans@),
        verdicts@.len() == scans@.len(),
    ensures
        v == verdict_of(scans@, verdicts@, func),
{
    match find_scan(scans, func) {
        Some(i) => {
            proof {
                lemma_verdict_of(scans@, verdicts@, i as int);
            }
            verdicts[i]
        },
        None => {
            proof {
                reveal(verdict_of);
            }
            Verdict::Unknown
        },
    }
}

/// Whether the scanned function depends on a function known to be slow.
pub fn contains_slowcall(scan: &FastCallScan, scans: &Vec<FastCallScan>, verdicts: &Vec<Verdict>) -> (r:
    bool)
    requires
        scans_sorted(scans@),
        verdicts@.len() == scans@.len(),
    ensures
        r == any_dep_slow(scans@, verdicts@, scan.deps@),
{
    let mut d: usize = 0;
    while d < scan.deps.len()
        invariant
            d <= scan.deps@.len(),
            scans_sorted(scans@),
            verdicts@.len() == scans@.len(),
            forall|e: int|
                0 <= e < d ==> verdict_of(scans@, verdicts@, #[trigger] scan.deps@[e])
                    != Verdict::Slow,
        decreases scan.deps@.len() - d,
    {
        if lookup(scans, verdicts, scan.deps[d]) == Verdict::Slow {
            return true;
        }
        d += 1;
    }
    false
}

/// Whether every function that the scanned function depends on is known to
/// be fast.
pub fn check_fastcall_deps(scan: &FastCallScan, scans: &Vec<FastCallScan>, verdicts: &Vec<Verdict>) -> (r:
    bool)
    requires
        scans_sorted(scans@),
        verdicts@.len() == scans@.len(),
    ensures
        r == all_deps_fast(scans@, verdicts@, scan.deps@),
{
    let mut d: usize = 0;
    while d < scan.deps.len()
        invariant
            d <= scan.deps@.len(),
            scans_sorted(scans@),
            verdicts@.len() == scans@.len(),
            forall|e: int|
                0 <= e < d ==> verdict_of(scans@, verdicts@, #[trigger] scan.deps@[e])
                    == Verdict::Fast,
        decreases scan.deps@.len() - d,
    {
        if lookup(scans, verdicts, scan.deps[d]) != Verdict::Fast {
            return false;
        }
        d += 1;
    }
    true
}

/// The verdicts are sound: what is called fast is a fastcall, shown so by
/// the recorded depth, and what is called slow is none.
pub open spec fn verdicts_sound(scans: Seq<FastCallScan>, verdicts: Seq<Verdict>, depth: Seq<nat>) -> bool {
    &&& verdicts.len() == scans.len()
    &&& depth.len() == scans.len()
    &&& forall|i: int|
        0 <= i < scans.len() && #[trigger] verdicts[i] == Verdict::Fast ==> fast_within(
            scans,
            depth[i],
            scans[i].func,
        )
    &&& forall|i: int|
        0 <= i < scans.len() && #[trigger] verdicts[i] == Verdict::Slow ==> !is_fastcall(
            scans,
            scans[i].func,
        )
    &&& forall|i: int|
        0 <= i < scans.len() && #[trigger] verdicts[i] == Verdict::Unknown ==> scans[i].is_fastcall
}

/// The verdicts are settled: no function still unknown can be moved.
pub open spec fn verdicts_settled(scans: Seq<FastCallScan>, verdicts: Seq<Verdict>) -> bool {
    forall|i: int|
        0 <= i < scans.len() && verdicts[i] == Verdict::Unknown ==> !#[trigger] all_deps_fast(
            scans,
            verdicts,
            scans[i].deps@,
        )
}

/// Once the verdicts are settled, every fastcall has been called fast.
pub proof fn lemma_settled_complete(
    scans: Seq<FastCallScan>,
    verdicts: Seq<Verdict>,
    depth: Seq<nat>,
    k: nat,
    i: int,
)
    requires
        scans_sorted(scans),
        verdicts_sound(scans, verdicts, depth),
        verdicts_settled(scans, verdicts),
        0 <= i < scans.len(),
        fast_within(scans, k, scans[i].func),
    ensures
        verdicts[i] == Verdict::Fast,
    decreases k,
{
    let func = scans[i].func;
    let j = lemma_fast_within_elim(scans, k, func);
    assert(j == i);
    assert(is_fastcall(scans, func));
    if verdicts[i] == Verdict::Unknown {
        let deps = scans[i].deps@;
        assert forall|d: int| 0 <= d < deps.len() implies verdict_of(
            scans,
            verdicts,
            #[trigger] deps[d],
        ) == Verdict::Fast by {
            let dep = deps[d];
            assert(fast_within(scans, (k - 1) as nat, scans[i].deps@[d]));
            let e = lemma_fast_within_elim(scans, (k - 1) as nat, dep);
            lemma_settled_complete(scans, verdicts, depth, (k - 1) as nat, e);
            lemma_verdict_of(scans, verdicts, e);
        }
        assert(all_deps_fast(scans, verdicts, scans[i].deps@));
        assert(false);
    }
}

/// The functions among the first `n` scanned that are not called fast, in
/// the order of their scans.
pub open spec fn not_fast(scans: Seq<FastCallScan>, verdicts: Seq<Verdict>, n: int) -> Seq<FuncId>
    decreases n,
{
    if n <= 0 {
        Seq::empty()
    } else if verdicts[n - 1] == Verdict::Fast {
        not_fast(scans, verdicts, n - 1)
    } else {
        not_fast(scans, verdicts, n - 1).push(scans[n - 1].func)
    }
}

/// `func` is one of the first `n` scanned and not called fast.
pub open spec fn held_back(scans: Seq<FastCallScan>, verdicts: Seq<Verdict>, n: int, func: FuncId) -> bool {
    exists|e: int| 0 <= e < n && #[trigger] scans[e].func == func && verdicts[e] != Verdict::Fast
}

proof fn lemma_not_fast(scans: Seq<FastCallScan>, verdicts: Seq<Verdict>, n: int)
    requires
        scans_sorted(scans),
        0 <= n <= scans.len(),
        verdicts.len() == scans.len(),
    ensures
        crate::idmap::strictly_increasing(not_fast(scans, verdicts, n)),
        forall|j: int|
            0 <= j < not_fast(scans, verdicts, n).len() ==> held_back(
                scans,
                verdicts,
                n,
                #[trigger] not_fast(scans, verdicts, n)[j],
            ),
        forall|e: int|
            0 <= e < n && verdicts[e] != Verdict::Fast ==> not_fast(scans, verdicts, n).contains(
                #[trigger] scans[e].func,
            ),
    decreases n,
{
    if n > 0 {
        lemma_not_fast(scans, verdicts, n - 1);
        let before = not_fast(scans, verdicts, n - 1);
        let now = not_fast(scans, verdicts, n);
        assert forall|j: int| 0 <= j < now.len() implies held_back(
            scans,
            verdicts,
            n,
            #[trigger] now[j],
        ) by {
            if j < before.len() {
                assert(held_back(scans, verdicts, n - 1, before[j]));
                let e = choose|e: int|
                    0 <= e < n - 1 && #[trigger] scans[e].func == before[j] && verdicts[e]
                        != Verdict::Fast;
                assert(scans[e].func == now[j]);
            } else {
                assert(scans[n - 1].func == now[j]);
            }
        }
        assert forall|a: int, b: int| 0 <= a < b < now.len() implies now[a] < now[b] by {
            if b == before.len() {
                assert(held_back(scans, verdicts, n - 1, before[a]));
                let e = choose|e: int|
                    0 <= e < n - 1 && #[trigger] scans[e].func == before[a] && verdicts[e]
                        != Verdict::Fast;
            }
        }
        assert forall|e: int|
            0 <= e < n && verdicts[e] != Verdict::Fast implies now.contains(
            #[trigger] scans[e].func,
        ) by {
            if e < n - 1 {
                let j = choose|j: int| 0 <= j < before.len() && before[j] == scans[e].func;
                assert(now[j] == scans[e].func);
            } else {
                assert(now[now.len() - 1] == scans[e].func);
            }
        }
    }
}

/// What is not called fast once the verdicts are settled is what is slow.
proof fn lemma_settled_slow(
    scans: Seq<FastCallScan>,
    verdicts: Seq<Verdict>,
    depth: Seq<nat>,
    func: FuncId,
)
    requires
        scans_sorted(scans),
        verdicts_sound(scans, verdicts, depth),
        verdicts_settled(scans, verdicts),
    ensures
        not_fast(scans, verdicts, scans.len() as int).contains(func) <==> is_slowcall(scans, func),
{
    let slow = not_fast(scans, verdicts, scans.len() as int);
    lemma_not_fast(scans, verdicts, scans.len() as int);
    if slow.contains(func) {
        let j = choose|j: int| 0 <= j < slow.len() && slow[j] == func;
        assert(held_back(scans, verdicts, scans.len() as int, slow[j]));
        let e = choose|e: int|
            0 <= e < scans.len() && #[trigger] scans[e].func == func && verdicts[e]
                != Verdict::Fast;
        if is_fastcall(scans, func) {
            let k = choose|k: nat| fast_within(scans, k, func);
            lemma_settled_complete(scans, verdicts, depth, k, e);
        }
    }
    if is_slowcall(scans, func) {
        let e = choose|e: int| 0 <= e < scans.len() && #[trigger] scans[e].func == func;
        if verdicts[e] == Verdict::Fast {
            assert(fast_within(scans, depth[e], func));
        }
    }
}

/// The slowcalls among the scanned functions, in increasing order.
///
/// The functions whose scan rules them out are slow, those that depend on
/// nothing are fast, and the rest is unknown. Round by round an unknown
/// function that depends on a slow one becomes slow, and one that depends
/// on fast ones only becomes fast, until a round moves nothing. What is
/// still unknown then is slow.
pub fn slow_functions(scans: &Vec<FastCallScan>) -> (slow: Vec<FuncId>)
    requires
        scans_sorted(scans@),
    ensures
        crate::idmap::strictly_increasing(slow@),
        forall|func: FuncId| slow@.contains(func) <==> is_slowcall(scans@, func),
{
    let n = scans.len();
    let mut verdicts: Vec<Verdict> = Vec::new();
    let ghost mut depth: Seq<nat> = Seq::empty();
    let mut unknown: usize = 0;
    let mut i: usize = 0;
    while i < n
        invariant
            i <= n,
            n == scans@.len(),
            scans_sorted(scans@),
            verdicts@.len() == i,
            depth.len() == i,
            unknown == count_unknown(verdicts@),
            unknown <= i,
            forall|j: int|
                0 <= j < i && #[trigger] verdicts@[j] == Verdict::Unknown ==> scans@[j].is_fastcall,
            forall|j: int|
                0 <= j < i && #[trigger] verdicts@[j] == Verdict::Fast ==> fast_within(
                    scans@,
                    depth[j],
                    scans@[j].func,
                ),
            forall|j: int|
                0 <= j < i && #[trigger] verdicts@[j] == Verdict::Slow ==> !is_fastcall(
                    scans@,
                    scans@[j].func,
                ),
        decreases n - i,
    {
        let scan = &scans[i];
        let ghost before = verdicts@;
        if !scan.is_fastcall {
            proof {
                lemma_fastcall_unfold(scans@, i as int);
            }
            verdicts.push(Verdict::Slow);
        } else if scan.deps.len() == 0 {
            proof {
                lemma_fast_within_intro(scans@, 0, i as int);
            }
            verdicts.push(Verdict::Fast);
        } else {
            verdicts.push(Verdict::Unknown);
            unknown = unknown + 1;
        }
        proof {
            depth = depth.push(1);
            assert(verdicts@.drop_last() =~= before);
        }
        i += 1;
    }
    let mut moved = true;
    while moved
        invariant
            n == scans@.len(),
            scans_sorted(scans@),
            verdicts_sound(scans@, verdicts@, depth),
            !moved ==> verdicts_settled(scans@, verdicts@),
            unknown == count_unknown(verdicts@),
        decreases count_unknown(verdicts@), if moved { 1nat } else { 0nat },
    {
        let (next, left) = settle_round(scans, &verdicts, Ghost(depth));
        proof {
            depth = next.1@;
        }
        moved = left != unknown;
        verdicts = next.0;
        unknown = left;
    }
    let mut slow: Vec<FuncId> = Vec::new();
    let mut i: usize = 0;
    while i < n
        invariant
            i <= n,
            n == scans@.len(),
            verdicts@.len() == n,
            slow@ == not_fast(scans@, verdicts@, i as int),
        decreases n - i,
    {
        if verdicts[i] != Verdict::Fast {
            slow.push(scans[i].func);
        }
        i += 1;
    }
    proof {
        lemma_not_fast(scans@, verdicts@, n as int);
        assert forall|func: FuncId| slow@.contains(func) <==> is_slowcall(scans@, func) by {
            lemma_settled_slow(scans@, verdicts@, depth, func);
        }
    }
    slow
}

/// How many functions are still unknown.
pub open spec fn count_unknown(verdicts: Seq<Verdict>) -> nat
    decreases verdicts.len(),
{
    if verdicts.len() == 0 {
        0
    } else {
        count_unknown(verdicts.drop_last()) + if verdicts.last() == Verdict::Unknown {
            1nat
        } else {
            0nat
        }
    }
}

/// One round: every unknown function is judged against the verdicts as
/// they stood when the round began.
fn settle_round(scans: &Vec<FastCallScan>, verdicts: &Vec<Verdict>, Ghost(depth): Ghost<Seq<nat>>) -> (r:
    ((Vec<Verdict>, Ghost<Seq<nat>>), usize))
    requires
        scans_sorted(scans@),
        verdicts_sound(scans@, verdicts@, depth),
    ensures
        verdicts_sound(scans@, r.0.0@, r.0.1@),
        r.1 == count_unknown(r.0.0@),
        r.1 <= count_unknown(verdicts@),
        r.1 == count_unknown(verdicts@) ==> r.0.0@ == verdicts@ && verdicts_settled(
            scans@,
            verdicts@,
        ),
{
    let n = scans.len();
    let mut next: Vec<Verdict> = Vec::new();
    let ghost mut deeper: Seq<nat> = Seq::empty();
    let mut left: usize = 0;
    let mut i: usize = 0;
    assert(verdicts@.take(0) =~= Seq::<Verdict>::empty());
    while i < n
        invariant
            i <= n,
            n == scans@.len(),
            scans_sorted(scans@),
            verdicts_sound(scans@, verdicts@, depth),
            next@.len() == i,
            deeper.len() == i,
            left == count_unknown(next@),
            left <= count_unknown(verdicts@.take(i as int)),
            left <= i,
            forall|j: int|
                0 <= j < i && #[trigger] next@[j] == Verdict::Fast ==> fast_within(
                    scans@,
                    deeper[j],
                    scans@[j].func,
                ),
            forall|j: int|
                0 <= j < i && #[trigger] next@[j] == Verdict::Slow ==> !is_fastcall(
                    scans@,
                    scans@[j].func,
                ),
            forall|j: int|
                0 <= j < i && #[trigger] next@[j] == Verdict::Unknown ==> scans@[j].is_fastcall,
            left == count_unknown(verdicts@.take(i as int)) ==> next@ == verdicts@.take(i as int),
            forall|j: int|
                0 <= j < i && #[trigger] next@[j] == Verdict::Unknown ==> verdicts@[j]
                    == Verdict::Unknown && !all_deps_fast(scans@, verdicts@, scans@[j].deps@),
        decreases n - i,
    {
        let ghost before = next@;
        let ghost mut reached: nat = depth[i as int];
        proof {
            assert(verdicts@.take(i + 1).drop_last() =~= verdicts@.take(i as int));
            assert(verdicts@.take(i + 1).last() == verdicts@[i as int]);
        }
        let verdict = if verdicts[i] == Verdict::Unknown {
            if contains_slowcall(&scans[i], scans, verdicts) {
                proof {
                    lemma_slow_spreads(scans@, verdicts@, depth, i as int);
                }
                Verdict::Slow
            } else if check_fastcall_deps(&scans[i], scans, verdicts) {
                proof {
                    reached = lemma_fast_spreads(scans@, verdicts@, depth, i as int);
                }
                Verdict::Fast
            } else {
                left = left + 1;
                Verdict::Unknown
            }
        } else {
            verdicts[i]
        };
        next.push(verdict);
        proof {
            deeper = deeper.push(reached);
            assert(next@.drop_last() =~= before);
            if left == count_unknown(verdicts@.take(i + 1)) {
                assert(next@ =~= verdicts@.take(i + 1));
            }
        }
        i += 1;
    }
    proof {
        assert(verdicts@.take(n as int) =~= verdicts@);
        if left == count_unknown(verdicts@) {
            assert(next@ == verdicts@);
        }
    }
    ((next, Ghost(deeper)), left)
}

/// A function that depends on a slowcall is a slowcall.
proof fn lemma_slow_spreads(scans: Seq<FastCallScan>, verdicts: Seq<Verdict>, depth: Seq<nat>, i: int)
    requires
        scans_sorted(scans),
        verdicts_sound(scans, verdicts, depth),
        0 <= i < scans.len(),
        any_dep_slow(scans, verdicts, scans[i].deps@),
    ensures
        !is_fastcall(scans, scans[i].func),
{
    let deps = scans[i].deps@;
    let d = choose|d: int|
        0 <= d < deps.len() && verdict_of(scans, verdicts, #[trigger] deps[d]) == Verdict::Slow;
    let dep = deps[d];
    let e = lemma_verdict_scanned(scans, verdicts, dep);
    assert(!is_fastcall(scans, scans[e].func));
    lemma_fastcall_unfold(scans, i);
    assert(scans[i].deps@[d] == dep);
}

/// A function that the scan does not rule out and that depends on known
/// fastcalls only is a fastcall.
proof fn lemma_fast_spreads(scans: Seq<FastCallScan>, verdicts: Seq<Verdict>, depth: Seq<nat>, i: int) -> (k:
    nat)
    requires
        scans_sorted(scans),
        verdicts_sound(scans, verdicts, depth),
        0 <= i < scans.len(),
        verdicts[i] == Verdict::Unknown,
        all_deps_fast(scans, verdicts, scans[i].deps@),
    ensures
        fast_within(scans, k, scans[i].func),
{
    let deps = scans[i].deps@;
    assert forall|d: int| 0 <= d < deps.len() implies is_fastcall(scans, #[trigger] deps[d]) by {
        let dep = deps[d];
        assert(verdict_of(scans, verdicts, dep) == Verdict::Fast);
        let e = lemma_verdict_scanned(scans, verdicts, dep);
        assert(fast_within(scans, depth[e], dep));
    }
    let k = lemma_common_depth(scans, deps, deps.len() as int);
    lemma_fast_within_intro(scans, k, i);
    k + 1
}

} // verus!
