//! The profile of a run, and what it decides for each call site.
//!
//! A profile lists, site by site, the table slots through which the site
//! was seen to call: a slot number, `-1` for a window that was never
//! filled, `-2` for a site that called through more slots than its windows
//! could hold. Resolving the profile turns slot numbers into the functions
//! that the main function table holds there.

use crate::error::Error;
use crate::idmap::IdMap;
use crate::ir::{ElementKind, FuncId, InitExpr, Module};
use vstd::prelude::*;

verus! {

/// The mark of a site that called through too many slots to record.
pub const SATURATED: i32 = -2;

/// The decision for one call site.
#[derive(Clone, Debug, PartialEq, Eq)]
pub enum MapValue {
    /// Call one of these functions directly.
    Direct(Vec<FuncId>),
    /// Keep the indirect call.
    Retain,
    /// The site never ran: trap there.
    Unreachable,
}

/// A decision as a mathematical value.
pub enum Decision {
    Direct(Seq<FuncId>),
    Retain,
    Unreachable,
}

impl View for MapValue {
    type V = Decision;

    open spec fn view(&self) -> Decision {
        match self {
            MapValue::Direct(callees) => Decision::Direct(callees@),
            MapValue::Retain => Decision::Retain,
            MapValue::Unreachable => Decision::Unreachable,
        }
    }
}

impl MapValue {
    /// A direct decision names exactly one function: the stub made for the
    /// site.
    pub open spec fn settled(&self) -> bool {
        match self {
            MapValue::Direct(callees) => callees@.len() == 1,
            _ => true,
        }
    }
}

/// The observations of a profiling run, call site by call site.
#[derive(Debug)]
pub struct Profile {
    map: IdMap<Vec<i32>>,
}

impl View for Profile {
    type V = Map<usize, Seq<i32>>;

    closed spec fn view(&self) -> Map<usize, Seq<i32>> {
        self.map@.map_values(|obs: Vec<i32>| obs@)
    }
}

impl Profile {
    /// The sites that the profile covers, in increasing order.
    pub closed spec fn sites(&self) -> Seq<usize> {
        self.map.keys()
    }

    /// The sites are in increasing order, and they are the ones covered.
    pub open spec fn wf(&self) -> bool {
        &&& crate::idmap::strictly_increasing(self.sites())
        &&& forall|k: usize| self@.contains_key(k) <==> self.sites().contains(k)
    }

    /// A profile that covers no site.
    pub fn new() -> (p: Profile)
        ensures
            p@ == Map::<usize, Seq<i32>>::empty(),
    {
        let p = Profile { map: IdMap::new() };
        assert(p@ =~= Map::<usize, Seq<i32>>::empty());
        p
    }

    /// Records the observations of one site, replacing earlier ones.
    pub fn insert(&mut self, site: usize, observations: Vec<i32>)
        ensures
            final(self)@ == old(self)@.insert(site, observations@),
    {
        self.map.insert(site, observations);
        assert(self@ =~= old(self)@.insert(site, observations@));
    }

    /// The observations of one site, if the profile covers it.
    pub fn get(&self, site: usize) -> (r: Option<&Vec<i32>>)
        ensures
            match r {
                Some(obs) => self@.contains_key(site) && obs@ == self@[site],
                None => !self@.contains_key(site),
            },
    {
        self.map.get(site)
    }

    /// The number of sites covered.
    pub fn len(&self) -> (n: usize)
        ensures
            n == self.sites().len(),
            self.wf(),
    {
        self.map.len()
    }

    /// The `i`-th covered site in increasing order.
    pub fn site_at(&self, i: usize) -> (site: usize)
        requires
            i < self.sites().len(),
        ensures
            site == self.sites()[i as int],
            self@.contains_key(site),
    {
        let n = self.map.len();
        let site = self.map.key_at(i);
        assert(self.map.keys().contains(site));
        site
    }

    /// The observations of the `i`-th covered site.
    pub fn observations_at(&self, i: usize) -> (obs: &Vec<i32>)
        requires
            i < self.sites().len(),
        ensures
            obs@ == self@[self.sites()[i as int]],
    {
        let n = self.map.len();
        assert(self.map.keys().contains(self.map.keys()[i as int]));
        self.map.value_at(i)
    }
}

/// The slot number at which a segment starts to fill its table. A segment
/// that is not active, or whose offset is no 32-bit constant, counts as
/// starting at slot 0.
pub open spec fn segment_base(kind: ElementKind) -> int {
    match kind {
        ElementKind::Active { offset: InitExpr::I32(base), .. } => base as int,
        _ => 0,
    }
}

/// The function that slot `v` of the table holds, if the segment that
/// starts at `base` fills the slot with one. A negative `base` stands for
/// an offset beyond every slot number.
pub open spec fn slot(members: Seq<Option<FuncId>>, base: int, v: i32) -> Option<FuncId> {
    if base >= 0 && 0 <= v - base < members.len() {
        members[v - base]
    } else {
        None
    }
}

/// Some observed slot holds no function.
pub open spec fn unresolved(members: Seq<Option<FuncId>>, base: int, obs: Seq<i32>) -> bool {
    exists|i: int| 0 <= i < obs.len() && #[trigger] obs[i] >= 0 && slot(members, base, obs[i]) is None
}

/// The slot numbers among the observations, in their order.
pub open spec fn observed_slots(obs: Seq<i32>) -> Seq<i32>
    decreases obs.len(),
{
    if obs.len() == 0 {
        Seq::empty()
    } else if obs.last() >= 0 {
        observed_slots(obs.drop_last()).push(obs.last())
    } else {
        observed_slots(obs.drop_last())
    }
}

/// The functions that the observed slots hold, in the order of the
/// observations.
pub open spec fn callees(members: Seq<Option<FuncId>>, base: int, obs: Seq<i32>) -> Seq<FuncId> {
    observed_slots(obs).map_values(|v: i32| slot(members, base, v).unwrap())
}

/// Every observation is the mark of a saturated site.
pub open spec fn all_saturated(obs: Seq<i32>) -> bool {
    forall|i: int| 0 <= i < obs.len() ==> obs[i] == SATURATED
}

/// What the observations of one site decide: a direct call of the observed
/// functions if any slot was observed, the indirect call kept if all
/// windows are saturated, a trap otherwise.
pub open spec fn decision(members: Seq<Option<FuncId>>, base: int, obs: Seq<i32>) -> Decision {
    if observed_slots(obs).len() > 0 {
        Decision::Direct(callees(members, base, obs))
    } else if all_saturated(obs) {
        Decision::Retain
    } else {
        Decision::Unreachable
    }
}

/// Decides one site from its observations.
pub fn decide(members: &Vec<Option<FuncId>>, base: i32, obs: &Vec<i32>) -> (r: Result<
    MapValue,
    Error,
>)
    ensures
        match r {
            Ok(value) => !unresolved(members@, base as int, obs@) && value@ == decision(
                members@,
                base as int,
                obs@,
            ),
            Err(e) => e == Error::TargetOutOfRange && unresolved(members@, base as int, obs@),
        },
{
    let mut found: Vec<FuncId> = Vec::new();
    let mut saturated = true;
    let mut i: usize = 0;
    assert(obs@.take(0) =~= Seq::<i32>::empty());
    assert(callees(members@, base as int, obs@.take(0)) =~= Seq::<FuncId>::empty());
    while i < obs.len()
        invariant
            i <= obs@.len(),
            !unresolved(members@, base as int, obs@.take(i as int)),
            found@ == callees(members@, base as int, obs@.take(i as int)),
            found@.len() == observed_slots(obs@.take(i as int)).len(),
            saturated == all_saturated(obs@.take(i as int)),
        decreases obs@.len() - i,
    {
        let v = obs[i];
        let ghost seen = obs@.take(i as int);
        let ghost more = obs@.take(i + 1);
        proof {
            assert(more.drop_last() =~= seen);
            assert(more.last() == v);
        }
        if v >= 0 {
            let mut target: Option<FuncId> = None;
            if base >= 0 && v >= base {
                let at = (v - base) as usize;
                if at < members.len() {
                    target = members[at];
                }
            }
            assert(target == slot(members@, base as int, v));
            match target {
                Some(func) => {
                    found.push(func);
                    assert(found@ =~= callees(members@, base as int, more));
                },
                None => {
                    assert(obs@[i as int] >= 0 && slot(members@, base as int, obs@[i as int]) is None);
                    return Err(Error::TargetOutOfRange);
                },
            }
            saturated = false;
            assert(more[i as int] != SATURATED);
        } else {
            if v != SATURATED {
                saturated = false;
                assert(more[i as int] != SATURATED);
            }
            assert(found@ =~= callees(members@, base as int, more));
        }
        proof {
            if saturated {
                assert forall|j: int| 0 <= j < more.len() implies more[j] == SATURATED by {
                    if j < i {
                        assert(seen[j] == more[j]);
                    }
                }
            }
            if unresolved(members@, base as int, more) {
                let j = choose|j: int|
                    0 <= j < more.len() && #[trigger] more[j] >= 0 && slot(
                        members@,
                        base as int,
                        more[j],
                    ) is None;
                if j < i {
                    assert(seen[j] == more[j]);
                }
            }
        }
        i += 1;
    }
    assert(obs@.take(obs@.len() as int) =~= obs@);
    if found.len() > 0 {
        Ok(MapValue::Direct(found))
    } else if saturated {
        Ok(MapValue::Retain)
    } else {
        Ok(MapValue::Unreachable)
    }
}

impl Module {
    /// The slot number at which the main function table starts to be
    /// filled.
    pub open spec fn table_base(&self) -> int {
        match self.main_segment() {
            Some(segment) => segment_base(self.elements[segment as int].kind),
            None => 0,
        }
    }

    /// The profile names a slot that holds no function.
    pub open spec fn profile_unresolved(&self, profile: &Profile) -> bool {
        self.main_segment() is Some && exists|site: usize| #[trigger]
            profile@.contains_key(site) && unresolved(
                self.table_members(),
                self.table_base(),
                profile@[site],
            )
    }
}

/// Resolves the profile against the main function table: for every site
/// that the profile covers, `modified_map` receives the decision.
///
/// A module without a main function table, or with none of its segments
/// active, has nothing to resolve, and the map stays as it is. So it does
/// on failure.
pub fn process_map(module: &Module, profile: &Profile, modified_map: &mut IdMap<MapValue>) -> (r:
    Result<(), Error>)
    requires
        module.wf(),
    ensures
        match r {
            Ok(()) => {
                &&& !module.profile_unresolved(profile)
                &&& if module.main_segment() is Some {
                    &&& forall|site: usize|
                        final(modified_map)@.contains_key(site) <==> old(
                            modified_map,
                        )@.contains_key(site) || profile@.contains_key(site)
                    &&& forall|site: usize| #[trigger]
                        profile@.contains_key(site) ==> final(modified_map)@[site]@
                            == decision(
                            module.table_members(),
                            module.table_base(),
                            profile@[site],
                        )
                    &&& forall|site: usize|
                        old(modified_map)@.contains_key(site) && !profile@.contains_key(site)
                            ==> final(modified_map)@[site] == old(modified_map)@[site]
                } else {
                    final(modified_map)@ == old(modified_map)@
                }
            },
            Err(e) => {
                &&& e == Error::TargetOutOfRange
                &&& module.profile_unresolved(profile)
                &&& final(modified_map)@ == old(modified_map)@
            },
        },
{
    let segment = match module.main_element_segment() {
        Some(segment) => segment,
        None => {
            return Ok(());
        },
    };
    let element = &module.elements[segment];
    let base: i32 = match element.kind {
        ElementKind::Active { table, offset } => match offset {
            InitExpr::I32(base) => base,
            InitExpr::Other => 0,
        },
        _ => 0,
    };
    let ghost members = module.table_members();
    let n = profile.len();
    let mut decided: Vec<MapValue> = Vec::new();
    let mut i: usize = 0;
    while i < n
        invariant
            i <= n,
            n == profile.sites().len(),
            profile.wf(),
            members == element.members@,
            module.main_segment() is Some,
            members == module.table_members(),
            base as int == module.table_base(),
            decided@.len() == i,
            forall|j: int|
                0 <= j < i ==> !unresolved(
                    members,
                    base as int,
                    profile@[#[trigger] profile.sites()[j]],
                ),
            forall|j: int|
                0 <= j < i ==> (#[trigger] decided@[j])@ == decision(
                    members,
                    base as int,
                    profile@[profile.sites()[j]],
                ),
        decreases n - i,
    {
        let site = profile.site_at(i);
        match decide(&element.members, base, profile.observations_at(i)) {
            Ok(value) => {
                decided.push(value);
            },
            Err(e) => {
                assert(profile@.contains_key(site));
                return Err(e);
            },
        }
        i += 1;
    }
    proof {
        if module.profile_unresolved(profile) {
            let site = choose|site: usize| #[trigger]
                profile@.contains_key(site) && unresolved(
                    members,
                    base as int,
                    profile@[site],
                );
            assert(profile.sites().contains(site));
            let j = profile.sites().index_of(site);
            assert(!unresolved(members, base as int, profile@[profile.sites()[j]]));
        }
    }
    let mut i: usize = n;
    while i > 0
        invariant
            i <= n,
            n == profile.sites().len(),
            profile.wf(),
            decided@.len() == i,
            forall|j: int|
                0 <= j < i ==> (#[trigger] decided@[j])@ == decision(
                    members,
                    base as int,
                    profile@[profile.sites()[j]],
                ),
            forall|site: usize|
                modified_map@.contains_key(site) <==> old(modified_map)@.contains_key(site) || exists|
                    j: int,
                | i <= j < n && #[trigger] profile.sites()[j] == site,
            forall|j: int|
                i <= j < n ==> modified_map@[#[trigger] profile.sites()[j]]@ == decision(
                    members,
                    base as int,
                    profile@[profile.sites()[j]],
                ),
            forall|site: usize|
                old(modified_map)@.contains_key(site) && !profile@.contains_key(site)
                    ==> modified_map@[site] == old(modified_map)@[site],
        decreases i,
    {
        i -= 1;
        let site = profile.site_at(i);
        let value = decided.pop().unwrap();
        let ghost before = modified_map@;
        modified_map.insert(site, value);
        proof {
            assert forall|s: usize|
                modified_map@.contains_key(s) <==> old(modified_map)@.contains_key(s) || exists|
                    j: int,
                | i <= j < n && #[trigger] profile.sites()[j] == s by {
                if s == site {
                    assert(profile.sites()[i as int] == s);
                }
                if exists|j: int| i <= j < n && #[trigger] profile.sites()[j] == s {
                    let j = choose|j: int| i <= j < n && #[trigger] profile.sites()[j] == s;
                    if j > i {
                        assert(before.contains_key(s));
                    }
                }
                if before.contains_key(s) && !old(modified_map)@.contains_key(s) {
                    let j = choose|j: int|
                        i + 1 <= j < n && #[trigger] profile.sites()[j] == s;
                    assert(profile.sites()[j] == s);
                }
            }
            assert forall|j: int| i <= j < n implies modified_map@[#[trigger] profile.sites()[j]]@
                == decision(members, base as int, profile@[profile.sites()[j]]) by {
                if j > i {
                    assert(profile.sites()[j] != site);
                }
            }
        }
    }
    proof {
        assert forall|site: usize|
            modified_map@.contains_key(site) <==> old(modified_map)@.contains_key(site)
                || profile@.contains_key(site) by {
            if profile@.contains_key(site) {
                assert(profile.sites().contains(site));
                let j = profile.sites().index_of(site);
                assert(profile.sites()[j] == site);
            }
            if exists|j: int| 0 <= j < n && #[trigger] profile.sites()[j] == site {
                let j = choose|j: int| 0 <= j < n && #[trigger] profile.sites()[j] == site;
                assert(profile.sites().contains(site));
            }
        }
        assert forall|site: usize| #[trigger]
            profile@.contains_key(site) implies modified_map@[site]@ == decision(
            module.table_members(),
            module.table_base(),
            profile@[site],
        ) by {
            assert(profile.sites().contains(site));
            let j = profile.sites().index_of(site);
            assert(profile.sites()[j] == site);
        }
    }
    Ok(())
}

/// The callees of a decision are the functions that the observed slots
/// hold, as many as there are observed slots.
pub proof fn lemma_callees(members: Seq<Option<FuncId>>, base: int, obs: Seq<i32>)
    requires
        !unresolved(members, base, obs),
    ensures
        callees(members, base, obs).len() == observed_slots(obs).len(),
        forall|j: int|
            0 <= j < callees(members, base, obs).len() ==> members.contains(
                Some(#[trigger] callees(members, base, obs)[j]),
            ),
{
    lemma_observed_slots(obs);
    assert forall|j: int| 0 <= j < callees(members, base, obs).len() implies members.contains(
        Some(#[trigger] callees(members, base, obs)[j]),
    ) by {
        let v = observed_slots(obs)[j];
        assert(obs.contains(v) && v >= 0);
        let i = choose|i: int| 0 <= i < obs.len() && obs[i] == v;
        assert(obs[i] >= 0);
        assert(slot(members, base, v) is Some);
        assert(members[v - base] == Some(callees(members, base, obs)[j]));
    }
}

/// The observed slots are observations that are slot numbers.
pub proof fn lemma_observed_slots(obs: Seq<i32>)
    ensures
        forall|j: int|
            0 <= j < observed_slots(obs).len() ==> obs.contains(#[trigger] observed_slots(obs)[j])
                && observed_slots(obs)[j] >= 0,
    decreases obs.len(),
{
    if obs.len() != 0 {
        let front = obs.drop_last();
        lemma_observed_slots(front);
        let now = observed_slots(obs);
        let before = observed_slots(front);
        assert forall|j: int| 0 <= j < now.len() implies obs.contains(#[trigger] now[j]) && now[j]
            >= 0 by {
            if j < before.len() {
                assert(now[j] == before[j]);
                let i = choose|i: int| 0 <= i < front.len() && front[i] == before[j];
                assert(obs[i] == now[j]);
            } else {
                assert(obs[obs.len() - 1] == now[j]);
            }
        }
    }
}

} // verus!
