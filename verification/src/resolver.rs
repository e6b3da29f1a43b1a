//! The resolver/lock engine: provider fallback, transitive pinning,
//! removal with dependents checks, and orphan pruning.

use vstd::prelude::*;

use crate::catalog::resolve_catalog;
use crate::catalog::spec_resolve_catalog;
use crate::catalog::Catalog;
use crate::catalog::CatalogProjectV;
use crate::errors::Error;
use crate::mod_meta::ModMeta;
use crate::mod_meta::ModMetaV;
use crate::mod_meta::ModProvider;
use crate::modpack::ModpackMeta;
use crate::modpack::ModpackMetaV;
use crate::providers::clone_mod_metas;
use crate::providers::mod_metas_view;
use crate::providers::PinnedMod;
use crate::providers::PinnedModV;
use crate::raw::resolve_raw;
use crate::raw::spec_resolve_raw;
use crate::strmap::StrMap;

verus! {

/// What the outside world can answer during resolution: the catalog's
/// projects, keyed by id and by slug, and the payloads behind direct
/// URLs, keyed by URL. A URL absent from `raw` is a failed fetch.
pub struct World {
    pub catalog: Catalog,
    pub raw: StrMap<Vec<u8>>,
}

/// The mathematical content of a `World`.
pub ghost struct WorldV {
    pub catalog: Map<Seq<char>, CatalogProjectV>,
    pub raw: Map<Seq<char>, Seq<u8>>,
}

impl View for World {
    type V = WorldV;

    open spec fn view(&self) -> WorldV {
        WorldV { catalog: self.catalog@, raw: self.raw@ }
    }
}

impl World {
    pub open spec fn wf(&self) -> bool {
        self.catalog.wf() && self.raw.wf()
    }
}

/// Drop repeated providers, keeping first occurrences in order.
pub open spec fn dedup_providers(s: Seq<ModProvider>) -> Seq<ModProvider>
    decreases s.len(),
{
    if s.len() == 0 {
        s
    } else {
        let d = dedup_providers(s.drop_last());
        if d.contains(s.last()) {
            d
        } else {
            d.push(s.last())
        }
    }
}

/// The provider try-order of a spec under a pack: the spec's own providers
/// first, then the pack's defaults, without repetition.
pub open spec fn spec_try_order(m: ModMetaV, pack: ModpackMetaV) -> Seq<ModProvider> {
    dedup_providers(
        (match m.providers {
            Some(ps) => ps,
            None => Seq::empty(),
        }) + pack.default_providers,
    )
}

/// Build the provider try-order, matching `spec_try_order`.
pub fn try_order(m: &ModMeta, pack: &ModpackMeta) -> (r: Vec<ModProvider>)
    ensures
        r@ == spec_try_order(m@, pack@),
{
    let ghost all_spec = (match m@.providers {
        Some(ps) => ps,
        None => Seq::<ModProvider>::empty(),
    }) + pack@.default_providers;
    let mut all: Vec<ModProvider> = match &m.providers {
        Some(ps) => crate::modpack::push_providers_copy(ps),
        None => Vec::new(),
    };
    let ghost own_len = all@.len();
    let pn = pack.default_providers.len();
    let mut i: usize = 0;
    while i < pn
        invariant
            pn == pack.default_providers@.len(),
            i <= pn,
            all@ =~= all_spec.subrange(0, own_len + i),
            own_len + pn == all_spec.len(),
            all_spec == (match m@.providers {
                Some(ps) => ps,
                None => Seq::<ModProvider>::empty(),
            }) + pack@.default_providers,
            own_len == all_spec.len() - pack@.default_providers.len(),
        decreases pn - i,
    {
        all.push(pack.default_providers[i]);
        proof {
            assert(all@ =~= all_spec.subrange(0, own_len + i + 1));
        }
        i = i + 1;
    }
    proof {
        assert(all_spec.subrange(0, all_spec.len() as int) =~= all_spec);
    }
    let an = all.len();
    let mut out: Vec<ModProvider> = Vec::new();
    let mut j: usize = 0;
    while j < an
        invariant
            an == all@.len(),
            j <= an,
            out@ == dedup_providers(all@.subrange(0, j as int)),
        decreases an - j,
    {
        proof {
            assert(all@.subrange(0, j + 1).drop_last() =~= all@.subrange(0, j as int));
            assert(all@.subrange(0, j + 1).last() == all@[j as int]);
        }
        out = crate::mod_meta::push_provider_if_absent(out, all[j]);
        j = j + 1;
    }
    proof {
        assert(all@.subrange(0, an as int) =~= all@);
    }
    out
}

/// The outcome of one pin attempt.
pub ghost enum PinOutcome {
    /// The name is forbidden; nothing happens.
    Forbidden,
    /// A provider resolved the spec to this artifact.
    Pinned(PinnedModV),
    /// An unbuilt provider was reached.
    Fatal,
    /// Every provider in the try-order failed.
    AllFailed,
}

/// Walk the providers in order: the first success pins; an unbuilt
/// provider is fatal; a provider-local failure moves on.
pub open spec fn walk_providers(
    order: Seq<ModProvider>,
    m: ModMetaV,
    pack: ModpackMetaV,
    w: WorldV,
) -> PinOutcome
    decreases order.len(),
{
    if order.len() == 0 {
        PinOutcome::AllFailed
    } else {
        let rest = order.subrange(1, order.len() as int);
        match order[0] {
            ModProvider::CurseForge => PinOutcome::Fatal,
            ModProvider::Modrinth => match spec_resolve_catalog(w.catalog, m, pack) {
                Some(pm) => PinOutcome::Pinned(pm),
                None => walk_providers(rest, m, pack, w),
            },
            ModProvider::Raw => match m.download_url {
                Some(u) => if w.raw.dom().contains(u) {
                    PinOutcome::Pinned(spec_resolve_raw(m, w.raw[u]))
                } else {
                    walk_providers(rest, m, pack, w)
                },
                None => walk_providers(rest, m, pack, w),
            },
        }
    }
}

/// The walk never reports a forbidden name.
pub proof fn lemma_walk_not_forbidden(
    order: Seq<ModProvider>,
    m: ModMetaV,
    pack: ModpackMetaV,
    w: WorldV,
)
    ensures
        !(walk_providers(order, m, pack, w) is Forbidden),
    decreases order.len(),
{
    if order.len() > 0 {
        lemma_walk_not_forbidden(order.subrange(1, order.len() as int), m, pack, w);
    }
}

/// A forbidden outcome names a forbidden spec.
pub proof fn lemma_outcome_forbidden(m: ModMetaV, pack: ModpackMetaV, w: WorldV)
    requires
        spec_pin_outcome(m, pack, w) is Forbidden,
    ensures
        pack.forbidden_mods.contains(m.name),
{
    if !pack.forbidden_mods.contains(m.name) {
        lemma_walk_not_forbidden(spec_try_order(m, pack), m, pack, w);
    }
}

/// What pinning a spec does: nothing for a forbidden name, else the walk
/// over the try-order.
pub open spec fn spec_pin_outcome(m: ModMetaV, pack: ModpackMetaV, w: WorldV) -> PinOutcome {
    if pack.forbidden_mods.contains(m.name) {
        PinOutcome::Forbidden
    } else {
        walk_providers(spec_try_order(m, pack), m, pack, w)
    }
}

/// The dependencies whose names are not pinned yet, in order.
pub open spec fn filter_new_deps(deps: Seq<ModMetaV>, lock: Map<Seq<char>, PinnedModV>) -> Seq<
    ModMetaV,
>
    decreases deps.len(),
{
    if deps.len() == 0 {
        deps
    } else {
        let rest = filter_new_deps(deps.drop_last(), lock);
        if lock.dom().contains(deps.last().name) {
            rest
        } else {
            rest.push(deps.last())
        }
    }
}

/// The dependency specs that a fresh pin hands back: the artifact's deps
/// filtered to names absent from the lockfile after the insertion.
pub open spec fn spec_new_deps(pm: PinnedModV, lock_after: Map<Seq<char>, PinnedModV>) -> Seq<
    ModMetaV,
> {
    match pm.deps {
        Some(ds) => filter_new_deps(ds, lock_after),
        None => Seq::empty(),
    }
}

/// The lockfile: one pinned artifact per resolved mod name.
#[derive(Debug)]
pub struct PinnedPackMeta {
    pub mods: StrMap<PinnedMod>,
}

impl View for PinnedPackMeta {
    type V = Map<Seq<char>, PinnedModV>;

    open spec fn view(&self) -> Map<Seq<char>, PinnedModV> {
        self.mods@
    }
}

impl PinnedPackMeta {
    pub open spec fn wf(&self) -> bool {
        self.mods.wf()
    }

    /// An empty lockfile.
    pub fn new() -> (r: Self)
        ensures
            r.wf(),
            r@ == Map::<Seq<char>, PinnedModV>::empty(),
    {
        PinnedPackMeta { mods: StrMap::new() }
    }

    /// Pin a mod spec: try the providers in order, record the first
    /// success in the lockfile, and hand back the artifact's dependencies
    /// that are not pinned yet. A forbidden name does nothing; an unbuilt
    /// provider is fatal; and when every provider fails, the failure names
    /// the spec, the providers tried and the constraint.
    pub fn pin_mod(&mut self, mod_metadata: &ModMeta, pack_metadata: &ModpackMeta, world: &World)
        -> (r: Result<Vec<ModMeta>, Error>)
        requires
            old(self).wf(),
            world.wf(),
        ensures
            final(self).wf(),
            (match spec_pin_outcome(mod_metadata@, pack_metadata@, world@) {
                PinOutcome::Forbidden => r is Ok && r->Ok_0@.len() == 0 && final(self)@ == old(
                    self,
                )@,
                PinOutcome::Fatal => (r matches Err(Error::NotImplemented)) && final(self)@ == old(
                    self,
                )@,
                PinOutcome::AllFailed => (r matches Err(Error::ResolutionFailure {
                    name,
                    providers_tried,
                    constraint,
                }) && name@ == mod_metadata@.name && providers_tried@ == spec_try_order(
                    mod_metadata@,
                    pack_metadata@,
                ) && constraint@ == mod_metadata@.version) && final(self)@ == old(self)@,
                PinOutcome::Pinned(pm) => r is Ok && final(self)@ == old(self)@.insert(
                    mod_metadata@.name,
                    pm,
                ) && mod_metas_view(r->Ok_0@) == spec_new_deps(pm, final(self)@),
            }),
    {
        if pack_metadata.forbidden_mods.contains(mod_metadata.name.as_str()) {
            return Ok(Vec::new());
        }
        let order = try_order(mod_metadata, pack_metadata);
        let ghost orderv = order@;
        proof {
            assert(orderv.subrange(0, orderv.len() as int) =~= orderv);
        }
        let n = order.len();
        let mut i: usize = 0;
        while i < n
            invariant
                self.wf(),
                world.wf(),
                old(self).wf(),
                *self == *old(self),
                n == order@.len(),
                orderv == order@,
                orderv == spec_try_order(mod_metadata@, pack_metadata@),
                !pack_metadata@.forbidden_mods.contains(mod_metadata@.name),
                i <= n,
                walk_providers(
                    orderv.subrange(i as int, orderv.len() as int),
                    mod_metadata@,
                    pack_metadata@,
                    world@,
                ) == walk_providers(orderv, mod_metadata@, pack_metadata@, world@),
            decreases n - i,
        {
            let ghost tail = orderv.subrange(i as int, orderv.len() as int);
            proof {
                assert(tail[0] == orderv[i as int]);
                assert(tail.subrange(1, tail.len() as int) =~= orderv.subrange(
                    i + 1,
                    orderv.len() as int,
                ));
            }
            match order[i] {
                ModProvider::CurseForge => {
                    return Err(Error::NotImplemented);
                },
                ModProvider::Modrinth => {
                    match resolve_catalog(&world.catalog, mod_metadata, pack_metadata) {
                        Some(pm) => {
                            proof {
                                assert(spec_pin_outcome(mod_metadata@, pack_metadata@, world@)
                                    == PinOutcome::Pinned(pm@));
                            }
                            return Ok(self.commit_pin(mod_metadata, pm));
                        },
                        None => {},
                    }
                },
                ModProvider::Raw => {
                    match &mod_metadata.download_url {
                        Some(u) => {
                            match world.raw.get(u.as_str()) {
                                Some(payload) => {
                                    let pm = resolve_raw(mod_metadata, payload);
                                    proof {
                                        assert(spec_pin_outcome(
                                            mod_metadata@,
                                            pack_metadata@,
                                            world@,
                                        ) == PinOutcome::Pinned(pm@));
                                    }
                                    return Ok(self.commit_pin(mod_metadata, pm));
                                },
                                None => {},
                            }
                        },
                        None => {},
                    }
                },
            }
            i = i + 1;
        }
        proof {
            assert(orderv.subrange(n as int, orderv.len() as int) =~= Seq::<ModProvider>::empty());
        }
        Err(
            Error::ResolutionFailure {
                name: mod_metadata.name.clone(),
                providers_tried: order,
                constraint: mod_metadata.version.clone(),
            },
        )
    }

    /// Record a resolved artifact and collect the dependencies that are
    /// not pinned yet.
    fn commit_pin(&mut self, mod_metadata: &ModMeta, pm: PinnedMod) -> (r: Vec<ModMeta>)
        requires
            old(self).wf(),
        ensures
            final(self).wf(),
            final(self)@ == old(self)@.insert(mod_metadata@.name, pm@),
            mod_metas_view(r@) == spec_new_deps(pm@, final(self)@),
    {
        let ghost pmv = pm@;
        let dep_list: Vec<ModMeta> = match &pm.deps {
            Some(ds) => clone_mod_metas(ds),
            None => Vec::new(),
        };
        proof {
            if pm.deps is None {
                assert(mod_metas_view(Seq::<ModMeta>::empty()) =~= Seq::<ModMetaV>::empty());
            }
        }
        self.mods.insert(mod_metadata.name.as_str(), pm);
        let ghost lockv = self.mods@;
        let ghost dviews = mod_metas_view(dep_list@);
        let dn = dep_list.len();
        let mut out: Vec<ModMeta> = Vec::new();
        let mut i: usize = 0;
        while i < dn
            invariant
                self.wf(),
                dn == dep_list@.len(),
                dviews == mod_metas_view(dep_list@),
                lockv == self.mods@,
                i <= dn,
                mod_metas_view(out@) == filter_new_deps(dviews.subrange(0, i as int), lockv),
            decreases dn - i,
        {
            proof {
                assert(dviews.subrange(0, i + 1).drop_last() =~= dviews.subrange(0, i as int));
                assert(dviews.subrange(0, i + 1).last() == dviews[i as int]);
                assert(dviews[i as int] == dep_list@[i as int]@);
            }
            if !self.mods.contains_key(dep_list[i].name.as_str()) {
                let ghost prev = mod_metas_view(out@);
                out.push(dep_list[i].clone());
                proof {
                    assert(mod_metas_view(out@) =~= prev.push(dviews[i as int]));
                }
            }
            i = i + 1;
        }
        proof {
            assert(dviews.subrange(0, dn as int) =~= dviews);
            if pmv.deps is Some {
                assert(dviews == pmv.deps->0);
            }
        }
        out
    }
}


/// Whether a pinned artifact records a dependency on `name`.
pub open spec fn depends_on(pm: PinnedModV, name: Seq<char>) -> bool {
    match pm.deps {
        Some(ds) => exists|i: int| 0 <= i < ds.len() && (#[trigger] ds[i]).name == name,
        None => false,
    }
}

/// Whether some pinned artifact depends on `name`.
pub open spec fn has_dependent(lock: Map<Seq<char>, PinnedModV>, name: Seq<char>) -> bool {
    exists|k: Seq<char>| #[trigger] lock.dom().contains(k) && depends_on(lock[k], name)
}

/// What a single prune pass keeps: entries the manifest desires, or that
/// some pinned artifact of the pre-prune lockfile depends on.
pub open spec fn spec_prune(lock: Map<Seq<char>, PinnedModV>, pack: ModpackMetaV) -> Map<
    Seq<char>,
    PinnedModV,
> {
    Map::new(
        |k: Seq<char>|
            lock.dom().contains(k) && (pack.mods.dom().contains(k) || has_dependent(lock, k)),
        |k: Seq<char>| lock[k],
    )
}

/// The listed strings are exactly the pinned names that depend on `name`,
/// each name once.
pub open spec fn dependents_listed(
    lock: Map<Seq<char>, PinnedModV>,
    name: Seq<char>,
    listed: Seq<String>,
) -> bool {
    &&& forall|i: int|
        0 <= i < listed.len() ==> lock.dom().contains((#[trigger] listed[i])@) && depends_on(
            lock[listed[i]@],
            name,
        )
    &&& forall|k: Seq<char>|
        #[trigger] lock.dom().contains(k) && depends_on(lock[k], name) ==> (exists|i: int|
            0 <= i < listed.len() && (#[trigger] listed[i])@ == k)
    &&& forall|i: int, j: int|
        0 <= i < j < listed.len() ==> (#[trigger] listed[i])@ != (#[trigger] listed[j])@
}

/// Whether this artifact depends on `name`, matching `depends_on`.
fn pinned_depends_on(pm: &PinnedMod, name: &str) -> (r: bool)
    ensures
        r == depends_on(pm@, name@),
{
    match &pm.deps {
        Some(ds) => {
            let ghost dviews = mod_metas_view(ds@);
            let n = ds.len();
            let mut i: usize = 0;
            while i < n
                invariant
                    n == ds@.len(),
                    dviews == mod_metas_view(ds@),
                    pm@.deps == Some(dviews),
                    i <= n,
                    forall|j: int| 0 <= j < i ==> (#[trigger] dviews[j]).name != name@,
                decreases n - i,
            {
                proof {
                    assert(dviews[i as int] == ds@[i as int]@);
                }
                if crate::text::str_eq(ds[i].name.as_str(), name) {
                    proof {
                        assert(pm@.deps->0 == dviews);
                        assert(depends_on(pm@, name@)) by {
                            assert(0 <= i < dviews.len() && (dviews[i as int]).name == name@);
                        }
                    }
                    return true;
                }
                i = i + 1;
            }
            proof {
                if depends_on(pm@, name@) {
                    let j = choose|j: int|
                        0 <= j < dviews.len() && (#[trigger] dviews[j]).name == name@;
                    assert(false);
                }
            }
            false
        },
        None => false,
    }
}

impl PinnedPackMeta {
    /// The names of the pinned artifacts that depend on `mod_name`.
    pub fn get_dependent_mods(&self, mod_name: &str) -> (r: Vec<String>)
        requires
            self.wf(),
        ensures
            dependents_listed(self@, mod_name@, r@),
            (r@.len() == 0) <==> !has_dependent(self@, mod_name@),
    {
        let n = self.mods.entry_count();
        let mut out: Vec<String> = Vec::new();
        let mut i: usize = 0;
        while i < n
            invariant
                self.wf(),
                n == self.mods.eview().len(),
                i <= n,
                forall|l: int|
                    0 <= l < out@.len() ==> self@.dom().contains((#[trigger] out@[l])@)
                        && depends_on(self@[out@[l]@], mod_name@),
                forall|j: int|
                    0 <= j < i && depends_on(#[trigger] self.mods.eview()[j].1, mod_name@) ==> (
                    exists|l: int|
                        0 <= l < out@.len() && (#[trigger] out@[l])@ == self.mods.eview()[j].0),
                forall|l: int|
                    0 <= l < out@.len() ==> (exists|j: int|
                        0 <= j < i && (#[trigger] out@[l])@ == crate::strmap::keys_of(
                            self.mods.eview(),
                        )[j]),
                forall|l1: int, l2: int|
                    0 <= l1 < l2 < out@.len() ==> (#[trigger] out@[l1])@ != (
                    #[trigger] out@[l2])@,
            decreases n - i,
        {
            let key = self.mods.key_at(i);
            let val = self.mods.val_at(i);
            proof {
                crate::strmap::lemma_map_of_index(self.mods.eview(), i as int);
            }
            if pinned_depends_on(val, mod_name) {
                let ghost prev = out@;
                out.push(key.clone());
                proof {
                    assert(out@[prev.len() as int]@ == self.mods.eview()[i as int].0);
                    assert(out@[prev.len() as int]@ == crate::strmap::keys_of(
                        self.mods.eview(),
                    )[i as int]);
                    assert forall|l1: int, l2: int|
                        0 <= l1 < l2 < out@.len() implies (#[trigger] out@[l1])@ != (
                    #[trigger] out@[l2])@ by {
                        if l2 == prev.len() as int {
                            let j1 = choose|j1: int|
                                0 <= j1 < i && (#[trigger] prev[l1])@ == crate::strmap::keys_of(
                                    self.mods.eview(),
                                )[j1];
                            assert(crate::strmap::keys_of(self.mods.eview())[j1]
                                != crate::strmap::keys_of(self.mods.eview())[i as int]);
                        } else {
                            assert(prev[l1]@ != prev[l2]@);
                        }
                    }
                    assert forall|j: int|
                        0 <= j < i + 1 && depends_on(
                            #[trigger] self.mods.eview()[j].1,
                            mod_name@,
                        ) implies (exists|l: int|
                        0 <= l < out@.len() && (#[trigger] out@[l])@ == self.mods.eview()[j].0) by {
                        if j < i {
                            let l = choose|l: int|
                                0 <= l < prev.len() && (#[trigger] prev[l])@
                                    == self.mods.eview()[j].0;
                            assert(out@[l]@ == self.mods.eview()[j].0);
                        } else {
                            assert(out@[prev.len() as int]@ == self.mods.eview()[j].0);
                        }
                    }
                }
            }
            i = i + 1;
        }
        proof {
            crate::strmap::lemma_map_of_dom(self.mods.eview());
            assert forall|k: Seq<char>|
                #[trigger] self@.dom().contains(k) && depends_on(self@[k], mod_name@) implies (
            exists|i2: int| 0 <= i2 < out@.len() && (#[trigger] out@[i2])@ == k) by {
                assert(crate::strmap::has_key(self.mods.eview(), k));
                let j = choose|j: int|
                    0 <= j < self.mods.eview().len() && crate::strmap::keys_of(
                        self.mods.eview(),
                    )[j] == k;
                crate::strmap::lemma_map_of_index(self.mods.eview(), j);
                assert(self.mods.eview()[j].0 == k);
                assert(depends_on(self.mods.eview()[j].1, mod_name@));
            }
            if out@.len() > 0 {
                assert(self@.dom().contains(out@[0]@) && depends_on(self@[out@[0]@], mod_name@));
                assert(has_dependent(self@, mod_name@));
            }
            if has_dependent(self@, mod_name@) {
                let k = choose|k: Seq<char>|
                    #[trigger] self@.dom().contains(k) && depends_on(self@[k], mod_name@);
                assert(exists|i2: int| 0 <= i2 < out@.len() && (#[trigger] out@[i2])@ == k);
            }
        }
        out
    }

    /// Drop a pinned entry. An unpinned name is a no-op; a name that other
    /// pinned artifacts depend on is refused unless forced; a successful
    /// removal is followed by one prune pass.
    #[verifier::rlimit(50)]
    pub fn remove_mod(&mut self, mod_name: &str, pack_metadata: &ModpackMeta, force: bool) -> (r:
        Result<(), Error>)
        requires
            old(self).wf(),
            pack_metadata.wf(),
        ensures
            final(self).wf(),
            !old(self)@.dom().contains(mod_name@) ==> r is Ok && final(self)@ == old(self)@,
            (old(self)@.dom().contains(mod_name@) && has_dependent(old(self)@, mod_name@)
                && !force) ==> ((r matches Err(Error::DependentsExist { name, dependents })
                && name@ == mod_name@ && dependents_listed(old(self)@, mod_name@, dependents@))
                && final(self)@ == old(self)@),
            (old(self)@.dom().contains(mod_name@) && (force || !has_dependent(
                old(self)@,
                mod_name@,
            ))) ==> r is Ok && final(self)@ == spec_prune(
                old(self)@.remove(mod_name@),
                pack_metadata@,
            ),
    {
        if !self.mods.contains_key(mod_name) {
            return Ok(());
        }
        let dependents = self.get_dependent_mods(mod_name);
        if dependents.len() > 0 && !force {
            return Err(
                Error::DependentsExist { name: mod_name.to_owned(), dependents },
            );
        }
        self.mods.remove(mod_name);
        self.prune_mods(pack_metadata);
        Ok(())
    }

    /// One prune pass: drop every pinned entry that the manifest does not
    /// desire and that no pinned artifact depends on. Dependents are
    /// judged against the lockfile as it stands before the pass; orphans
    /// this pass exposes wait for another pass.
    pub fn prune_mods(&mut self, pack_metadata: &ModpackMeta)
        requires
            old(self).wf(),
            pack_metadata.wf(),
        ensures
            final(self).wf(),
            final(self)@ == spec_prune(old(self)@, pack_metadata@),
    {
        let ghost lock0 = self@;
        let n = self.mods.entry_count();
        let mut to_remove: Vec<String> = Vec::new();
        let mut i: usize = 0;
        while i < n
            invariant
                self.wf(),
                pack_metadata.wf(),
                lock0 == self@,
                n == self.mods.eview().len(),
                i <= n,
                forall|l: int|
                    0 <= l < to_remove@.len() ==> lock0.dom().contains((#[trigger] to_remove@[l])@)
                        && !pack_metadata@.mods.dom().contains(to_remove@[l]@) && !has_dependent(
                        lock0,
                        to_remove@[l]@,
                    ),
                forall|j: int|
                    0 <= j < i && !pack_metadata@.mods.dom().contains(
                        #[trigger] self.mods.eview()[j].0,
                    ) && !has_dependent(lock0, self.mods.eview()[j].0) ==> (exists|l: int|
                        0 <= l < to_remove@.len() && (#[trigger] to_remove@[l])@
                            == self.mods.eview()[j].0),
            decreases n - i,
        {
            let key = self.mods.key_at(i);
            proof {
                crate::strmap::lemma_map_of_index(self.mods.eview(), i as int);
            }
            let desired = pack_metadata.mods.contains_key(key.as_str());
            let dependents = self.get_dependent_mods(key.as_str());
            if !desired && dependents.len() == 0 {
                let ghost prev = to_remove@;
                let owned = key.clone();
                to_remove.push(owned);
                proof {
                    assert(to_remove@[prev.len() as int]@ == self.mods.eview()[i as int].0);
                    assert forall|j: int|
                        0 <= j < i + 1 && !pack_metadata@.mods.dom().contains(
                            #[trigger] self.mods.eview()[j].0,
                        ) && !has_dependent(lock0, self.mods.eview()[j].0) implies (exists|l: int|
                        0 <= l < to_remove@.len() && (#[trigger] to_remove@[l])@
                            == self.mods.eview()[j].0) by {
                        if j < i {
                            let l = choose|l: int|
                                0 <= l < prev.len() && (#[trigger] prev[l])@
                                    == self.mods.eview()[j].0;
                            assert(to_remove@[l]@ == self.mods.eview()[j].0);
                        } else {
                            assert(to_remove@[prev.len() as int]@ == self.mods.eview()[j].0);
                        }
                    }
                }
            }
            i = i + 1;
        }
        proof {
            crate::strmap::lemma_map_of_dom(self.mods.eview());
        }
        let ghost marked = to_remove@;
        let rn = to_remove.len();
        let mut j: usize = 0;
        while j < rn
            invariant
                self.wf(),
                rn == marked.len(),
                marked == to_remove@,
                j <= rn,
                forall|k: Seq<char>|
                    (#[trigger] self@.dom().contains(k)) == (lock0.dom().contains(k) && !(
                    exists|l: int| 0 <= l < j && (#[trigger] marked[l])@ == k)),
                forall|k: Seq<char>|
                    (#[trigger] self@.dom().contains(k)) ==> self@[k] == lock0[k],
            decreases rn - j,
        {
            let ghost pre = self@;
            let ghost removed_key = to_remove@[j as int]@;
            self.mods.remove(to_remove[j].as_str());
            proof {
                assert(self@ == pre.remove(removed_key));
                assert forall|k: Seq<char>|
                    (#[trigger] self@.dom().contains(k)) == (lock0.dom().contains(k) && !(
                exists|l: int| 0 <= l < j + 1 && (#[trigger] marked[l])@ == k)) by {
                    if k == removed_key {
                        assert(marked[j as int]@ == k);
                    } else {
                        assert(self@.dom().contains(k) == pre.dom().contains(k));
                        if exists|l: int| 0 <= l < j && (#[trigger] marked[l])@ == k {
                            let l = choose|l: int| 0 <= l < j && (#[trigger] marked[l])@ == k;
                            assert(marked[l]@ == k);
                        }
                        if exists|l: int| 0 <= l < j + 1 && (#[trigger] marked[l])@ == k {
                            let l = choose|l: int|
                                0 <= l < j + 1 && (#[trigger] marked[l])@ == k;
                            assert(l != j);
                            assert(0 <= l < j && marked[l]@ == k);
                        }
                    }
                }
                assert forall|k: Seq<char>|
                    (#[trigger] self@.dom().contains(k)) implies self@[k] == lock0[k] by {
                    assert(pre.dom().contains(k));
                    assert(self@[k] == pre[k]);
                }
            }
            j = j + 1;
        }
        proof {
            assert forall|k: Seq<char>|
                self@.dom().contains(k) == spec_prune(lock0, pack_metadata@).dom().contains(
                    k,
                ) by {
                if lock0.dom().contains(k) {
                    assert(crate::strmap::has_key(old(self).mods.eview(), k));
                    let j2 = choose|j2: int|
                        0 <= j2 < old(self).mods.eview().len() && crate::strmap::keys_of(
                            old(self).mods.eview(),
                        )[j2] == k;
                    assert(old(self).mods.eview()[j2].0 == k);
                    if pack_metadata@.mods.dom().contains(k) || has_dependent(lock0, k) {
                        if exists|l: int| 0 <= l < marked.len() && (#[trigger] marked[l])@ == k {
                            let l = choose|l: int|
                                0 <= l < marked.len() && (#[trigger] marked[l])@ == k;
                            assert(false);
                        }
                    } else {
                        assert(exists|l: int|
                            0 <= l < marked.len() && (#[trigger] marked[l])@ == k);
                    }
                }
            }
            assert(self@ =~= spec_prune(lock0, pack_metadata@));
        }
    }
}



/// Every recorded dependency of a pinned artifact is pinned or forbidden.
pub open spec fn lock_closed(lock: Map<Seq<char>, PinnedModV>, pack: ModpackMetaV) -> bool {
    forall|k: Seq<char>, i: int|
        #![trigger lock[k].deps->0[i]]
        (lock.dom().contains(k) && lock[k].deps is Some && 0 <= i < lock[k].deps->0.len()) ==> (
        lock.dom().contains(lock[k].deps->0[i].name) || pack.forbidden_mods.contains(
            lock[k].deps->0[i].name,
        ))
}

/// A pinned entry is what pinning some spec of its name yields.
pub open spec fn pin_justified(
    lock: Map<Seq<char>, PinnedModV>,
    pack: ModpackMetaV,
    w: WorldV,
    k: Seq<char>,
) -> bool {
    exists|m2: ModMetaV|
        m2.name == k && #[trigger] spec_pin_outcome(m2, pack, w) == PinOutcome::Pinned(lock[k])
}

/// A pinned entry is what pinning some wildcard-constrained spec of its
/// name yields.
pub open spec fn wildcard_pin_justified(
    lock: Map<Seq<char>, PinnedModV>,
    pack: ModpackMetaV,
    w: WorldV,
    k: Seq<char>,
) -> bool {
    exists|m2: ModMetaV|
        m2.name == k && m2.version == crate::catalog::wildcard()
            && #[trigger] spec_pin_outcome(m2, pack, w) == PinOutcome::Pinned(lock[k])
}

/// The first dependency frontier of a pin: what the root artifact hands
/// back, judged against the lockfile right after the root's insertion.
pub open spec fn first_frontier(
    lock: Map<Seq<char>, PinnedModV>,
    m: ModMetaV,
    pack: ModpackMetaV,
    w: WorldV,
) -> Seq<ModMetaV> {
    spec_new_deps(
        spec_pin_outcome(m, pack, w)->Pinned_0,
        lock.insert(m.name, spec_pin_outcome(m, pack, w)->Pinned_0),
    )
}

/// A spec already pinned at its exact, non-wildcard constraint.
pub open spec fn already_pinned_exact(lock: Map<Seq<char>, PinnedModV>, m: ModMetaV) -> bool {
    lock.dom().contains(m.name) && m.version != crate::catalog::wildcard() && lock[m.name].version
        == m.version
}

/// Some spec's pin outcome fails outright: an unbuilt provider reached, or
/// every provider exhausted. A transitive pin reports an error only when
/// such a spec exists.
pub open spec fn some_spec_fails(pack: ModpackMetaV, w: WorldV) -> bool {
    exists|m2: ModMetaV|
        (#[trigger] spec_pin_outcome(m2, pack, w)) is Fatal || spec_pin_outcome(m2, pack, w)
            is AllFailed
}

/// Cycle termination, the pinned half: once a transitive pin has left the
/// lockfile closed, a pinned mod that records a dependency on a name that
/// is not forbidden has that name pinned as well. For two mods depending
/// on each other this puts both in the lockfile, each exactly once, since
/// the lockfile keys names uniquely.
pub proof fn lemma_cycle_both_pinned(
    lock: Map<Seq<char>, PinnedModV>,
    pack: ModpackMetaV,
    a: Seq<char>,
    b: Seq<char>,
)
    requires
        lock_closed(lock, pack),
        lock.dom().contains(a),
        depends_on(lock[a], b),
        !pack.forbidden_mods.contains(b),
    ensures
        lock.dom().contains(b),
{
    let ds = lock[a].deps->0;
    let i = choose|i: int| 0 <= i < ds.len() && (#[trigger] ds[i]).name == b;
    assert(lock[a].deps->0[i].name == b);
}

/// A fresh lockfile is closed: nothing is pinned whose dependencies could
/// dangle. Together with `lemma_cycle_both_pinned` and the closedness that
/// a successful transitive pin ensures, a resolution started from an empty
/// lockfile pins both ends of a dependency cycle.
pub proof fn lemma_empty_lock_closed(pack: ModpackMetaV)
    ensures
        lock_closed(Map::<Seq<char>, PinnedModV>::empty(), pack),
{
}

/// A prune pass changes nothing exactly when every pinned entry is desired
/// by the manifest or depended on by some pinned artifact. In particular,
/// after a removal whose closing prune left no newly exposed orphans, a
/// second prune is a no-op.
pub proof fn lemma_prune_stable(lock: Map<Seq<char>, PinnedModV>, pack: ModpackMetaV)
    requires
        forall|k: Seq<char>|
            #[trigger] lock.dom().contains(k) ==> (pack.mods.dom().contains(k) || has_dependent(
                lock,
                k,
            )),
    ensures
        spec_prune(lock, pack) == lock,
{
    assert(spec_prune(lock, pack) =~= lock);
}

/// Pin determinism: what a pin records for a spec is a function of the
/// spec, the manifest and the world alone. Resolving the same spec against
/// an unchanged catalog twice yields identical pinned entries, whatever
/// either lockfile held before.
pub proof fn lemma_pin_deterministic(
    m: ModMetaV,
    pack: ModpackMetaV,
    w: WorldV,
    lock1: Map<Seq<char>, PinnedModV>,
    lock2: Map<Seq<char>, PinnedModV>,
)
    requires
        spec_pin_outcome(m, pack, w) is Pinned,
    ensures
        lock1.insert(m.name, spec_pin_outcome(m, pack, w)->Pinned_0)[m.name] == lock2.insert(
            m.name,
            spec_pin_outcome(m, pack, w)->Pinned_0,
        )[m.name],
{
}

/// The name a catalog project gives its dependants.
pub open spec fn slug_name(p: CatalogProjectV) -> Seq<char> {
    match crate::mod_meta::spec_parse_mod_name(p.slug) {
        Some(nv) => nv.0,
        None => p.slug,
    }
}

/// Every name the catalog can introduce as a dependency.
pub open spec fn candidate_names(cat: Map<Seq<char>, CatalogProjectV>) -> Set<Seq<char>> {
    cat.dom().map(|pid: Seq<char>| slug_name(cat[pid]))
}

/// Finitely many names can come out of a finite catalog.
pub proof fn lemma_candidate_names_finite(cat: Map<Seq<char>, CatalogProjectV>)
    requires
        cat.dom().finite(),
    ensures
        candidate_names(cat).finite(),
{
    cat.dom().lemma_map_finite(|pid: Seq<char>| slug_name(cat[pid]));
}

/// A resolved dependency reference carries a catalog-derived name.
proof fn lemma_dep_mod_meta_candidate(
    cat: Map<Seq<char>, CatalogProjectV>,
    d: crate::catalog::CatalogDepV,
    lo: Option<crate::modpack::ModLoader>,
    go: Option<Seq<char>>,
    lq: Seq<char>,
    gq: Seq<char>,
)
    requires
        crate::catalog::spec_dep_mod_meta(cat, d, lo, go, lq, gq) is Some,
    ensures
        candidate_names(cat).contains(
            crate::catalog::spec_dep_mod_meta(cat, d, lo, go, lq, gq)->0.name,
        ),
{
    let pid = d.project_id;
    let nm = crate::catalog::spec_dep_mod_meta(cat, d, lo, go, lq, gq)->0.name;
    assert(cat.dom().contains(pid));
    assert(nm == slug_name(cat[pid]));
    assert(candidate_names(cat).contains(nm)) by {
        assert(cat.dom().contains(pid) && nm == (|pid2: Seq<char>| slug_name(cat[pid2]))(pid));
    }
}

/// All resolved required dependencies carry catalog-derived names,
/// provided the accumulator already does.
proof fn lemma_required_deps_candidates(
    cat: Map<Seq<char>, CatalogProjectV>,
    deps: Seq<crate::catalog::CatalogDepV>,
    lo: Option<crate::modpack::ModLoader>,
    go: Option<Seq<char>>,
    lq: Seq<char>,
    gq: Seq<char>,
    acc: Seq<ModMetaV>,
)
    requires
        crate::catalog::spec_required_deps(cat, deps, lo, go, lq, gq, acc) is Some,
        forall|j: int|
            0 <= j < acc.len() ==> candidate_names(cat).contains((#[trigger] acc[j]).name),
    ensures
        forall|i: int|
            0 <= i < crate::catalog::spec_required_deps(cat, deps, lo, go, lq, gq, acc)->0.len()
                ==> candidate_names(cat).contains(
                (#[trigger] crate::catalog::spec_required_deps(
                    cat,
                    deps,
                    lo,
                    go,
                    lq,
                    gq,
                    acc,
                )->0[i]).name,
            ),
    decreases deps.len(),
{
    if deps.len() == 0 {
    } else {
        let d = deps[0];
        let rest = deps.subrange(1, deps.len() as int);
        if d.dependency_type != "required"@ {
            lemma_required_deps_candidates(cat, rest, lo, go, lq, gq, acc);
        } else {
            let mm = crate::catalog::spec_dep_mod_meta(cat, d, lo, go, lq, gq)->0;
            lemma_dep_mod_meta_candidate(cat, d, lo, go, lq, gq);
            if crate::catalog::deps_contains(acc, mm) {
                lemma_required_deps_candidates(cat, rest, lo, go, lq, gq, acc);
            } else {
                assert(forall|j: int|
                    0 <= j < acc.push(mm).len() ==> candidate_names(cat).contains(
                        (#[trigger] acc.push(mm)[j]).name,
                    ));
                lemma_required_deps_candidates(cat, rest, lo, go, lq, gq, acc.push(mm));
            }
        }
    }
}

/// A catalog-resolved artifact's dependencies carry catalog-derived names.
proof fn lemma_resolve_catalog_candidates(
    cat: Map<Seq<char>, CatalogProjectV>,
    m: ModMetaV,
    pack: ModpackMetaV,
)
    requires
        spec_resolve_catalog(cat, m, pack) is Some,
        spec_resolve_catalog(cat, m, pack)->0.deps is Some,
    ensures
        forall|i: int|
            0 <= i < spec_resolve_catalog(cat, m, pack)->0.deps->0.len() ==> candidate_names(
                cat,
            ).contains((#[trigger] spec_resolve_catalog(cat, m, pack)->0.deps->0[i]).name),
{
    let lq = crate::catalog::effective_loader(m, pack);
    let gq = crate::catalog::effective_game_version(m, pack);
    let project = cat[m.name];
    let b = crate::catalog::best_version_index(project.versions, lq, gq, m.version);
    let pkg = project.versions[b];
    let ds = pkg.dependencies->0;
    assert(forall|j: int|
        0 <= j < Seq::<ModMetaV>::empty().len() ==> candidate_names(cat).contains(
            (#[trigger] Seq::<ModMetaV>::empty()[j]).name,
        ));
    lemma_required_deps_candidates(cat, ds, m.loader, m.mc_version, lq, gq, Seq::empty());
}

/// A pinned artifact's dependencies carry catalog-derived names.
proof fn lemma_walk_deps_candidates(
    order: Seq<ModProvider>,
    m: ModMetaV,
    pack: ModpackMetaV,
    w: WorldV,
)
    requires
        walk_providers(order, m, pack, w) is Pinned,
        walk_providers(order, m, pack, w)->Pinned_0.deps is Some,
    ensures
        forall|i: int|
            0 <= i < walk_providers(order, m, pack, w)->Pinned_0.deps->0.len() ==> candidate_names(
                w.catalog,
            ).contains(
                (#[trigger] walk_providers(order, m, pack, w)->Pinned_0.deps->0[i]).name,
            ),
    decreases order.len(),
{
    let rest = order.subrange(1, order.len() as int);
    match order[0] {
        ModProvider::CurseForge => {
        },
        ModProvider::Modrinth => {
            match spec_resolve_catalog(w.catalog, m, pack) {
                Some(pm) => {
                    lemma_resolve_catalog_candidates(w.catalog, m, pack);
                },
                None => {
                    lemma_walk_deps_candidates(rest, m, pack, w);
                },
            }
        },
        ModProvider::Raw => {
            match m.download_url {
                Some(u) => {
                    if w.raw.dom().contains(u) {
                    } else {
                        lemma_walk_deps_candidates(rest, m, pack, w);
                    }
                },
                None => {
                    lemma_walk_deps_candidates(rest, m, pack, w);
                },
            }
        },
    }
}

/// Filtering keeps names within any set the unfiltered ones were in.
proof fn lemma_filter_new_deps_candidates(
    ds: Seq<ModMetaV>,
    lock: Map<Seq<char>, PinnedModV>,
    cs: Set<Seq<char>>,
)
    requires
        forall|j: int| 0 <= j < ds.len() ==> cs.contains((#[trigger] ds[j]).name),
    ensures
        forall|i: int|
            0 <= i < filter_new_deps(ds, lock).len() ==> cs.contains(
                (#[trigger] filter_new_deps(ds, lock)[i]).name,
            ),
    decreases ds.len(),
{
    if ds.len() > 0 {
        assert(forall|j: int|
            0 <= j < ds.drop_last().len() ==> cs.contains((#[trigger] ds.drop_last()[j]).name));
        lemma_filter_new_deps_candidates(ds.drop_last(), lock, cs);
    }
}

/// Filtered dependencies are fresh: none of their names is pinned yet.
proof fn lemma_filter_new_deps_fresh(ds: Seq<ModMetaV>, lock: Map<Seq<char>, PinnedModV>)
    ensures
        forall|i: int|
            0 <= i < filter_new_deps(ds, lock).len() ==> !lock.dom().contains(
                (#[trigger] filter_new_deps(ds, lock)[i]).name,
            ),
    decreases ds.len(),
{
    if ds.len() > 0 {
        lemma_filter_new_deps_fresh(ds.drop_last(), lock);
    }
}

/// Every dependency is pinned already or appears among the filtered ones.
proof fn lemma_filter_new_deps_cover(ds: Seq<ModMetaV>, lock: Map<Seq<char>, PinnedModV>)
    ensures
        forall|i: int|
            0 <= i < ds.len() ==> lock.dom().contains((#[trigger] ds[i]).name) || (exists|j: int|
                0 <= j < filter_new_deps(ds, lock).len() && filter_new_deps(ds, lock)[j] == ds[i]),
    decreases ds.len(),
{
    if ds.len() > 0 {
        lemma_filter_new_deps_cover(ds.drop_last(), lock);
        let f = filter_new_deps(ds, lock);
        let fr = filter_new_deps(ds.drop_last(), lock);
        assert forall|i: int|
            0 <= i < ds.len() implies lock.dom().contains((#[trigger] ds[i]).name) || (
        exists|j: int| 0 <= j < f.len() && f[j] == ds[i]) by {
            if i == ds.len() - 1 {
                if !lock.dom().contains(ds[i].name) {
                    assert(f[f.len() - 1] == ds[i]);
                }
            } else {
                assert(ds.drop_last()[i] == ds[i]);
                if !lock.dom().contains(ds[i].name) {
                    let j = choose|j: int| 0 <= j < fr.len() && fr[j] == ds.drop_last()[i];
                    assert(f[j] == ds[i]);
                }
            }
        }
    }
}



/// A name among the not-yet-processed worklist items.
pub open spec fn dep_listed(worklist: Seq<ModMeta>, head: int, name: Seq<char>) -> bool {
    exists|j: int| head <= j < worklist.len() && (#[trigger] worklist[j])@.name == name
}

/// Closedness up to the worklist: every recorded dependency is pinned,
/// forbidden, or still waiting in the worklist.
pub open spec fn closed_except(
    lock: Map<Seq<char>, PinnedModV>,
    pack: ModpackMetaV,
    worklist: Seq<ModMeta>,
    head: int,
) -> bool {
    forall|k: Seq<char>, i: int|
        #![trigger lock[k].deps->0[i]]
        (lock.dom().contains(k) && lock[k].deps is Some && 0 <= i < lock[k].deps->0.len()) ==> (
        lock.dom().contains(lock[k].deps->0[i].name) || pack.forbidden_mods.contains(
            lock[k].deps->0[i].name,
        ) || dep_listed(worklist, head, lock[k].deps->0[i].name))
}

/// Relax every constraint to the wildcard, keeping everything else.
fn relax_versions(deps: Vec<ModMeta>) -> (r: Vec<ModMeta>)
    ensures
        r@.len() == deps@.len(),
        forall|i: int|
            0 <= i < deps@.len() ==> (#[trigger] r@[i])@ == (ModMetaV {
                version: crate::catalog::wildcard(),
                ..deps@[i]@
            }),
{
    proof {
        reveal_strlit("*");
        assert("*"@ =~= crate::catalog::wildcard());
    }
    let n = deps.len();
    let mut out: Vec<ModMeta> = Vec::new();
    let mut i: usize = 0;
    while i < n
        invariant
            n == deps@.len(),
            i <= n,
            out@.len() == i,
            "*"@ == crate::catalog::wildcard(),
            forall|j: int|
                0 <= j < i ==> (#[trigger] out@[j])@ == (ModMetaV {
                    version: crate::catalog::wildcard(),
                    ..deps@[j]@
                }),
        decreases n - i,
    {
        out.push(deps[i].clone().version("*"));
        i = i + 1;
    }
    out
}

impl PinnedPackMeta {
    /// Pin a spec and, breadth first, every new dependency it pulls in.
    /// A spec already pinned at its exact, non-wildcard constraint is a
    /// no-op; a dependency name already pinned is never re-pinned, so a
    /// dependency cycle closes at its first pinned name, first write
    /// winning. On success every recorded dependency of every pinned
    /// artifact is itself pinned or forbidden, and every fresh entry is
    /// what pinning some spec of its name yields.
    pub fn pin_mod_and_deps(
        &mut self,
        mod_metadata: &ModMeta,
        pack_metadata: &ModpackMeta,
        world: &World,
        ignore_transitive_versions: bool,
    ) -> (r: Result<(), Error>)
        requires
            old(self).wf(),
            world.wf(),
        ensures
            final(self).wf(),
            forall|k: Seq<char>|
                old(self)@.dom().contains(k) ==> final(self)@.dom().contains(k),
            r is Ok ==> (pack_metadata@.forbidden_mods.contains(mod_metadata@.name)
                || final(self)@.dom().contains(mod_metadata@.name)),
            (r is Ok && lock_closed(old(self)@, pack_metadata@)) ==> lock_closed(
                final(self)@,
                pack_metadata@,
            ),
            forall|k: Seq<char>|
                #[trigger] final(self)@.dom().contains(k) ==> ((old(self)@.dom().contains(k)
                    && final(self)@[k] == old(self)@[k]) || pin_justified(
                    final(self)@,
                    pack_metadata@,
                    world@,
                    k,
                )),
            already_pinned_exact(old(self)@, mod_metadata@) ==> (r is Ok && final(self)@ == old(
                self,
            )@),
            (!already_pinned_exact(old(self)@, mod_metadata@) && spec_pin_outcome(
                mod_metadata@,
                pack_metadata@,
                world@,
            ) is Forbidden) ==> (r is Ok && final(self)@ == old(self)@),
            (!already_pinned_exact(old(self)@, mod_metadata@) && spec_pin_outcome(
                mod_metadata@,
                pack_metadata@,
                world@,
            ) is Fatal) ==> ((r matches Err(Error::NotImplemented)) && final(self)@ == old(
                self,
            )@),
            (!already_pinned_exact(old(self)@, mod_metadata@) && spec_pin_outcome(
                mod_metadata@,
                pack_metadata@,
                world@,
            ) is AllFailed) ==> ((r matches Err(Error::ResolutionFailure {
                name,
                providers_tried,
                constraint,
            }) && name@ == mod_metadata@.name && providers_tried@ == spec_try_order(
                mod_metadata@,
                pack_metadata@,
            ) && constraint@ == mod_metadata@.version) && final(self)@ == old(self)@),
            r is Err ==> some_spec_fails(pack_metadata@, world@),
            (r is Ok && ignore_transitive_versions && !already_pinned_exact(
                old(self)@,
                mod_metadata@,
            ) && spec_pin_outcome(mod_metadata@, pack_metadata@, world@) is Pinned) ==> (
            forall|i: int|
                0 <= i < first_frontier(old(self)@, mod_metadata@, pack_metadata@, world@).len()
                    ==> pack_metadata@.forbidden_mods.contains(
                    (#[trigger] first_frontier(
                        old(self)@,
                        mod_metadata@,
                        pack_metadata@,
                        world@,
                    )[i]).name,
                ) || (final(self)@.dom().contains(
                    first_frontier(old(self)@, mod_metadata@, pack_metadata@, world@)[i].name,
                ) && wildcard_pin_justified(
                    final(self)@,
                    pack_metadata@,
                    world@,
                    first_frontier(old(self)@, mod_metadata@, pack_metadata@, world@)[i].name,
                ))),
    {
        proof {
            reveal_strlit("*");
            assert("*"@ =~= crate::catalog::wildcard());
        }
        let already = match self.mods.get(mod_metadata.name.as_str()) {
            Some(pm) => !crate::text::str_eq(mod_metadata.version.as_str(), "*")
                && crate::text::str_eq(mod_metadata.version.as_str(), pm.version.as_str()),
            None => false,
        };
        proof {
            assert(already == already_pinned_exact(self@, mod_metadata@));
        }
        if already {
            return Ok(());
        }
        let ghost lock_start = self@;
        let first = match self.pin_mod(mod_metadata, pack_metadata, world) {
            Ok(deps) => deps,
            Err(e) => {
                proof {
                    assert(some_spec_fails(pack_metadata@, world@)) by {
                        assert(spec_pin_outcome(mod_metadata@, pack_metadata@, world@) is Fatal
                            || spec_pin_outcome(mod_metadata@, pack_metadata@, world@)
                            is AllFailed);
                    }
                }
                return Err(e);
            },
        };
        let ghost root_outcome = spec_pin_outcome(mod_metadata@, pack_metadata@, world@);
        let ghost cands = candidate_names(world@.catalog);
        proof {
            crate::strmap::lemma_map_of_dom(world.catalog.eview());
            lemma_candidate_names_finite(world@.catalog);
            crate::strmap::lemma_map_of_dom(self.mods.eview());
            match root_outcome {
                PinOutcome::Pinned(pm) => {
                    assert(pin_justified(self@, pack_metadata@, world@, mod_metadata@.name)) by {
                        assert(spec_pin_outcome(mod_metadata@, pack_metadata@, world@)
                            == PinOutcome::Pinned(self@[mod_metadata@.name]));
                    }
                    if pm.deps is Some {
                        assert(spec_try_order(mod_metadata@, pack_metadata@)
                            == spec_try_order(mod_metadata@, pack_metadata@));
                        lemma_walk_deps_candidates(
                            spec_try_order(mod_metadata@, pack_metadata@),
                            mod_metadata@,
                            pack_metadata@,
                            world@,
                        );
                        lemma_filter_new_deps_candidates(pm.deps->0, self@, cands);
                        lemma_filter_new_deps_cover(pm.deps->0, self@);
                    }
                },
                _ => {},
            }
        }
        proof {
            assert forall|j: int|
                0 <= j < first@.len() implies cands.contains((#[trigger] first@[j])@.name) by {
                assert(mod_metas_view(first@)[j] == first@[j]@);
                match root_outcome {
                    PinOutcome::Pinned(pm) => {
                        assert(mod_metas_view(first@) == spec_new_deps(pm, self@));
                        if pm.deps is Some {
                            assert(cands.contains(
                                filter_new_deps(pm.deps->0, self@)[j].name,
                            ));
                        } else {
                            assert(mod_metas_view(first@).len() == 0);
                        }
                    },
                    PinOutcome::Forbidden => {
                        assert(mod_metas_view(first@).len() == 0);
                    },
                    _ => {
                        assert(false);
                    },
                }
            }
            match root_outcome {
                PinOutcome::Pinned(pm) => {
                    assert(self@.dom().contains(mod_metadata@.name));
                },
                PinOutcome::Forbidden => {
                    lemma_outcome_forbidden(mod_metadata@, pack_metadata@, world@);
                    assert(pack_metadata@.forbidden_mods.contains(mod_metadata@.name));
                },
                _ => {
                    assert(false);
                },
            }
            assert forall|k: Seq<char>|
                #[trigger] self@.dom().contains(k) implies ((lock_start.dom().contains(k)
                && self@[k] == lock_start[k]) || pin_justified(
                self@,
                pack_metadata@,
                world@,
                k,
            )) by {
                match root_outcome {
                    PinOutcome::Pinned(pm) => {
                        if k == mod_metadata@.name {
                            assert(pin_justified(self@, pack_metadata@, world@, k));
                        } else {
                            assert(lock_start.dom().contains(k) && self@[k] == lock_start[k]);
                        }
                    },
                    PinOutcome::Forbidden => {
                        assert(self@ == lock_start);
                    },
                    _ => {
                        assert(false);
                    },
                }
            }
        }
        let ghost firstv = first@;
        let worklist_start: Vec<ModMeta> = if ignore_transitive_versions {
            relax_versions(first)
        } else {
            first
        };
        let mut worklist = worklist_start;
        let ghost flagged = ignore_transitive_versions && root_outcome is Pinned;
        let ghost pm_root = root_outcome->Pinned_0;
        let ghost lock1 = lock_start.insert(mod_metadata@.name, pm_root);
        let ghost ff = spec_new_deps(pm_root, lock1);
        let ghost wl0 = worklist@;
        let ghost ffn = wl0.len();
        proof {
            assert(worklist@.len() == firstv.len());
            if flagged {
                assert(self@ == lock1);
                assert(mod_metas_view(firstv) == ff);
                assert(ff.len() == firstv.len()) by {
                    assert(mod_metas_view(firstv).len() == firstv.len());
                }
                assert forall|j: int|
                    0 <= j < ffn implies (#[trigger] wl0[j])@ == (ModMetaV {
                    version: crate::catalog::wildcard(),
                    ..ff[j]
                }) by {
                    assert(mod_metas_view(firstv)[j] == firstv[j]@);
                    assert(ff[j] == firstv[j]@);
                }
                if pm_root.deps is Some {
                    lemma_filter_new_deps_fresh(pm_root.deps->0, lock1);
                }
                assert(forall|i: int|
                    0 <= i < ff.len() ==> !lock1.dom().contains((#[trigger] ff[i]).name));
            }
            assert forall|j: int|
                0 <= j < worklist@.len() implies (#[trigger] worklist@[j])@.name
                == firstv[j]@.name by {
                if ignore_transitive_versions {
                } else {
                    assert(worklist@[j] == firstv[j]);
                }
            }
            if lock_closed(lock_start, pack_metadata@) {
                assert(closed_except(self@, pack_metadata@, worklist@, 0)) by {
                    assert forall|k: Seq<char>, i: int|
                        (self@.dom().contains(k) && self@[k].deps is Some && 0 <= i
                            < self@[k].deps->0.len()) implies (self@.dom().contains(
                    #[trigger] self@[k].deps->0[i].name,
                    ) || pack_metadata@.forbidden_mods.contains(self@[k].deps->0[i].name)
                        || dep_listed(worklist@, 0, self@[k].deps->0[i].name)) by {
                        let nm = self@[k].deps->0[i].name;
                        match root_outcome {
                            PinOutcome::Pinned(pm) => {
                                if k == mod_metadata@.name {
                                    assert(self@[k] == pm);
                                    if !self@.dom().contains(nm) {
                                        let ds = pm.deps->0;
                                        assert(ds[i] == self@[k].deps->0[i]);
                                        let j = choose|j: int|
                                            0 <= j < filter_new_deps(ds, self@).len()
                                                && filter_new_deps(ds, self@)[j] == ds[i];
                                        assert(mod_metas_view(firstv)[j] == firstv[j]@);
                                        assert(firstv[j]@ == ds[i]);
                                        assert(worklist@[j]@.name == nm);
                                        assert(dep_listed(worklist@, 0, nm));
                                    }
                                } else {
                                    assert(lock_start.dom().contains(k));
                                    assert(lock_start[k] == self@[k]);
                                    assert(lock_start[k].deps->0[i] == self@[k].deps->0[i]);
                                    if !pack_metadata@.forbidden_mods.contains(nm) {
                                        assert(lock_start.dom().contains(nm));
                                        assert(self@.dom().contains(nm));
                                    }
                                }
                            },
                            PinOutcome::Forbidden => {
                                assert(self@ == lock_start);
                                assert(lock_start[k].deps->0[i] == self@[k].deps->0[i]);
                                if !pack_metadata@.forbidden_mods.contains(nm) {
                                    assert(lock_start.dom().contains(nm));
                                }
                            },
                            _ => {
                                assert(false);
                            },
                        }
                    }
                }
            }
        }
        let mut head: usize = 0;
        while head < worklist.len()
            invariant
                self.wf(),
                world.wf(),
                head <= worklist@.len(),
                cands == candidate_names(world@.catalog),
                cands.finite(),
                self@.dom().finite(),
                forall|k: Seq<char>| lock_start.dom().contains(k) ==> self@.dom().contains(k),
                lock_start == old(self)@,
                root_outcome == spec_pin_outcome(mod_metadata@, pack_metadata@, world@),
                root_outcome is Pinned || root_outcome is Forbidden,
                !already_pinned_exact(lock_start, mod_metadata@),
                root_outcome is Forbidden ==> worklist@.len() == 0 && self@ == lock_start,
                flagged == (ignore_transitive_versions && root_outcome is Pinned),
                flagged ==> pm_root == root_outcome->Pinned_0 && lock1 == lock_start.insert(
                    mod_metadata@.name,
                    pm_root,
                ) && ff == spec_new_deps(pm_root, lock1),
                flagged ==> ffn == wl0.len() && ffn == ff.len() && ffn <= worklist@.len()
                    && worklist@.subrange(0, ffn as int) == wl0,
                flagged ==> (forall|j: int|
                    0 <= j < ffn ==> (#[trigger] wl0[j])@ == (ModMetaV {
                        version: crate::catalog::wildcard(),
                        ..ff[j]
                    })),
                flagged ==> (forall|i: int|
                    0 <= i < ff.len() ==> !lock1.dom().contains((#[trigger] ff[i]).name)),
                (flagged && head <= ffn) ==> (forall|k: Seq<char>|
                    #[trigger] self@.dom().contains(k) && !lock1.dom().contains(k)
                        ==> wildcard_pin_justified(self@, pack_metadata@, world@, k)),
                flagged ==> (forall|j: int|
                    0 <= j < head && j < ffn ==> pack_metadata@.forbidden_mods.contains(
                        (#[trigger] ff[j]).name,
                    ) || (self@.dom().contains(ff[j].name) && wildcard_pin_justified(
                        self@,
                        pack_metadata@,
                        world@,
                        ff[j].name,
                    ))),
                pack_metadata@.forbidden_mods.contains(mod_metadata@.name) || self@.dom().contains(
                    mod_metadata@.name,
                ),
                forall|j: int|
                    head <= j < worklist@.len() ==> cands.contains(
                        (#[trigger] worklist@[j])@.name,
                    ),
                lock_closed(lock_start, pack_metadata@) ==> closed_except(
                    self@,
                    pack_metadata@,
                    worklist@,
                    head as int,
                ),
                forall|k: Seq<char>|
                    #[trigger] self@.dom().contains(k) ==> ((lock_start.dom().contains(k)
                        && self@[k] == lock_start[k]) || pin_justified(
                        self@,
                        pack_metadata@,
                        world@,
                        k,
                    )),
            decreases cands.difference(self@.dom()).len(), worklist@.len() - head,
        {
            let d = worklist[head].clone();
            let ghost dv = d@;
            let ghost pre = self@;
            let ghost wl = worklist@;
            if !self.mods.contains_key(d.name.as_str()) {
                match self.pin_mod(&d, pack_metadata, world) {
                    Ok(new_deps) => {
                        let ghost outcome = spec_pin_outcome(dv, pack_metadata@, world@);
                        let ghost ndv = new_deps@;
                        proof {
                            crate::strmap::lemma_map_of_dom(self.mods.eview());
                            match outcome {
                                PinOutcome::Pinned(pm) => {
                                    assert(self@ == pre.insert(dv.name, pm));
                                    assert(cands.contains(dv.name));
                                    assert(cands.difference(self@.dom()) =~= cands.difference(
                                        pre.dom(),
                                    ).remove(dv.name));
                                    assert(cands.difference(pre.dom()).contains(dv.name));
                                    assert(cands.difference(self@.dom()).len() < cands.difference(
                                        pre.dom(),
                                    ).len());
                                    assert(pin_justified(
                                        self@,
                                        pack_metadata@,
                                        world@,
                                        dv.name,
                                    )) by {
                                        assert(spec_pin_outcome(dv, pack_metadata@, world@)
                                            == PinOutcome::Pinned(self@[dv.name]));
                                    }
                                    if pm.deps is Some {
                                        lemma_walk_deps_candidates(
                                            spec_try_order(dv, pack_metadata@),
                                            dv,
                                            pack_metadata@,
                                            world@,
                                        );
                                        lemma_filter_new_deps_candidates(
                                            pm.deps->0,
                                            self@,
                                            cands,
                                        );
                                        lemma_filter_new_deps_cover(pm.deps->0, self@);
                                    }
                                },
                                _ => {},
                            }
                        }
                        let mut nd = new_deps;
                        worklist.append(&mut nd);
                        proof {
                            assert(worklist@ == wl + ndv);
                            if flagged {
                                assert(worklist@.subrange(0, ffn as int) =~= wl0);
                                if head < ffn {
                                    assert(wl.subrange(0, ffn as int)[head as int]
                                        == wl[head as int]);
                                    assert(dv == wl0[head as int]@);
                                    assert(dv.name == ff[head as int].name);
                                    assert(dv.version == crate::catalog::wildcard());
                                }
                                match outcome {
                                    PinOutcome::Pinned(pm2) => {
                                        if head < ffn {
                                            assert(wildcard_pin_justified(
                                                self@,
                                                pack_metadata@,
                                                world@,
                                                dv.name,
                                            )) by {
                                                assert(spec_pin_outcome(
                                                    dv,
                                                    pack_metadata@,
                                                    world@,
                                                ) == PinOutcome::Pinned(self@[dv.name]));
                                            }
                                        }
                                        if head + 1 <= ffn {
                                            assert forall|k: Seq<char>|
                                                #[trigger] self@.dom().contains(k)
                                                    && !lock1.dom().contains(
                                                    k,
                                                ) implies wildcard_pin_justified(
                                                self@,
                                                pack_metadata@,
                                                world@,
                                                k,
                                            ) by {
                                                if k != dv.name {
                                                    assert(pre.dom().contains(k));
                                                    assert(self@[k] == pre[k]);
                                                    assert(wildcard_pin_justified(
                                                        pre,
                                                        pack_metadata@,
                                                        world@,
                                                        k,
                                                    ));
                                                    let m2 = choose|m2: ModMetaV|
                                                        m2.name == k && m2.version
                                                            == crate::catalog::wildcard()
                                                            && #[trigger] spec_pin_outcome(
                                                            m2,
                                                            pack_metadata@,
                                                            world@,
                                                        ) == PinOutcome::Pinned(pre[k]);
                                                    assert(spec_pin_outcome(
                                                        m2,
                                                        pack_metadata@,
                                                        world@,
                                                    ) == PinOutcome::Pinned(self@[k]));
                                                }
                                            }
                                        }
                                        assert forall|j: int|
                                            0 <= j < head + 1 && j
                                                < ffn implies pack_metadata@.forbidden_mods.contains(
                                            (#[trigger] ff[j]).name,
                                        ) || (self@.dom().contains(ff[j].name)
                                            && wildcard_pin_justified(
                                            self@,
                                            pack_metadata@,
                                            world@,
                                            ff[j].name,
                                        )) by {
                                            if j == head {
                                            } else {
                                                if !pack_metadata@.forbidden_mods.contains(
                                                    ff[j].name,
                                                ) {
                                                    assert(pre.dom().contains(ff[j].name));
                                                    assert(ff[j].name != dv.name);
                                                    assert(self@[ff[j].name]
                                                        == pre[ff[j].name]);
                                                    assert(wildcard_pin_justified(
                                                        pre,
                                                        pack_metadata@,
                                                        world@,
                                                        ff[j].name,
                                                    ));
                                                    let m2 = choose|m2: ModMetaV|
                                                        m2.name == ff[j].name && m2.version
                                                            == crate::catalog::wildcard()
                                                            && #[trigger] spec_pin_outcome(
                                                            m2,
                                                            pack_metadata@,
                                                            world@,
                                                        ) == PinOutcome::Pinned(
                                                            pre[ff[j].name],
                                                        );
                                                    assert(spec_pin_outcome(
                                                        m2,
                                                        pack_metadata@,
                                                        world@,
                                                    ) == PinOutcome::Pinned(
                                                        self@[ff[j].name],
                                                    ));
                                                }
                                            }
                                        }
                                    },
                                    PinOutcome::Forbidden => {
                                        assert(self@ == pre);
                                        if head < ffn {
                                            lemma_outcome_forbidden(
                                                dv,
                                                pack_metadata@,
                                                world@,
                                            );
                                            assert(pack_metadata@.forbidden_mods.contains(
                                                ff[head as int].name,
                                            ));
                                        }
                                    },
                                    _ => {
                                        assert(false);
                                    },
                                }
                            }
                            assert forall|j: int|
                                head + 1 <= j < worklist@.len() implies cands.contains(
                                (#[trigger] worklist@[j])@.name,
                            ) by {
                                if j < wl.len() {
                                    assert(worklist@[j] == wl[j]);
                                    assert(cands.contains(wl[j]@.name));
                                } else {
                                    assert(worklist@[j] == ndv[j - wl.len()]);
                                    assert(mod_metas_view(ndv)[j - wl.len()] == ndv[j
                                        - wl.len()]@);
                                    match outcome {
                                        PinOutcome::Pinned(pm) => {
                                            assert(mod_metas_view(ndv) == spec_new_deps(
                                                pm,
                                                self@,
                                            ));
                                            if pm.deps is Some {
                                                assert(cands.contains(
                                                    filter_new_deps(pm.deps->0, self@)[j
                                                        - wl.len()].name,
                                                ));
                                            } else {
                                                assert(mod_metas_view(ndv).len() == 0);
                                            }
                                        },
                                        PinOutcome::Forbidden => {
                                            assert(mod_metas_view(ndv).len() == 0);
                                        },
                                        _ => {
                                            assert(false);
                                        },
                                    }
                                }
                            }
                            assert forall|k: Seq<char>|
                                #[trigger] self@.dom().contains(k) implies ((
                            lock_start.dom().contains(k) && self@[k] == lock_start[k])
                                || pin_justified(self@, pack_metadata@, world@, k)) by {
                                if outcome is Pinned && k == dv.name {
                                    assert(pin_justified(self@, pack_metadata@, world@, k));
                                } else {
                                    assert(pre.dom().contains(k));
                                    assert(self@[k] == pre[k]);
                                    if !(lock_start.dom().contains(k) && pre[k]
                                        == lock_start[k]) {
                                        assert(pin_justified(pre, pack_metadata@, world@, k));
                                        let m2 = choose|m2: ModMetaV|
                                            m2.name == k && #[trigger] spec_pin_outcome(
                                                m2,
                                                pack_metadata@,
                                                world@,
                                            ) == PinOutcome::Pinned(pre[k]);
                                        assert(spec_pin_outcome(m2, pack_metadata@, world@)
                                            == PinOutcome::Pinned(self@[k]));
                                    }
                                }
                            }
                            if lock_closed(lock_start, pack_metadata@) {
                                assert(closed_except(
                                    self@,
                                    pack_metadata@,
                                    worklist@,
                                    head + 1,
                                )) by {
                                    assert forall|k: Seq<char>, i: int|
                                        (self@.dom().contains(k) && self@[k].deps is Some && 0 <= i
                                            < self@[k].deps->0.len()) implies (
                                    self@.dom().contains(
                                        #[trigger] self@[k].deps->0[i].name,
                                    ) || pack_metadata@.forbidden_mods.contains(
                                        self@[k].deps->0[i].name,
                                    ) || dep_listed(worklist@, head + 1, self@[k].deps->0[i].name)) by {
                                        let nm = self@[k].deps->0[i].name;
                                        if outcome is Pinned && k == dv.name {
                                            let pm = outcome->Pinned_0;
                                            assert(self@[k] == pm);
                                            if !self@.dom().contains(nm) {
                                                let ds = pm.deps->0;
                                                assert(ds[i] == self@[k].deps->0[i]);
                                                let j = choose|j: int|
                                                    0 <= j < filter_new_deps(ds, self@).len()
                                                        && filter_new_deps(ds, self@)[j] == ds[i];
                                                assert(mod_metas_view(nd@ + Seq::empty())
                                                    == filter_new_deps(ds, self@)
                                                    || true);
                                                assert(worklist@[wl.len() + j]@ == ds[i]);
                                                assert(dep_listed(worklist@, head + 1, nm));
                                            }
                                        } else {
                                            assert(pre.dom().contains(k));
                                            assert(pre[k] == self@[k]);
                                            assert(pre[k].deps->0[i] == self@[k].deps->0[i]);
                                            if !pre.dom().contains(nm)
                                                && !pack_metadata@.forbidden_mods.contains(nm) {
                                                assert(dep_listed(wl, head as int, nm));
                                                let j = choose|j: int|
                                                    head <= j < wl.len() && (#[trigger] wl[j])@.name
                                                        == nm;
                                                if j == head {
                                                    assert(wl[j]@.name == dv.name);
                                                    match outcome {
                                                        PinOutcome::Pinned(pm0) => {
                                                            assert(self@.dom().contains(nm));
                                                        },
                                                        PinOutcome::Forbidden => {
                                                            lemma_outcome_forbidden(
                                                                dv,
                                                                pack_metadata@,
                                                                world@,
                                                            );
                                                            assert(pack_metadata@.forbidden_mods.contains(nm));
                                                        },
                                                        _ => {
                                                            assert(false);
                                                        },
                                                    }
                                                } else {
                                                    assert(worklist@[j] == wl[j]);
                                                    assert(worklist@[j]@.name == nm);
                                                    assert(dep_listed(worklist@, head + 1, nm));
                                                }
                                            }
                                        }
                                    }
                                }
                            }
                        }
                    },
                    Err(e) => {
                        proof {
                            assert(some_spec_fails(pack_metadata@, world@)) by {
                                assert(spec_pin_outcome(dv, pack_metadata@, world@) is Fatal
                                    || spec_pin_outcome(dv, pack_metadata@, world@)
                                    is AllFailed);
                            }
                        }
                        return Err(e);
                    },
                }
            } else {
                proof {
                    if flagged {
                        if head < ffn {
                            assert(wl.subrange(0, ffn as int)[head as int] == wl[head as int]);
                            assert(dv == wl0[head as int]@);
                            assert(dv.name == ff[head as int].name);
                            assert(!lock1.dom().contains(ff[head as int].name));
                            assert(self@.dom().contains(dv.name));
                            assert(wildcard_pin_justified(
                                self@,
                                pack_metadata@,
                                world@,
                                dv.name,
                            ));
                        }
                    }
                    if lock_closed(lock_start, pack_metadata@) {
                        assert(closed_except(self@, pack_metadata@, worklist@, head + 1)) by {
                            assert forall|k: Seq<char>, i: int|
                                (self@.dom().contains(k) && self@[k].deps is Some && 0 <= i
                                    < self@[k].deps->0.len()) implies (self@.dom().contains(
                                #[trigger] self@[k].deps->0[i].name,
                            ) || pack_metadata@.forbidden_mods.contains(self@[k].deps->0[i].name)
                                || dep_listed(worklist@, head + 1, self@[k].deps->0[i].name)) by {
                                let nm = self@[k].deps->0[i].name;
                                if !self@.dom().contains(nm)
                                    && !pack_metadata@.forbidden_mods.contains(nm) {
                                    assert(dep_listed(wl, head as int, nm));
                                    let j = choose|j: int|
                                        head <= j < wl.len() && (#[trigger] wl[j])@.name == nm;
                                    if j == head {
                                        assert(wl[j]@.name == dv.name);
                                        assert(self@.dom().contains(nm));
                                    } else {
                                        assert(dep_listed(worklist@, head + 1, nm));
                                    }
                                }
                            }
                        }
                    }
                }
            }
            head = head + 1;
        }
        proof {
            if flagged {
                assert(ff == first_frontier(lock_start, mod_metadata@, pack_metadata@, world@));
                assert forall|i: int|
                    0 <= i < first_frontier(
                        lock_start,
                        mod_metadata@,
                        pack_metadata@,
                        world@,
                    ).len() implies pack_metadata@.forbidden_mods.contains(
                    (#[trigger] first_frontier(
                        lock_start,
                        mod_metadata@,
                        pack_metadata@,
                        world@,
                    )[i]).name,
                ) || (self@.dom().contains(
                    first_frontier(lock_start, mod_metadata@, pack_metadata@, world@)[i].name,
                ) && wildcard_pin_justified(
                    self@,
                    pack_metadata@,
                    world@,
                    first_frontier(lock_start, mod_metadata@, pack_metadata@, world@)[i].name,
                )) by {
                    assert(first_frontier(
                        lock_start,
                        mod_metadata@,
                        pack_metadata@,
                        world@,
                    )[i] == ff[i]);
                    assert(i < ffn);
                    assert(i < head);
                }
            }
            if lock_closed(lock_start, pack_metadata@) {
                assert(lock_closed(self@, pack_metadata@)) by {
                    assert forall|k: Seq<char>, i: int|
                        (self@.dom().contains(k) && self@[k].deps is Some && 0 <= i
                            < self@[k].deps->0.len()) implies (self@.dom().contains(
                    #[trigger] self@[k].deps->0[i].name,
                    ) || pack_metadata@.forbidden_mods.contains(self@[k].deps->0[i].name)) by {
                        let nm = self@[k].deps->0[i].name;
                        if !self@.dom().contains(nm) && !pack_metadata@.forbidden_mods.contains(
                            nm,
                        ) {
                            assert(dep_listed(worklist@, head as int, nm));
                            let j = choose|j: int|
                                head <= j < worklist@.len() && (#[trigger] worklist@[j])@.name
                                    == nm;
                            assert(false);
                        }
                    }
                }
            }
        }
        Ok(())
    }
}



impl PinnedPackMeta {
    /// Resolve every desired mod of the manifest, with its transitive
    /// dependencies. On success every desired name is pinned or forbidden,
    /// closedness carries over, and every entry is either kept from before
    /// or justified by a pin of its name.
    pub fn init(
        &mut self,
        modpack_meta: &ModpackMeta,
        world: &World,
        ignore_transitive_versions: bool,
    ) -> (r: Result<(), Error>)
        requires
            old(self).wf(),
            world.wf(),
            modpack_meta.wf(),
        ensures
            final(self).wf(),
            forall|k: Seq<char>|
                old(self)@.dom().contains(k) ==> final(self)@.dom().contains(k),
            (r is Ok && lock_closed(old(self)@, modpack_meta@)) ==> lock_closed(
                final(self)@,
                modpack_meta@,
            ),
            forall|k: Seq<char>|
                #[trigger] final(self)@.dom().contains(k) ==> ((old(self)@.dom().contains(k)
                    && final(self)@[k] == old(self)@[k]) || pin_justified(
                    final(self)@,
                    modpack_meta@,
                    world@,
                    k,
                )),
            r is Ok ==> (forall|k: Seq<char>|
                #[trigger] modpack_meta@.mods.dom().contains(k) ==> (final(self)@.dom().contains(
                    k,
                ) || modpack_meta@.forbidden_mods.contains(k))),
            r is Err ==> some_spec_fails(modpack_meta@, world@),
    {
        let mods = modpack_meta.iter_mods();
        let ghost modsv = mods@;
        let n = mods.len();
        let mut i: usize = 0;
        while i < n
            invariant
                self.wf(),
                world.wf(),
                modpack_meta.wf(),
                n == mods@.len(),
                modsv == mods@,
                mod_metas_view(modsv) == crate::strmap::vals_of(modpack_meta.mods.eview()),
                i <= n,
                forall|k: Seq<char>| old(self)@.dom().contains(k) ==> self@.dom().contains(k),
                lock_closed(old(self)@, modpack_meta@) ==> lock_closed(self@, modpack_meta@),
                forall|k: Seq<char>|
                    #[trigger] self@.dom().contains(k) ==> ((old(self)@.dom().contains(k)
                        && self@[k] == old(self)@[k]) || pin_justified(
                        self@,
                        modpack_meta@,
                        world@,
                        k,
                    )),
                forall|j: int|
                    0 <= j < i ==> (self@.dom().contains((#[trigger] modsv[j])@.name)
                        || modpack_meta@.forbidden_mods.contains(modsv[j]@.name)),
            decreases n - i,
        {
            let ghost pre = self@;
            match self.pin_mod_and_deps(
                &mods[i],
                modpack_meta,
                world,
                ignore_transitive_versions,
            ) {
                Ok(_) => {},
                Err(e) => {
                    proof {
                        assert forall|k: Seq<char>|
                            #[trigger] self@.dom().contains(k) implies ((
                        old(self)@.dom().contains(k) && self@[k] == old(self)@[k])
                            || pin_justified(self@, modpack_meta@, world@, k)) by {
                            if pre.dom().contains(k) && self@[k] == pre[k] {
                                if !(old(self)@.dom().contains(k) && pre[k] == old(self)@[k]) {
                                    assert(pin_justified(pre, modpack_meta@, world@, k));
                                    let m2 = choose|m2: ModMetaV|
                                        m2.name == k && #[trigger] spec_pin_outcome(
                                            m2,
                                            modpack_meta@,
                                            world@,
                                        ) == PinOutcome::Pinned(pre[k]);
                                    assert(spec_pin_outcome(m2, modpack_meta@, world@)
                                        == PinOutcome::Pinned(self@[k]));
                                }
                            } else {
                                assert(pin_justified(self@, modpack_meta@, world@, k));
                            }
                        }
                    }
                    return Err(e);
                },
            }
            proof {
                assert forall|k: Seq<char>|
                    #[trigger] self@.dom().contains(k) implies ((old(self)@.dom().contains(k)
                    && self@[k] == old(self)@[k]) || pin_justified(
                    self@,
                    modpack_meta@,
                    world@,
                    k,
                )) by {
                    if pre.dom().contains(k) && self@[k] == pre[k] {
                        if !(old(self)@.dom().contains(k) && pre[k] == old(self)@[k]) {
                            assert(pin_justified(pre, modpack_meta@, world@, k));
                            let m2 = choose|m2: ModMetaV|
                                m2.name == k && #[trigger] spec_pin_outcome(
                                    m2,
                                    modpack_meta@,
                                    world@,
                                ) == PinOutcome::Pinned(pre[k]);
                            assert(spec_pin_outcome(m2, modpack_meta@, world@)
                                == PinOutcome::Pinned(self@[k]));
                        }
                    } else {
                        assert(pin_justified(self@, modpack_meta@, world@, k));
                    }
                }
            }
            i = i + 1;
        }
        proof {
            assert forall|k: Seq<char>|
                #[trigger] modpack_meta@.mods.dom().contains(k) implies (self@.dom().contains(k)
                || modpack_meta@.forbidden_mods.contains(k)) by {
                crate::strmap::lemma_map_of_dom(modpack_meta.mods.eview());
                assert(crate::strmap::has_key(modpack_meta.mods.eview(), k));
                let j = choose|j: int|
                    0 <= j < modpack_meta.mods.eview().len() && crate::strmap::keys_of(
                        modpack_meta.mods.eview(),
                    )[j] == k;
                crate::strmap::lemma_map_of_index(modpack_meta.mods.eview(), j);
                assert(modpack_meta@.mods[k].name == k);
                assert(mod_metas_view(modsv).len() == modsv.len());
                assert(crate::strmap::vals_of(modpack_meta.mods.eview()).len()
                    == modpack_meta.mods.eview().len());
                assert(crate::strmap::vals_of(modpack_meta.mods.eview())[j]
                    == modpack_meta.mods.eview()[j].1);
                assert(mod_metas_view(modsv)[j] == modsv[j]@);
                assert(modsv[j]@ == modpack_meta@.mods[k]);
                assert(modsv[j]@.name == k);
            }
        }
        Ok(())
    }
}


} // verus!
