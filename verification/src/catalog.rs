//! The catalog provider's data model, and resolution of a mod spec
//! against it: picking a version, collecting its required dependencies,
//! and building the pinned artifact.

use vstd::prelude::*;

use crate::mod_meta::spec_parse_mod_name;
use crate::mod_meta::ModMeta;
use crate::mod_meta::ModMetaV;
use crate::mod_meta::ModProvider;
use crate::modpack::ModLoader;
use crate::modpack::ModpackMeta;
use crate::modpack::ModpackMetaV;
use crate::providers::FileSource;
use crate::providers::FileSourceV;
use crate::providers::PinnedMod;
use crate::providers::PinnedModV;
use crate::strmap::StrMap;
use crate::text::lower;
use crate::text::lower_exec;
use crate::text::str_eq;

verus! {

/// One downloadable file of a catalog version.
#[derive(Debug)]
pub struct CatalogFile {
    pub url: String,
    pub sha1: String,
    pub sha512: String,
    pub filename: String,
}

/// The mathematical content of a `CatalogFile`.
pub ghost struct CatalogFileV {
    pub url: Seq<char>,
    pub sha1: Seq<char>,
    pub sha512: Seq<char>,
    pub filename: Seq<char>,
}

impl View for CatalogFile {
    type V = CatalogFileV;

    open spec fn view(&self) -> CatalogFileV {
        CatalogFileV { url: self.url@, sha1: self.sha1@, sha512: self.sha512@, filename: self.filename@ }
    }
}

/// A dependency reference of a catalog version: a project id, optionally
/// pinned to a version id, with its dependency kind.
#[derive(Debug)]
pub struct CatalogDep {
    pub dependency_type: String,
    pub project_id: String,
    pub version_id: Option<String>,
}

/// The mathematical content of a `CatalogDep`.
pub ghost struct CatalogDepV {
    pub dependency_type: Seq<char>,
    pub project_id: Seq<char>,
    pub version_id: Option<Seq<char>>,
}

impl View for CatalogDep {
    type V = CatalogDepV;

    open spec fn view(&self) -> CatalogDepV {
        CatalogDepV {
            dependency_type: self.dependency_type@,
            project_id: self.project_id@,
            version_id: match self.version_id {
                Some(v) => Some(v@),
                None => None,
            },
        }
    }
}

/// One version of a catalog project.
#[derive(Debug)]
pub struct CatalogVersion {
    pub id: String,
    pub version_number: String,
    pub date_published: String,
    pub loaders: Vec<String>,
    pub game_versions: Vec<String>,
    pub files: Vec<CatalogFile>,
    pub dependencies: Option<Vec<CatalogDep>>,
}

/// The mathematical content of a `CatalogVersion`.
pub ghost struct CatalogVersionV {
    pub id: Seq<char>,
    pub version_number: Seq<char>,
    pub date_published: Seq<char>,
    pub loaders: Seq<Seq<char>>,
    pub game_versions: Seq<Seq<char>>,
    pub files: Seq<CatalogFileV>,
    pub dependencies: Option<Seq<CatalogDepV>>,
}

impl View for CatalogVersion {
    type V = CatalogVersionV;

    open spec fn view(&self) -> CatalogVersionV {
        CatalogVersionV {
            id: self.id@,
            version_number: self.version_number@,
            date_published: self.date_published@,
            loaders: self.loaders@.map_values(|s: String| s@),
            game_versions: self.game_versions@.map_values(|s: String| s@),
            files: self.files@.map_values(|f: CatalogFile| f@),
            dependencies: match self.dependencies {
                Some(ds) => Some(ds@.map_values(|d: CatalogDep| d@)),
                None => None,
            },
        }
    }
}

/// A catalog project: its slug, which sides it supports, and its versions,
/// given in no particular order.
#[derive(Debug)]
pub struct CatalogProject {
    pub slug: String,
    pub client_side: String,
    pub server_side: String,
    pub versions: Vec<CatalogVersion>,
}

/// The mathematical content of a `CatalogProject`.
pub ghost struct CatalogProjectV {
    pub slug: Seq<char>,
    pub client_side: Seq<char>,
    pub server_side: Seq<char>,
    pub versions: Seq<CatalogVersionV>,
}

impl View for CatalogProject {
    type V = CatalogProjectV;

    open spec fn view(&self) -> CatalogProjectV {
        CatalogProjectV {
            slug: self.slug@,
            client_side: self.client_side@,
            server_side: self.server_side@,
            versions: self.versions@.map_values(|v: CatalogVersion| v@),
        }
    }
}

/// A catalog: projects, keyed both by id and by slug.
pub type Catalog = StrMap<CatalogProject>;

/// Lexicographic order on character sequences, by code point.
pub open spec fn lex_le(a: Seq<char>, b: Seq<char>) -> bool
    decreases a.len(),
{
    if a.len() == 0 {
        true
    } else if b.len() == 0 {
        false
    } else if a[0] == b[0] {
        lex_le(a.subrange(1, a.len() as int), b.subrange(1, b.len() as int))
    } else {
        (a[0] as u32) < (b[0] as u32)
    }
}

/// Dropping an equal prefix does not change the order.
proof fn lemma_lex_skip(a: Seq<char>, b: Seq<char>, i: int)
    requires
        0 <= i <= a.len(),
        i <= b.len(),
        forall|t: int| 0 <= t < i ==> a[t] == b[t],
    ensures
        lex_le(a, b) == lex_le(a.subrange(i, a.len() as int), b.subrange(i, b.len() as int)),
    decreases i,
{
    if i == 0 {
        assert(a.subrange(0, a.len() as int) =~= a);
        assert(b.subrange(0, b.len() as int) =~= b);
    } else {
        assert(a.len() > 0 && b.len() > 0 && a[0] == b[0]);
        let a1 = a.subrange(1, a.len() as int);
        let b1 = b.subrange(1, b.len() as int);
        assert(forall|t: int| 0 <= t < i - 1 ==> a1[t] == b1[t]);
        lemma_lex_skip(a1, b1, i - 1);
        assert(a1.subrange(i - 1, a1.len() as int) =~= a.subrange(i, a.len() as int));
        assert(b1.subrange(i - 1, b1.len() as int) =~= b.subrange(i, b.len() as int));
    }
}

/// Lexicographic comparison of two strings, matching `lex_le`.
pub fn lex_le_exec(a: &str, b: &str) -> (r: bool)
    ensures
        r == lex_le(a@, b@),
{
    let al = a.unicode_len();
    let bl = b.unicode_len();
    let min: usize = if al < bl {
        al
    } else {
        bl
    };
    let mut i: usize = 0;
    while i < min
        invariant
            al == a@.len(),
            bl == b@.len(),
            min == if al < bl {
                al
            } else {
                bl
            },
            i <= min,
            forall|t: int| 0 <= t < i ==> a@[t] == b@[t],
        decreases min - i,
    {
        let ca = a.get_char(i);
        let cb = b.get_char(i);
        if ca != cb {
            proof {
                lemma_lex_skip(a@, b@, i as int);
            }
            return (ca as u32) < (cb as u32);
        }
        i = i + 1;
    }
    proof {
        lemma_lex_skip(a@, b@, min as int);
    }
    al <= bl
}

/// The wildcard version constraint.
pub open spec fn wildcard() -> Seq<char> {
    seq!['*']
}

/// Whether a catalog version serves the given loader and game version.
pub open spec fn context_matches(v: CatalogVersionV, loader: Seq<char>, gv: Seq<char>) -> bool {
    v.loaders.contains(loader) && v.game_versions.contains(gv)
}

/// Whether a catalog version satisfies the constraint: the wildcard takes
/// any, otherwise the version number must match exactly.
pub open spec fn constraint_matches(v: CatalogVersionV, constraint: Seq<char>) -> bool {
    constraint == wildcard() || v.version_number == constraint
}

/// Whether a catalog version answers a dependency reference: either no
/// version id is asked for, or the id matches exactly.
pub open spec fn dep_id_matches(v: CatalogVersionV, version_id: Option<Seq<char>>) -> bool {
    match version_id {
        None => true,
        Some(id) => v.id == id,
    }
}

/// The index of the newest version that serves the context and satisfies
/// the constraint, or minus one. Among equal dates the later entry wins.
pub open spec fn best_version_index(
    vs: Seq<CatalogVersionV>,
    loader: Seq<char>,
    gv: Seq<char>,
    constraint: Seq<char>,
) -> int
    decreases vs.len(),
{
    if vs.len() == 0 {
        -1
    } else {
        let prev = best_version_index(vs.drop_last(), loader, gv, constraint);
        if context_matches(vs.last(), loader, gv) && constraint_matches(vs.last(), constraint)
            && (prev == -1 || lex_le(vs[prev].date_published, vs.last().date_published)) {
            vs.len() - 1
        } else {
            prev
        }
    }
}

/// The index of the newest version that serves the context and answers a
/// dependency reference, or minus one. Among equal dates the later entry
/// wins.
pub open spec fn best_dep_index(
    vs: Seq<CatalogVersionV>,
    loader: Seq<char>,
    gv: Seq<char>,
    version_id: Option<Seq<char>>,
) -> int
    decreases vs.len(),
{
    if vs.len() == 0 {
        -1
    } else {
        let prev = best_dep_index(vs.drop_last(), loader, gv, version_id);
        if context_matches(vs.last(), loader, gv) && dep_id_matches(vs.last(), version_id) && (
        prev == -1 || lex_le(vs[prev].date_published, vs.last().date_published)) {
            vs.len() - 1
        } else {
            prev
        }
    }
}

/// The chosen index stays in range.
pub proof fn lemma_best_version_index_range(
    vs: Seq<CatalogVersionV>,
    loader: Seq<char>,
    gv: Seq<char>,
    constraint: Seq<char>,
)
    ensures
        -1 <= best_version_index(vs, loader, gv, constraint) < vs.len(),
    decreases vs.len(),
{
    if vs.len() > 0 {
        lemma_best_version_index_range(vs.drop_last(), loader, gv, constraint);
    }
}

/// The chosen index stays in range.
pub proof fn lemma_best_dep_index_range(
    vs: Seq<CatalogVersionV>,
    loader: Seq<char>,
    gv: Seq<char>,
    version_id: Option<Seq<char>>,
)
    ensures
        -1 <= best_dep_index(vs, loader, gv, version_id) < vs.len(),
    decreases vs.len(),
{
    if vs.len() > 0 {
        lemma_best_dep_index_range(vs.drop_last(), loader, gv, version_id);
    }
}

/// The loader name as the catalog queries want it: lower case.
pub open spec fn loader_query(l: ModLoader) -> Seq<char> {
    match l {
        ModLoader::Forge => lower("Forge"@),
        ModLoader::Fabric => lower("Fabric"@),
    }
}

/// The effective loader query of a spec under a pack: the spec's override,
/// else the pack's loader.
pub open spec fn effective_loader(m: ModMetaV, pack: ModpackMetaV) -> Seq<char> {
    match m.loader {
        Some(l) => loader_query(l),
        None => loader_query(pack.modloader),
    }
}

/// The effective game version of a spec under a pack: the spec's override,
/// else the pack's.
pub open spec fn effective_game_version(m: ModMetaV, pack: ModpackMetaV) -> Seq<char> {
    match m.mc_version {
        Some(v) => v,
        None => pack.mc_version,
    }
}

/// The loader query as an owned string.
pub fn loader_query_exec(l: ModLoader) -> (r: String)
    ensures
        r@ == loader_query(l),
{
    lower_exec(l.label().as_str())
}

/// Whether `s` occurs among `items`.
pub fn str_vec_contains(items: &Vec<String>, s: &str) -> (r: bool)
    ensures
        r == items@.map_values(|x: String| x@).contains(s@),
{
    let ghost views = items@.map_values(|x: String| x@);
    let n = items.len();
    let mut i: usize = 0;
    while i < n
        invariant
            n == items@.len(),
            views == items@.map_values(|x: String| x@),
            i <= n,
            forall|j: int| 0 <= j < i ==> views[j] != s@,
        decreases n - i,
    {
        if str_eq(items[i].as_str(), s) {
            proof {
                assert(views[i as int] == s@);
            }
            return true;
        }
        proof {
            assert(views[i as int] == items@[i as int]@);
        }
        i = i + 1;
    }
    proof {
        if views.contains(s@) {
            let j = choose|j: int| 0 <= j < views.len() && views[j] == s@;
            assert(false);
        }
    }
    false
}

/// Whether a version serves the context, matching `context_matches`.
fn context_matches_exec(v: &CatalogVersion, loader: &str, gv: &str) -> (r: bool)
    ensures
        r == context_matches(v@, loader@, gv@),
{
    str_vec_contains(&v.loaders, loader) && str_vec_contains(&v.game_versions, gv)
}

/// Find the newest eligible version, matching `best_version_index`.
fn best_version_exec<'a>(
    vs: &'a Vec<CatalogVersion>,
    loader: &str,
    gv: &str,
    constraint: &str,
) -> (r: Option<usize>)
    ensures
        match r {
            Some(i) => i < vs@.len() && best_version_index(
                vs@.map_values(|v: CatalogVersion| v@),
                loader@,
                gv@,
                constraint@,
            ) == i as int,
            None => best_version_index(
                vs@.map_values(|v: CatalogVersion| v@),
                loader@,
                gv@,
                constraint@,
            ) == -1,
        },
{
    let ghost views = vs@.map_values(|v: CatalogVersion| v@);
    let is_wild = str_eq(constraint, "*");
    proof {
        reveal_strlit("*");
        assert("*"@ =~= wildcard());
    }
    let n = vs.len();
    let mut best: Option<usize> = None;
    let mut i: usize = 0;
    while i < n
        invariant
            n == vs@.len(),
            views == vs@.map_values(|v: CatalogVersion| v@),
            is_wild == (constraint@ == wildcard()),
            i <= n,
            match best {
                Some(b) => b < i && best_version_index(
                    views.subrange(0, i as int),
                    loader@,
                    gv@,
                    constraint@,
                ) == b as int,
                None => best_version_index(
                    views.subrange(0, i as int),
                    loader@,
                    gv@,
                    constraint@,
                ) == -1,
            },
        decreases n - i,
    {
        let eligible = context_matches_exec(&vs[i], loader, gv) && (is_wild || str_eq(
            vs[i].version_number.as_str(),
            constraint,
        ));
        proof {
            assert(views[i as int] == vs@[i as int]@);
            assert(views.subrange(0, i + 1).drop_last() =~= views.subrange(0, i as int));
            assert(views.subrange(0, i + 1).last() == views[i as int]);
            if let Some(b) = best {
                lemma_best_version_index_range(
                    views.subrange(0, i as int),
                    loader@,
                    gv@,
                    constraint@,
                );
                assert(views.subrange(0, i as int)[b as int] == views[b as int]);
            }
        }
        let take = if eligible {
            match best {
                Some(b) => lex_le_exec(vs[b].date_published.as_str(), vs[i].date_published.as_str()),
                None => true,
            }
        } else {
            false
        };
        if take {
            best = Some(i);
        }
        proof {
            assert(views.subrange(0, i + 1)[i as int] == views[i as int]);
        }
        i = i + 1;
    }
    proof {
        assert(views.subrange(0, n as int) =~= views);
    }
    best
}

/// What a dependency reference resolves to: the referenced project's slug
/// becomes the name, the chosen version's number the constraint, and the
/// caller's overrides carry over. Catalog misses, an unanswered reference
/// and an unusable slug all fail.
pub open spec fn spec_dep_mod_meta(
    catalog: Map<Seq<char>, CatalogProjectV>,
    dep: CatalogDepV,
    loader_o: Option<ModLoader>,
    gv_o: Option<Seq<char>>,
    loader_q: Seq<char>,
    gv_q: Seq<char>,
) -> Option<ModMetaV> {
    if !catalog.dom().contains(dep.project_id) {
        None
    } else {
        let project = catalog[dep.project_id];
        let b = best_dep_index(project.versions, loader_q, gv_q, dep.version_id);
        if b == -1 {
            None
        } else {
            match spec_parse_mod_name(project.slug) {
                None => None,
                Some(nv) => Some(
                    ModMetaV {
                        name: nv.0,
                        version: project.versions[b].version_number,
                        providers: Some(seq![ModProvider::Modrinth]),
                        mc_version: gv_o,
                        loader: loader_o,
                        download_url: None,
                        server_side: None,
                        client_side: None,
                    },
                ),
            }
        }
    }
}

/// Whether `acc` already holds a spec with this name and constraint.
pub open spec fn deps_contains(acc: Seq<ModMetaV>, mm: ModMetaV) -> bool {
    exists|i: int|
        0 <= i < acc.len() && (#[trigger] acc[i]).name == mm.name && acc[i].version == mm.version
}

/// Resolve the required dependency references in order, deduplicating by
/// name and constraint; any failing reference fails the whole resolution.
pub open spec fn spec_required_deps(
    catalog: Map<Seq<char>, CatalogProjectV>,
    deps: Seq<CatalogDepV>,
    loader_o: Option<ModLoader>,
    gv_o: Option<Seq<char>>,
    loader_q: Seq<char>,
    gv_q: Seq<char>,
    acc: Seq<ModMetaV>,
) -> Option<Seq<ModMetaV>>
    decreases deps.len(),
{
    if deps.len() == 0 {
        Some(acc)
    } else {
        let d = deps[0];
        let rest = deps.subrange(1, deps.len() as int);
        if d.dependency_type != "required"@ {
            spec_required_deps(catalog, rest, loader_o, gv_o, loader_q, gv_q, acc)
        } else {
            match spec_dep_mod_meta(catalog, d, loader_o, gv_o, loader_q, gv_q) {
                None => None,
                Some(mm) => if deps_contains(acc, mm) {
                    spec_required_deps(catalog, rest, loader_o, gv_o, loader_q, gv_q, acc)
                } else {
                    spec_required_deps(catalog, rest, loader_o, gv_o, loader_q, gv_q, acc.push(mm))
                },
            }
        }
    }
}

/// What resolving a spec against the catalog yields: the newest version
/// serving the effective loader and game version and satisfying the
/// constraint, its files as download sources, its required dependencies
/// resolved, and the project's side support.
pub open spec fn spec_resolve_catalog(
    catalog: Map<Seq<char>, CatalogProjectV>,
    m: ModMetaV,
    pack: ModpackMetaV,
) -> Option<PinnedModV> {
    let loader_q = effective_loader(m, pack);
    let gv_q = effective_game_version(m, pack);
    if !catalog.dom().contains(m.name) {
        None
    } else {
        let project = catalog[m.name];
        let b = best_version_index(project.versions, loader_q, gv_q, m.version);
        if b == -1 {
            None
        } else {
            let pkg = project.versions[b];
            let deps_resolved = match pkg.dependencies {
                Some(ds) => spec_required_deps(
                    catalog,
                    ds,
                    m.loader,
                    m.mc_version,
                    loader_q,
                    gv_q,
                    Seq::empty(),
                ),
                None => Some(Seq::empty()),
            };
            match deps_resolved {
                None => None,
                Some(dm) => Some(
                    PinnedModV {
                        source: pkg.files.map_values(
                            |f: CatalogFileV| FileSourceV::Download {
                                url: f.url,
                                sha1: f.sha1,
                                sha512: f.sha512,
                                filename: f.filename,
                            },
                        ),
                        version: pkg.version_number,
                        deps: if pkg.dependencies is Some && pkg.dependencies->0.len() > 0 {
                            Some(dm)
                        } else {
                            None
                        },
                        server_side: project.server_side != "unsupported"@,
                        client_side: project.client_side != "unsupported"@,
                    },
                ),
            }
        }
    }
}

/// Resolve one dependency reference, matching `spec_dep_mod_meta`.
fn dep_mod_meta_exec(
    catalog: &Catalog,
    dep: &CatalogDep,
    loader_o: &Option<ModLoader>,
    gv_o: &Option<String>,
    loader_q: &str,
    gv_q: &str,
) -> (r: Option<ModMeta>)
    requires
        catalog.wf(),
    ensures
        (match r {
            Some(mm) => spec_dep_mod_meta(
                catalog@,
                dep@,
                *loader_o,
                crate::mod_meta::opt_string_view(gv_o),
                loader_q@,
                gv_q@,
            ) == Some(mm@),
            None => spec_dep_mod_meta(
                catalog@,
                dep@,
                *loader_o,
                crate::mod_meta::opt_string_view(gv_o),
                loader_q@,
                gv_q@,
            ) is None,
        }),
{
    match catalog.get(dep.project_id.as_str()) {
        None => None,
        Some(project) => {
            match best_dep_exec(&project.versions, loader_q, gv_q, &dep.version_id) {
                None => None,
                Some(b) => {
                    proof {
                        assert(project@.versions[b as int] == project.versions@[b as int]@);
                    }
                    match ModMeta::new(project.slug.as_str()) {
                        Err(_) => None,
                        Ok(base) => {
                            let mut providers: Vec<ModProvider> = Vec::new();
                            providers.push(ModProvider::Modrinth);
                            proof {
                                assert(providers@ =~= seq![ModProvider::Modrinth]);
                            }
                            Some(
                                ModMeta {
                                    name: base.name,
                                    version: project.versions[b].version_number.clone(),
                                    providers: Some(providers),
                                    mc_version: crate::mod_meta::clone_opt_string(gv_o),
                                    loader: *loader_o,
                                    download_url: None,
                                    server_side: None,
                                    client_side: None,
                                },
                            )
                        },
                    }
                },
            }
        },
    }
}

/// Resolve the required dependency references, matching
/// `spec_required_deps`.
fn required_deps_exec(
    catalog: &Catalog,
    deps: &Vec<CatalogDep>,
    loader_o: &Option<ModLoader>,
    gv_o: &Option<String>,
    loader_q: &str,
    gv_q: &str,
) -> (r: Option<Vec<ModMeta>>)
    requires
        catalog.wf(),
    ensures
        (match r {
            Some(v) => spec_required_deps(
                catalog@,
                deps@.map_values(|d: CatalogDep| d@),
                *loader_o,
                crate::mod_meta::opt_string_view(gv_o),
                loader_q@,
                gv_q@,
                Seq::empty(),
            ) == Some(crate::providers::mod_metas_view(v@)),
            None => spec_required_deps(
                catalog@,
                deps@.map_values(|d: CatalogDep| d@),
                *loader_o,
                crate::mod_meta::opt_string_view(gv_o),
                loader_q@,
                gv_q@,
                Seq::empty(),
            ) is None,
        }),
{
    let ghost dviews = deps@.map_values(|d: CatalogDep| d@);
    let ghost lo = *loader_o;
    let ghost go = crate::mod_meta::opt_string_view(gv_o);
    let n = deps.len();
    let mut acc: Vec<ModMeta> = Vec::new();
    let mut i: usize = 0;
    proof {
        assert(dviews.subrange(0, dviews.len() as int) =~= dviews);
        assert(crate::providers::mod_metas_view(acc@) =~= Seq::<ModMetaV>::empty());
    }
    while i < n
        invariant
            catalog.wf(),
            n == deps@.len(),
            dviews == deps@.map_values(|d: CatalogDep| d@),
            lo == *loader_o,
            go == crate::mod_meta::opt_string_view(gv_o),
            i <= n,
            spec_required_deps(
                catalog@,
                dviews.subrange(i as int, dviews.len() as int),
                lo,
                go,
                loader_q@,
                gv_q@,
                crate::providers::mod_metas_view(acc@),
            ) == spec_required_deps(
                catalog@,
                dviews,
                lo,
                go,
                loader_q@,
                gv_q@,
                Seq::empty(),
            ),
        decreases n - i,
    {
        let ghost tail = dviews.subrange(i as int, dviews.len() as int);
        proof {
            assert(tail[0] == dviews[i as int]);
            assert(dviews[i as int] == deps@[i as int]@);
            assert(tail.subrange(1, tail.len() as int) =~= dviews.subrange(
                i + 1,
                dviews.len() as int,
            ));
        }
        if str_eq(deps[i].dependency_type.as_str(), "required") {
            match dep_mod_meta_exec(catalog, &deps[i], loader_o, gv_o, loader_q, gv_q) {
                None => {
                    return None;
                },
                Some(mm) => {
                    let ghost accv = crate::providers::mod_metas_view(acc@);
                    let mut dup = false;
                    let an = acc.len();
                    let mut j: usize = 0;
                    while j < an
                        invariant
                            an == acc@.len(),
                            accv == crate::providers::mod_metas_view(acc@),
                            j <= an,
                            dup ==> deps_contains(accv, mm@),
                            !dup ==> (forall|l: int|
                                0 <= l < j ==> !((#[trigger] accv[l]).name == mm@.name
                                    && accv[l].version == mm@.version)),
                        decreases an - j,
                    {
                        proof {
                            assert(accv[j as int] == acc@[j as int]@);
                        }
                        if str_eq(acc[j].name.as_str(), mm.name.as_str()) && str_eq(
                            acc[j].version.as_str(),
                            mm.version.as_str(),
                        ) {
                            dup = true;
                        }
                        j = j + 1;
                    }
                    proof {
                        if !dup && deps_contains(accv, mm@) {
                            let l = choose|l: int|
                                0 <= l < accv.len() && (#[trigger] accv[l]).name == mm@.name
                                    && accv[l].version == mm@.version;
                            assert(false);
                        }
                    }
                    let ghost mmv = mm@;
                    if !dup {
                        acc.push(mm);
                        proof {
                            assert(crate::providers::mod_metas_view(acc@) =~= accv.push(mmv));
                        }
                    }
                },
            }
        }
        i = i + 1;
    }
    proof {
        assert(dviews.subrange(n as int, dviews.len() as int) =~= Seq::<CatalogDepV>::empty());
    }
    Some(acc)
}

/// Find the newest version answering a dependency reference, matching
/// `best_dep_index`.
fn best_dep_exec<'a>(
    vs: &'a Vec<CatalogVersion>,
    loader: &str,
    gv: &str,
    version_id: &Option<String>,
) -> (r: Option<usize>)
    ensures
        match r {
            Some(i) => i < vs@.len() && best_dep_index(
                vs@.map_values(|v: CatalogVersion| v@),
                loader@,
                gv@,
                match version_id {
                    Some(id) => Some(id@),
                    None => None,
                },
            ) == i as int,
            None => best_dep_index(
                vs@.map_values(|v: CatalogVersion| v@),
                loader@,
                gv@,
                match version_id {
                    Some(id) => Some(id@),
                    None => None,
                },
            ) == -1,
        },
{
    let ghost views = vs@.map_values(|v: CatalogVersion| v@);
    let ghost vid: Option<Seq<char>> = match version_id {
        Some(id) => Some(id@),
        None => None,
    };
    let n = vs.len();
    let mut best: Option<usize> = None;
    let mut i: usize = 0;
    while i < n
        invariant
            n == vs@.len(),
            views == vs@.map_values(|v: CatalogVersion| v@),
            vid == (match version_id {
                Some(id) => Some(id@),
                None => None::<Seq<char>>,
            }),
            i <= n,
            match best {
                Some(b) => b < i && best_dep_index(
                    views.subrange(0, i as int),
                    loader@,
                    gv@,
                    vid,
                ) == b as int,
                None => best_dep_index(views.subrange(0, i as int), loader@, gv@, vid) == -1,
            },
        decreases n - i,
    {
        let id_ok = match version_id {
            Some(id) => str_eq(vs[i].id.as_str(), id.as_str()),
            None => true,
        };
        let eligible = context_matches_exec(&vs[i], loader, gv) && id_ok;
        proof {
            assert(views[i as int] == vs@[i as int]@);
            assert(views.subrange(0, i + 1).drop_last() =~= views.subrange(0, i as int));
            assert(views.subrange(0, i + 1).last() == views[i as int]);
            if let Some(b) = best {
                lemma_best_dep_index_range(views.subrange(0, i as int), loader@, gv@, vid);
                assert(views.subrange(0, i as int)[b as int] == views[b as int]);
            }
        }
        let take = if eligible {
            match best {
                Some(b) => lex_le_exec(vs[b].date_published.as_str(), vs[i].date_published.as_str()),
                None => true,
            }
        } else {
            false
        };
        if take {
            best = Some(i);
        }
        proof {
            assert(views.subrange(0, i + 1)[i as int] == views[i as int]);
        }
        i = i + 1;
    }
    proof {
        assert(views.subrange(0, n as int) =~= views);
    }
    best
}


/// Resolve a spec against the catalog, matching `spec_resolve_catalog`.
pub fn resolve_catalog(catalog: &Catalog, m: &ModMeta, pack: &ModpackMeta) -> (r: Option<
    PinnedMod,
>)
    requires
        catalog.wf(),
    ensures
        (match r {
            Some(pm) => spec_resolve_catalog(catalog@, m@, pack@) == Some(pm@),
            None => spec_resolve_catalog(catalog@, m@, pack@) is None,
        }),
{
    let loader_q: String = match &m.loader {
        Some(l) => loader_query_exec(*l),
        None => loader_query_exec(pack.modloader),
    };
    let gv_q: String = match &m.mc_version {
        Some(v) => v.clone(),
        None => pack.mc_version.clone(),
    };
    proof {
        assert(loader_q@ == effective_loader(m@, pack@));
        assert(gv_q@ == effective_game_version(m@, pack@));
    }
    match catalog.get(m.name.as_str()) {
        None => None,
        Some(project) => {
            match best_version_exec(
                &project.versions,
                loader_q.as_str(),
                gv_q.as_str(),
                m.version.as_str(),
            ) {
                None => None,
                Some(b) => {
                    proof {
                        assert(project@.versions[b as int] == project.versions@[b as int]@);
                    }
                    let pkg = &project.versions[b];
                    let deps_vec: Option<Vec<ModMeta>> = match &pkg.dependencies {
                        Some(ds) => {
                            match required_deps_exec(
                                catalog,
                                ds,
                                &m.loader,
                                &m.mc_version,
                                loader_q.as_str(),
                                gv_q.as_str(),
                            ) {
                                Some(v) => Some(v),
                                None => {
                                    return None;
                                },
                            }
                        },
                        None => Some(Vec::new()),
                    };
                    let source = catalog_sources(&pkg.files);
                    let has_deps = match &pkg.dependencies {
                        Some(ds) => ds.len() > 0,
                        None => false,
                    };
                    let deps_vec = match deps_vec {
                        Some(v) => v,
                        None => Vec::new(),
                    };
                    proof {
                        if !has_deps {
                            assert(crate::providers::mod_metas_view(Seq::<ModMeta>::empty())
                                =~= Seq::<ModMetaV>::empty());
                        }
                    }
                    Some(
                        PinnedMod {
                            source,
                            version: pkg.version_number.clone(),
                            deps: if has_deps {
                                Some(deps_vec)
                            } else {
                                None
                            },
                            server_side: !str_eq(project.server_side.as_str(), "unsupported"),
                            client_side: !str_eq(project.client_side.as_str(), "unsupported"),
                        },
                    )
                },
            }
        },
    }
}

/// Turn catalog files into download sources, in order.
fn catalog_sources(files: &Vec<CatalogFile>) -> (r: Vec<FileSource>)
    ensures
        crate::providers::sources_view(r@) == files@.map_values(|f: CatalogFile| f@).map_values(
            |f: CatalogFileV| FileSourceV::Download {
                url: f.url,
                sha1: f.sha1,
                sha512: f.sha512,
                filename: f.filename,
            },
        ),
{
    let ghost target = files@.map_values(|f: CatalogFile| f@).map_values(
        |f: CatalogFileV| FileSourceV::Download {
            url: f.url,
            sha1: f.sha1,
            sha512: f.sha512,
            filename: f.filename,
        },
    );
    let n = files.len();
    let mut out: Vec<FileSource> = Vec::new();
    let mut i: usize = 0;
    while i < n
        invariant
            n == files@.len(),
            target == files@.map_values(|f: CatalogFile| f@).map_values(
                |f: CatalogFileV| FileSourceV::Download {
                    url: f.url,
                    sha1: f.sha1,
                    sha512: f.sha512,
                    filename: f.filename,
                },
            ),
            i <= n,
            out@.len() == i,
            crate::providers::sources_view(out@) =~= target.subrange(0, i as int),
        decreases n - i,
    {
        let f = &files[i];
        out.push(
            FileSource::Download {
                url: f.url.clone(),
                sha1: f.sha1.clone(),
                sha512: f.sha512.clone(),
                filename: f.filename.clone(),
            },
        );
        proof {
            assert(target[i as int] == (FileSourceV::Download {
                url: files@[i as int]@.url,
                sha1: files@[i as int]@.sha1,
                sha512: files@[i as int]@.sha512,
                filename: files@[i as int]@.filename,
            }));
            assert(crate::providers::sources_view(out@) =~= target.subrange(0, i + 1));
        }
        i = i + 1;
    }
    proof {
        assert(target.subrange(0, n as int) =~= target);
    }
    out
}

} // verus!
