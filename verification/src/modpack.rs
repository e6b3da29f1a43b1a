//! The pack manifest: the user-declared desired state of a modpack.

use vstd::prelude::*;

use crate::errors::Error;
use crate::file_meta::FileMeta;
use crate::file_meta::FileMetaV;
use crate::mod_meta::push_provider_if_absent;
use crate::mod_meta::ModMeta;
use crate::mod_meta::ModMetaV;
use crate::mod_meta::ModProvider;
use crate::providers::mod_metas_view;
use crate::strmap::has_key;
use crate::strmap::keys_of;
use crate::strmap::lemma_map_of_dom;
use crate::strmap::vals_of;
use crate::strmap::StrMap;
use crate::strmap::StrSet;
use crate::text::str_eq;

verus! {

/// The loader a pack runs on.
#[derive(Debug, Clone, Copy, PartialEq, Eq, Structural)]
pub enum ModLoader {
    Forge,
    Fabric,
}

impl ModLoader {
    /// Parse a loader name; exactly "Fabric" and "Forge" are recognized.
    pub fn parse(s: &str) -> (r: Result<ModLoader, Error>)
        ensures
            r is Ok <==> (s@ == "Fabric"@ || s@ == "Forge"@),
            r is Ok ==> r->Ok_0 == (if s@ == "Fabric"@ {
                ModLoader::Fabric
            } else {
                ModLoader::Forge
            }),
            r is Err ==> (r->Err_0 matches Error::InvalidLoader { text } && text@ == s@),
    {
        if str_eq(s, "Fabric") {
            Ok(ModLoader::Fabric)
        } else if str_eq(s, "Forge") {
            Ok(ModLoader::Forge)
        } else {
            Err(Error::InvalidLoader { text: s.to_owned() })
        }
    }

    /// The display name of the loader.
    pub fn label(self) -> (r: String)
        ensures
            self == ModLoader::Forge ==> r@ == "Forge"@,
            self == ModLoader::Fabric ==> r@ == "Fabric"@,
    {
        match self {
            ModLoader::Forge => {
                let s: &str = "Forge";
                s.to_owned()
            },
            ModLoader::Fabric => {
                let s: &str = "Fabric";
                s.to_owned()
            },
        }
    }
}

/// The mathematical content of a `ModpackMeta`.
pub ghost struct ModpackMetaV {
    pub pack_name: Seq<char>,
    pub mc_version: Seq<char>,
    pub modloader: ModLoader,
    pub mods: Map<Seq<char>, ModMetaV>,
    pub files: Option<Map<Seq<char>, FileMetaV>>,
    pub default_providers: Seq<ModProvider>,
    pub forbidden_mods: Set<Seq<char>>,
}

/// The pack manifest: desired mods, bundled files, default providers and
/// forbidden names. A forbidden name never appears among the desired mods.
#[derive(Debug)]
pub struct ModpackMeta {
    /// The name of the modpack.
    pub pack_name: String,
    /// The intended game version on which this pack should run.
    pub mc_version: String,
    /// The default modloader for the modpack.
    pub modloader: ModLoader,
    /// Map of mod name to mod metadata.
    pub mods: StrMap<ModMeta>,
    /// Mapping of relative paths to files to copy over from the modpack.
    pub files: Option<StrMap<FileMeta>>,
    /// Default providers for newly added mods in the modpack.
    pub default_providers: Vec<ModProvider>,
    /// A set of forbidden mods in the modpack.
    pub forbidden_mods: StrSet,
}

impl View for ModpackMeta {
    type V = ModpackMetaV;

    open spec fn view(&self) -> ModpackMetaV {
        ModpackMetaV {
            pack_name: self.pack_name@,
            mc_version: self.mc_version@,
            modloader: self.modloader,
            mods: self.mods@,
            files: match self.files {
                Some(f) => Some(f@),
                None => None,
            },
            default_providers: self.default_providers@,
            forbidden_mods: self.forbidden_mods@,
        }
    }
}

impl ModpackMeta {
    /// Maps are well formed and no forbidden name is a desired mod.
    pub open spec fn wf(&self) -> bool {
        &&& self.mods.wf()
        &&& match self.files {
            Some(f) => f.wf(),
            None => true,
        }
        &&& self.forbidden_mods.wf()
        &&& forall|k: Seq<char>|
            self.forbidden_mods@.contains(k) ==> !self.mods@.dom().contains(k)
        &&& forall|k: Seq<char>|
            #[trigger] self.mods@.dom().contains(k) ==> self.mods@[k].name == k
    }

    /// A fresh manifest: no mods, no files, no forbidden names, and the
    /// catalog provider as the default.
    pub fn new(pack_name: &str, mc_version: &str, modloader: ModLoader) -> (r: Self)
        ensures
            r.wf(),
            r@ == (ModpackMetaV {
                pack_name: pack_name@,
                mc_version: mc_version@,
                modloader: modloader,
                mods: Map::<Seq<char>, ModMetaV>::empty(),
                files: None,
                default_providers: seq![ModProvider::Modrinth],
                forbidden_mods: Set::<Seq<char>>::empty(),
            }),
            r.mods.eview().len() == 0,
    {
        let mut default_providers: Vec<ModProvider> = Vec::new();
        default_providers.push(ModProvider::Modrinth);
        proof {
            assert(default_providers@ =~= seq![ModProvider::Modrinth]);
        }
        ModpackMeta {
            pack_name: pack_name.to_owned(),
            mc_version: mc_version.to_owned(),
            modloader,
            mods: StrMap::new(),
            files: None,
            default_providers,
            forbidden_mods: StrSet::new(),
        }
    }

    /// The desired mods, in the order their names entered the manifest: a
    /// deliberate choice of insertion order, so a manifest read from disk
    /// is walked in its stored order and mods added in a session follow.
    pub fn iter_mods(&self) -> (r: Vec<ModMeta>)
        ensures
            mod_metas_view(r@) == vals_of(self.mods.eview()),
    {
        let n = self.mods.entry_count();
        let mut out: Vec<ModMeta> = Vec::new();
        let mut i: usize = 0;
        while i < n
            invariant
                n == self.mods.eview().len(),
                i <= n,
                out@.len() == i,
                mod_metas_view(out@) =~= vals_of(self.mods.eview()).subrange(0, i as int),
            decreases n - i,
        {
            out.push(self.mods.val_at(i).clone());
            proof {
                assert(mod_metas_view(out@) =~= vals_of(self.mods.eview()).subrange(0, i + 1));
            }
            i = i + 1;
        }
        proof {
            assert(vals_of(self.mods.eview()).subrange(0, n as int) =~= vals_of(
                self.mods.eview(),
            ));
        }
        out
    }

    /// Append a default provider, if it is not there yet.
    pub fn provider(self, provider: ModProvider) -> (r: Self)
        requires
            self.wf(),
        ensures
            r.wf(),
            r@ == (ModpackMetaV {
                default_providers: if self@.default_providers.contains(provider) {
                    self@.default_providers
                } else {
                    self@.default_providers.push(provider)
                },
                ..self@
            }),
    {
        let ModpackMeta {
            pack_name,
            mc_version,
            modloader,
            mods,
            files,
            default_providers,
            forbidden_mods,
        } = self;
        ModpackMeta {
            pack_name,
            mc_version,
            modloader,
            mods,
            files,
            default_providers: push_provider_if_absent(default_providers, provider),
            forbidden_mods,
        }
    }

    /// Add a desired mod, keyed by its name; a forbidden name is rejected.
    pub fn add_mod(self, mod_meta: &ModMeta) -> (r: Result<Self, Error>)
        requires
            self.wf(),
        ensures
            self@.forbidden_mods.contains(mod_meta@.name) ==> (r is Err && (r->Err_0
                matches Error::ForbiddenMod { name } && name@ == mod_meta@.name)),
            !self@.forbidden_mods.contains(mod_meta@.name) ==> (r is Ok && r->Ok_0.wf()
                && r->Ok_0@ == (ModpackMetaV {
                mods: self@.mods.insert(mod_meta@.name, mod_meta@),
                ..self@
            })),
    {
        if self.forbidden_mods.contains(mod_meta.name.as_str()) {
            Err(Error::ForbiddenMod { name: mod_meta.name.clone() })
        } else {
            let ModpackMeta {
                pack_name,
                mc_version,
                modloader,
                mut mods,
                files,
                default_providers,
                forbidden_mods,
            } = self;
            mods.insert(mod_meta.name.as_str(), mod_meta.clone());
            Ok(
                ModpackMeta {
                    pack_name,
                    mc_version,
                    modloader,
                    mods,
                    files,
                    default_providers,
                    forbidden_mods,
                },
            )
        }
    }

    /// Drop a desired mod by name; an absent name is a no-op.
    pub fn remove_mod(self, mod_name: &str) -> (r: Self)
        requires
            self.wf(),
        ensures
            r.wf(),
            r@ == (ModpackMetaV { mods: self@.mods.remove(mod_name@), ..self@ }),
    {
        let ModpackMeta {
            pack_name,
            mc_version,
            modloader,
            mut mods,
            files,
            default_providers,
            forbidden_mods,
        } = self;
        mods.remove(mod_name);
        ModpackMeta {
            pack_name,
            mc_version,
            modloader,
            mods,
            files,
            default_providers,
            forbidden_mods,
        }
    }

    /// Forbid a name. The name leaves the desired mods as well, so that a
    /// forbidden name never stays desired.
    pub fn forbid_mod(&mut self, mod_name: &str)
        requires
            old(self).wf(),
        ensures
            final(self).wf(),
            final(self)@ == (ModpackMetaV {
                mods: old(self)@.mods.remove(mod_name@),
                forbidden_mods: old(self)@.forbidden_mods.insert(mod_name@),
                ..old(self)@
            }),
    {
        self.mods.remove(mod_name);
        self.forbidden_mods.insert(mod_name);
    }
}

impl Default for ModpackMeta {
    /// The placeholder manifest that project initialization starts from.
    fn default() -> (r: Self)
        ensures
            r.wf(),
            r@ == (ModpackMetaV {
                pack_name: "my_modpack"@,
                mc_version: "1.20.1"@,
                modloader: ModLoader::Forge,
                mods: Map::<Seq<char>, ModMetaV>::empty(),
                files: None,
                default_providers: seq![ModProvider::Modrinth],
                forbidden_mods: Set::<Seq<char>>::empty(),
            }),
    {
        ModpackMeta::new("my_modpack", "1.20.1", ModLoader::Forge)
    }
}

/// Clone a map of mod specs; with unique keys the view and order carry
/// over.
pub fn clone_mod_map(m: &StrMap<ModMeta>) -> (r: StrMap<ModMeta>)
    ensures
        r.wf(),
        m.wf() ==> r@ == m@ && r.eview() == m.eview(),
{
    let n = m.entry_count();
    let mut out: StrMap<ModMeta> = StrMap::new();
    let mut i: usize = 0;
    while i < n
        invariant
            n == m.eview().len(),
            i <= n,
            out.wf(),
            m.wf() ==> out.eview() =~= m.eview().subrange(0, i as int),
        decreases n - i,
    {
        let k = m.key_at(i);
        let v = m.val_at(i);
        proof {
            if m.wf() {
                lemma_map_of_dom(out.eview());
                if out@.dom().contains(k@) {
                    assert(has_key(out.eview(), k@));
                    let j = choose|j: int|
                        0 <= j < out.eview().len() && keys_of(out.eview())[j] == k@;
                    assert(keys_of(m.eview())[j] == keys_of(m.eview())[i as int]);
                }
            }
        }
        out.insert(k.as_str(), v.clone());
        proof {
            if m.wf() {
                assert(out.eview() =~= m.eview().subrange(0, i + 1));
            }
        }
        i = i + 1;
    }
    proof {
        assert(m.eview().subrange(0, n as int) =~= m.eview());
    }
    out
}

/// Clone a map of bundled files; with unique keys the view and order carry
/// over.
pub fn clone_file_map(m: &StrMap<FileMeta>) -> (r: StrMap<FileMeta>)
    ensures
        r.wf(),
        m.wf() ==> r@ == m@ && r.eview() == m.eview(),
{
    let n = m.entry_count();
    let mut out: StrMap<FileMeta> = StrMap::new();
    let mut i: usize = 0;
    while i < n
        invariant
            n == m.eview().len(),
            i <= n,
            out.wf(),
            m.wf() ==> out.eview() =~= m.eview().subrange(0, i as int),
        decreases n - i,
    {
        let k = m.key_at(i);
        let v = m.val_at(i);
        proof {
            if m.wf() {
                lemma_map_of_dom(out.eview());
                if out@.dom().contains(k@) {
                    assert(has_key(out.eview(), k@));
                    let j = choose|j: int|
                        0 <= j < out.eview().len() && keys_of(out.eview())[j] == k@;
                    assert(keys_of(m.eview())[j] == keys_of(m.eview())[i as int]);
                }
            }
        }
        out.insert(k.as_str(), v.clone());
        proof {
            if m.wf() {
                assert(out.eview() =~= m.eview().subrange(0, i + 1));
            }
        }
        i = i + 1;
    }
    proof {
        assert(m.eview().subrange(0, n as int) =~= m.eview());
    }
    out
}

/// Clone a set of strings, keeping its view and order.
pub fn clone_str_set(s: &StrSet) -> (r: StrSet)
    ensures
        r@ == s@,
        r.items@.map_values(|x: String| x@) == s.items@.map_values(|x: String| x@),
        s.wf() ==> r.wf(),
{
    let n = s.len();
    let mut items: Vec<String> = Vec::new();
    let mut i: usize = 0;
    while i < n
        invariant
            n == s.items@.len(),
            i <= n,
            items@.len() == i,
            items@.map_values(|x: String| x@) =~= s.items@.map_values(|x: String| x@).subrange(
                0,
                i as int,
            ),
            forall|j: int| 0 <= j < i ==> items@[j]@ == s.items@[j]@,
        decreases n - i,
    {
        items.push(s.item_at(i).clone());
        proof {
            assert(items@.map_values(|x: String| x@) =~= s.items@.map_values(
                |x: String| x@,
            ).subrange(0, i + 1));
        }
        i = i + 1;
    }
    let r = StrSet { items };
    proof {
        assert(s.items@.map_values(|x: String| x@).subrange(0, n as int) =~= s.items@.map_values(
            |x: String| x@,
        ));
        lemma_set_views_equal(r.items@, s.items@);
    }
    r
}

/// Two string sequences with equal views denote the same set.
proof fn lemma_set_views_equal(a: Seq<String>, b: Seq<String>)
    requires
        crate::strmap::item_views(a) == crate::strmap::item_views(b),
    ensures
        crate::strmap::set_of(a) == crate::strmap::set_of(b),
{
    crate::strmap::lemma_set_of_contains(a);
    crate::strmap::lemma_set_of_contains(b);
    assert(a.len() == b.len()) by {
        assert(crate::strmap::item_views(a).len() == a.len());
        assert(crate::strmap::item_views(b).len() == b.len());
    }
    assert forall|k: Seq<char>|
        crate::strmap::set_of(a).contains(k) implies crate::strmap::set_of(b).contains(k) by {
        assert(crate::strmap::has_item(a, k));
        let i = choose|i: int| 0 <= i < a.len() && crate::strmap::item_views(a)[i] == k;
        assert(crate::strmap::item_views(b)[i] == k);
        assert(crate::strmap::has_item(b, k));
    }
    assert forall|k: Seq<char>|
        crate::strmap::set_of(b).contains(k) implies crate::strmap::set_of(a).contains(k) by {
        assert(crate::strmap::has_item(b, k));
        let i = choose|i: int| 0 <= i < b.len() && crate::strmap::item_views(b)[i] == k;
        assert(crate::strmap::item_views(a)[i] == k);
        assert(crate::strmap::has_item(a, k));
    }
    assert(crate::strmap::set_of(a) =~= crate::strmap::set_of(b));
}

impl Clone for ModpackMeta {
    fn clone(&self) -> (res: Self)
        ensures
            self.wf() ==> res@ == self@ && res.wf(),
    {
        ModpackMeta {
            pack_name: self.pack_name.clone(),
            mc_version: self.mc_version.clone(),
            modloader: self.modloader,
            mods: clone_mod_map(&self.mods),
            files: match &self.files {
                Some(f) => Some(clone_file_map(f)),
                None => None,
            },
            default_providers: push_providers_copy(&self.default_providers),
            forbidden_mods: clone_str_set(&self.forbidden_mods),
        }
    }
}

/// Copy a provider list.
pub fn push_providers_copy(ps: &Vec<ModProvider>) -> (r: Vec<ModProvider>)
    ensures
        r@ == ps@,
{
    let n = ps.len();
    let mut out: Vec<ModProvider> = Vec::new();
    let mut i: usize = 0;
    while i < n
        invariant
            n == ps@.len(),
            i <= n,
            out@ =~= ps@.subrange(0, i as int),
        decreases n - i,
    {
        out.push(ps[i]);
        proof {
            assert(out@ =~= ps@.subrange(0, i + 1));
        }
        i = i + 1;
    }
    proof {
        assert(ps@.subrange(0, n as int) =~= ps@);
    }
    out
}


impl ModpackMeta {
    /// Record a bundled file under its normalized pack-relative path,
    /// creating the file table on first use.
    pub fn record_file(self, relative_path: &str, file_meta: &FileMeta) -> (r: Self)
        requires
            self.wf(),
        ensures
            r.wf(),
            r@ == (ModpackMetaV {
                files: Some(
                    (match self@.files {
                        Some(f) => f,
                        None => Map::<Seq<char>, FileMetaV>::empty(),
                    }).insert(relative_path@, file_meta@),
                ),
                ..self@
            }),
    {
        let ModpackMeta {
            pack_name,
            mc_version,
            modloader,
            mods,
            files,
            default_providers,
            forbidden_mods,
        } = self;
        let new_files = match files {
            Some(mut f) => {
                f.insert(relative_path, file_meta.clone());
                Some(f)
            },
            None => {
                let mut f: StrMap<FileMeta> = StrMap::new();
                f.insert(relative_path, file_meta.clone());
                Some(f)
            },
        };
        ModpackMeta {
            pack_name,
            mc_version,
            modloader,
            mods,
            files: new_files,
            default_providers,
            forbidden_mods,
        }
    }

    /// Drop a bundled file by its pack-relative path; an absent path or an
    /// absent file table is a no-op.
    pub fn drop_file(self, relative_path: &str) -> (r: Self)
        requires
            self.wf(),
        ensures
            r.wf(),
            r@ == (ModpackMetaV {
                files: match self@.files {
                    Some(f) => Some(f.remove(relative_path@)),
                    None => None,
                },
                ..self@
            }),
    {
        let ModpackMeta {
            pack_name,
            mc_version,
            modloader,
            mods,
            files,
            default_providers,
            forbidden_mods,
        } = self;
        let new_files = match files {
            Some(mut f) => {
                f.remove(relative_path);
                Some(f)
            },
            None => None,
        };
        ModpackMeta {
            pack_name,
            mc_version,
            modloader,
            mods,
            files: new_files,
            default_providers,
            forbidden_mods,
        }
    }
}


} // verus!
