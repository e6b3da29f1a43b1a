//! Mod specifications: a name, a version constraint, and optional overrides
//! for providers, loader, game version, download URL and sides.

use vstd::prelude::*;

use crate::errors::Error;
use crate::modpack::ModLoader;
use crate::text::lower;
use crate::text::lower_exec;
use crate::text::str_eq;

verus! {

/// A source that can resolve a mod spec into a concrete artifact.
#[derive(Debug, Clone, Copy, PartialEq, Eq, Structural)]
pub enum ModProvider {
    /// Not built: reaching it fails with `Error::NotImplemented`.
    CurseForge,
    /// The catalog-backed provider.
    Modrinth,
    /// The direct-URL provider; a download URL is required.
    Raw,
}

impl ModProvider {
    /// Parse a provider name, ignoring ASCII case. Exactly "curseforge",
    /// "modrinth" and "raw" are recognized.
    pub fn parse(s: &str) -> (r: Result<ModProvider, Error>)
        ensures
            r is Ok <==> (lower(s@) == "curseforge"@ || lower(s@) == "modrinth"@ || lower(s@)
                == "raw"@),
            r is Ok ==> r->Ok_0 == (if lower(s@) == "curseforge"@ {
                ModProvider::CurseForge
            } else if lower(s@) == "modrinth"@ {
                ModProvider::Modrinth
            } else {
                ModProvider::Raw
            }),
            r is Err ==> (r->Err_0 matches Error::InvalidProvider { text } && text@ == s@),
    {
        let folded = lower_exec(s);
        if str_eq(folded.as_str(), "curseforge") {
            Ok(ModProvider::CurseForge)
        } else if str_eq(folded.as_str(), "modrinth") {
            Ok(ModProvider::Modrinth)
        } else if str_eq(folded.as_str(), "raw") {
            Ok(ModProvider::Raw)
        } else {
            Err(Error::InvalidProvider { text: s.to_owned() })
        }
    }
}

/// The mathematical content of a `ModMeta`.
pub ghost struct ModMetaV {
    pub name: Seq<char>,
    pub version: Seq<char>,
    pub providers: Option<Seq<ModProvider>>,
    pub mc_version: Option<Seq<char>>,
    pub loader: Option<ModLoader>,
    pub download_url: Option<Seq<char>>,
    pub server_side: Option<bool>,
    pub client_side: Option<bool>,
}

/// A mod specification. Equality goes by `(name, version)` alone.
#[derive(Debug)]
pub struct ModMeta {
    pub name: String,
    pub version: String,
    pub providers: Option<Vec<ModProvider>>,
    pub mc_version: Option<String>,
    pub loader: Option<ModLoader>,
    pub download_url: Option<String>,
    pub server_side: Option<bool>,
    pub client_side: Option<bool>,
}

impl View for ModMeta {
    type V = ModMetaV;

    open spec fn view(&self) -> ModMetaV {
        ModMetaV {
            name: self.name@,
            version: self.version@,
            providers: match self.providers {
                Some(ps) => Some(ps@),
                None => None,
            },
            mc_version: match self.mc_version {
                Some(v) => Some(v@),
                None => None,
            },
            loader: self.loader,
            download_url: match self.download_url {
                Some(u) => Some(u@),
                None => None,
            },
            server_side: self.server_side,
            client_side: self.client_side,
        }
    }
}

impl PartialEq for ModMeta {
    fn eq(&self, other: &Self) -> (r: bool) {
        self.name == other.name && self.version == other.version
    }
}

impl vstd::std_specs::cmp::PartialEqSpecImpl for ModMeta {
    open spec fn obeys_eq_spec() -> bool {
        true
    }

    open spec fn eq_spec(&self, other: &Self) -> bool {
        self.name@ == other.name@ && self.version@ == other.version@
    }
}

impl Clone for ModMeta {
    fn clone(&self) -> (res: Self)
        ensures
            res@ == self@,
    {
        ModMeta {
            name: self.name.clone(),
            version: self.version.clone(),
            providers: clone_providers(&self.providers),
            mc_version: clone_opt_string(&self.mc_version),
            loader: self.loader,
            download_url: clone_opt_string(&self.download_url),
            server_side: self.server_side,
            client_side: self.client_side,
        }
    }
}

/// Clone an optional provider list, keeping its view.
pub fn clone_providers(v: &Option<Vec<ModProvider>>) -> (r: Option<Vec<ModProvider>>)
    ensures
        match r {
            Some(ps) => v is Some && ps@ == v->0@,
            None => v is None,
        },
{
    match v {
        Some(ps) => {
            let n = ps.len();
            let mut out: Vec<ModProvider> = Vec::new();
            let mut i: usize = 0;
            while i < n
                invariant
                    n == ps@.len(),
                    i <= n,
                    out@ =~= ps@.subrange(0, i as int),
                decreases n - i,
            {
                out.push(ps[i]);
                proof {
                    assert(out@ =~= ps@.subrange(0, i + 1));
                }
                i = i + 1;
            }
            proof {
                assert(ps@.subrange(0, n as int) =~= ps@);
            }
            Some(out)
        },
        None => None,
    }
}

/// The view of an optional string.
pub open spec fn opt_string_view(v: &Option<String>) -> Option<Seq<char>> {
    match v {
        Some(s) => Some(s@),
        None => None,
    }
}

/// Clone an optional string, keeping its view.
pub fn clone_opt_string(v: &Option<String>) -> (r: Option<String>)
    ensures
        match r {
            Some(s) => v is Some && s@ == v->0@,
            None => v is None,
        },
{
    match v {
        Some(s) => Some(s.clone()),
        None => None,
    }
}

/// Append a provider to a fallback list, if it is not there yet.
pub fn push_provider_if_absent(ps: Vec<ModProvider>, p: ModProvider) -> (r: Vec<ModProvider>)
    ensures
        r@ == if ps@.contains(p) {
            ps@
        } else {
            ps@.push(p)
        },
{
    let mut found = false;
    let n = ps.len();
    let mut i: usize = 0;
    while i < n
        invariant
            n == ps@.len(),
            i <= n,
            found == ps@.subrange(0, i as int).contains(p),
        decreases n - i,
    {
        proof {
            assert(ps@.subrange(0, i + 1).drop_last() =~= ps@.subrange(0, i as int));
            assert(ps@.subrange(0, i + 1).last() == ps@[i as int]);
            if !found && ps@[i as int] == p {
                assert(ps@.subrange(0, i + 1)[i as int] == p);
            }
            if ps@.subrange(0, i as int).contains(p) {
                let j = choose|j: int| 0 <= j < i && ps@.subrange(0, i as int)[j] == p;
                assert(ps@.subrange(0, i + 1)[j] == p);
            }
        }
        if ps[i] == p {
            found = true;
        }
        i = i + 1;
    }
    proof {
        assert(ps@.subrange(0, n as int) =~= ps@);
    }
    if found {
        ps
    } else {
        let mut ps = ps;
        ps.push(p);
        ps
    }
}

/// How many times `c` occurs in `s`.
pub open spec fn count_char(s: Seq<char>, c: char) -> nat
    decreases s.len(),
{
    if s.len() == 0 {
        0
    } else {
        count_char(s.drop_last(), c) + if s.last() == c {
            1nat
        } else {
            0nat
        }
    }
}

/// The count is bounded by the length.
pub proof fn lemma_count_char_le_len(s: Seq<char>, c: char)
    ensures
        count_char(s, c) <= s.len(),
    decreases s.len(),
{
    if s.len() > 0 {
        lemma_count_char_le_len(s.drop_last(), c);
    }
}

/// A prefix free of `c` and everything at or past `i` free of `c` make the
/// count zero ... (helper) if no index holds `c` the count is zero.
pub proof fn lemma_count_char_zero(s: Seq<char>, c: char)
    ensures
        (count_char(s, c) == 0) <==> (forall|i: int| 0 <= i < s.len() ==> s[i] != c),
    decreases s.len(),
{
    if s.len() > 0 {
        lemma_count_char_zero(s.drop_last(), c);
        if count_char(s, c) == 0 {
            assert forall|i: int| 0 <= i < s.len() implies s[i] != c by {
                if i < s.len() - 1 {
                    assert(s.drop_last()[i] != c);
                }
            }
        } else {
            if s.last() != c {
                let i = choose|i: int| 0 <= i < s.drop_last().len() && s.drop_last()[i] == c;
                assert(s[i] == c);
            }
        }
    }
}

/// With exactly one occurrence, the occurrence index is unique.
pub proof fn lemma_count_char_one_unique(s: Seq<char>, c: char, i: int, j: int)
    requires
        count_char(s, c) == 1,
        0 <= i < s.len(),
        0 <= j < s.len(),
        s[i] == c,
        s[j] == c,
    ensures
        i == j,
    decreases s.len(),
{
    if i != j {
        lemma_count_split(s, c, if i < j {
            j
        } else {
            i
        });
    }
}

/// Splitting the count at an occurrence: the prefix before an occurrence
/// holds at least the occurrences seen so far.
proof fn lemma_count_split(s: Seq<char>, c: char, j: int)
    requires
        0 <= j < s.len(),
        s[j] == c,
        exists|i: int| 0 <= i < j && s[i] == c,
    ensures
        count_char(s, c) >= 2,
    decreases s.len(),
{
    if j == s.len() - 1 {
        let i = choose|i: int| 0 <= i < j && s[i] == c;
        assert(s.drop_last()[i] == c);
        lemma_count_char_zero(s.drop_last(), c);
        assert(count_char(s.drop_last(), c) != 0);
    } else {
        let i = choose|i: int| 0 <= i < j && s[i] == c;
        assert(s.drop_last()[i] == c);
        assert(s.drop_last()[j] == c);
        lemma_count_split(s.drop_last(), c, j);
        assert(count_char(s, c) >= count_char(s.drop_last(), c));
    }
}

/// What a mod name on the command line denotes: a plain name means the
/// wildcard constraint; one `@` splits name from constraint; more than one
/// is rejected.
pub open spec fn spec_parse_mod_name(s: Seq<char>) -> Option<(Seq<char>, Seq<char>)> {
    if count_char(s, '@') == 0 {
        Some((s, seq!['*']))
    } else if count_char(s, '@') == 1 {
        let i = choose|i: int| 0 <= i < s.len() && s[i] == '@';
        Some((s.subrange(0, i), s.subrange(i + 1, s.len() as int)))
    } else {
        None
    }
}

impl ModMeta {
    /// The spec with every optional field absent and the given name and
    /// constraint.
    pub open spec fn bare(name: Seq<char>, version: Seq<char>) -> ModMetaV {
        ModMetaV {
            name: name,
            version: version,
            providers: None,
            mc_version: None,
            loader: None,
            download_url: None,
            server_side: None,
            client_side: None,
        }
    }

    /// Parse `name` or `name@constraint`; a second `@` is malformed.
    pub fn new(mod_name: &str) -> (r: Result<Self, Error>)
        ensures
            r is Ok <==> spec_parse_mod_name(mod_name@) is Some,
            r is Ok ==> r->Ok_0@ == Self::bare(
                (spec_parse_mod_name(mod_name@)->0).0,
                (spec_parse_mod_name(mod_name@)->0).1,
            ),
            r is Err ==> (r->Err_0 matches Error::InvalidModName { name } && name@ == mod_name@),
    {
        let n: usize = mod_name.unicode_len();
        let mut count: usize = 0;
        let mut first: usize = 0;
        let mut i: usize = 0;
        while i < n
            invariant
                n == mod_name@.len(),
                i <= n,
                count == count_char(mod_name@.subrange(0, i as int), '@'),
                count > 0 ==> first < i && mod_name@[first as int] == '@',
            decreases n - i,
        {
            let c = mod_name.get_char(i);
            proof {
                assert(mod_name@.subrange(0, i + 1).drop_last() =~= mod_name@.subrange(
                    0,
                    i as int,
                ));
                assert(mod_name@.subrange(0, i + 1).last() == mod_name@[i as int]);
                lemma_count_char_le_len(mod_name@.subrange(0, i as int), '@');
            }
            if c == '@' {
                if count == 0 {
                    first = i;
                }
                count = count + 1;
            }
            i = i + 1;
        }
        proof {
            assert(mod_name@.subrange(0, n as int) =~= mod_name@);
        }
        if count == 0 {
            proof {
                reveal_strlit("*");
                assert("*"@ =~= seq!['*']);
            }
            Ok(
                ModMeta {
                    name: mod_name.to_owned(),
                    version: {
                        let v: &str = "*";
                        v.to_owned()
                    },
                    providers: None,
                    mc_version: None,
                    loader: None,
                    download_url: None,
                    server_side: None,
                    client_side: None,
                },
            )
        } else if count == 1 {
            let name = mod_name.substring_char(0, first).to_owned();
            let version = mod_name.substring_char(first + 1, n).to_owned();
            proof {
                let i0 = choose|i: int| 0 <= i < mod_name@.len() && mod_name@[i] == '@';
                lemma_count_char_one_unique(mod_name@, '@', i0, first as int);
            }
            Ok(
                ModMeta {
                    name,
                    version,
                    providers: None,
                    mc_version: None,
                    loader: None,
                    download_url: None,
                    server_side: None,
                    client_side: None,
                },
            )
        } else {
            Err(Error::InvalidModName { name: mod_name.to_owned() })
        }
    }

    /// Append a provider to the fallback list, if it is not there yet.
    pub fn provider(self, provider: ModProvider) -> (r: Self)
        ensures
            r@ == (ModMetaV {
                providers: match self@.providers {
                    None => Some(seq![provider]),
                    Some(ps) => if ps.contains(provider) {
                        Some(ps)
                    } else {
                        Some(ps.push(provider))
                    },
                },
                ..self@
            }),
    {
        let ModMeta {
            name,
            version,
            providers,
            mc_version,
            loader,
            download_url,
            server_side,
            client_side,
        } = self;
        let new_providers = match providers {
            Some(ps) => Some(push_provider_if_absent(ps, provider)),
            None => {
                let mut ps: Vec<ModProvider> = Vec::new();
                ps.push(provider);
                proof {
                    assert(ps@ =~= seq![provider]);
                }
                Some(ps)
            },
        };
        ModMeta {
            name,
            version,
            providers: new_providers,
            mc_version,
            loader,
            download_url,
            server_side,
            client_side,
        }
    }

    /// Set the download URL.
    pub fn url(self, download_url: &str) -> (r: Self)
        ensures
            r@ == (ModMetaV { download_url: Some(download_url@), ..self@ }),
    {
        ModMeta { download_url: Some(download_url.to_owned()), ..self }
    }

    /// Set the version constraint.
    pub fn version(self, version_constraint: &str) -> (r: Self)
        ensures
            r@ == (ModMetaV { version: version_constraint@, ..self@ }),
    {
        ModMeta { version: version_constraint.to_owned(), ..self }
    }

    /// Set the loader override.
    pub fn modloader(self, modloader: ModLoader) -> (r: Self)
        ensures
            r@ == (ModMetaV { loader: Some(modloader), ..self@ }),
    {
        ModMeta { loader: Some(modloader), ..self }
    }

    /// Set the game-version override.
    pub fn mc_version(self, mc_version: &str) -> (r: Self)
        ensures
            r@ == (ModMetaV { mc_version: Some(mc_version@), ..self@ }),
    {
        ModMeta { mc_version: Some(mc_version.to_owned()), ..self }
    }
}

impl Default for ModMeta {
    /// An empty name with the wildcard constraint and no overrides.
    fn default() -> (r: Self)
        ensures
            r@ == ModMeta::bare(Seq::<char>::empty(), seq!['*']),
    {
        proof {
            reveal_strlit("*");
            assert("*"@ =~= seq!['*']);
        }
        ModMeta {
            name: String::new(),
            version: {
                let v: &str = "*";
                v.to_owned()
            },
            providers: None,
            mc_version: None,
            loader: None,
            download_url: None,
            server_side: None,
            client_side: None,
        }
    }
}

} // verus!
