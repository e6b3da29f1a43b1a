//! What a provider hands back: artifact sources, the side a mod runs on,
//! and the pinned form of a resolved mod.

use vstd::prelude::*;

use crate::errors::Error;
use crate::mod_meta::ModMeta;
use crate::mod_meta::ModMetaV;
use crate::text::lower;
use crate::text::lower_exec;
use crate::text::str_eq;

verus! {

/// The mathematical content of a `FileSource`.
pub ghost enum FileSourceV {
    Download { url: Seq<char>, sha1: Seq<char>, sha512: Seq<char>, filename: Seq<char> },
    Local { path: Seq<char>, sha1: Seq<char>, sha512: Seq<char>, filename: Seq<char> },
}

/// Where an artifact's bytes come from. `Local` is declared but not
/// executable: the sync engine fails with `Error::NotImplemented` on it.
#[derive(Debug)]
pub enum FileSource {
    Download { url: String, sha1: String, sha512: String, filename: String },
    Local { path: String, sha1: String, sha512: String, filename: String },
}

impl View for FileSource {
    type V = FileSourceV;

    open spec fn view(&self) -> FileSourceV {
        match self {
            FileSource::Download { url, sha1, sha512, filename } => (FileSourceV::Download {
                url: url@,
                sha1: sha1@,
                sha512: sha512@,
                filename: filename@,
            }),
            FileSource::Local { path, sha1, sha512, filename } => (FileSourceV::Local {
                path: path@,
                sha1: sha1@,
                sha512: sha512@,
                filename: filename@,
            }),
        }
    }
}

impl FileSourceV {
    /// The artifact filename, whichever kind of source.
    pub open spec fn filename(self) -> Seq<char> {
        match self {
            FileSourceV::Download { filename, .. } => filename,
            FileSourceV::Local { filename, .. } => filename,
        }
    }
}

impl Clone for FileSource {
    fn clone(&self) -> (res: Self)
        ensures
            res@ == self@,
    {
        match self {
            FileSource::Download { url, sha1, sha512, filename } => (FileSource::Download {
                url: url.clone(),
                sha1: sha1.clone(),
                sha512: sha512.clone(),
                filename: filename.clone(),
            }),
            FileSource::Local { path, sha1, sha512, filename } => (FileSource::Local {
                path: path.clone(),
                sha1: sha1.clone(),
                sha512: sha512.clone(),
                filename: filename.clone(),
            }),
        }
    }
}

/// Which side of the game a download serves.
#[derive(Debug, Clone, Copy, PartialEq, Eq, Structural)]
pub enum DownloadSide {
    Both,
    Server,
    Client,
}

/// Whether a thing marked for side `b` applies when operating on side `a`.
pub open spec fn side_contains(a: DownloadSide, b: DownloadSide) -> bool {
    a == DownloadSide::Both || b == DownloadSide::Both || a == b
}

impl DownloadSide {
    /// Whether a thing marked for side `other` applies on this side.
    pub fn contains(self, other: DownloadSide) -> (r: bool)
        ensures
            r == side_contains(self, other),
    {
        match self {
            DownloadSide::Both => true,
            _ => match other {
                DownloadSide::Both => true,
                _ => self == other,
            },
        }
    }

    /// Parse a side name, ignoring ASCII case. Exactly "both", "client"
    /// and "server" are recognized.
    pub fn parse(s: &str) -> (r: Result<DownloadSide, Error>)
        ensures
            r is Ok <==> (lower(s@) == "both"@ || lower(s@) == "client"@ || lower(s@)
                == "server"@),
            r is Ok ==> r->Ok_0 == (if lower(s@) == "both"@ {
                DownloadSide::Both
            } else if lower(s@) == "client"@ {
                DownloadSide::Client
            } else {
                DownloadSide::Server
            }),
            r is Err ==> (r->Err_0 matches Error::InvalidSide { text } && text@ == s@),
    {
        let folded = lower_exec(s);
        if str_eq(folded.as_str(), "both") {
            Ok(DownloadSide::Both)
        } else if str_eq(folded.as_str(), "client") {
            Ok(DownloadSide::Client)
        } else if str_eq(folded.as_str(), "server") {
            Ok(DownloadSide::Server)
        } else {
            Err(Error::InvalidSide { text: s.to_owned() })
        }
    }

    /// The display name of the side.
    pub fn label(self) -> (r: String)
        ensures
            self == DownloadSide::Both ==> r@ == "Both"@,
            self == DownloadSide::Server ==> r@ == "Server"@,
            self == DownloadSide::Client ==> r@ == "Client"@,
    {
        match self {
            DownloadSide::Both => {
                let s: &str = "Both";
                s.to_owned()
            },
            DownloadSide::Server => {
                let s: &str = "Server";
                s.to_owned()
            },
            DownloadSide::Client => {
                let s: &str = "Client";
                s.to_owned()
            },
        }
    }
}

/// The mathematical content of a `PinnedMod`.
pub ghost struct PinnedModV {
    pub source: Seq<FileSourceV>,
    pub version: Seq<char>,
    pub deps: Option<Seq<ModMetaV>>,
    pub server_side: bool,
    pub client_side: bool,
}

/// The views of a sequence of mod specs, in order.
pub open spec fn mod_metas_view(v: Seq<ModMeta>) -> Seq<ModMetaV> {
    v.map_values(|m: ModMeta| m@)
}

/// The views of a sequence of file sources, in order.
pub open spec fn sources_view(v: Seq<FileSource>) -> Seq<FileSourceV> {
    v.map_values(|s: FileSource| s@)
}

/// A mod resolved to a concrete artifact: sources, the concrete version,
/// the artifact's own required dependencies, and the sides it serves.
#[derive(Debug)]
pub struct PinnedMod {
    /// Source of the files for the mod.
    pub source: Vec<FileSource>,
    /// Version of the mod; concrete, never the wildcard.
    pub version: String,
    /// Pinned dependencies of a pinned mod.
    pub deps: Option<Vec<ModMeta>>,
    /// Required on the server side.
    pub server_side: bool,
    /// Required on the client side.
    pub client_side: bool,
}

impl View for PinnedMod {
    type V = PinnedModV;

    open spec fn view(&self) -> PinnedModV {
        PinnedModV {
            source: sources_view(self.source@),
            version: self.version@,
            deps: match self.deps {
                Some(ds) => Some(mod_metas_view(ds@)),
                None => None,
            },
            server_side: self.server_side,
            client_side: self.client_side,
        }
    }
}

/// Clone a vector of file sources, keeping its view.
pub fn clone_sources(v: &Vec<FileSource>) -> (r: Vec<FileSource>)
    ensures
        sources_view(r@) == sources_view(v@),
{
    let n = v.len();
    let mut out: Vec<FileSource> = Vec::new();
    let mut i: usize = 0;
    while i < n
        invariant
            n == v@.len(),
            i <= n,
            out@.len() == i,
            sources_view(out@) =~= sources_view(v@).subrange(0, i as int),
        decreases n - i,
    {
        let ghost prev = out@;
        out.push(v[i].clone());
        proof {
            assert(sources_view(out@) =~= sources_view(v@).subrange(0, i + 1));
        }
        i = i + 1;
    }
    proof {
        assert(sources_view(v@).subrange(0, n as int) =~= sources_view(v@));
    }
    out
}

/// Clone a vector of mod specs, keeping its view.
pub fn clone_mod_metas(v: &Vec<ModMeta>) -> (r: Vec<ModMeta>)
    ensures
        mod_metas_view(r@) == mod_metas_view(v@),
{
    let n = v.len();
    let mut out: Vec<ModMeta> = Vec::new();
    let mut i: usize = 0;
    while i < n
        invariant
            n == v@.len(),
            i <= n,
            out@.len() == i,
            mod_metas_view(out@) =~= mod_metas_view(v@).subrange(0, i as int),
        decreases n - i,
    {
        out.push(v[i].clone());
        proof {
            assert(mod_metas_view(out@) =~= mod_metas_view(v@).subrange(0, i + 1));
        }
        i = i + 1;
    }
    proof {
        assert(mod_metas_view(v@).subrange(0, n as int) =~= mod_metas_view(v@));
    }
    out
}

impl Clone for PinnedMod {
    fn clone(&self) -> (res: Self)
        ensures
            res@ == self@,
    {
        PinnedMod {
            source: clone_sources(&self.source),
            version: self.version.clone(),
            deps: match &self.deps {
                Some(ds) => Some(clone_mod_metas(ds)),
                None => None,
            },
            server_side: self.server_side,
            client_side: self.client_side,
        }
    }
}

} // verus!
