//! Named install profiles: where a pack comes from, where it goes, and
//! which side it serves; and the user's profile store.

use vstd::prelude::*;

use crate::providers::DownloadSide;
use crate::strmap::StrMap;

verus! {

/// The mathematical content of a `PackSource`.
pub ghost enum PackSourceV {
    Git { url: Seq<char> },
    Local { path: Seq<char> },
}

/// Where a pack's sources come from: a remote repository or a local
/// directory.
#[derive(Debug)]
pub enum PackSource {
    Git { url: String },
    Local { path: String },
}

impl View for PackSource {
    type V = PackSourceV;

    open spec fn view(&self) -> PackSourceV {
        match self {
            PackSource::Git { url } => PackSourceV::Git { url: url@ },
            PackSource::Local { path } => PackSourceV::Local { path: path@ },
        }
    }
}

impl Clone for PackSource {
    fn clone(&self) -> (res: Self)
        ensures
            res@ == self@,
    {
        match self {
            PackSource::Git { url } => PackSource::Git { url: url.clone() },
            PackSource::Local { path } => PackSource::Local { path: path.clone() },
        }
    }
}

/// Every leading repetition of "git+" stripped off.
pub open spec fn strip_git_prefixes(s: Seq<char>) -> Seq<char>
    decreases s.len(),
{
    if s.len() >= 4 && s.subrange(0, 4) == "git+"@ {
        strip_git_prefixes(s.subrange(4, s.len() as int))
    } else {
        s
    }
}

impl PackSource {
    /// Parse a pack source: a "git+" prefix names a repository, with
    /// every leading repetition of the prefix stripped from the URL;
    /// anything else is a local path, kept as given.
    pub fn parse(s: &str) -> (r: PackSource)
        ensures
            (s@.len() >= 4 && s@.subrange(0, 4) == "git+"@) ==> r@ == (PackSourceV::Git {
                url: strip_git_prefixes(s@),
            }),
            !(s@.len() >= 4 && s@.subrange(0, 4) == "git+"@) ==> r@ == (PackSourceV::Local {
                path: s@,
            }),
    {
        let n = s.unicode_len();
        let is_git = n >= 4 && str_prefix_is_git(s);
        if is_git {
            let mut rest: String = s.to_owned();
            let mut rn: usize = n;
            while rn >= 4 && str_prefix_is_git(rest.as_str())
                invariant
                    rn == rest@.len(),
                    strip_git_prefixes(rest@) == strip_git_prefixes(s@),
                decreases rest@.len(),
            {
                let stripped = rest.as_str().substring_char(4, rn).to_owned();
                rest = stripped;
                rn = rest.as_str().unicode_len();
            }
            PackSource::Git { url: rest }
        } else {
            PackSource::Local { path: s.to_owned() }
        }
    }

    /// The display form: the URL behind a "git+" prefix, or the bare path.
    pub fn label(&self) -> (r: String)
        ensures
            (self@ matches PackSourceV::Git { url } ==> r@ == "git+"@ + url),
            (self@ matches PackSourceV::Local { path } ==> r@ == path),
    {
        match self {
            PackSource::Git { url } => {
                let p: &str = "git+";
                let mut out = p.to_owned();
                out.append(url.as_str());
                out
            },
            PackSource::Local { path } => path.clone(),
        }
    }
}

/// Whether the string starts with "git+".
fn str_prefix_is_git(s: &str) -> (r: bool)
    requires
        s@.len() >= 4,
    ensures
        r == (s@.subrange(0, 4) == "git+"@),
{
    proof {
        reveal_strlit("git+");
    }
    let c0 = s.get_char(0);
    let c1 = s.get_char(1);
    let c2 = s.get_char(2);
    let c3 = s.get_char(3);
    let r = c0 == 'g' && c1 == 'i' && c2 == 't' && c3 == '+';
    proof {
        if r {
            assert(s@.subrange(0, 4) =~= "git+"@);
        } else {
            if s@.subrange(0, 4) == "git+"@ {
                assert(s@[0] == "git+"@[0]);
                assert(s@[1] == "git+"@[1]);
                assert(s@[2] == "git+"@[2]);
                assert(s@[3] == "git+"@[3]);
            }
        }
    }
    r
}

/// The mathematical content of a `Profile`.
pub ghost struct ProfileV {
    pub instance_folder: Seq<char>,
    pub pack_source: PackSourceV,
    pub side: DownloadSide,
}

/// A named installation: the instance directory, the pack source and the
/// side to install for.
#[derive(Debug)]
pub struct Profile {
    pub instance_folder: String,
    pub pack_source: PackSource,
    pub side: DownloadSide,
}

impl View for Profile {
    type V = ProfileV;

    open spec fn view(&self) -> ProfileV {
        ProfileV {
            instance_folder: self.instance_folder@,
            pack_source: self.pack_source@,
            side: self.side,
        }
    }
}

impl Clone for Profile {
    fn clone(&self) -> (res: Self)
        ensures
            res@ == self@,
    {
        Profile {
            instance_folder: self.instance_folder.clone(),
            pack_source: self.pack_source.clone(),
            side: self.side,
        }
    }
}

impl Profile {
    /// A profile over an instance directory, taken as the caller resolved
    /// it.
    pub fn new(instance_folder: &str, pack_source: PackSource, side: DownloadSide) -> (r: Profile)
        ensures
            r@ == (ProfileV {
                instance_folder: instance_folder@,
                pack_source: pack_source@,
                side: side,
            }),
    {
        Profile { instance_folder: instance_folder.to_owned(), pack_source, side }
    }
}

/// User data for the modpack manager: the named profiles.
#[derive(Debug)]
pub struct Data {
    pub profiles: StrMap<Profile>,
}

impl View for Data {
    type V = Map<Seq<char>, ProfileV>;

    open spec fn view(&self) -> Map<Seq<char>, ProfileV> {
        self.profiles@
    }
}

impl Data {
    pub open spec fn wf(&self) -> bool {
        self.profiles.wf()
    }

    /// The profile names, in the order they entered the store: a
    /// deliberate choice of insertion order, so a store read from disk is
    /// listed in its stored order and profiles added in a session follow.
    pub fn get_profile_names(&self) -> (r: Vec<String>)
        ensures
            r@.map_values(|s: String| s@) == self.profiles.keys_seq(),
    {
        self.profiles.keys()
    }

    /// Add or replace a profile.
    pub fn add_profile(&mut self, profile_name: &str, profile: Profile)
        requires
            old(self).wf(),
        ensures
            final(self).wf(),
            final(self)@ == old(self)@.insert(profile_name@, profile@),
    {
        self.profiles.insert(profile_name, profile);
    }

    /// The profile under this name, if any.
    pub fn get_profile(&self, profile_name: &str) -> (r: Option<&Profile>)
        requires
            self.wf(),
        ensures
            match r {
                Some(p) => self@.dom().contains(profile_name@) && p@ == self@[profile_name@],
                None => !self@.dom().contains(profile_name@),
            },
    {
        self.profiles.get(profile_name)
    }

    /// The profile under this name, for in-place update: present exactly
    /// when the name is, and the stored names stay as they were. With the
    /// names unchanged, `crate::strmap::lemma_wf_from_keys` recovers
    /// well-formedness once the borrow ends.
    pub fn get_profile_mut(&mut self, profile_name: &str) -> (r: Option<&mut Profile>)
        requires
            old(self).wf(),
        ensures
            (r is Some) <==> old(self)@.dom().contains(profile_name@),
            r is None ==> *final(self) == *old(self),
            final(self).profiles.keys_seq() == old(self).profiles.keys_seq(),
    {
        self.profiles.get_mut(profile_name)
    }

    /// Drop the profile under this name, if any.
    pub fn remove_profile(&mut self, profile_name: &str)
        requires
            old(self).wf(),
        ensures
            final(self).wf(),
            final(self)@ == old(self)@.remove(profile_name@),
    {
        self.profiles.remove(profile_name);
    }
}

impl Default for Data {
    /// A store with no profiles.
    fn default() -> (r: Self)
        ensures
            r.wf(),
            r@ == Map::<Seq<char>, ProfileV>::empty(),
    {
        Data { profiles: StrMap::new() }
    }
}

} // verus!
