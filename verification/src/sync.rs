//! The sync engine's verified core: which files the lockfile pins for a
//! side, and the integrity gate on downloaded bytes.

use vstd::prelude::*;

use crate::errors::Error;
use crate::hashing::hex_of;
use crate::hashing::sha512_hex;
use crate::hashing::sha512_of;
use crate::providers::DownloadSide;
use crate::providers::FileSource;
use crate::providers::PinnedMod;
use crate::providers::PinnedModV;
use crate::resolver::PinnedPackMeta;
use crate::strmap::StrSet;
use crate::text::lower;
use crate::text::lower_exec;
use crate::text::str_eq;

verus! {

/// Whether a pinned artifact serves the given side.
pub open spec fn artifact_on_side(pm: PinnedModV, side: DownloadSide) -> bool {
    side == DownloadSide::Both || (side == DownloadSide::Client && pm.client_side) || (side
        == DownloadSide::Server && pm.server_side)
}

/// Whether this artifact serves the side, matching `artifact_on_side`.
pub fn artifact_matches_side(pm: &PinnedMod, side: DownloadSide) -> (r: bool)
    ensures
        r == artifact_on_side(pm@, side),
{
    match side {
        DownloadSide::Both => true,
        DownloadSide::Client => pm.client_side,
        DownloadSide::Server => pm.server_side,
    }
}

/// Whether `filename` belongs to some pinned artifact serving `side`.
pub open spec fn filename_pinned(
    lock: Map<Seq<char>, PinnedModV>,
    side: DownloadSide,
    filename: Seq<char>,
) -> bool {
    exists|k: Seq<char>, i: int|
        #![trigger lock[k].source[i]]
        lock.dom().contains(k) && artifact_on_side(lock[k], side) && 0 <= i
            < lock[k].source.len() && lock[k].source[i].filename() == filename
}

/// The artifact filename of a source, whichever kind it is.
fn source_filename<'a>(s: &'a FileSource) -> (r: &'a String)
    ensures
        r@ == s@.filename(),
{
    match s {
        FileSource::Download { filename, .. } => filename,
        FileSource::Local { filename, .. } => filename,
    }
}

impl PinnedPackMeta {
    /// Whether a file in the target directory belongs to a pinned artifact
    /// for this side. The memo set answers repeats at once; it only ever
    /// grows, and only with pinned filenames of the side.
    pub fn file_is_pinned(
        &self,
        file_name: &str,
        mod_side: DownloadSide,
        cache: &mut StrSet,
    ) -> (r: bool)
        requires
            self.wf(),
            old(cache).wf(),
        ensures
            final(cache).wf(),
            r == (old(cache)@.contains(file_name@) || filename_pinned(
                self@,
                mod_side,
                file_name@,
            )),
            forall|f: Seq<char>| old(cache)@.contains(f) ==> final(cache)@.contains(f),
            forall|f: Seq<char>|
                final(cache)@.contains(f) ==> (old(cache)@.contains(f) || filename_pinned(
                    self@,
                    mod_side,
                    f,
                )),
    {
        if cache.contains(file_name) {
            return true;
        }
        let n = self.mods.entry_count();
        let mut i: usize = 0;
        while i < n
            invariant
                self.wf(),
                old(cache).wf(),
                cache.wf(),
                n == self.mods.eview().len(),
                i <= n,
                !old(cache)@.contains(file_name@),
                forall|f: Seq<char>| old(cache)@.contains(f) ==> cache@.contains(f),
                forall|f: Seq<char>|
                    cache@.contains(f) ==> (old(cache)@.contains(f) || filename_pinned(
                        self@,
                        mod_side,
                        f,
                    )),
                forall|j: int, l: int|
                    #![trigger self.mods.eview()[j].1.source[l]]
                    (0 <= j < i && artifact_on_side(self.mods.eview()[j].1, mod_side) && 0 <= l
                        < self.mods.eview()[j].1.source.len()) ==> self.mods.eview()[j].1.source[l].filename()
                        != file_name@,
            decreases n - i,
        {
            let pm = self.mods.val_at(i);
            proof {
                crate::strmap::lemma_map_of_index(self.mods.eview(), i as int);
            }
            if artifact_matches_side(pm, mod_side) {
                let sn = pm.source.len();
                let mut j: usize = 0;
                while j < sn
                    invariant
                        self.wf(),
                        old(cache).wf(),
                        cache.wf(),
                        i < self.mods.eview().len(),
                        pm@ == self.mods.eview()[i as int].1,
                        pm@ == self@[self.mods.keys_seq()[i as int]],
                        self@.dom().contains(self.mods.keys_seq()[i as int]),
                        artifact_on_side(pm@, mod_side),
                        sn == pm.source@.len(),
                        j <= sn,
                        !old(cache)@.contains(file_name@),
                        forall|f: Seq<char>| old(cache)@.contains(f) ==> cache@.contains(f),
                        forall|f: Seq<char>|
                            cache@.contains(f) ==> (old(cache)@.contains(f) || filename_pinned(
                                self@,
                                mod_side,
                                f,
                            )),
                        forall|l: int|
                            0 <= l < j ==> (#[trigger] pm@.source[l]).filename() != file_name@,
                    decreases sn - j,
                {
                    let fname = source_filename(&pm.source[j]);
                    proof {
                        assert(pm@.source[j as int] == pm.source@[j as int]@);
                        assert(filename_pinned(self@, mod_side, fname@)) by {
                            let k = self.mods.keys_seq()[i as int];
                            assert(self@[k].source[j as int].filename() == fname@);
                        }
                    }
                    cache.insert(fname.as_str());
                    if str_eq(fname.as_str(), file_name) {
                        return true;
                    }
                    j = j + 1;
                }
            }
            i = i + 1;
        }
        proof {
            crate::strmap::lemma_map_of_dom(self.mods.eview());
            if filename_pinned(self@, mod_side, file_name@) {
                let (k, l) = choose|k: Seq<char>, l: int|
                    #![trigger self@[k].source[l]]
                    self@.dom().contains(k) && artifact_on_side(self@[k], mod_side) && 0 <= l
                        < self@[k].source.len() && self@[k].source[l].filename() == file_name@;
                assert(crate::strmap::has_key(self.mods.eview(), k));
                let j = choose|j: int|
                    0 <= j < self.mods.eview().len() && crate::strmap::keys_of(
                        self.mods.eview(),
                    )[j] == k;
                crate::strmap::lemma_map_of_index(self.mods.eview(), j);
                assert(self.mods.eview()[j].1 == self@[k]);
                assert(self.mods.eview()[j].1.source[l].filename() == file_name@);
                assert(false);
            }
        }
        false
    }
}

/// The integrity gate: accept a downloaded payload exactly when its
/// SHA-512, in lowercase hex, reads the pinned hash with ASCII case
/// ignored. A mismatch reports the filename, both hashes lowercased.
pub fn verify_artifact_sha512(filename: &str, expected_sha512: &str, payload: &Vec<u8>) -> (r:
    Result<(), Error>)
    ensures
        r is Ok <==> lower(expected_sha512@) == hex_of(sha512_of(payload@)),
        r is Err ==> (r->Err_0 matches Error::IntegrityMismatch { filename: f, expected, actual }
            && f@ == filename@ && expected@ == lower(expected_sha512@) && actual@ == hex_of(
            sha512_of(payload@),
        )),
{
    let actual = sha512_hex(payload);
    let expected = lower_exec(expected_sha512);
    if str_eq(actual.as_str(), expected.as_str()) {
        Ok(())
    } else {
        Err(
            Error::IntegrityMismatch {
                filename: filename.to_owned(),
                expected,
                actual,
            },
        )
    }
}

} // verus!
