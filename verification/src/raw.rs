//! The direct-URL provider: pin an artifact from its fetched bytes alone.

use vstd::prelude::*;

use crate::hashing::hex_of;
use crate::hashing::sha1_hex;
use crate::hashing::sha1_of;
use crate::hashing::sha512_hex;
use crate::hashing::sha512_of;
use crate::mod_meta::ModMeta;
use crate::mod_meta::ModMetaV;
use crate::providers::FileSource;
use crate::providers::FileSourceV;
use crate::providers::PinnedMod;
use crate::providers::PinnedModV;

verus! {

/// The index of the last slash, or minus one.
pub open spec fn last_slash(u: Seq<char>) -> int
    decreases u.len(),
{
    if u.len() == 0 {
        -1
    } else if u.last() == '/' {
        u.len() - 1
    } else {
        last_slash(u.drop_last())
    }
}

/// The last slash is in range.
pub proof fn lemma_last_slash_range(u: Seq<char>)
    ensures
        -1 <= last_slash(u) < u.len(),
    decreases u.len(),
{
    if u.len() > 0 {
        lemma_last_slash_range(u.drop_last());
    }
}

/// The final path segment: everything after the last slash.
pub open spec fn last_segment(u: Seq<char>) -> Seq<char> {
    u.subrange(last_slash(u) + 1, u.len() as int)
}

/// The final path segment of a URL, matching `last_segment`.
pub fn last_segment_exec(u: &str) -> (r: String)
    ensures
        r@ == last_segment(u@),
{
    let n = u.unicode_len();
    let mut ls: usize = 0;
    let mut found = false;
    let mut i: usize = 0;
    proof {
        lemma_last_slash_range(u@);
    }
    while i < n
        invariant
            n == u@.len(),
            i <= n,
            found ==> ls < i && last_slash(u@.subrange(0, i as int)) == ls as int,
            !found ==> last_slash(u@.subrange(0, i as int)) == -1,
        decreases n - i,
    {
        proof {
            assert(u@.subrange(0, i + 1).drop_last() =~= u@.subrange(0, i as int));
            assert(u@.subrange(0, i + 1).last() == u@[i as int]);
        }
        if u.get_char(i) == '/' {
            ls = i;
            found = true;
        }
        i = i + 1;
    }
    proof {
        assert(u@.subrange(0, n as int) =~= u@);
        lemma_last_slash_range(u@);
    }
    if found {
        u.substring_char(ls + 1, n).to_owned()
    } else {
        proof {
            assert(last_segment(u@) =~= u@.subrange(0, n as int));
        }
        u.substring_char(0, n).to_owned()
    }
}

/// What the direct-URL provider pins, given the fetched payload: one
/// download source carrying the URL, both digests of the payload in
/// lowercase hex, and the URL's final path segment as the filename. The
/// version is unknown and no dependencies are recorded; the sides default
/// to both unless the spec narrows them.
pub open spec fn spec_resolve_raw(m: ModMetaV, payload: Seq<u8>) -> PinnedModV {
    let url = m.download_url->0;
    PinnedModV {
        source: seq![
            FileSourceV::Download {
                url: url,
                sha1: hex_of(sha1_of(payload)),
                sha512: hex_of(sha512_of(payload)),
                filename: last_segment(url),
            },
        ],
        version: "Unknown"@,
        deps: None,
        server_side: match m.server_side {
            Some(b) => b,
            None => true,
        },
        client_side: match m.client_side {
            Some(b) => b,
            None => true,
        },
    }
}

/// Pin an artifact from its fetched bytes, matching `spec_resolve_raw`.
pub fn resolve_raw(m: &ModMeta, payload: &Vec<u8>) -> (r: PinnedMod)
    requires
        m@.download_url is Some,
    ensures
        r@ == spec_resolve_raw(m@, payload@),
{
    let url: String = match &m.download_url {
        Some(u) => u.clone(),
        None => {
            proof {
                assert(false);
            }
            String::new()
        },
    };
    let filename = last_segment_exec(url.as_str());
    let mut source: Vec<FileSource> = Vec::new();
    source.push(
        FileSource::Download {
            url: url,
            sha1: sha1_hex(payload),
            sha512: sha512_hex(payload),
            filename,
        },
    );
    proof {
        assert(crate::providers::sources_view(source@) =~= spec_resolve_raw(
            m@,
            payload@,
        ).source);
    }
    PinnedMod {
        source,
        version: {
            let v: &str = "Unknown";
            v.to_owned()
        },
        deps: None,
        server_side: match m.server_side {
            Some(b) => b,
            None => true,
        },
        client_side: match m.client_side {
            Some(b) => b,
            None => true,
        },
    }
}

} // verus!
