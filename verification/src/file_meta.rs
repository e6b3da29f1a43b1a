//! Files bundled with a pack: where they go, which side they serve, and
//! when they are applied.

use vstd::prelude::*;

use crate::errors::Error;
use crate::providers::DownloadSide;
use crate::text::lower;
use crate::text::lower_exec;
use crate::text::str_eq;

verus! {

/// When a bundled file is applied to the instance directory.
#[derive(Debug, Clone, Copy, PartialEq, Eq, Structural)]
pub enum FileApplyPolicy {
    /// Always make the target match the pack exactly.
    Always,
    /// Apply only if the target does not exist yet.
    Once,
    /// Merge into an existing file, keeping existing values.
    MergeRetain,
    /// Merge into an existing file, overwriting existing values.
    MergeOverwrite,
}

impl FileApplyPolicy {
    /// Parse a policy name, ignoring ASCII case. Exactly "always", "once",
    /// "mergeretain" and "mergeoverwrite" are recognized.
    pub fn parse(s: &str) -> (r: Result<FileApplyPolicy, Error>)
        ensures
            r is Ok <==> (lower(s@) == "always"@ || lower(s@) == "once"@ || lower(s@)
                == "mergeretain"@ || lower(s@) == "mergeoverwrite"@),
            r is Ok ==> r->Ok_0 == (if lower(s@) == "always"@ {
                FileApplyPolicy::Always
            } else if lower(s@) == "once"@ {
                FileApplyPolicy::Once
            } else if lower(s@) == "mergeretain"@ {
                FileApplyPolicy::MergeRetain
            } else {
                FileApplyPolicy::MergeOverwrite
            }),
            r is Err ==> (r->Err_0 matches Error::InvalidApplyPolicy { text } && text@ == s@),
    {
        let folded = lower_exec(s);
        if str_eq(folded.as_str(), "always") {
            Ok(FileApplyPolicy::Always)
        } else if str_eq(folded.as_str(), "once") {
            Ok(FileApplyPolicy::Once)
        } else if str_eq(folded.as_str(), "mergeretain") {
            Ok(FileApplyPolicy::MergeRetain)
        } else if str_eq(folded.as_str(), "mergeoverwrite") {
            Ok(FileApplyPolicy::MergeOverwrite)
        } else {
            Err(Error::InvalidApplyPolicy { text: s.to_owned() })
        }
    }

    /// The display name of the policy.
    pub fn label(self) -> (r: String)
        ensures
            self == FileApplyPolicy::Always ==> r@ == "Always"@,
            self == FileApplyPolicy::Once ==> r@ == "Once"@,
            self == FileApplyPolicy::MergeRetain ==> r@ == "MergeRetain"@,
            self == FileApplyPolicy::MergeOverwrite ==> r@ == "MergeOverwrite"@,
    {
        match self {
            FileApplyPolicy::Always => {
                let s: &str = "Always";
                s.to_owned()
            },
            FileApplyPolicy::Once => {
                let s: &str = "Once";
                s.to_owned()
            },
            FileApplyPolicy::MergeRetain => {
                let s: &str = "MergeRetain";
                s.to_owned()
            },
            FileApplyPolicy::MergeOverwrite => {
                let s: &str = "MergeOverwrite";
                s.to_owned()
            },
        }
    }

    /// Whether this policy merges into an existing mergeable file, and if
    /// so whether existing values are overwritten.
    pub fn merge_overwrite(self) -> (r: Option<bool>)
        ensures
            r == (match self {
                FileApplyPolicy::MergeRetain => Some(false),
                FileApplyPolicy::MergeOverwrite => Some(true),
                _ => None::<bool>,
            }),
    {
        match self {
            FileApplyPolicy::MergeRetain => Some(false),
            FileApplyPolicy::MergeOverwrite => Some(true),
            _ => None,
        }
    }
}

/// The mathematical content of a `FileMeta`.
pub ghost struct FileMetaV {
    pub target_path: Seq<char>,
    pub side: DownloadSide,
    pub apply_policy: FileApplyPolicy,
}

/// A bundled file: its path relative to the instance directory, the side it
/// serves, and when it is applied.
#[derive(Debug)]
pub struct FileMeta {
    /// Relative path of the file in the instance folder.
    pub target_path: String,
    /// Which side the file is applied on.
    pub side: DownloadSide,
    /// When the file is applied to the instance.
    pub apply_policy: FileApplyPolicy,
}

impl View for FileMeta {
    type V = FileMetaV;

    open spec fn view(&self) -> FileMetaV {
        FileMetaV { target_path: self.target_path@, side: self.side, apply_policy: self.apply_policy }
    }
}

impl Clone for FileMeta {
    fn clone(&self) -> (res: Self)
        ensures
            res@ == self@,
    {
        FileMeta {
            target_path: self.target_path.clone(),
            side: self.side,
            apply_policy: self.apply_policy,
        }
    }
}

/// Whether a bundled file applies when installing for `current`, and what
/// to do about an existing target: skipped sides and `Once` targets that
/// exist are not applied.
pub fn should_apply(meta: &FileMeta, current: DownloadSide, target_exists: bool) -> (r: bool)
    ensures
        r == (crate::providers::side_contains(current, meta.side) && !(target_exists
            && meta.apply_policy == FileApplyPolicy::Once)),
{
    current.contains(meta.side) && !(target_exists && matches!(meta.apply_policy, FileApplyPolicy::Once))
}


/// A path made explicitly relative: "./" goes in front unless the path
/// already starts with "./" or "/".
pub open spec fn spec_ensure_relative(s: Seq<char>) -> Seq<char> {
    if (s.len() >= 2 && s.subrange(0, 2) == "./"@) || (s.len() >= 1 && s[0] == '/') {
        s
    } else {
        "./"@ + s
    }
}

/// Make a normalized path explicitly relative, matching
/// `spec_ensure_relative`.
pub fn ensure_relative_prefix(s: &str) -> (r: String)
    ensures
        r@ == spec_ensure_relative(s@),
{
    proof {
        reveal_strlit("./");
        reveal_strlit("/");
    }
    let n = s.unicode_len();
    let has_dot_slash = n >= 2 && s.get_char(0) == '.' && s.get_char(1) == '/';
    let has_slash = n >= 1 && s.get_char(0) == '/';
    proof {
        if has_dot_slash {
            assert(s@.subrange(0, 2) =~= "./"@);
        } else if n >= 2 && s@.subrange(0, 2) == "./"@ {
            assert(s@[0] == "./"@[0]);
            assert(s@[1] == "./"@[1]);
        }
    }
    if has_dot_slash || has_slash {
        s.to_owned()
    } else {
        let p: &str = "./";
        let mut out = p.to_owned();
        out.append(s);
        out
    }
}


} // verus!
