//! The built-in substitution rules, resolved once per process from live
//! facts about the running executable.

use vstd::prelude::*;
use vstd::slice::slice_to_vec;
use vstd::utf8::encode_utf8;

use crate::substitutions::Substitution;

verus! {

/// The literal token that stands for the running executable's path.
pub open spec fn self_path_token() -> Seq<char> {
    "{kickoff.self.path}"@
}

/// The literal token that stands for the running executable's directory.
pub open spec fn self_dir_token() -> Seq<char> {
    "{kickoff.self.dir}"@
}

/// The rule that replaces `{kickoff.self.path}` by the given path of the
/// currently executing binary.
pub fn current_exe(path: &str) -> (r: Substitution)
    ensures
        r.token@ == encode_utf8(self_path_token()),
        r.value@ == encode_utf8(path@),
{
    Substitution {
        token: slice_to_vec("{kickoff.self.path}".as_bytes()),
        value: slice_to_vec(path.as_bytes()),
    }
}

/// The rule that replaces `{kickoff.self.dir}` by the given directory of
/// the currently executing binary.
pub fn current_dir(path: &str) -> (r: Substitution)
    ensures
        r.token@ == encode_utf8(self_dir_token()),
        r.value@ == encode_utf8(path@),
{
    Substitution {
        token: slice_to_vec("{kickoff.self.dir}".as_bytes()),
        value: slice_to_vec(path.as_bytes()),
    }
}

} // verus!
