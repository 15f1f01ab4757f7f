//! A self-contained launcher format: a produced binary is a platform runtime
//! stub with a serialized invocation manifest and a fixed-size trailer
//! appended. The trailer sits in the last 40 bytes of the file and locates
//! the runtime and manifest byte ranges; the manifest records how to
//! re-invoke the target program (argv and environment overrides).

use vstd::prelude::*;

pub mod codec;
pub mod json;
pub mod process;
pub mod substitutions;
pub mod text;

verus! {

/// The 8-byte magic constant `k1ck0ff!` that opens a valid trailer.
pub open spec fn magic_seq() -> Seq<u8> {
    seq![0x6bu8, 0x31u8, 0x63u8, 0x6bu8, 0x30u8, 0x66u8, 0x66u8, 0x21u8]
}

/// A half-open byte range within a produced file, relative to file start.
pub struct Section {
    pub pos: u64,
    pub len: u64,
}

/// The fixed-size record occupying the last 40 bytes of a produced binary:
/// the magic constant, then the runtime and manifest sections, each as two
/// little-endian `u64` fields (pos then len).
pub struct Trailer {
    pub magic: [u8; 8],
    pub runtime: Section,
    pub manifest: Section,
}

/// The stored invocation descriptor: the argument list of the target
/// program and the environment overrides to apply on top of the caller's
/// environment. Environment keys are unique; their order is irrelevant.
#[derive(Debug)]
pub struct Manifest {
    pub argv: Vec<String>,
    pub env: Vec<(String, String)>,
}

/// Mathematical image of a [`Manifest`]: argument strings as character
/// sequences and the environment as an association list.
#[verifier::ext_equal]
pub struct ManifestView {
    pub argv: Seq<Seq<char>>,
    pub env: Seq<(Seq<char>, Seq<char>)>,
}

impl ManifestView {
    /// A manifest is well formed when its environment keys are distinct.
    pub open spec fn wf(self) -> bool {
        forall|i: int, j: int| 0 <= i < j < self.env.len() ==> (#[trigger] self.env[i]).0 != (#[trigger] self.env[j]).0
    }
}

impl View for Manifest {
    type V = ManifestView;

    open spec fn view(&self) -> ManifestView {
        ManifestView { argv: self.argv.deep_view(), env: self.env.deep_view() }
    }
}

/// True when the two argv lists hold the same strings in the same order.
fn vec_string_eq(a: &Vec<String>, b: &Vec<String>) -> (r: bool)
    ensures
        r == (a.deep_view() == b.deep_view()),
{
    if a.len() != b.len() {
        proof {
            assert(a.deep_view().len() == a@.len());
            assert(b.deep_view().len() == b@.len());
        }
        return false;
    }
    let n = a.len();
    let mut i: usize = 0;
    while i < n
        invariant
            n == a@.len(),
            n == b@.len(),
            i <= n,
            forall|t: int| 0 <= t < i ==> a.deep_view()[t] == b.deep_view()[t],
        decreases n - i,
    {
        if a[i] != b[i] {
            proof {
                assert(a.deep_view()[i as int] != b.deep_view()[i as int]);
            }
            return false;
        }
        i += 1;
    }
    proof {
        assert(a.deep_view() =~= b.deep_view());
    }
    true
}

/// True when the two env lists hold the same pairs in the same order.
fn env_entries_eq(a: &Vec<(String, String)>, b: &Vec<(String, String)>) -> (r: bool)
    ensures
        r == (a.deep_view() == b.deep_view()),
{
    if a.len() != b.len() {
        proof {
            assert(a.deep_view().len() == a@.len());
            assert(b.deep_view().len() == b@.len());
        }
        return false;
    }
    let n = a.len();
    let mut i: usize = 0;
    while i < n
        invariant
            n == a@.len(),
            n == b@.len(),
            i <= n,
            forall|t: int| 0 <= t < i ==> a.deep_view()[t] == b.deep_view()[t],
        decreases n - i,
    {
        if a[i].0 != b[i].0 || a[i].1 != b[i].1 {
            proof {
                assert(a.deep_view()[i as int] != b.deep_view()[i as int]);
            }
            return false;
        }
        proof {
            assert(a.deep_view()[i as int] == b.deep_view()[i as int]);
        }
        i += 1;
    }
    proof {
        assert(a.deep_view() =~= b.deep_view());
    }
    true
}

impl PartialEq for Manifest {
    /// Two manifests are equal when their argv lists and env lists hold the
    /// same strings in the same order.
    fn eq(&self, other: &Manifest) -> (r: bool) {
        vec_string_eq(&self.argv, &other.argv) && env_entries_eq(&self.env, &other.env)
    }
}

impl vstd::std_specs::cmp::PartialEqSpecImpl for Manifest {
    open spec fn obeys_eq_spec() -> bool {
        true
    }

    open spec fn eq_spec(&self, other: &Manifest) -> bool {
        self@ == other@
    }
}

/// Why a produced binary's own bytes could not be decoded.
#[derive(Debug, PartialEq, Eq, Structural, Clone, Copy)]
pub enum CodecError {
    /// The file is shorter than a trailer, or the trailer's magic constant
    /// does not match: the file is not a valid produced binary.
    Format,
    /// The trailer is present but its manifest section points outside the
    /// file's bytes.
    Bounds,
    /// The manifest region is present but does not hold a well-formed
    /// serialized manifest.
    Decode,
}

} // verus!
