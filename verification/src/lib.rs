//! Lexical normalization of filesystem paths.
//!
//! A path is a sequence of [`Component`]s: an optional platform prefix, an
//! optional root marker, then `.`, `..` and named segments.  Normalization
//! resolves `.` and `..` purely from that structure, without consulting the
//! filesystem: `.` segments past the root boundary are dropped, and each `..`
//! removes the named segment before it.  A `..` that would climb above the
//! root boundary (or above the start of a rootless relative path) makes the
//! whole call fail with [`NormalizeError`].

use vstd::prelude::*;
use vstd::string::StringExecFns;

mod laws;

pub use laws::lemma_boundary_preserved;
pub use laws::lemma_empty_input;
pub use laws::lemma_fixed_point;
pub use laws::lemma_no_parent_in_output;
pub use laws::lemma_normalize_idempotent;
pub use laws::lemma_normalized_output;
pub use laws::lemma_relative_escape;
pub use laws::lemma_root_invariant;
pub use laws::named_segs;
pub use laws::parent_dirs;

verus! {

/// One unit of a decomposed path.
///
/// In a well-formed decomposition a `Prefix` may only stand first and a
/// `RootDir` only first or directly after a `Prefix`; normalization does not
/// assume this and rejects sequences that break it.
#[derive(Debug, PartialEq, Eq)]
pub enum Component {
    /// Platform-specific root qualifier, e.g. a drive letter or UNC prefix.
    Prefix(String),
    /// The root of an absolute path.
    RootDir,
    /// A literal "this directory" segment.
    CurDir,
    /// A literal "parent directory" segment.
    ParentDir,
    /// An ordinary file or directory name.
    Normal(String),
}

impl Clone for Component {
    fn clone(&self) -> (res: Self)
        ensures
            res == *self,
    {
        match self {
            Component::Prefix(text) => Component::Prefix(text.clone()),
            Component::RootDir => Component::RootDir,
            Component::CurDir => Component::CurDir,
            Component::ParentDir => Component::ParentDir,
            Component::Normal(text) => Component::Normal(text.clone()),
        }
    }
}

impl Component {
    /// True exactly on the root marker.
    pub fn is_root_dir(&self) -> (r: bool)
        ensures
            r <==> *self is RootDir,
    {
        match self {
            Component::RootDir => true,
            _ => false,
        }
    }
}

/// Error returned when normalization would have to ascend past the root
/// boundary of the path.
#[derive(Debug, PartialEq, Eq)]
pub struct NormalizeError;

impl NormalizeError {
    /// A human-readable description of the failure.
    pub fn message(&self) -> (r: String)
        ensures
            r@ == "Path normalization failed"@,
    {
        String::from_str("Path normalization failed")
    }
}

/// How many leading components make up the root boundary of `s`: the portion
/// of the path that `..` may never remove.
///
/// A leading root marker or `.` counts as the boundary; a leading prefix does
/// too, together with a root marker directly after it; a rootless relative
/// path has an empty boundary.
pub open spec fn root_len(s: Seq<Component>) -> int {
    if s.len() == 0 {
        0
    } else {
        match s[0] {
            Component::RootDir => 1,
            Component::CurDir => 1,
            Component::Prefix(_) => if s.len() >= 2 && s[1] is RootDir {
                2
            } else {
                1
            },
            _ => 0,
        }
    }
}

/// Resolves the components of `rest` in order against the output built so
/// far.  `out` holds the components already emitted and `boundary` the length
/// of its fixed root portion: `.` is dropped, `..` pops the last emitted
/// segment unless the output is down to the boundary, a named segment is
/// appended, and a stray prefix or root marker past the first position fails.
pub open spec fn spec_normalize_from(
    out: Seq<Component>,
    boundary: int,
    rest: Seq<Component>,
) -> Option<Seq<Component>>
    decreases rest.len(),
{
    if rest.len() == 0 {
        Some(out)
    } else {
        match rest[0] {
            Component::Prefix(_) => None,
            Component::RootDir => None,
            Component::CurDir => spec_normalize_from(out, boundary, rest.drop_first()),
            Component::ParentDir => if out.len() == boundary {
                None
            } else {
                spec_normalize_from(out.drop_last(), boundary, rest.drop_first())
            },
            Component::Normal(_) => spec_normalize_from(
                out.push(rest[0]),
                boundary,
                rest.drop_first(),
            ),
        }
    }
}

/// What lexical normalization returns on the component sequence `s`: the
/// normalized sequence, or `None` when resolving a `..` would ascend past the
/// root boundary (a leading `..` included).
pub open spec fn spec_normalize(s: Seq<Component>) -> Option<Seq<Component>> {
    if s.len() == 0 {
        Some(Seq::empty())
    } else if s[0] is ParentDir {
        None
    } else {
        spec_normalize_from(s.take(root_len(s)), root_len(s), s.skip(root_len(s)))
    }
}

/// A sequence is in normal form when everything past its root boundary is a
/// named segment: no `.` or `..` is left to resolve.
pub open spec fn is_normalized(s: Seq<Component>) -> bool {
    forall|j: int| root_len(s) <= j < s.len() ==> (#[trigger] s[j]) is Normal
}

/// A structured path: an owned sequence of components.
#[derive(Debug, PartialEq, Eq)]
pub struct LexicalPath {
    components: Vec<Component>,
}

impl View for LexicalPath {
    type V = Seq<Component>;

    closed spec fn view(&self) -> Seq<Component> {
        self.components@
    }
}

impl LexicalPath {
    /// The empty path, with no components at all.
    pub fn new() -> (r: Self)
        ensures
            r@ == Seq::<Component>::empty(),
    {
        LexicalPath { components: Vec::new() }
    }

    /// Builds a path from its component sequence.
    pub fn from_components(components: Vec<Component>) -> (r: Self)
        ensures
            r@ == components@,
    {
        LexicalPath { components }
    }

    /// The components of this path, in order.
    pub fn components(&self) -> (r: &Vec<Component>)
        ensures
            r@ == self@,
    {
        &self.components
    }
}

/// Extension trait that adds lexical normalization to path-like types.
pub trait PathNormalizeExt {
    /// The component sequence this value stands for.
    spec fn path_view(&self) -> Seq<Component>;

    /// Normalizes the path lexically, resolving `.` and `..` without
    /// accessing the filesystem.
    ///
    /// Returns [`NormalizeError`] exactly when the path attempts to traverse
    /// above its root boundary.
    fn normalize_path(&self) -> (r: Result<LexicalPath, NormalizeError>)
        ensures
            r is Ok <==> spec_normalize(self.path_view()) is Some,
            r matches Ok(q) ==> Some(q@) == spec_normalize(self.path_view()),
    ;
}

impl PathNormalizeExt for LexicalPath {
    open spec fn path_view(&self) -> Seq<Component> {
        self@
    }

    fn normalize_path(&self) -> (r: Result<LexicalPath, NormalizeError>) {
        let n = self.components.len();
        let mut out: Vec<Component> = Vec::new();
        if n == 0 {
            return Ok(LexicalPath { components: out });
        }
        let mut i: usize = 0;
        let boundary: usize;
        match &self.components[0] {
            Component::ParentDir => {
                return Err(NormalizeError);
            },
            Component::RootDir | Component::CurDir => {
                out.push(self.components[0].clone());
                i = 1;
                boundary = 1;
            },
            Component::Prefix(_) => {
                out.push(self.components[0].clone());
                i = 1;
                boundary = if n >= 2 && self.components[1].is_root_dir() {
                    out.push(self.components[1].clone());
                    i = 2;
                    2
                } else {
                    1
                };
            },
            Component::Normal(_) => {
                boundary = 0;
            },
        }
        proof {
            assert(out@ =~= self@.take(boundary as int));
            assert(boundary as int == root_len(self@));
        }
        while i < n
            invariant
                n == self.components.len(),
                i <= n,
                boundary as int == root_len(self@),
                boundary as int <= out@.len(),
                spec_normalize_from(out@, boundary as int, self@.skip(i as int))
                    == spec_normalize(self@),
            decreases n - i,
        {
            let ghost rest = self@.skip(i as int);
            proof {
                assert(rest[0] == self@[i as int]);
                assert(rest.drop_first() =~= self@.skip(i as int + 1));
            }
            match &self.components[i] {
                Component::RootDir => {
                    return Err(NormalizeError);
                },
                Component::Prefix(_) => {
                    return Err(NormalizeError);
                },
                Component::CurDir => {},
                Component::ParentDir => {
                    if out.len() == boundary {
                        return Err(NormalizeError);
                    }
                    let ghost before = out@;
                    out.pop();
                    proof {
                        assert(out@ =~= before.drop_last());
                    }
                },
                Component::Normal(_) => {
                    out.push(self.components[i].clone());
                },
            }
            i = i + 1;
        }
        proof {
            assert(self@.skip(n as int) =~= Seq::<Component>::empty());
        }
        Ok(LexicalPath { components: out })
    }
}

} // verus!
