use vstd::prelude::*;
use crate::options::Options;

verus! {

/// A path, or a name, as the spec functions of a provider see it.
pub type PathView = Seq<char>;

/// A listing as the spec functions of a provider see it.
pub type ListingView = Option<Seq<Seq<char>>>;

/// What the traversal needs to know of a file system.
///
/// The spec functions are the tree that a provider answers from: during a
/// walk each path has one validity, one kind, one listing, one size and one
/// name, and every method answers from them. A provider over a tree that
/// changes while it is walked does not meet these contracts. The spec
/// functions exist for the verifier only: an implementation outside Verus
/// never calls them.
pub trait FileSystem: Send + Sync {
    /// Whether the tree admits `path`.
    spec fn valid(&self, path: PathView) -> bool;

    /// Whether `path` is a container.
    spec fn parent(&self, path: PathView) -> bool;

    /// The paths of the children of the container `path`, if it can be listed.
    spec fn children(&self, path: PathView) -> ListingView;

    /// The size in bytes of the leaf `path`, if it can be read.
    spec fn size(&self, path: PathView) -> Option<u64>;

    /// The display name of `path`.
    spec fn name(&self, path: PathView) -> PathView;

    /// `false` removes the path from the walk (a symbolic link, an unreadable entry).
    fn is_valid(&self, path: &str, opts: &Options) -> (r: bool)
        ensures
            r == self.valid(path@),
    ;

    /// Whether the path is a container to recurse into.
    fn is_parent(&self, path: &str, opts: &Options) -> (r: bool)
        ensures
            r == self.parent(path@),
    ;

    /// The paths of a container's children; `None` when it cannot be listed.
    fn get_children(&self, path: &str, opts: &Options) -> (r: Option<Vec<String>>)
        ensures
            match r {
                Some(v) => self.children(path@) == Some(v@.map_values(|s: String| s@)),
                None => self.children(path@) is None,
            },
    ;

    /// The size in bytes of a leaf; `None` when it cannot be read.
    fn get_size(&self, path: &str, opts: &Options) -> (r: Option<u64>)
        ensures
            r == self.size(path@),
    ;

    /// The display name of the path (its last segment).
    fn get_name(&self, path: &str, opts: &Options) -> (r: String)
        ensures
            r@ == self.name(path@),
    ;
}

} // verus!
