//! Rendering of a directory hierarchy as a textual tree, in the style of the
//! Unix `tree` utility: entries are listed depth-first in ascending lexical
//! order of their names, each directory's listing is capped at a configured
//! number of entries (with a summary line for the rest), and hidden entries
//! (names starting with `.`) are skipped unless requested.
//!
//! The renderer is a pure function from an in-memory snapshot of the
//! hierarchy ([`FsNode`]) to a sequence of [`render::Line`] values; reading
//! the filesystem and painting the lines are left to the caller.
//!
//! One cap applies uniformly at every level, and recursion runs until the
//! hierarchy bottoms out: the command-line surface accepts a root-specific
//! limit and a depth limit, but — deliberately, preserving the observed
//! behaviour — neither reaches the renderer.

use vstd::prelude::*;

pub mod laws;
pub mod order;
pub mod render;
pub mod select;

verus! {

/// One entry of a directory hierarchy: a file, or a directory together with
/// the entries found directly inside it. The name is the entry's final path
/// component.
pub enum FsNode {
    File { name: String },
    Dir { name: String, children: Vec<FsNode> },
}

impl FsNode {
    /// The entry's name (final path component).
    pub open spec fn spec_name(self) -> Seq<char> {
        match self {
            FsNode::File { name } => name@,
            FsNode::Dir { name, .. } => name@,
        }
    }

    /// Whether the entry is a directory.
    pub open spec fn spec_is_dir(self) -> bool {
        self is Dir
    }

    /// The entries directly inside a directory; empty for a file.
    pub open spec fn spec_children(self) -> Seq<FsNode> {
        match self {
            FsNode::File { .. } => Seq::empty(),
            FsNode::Dir { children, .. } => children@,
        }
    }

    /// A snapshot taken from a real filesystem satisfies this: sibling names
    /// are distinct (a directory cannot hold two entries of one name) and
    /// nonempty, at every level.
    pub open spec fn well_formed(self) -> bool
        decreases self,
    {
        &&& self.spec_name().len() > 0
        &&& forall|i: int, j: int|
            0 <= i < j < self.spec_children().len() ==> #[trigger] self.spec_children()[i].spec_name()
                != #[trigger] self.spec_children()[j].spec_name()
        &&& forall|i: int|
            0 <= i < self.spec_children().len() ==> (#[trigger] self.spec_children()[i]).well_formed()
    }

    /// The entry's name, as an executable accessor.
    pub fn name(&self) -> (r: &String)
        ensures
            r@ == self.spec_name(),
    {
        match self {
            FsNode::File { name } => name,
            FsNode::Dir { name, .. } => name,
        }
    }
}

} // verus!
