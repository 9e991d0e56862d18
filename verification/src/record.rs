//! What is known of a file.
use vstd::prelude::*;

use crate::path::{FilePath, PathView, Step};

verus! {

/// Information about a single file. Points in time are nanoseconds since the Unix epoch.
#[derive(Debug)]
pub struct FileInfo {
    pub path: FilePath,
    pub size: u64,
    pub created: Option<i128>,
    pub modified: Option<i128>,
}

/// What a `FileInfo` stands for.
pub struct FileView {
    pub path: Seq<Step>,
    /// How the path is written.
    pub written: Seq<u8>,
    pub size: u64,
    pub created: Option<i128>,
    pub modified: Option<i128>,
}

impl View for FileInfo {
    type V = FileView;

    open spec fn view(&self) -> FileView {
        FileView {
            path: self.path@,
            written: self.path.written@,
            size: self.size,
            created: self.created,
            modified: self.modified,
        }
    }
}

impl FileView {
    /// The path with the way in which it is written.
    pub open spec fn full_path(self) -> PathView {
        PathView { steps: self.path, written: self.written }
    }
}

impl Clone for FileInfo {
    fn clone(&self) -> (r: Self)
        ensures
            r@ == self@,
    {
        FileInfo {
            path: self.path.clone(),
            size: self.size,
            created: self.created,
            modified: self.modified,
        }
    }
}

/// Groups of files that are duplicates of each other.
pub type DuplicateGroups = Vec<Vec<FileInfo>>;

/// What a group of files stands for.
pub open spec fn group_view(group: Seq<FileInfo>) -> Seq<FileView> {
    group.map_values(|f: FileInfo| f@)
}

/// What a sequence of groups stands for.
pub open spec fn groups_view(groups: Seq<Vec<FileInfo>>) -> Seq<Seq<FileView>> {
    groups.map_values(|g: Vec<FileInfo>| group_view(g@))
}

} // verus!
