//! Where states and results are stored.
use vstd::prelude::*;
use vstd::utf8::encode_utf8;

use crate::hash::{xxh3_64, xxh3_64_of};
use crate::path::{full_join_text, shown_text, FilePath, PathView};
use crate::text::{hexadecimal, push_hexadecimal};

verus! {

/// The directory in which everything is stored.
pub open spec fn store_dir(home: PathView) -> PathView {
    full_join_text(home, ".dupfinder"@)
}

/// What the files for a root are called, before their ending: the hash of the root's path as it is
/// written.
pub open spec fn root_key(root: PathView) -> Seq<char> {
    hexadecimal(xxh3_64_of(encode_utf8(shown_text(root.written))) as nat)
}

/// The file for a root, by its ending.
pub open spec fn store_file(home: PathView, root: PathView, ending: Seq<char>) -> PathView {
    full_join_text(store_dir(home), root_key(root) + ending)
}

/// Where something is stored: the directory, and the file in it.
#[derive(Debug)]
pub struct Place {
    pub dir: FilePath,
    pub file: FilePath,
}

/// The directory in which everything is stored.
pub fn dir_in(home: &FilePath) -> (r: FilePath)
    ensures
        r.full() == store_dir(home.full()),
{
    home.join_text(".dupfinder")
}

/// Where the file for a root with that ending is stored.
pub fn place_of(home: &FilePath, root: &FilePath, ending: &str) -> (r: Place)
    ensures
        r.dir.full() == store_dir(home.full()),
        r.file.full() == store_file(home.full(), root.full(), ending@),
{
    let dir = dir_in(home);
    let text = root.to_text();
    let bytes: Vec<u8> = text.as_bytes_vec();
    let mut name = String::new();
    push_hexadecimal(&mut name, xxh3_64(&bytes));
    name.append(ending);
    proof {
        assert(name@ =~= root_key(root.full()) + ending@);
    }
    let file = dir.join_text(name.as_str());
    Place { dir, file }
}

} // verus!
