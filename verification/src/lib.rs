//! Filesystem inventory and drift detection: a tree builder over captured
//! metadata, a single-slot snapshot store with a JSON codec, a diff engine
//! over two trees, and a PDF-discovery dispatcher.

pub mod chars;
pub mod diff;
pub mod ext4;
pub mod json;
pub mod pdf;
pub mod remote;
pub mod render;
pub mod store;
pub mod tree;

use vstd::prelude::*;

verus! {

/// Directory that the background monitor watches for new files.
pub fn get_folder_to_monitor() -> (r: String)
    ensures
        r@ == "C:\\Users\\Public"@,
{
    String::from_str("C:\\Users\\Public")
}

} // verus!
