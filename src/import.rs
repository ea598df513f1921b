//! What an import reports about the file or folder it placed.
use vstd::prelude::*;
use vstd::string::*;
use crate::classify::{binary_by_extension, get_file_extension, is_binary_file, lowered_extension};
use crate::types::ImportResult;

verus! {

/// The record of a file (`is_folder` false) or folder placed at the top of a
/// project directory under `name`, with `size` bytes in all, under the
/// identifier `node_id`.
pub fn imported_entry(node_id: String, name: &str, is_folder: bool, size: u64) -> (r: ImportResult)
    ensures
        r.name@ == name@,
        r.node_type@ == (if is_folder { "folder"@ } else { "file"@ }),
        is_folder ==> r.extension is None && !r.is_binary,
        !is_folder ==> r.is_binary == binary_by_extension(name@) && match lowered_extension(name@) {
            Some(e) => r.extension is Some && r.extension->0@ == e,
            None => r.extension is None,
        },
        r.size == size,
        r.file_path is Some && r.file_path->0@ == name@,
        r.node_id == node_id,
{
    if is_folder {
        ImportResult {
            node_id: node_id,
            name: String::from_str(name),
            node_type: String::from_str("folder"),
            extension: None,
            size,
            is_binary: false,
            file_path: Some(String::from_str(name)),
        }
    } else {
        ImportResult {
            node_id: node_id,
            name: String::from_str(name),
            node_type: String::from_str("file"),
            extension: get_file_extension(name),
            size,
            is_binary: is_binary_file(name),
            file_path: Some(String::from_str(name)),
        }
    }
}

} // verus!
