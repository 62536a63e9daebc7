//! Where scanned trees are kept between runs, and when a kept one is used.

use crate::node::Timestamp;
use crate::tree::{FileTree, TreeView};
use crate::{paths, text};
use vstd::prelude::*;

verus! {

/// Why there is no place for kept trees.
#[derive(Clone, Copy, Debug, PartialEq, Eq, Structural)]
pub enum CacheError {
    /// The system names no directory for caches.
    NoCacheDirectory,
}

impl CacheError {
    pub fn message(&self) -> (r: String)
        ensures
            r@ == "Could not determine cache directory"@,
    {
        "Could not determine cache directory".to_string()
    }
}

/// The directory for kept trees below that of the system.
pub fn cache_dir(base: Option<String>) -> (r: Result<String, CacheError>)
    ensures
        match base {
            Some(b) => r matches Ok(dir) && dir@ == paths::joined(b@, "fdu"@),
            None => r == Err::<String, CacheError>(CacheError::NoCacheDirectory),
        },
{
    match base {
        Some(b) => Ok(paths::join(b.as_str(), "fdu")),
        None => Err(CacheError::NoCacheDirectory),
    }
}

/// The name of the file that keeps the tree of a path with this hash: sixteen
/// hexadecimal digits and an ending.
pub open spec fn file_name_for(hash: u64) -> Seq<char> {
    text::hexadecimal(hash as nat, 16) + ".bin"@
}

/// The file that keeps the tree of a path with this hash.
pub fn cache_path_for(base: Option<String>, hash: u64) -> (r: Result<String, CacheError>)
    ensures
        match base {
            Some(b) => r matches Ok(path) && path@ == paths::joined(
                paths::joined(b@, "fdu"@),
                file_name_for(hash),
            ),
            None => r == Err::<String, CacheError>(CacheError::NoCacheDirectory),
        },
{
    match cache_dir(base) {
        Ok(dir) => {
            let name = text::hexadecimal_string(hash, 16).concat(".bin");
            Ok(paths::join(dir.as_str(), name.as_str()))
        },
        Err(e) => Err(e),
    }
}

/// What was found in the place of a kept tree.
#[derive(Debug)]
pub enum Kept {
    Nothing,
    /// A file that holds no tree.
    Corrupt,
    Tree(FileTree),
}

/// What is to be done with what was found.
#[derive(Debug)]
pub enum Verdict {
    /// There is no tree to use.
    Missing,
    /// There is none, and the file is to be removed.
    Discard,
    Use(FileTree),
}

/// Whether a tree is too old: the directory was changed after the scan.
pub open spec fn is_stale(tree: TreeView, root_mtime: Option<Timestamp>) -> bool {
    root_mtime matches Some(mtime) && mtime.later_than(tree.scan_time)
}

/// Whether a kept tree is used, where `root_mtime` is when the directory was
/// last changed, if that is known.
pub fn load_cache(kept: Kept, root_mtime: Option<Timestamp>) -> (r: Verdict)
    ensures
        match kept {
            Kept::Nothing => r is Missing,
            Kept::Corrupt => r is Discard,
            Kept::Tree(tree) => if is_stale(tree@, root_mtime) {
                r is Missing
            } else {
                r matches Verdict::Use(t) && t == tree
            },
        },
{
    match kept {
        Kept::Nothing => Verdict::Missing,
        Kept::Corrupt => Verdict::Discard,
        Kept::Tree(tree) => {
            if let Some(mtime) = root_mtime {
                if mtime.is_after(&tree.scan_time) {
                    return Verdict::Missing;
                }
            }
            Verdict::Use(tree)
        },
    }
}

/// Paths with different hashes are kept in different files.
pub proof fn cache_files_differ(a: u64, b: u64)
    requires
        a != b,
    ensures
        file_name_for(a) != file_name_for(b),
{
    text::lemma_sixteen_digits();
    if file_name_for(a) == file_name_for(b) {
        text::lemma_hexadecimal_len(a as nat, 16);
        text::lemma_hexadecimal_len(b as nat, 16);
        assert(file_name_for(a).take(16) =~= text::hexadecimal(a as nat, 16));
        assert(file_name_for(b).take(16) =~= text::hexadecimal(b as nat, 16));
        text::hexadecimal_tells_apart(a as nat, b as nat, 16);
    }
}

/// A kept tree is out of date where the directory is known to have been changed
/// later than the scan, counted in nanoseconds, and is not where it was changed at
/// the same moment, earlier, or it is not known when.
pub proof fn trees_are_stale_after_a_change(tree: TreeView, root_mtime: Option<Timestamp>)
    requires
        tree.scan_time.nanos < 1_000_000_000,
        root_mtime matches Some(mtime) ==> mtime.nanos < 1_000_000_000,
    ensures
        root_mtime is None ==> !is_stale(tree, root_mtime),
        root_mtime matches Some(mtime) ==> (is_stale(tree, root_mtime) <==> mtime.secs
            * 1_000_000_000 + mtime.nanos > tree.scan_time.secs * 1_000_000_000
            + tree.scan_time.nanos),
{
}

/// The file of a hash is named by the hash in sixteen hexadecimal digits.
pub proof fn cache_files_are_named_by_hash(hash: u64)
    ensures
        file_name_for(hash).len() == 16 + ".bin"@.len(),
        text::value_of(file_name_for(hash).take(16), 16) == hash,
        file_name_for(hash).skip(16) == ".bin"@,
{
    text::lemma_sixteen_digits();
    text::hexadecimals_read_as_their_number(hash as nat, 16);
    assert(file_name_for(hash).take(16) =~= text::hexadecimal(hash as nat, 16));
    assert(file_name_for(hash).skip(16) =~= ".bin"@);
}

/// Between two moments the later second decides, and within one the later nanosecond.
pub proof fn later_seconds_decide(tree: TreeView, mtime: Timestamp)
    ensures
        mtime.secs > tree.scan_time.secs ==> is_stale(tree, Some(mtime)),
        mtime.secs < tree.scan_time.secs ==> !is_stale(tree, Some(mtime)),
        mtime.secs == tree.scan_time.secs ==> (is_stale(tree, Some(mtime)) <==> mtime.nanos
            > tree.scan_time.nanos),
{
}

} // verus!
