//! The rules by which project files are found.
//!
//! The directory walks themselves read the filesystem and stand outside this
//! crate; they ask these functions what to do with each entry: symbolic links
//! are never followed, the walk descends at most [`MAX_WALK_DEPTH`] levels, and
//! a file is collected when its extension is the one searched for.
use vstd::prelude::*;
use crate::text::{chars_with_offsets, str_eq, substr};

verus! {

/// Maximum directory depth a walk descends. Real projects nest a handful of
/// levels; this bounds a pathologically deep tree.
pub const MAX_WALK_DEPTH: usize = 64;

/// What a directory entry is, by its own file type (a symbolic link is not
/// followed to see what it points to).
#[derive(Debug, Clone, Copy, PartialEq, Eq, Structural)]
pub enum EntryKind {
    /// A symbolic link.
    Symlink,
    /// A directory.
    Directory,
    /// Anything else (a regular file, a device, ...).
    Other,
    /// The file type could not be read.
    Unknown,
}

/// What a walk does with an entry.
#[derive(Debug, Clone, Copy, PartialEq, Eq, Structural)]
pub enum WalkStep {
    /// Leave the entry alone.
    Skip,
    /// Walk into the directory.
    Descend,
    /// Collect the entry's path.
    Collect,
}

/// Index of the last `c` in `cs`, or -1 when there is none.
pub open spec fn last_index_of_char(cs: Seq<char>, c: char) -> int
    decreases cs.len(),
{
    if cs.len() == 0 {
        -1
    } else if cs.last() == c {
        cs.len() - 1
    } else {
        last_index_of_char(cs.drop_last(), c)
    }
}

/// The extension of a file name, as `Path::extension` gives it: the text after
/// the last `.`, unless there is no `.`, the name is `..`, or the only `.` is
/// the name's first character.
pub open spec fn spec_file_extension(name: Seq<char>) -> Option<Seq<char>> {
    let k = last_index_of_char(name, '.');
    if name == ".."@ || k <= 0 {
        None
    } else {
        Some(name.skip(k + 1))
    }
}

proof fn lemma_last_index_of_char_at(cs: Seq<char>, c: char, k: int)
    requires
        -1 <= k < cs.len(),
        forall|j: int| k < j < cs.len() ==> cs[j] != c,
        k >= 0 ==> cs[k] == c,
    ensures
        last_index_of_char(cs, c) == k,
    decreases cs.len(),
{
    if cs.len() > 0 && k < cs.len() - 1 {
        lemma_last_index_of_char_at(cs.drop_last(), c, k);
    }
}

/// The extension of a file name (see [`spec_file_extension`]).
pub fn file_extension(name: &str) -> (r: Option<&str>)
    ensures
        match spec_file_extension(name@) {
            Some(e) => r matches Some(x) && x@ == e,
            None => r is None,
        },
{
    let ghost cs = name@;
    let (chars, offsets) = chars_with_offsets(name);
    let n = chars.len();
    let mut k = n;
    while k > 0 && chars[k - 1] != '.'
        invariant
            k <= n,
            n == cs.len(),
            chars@ == cs,
            forall|j: int| k <= j < n ==> cs[j] != '.',
        decreases k,
    {
        k = k - 1;
    }
    proof {
        lemma_last_index_of_char_at(cs, '.', k - 1);
    }
    if str_eq(name, "..") || k <= 1 {
        None
    } else {
        let e = substr(name, offsets[k], offsets[n], Ghost(k as int), Ghost(n as int));
        assert(cs.subrange(k as int, n as int) =~= cs.skip(k as int));
        Some(e)
    }
}

/// Whether a walk lists the directory it reached at `depth` (the root is at
/// depth 0).
pub fn walk_lists_directory(depth: usize) -> (r: bool)
    ensures
        r == (depth <= MAX_WALK_DEPTH),
{
    depth <= MAX_WALK_DEPTH
}

/// What a walk searching for files with extension `ext` does with an entry:
/// symbolic links and unreadable entries are skipped, directories descended,
/// and other entries collected when their extension is `ext`.
pub fn walk_step(kind: EntryKind, file_name: &str, ext: &str) -> (r: WalkStep)
    ensures
        r == match kind {
            EntryKind::Symlink | EntryKind::Unknown => WalkStep::Skip,
            EntryKind::Directory => WalkStep::Descend,
            EntryKind::Other => if spec_file_extension(file_name@) == Some(ext@) {
                WalkStep::Collect
            } else {
                WalkStep::Skip
            },
        },
{
    match kind {
        EntryKind::Symlink | EntryKind::Unknown => WalkStep::Skip,
        EntryKind::Directory => WalkStep::Descend,
        EntryKind::Other => if has_extension(file_name, ext) {
            WalkStep::Collect
        } else {
            WalkStep::Skip
        },
    }
}

/// Whether a file named `file_name` has extension `ext`.
pub fn has_extension(file_name: &str, ext: &str) -> (r: bool)
    ensures
        r == (spec_file_extension(file_name@) == Some(ext@)),
{
    match file_extension(file_name) {
        Some(e) => str_eq(e, ext),
        None => false,
    }
}

} // verus!
