//! Planning for archive-style directory synchronization.
//!
//! The filesystem work — reading directories, copying files, re-creating
//! symbolic links — stays with the caller; it has no bearing on the matching
//! algorithm. What is decided here, and therefore verified, is the planning:
//! which validation error a synchronization call reports, and which source
//! path is copied to which target path. The caller observes the filesystem,
//! hands in plain values (path strings, entry names, `is_dir`/`exists`
//! facts), and performs the returned copy steps.

use vstd::prelude::*;
use vstd::string::StrSliceExecFns;
use vstd::string::StringExecFns;

verus! {

/// The error kinds of the synchronization planner.
#[derive(Clone, Copy, Debug, PartialEq, Eq, Structural)]
pub enum ArchiveError {
    /// A path that must be a directory is not one.
    NotADirectory,
    /// A path does not exist.
    NotFound,
}

/// One planned copy: transfer `from` to `to`.
#[derive(Debug)]
pub struct CopyStep {
    /// Source path.
    pub from: String,
    /// Target path.
    pub to: String,
}

/// A directory path and an entry name joined with a separator.
pub open spec fn joined(dir: Seq<char>, name: Seq<char>) -> Seq<char> {
    dir + seq!['/'] + name
}

/// The part of a path after its last separator; the whole path if it has
/// none, empty if it ends with one.
pub open spec fn file_name_of(s: Seq<char>) -> Seq<char>
    decreases s.len(),
{
    if s.len() == 0 {
        s
    } else if s.last() == '/' {
        Seq::<char>::empty()
    } else {
        file_name_of(s.drop_last()).push(s.last())
    }
}

proof fn lemma_file_name_after_slash(s: Seq<char>, p: int)
    requires
        0 <= p < s.len(),
        s[p] == '/',
        forall|q: int| p < q < s.len() ==> s[q] != '/',
    ensures
        file_name_of(s) == s.subrange(p + 1, s.len() as int),
    decreases s.len(),
{
    if p == s.len() - 1 {
        assert(s.last() == '/');
        assert(s.subrange(p + 1, s.len() as int) =~= Seq::<char>::empty());
    } else {
        lemma_file_name_after_slash(s.drop_last(), p);
        assert(file_name_of(s) == file_name_of(s.drop_last()).push(s.last()));
        assert(s.drop_last().subrange(p + 1, s.len() - 1) =~= s.subrange(p + 1, s.len() - 1));
        assert(s.subrange(p + 1, s.len() - 1).push(s.last()) =~= s.subrange(
            p + 1,
            s.len() as int,
        ));
    }
}

proof fn lemma_file_name_no_slash(s: Seq<char>)
    requires
        forall|q: int| 0 <= q < s.len() ==> s[q] != '/',
    ensures
        file_name_of(s) == s,
    decreases s.len(),
{
    if s.len() > 0 {
        lemma_file_name_no_slash(s.drop_last());
        assert(s.drop_last().push(s.last()) =~= s);
    }
}

/// Joins a directory path and an entry name with a separator.
pub fn join_path(dir: &str, name: &str) -> (r: String)
    ensures
        r@ == joined(dir@, name@),
{
    let mut s = dir.to_owned();
    s.append("/");
    proof {
        reveal_strlit("/");
        assert("/"@ =~= seq!['/']);
    }
    s.append(name);
    s
}

/// Plans one level of directory synchronization.
///
/// `src_is_dir`, `dest_is_dir`, `src_exists` and `dest_exists` are the
/// caller's observations of the two paths; `entries` holds the names found
/// in the source directory. If either path is not an existing directory the
/// plan fails the way the copier reports it; otherwise every entry is paired
/// with its source and its target path, in order. The caller copies each
/// step without overwriting.
pub fn sync_dir(
    src: &str,
    dest: &str,
    src_is_dir: bool,
    dest_is_dir: bool,
    src_exists: bool,
    dest_exists: bool,
    entries: &Vec<String>,
) -> (r: Result<Vec<CopyStep>, ArchiveError>)
    ensures
        r is Err <==> (!src_is_dir || !dest_is_dir || !src_exists || !dest_exists),
        (!src_is_dir || !dest_is_dir) ==> r == Err::<Vec<CopyStep>, ArchiveError>(
            ArchiveError::NotADirectory,
        ),
        (src_is_dir && dest_is_dir && (!src_exists || !dest_exists)) ==> r == Err::<
            Vec<CopyStep>,
            ArchiveError,
        >(ArchiveError::NotFound),
        r matches Ok(steps) ==> steps@.len() == entries@.len() && forall|j: int|
            0 <= j < entries@.len() ==> (#[trigger] steps@[j]).from@ == joined(
                src@,
                entries@[j]@,
            ) && steps@[j].to@ == joined(dest@, entries@[j]@),
{
    plan_entries(src, dest, src_is_dir, dest_is_dir, src_exists, dest_exists, entries)
}

/// Plans one level of directory synchronization for the overwriting copier.
///
/// The validation and the path pairing are the same as [`sync_dir`]'s; the
/// caller copies each step with overwriting allowed.
pub fn sync_dir_ow(
    src: &str,
    dest: &str,
    src_is_dir: bool,
    dest_is_dir: bool,
    src_exists: bool,
    dest_exists: bool,
    entries: &Vec<String>,
) -> (r: Result<Vec<CopyStep>, ArchiveError>)
    ensures
        r is Err <==> (!src_is_dir || !dest_is_dir || !src_exists || !dest_exists),
        (!src_is_dir || !dest_is_dir) ==> r == Err::<Vec<CopyStep>, ArchiveError>(
            ArchiveError::NotADirectory,
        ),
        (src_is_dir && dest_is_dir && (!src_exists || !dest_exists)) ==> r == Err::<
            Vec<CopyStep>,
            ArchiveError,
        >(ArchiveError::NotFound),
        r matches Ok(steps) ==> steps@.len() == entries@.len() && forall|j: int|
            0 <= j < entries@.len() ==> (#[trigger] steps@[j]).from@ == joined(
                src@,
                entries@[j]@,
            ) && steps@[j].to@ == joined(dest@, entries@[j]@),
{
    plan_entries(src, dest, src_is_dir, dest_is_dir, src_exists, dest_exists, entries)
}

fn plan_entries(
    src: &str,
    dest: &str,
    src_is_dir: bool,
    dest_is_dir: bool,
    src_exists: bool,
    dest_exists: bool,
    entries: &Vec<String>,
) -> (r: Result<Vec<CopyStep>, ArchiveError>)
    ensures
        r is Err <==> (!src_is_dir || !dest_is_dir || !src_exists || !dest_exists),
        (!src_is_dir || !dest_is_dir) ==> r == Err::<Vec<CopyStep>, ArchiveError>(
            ArchiveError::NotADirectory,
        ),
        (src_is_dir && dest_is_dir && (!src_exists || !dest_exists)) ==> r == Err::<
            Vec<CopyStep>,
            ArchiveError,
        >(ArchiveError::NotFound),
        r matches Ok(steps) ==> steps@.len() == entries@.len() && forall|j: int|
            0 <= j < entries@.len() ==> (#[trigger] steps@[j]).from@ == joined(
                src@,
                entries@[j]@,
            ) && steps@[j].to@ == joined(dest@, entries@[j]@),
{
    if !src_is_dir || !dest_is_dir {
        return Err(ArchiveError::NotADirectory);
    }
    if !src_exists || !dest_exists {
        return Err(ArchiveError::NotFound);
    }
    let mut steps: Vec<CopyStep> = Vec::new();
    let mut j: usize = 0;
    while j < entries.len()
        invariant
            j <= entries@.len(),
            steps@.len() == j,
            forall|t: int|
                0 <= t < j ==> (#[trigger] steps@[t]).from@ == joined(src@, entries@[t]@)
                    && steps@[t].to@ == joined(dest@, entries@[t]@),
        decreases entries@.len() - j,
    {
        let name = entries[j].as_str();
        steps.push(CopyStep { from: join_path(src, name), to: join_path(dest, name) });
        j = j + 1;
    }
    Ok(steps)
}

/// Chooses the source and target path for one synchronization call,
/// following the trailing-separator rule of archive copying: a source path
/// that ends in a separator, or names a plain file or a symbolic link, is
/// copied to the destination itself; any other source directory is copied
/// into the destination under its own name. The separator is always
/// inserted between the destination and that name.
///
/// `src_is_file` and `src_is_symlink` are the caller's observations of the
/// source path; the caller performs the returned step with its overwriting
/// copier.
pub fn synchronize(src: &str, dest: &str, src_is_file: bool, src_is_symlink: bool) -> (r: CopyStep)
    requires
        src@.len() > 0,
    ensures
        r.from@ == src@,
        (src@.last() == '/' || src_is_file || src_is_symlink) ==> r.to@ == dest@,
        !(src@.last() == '/' || src_is_file || src_is_symlink) ==> r.to@ == joined(
            dest@,
            file_name_of(src@),
        ),
{
    let n = src.unicode_len();
    let last = src.get_char(n - 1);
    if last == '/' || src_is_file || src_is_symlink {
        CopyStep { from: src.to_owned(), to: dest.to_owned() }
    } else {
        let mut pos: usize = 0;
        let mut found = false;
        let mut q: usize = 0;
        while q < n
            invariant
                n == src@.len(),
                q <= n,
                found ==> pos < q && src@[pos as int] == '/' && forall|t: int|
                    pos < t < q ==> src@[t] != '/',
                !found ==> forall|t: int| 0 <= t < q ==> src@[t] != '/',
            decreases n - q,
        {
            if src.get_char(q) == '/' {
                pos = q;
                found = true;
            }
            q = q + 1;
        }
        let name: &str = if found {
            src.substring_char(pos + 1, n)
        } else {
            src
        };
        proof {
            if found {
                lemma_file_name_after_slash(src@, pos as int);
            } else {
                lemma_file_name_no_slash(src@);
            }
        }
        CopyStep { from: src.to_owned(), to: join_path(dest, name) }
    }
}

} // verus!
