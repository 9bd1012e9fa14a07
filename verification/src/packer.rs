//! Packing a directory tree: what a traversal of the tree found becomes the
//! entries of an archive and, where asked for, a manifest of the paths.

use vstd::prelude::*;
use vstd::string::StringExecFns;
use crate::archive::archive_wf;
use crate::archive::directory_name;
use crate::archive::has_entry;
use crate::archive::entry_wf;
use crate::archive::is_directory_name;
use crate::archive::lemma_push_wf;
use crate::archive::Archive;
use crate::error::APMError;
use crate::error::APMErrorType;
use crate::text::copy_bytes;
use crate::text::str_eq;
use crate::text::to_chars;
use crate::zip_manipulation::is_write_failure;
use crate::zip_manipulation::write_archive;
use crate::zip_manipulation::zip_image;
use crate::zip_manipulation::zip_writable;

verus! {

/// What a traversal found at one step, in the order of the traversal.
pub enum WalkedItem {
    /// The traversal itself failed here.
    Failure { detail: String },
    /// A directory.
    Directory { path: String },
    /// A regular file and its bytes.
    File { path: String, content: Vec<u8> },
    /// A regular file that could not be opened.
    UnreadableFile { path: String, detail: String },
    /// A regular file that was opened and then failed while it was read.
    FailedRead { path: String, detail: String },
    /// A symbolic link; `file_name` is the last component of its path.
    Symlink { path: String, file_name: String },
    /// Anything else: a socket, a device.
    Other { path: String },
}

/// `s` without the separators at its start.
pub open spec fn skip_separators(s: Seq<char>) -> Seq<char>
    decreases s.len(),
{
    if s.len() > 0 && s[0] == '/' {
        skip_separators(s.drop_first())
    } else {
        s
    }
}

/// `path` lies under `root`: it starts with `root`, and what follows starts a
/// new component.
pub open spec fn is_under(path: Seq<char>, root: Seq<char>) -> bool {
    &&& 0 < root.len() <= path.len()
    &&& path.take(root.len() as int) == root
    &&& (root.last() == '/' || path.len() == root.len() || path[root.len() as int] == '/')
}

/// The name under which `path` is stored: `path` itself where full paths are
/// kept or where `path` does not lie under `root`; else what follows `root`
/// in `path`, without the separators in between.
pub open spec fn stored_name(path: Seq<char>, root: Seq<char>, keep_full: bool) -> Seq<char> {
    if keep_full || !is_under(path, root) {
        path
    } else {
        skip_separators(path.skip(root.len() as int))
    }
}

/// The entries and the manifest after one more item. The root itself and
/// items that are neither file nor directory are passed over. A failure of
/// the traversal, a symbolic link, a file that cannot be opened or read to
/// its end, and a stored name that is taken each end the packing.
pub open spec fn pack_step(
    entries: Seq<(Seq<char>, bool, Seq<u8>)>,
    manifest: Seq<(Seq<char>, Seq<char>)>,
    item: WalkedItem,
    root: Seq<char>,
    keep_full: bool,
) -> Result<(Seq<(Seq<char>, bool, Seq<u8>)>, Seq<(Seq<char>, Seq<char>)>), APMErrorType> {
    match item {
        WalkedItem::Failure { detail } => Err(APMErrorType::WalkdirError),
        WalkedItem::Directory { path } => {
            let stored = stored_name(path@, root, keep_full);
            if path@ == root {
                Ok((entries, manifest))
            } else if has_entry(entries, directory_name(stored)) {
                Err(APMErrorType::ZIPAddDirectoryError)
            } else {
                Ok(
                    (
                        entries.push((directory_name(stored), true, Seq::<u8>::empty())),
                        manifest.push((path@, stored)),
                    ),
                )
            }
        },
        WalkedItem::File { path, content } => {
            let stored = stored_name(path@, root, keep_full);
            if path@ == root {
                Ok((entries, manifest))
            } else if has_entry(entries, stored) {
                Err(APMErrorType::ZIPStartFileError)
            } else {
                Ok((entries.push((stored, false, content@)), manifest.push((path@, stored))))
            }
        },
        WalkedItem::UnreadableFile { path, detail } => if path@ == root {
            Ok((entries, manifest))
        } else {
            Err(APMErrorType::FileOpenError)
        },
        WalkedItem::FailedRead { path, detail } => if path@ == root {
            Ok((entries, manifest))
        } else {
            Err(APMErrorType::ZIPFileCopyError)
        },
        WalkedItem::Symlink { path, file_name } => if path@ == root {
            Ok((entries, manifest))
        } else {
            Err(APMErrorType::SymlinkFoundError)
        },
        WalkedItem::Other { path } => Ok((entries, manifest)),
    }
}

/// The entries and the manifest that the items give, taken in order; the
/// first item that ends the packing decides the failure.
pub open spec fn packed(items: Seq<WalkedItem>, root: Seq<char>, keep_full: bool) -> Result<
    (Seq<(Seq<char>, bool, Seq<u8>)>, Seq<(Seq<char>, Seq<char>)>),
    APMErrorType,
>
    decreases items.len(),
{
    if items.len() == 0 {
        Ok((Seq::empty(), Seq::empty()))
    } else {
        match packed(items.drop_last(), root, keep_full) {
            Err(kind) => Err(kind),
            Ok((entries, manifest)) => pack_step(
                entries,
                manifest,
                items.last(),
                root,
                keep_full,
            ),
        }
    }
}

/// A manifest by the characters of its paths.
pub open spec fn manifest_view(manifest: Seq<(String, String)>) -> Seq<(Seq<char>, Seq<char>)> {
    Seq::new(manifest.len(), |i: int| (manifest[i].0@, manifest[i].1@))
}

/// The name under which `path` is stored.
pub fn stored_name_of(path: &str, root: &str, keep_full: bool) -> (r: String)
    ensures
        r@ == stored_name(path@, root@, keep_full),
{
    if keep_full {
        return path.to_owned();
    }
    let p = to_chars(path);
    let base = to_chars(root);
    if base.len() == 0 || base.len() > p.len() {
        return path.to_owned();
    }
    let mut i: usize = 0;
    while i < base.len()
        invariant
            i <= base.len() <= p.len(),
            p@ == path@,
            base@ == root@,
            !keep_full,
            p@.take(i as int) == base@.take(i as int),
        decreases base.len() - i,
    {
        if p[i] != base[i] {
            assert(p@.take(base@.len() as int)[i as int] != base@[i as int]);
            return path.to_owned();
        }
        assert(p@.take(i + 1) == p@.take(i as int).push(p@[i as int]));
        assert(base@.take(i + 1) == base@.take(i as int).push(base@[i as int]));
        i += 1;
    }
    assert(base@.take(base@.len() as int) == base@);
    if !(base[base.len() - 1] == '/' || p.len() == base.len() || p[base.len()] == '/') {
        return path.to_owned();
    }
    let mut k: usize = base.len();
    while k < p.len() && p[k] == '/'
        invariant
            base.len() <= k <= p.len(),
            skip_separators(p@.skip(base@.len() as int)) == skip_separators(p@.skip(k as int)),
        decreases p.len() - k,
    {
        assert(p@.skip(k as int).drop_first() == p@.skip(k + 1));
        k += 1;
    }
    assert(p@.skip(k as int) == p@.subrange(k as int, p@.len() as int));
    path.substring_char(k, p.len()).to_owned()
}

/// The manifest that is handed out: the paths where one was asked for, else
/// none at all.
pub open spec fn manifest_is(
    manifest: Option<Vec<(String, String)>>,
    paths: Seq<(Seq<char>, Seq<char>)>,
    track: bool,
) -> bool {
    match manifest {
        Some(m) => track && manifest_view(m@) == paths,
        None => !track,
    }
}

/// Once the packing has failed, further items change nothing.
pub proof fn lemma_packed_failure(items: Seq<WalkedItem>, n: int, root: Seq<char>, keep_full: bool)
    requires
        0 <= n <= items.len(),
        packed(items.take(n), root, keep_full) is Err,
    ensures
        packed(items, root, keep_full) == packed(items.take(n), root, keep_full),
    decreases items.len(),
{
    if n == items.len() {
        assert(items.take(n) == items);
    } else {
        assert(items.drop_last().take(n) == items.take(n));
        lemma_packed_failure(items.drop_last(), n, root, keep_full);
    }
}

/// What the failure says where the traversal, a file that cannot be read or
/// a symbolic link ends the packing: the words of the traversal; the reason
/// and the path of the file; the name of the link.
pub open spec fn failure_detail(item: WalkedItem) -> Option<Seq<char>> {
    match item {
        WalkedItem::Failure { detail } => Some(detail@),
        WalkedItem::UnreadableFile { path, detail } => Some(detail@ + "\nFile:"@ + path@),
        WalkedItem::FailedRead { path, detail } => Some(detail@),
        WalkedItem::Symlink { path, file_name } => Some(
            "Found symlink at path "@ + file_name@ + "\nSymlinks cannot be compressed."@,
        ),
        _ => None,
    }
}

/// The packing ends at item `i`: the items before it are packed, and with
/// it the packing fails.
pub open spec fn ends_at(items: Seq<WalkedItem>, root: Seq<char>, keep_full: bool, i: int) -> bool {
    &&& 0 <= i < items.len()
    &&& packed(items.take(i), root, keep_full) is Ok
    &&& packed(items.take(i + 1), root, keep_full) is Err
}

/// The failure says what [`failure_detail`] gives for the item at which the
/// packing ends.
pub open spec fn says_why(
    e: APMError,
    items: Seq<WalkedItem>,
    root: Seq<char>,
    keep_full: bool,
) -> bool {
    exists|i: int|
        #[trigger] ends_at(items, root, keep_full, i) && (failure_detail(items[i]) matches Some(
            text,
        ) ==> e.msg@ == text)
}

fn pack_failure(kind: APMErrorType, detail: String) -> (r: Result<
    (Archive, Option<Vec<(String, String)>>),
    APMError,
>)
    ensures
        r matches Err(e) && e.err_type == kind && e.msg == detail,
{
    Err(kind.into_apm_error(detail))
}

/// Packs what a traversal of `path` found into an archive held in memory.
pub fn pack_items(
    path: &str,
    items: &Vec<WalkedItem>,
    track_file_names: bool,
    dont_strip_base_dir: bool,
) -> (r: Result<(Archive, Option<Vec<(String, String)>>), APMError>)
    ensures
        match r {
            Ok((archive, manifest)) => packed(items@, path@, dont_strip_base_dir) matches Ok(p)
                && p.0 == archive@ && manifest_is(manifest, p.1, track_file_names)
                && archive.wf(),
            Err(e) => packed(items@, path@, dont_strip_base_dir) matches Err(kind) && kind
                == e.err_type && says_why(e, items@, path@, dont_strip_base_dir),
        },
{
    let mut archive = Archive::new();
    let mut names: Vec<(String, String)> = Vec::new();
    let ghost mut paths: Seq<(Seq<char>, Seq<char>)> = Seq::empty();
    let mut i: usize = 0;
    while i < items.len()
        invariant
            i <= items.len(),
            archive.wf(),
            packed(items@.take(i as int), path@, dont_strip_base_dir) == Ok::<
                (Seq<(Seq<char>, bool, Seq<u8>)>, Seq<(Seq<char>, Seq<char>)>),
                APMErrorType,
            >((archive@, paths)),
            track_file_names ==> manifest_view(names@) == paths,
        decreases items.len() - i,
    {
        proof {
            assert(items@.take(i + 1).drop_last() == items@.take(i as int));
            assert(items@.take(i + 1).last() == items@[i as int]);
            if pack_step(archive@, paths, items@[i as int], path@, dont_strip_base_dir) is Err {
                lemma_packed_failure(items@, i + 1, path@, dont_strip_base_dir);
                assert(ends_at(items@, path@, dont_strip_base_dir, i as int));
            }
        }
        match &items[i] {
            WalkedItem::Failure { detail } => {
                return pack_failure(APMErrorType::WalkdirError, detail.clone());
            },
            WalkedItem::Directory { path: found } => {
                if !str_eq(found.as_str(), path) {
                    let stored = stored_name_of(found.as_str(), path, dont_strip_base_dir);
                    match archive.add_directory(stored.as_str()) {
                        Ok(_) => {},
                        Err(e) => {
                            return Err(e);
                        },
                    }
                    proof {
                        paths = paths.push((found@, stored@));
                    }
                    if track_file_names {
                        names.push((found.clone(), stored));
                        assert(manifest_view(names@) == paths);
                    }
                }
            },
            WalkedItem::File { path: found, content } => {
                if !str_eq(found.as_str(), path) {
                    let stored = stored_name_of(found.as_str(), path, dont_strip_base_dir);
                    match archive.add_file(stored.as_str(), copy_bytes(content.as_slice())) {
                        Ok(_) => {},
                        Err(e) => {
                            return Err(e);
                        },
                    }
                    proof {
                        paths = paths.push((found@, stored@));
                    }
                    if track_file_names {
                        names.push((found.clone(), stored));
                        assert(manifest_view(names@) == paths);
                    }
                }
            },
            WalkedItem::UnreadableFile { path: found, detail } => {
                if !str_eq(found.as_str(), path) {
                    let text = detail.clone().concat("\nFile:").concat(found.as_str());
                    return pack_failure(APMErrorType::FileOpenError, text);
                }
            },
            WalkedItem::FailedRead { path: found, detail } => {
                if !str_eq(found.as_str(), path) {
                    return pack_failure(APMErrorType::ZIPFileCopyError, detail.clone());
                }
            },
            WalkedItem::Symlink { path: found, file_name } => {
                if !str_eq(found.as_str(), path) {
                    let text = "Found symlink at path ".to_owned().concat(
                        file_name.as_str(),
                    ).concat("\nSymlinks cannot be compressed.");
                    return pack_failure(APMErrorType::SymlinkFoundError, text);
                }
            },
            WalkedItem::Other { path: found } => {},
        }
        i += 1;
    }
    assert(items@.take(items@.len() as int) == items@);
    if track_file_names {
        Ok((archive, Some(names)))
    } else {
        Ok((archive, None))
    }
}

/// Packs what a traversal of `path` found into the bytes of a zip archive.
/// The root itself is left out. With `track_file_names` the manifest of
/// original paths and stored names comes too; with `dont_strip_base_dir` the
/// stored names are the full paths.
pub fn compress_directory(
    path: &str,
    items: &Vec<WalkedItem>,
    track_file_names: bool,
    dont_strip_base_dir: bool,
) -> (r: Result<(Vec<u8>, Option<Vec<(String, String)>>), APMError>)
    ensures
        r is Ok <==> (packed(items@, path@, dont_strip_base_dir) matches Ok(p) && zip_writable(
            p.0,
        )),
        match r {
            Ok((bytes, manifest)) => packed(items@, path@, dont_strip_base_dir) matches Ok(p)
                && bytes@ == zip_image(p.0) && manifest_is(manifest, p.1, track_file_names),
            Err(e) => match packed(items@, path@, dont_strip_base_dir) {
                Err(kind) => e.err_type == kind && says_why(e, items@, path@, dont_strip_base_dir),
                Ok(_) => is_write_failure(e.err_type),
            },
        },
{
    match pack_items(path, items, track_file_names, dont_strip_base_dir) {
        Ok((archive, manifest)) => match write_archive(&archive) {
            Ok(bytes) => Ok((bytes, manifest)),
            Err(e) => Err(e),
        },
        Err(e) => Err(e),
    }
}

/// The item is a file or a directory other than the root.
pub open spec fn is_packable(item: WalkedItem, root: Seq<char>) -> bool {
    match item {
        WalkedItem::Directory { path } => path@ != root,
        WalkedItem::File { path, content } => path@ != root,
        _ => false,
    }
}

/// The files and directories among the items, other than the root, in order.
pub open spec fn packable(items: Seq<WalkedItem>, root: Seq<char>) -> Seq<WalkedItem>
    decreases items.len(),
{
    if items.len() == 0 {
        items
    } else if is_packable(items.last(), root) {
        packable(items.drop_last(), root).push(items.last())
    } else {
        packable(items.drop_last(), root)
    }
}

/// The manifest line of a file or directory.
pub open spec fn manifest_line(item: WalkedItem, root: Seq<char>, keep_full: bool) -> (
    Seq<char>,
    Seq<char>,
) {
    match item {
        WalkedItem::Directory { path } => (path@, stored_name(path@, root, keep_full)),
        WalkedItem::File { path, content } => (path@, stored_name(path@, root, keep_full)),
        _ => (Seq::empty(), Seq::empty()),
    }
}

/// The archive entry of a file or directory.
pub open spec fn entry_of(item: WalkedItem, root: Seq<char>, keep_full: bool) -> (
    Seq<char>,
    bool,
    Seq<u8>,
) {
    match item {
        WalkedItem::Directory { path } => (
            directory_name(stored_name(path@, root, keep_full)),
            true,
            Seq::empty(),
        ),
        WalkedItem::File { path, content } => (
            stored_name(path@, root, keep_full),
            false,
            content@,
        ),
        _ => (Seq::empty(), false, Seq::empty()),
    }
}

/// A packing that succeeds yields one entry and one manifest line for each
/// file and each directory of the tree, in the order of the traversal: the
/// manifest line holds the original path and that path with the root taken
/// off (the path itself where full paths are kept), and the entry is stored
/// under that name, a directory with its separator. No stored name occurs
/// twice.
pub proof fn lemma_packed_entries(items: Seq<WalkedItem>, root: Seq<char>, keep_full: bool)
    requires
        packed(items, root, keep_full) is Ok,
    ensures
        ({
            let p = packed(items, root, keep_full)->Ok_0;
            let found = packable(items, root);
            &&& p.0.len() == found.len()
            &&& p.1.len() == found.len()
            &&& archive_wf(p.0)
            &&& forall|k: int|
                0 <= k < found.len() ==> #[trigger] p.0[k] == entry_of(found[k], root, keep_full)
            &&& forall|k: int|
                0 <= k < found.len() ==> #[trigger] p.1[k] == manifest_line(
                    found[k],
                    root,
                    keep_full,
                )
        }),
    decreases items.len(),
{
    if items.len() > 0 {
        let front = items.drop_last();
        lemma_packed_entries(front, root, keep_full);
        let before = packed(front, root, keep_full)->Ok_0;
        let p = packed(items, root, keep_full)->Ok_0;
        if is_packable(items.last(), root) {
            let e = entry_of(items.last(), root, keep_full);
            assert(p.0 == before.0.push(e));
            assert(!has_entry(before.0, e.0));
            assert(entry_wf(e)) by {
                assert(is_directory_name(directory_name(e.0)) || !e.1);
            }
            lemma_push_wf(before.0, e);
        } else {
            assert(p == before);
        }
    }
}

/// A symbolic link in the tree ends the packing in failure: with
/// `SymlinkFoundError` where nothing before the link has ended it already.
pub proof fn lemma_symlink_fails(items: Seq<WalkedItem>, k: int, root: Seq<char>, keep_full: bool)
    requires
        0 <= k < items.len(),
        items[k] matches WalkedItem::Symlink { path, file_name } && path@ != root,
    ensures
        packed(items, root, keep_full) is Err,
        packed(items.take(k), root, keep_full) is Ok ==> packed(items, root, keep_full) == Err::<
            (Seq<(Seq<char>, bool, Seq<u8>)>, Seq<(Seq<char>, Seq<char>)>),
            APMErrorType,
        >(APMErrorType::SymlinkFoundError),
{
    assert(items.take(k + 1).drop_last() == items.take(k));
    assert(items.take(k + 1).last() == items[k]);
    lemma_packed_failure(items, k + 1, root, keep_full);
}

} // verus!
