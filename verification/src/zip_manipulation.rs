//! The zip container: archives are read from bytes and written to bytes by the
//! `zip` crate. What that crate computes is named here, not restated; the
//! functions of this module say how their results follow from those names.

use vstd::prelude::*;
use std::io::Cursor;
use std::io::Read;
use std::io::Write;
use zip::result::ZipError;
use zip::write::FileOptions;
use zip::ZipArchive;
use zip::ZipWriter;
use crate::archive::archive_wf;
use crate::archive::directory_name;
use crate::archive::directory_name_of;
use crate::archive::entry_names;
use crate::archive::entry_wf;
use crate::archive::is_directory_name;
use crate::archive::names_directory;
use crate::archive::Archive;
use crate::archive::ArchiveEntry;
use crate::archive::entries_view;
use crate::error::APMError;
use crate::error::APMErrorType;
use crate::text::str_eq;

verus! {

/// `std::io::Cursor`, carried through as an opaque value.
#[verifier::external_type_specification]
#[verifier::external_body]
#[verifier::reject_recursive_types(T)]
pub struct ExCursor<T>(Cursor<T>);

/// `zip::ZipArchive`, carried through as an opaque value.
#[verifier::external_type_specification]
#[verifier::external_body]
#[verifier::reject_recursive_types(R)]
pub struct ExZipArchive<R>(ZipArchive<R>);

/// `zip::result::ZipError`, carried through as an opaque value.
#[verifier::external_type_specification]
#[verifier::external_body]
pub struct ExZipError(ZipError);

/// A `zip::ZipWriter` that writes into memory, with every entry written under
/// the crate's default options.
#[verifier::external_body]
pub struct ZipSink {
    inner: ZipWriter<Cursor<Vec<u8>>>,
}

/// What `zip::ZipArchive::new` finds in `bytes`: nothing where it refuses
/// them, else the entries of the central directory in order, each with its
/// name and with the content that reading it yields, if reading it succeeds.
/// Entries are read with the empty password, so one that asks for another
/// cannot be read.
pub uninterp spec fn zip_listing(bytes: Seq<u8>) -> Option<Seq<(Seq<char>, Option<Seq<u8>>)>>;

/// The entries that an open archive holds, as [`zip_listing`] describes them.
pub uninterp spec fn archive_entries(archive: ZipArchive<Cursor<Vec<u8>>>) -> Seq<
    (Seq<char>, Option<Seq<u8>>),
>;

/// The entries written to a writer so far: stored name, whether the entry
/// was written as a directory, and content.
pub uninterp spec fn writer_entries(writer: ZipSink) -> Seq<(Seq<char>, bool, Seq<u8>)>;

/// The writer takes entries: it was not finished, and nothing that was asked
/// of it has failed.
pub uninterp spec fn writer_open(writer: ZipSink) -> bool;

/// `zip::ZipWriter::add_directory` succeeds on a writer that takes entries
/// and holds `before`, for the directory stored under `name`.
pub uninterp spec fn zip_takes_directory(
    before: Seq<(Seq<char>, bool, Seq<u8>)>,
    name: Seq<char>,
) -> bool;

/// `zip::ZipWriter::start_file` and the writing of `content` succeed on a
/// writer that takes entries and holds `before`, for the file `name`.
pub uninterp spec fn zip_takes_file(
    before: Seq<(Seq<char>, bool, Seq<u8>)>,
    name: Seq<char>,
    content: Seq<u8>,
) -> bool;

/// `zip::ZipWriter::finish` succeeds on a writer that takes entries and
/// holds `entries`.
pub uninterp spec fn zip_closes(entries: Seq<(Seq<char>, bool, Seq<u8>)>) -> bool;

/// The bytes of the archive that `zip::ZipWriter::finish` produces after the
/// given entries were written.
pub uninterp spec fn zip_image(entries: Seq<(Seq<char>, bool, Seq<u8>)>) -> Seq<u8>;

/// Position `i` holds the last entry listed under `name`.
pub open spec fn is_last_at(
    entries: Seq<(Seq<char>, Option<Seq<u8>>)>,
    name: Seq<char>,
    i: int,
) -> bool {
    &&& 0 <= i < entries.len()
    &&& entries[i].0 == name
    &&& forall|j: int| i < j < entries.len() ==> (#[trigger] entries[j]).0 != name
}

/// Some entry is listed under `name`.
pub open spec fn is_listed(entries: Seq<(Seq<char>, Option<Seq<u8>>)>, name: Seq<char>) -> bool {
    exists|i: int| 0 <= i < entries.len() && (#[trigger] entries[i]).0 == name
}

/// What a lookup by name finds: nothing where no entry is listed under
/// `name`, else the content of the last such entry, if it can be read.
pub open spec fn named_content(
    entries: Seq<(Seq<char>, Option<Seq<u8>>)>,
    name: Seq<char>,
) -> Option<Option<Seq<u8>>> {
    if is_listed(entries, name) {
        Some(entries[choose|i: int| is_last_at(entries, name, i)].1)
    } else {
        None
    }
}

/// Every entry can be read.
pub open spec fn all_readable(entries: Seq<(Seq<char>, Option<Seq<u8>>)>) -> bool {
    forall|i: int| 0 <= i < entries.len() ==> (#[trigger] entries[i]).1 is Some
}

/// An entry that was read is a directory where its name ends in a separator
/// and it holds no content; every entry with content is a file. So an empty
/// file under such a name is read back as a directory.
pub open spec fn read_as_directory(name: Seq<char>, content: Seq<u8>) -> bool {
    is_directory_name(name) && content.len() == 0
}

/// The entries with their kind and content, where every entry can be read.
pub open spec fn readable_entries(entries: Seq<(Seq<char>, Option<Seq<u8>>)>) -> Seq<
    (Seq<char>, bool, Seq<u8>),
> {
    Seq::new(
        entries.len(),
        |i: int| (entries[i].0, read_as_directory(entries[i].0, entries[i].1->0), entries[i].1->0),
    )
}

/// Calls `zip::ZipArchive::new` on a cursor over `bytes`. The crate parses
/// the central directory of the bytes it is given and nothing else, so what
/// it returns is named after the bytes.
#[verifier::external_body]
fn zip_open(bytes: Vec<u8>) -> (r: Result<ZipArchive<Cursor<Vec<u8>>>, ZipError>)
    ensures
        match r {
            Ok(archive) => zip_listing(bytes@) == Some(archive_entries(archive)),
            Err(_) => zip_listing(bytes@) is None,
        },
{
    ZipArchive::new(Cursor::new(bytes))
}

/// Calls `zip::ZipArchive::len`: the number of entries.
#[verifier::external_body]
fn zip_len(archive: &ZipArchive<Cursor<Vec<u8>>>) -> (n: usize)
    ensures
        n == archive_entries(*archive).len(),
{
    archive.len()
}

/// Calls `zip::ZipArchive::by_index_decrypt` with the empty password and
/// reads the entry to its end. The archive holds afterwards what it held
/// before. Success hands out the name and content of entry `index`; failure
/// means that there is no such entry or that it cannot be read.
#[verifier::external_body]
fn zip_read_index(archive: &mut ZipArchive<Cursor<Vec<u8>>>, index: usize) -> (r: Result<
    (String, Vec<u8>),
    ZipError,
>)
    ensures
        archive_entries(*final(archive)) == archive_entries(*old(archive)),
        match r {
            Ok((name, content)) => index < archive_entries(*old(archive)).len()
                && archive_entries(*old(archive))[index as int] == (name@, Some(content@)),
            Err(_) => index >= archive_entries(*old(archive)).len() || archive_entries(
                *old(archive),
            )[index as int].1 is None,
        },
{
    let mut file = match archive.by_index_decrypt(index, b"")? {
        Ok(file) => file,
        Err(_) => return Err(ZipError::UnsupportedArchive(ZipError::PASSWORD_REQUIRED)),
    };
    let name = file.name().to_owned();
    let mut content = Vec::new();
    file.read_to_end(&mut content)?;
    Ok((name, content))
}

/// Calls `zip::ZipArchive::by_name_decrypt` with the empty password and reads
/// the entry to its end. The crate looks a name up in a map that the last
/// entry of that name has won, and answers `FileNotFound` for a name that the
/// map lacks and for nothing else. The outer failure is that answer; the
/// inner one is every other failure of the lookup and of the reading.
#[verifier::external_body]
fn zip_read_named(archive: &mut ZipArchive<Cursor<Vec<u8>>>, name: &str) -> (r: Result<
    Result<Vec<u8>, ZipError>,
    ZipError,
>)
    ensures
        archive_entries(*final(archive)) == archive_entries(*old(archive)),
        match r {
            Ok(Ok(content)) => named_content(archive_entries(*old(archive)), name@) == Some(
                Some(content@),
            ),
            Ok(Err(_)) => named_content(archive_entries(*old(archive)), name@) == Some(
                None::<Seq<u8>>,
            ),
            Err(_) => named_content(archive_entries(*old(archive)), name@) is None,
        },
{
    let mut file = match archive.by_name_decrypt(name, b"") {
        Ok(Ok(file)) => file,
        Ok(Err(_)) => return Ok(Err(ZipError::UnsupportedArchive(ZipError::PASSWORD_REQUIRED))),
        Err(ZipError::FileNotFound) => return Err(ZipError::FileNotFound),
        Err(e) => return Ok(Err(e)),
    };
    let mut content = Vec::new();
    Ok(file.read_to_end(&mut content).map(|_| content).map_err(ZipError::Io))
}

/// The text of a `zip::result::ZipError`, by its `Display`.
#[verifier::external_body]
fn zip_error_text(e: &ZipError) -> (text: String) {
    e.to_string()
}

/// Calls `zip::ZipWriter::new` on an empty buffer.
#[verifier::external_body]
fn writer_new() -> (w: ZipSink)
    ensures
        writer_open(w),
        writer_entries(w) == Seq::<(Seq<char>, bool, Seq<u8>)>::empty(),
{
    ZipSink { inner: ZipWriter::new(Cursor::new(Vec::new())) }
}

/// Calls `zip::ZipWriter::add_directory`. The crate stores the name with a
/// `/` behind it unless it ends in `/` or `\` already. A writer that was
/// finished, or that has failed, fails again.
#[verifier::external_body]
fn writer_add_directory(w: &mut ZipSink, name: &str) -> (r: Result<(), ZipError>)
    ensures
        r is Ok <==> writer_open(*old(w)) && zip_takes_directory(
            writer_entries(*old(w)),
            directory_name(name@),
        ),
        r is Ok ==> writer_open(*final(w)) && writer_entries(*final(w)) == writer_entries(
            *old(w),
        ).push((directory_name(name@), true, Seq::<u8>::empty())),
{
    w.inner.add_directory(name, FileOptions::default())
}

/// Calls `zip::ZipWriter::start_file` and then writes `content` with one
/// `write_all`. The outer failure is that of the start, the inner one that of
/// the writing. A writer that was finished, or that has failed, fails again.
#[verifier::external_body]
fn writer_add_file(w: &mut ZipSink, name: &str, content: &[u8]) -> (r: Result<
    Result<(), ZipError>,
    ZipError,
>)
    ensures
        (r matches Ok(written) && written is Ok) <==> writer_open(*old(w)) && zip_takes_file(
            writer_entries(*old(w)),
            name@,
            content@,
        ),
        (r matches Ok(written) && written is Ok) ==> writer_open(*final(w)) && writer_entries(
            *final(w),
        ) == writer_entries(*old(w)).push((name@, false, content@)),
{
    w.inner.start_file(name, FileOptions::default())?;
    Ok(w.inner.write_all(content).map_err(ZipError::Io))
}

/// Calls `zip::ZipWriter::finish` and hands out the buffer. A writer that
/// was finished, or that has failed, fails again.
#[verifier::external_body]
fn writer_finish(w: &mut ZipSink) -> (r: Result<Vec<u8>, ZipError>)
    ensures
        r is Ok <==> writer_open(*old(w)) && zip_closes(writer_entries(*old(w))),
        r matches Ok(bytes) ==> bytes@ == zip_image(writer_entries(*old(w))),
{
    w.inner.finish().map(|cursor| cursor.into_inner())
}

/// What decoding makes of a listing: the entries with their kind and
/// content, or the kind of the failure. A listing is refused where the bytes
/// are no archive, where an entry cannot be read, and where a name occurs
/// twice.
pub open spec fn decoded(listing: Option<Seq<(Seq<char>, Option<Seq<u8>>)>>) -> Result<
    Seq<(Seq<char>, bool, Seq<u8>)>,
    APMErrorType,
> {
    match listing {
        None => Err(APMErrorType::ZIPArchiveOpenError),
        Some(entries) => if !all_readable(entries) {
            Err(APMErrorType::ZIPFileReadError)
        } else if !archive_wf(readable_entries(entries)) {
            Err(APMErrorType::ZIPArchiveOpenError)
        } else {
            Ok(readable_entries(entries))
        },
    }
}

/// The kinds of failure that writing an archive can end in.
pub open spec fn is_write_failure(kind: APMErrorType) -> bool {
    kind == APMErrorType::ZIPAddDirectoryError || kind == APMErrorType::ZIPStartFileError || kind
        == APMErrorType::ZIPFileCopyError || kind == APMErrorType::ZIPFinishError
}

/// Opens the archive that `bytes` hold.
pub fn read_archive_from_bytes(bytes: Vec<u8>) -> (r: Result<
    ZipArchive<Cursor<Vec<u8>>>,
    APMError,
>)
    ensures
        match r {
            Ok(archive) => zip_listing(bytes@) == Some(archive_entries(archive)),
            Err(e) => zip_listing(bytes@) is None && e.err_type
                == APMErrorType::ZIPArchiveOpenError,
        },
{
    match zip_open(bytes) {
        Ok(archive) => Ok(archive),
        Err(e) => Err(APMErrorType::ZIPArchiveOpenError.into_apm_error(zip_error_text(&e))),
    }
}

/// Reads the content stored under `name`. Where several entries bear the
/// name, the last one is read. A name that no entry bears is a find error;
/// an entry that is there and cannot be read is a read error.
pub fn extract_file_from_archive(archive: &mut ZipArchive<Cursor<Vec<u8>>>, name: &str) -> (r:
    Result<Vec<u8>, APMError>)
    ensures
        archive_entries(*final(archive)) == archive_entries(*old(archive)),
        match r {
            Ok(content) => named_content(archive_entries(*old(archive)), name@) == Some(
                Some(content@),
            ),
            Err(e) => match named_content(archive_entries(*old(archive)), name@) {
                None => e.err_type == APMErrorType::ZIPArchiveFileFindError,
                Some(found) => found is None && e.err_type == APMErrorType::ZIPFileReadError,
            },
        },
{
    match zip_read_named(archive, name) {
        Ok(Ok(content)) => Ok(content),
        Ok(Err(e)) => Err(APMErrorType::ZIPFileReadError.into_apm_error(zip_error_text(&e))),
        Err(e) => Err(APMErrorType::ZIPArchiveFileFindError.into_apm_error(zip_error_text(&e))),
    }
}

/// Reads every entry of an open archive into memory.
pub fn load_archive(archive: &mut ZipArchive<Cursor<Vec<u8>>>) -> (r: Result<Archive, APMError>)
    ensures
        archive_entries(*final(archive)) == archive_entries(*old(archive)),
        match r {
            Ok(loaded) => loaded.wf() && decoded(Some(archive_entries(*old(archive)))) == Ok::<
                Seq<(Seq<char>, bool, Seq<u8>)>,
                APMErrorType,
            >(loaded@),
            Err(e) => decoded(Some(archive_entries(*old(archive)))) == Err::<
                Seq<(Seq<char>, bool, Seq<u8>)>,
                APMErrorType,
            >(e.err_type),
        },
{
    let ghost listed = archive_entries(*archive);
    let n = zip_len(archive);
    let mut entries: Vec<ArchiveEntry> = Vec::new();
    let mut i: usize = 0;
    while i < n
        invariant
            archive_entries(*archive) == listed,
            archive_entries(*old(archive)) == listed,
            n == listed.len(),
            i <= n,
            entries@.len() == i,
            forall|k: int| 0 <= k < i ==> (#[trigger] listed[k]).1 is Some,
            forall|k: int|
                0 <= k < i ==> (#[trigger] entries@[k])@ == readable_entries(listed)[k],
        decreases n - i,
    {
        match zip_read_index(archive, i) {
            Ok((name, content)) => {
                let is_directory = names_directory(name.as_str()) && content.len() == 0;
                entries.push(ArchiveEntry::new(name, is_directory, content));
            },
            Err(e) => {
                assert(listed[i as int].1 is None);
                return Err(
                    APMErrorType::ZIPFileReadError.into_apm_error(zip_error_text(&e)),
                );
            },
        }
        i += 1;
    }
    assert(entries_view(entries@) == readable_entries(listed));
    Archive::from_entries(entries)
}

/// Decodes the archive that `bytes` hold.
pub fn open_from_bytes(bytes: Vec<u8>) -> (r: Result<Archive, APMError>)
    ensures
        match r {
            Ok(loaded) => loaded.wf() && decoded(zip_listing(bytes@)) == Ok::<
                Seq<(Seq<char>, bool, Seq<u8>)>,
                APMErrorType,
            >(loaded@),
            Err(e) => decoded(zip_listing(bytes@)) == Err::<
                Seq<(Seq<char>, bool, Seq<u8>)>,
                APMErrorType,
            >(e.err_type),
        },
{
    match read_archive_from_bytes(bytes) {
        Ok(archive) => {
            let mut archive = archive;
            load_archive(&mut archive)
        },
        Err(e) => Err(e),
    }
}

/// The writer takes the entry, after the entries `before`.
pub open spec fn zip_takes(
    before: Seq<(Seq<char>, bool, Seq<u8>)>,
    entry: (Seq<char>, bool, Seq<u8>),
) -> bool {
    if entry.1 {
        zip_takes_directory(before, entry.0)
    } else {
        zip_takes_file(before, entry.0, entry.2)
    }
}

/// The entries can be written: the writer takes each in its turn and then
/// finishes.
pub open spec fn zip_writable(entries: Seq<(Seq<char>, bool, Seq<u8>)>) -> bool {
    &&& forall|i: int|
        0 <= i < entries.len() ==> zip_takes(#[trigger] entries.take(i), entries[i])
    &&& zip_closes(entries)
}

/// A writer of archives: what was written so far, and the stored names that
/// are taken.
pub struct ArchiveWriter {
    sink: ZipSink,
    names: Vec<String>,
}

impl ArchiveWriter {
    /// The entries written so far: stored name, kind and content.
    pub closed spec fn entries(&self) -> Seq<(Seq<char>, bool, Seq<u8>)> {
        writer_entries(self.sink)
    }

    /// The writer takes entries: see [`writer_open`].
    pub closed spec fn is_open(&self) -> bool {
        writer_open(self.sink)
    }

    /// The stored names that are taken, in the order of their writing.
    pub closed spec fn names(&self) -> Seq<Seq<char>> {
        Seq::new(self.names@.len(), |i: int| self.names@[i]@)
    }

    /// The names that are taken are those of the entries written, and none
    /// occurs twice. This holds of a new writer, and as long as nothing that
    /// is asked of it fails.
    pub open spec fn wf(&self) -> bool {
        self.names() == entry_names(self.entries()) && self.names().no_duplicates()
    }

    fn holds(&self, name: &str) -> (r: bool)
        ensures
            r == self.names().contains(name@),
    {
        let mut i: usize = 0;
        while i < self.names.len()
            invariant
                i <= self.names.len(),
                forall|k: int| 0 <= k < i ==> self.names()[k] != name@,
            decreases self.names.len() - i,
        {
            if str_eq(self.names[i].as_str(), name) {
                assert(self.names()[i as int] == name@);
                return true;
            }
            i += 1;
        }
        false
    }
}

/// A writer that holds no entry yet.
pub fn begin_write() -> (w: ArchiveWriter)
    ensures
        w.is_open(),
        w.entries() == Seq::<(Seq<char>, bool, Seq<u8>)>::empty(),
        w.names() == Seq::<Seq<char>>::empty(),
        w.wf(),
{
    let w = ArchiveWriter { sink: writer_new(), names: Vec::new() };
    assert(w.names() == Seq::<Seq<char>>::empty());
    assert(entry_names(w.entries()) == Seq::<Seq<char>>::empty());
    w
}

/// Writes a directory entry, stored under [`directory_name`] of `name`. A
/// stored name that is taken is refused, and the writer stays as it was.
pub fn add_directory_to_archive(archive: &mut ArchiveWriter, name: &str) -> (r: Result<
    (),
    APMError,
>)
    ensures
        r is Ok <==> !old(archive).names().contains(directory_name(name@)) && old(archive).is_open() && zip_takes_directory(old(archive).entries(), directory_name(name@)),
        match r {
            Ok(_) => final(archive).is_open() && final(archive).entries() == old(archive).entries().push((directory_name(name@), true, Seq::<u8>::empty())) && final(archive).names() == old(archive).names().push(directory_name(name@)) && (old(archive).wf()
                ==> final(archive).wf()),
            Err(e) => e.err_type == APMErrorType::ZIPAddDirectoryError && (old(archive).names().contains(directory_name(name@)) ==> *final(archive) == *old(archive)),
        },
{
    let stored = directory_name_of(name);
    if archive.holds(stored.as_str()) {
        return Err(
            APMErrorType::ZIPAddDirectoryError.into_apm_error("Duplicate filename".to_owned()),
        );
    }
    match writer_add_directory(&mut archive.sink, name) {
        Ok(_) => {
            archive.names.push(stored);
            proof {
                assert(archive.names() == old(archive).names().push(directory_name(name@)));
                assert(entry_names(archive.entries()) == entry_names(old(archive).entries()).push(
                    directory_name(name@),
                ));
            }
            Ok(())
        },
        Err(e) => Err(APMErrorType::ZIPAddDirectoryError.into_apm_error(zip_error_text(&e))),
    }
}

/// Writes a file entry with the given content. A stored name that is taken
/// is refused, and the writer stays as it was.
pub fn add_file_to_archive(archive: &mut ArchiveWriter, file_name: &str, content: &[u8]) -> (r:
    Result<(), APMError>)
    ensures
        r is Ok <==> !old(archive).names().contains(file_name@) && old(archive).is_open()
            && zip_takes_file(old(archive).entries(), file_name@, content@),
        match r {
            Ok(_) => final(archive).is_open() && final(archive).entries() == old(archive).entries().push((file_name@, false, content@)) && final(archive).names() == old(archive).names().push(file_name@) && (old(archive).wf() ==> final(archive).wf()),
            Err(e) => if old(archive).names().contains(file_name@) {
                e.err_type == APMErrorType::ZIPStartFileError && *final(archive) == *old(archive)
            } else {
                e.err_type == APMErrorType::ZIPStartFileError || e.err_type
                    == APMErrorType::ZIPFileCopyError
            },
        },
{
    if archive.holds(file_name) {
        return Err(
            APMErrorType::ZIPStartFileError.into_apm_error("Duplicate filename".to_owned()),
        );
    }
    match writer_add_file(&mut archive.sink, file_name, content) {
        Ok(Ok(_)) => {
            archive.names.push(file_name.to_owned());
            proof {
                assert(archive.names() == old(archive).names().push(file_name@));
                assert(entry_names(archive.entries()) == entry_names(old(archive).entries()).push(
                    file_name@,
                ));
            }
            Ok(())
        },
        Ok(Err(e)) => Err(APMErrorType::ZIPFileCopyError.into_apm_error(zip_error_text(&e))),
        Err(e) => Err(APMErrorType::ZIPStartFileError.into_apm_error(zip_error_text(&e))),
    }
}

/// Completes the archive and hands out its bytes.
pub fn finish_archive(archive: &mut ArchiveWriter) -> (r: Result<Vec<u8>, APMError>)
    ensures
        r is Ok <==> old(archive).is_open() && zip_closes(old(archive).entries()),
        match r {
            Ok(bytes) => bytes@ == zip_image(old(archive).entries()),
            Err(e) => e.err_type == APMErrorType::ZIPFinishError,
        },
{
    match writer_finish(&mut archive.sink) {
        Ok(bytes) => Ok(bytes),
        Err(e) => Err(APMErrorType::ZIPFinishError.into_apm_error(zip_error_text(&e))),
    }
}

/// Encodes an archive: its entries are written in order, directories as
/// directory entries and all others as files.
pub fn write_archive(archive: &Archive) -> (r: Result<Vec<u8>, APMError>)
    ensures
        r is Ok <==> zip_writable(archive@),
        match r {
            Ok(bytes) => bytes@ == zip_image(archive@),
            Err(e) => is_write_failure(e.err_type),
        },
{
    let mut writer = begin_write();
    let count = archive.len();
    let mut i: usize = 0;
    while i < count
        invariant
            archive.wf(),
            count == archive@.len(),
            i <= count,
            writer.is_open(),
            writer.wf(),
            writer.entries() == archive@.take(i as int),
            forall|k: int| 0 <= k < i ==> zip_takes(#[trigger] archive@.take(k), archive@[k]),
        decreases count - i,
    {
        let e = archive.entry(i);
        proof {
            assert(entry_wf(archive@[i as int]));
            assert(e.is_directory ==> directory_name(e@.0) == e@.0 && e@.2 == Seq::<u8>::empty());
            if writer.names().contains(e@.0) {
                let k = choose|k: int| 0 <= k < i && entry_names(archive@.take(i as int))[k] == e@.0;
                assert(archive@[k].0 != archive@[i as int].0);
            }
        }
        if e.is_directory {
            match add_directory_to_archive(&mut writer, e.stored_name.as_str()) {
                Ok(_) => {},
                Err(err) => {
                    assert(!zip_takes(archive@.take(i as int), archive@[i as int]));
                    return Err(err);
                },
            }
        } else {
            match add_file_to_archive(&mut writer, e.stored_name.as_str(), e.content.as_slice()) {
                Ok(_) => {},
                Err(err) => {
                    assert(!zip_takes(archive@.take(i as int), archive@[i as int]));
                    return Err(err);
                },
            }
        }
        assert(archive@.take(i + 1) == archive@.take(i as int).push(archive@[i as int]));
        i += 1;
    }
    assert(archive@.take(archive@.len() as int) == archive@);
    finish_archive(&mut writer)
}

} // verus!
