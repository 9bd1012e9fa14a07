//! An archive as a value: the entries of a package, in order, each with its
//! stored name, its kind and its content. Dates, permissions and the way an
//! entry was compressed are no part of the value: a container that is read
//! and written again keeps names, kinds and contents, and nothing else.

use vstd::prelude::*;
use crate::error::APMError;
use crate::error::APMErrorType;
use crate::text::copy_bytes;
use crate::text::str_eq;
use crate::text::to_chars;

verus! {

/// The name is one under which a directory is stored: it ends in a
/// separator. A file may bear such a name too.
pub open spec fn is_directory_name(name: Seq<char>) -> bool {
    name.len() > 0 && (name.last() == '/' || name.last() == '\\')
}

/// The stored name of the directory `name`: `name` itself where it already
/// ends in a separator, else `name` followed by `/`.
pub open spec fn directory_name(name: Seq<char>) -> Seq<char> {
    if is_directory_name(name) {
        name
    } else {
        name.push('/')
    }
}

/// Some entry is stored under `name`.
pub open spec fn has_entry(entries: Seq<(Seq<char>, bool, Seq<u8>)>, name: Seq<char>) -> bool {
    exists|i: int| 0 <= i < entries.len() && (#[trigger] entries[i]).0 == name
}

/// Position `i` holds the first entry stored under `name`.
pub open spec fn is_first_at(entries: Seq<(Seq<char>, bool, Seq<u8>)>, name: Seq<char>, i: int) -> bool {
    &&& 0 <= i < entries.len()
    &&& entries[i].0 == name
    &&& forall|j: int| 0 <= j < i ==> (#[trigger] entries[j]).0 != name
}

/// A directory is stored under the name of a directory and holds no
/// content; a file is stored under whatever name it has.
pub open spec fn entry_wf(entry: (Seq<char>, bool, Seq<u8>)) -> bool {
    entry.1 ==> is_directory_name(entry.0) && entry.2.len() == 0
}

/// No stored name occurs twice, and every entry meets [`entry_wf`].
pub open spec fn archive_wf(entries: Seq<(Seq<char>, bool, Seq<u8>)>) -> bool {
    &&& forall|i: int, j: int|
        0 <= i < j < entries.len() ==> (#[trigger] entries[i]).0 != (#[trigger] entries[j]).0
    &&& forall|i: int| 0 <= i < entries.len() ==> entry_wf(#[trigger] entries[i])
}

/// One entry of an archive: its stored name, whether it is a directory,
/// and its content.
pub struct ArchiveEntry {
    pub stored_name: String,
    pub is_directory: bool,
    pub content: Vec<u8>,
}

impl View for ArchiveEntry {
    type V = (Seq<char>, bool, Seq<u8>);

    open spec fn view(&self) -> (Seq<char>, bool, Seq<u8>) {
        (self.stored_name@, self.is_directory, self.content@)
    }
}

/// Whether `name` ends in a separator.
pub fn names_directory(name: &str) -> (r: bool)
    ensures
        r == is_directory_name(name@),
{
    let chars = to_chars(name);
    if chars.len() == 0 {
        false
    } else {
        let last = chars[chars.len() - 1];
        last == '/' || last == '\\'
    }
}

/// The stored name of the directory `name`.
pub fn directory_name_of(name: &str) -> (r: String)
    ensures
        r@ == directory_name(name@),
{
    if names_directory(name) {
        name.to_owned()
    } else {
        proof {
            reveal_strlit("/");
        }
        let r = name.to_owned().concat("/");
        assert(r@ == name@.push('/'));
        r
    }
}

impl ArchiveEntry {
    /// The entry of the given name, kind and content.
    pub fn new(stored_name: String, is_directory: bool, content: Vec<u8>) -> (e: ArchiveEntry)
        ensures
            e@ == (stored_name@, is_directory, content@),
    {
        ArchiveEntry { stored_name, is_directory, content }
    }

    /// A fresh copy of the entry.
    pub fn duplicate(&self) -> (e: ArchiveEntry)
        ensures
            e@ == self@,
    {
        ArchiveEntry {
            stored_name: self.stored_name.clone(),
            is_directory: self.is_directory,
            content: copy_bytes(self.content.as_slice()),
        }
    }
}

/// The entries of `v`, each by its view.
pub open spec fn entries_view(v: Seq<ArchiveEntry>) -> Seq<(Seq<char>, bool, Seq<u8>)> {
    Seq::new(v.len(), |i: int| v[i]@)
}

/// An archive held in memory.
pub struct Archive {
    entries: Vec<ArchiveEntry>,
}

impl View for Archive {
    type V = Seq<(Seq<char>, bool, Seq<u8>)>;

    closed spec fn view(&self) -> Seq<(Seq<char>, bool, Seq<u8>)> {
        entries_view(self.entries@)
    }
}

impl Archive {
    #[verifier::type_invariant]
    spec fn well_formed(self) -> bool {
        archive_wf(entries_view(self.entries@))
    }

    /// The invariant that every archive meets: see [`archive_wf`].
    pub open spec fn wf(&self) -> bool {
        archive_wf(self@)
    }

    /// The archive without entries.
    pub fn new() -> (a: Archive)
        ensures
            a@ == Seq::<(Seq<char>, bool, Seq<u8>)>::empty(),
            a.wf(),
    {
        Archive { entries: Vec::new() }
    }

    /// The number of entries.
    pub fn len(&self) -> (n: usize)
        ensures
            n == self@.len(),
            self.wf(),
    {
        proof {
            use_type_invariant(self);
        }
        self.entries.len()
    }

    /// The entry at position `i`.
    pub fn entry(&self, i: usize) -> (e: &ArchiveEntry)
        requires
            i < self@.len(),
        ensures
            e@ == self@[i as int],
    {
        &self.entries[i]
    }

    /// The position of the first entry stored under `name`.
    pub fn find(&self, name: &str) -> (r: Option<usize>)
        ensures
            match r {
                Some(i) => is_first_at(self@, name@, i as int),
                None => !has_entry(self@, name@),
            },
            self.wf(),
    {
        proof {
            use_type_invariant(self);
        }
        let mut i: usize = 0;
        while i < self.entries.len()
            invariant
                i <= self.entries.len(),
                self.wf(),
                forall|j: int| 0 <= j < i ==> (#[trigger] self@[j]).0 != name@,
            decreases self.entries.len() - i,
        {
            if str_eq(self.entries[i].stored_name.as_str(), name) {
                return Some(i);
            }
            i += 1;
        }
        None
    }

    /// Whether an entry is stored under `name`.
    pub fn contains(&self, name: &str) -> (r: bool)
        ensures
            r == has_entry(self@, name@),
            self.wf(),
    {
        self.find(name).is_some()
    }

    /// The content stored under `name`.
    pub fn read_entry(&self, name: &str) -> (r: Result<Vec<u8>, APMError>)
        ensures
            match r {
                Ok(content) => exists|i: int|
                    is_first_at(self@, name@, i) && content@ == self@[i].2,
                Err(e) => !has_entry(self@, name@) && e.err_type
                    == APMErrorType::ZIPArchiveFileFindError,
            },
    {
        match self.find(name) {
            Some(i) => {
                let content = copy_bytes(self.entries[i].content.as_slice());
                assert(is_first_at(self@, name@, i as int) && content@ == self@[i as int].2);
                Ok(content)
            },
            None => Err(
                APMErrorType::ZIPArchiveFileFindError.into_apm_error(
                    "specified file not found in archive".to_owned(),
                ),
            ),
        }
    }

    /// The stored names in order, each with whether it is a directory.
    pub fn list_entries(&self) -> (r: Vec<(String, bool)>)
        ensures
            r@.len() == self@.len(),
            forall|i: int|
                0 <= i < self@.len() ==> (#[trigger] r@[i]).0@ == self@[i].0 && r@[i].1
                    == self@[i].1,
    {
        let mut r: Vec<(String, bool)> = Vec::new();
        let mut i: usize = 0;
        while i < self.entries.len()
            invariant
                i <= self.entries.len(),
                r@.len() == i,
                forall|k: int|
                    0 <= k < i ==> (#[trigger] r@[k]).0@ == self@[k].0 && r@[k].1
                        == self@[k].1,
            decreases self.entries.len() - i,
        {
            let e = &self.entries[i];
            r.push((e.stored_name.clone(), e.is_directory));
            i += 1;
        }
        r
    }

    /// Adds a directory. Its stored name is [`directory_name`] of `name`; a
    /// name that is taken is refused.
    pub fn add_directory(&mut self, name: &str) -> (r: Result<(), APMError>)
        ensures
            final(self).wf(),
            match r {
                Ok(_) => !has_entry(old(self)@, directory_name(name@)) && final(self)@ == old(self)@.push((directory_name(name@), true, Seq::<u8>::empty())),
                Err(e) => has_entry(old(self)@, directory_name(name@)) && final(self)@ == old(self)@ && e.err_type == APMErrorType::ZIPAddDirectoryError,
            },
    {
        proof {
            use_type_invariant(&*self);
        }
        let stored = directory_name_of(name);
        if self.contains(stored.as_str()) {
            return Err(
                APMErrorType::ZIPAddDirectoryError.into_apm_error(
                    "Duplicate filename".to_owned(),
                ),
            );
        }
        let entry = ArchiveEntry { stored_name: stored, is_directory: true, content: Vec::new() };
        proof {
            lemma_push_wf(self@, entry@);
            assert(entries_view(self.entries@.push(entry)) == self@.push(entry@));
        }
        let mut entries: Vec<ArchiveEntry> = Vec::new();
        std::mem::swap(&mut self.entries, &mut entries);
        entries.push(entry);
        self.entries = entries;
        assert(self@ == old(self)@.push((directory_name(name@), true, Seq::<u8>::empty())));
        Ok(())
    }

    /// Adds a file. A name that is taken is refused.
    pub fn add_file(&mut self, name: &str, content: Vec<u8>) -> (r: Result<(), APMError>)
        ensures
            final(self).wf(),
            match r {
                Ok(_) => !has_entry(old(self)@, name@) && final(self)@ == old(self)@.push(
                    (name@, false, content@),
                ),
                Err(e) => has_entry(old(self)@, name@) && final(self)@ == old(self)@ && e.err_type
                    == APMErrorType::ZIPStartFileError,
            },
    {
        proof {
            use_type_invariant(&*self);
        }
        if self.contains(name) {
            return Err(
                APMErrorType::ZIPStartFileError.into_apm_error("Duplicate filename".to_owned()),
            );
        }
        let entry = ArchiveEntry { stored_name: name.to_owned(), is_directory: false, content };
        proof {
            lemma_push_wf(self@, entry@);
            assert(entries_view(self.entries@.push(entry)) == self@.push(entry@));
        }
        let mut entries: Vec<ArchiveEntry> = Vec::new();
        std::mem::swap(&mut self.entries, &mut entries);
        entries.push(entry);
        self.entries = entries;
        assert(self@ == old(self)@.push((name@, false, content@)));
        Ok(())
    }

    /// Stores the file `content` under `name`: in place of the first entry
    /// of that name where there is one, else as a new last entry.
    pub fn put_file(&mut self, name: &str, content: Vec<u8>)
        ensures
            final(self).wf(),
            final(self)@ == stored_under(old(self)@, name@, content@),
    {
        proof {
            use_type_invariant(&*self);
        }
        let entry = ArchiveEntry { stored_name: name.to_owned(), is_directory: false, content };
        match self.find(name) {
            Some(i) => {
                proof {
                    lemma_first_position(self@, name@, i as int);
                    lemma_update_wf(self@, i as int, content@);
                    assert(entries_view(self.entries@.update(i as int, entry)) == self@.update(
                        i as int,
                        entry@,
                    ));
                }
                let mut entries: Vec<ArchiveEntry> = Vec::new();
                std::mem::swap(&mut self.entries, &mut entries);
                entries.set(i, entry);
                self.entries = entries;
                assert(self@ == old(self)@.update(i as int, (name@, false, content@)));
            },
            None => {
                proof {
                    lemma_push_wf(self@, entry@);
                    assert(entries_view(self.entries@.push(entry)) == self@.push(entry@));
                }
                let mut entries: Vec<ArchiveEntry> = Vec::new();
                std::mem::swap(&mut self.entries, &mut entries);
                entries.push(entry);
                self.entries = entries;
                assert(self@ == old(self)@.push((name@, false, content@)));
            },
        }
    }

    /// Takes out every entry stored under `name`, and says whether there was
    /// one.
    pub fn remove(&mut self, name: &str) -> (r: bool)
        ensures
            final(self).wf(),
            r == has_entry(old(self)@, name@),
            final(self)@ == without_name(old(self)@, name@),
    {
        proof {
            use_type_invariant(&*self);
        }
        let mut kept: Vec<ArchiveEntry> = Vec::new();
        let mut found = false;
        let mut i: usize = 0;
        while i < self.entries.len()
            invariant
                i <= self.entries.len(),
                entries_view(kept@) == without_name(self@.take(i as int), name@),
                found == has_entry(self@.take(i as int), name@),
            decreases self.entries.len() - i,
        {
            proof {
                lemma_without_name_push(self@.take(i as int), self@[i as int], name@);
                assert(self@.take(i + 1) == self@.take(i as int).push(self@[i as int]));
                lemma_has_entry_push(self@.take(i as int), self@[i as int], name@);
            }
            let e = &self.entries[i];
            if str_eq(e.stored_name.as_str(), name) {
                found = true;
            } else {
                let ghost before = entries_view(kept@);
                kept.push(e.duplicate());
                assert(entries_view(kept@) == before.push(self@[i as int]));
            }
            i += 1;
        }
        proof {
            assert(self@.take(self@.len() as int) == self@);
            lemma_without_name_wf(self@, name@);
        }
        self.entries = kept;
        found
    }

    /// A fresh copy of the archive.
    pub fn duplicate(&self) -> (a: Archive)
        ensures
            a@ == self@,
            a.wf(),
    {
        let mut entries: Vec<ArchiveEntry> = Vec::new();
        let mut i: usize = 0;
        while i < self.entries.len()
            invariant
                i <= self.entries.len(),
                entries@.len() == i,
                forall|k: int| 0 <= k < i ==> (#[trigger] entries@[k])@ == self@[k],
            decreases self.entries.len() - i,
        {
            entries.push(self.entries[i].duplicate());
            i += 1;
        }
        proof {
            use_type_invariant(self);
            assert(entries_view(entries@) == self@);
        }
        Archive { entries }
    }

    /// The archive that holds `entries`, where they meet the invariant.
    pub fn from_entries(entries: Vec<ArchiveEntry>) -> (r: Result<Archive, APMError>)
        ensures
            match r {
                Ok(a) => a.wf() && a@ == entries_view(entries@),
                Err(e) => !archive_wf(entries_view(entries@)) && e.err_type
                    == APMErrorType::ZIPArchiveOpenError,
            },
    {
        let ghost all = entries_view(entries@);
        let mut i: usize = 0;
        while i < entries.len()
            invariant
                i <= entries.len(),
                all == entries_view(entries@),
                archive_wf(all.take(i as int)),
            decreases entries.len() - i,
        {
            let e = &entries[i];
            if e.is_directory && (e.content.len() > 0 || !names_directory(
                e.stored_name.as_str(),
            )) {
                assert(!entry_wf(all[i as int]));
                return Err(
                    APMErrorType::ZIPArchiveOpenError.into_apm_error(
                        "A directory entry holds content or bears the name of a file".to_owned(),
                    ),
                );
            }
            assert(entry_wf(all[i as int]));
            let mut j: usize = 0;
            while j < i
                invariant
                    j <= i < entries.len(),
                    all == entries_view(entries@),
                    e@ == all[i as int],
                    forall|k: int| 0 <= k < j ==> (#[trigger] all[k]).0 != all[i as int].0,
                decreases i - j,
            {
                if str_eq(entries[j].stored_name.as_str(), e.stored_name.as_str()) {
                    assert(all[j as int].0 == all[i as int].0);
                    return Err(
                        APMErrorType::ZIPArchiveOpenError.into_apm_error(
                            "A stored name occurs twice".to_owned(),
                        ),
                    );
                }
                j += 1;
            }
            assert(all.take(i + 1) == all.take(i as int).push(all[i as int]));
            i += 1;
        }
        assert(all.take(all.len() as int) == all);
        Ok(Archive { entries })
    }
}

/// `entries` with the file `content` stored under `name`: in place of the first entry
/// of that name where there is one, else as a new last entry.
pub open spec fn stored_under(
    entries: Seq<(Seq<char>, bool, Seq<u8>)>,
    name: Seq<char>,
    content: Seq<u8>,
) -> Seq<(Seq<char>, bool, Seq<u8>)> {
    if has_entry(entries, name) {
        entries.update(first_position(entries, name), (name, false, content))
    } else {
        entries.push((name, false, content))
    }
}

/// The position of the first entry stored under `name`.
pub open spec fn first_position(entries: Seq<(Seq<char>, bool, Seq<u8>)>, name: Seq<char>) -> int {
    choose|i: int| is_first_at(entries, name, i)
}

/// `entries` without those stored under `name`.
pub open spec fn without_name(entries: Seq<(Seq<char>, bool, Seq<u8>)>, name: Seq<char>) -> Seq<
    (Seq<char>, bool, Seq<u8>),
>
    decreases entries.len(),
{
    if entries.len() == 0 {
        entries
    } else if entries.last().0 == name {
        without_name(entries.drop_last(), name)
    } else {
        without_name(entries.drop_last(), name).push(entries.last())
    }
}

/// The first entry of a name is the only position that [`is_first_at`] holds of.
pub proof fn lemma_first_position(entries: Seq<(Seq<char>, bool, Seq<u8>)>, name: Seq<char>, i: int)
    requires
        is_first_at(entries, name, i),
    ensures
        first_position(entries, name) == i,
        has_entry(entries, name),
{
    let k = first_position(entries, name);
    assert(is_first_at(entries, name, k));
    if k < i {
        assert(entries[k].0 != name);
    } else if i < k {
        assert(entries[i].0 != name);
    }
}

/// Taking a name out of entries with one more entry: the entry stays where
/// it bears another name.
pub proof fn lemma_without_name_push(
    entries: Seq<(Seq<char>, bool, Seq<u8>)>,
    e: (Seq<char>, bool, Seq<u8>),
    name: Seq<char>,
)
    ensures
        without_name(entries.push(e), name) == if e.0 == name {
            without_name(entries, name)
        } else {
            without_name(entries, name).push(e)
        },
{
    assert(entries.push(e).drop_last() == entries);
}

/// With one more entry, a name is stored where it was stored before or
/// where the new entry bears it.
pub proof fn lemma_has_entry_push(
    entries: Seq<(Seq<char>, bool, Seq<u8>)>,
    e: (Seq<char>, bool, Seq<u8>),
    name: Seq<char>,
)
    ensures
        has_entry(entries.push(e), name) == (has_entry(entries, name) || e.0 == name),
{
    let more = entries.push(e);
    if has_entry(entries, name) {
        let i = choose|i: int| 0 <= i < entries.len() && (#[trigger] entries[i]).0 == name;
        assert(more[i].0 == name);
    }
    if e.0 == name {
        assert(more[entries.len() as int].0 == name);
    }
    if has_entry(more, name) {
        let i = choose|i: int| 0 <= i < more.len() && (#[trigger] more[i]).0 == name;
        if i < entries.len() {
            assert(entries[i].0 == name);
        }
    }
}

/// Taking a name out keeps the invariant and leaves nothing under that name.
pub proof fn lemma_without_name_wf(entries: Seq<(Seq<char>, bool, Seq<u8>)>, name: Seq<char>)
    ensures
        !has_entry(without_name(entries, name), name),
        archive_wf(entries) ==> archive_wf(without_name(entries, name)),
        !has_entry(entries, name) ==> without_name(entries, name) == entries,
        forall|other: Seq<char>|
            other != name ==> has_entry(without_name(entries, name), other) == has_entry(
                entries,
                other,
            ),
    decreases entries.len(),
{
    let kept = without_name(entries, name);
    if entries.len() == 0 {
        assert forall|other: Seq<char>| other != name implies has_entry(kept, other)
            == has_entry(entries, other) by {}
    } else {
        let front = entries.drop_last();
        let last = entries.last();
        let kept_front = without_name(front, name);
        assert(entries == front.push(last));
        lemma_without_name_wf(front, name);
        lemma_without_name_push(front, last, name);
        lemma_has_entry_push(front, last, name);
        if last.0 != name {
            lemma_has_entry_push(kept_front, last, name);
        }
        assert forall|other: Seq<char>| other != name implies has_entry(kept, other)
            == has_entry(entries, other) by {
            lemma_has_entry_push(front, last, other);
            if last.0 != name {
                lemma_has_entry_push(kept_front, last, other);
            }
        }
        if archive_wf(entries) {
            assert(archive_wf(front)) by {
                assert forall|i: int, j: int| 0 <= i < j < front.len() implies (
                #[trigger] front[i]).0 != (#[trigger] front[j]).0 by {
                    assert(entries[i].0 != entries[j].0);
                }
                assert forall|i: int| 0 <= i < front.len() implies entry_wf(
                    #[trigger] front[i],
                ) by {
                    assert(entry_wf(entries[i]));
                }
            }
            if last.0 != name {
                assert(!has_entry(front, last.0)) by {
                    if has_entry(front, last.0) {
                        let i = choose|i: int|
                            0 <= i < front.len() && (#[trigger] front[i]).0 == last.0;
                        assert(entries[i].0 != entries[entries.len() - 1].0);
                    }
                }
                assert(!has_entry(kept_front, last.0));
                assert(entry_wf(last)) by {
                    assert(entry_wf(entries[entries.len() - 1]));
                }
                assert(archive_wf(kept_front.push(last))) by {
                    let more = kept_front.push(last);
                    assert forall|i: int, j: int| 0 <= i < j < more.len() implies (
                    #[trigger] more[i]).0 != (#[trigger] more[j]).0 by {
                        if j == kept_front.len() {
                            assert(kept_front[i].0 != last.0);
                        } else {
                            assert(kept_front[i].0 != kept_front[j].0);
                        }
                    }
                    assert forall|i: int| 0 <= i < more.len() implies entry_wf(
                        #[trigger] more[i],
                    ) by {
                        if i < kept_front.len() {
                            assert(entry_wf(kept_front[i]));
                        }
                    }
                }
            }
        }
        if !has_entry(entries, name) {
            assert(kept == entries);
        }
    }
}

/// The stored names, in order.
pub open spec fn entry_names(entries: Seq<(Seq<char>, bool, Seq<u8>)>) -> Seq<Seq<char>> {
    Seq::new(entries.len(), |i: int| entries[i].0)
}

/// The content of the first entry stored under `name`.
pub open spec fn content_of(entries: Seq<(Seq<char>, bool, Seq<u8>)>, name: Seq<char>) -> Seq<u8> {
    entries[first_position(entries, name)].2
}

/// In an archive that meets the invariant, an entry is the first and only
/// one of its name.
pub proof fn lemma_unique_entry(entries: Seq<(Seq<char>, bool, Seq<u8>)>, i: int)
    requires
        archive_wf(entries),
        0 <= i < entries.len(),
    ensures
        is_first_at(entries, entries[i].0, i),
        first_position(entries, entries[i].0) == i,
        content_of(entries, entries[i].0) == entries[i].2,
{
    assert forall|j: int| 0 <= j < i implies (#[trigger] entries[j]).0 != entries[i].0 by {}
    lemma_first_position(entries, entries[i].0, i);
}

/// Taking a name out keeps every entry of another name.
pub proof fn lemma_without_name_keeps(
    entries: Seq<(Seq<char>, bool, Seq<u8>)>,
    name: Seq<char>,
    i: int,
)
    requires
        0 <= i < entries.len(),
        entries[i].0 != name,
    ensures
        without_name(entries, name).contains(entries[i]),
    decreases entries.len(),
{
    let kept = without_name(entries, name);
    let front = entries.drop_last();
    if i == entries.len() - 1 {
        assert(kept == without_name(front, name).push(entries[i]));
        assert(kept[kept.len() - 1] == entries[i]);
    } else {
        lemma_without_name_keeps(front, name, i);
        let k = choose|k: int|
            0 <= k < without_name(front, name).len() && without_name(front, name)[k]
                == front[i];
        assert(kept[k] == entries[i]);
    }
}

/// After `content` was stored under `name`, the archive holds it there, and
/// holds under every other name what it held before.
pub proof fn lemma_stored_under(
    entries: Seq<(Seq<char>, bool, Seq<u8>)>,
    name: Seq<char>,
    content: Seq<u8>,
)
    ensures
        has_entry(stored_under(entries, name, content), name),
        content_of(stored_under(entries, name, content), name) == content,
        forall|other: Seq<char>|
            other != name ==> has_entry(stored_under(entries, name, content), other)
                == has_entry(entries, other),
        forall|other: Seq<char>|
            other != name && has_entry(entries, other) ==> content_of(
                stored_under(entries, name, content),
                other,
            ) == content_of(entries, other),
{
    let out = stored_under(entries, name, content);
    let at = if has_entry(entries, name) {
        first_position(entries, name)
    } else {
        entries.len() as int
    };
    if has_entry(entries, name) {
        let i = choose|i: int| 0 <= i < entries.len() && (#[trigger] entries[i]).0 == name;
        lemma_has_first(entries, name, i);
        assert(is_first_at(entries, name, at));
    }
    assert(out.len() >= entries.len());
    assert forall|j: int| 0 <= j < entries.len() implies (#[trigger] out[j]).0
        == entries[j].0 by {}
    assert(is_first_at(out, name, at)) by {
        assert forall|j: int| 0 <= j < at implies (#[trigger] out[j]).0 != name by {
            assert(out[j].0 == entries[j].0);
            if !has_entry(entries, name) {
                assert(entries[j].0 != name);
            }
        }
    }
    lemma_first_position(out, name, at);
    assert forall|other: Seq<char>| other != name implies has_entry(out, other) == has_entry(
        entries,
        other,
    ) by {
        if has_entry(entries, other) {
            let i = choose|i: int| 0 <= i < entries.len() && (#[trigger] entries[i]).0 == other;
            assert(out[i].0 == other);
        }
        if has_entry(out, other) {
            let i = choose|i: int| 0 <= i < out.len() && (#[trigger] out[i]).0 == other;
            assert(i < entries.len());
            assert(entries[i].0 == other);
        }
    }
    assert forall|other: Seq<char>| other != name && has_entry(entries, other) implies content_of(
        out,
        other,
    ) == content_of(entries, other) by {
        let i = choose|i: int| 0 <= i < entries.len() && (#[trigger] entries[i]).0 == other;
        lemma_has_first(entries, other, i);
        let k = first_position(entries, other);
        assert(is_first_at(out, other, k)) by {
            assert(out[k].0 == entries[k].0);
            assert forall|j: int| 0 <= j < k implies (#[trigger] out[j]).0 != other by {
                assert(out[j].0 == entries[j].0);
            }
        }
        lemma_first_position(out, other, k);
        assert(out[k] == entries[k]);
    }
}

/// Where some entry is stored under `name`, a first one is.
pub proof fn lemma_has_first(entries: Seq<(Seq<char>, bool, Seq<u8>)>, name: Seq<char>, i: int)
    requires
        0 <= i < entries.len(),
        entries[i].0 == name,
    ensures
        is_first_at(entries, name, first_position(entries, name)),
        0 <= first_position(entries, name) <= i,
    decreases i,
{
    if exists|j: int| 0 <= j < i && (#[trigger] entries[j]).0 == name {
        let j = choose|j: int| 0 <= j < i && (#[trigger] entries[j]).0 == name;
        lemma_has_first(entries, name, j);
    } else {
        assert(is_first_at(entries, name, i));
        lemma_first_position(entries, name, i);
    }
}

/// One more entry keeps the invariant where its name is new and it meets
/// [`entry_wf`].
pub proof fn lemma_push_wf(entries: Seq<(Seq<char>, bool, Seq<u8>)>, e: (Seq<char>, bool, Seq<u8>))
    requires
        archive_wf(entries),
        !has_entry(entries, e.0),
        entry_wf(e),
    ensures
        archive_wf(entries.push(e)),
{
    let more = entries.push(e);
    assert forall|i: int, j: int| 0 <= i < j < more.len() implies (#[trigger] more[i]).0 != (
    #[trigger] more[j]).0 by {
        if j == entries.len() {
            assert(entries[i].0 != e.0);
        } else {
            assert(entries[i].0 != entries[j].0);
        }
    }
    assert forall|i: int| 0 <= i < more.len() implies entry_wf(#[trigger] more[i]) by {
        if i < entries.len() {
            assert(entry_wf(entries[i]));
        }
    }
}

/// A file in the place of an entry, under the entry's name, keeps the
/// invariant.
pub proof fn lemma_update_wf(entries: Seq<(Seq<char>, bool, Seq<u8>)>, i: int, content: Seq<u8>)
    requires
        archive_wf(entries),
        0 <= i < entries.len(),
    ensures
        archive_wf(entries.update(i, (entries[i].0, false, content))),
{
    let changed = entries.update(i, (entries[i].0, false, content));
    assert forall|a: int, b: int| 0 <= a < b < changed.len() implies (#[trigger] changed[a]).0 != (
    #[trigger] changed[b]).0 by {
        assert(entries[a].0 != entries[b].0);
    }
    assert forall|a: int| 0 <= a < changed.len() implies entry_wf(#[trigger] changed[a]) by {
        if a != i {
            assert(entry_wf(entries[a]));
        }
    }
}

/// Storing a file under a name leaves every entry of another name as it
/// was and where it was: with its name, its kind and its content.
pub proof fn lemma_stored_under_keeps(
    entries: Seq<(Seq<char>, bool, Seq<u8>)>,
    name: Seq<char>,
    content: Seq<u8>,
)
    ensures
        stored_under(entries, name, content).len() >= entries.len(),
        forall|i: int|
            0 <= i < entries.len() && (#[trigger] entries[i]).0 != name ==> stored_under(
                entries,
                name,
                content,
            )[i] == entries[i],
{
    if has_entry(entries, name) {
        let i = choose|i: int| 0 <= i < entries.len() && (#[trigger] entries[i]).0 == name;
        lemma_has_first(entries, name, i);
    }
}

} // verus!
