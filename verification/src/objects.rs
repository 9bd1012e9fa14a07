//! The objects of a package: each kind of object keeps its records in one
//! entry of the archive, under a reserved name and in a format of its own.
//!
//! The format, all numbers in four bytes with the lowest first: the number
//! of records; then for each record the number of its fields; then for each
//! field its name and its value, each as the number of its bytes followed by
//! the text in UTF-8.

use vstd::prelude::*;
use vstd::bytes::lemma_auto_spec_u32_to_from_le_bytes;
use vstd::bytes::spec_u32_from_le_bytes;
use vstd::bytes::spec_u32_to_le_bytes;
use vstd::bytes::u32_from_le_bytes;
use vstd::bytes::u32_to_le_bytes;
use vstd::utf8::decode_utf8;
use vstd::utf8::decode_utf8_encode_utf8;
use vstd::utf8::encode_utf8_decode_utf8;
use vstd::utf8::encode_utf8_valid_utf8;
use vstd::utf8::encode_utf8;
use vstd::utf8::valid_utf8;
use crate::archive::content_of;
use crate::archive::has_entry;
use crate::archive::lemma_first_position;
use crate::archive::lemma_stored_under;
use crate::archive::lemma_stored_under_keeps;
use crate::checksum::marker_name;
use crate::archive::stored_under;
use crate::archive::Archive;
use crate::error::APMError;
use crate::error::APMErrorType;
use crate::record::records_view;
use crate::text::copy_bytes;
use vstd::slice::slice_subrange;
use crate::record::Record;

verus! {

/// The kinds of object that a package holds.
#[derive(Clone, Copy, Debug, PartialEq, Eq, Hash, Structural)]
pub enum PackageObject {
    Applications,
    Datafeeds,
    Notifications,
    Solutions,
    Dashboards,
    Workspaces,
    DataDrivenEvents,
    Levels,
}

/// The stored name of the entry that holds the records of an object.
pub open spec fn object_entry_name(object: PackageObject) -> Seq<char> {
    match object {
        PackageObject::Applications => "objects/applications"@,
        PackageObject::Datafeeds => "objects/datafeeds"@,
        PackageObject::Notifications => "objects/notifications"@,
        PackageObject::Solutions => "objects/solutions"@,
        PackageObject::Dashboards => "objects/dashboards"@,
        PackageObject::Workspaces => "objects/workspaces"@,
        PackageObject::DataDrivenEvents => "objects/data_driven_events"@,
        PackageObject::Levels => "objects/levels"@,
    }
}

impl PackageObject {
    /// The stored name of the entry that holds the records of the object.
    pub fn entry_name(&self) -> (name: &'static str)
        ensures
            name@ == object_entry_name(*self),
    {
        match self {
            PackageObject::Applications => "objects/applications",
            PackageObject::Datafeeds => "objects/datafeeds",
            PackageObject::Notifications => "objects/notifications",
            PackageObject::Solutions => "objects/solutions",
            PackageObject::Dashboards => "objects/dashboards",
            PackageObject::Workspaces => "objects/workspaces",
            PackageObject::DataDrivenEvents => "objects/data_driven_events",
            PackageObject::Levels => "objects/levels",
        }
    }
}

/// The largest number that the format can hold.
pub open spec fn format_limit() -> int {
    0xffff_ffff
}

/// A text in the format: the number of its bytes, then the bytes.
pub open spec fn encode_text(text: Seq<char>) -> Seq<u8> {
    spec_u32_to_le_bytes(encode_utf8(text).len() as u32) + encode_utf8(text)
}

/// Fields in the format: name and value of each, in order.
pub open spec fn encode_fields(fields: Seq<(Seq<char>, Seq<char>)>) -> Seq<u8>
    decreases fields.len(),
{
    if fields.len() == 0 {
        Seq::empty()
    } else {
        encode_fields(fields.drop_last()) + encode_text(fields.last().0) + encode_text(
            fields.last().1,
        )
    }
}

/// A record in the format: the number of its fields, then the fields.
pub open spec fn encode_record(record: Seq<(Seq<char>, Seq<char>)>) -> Seq<u8> {
    spec_u32_to_le_bytes(record.len() as u32) + encode_fields(record)
}

/// Records in the format, in order.
pub open spec fn encode_records(records: Seq<Seq<(Seq<char>, Seq<char>)>>) -> Seq<u8>
    decreases records.len(),
{
    if records.len() == 0 {
        Seq::empty()
    } else {
        encode_records(records.drop_last()) + encode_record(records.last())
    }
}

/// A collection in the format: the number of its records, then the records.
pub open spec fn encode_collection(records: Seq<Seq<(Seq<char>, Seq<char>)>>) -> Seq<u8> {
    spec_u32_to_le_bytes(records.len() as u32) + encode_records(records)
}

/// The text fits the format.
pub open spec fn text_fits(text: Seq<char>) -> bool {
    encode_utf8(text).len() <= format_limit()
}

/// The record fits the format: the number of its fields and the length of
/// each text.
pub open spec fn record_fits(record: Seq<(Seq<char>, Seq<char>)>) -> bool {
    &&& record.len() <= format_limit()
    &&& forall|i: int|
        0 <= i < record.len() ==> text_fits((#[trigger] record[i]).0) && text_fits(record[i].1)
}

/// The collection fits the format.
pub open spec fn collection_fits(records: Seq<Seq<(Seq<char>, Seq<char>)>>) -> bool {
    &&& records.len() <= format_limit()
    &&& forall|i: int| 0 <= i < records.len() ==> record_fits(#[trigger] records[i])
}

fn append_bytes(out: &mut Vec<u8>, bytes: &[u8])
    ensures
        final(out)@ == old(out)@ + bytes@,
{
    let mut i: usize = 0;
    while i < bytes.len()
        invariant
            i <= bytes.len(),
            out@ == old(out)@ + bytes@.take(i as int),
        decreases bytes.len() - i,
    {
        out.push(bytes[i]);
        assert(bytes@.take(i + 1) == bytes@.take(i as int).push(bytes@[i as int]));
        i += 1;
    }
    assert(bytes@.take(bytes@.len() as int) == bytes@);
}

fn append_number(out: &mut Vec<u8>, number: u32)
    ensures
        final(out)@ == old(out)@ + spec_u32_to_le_bytes(number),
{
    let bytes = u32_to_le_bytes(number);
    append_bytes(out, bytes.as_slice());
}

/// Appends a text, where it fits the format.
fn append_text(out: &mut Vec<u8>, text: &str) -> (fits: bool)
    ensures
        fits == text_fits(text@),
        fits ==> final(out)@ == old(out)@ + encode_text(text@),
{
    let bytes = text.as_bytes();
    if bytes.len() > 0xffff_ffff {
        return false;
    }
    append_number(out, bytes.len() as u32);
    append_bytes(out, bytes);
    assert(out@ == old(out)@ + encode_text(text@));
    true
}

fn serialization_failure(detail: &str) -> (r: Result<Vec<u8>, APMError>)
    ensures
        r matches Err(e) && e.err_type == APMErrorType::SerializationError,
{
    Err(APMErrorType::SerializationError.into_apm_error(detail.to_owned()))
}

/// Writes a collection in the format. A collection that does not fit the
/// format is refused.
pub fn serialize_collection(records: &Vec<Record>) -> (r: Result<Vec<u8>, APMError>)
    ensures
        match r {
            Ok(bytes) => collection_fits(records_view(records@)) && bytes@ == encode_collection(
                records_view(records@),
            ),
            Err(e) => !collection_fits(records_view(records@)) && e.err_type
                == APMErrorType::SerializationError,
        },
{
    let ghost all = records_view(records@);
    if records.len() > 0xffff_ffff {
        return serialization_failure("Too many records");
    }
    let mut out: Vec<u8> = Vec::new();
    append_number(&mut out, records.len() as u32);
    let ghost head = out@;
    let mut i: usize = 0;
    while i < records.len()
        invariant
            i <= records.len() <= 0xffff_ffff,
            all == records_view(records@),
            head == spec_u32_to_le_bytes(records@.len() as u32),
            out@ == head + encode_records(all.take(i as int)),
            forall|k: int| 0 <= k < i ==> record_fits(#[trigger] all[k]),
        decreases records.len() - i,
    {
        let record = &records[i];
        assert(all[i as int] == record@);
        if record.fields.len() > 0xffff_ffff {
            return serialization_failure("Too many fields");
        }
        let ghost start = out@;
        append_number(&mut out, record.fields.len() as u32);
        let ghost count = spec_u32_to_le_bytes(record@.len() as u32);
        let mut j: usize = 0;
        while j < record.fields.len()
            invariant
                j <= record.fields.len() <= 0xffff_ffff,
                i < all.len(),
                all[i as int] == record@,
                all == records_view(records@),
                out@ == start + count + encode_fields(record@.take(j as int)),
                forall|k: int|
                    0 <= k < j ==> text_fits((#[trigger] record@[k]).0) && text_fits(
                        record@[k].1,
                    ),
            decreases record.fields.len() - j,
        {
            let ghost so_far = out@;
            proof {
                assert(record@.take(j + 1).drop_last() == record@.take(j as int));
                assert(record@.take(j + 1).last() == record@[j as int]);
            }
            if !append_text(&mut out, record.fields[j].0.as_str()) {
                assert(!text_fits(record@[j as int].0));
                assert(!record_fits(all[i as int]));
                return serialization_failure("A field name is too long");
            }
            if !append_text(&mut out, record.fields[j].1.as_str()) {
                assert(!text_fits(record@[j as int].1));
                assert(!record_fits(all[i as int]));
                return serialization_failure("A field value is too long");
            }
            assert(out@ == start + count + encode_fields(record@.take(j + 1)));
            j += 1;
        }
        proof {
            assert(record@.take(record@.len() as int) == record@);
            assert(all.take(i + 1).drop_last() == all.take(i as int));
            assert(all.take(i + 1).last() == record@);
            assert(out@ == head + encode_records(all.take(i + 1)));
        }
        i += 1;
    }
    assert(all.take(all.len() as int) == all);
    Ok(out)
}

/// The number that stands at `pos`, and the position behind it.
pub open spec fn read_number(bytes: Seq<u8>, pos: int) -> Option<(int, int)> {
    if 0 <= pos && pos + 4 <= bytes.len() {
        Some((spec_u32_from_le_bytes(bytes.subrange(pos, pos + 4)) as int, pos + 4))
    } else {
        None
    }
}

/// The text that stands at `pos`, and the position behind it.
pub open spec fn read_text(bytes: Seq<u8>, pos: int) -> Option<(Seq<char>, int)> {
    match read_number(bytes, pos) {
        Some((len, at)) => if at + len <= bytes.len() && valid_utf8(bytes.subrange(at, at + len)) {
            Some((decode_utf8(bytes.subrange(at, at + len)), at + len))
        } else {
            None
        },
        None => None,
    }
}

/// The `count` fields that stand at `pos`, and the position behind them.
pub open spec fn read_fields(bytes: Seq<u8>, pos: int, count: int) -> Option<
    (Seq<(Seq<char>, Seq<char>)>, int),
>
    decreases count,
{
    if count <= 0 {
        Some((Seq::empty(), pos))
    } else {
        match read_fields(bytes, pos, count - 1) {
            None => None,
            Some((fields, at)) => match read_text(bytes, at) {
                None => None,
                Some((name, behind_name)) => match read_text(bytes, behind_name) {
                    None => None,
                    Some((value, behind)) => Some((fields.push((name, value)), behind)),
                },
            },
        }
    }
}

/// The record that stands at `pos`, and the position behind it.
pub open spec fn read_record(bytes: Seq<u8>, pos: int) -> Option<
    (Seq<(Seq<char>, Seq<char>)>, int),
> {
    match read_number(bytes, pos) {
        Some((count, at)) => read_fields(bytes, at, count),
        None => None,
    }
}

/// The `count` records that stand at `pos`, and the position behind them.
pub open spec fn read_records(bytes: Seq<u8>, pos: int, count: int) -> Option<
    (Seq<Seq<(Seq<char>, Seq<char>)>>, int),
>
    decreases count,
{
    if count <= 0 {
        Some((Seq::empty(), pos))
    } else {
        match read_records(bytes, pos, count - 1) {
            None => None,
            Some((records, at)) => match read_record(bytes, at) {
                None => None,
                Some((record, behind)) => Some((records.push(record), behind)),
            },
        }
    }
}

/// The collection that the bytes hold: nothing where they are cut short,
/// where a text is no UTF-8, and where bytes are left over.
pub open spec fn decode_collection(bytes: Seq<u8>) -> Option<Seq<Seq<(Seq<char>, Seq<char>)>>> {
    match read_number(bytes, 0) {
        Some((count, at)) => match read_records(bytes, at, count) {
            Some((records, end)) => if end == bytes.len() {
                Some(records)
            } else {
                None
            },
            None => None,
        },
        None => None,
    }
}

/// Calls `String::from_utf8`: the text that the bytes encode, where they
/// are valid UTF-8.
#[verifier::external_body]
fn text_from_utf8(bytes: Vec<u8>) -> (r: Option<String>)
    ensures
        match r {
            Some(text) => valid_utf8(bytes@) && text@ == decode_utf8(bytes@),
            None => !valid_utf8(bytes@),
        },
{
    String::from_utf8(bytes).ok()
}

fn take_number(bytes: &[u8], pos: usize) -> (r: Option<(u32, usize)>)
    requires
        pos <= bytes@.len(),
    ensures
        match r {
            Some((number, at)) => read_number(bytes@, pos as int) == Some(
                (number as int, at as int),
            ) && at <= bytes@.len(),
            None => read_number(bytes@, pos as int) is None,
        },
{
    if bytes.len() - pos < 4 {
        return None;
    }
    let number = u32_from_le_bytes(slice_subrange(bytes, pos, pos + 4));
    Some((number, pos + 4))
}

fn take_text(bytes: &[u8], pos: usize) -> (r: Option<(String, usize)>)
    requires
        pos <= bytes@.len(),
    ensures
        match r {
            Some((text, at)) => read_text(bytes@, pos as int) == Some((text@, at as int)) && at
                <= bytes@.len(),
            None => read_text(bytes@, pos as int) is None,
        },
{
    match take_number(bytes, pos) {
        None => None,
        Some((len, at)) => {
            if bytes.len() - at < len as usize {
                return None;
            }
            let end = at + len as usize;
            match text_from_utf8(copy_bytes(slice_subrange(bytes, at, end))) {
                Some(text) => Some((text, end)),
                None => None,
            }
        },
    }
}

proof fn lemma_read_fields_failure(bytes: Seq<u8>, pos: int, n: int, count: int)
    requires
        0 <= n <= count,
        read_fields(bytes, pos, n) is None,
    ensures
        read_fields(bytes, pos, count) is None,
    decreases count,
{
    if n < count {
        lemma_read_fields_failure(bytes, pos, n, count - 1);
    }
}

proof fn lemma_read_records_failure(bytes: Seq<u8>, pos: int, n: int, count: int)
    requires
        0 <= n <= count,
        read_records(bytes, pos, n) is None,
    ensures
        read_records(bytes, pos, count) is None,
    decreases count,
{
    if n < count {
        lemma_read_records_failure(bytes, pos, n, count - 1);
    }
}

fn take_record(bytes: &[u8], pos: usize) -> (r: Option<(Record, usize)>)
    requires
        pos <= bytes@.len(),
    ensures
        match r {
            Some((record, at)) => read_record(bytes@, pos as int) == Some((record@, at as int))
                && at <= bytes@.len(),
            None => read_record(bytes@, pos as int) is None,
        },
{
    match take_number(bytes, pos) {
        None => None,
        Some((count, start)) => {
            let mut record = Record::new();
            let mut at: usize = start;
            let mut j: u32 = 0;
            while j < count
                invariant
                    j <= count,
                    at <= bytes@.len(),
                    read_number(bytes@, pos as int) == Some((count as int, start as int)),
                    read_fields(bytes@, start as int, j as int) == Some((record@, at as int)),
                decreases count - j,
            {
                proof {
                    if read_fields(bytes@, start as int, j + 1) is None {
                        lemma_read_fields_failure(bytes@, start as int, j + 1, count as int);
                    }
                }
                match take_text(bytes, at) {
                    None => {
                        return None;
                    },
                    Some((name, behind_name)) => match take_text(bytes, behind_name) {
                        None => {
                            return None;
                        },
                        Some((value, behind)) => {
                            record.push(name, value);
                            at = behind;
                        },
                    },
                }
                j += 1;
            }
            Some((record, at))
        },
    }
}

/// Reads a collection in the format.
pub fn deserialize_collection(bytes: &[u8]) -> (r: Result<Vec<Record>, APMError>)
    ensures
        match r {
            Ok(records) => decode_collection(bytes@) == Some(records_view(records@)),
            Err(e) => decode_collection(bytes@) is None && e.err_type
                == APMErrorType::DeserializationError,
        },
{
    match take_number(bytes, 0) {
        None => Err(
            APMErrorType::DeserializationError.into_apm_error(
                "The number of records is cut short".to_owned(),
            ),
        ),
        Some((count, start)) => {
            let mut records: Vec<Record> = Vec::new();
            let mut at: usize = start;
            let mut i: u32 = 0;
            while i < count
                invariant
                    i <= count,
                    at <= bytes@.len(),
                    read_number(bytes@, 0) == Some((count as int, start as int)),
                    read_records(bytes@, start as int, i as int) == Some(
                        (records_view(records@), at as int),
                    ),
                decreases count - i,
            {
                proof {
                    if read_records(bytes@, start as int, i + 1) is None {
                        lemma_read_records_failure(bytes@, start as int, i + 1, count as int);
                    }
                }
                match take_record(bytes, at) {
                    None => {
                        return Err(
                            APMErrorType::DeserializationError.into_apm_error(
                                "A record is cut short or holds a text that is no UTF-8".to_owned(),
                            ),
                        );
                    },
                    Some((record, behind)) => {
                        let ghost before = records_view(records@);
                        records.push(record);
                        assert(records_view(records@) == before.push(record@));
                        at = behind;
                    },
                }
                i += 1;
            }
            if at != bytes.len() {
                return Err(
                    APMErrorType::DeserializationError.into_apm_error(
                        "Bytes are left over behind the last record".to_owned(),
                    ),
                );
            }
            Ok(records)
        },
    }
}

proof fn lemma_read_number_at(prefix: Seq<u8>, number: u32, suffix: Seq<u8>)
    ensures
        read_number(prefix + spec_u32_to_le_bytes(number) + suffix, prefix.len() as int) == Some(
            (number as int, prefix.len() as int + 4),
        ),
        spec_u32_to_le_bytes(number).len() == 4,
{
    lemma_auto_spec_u32_to_from_le_bytes();
    let bytes = prefix + spec_u32_to_le_bytes(number) + suffix;
    let at = prefix.len() as int;
    assert(bytes.subrange(at, at + 4) == spec_u32_to_le_bytes(number));
}

proof fn lemma_read_text_at(prefix: Seq<u8>, text: Seq<char>, suffix: Seq<u8>)
    requires
        text_fits(text),
    ensures
        read_text(prefix + encode_text(text) + suffix, prefix.len() as int) == Some(
            (text, prefix.len() as int + encode_text(text).len()),
        ),
{
    let coded = encode_utf8(text);
    let number = coded.len() as u32;
    let bytes = prefix + encode_text(text) + suffix;
    lemma_read_number_at(prefix, number, coded + suffix);
    assert(bytes == prefix + spec_u32_to_le_bytes(number) + (coded + suffix));
    let at = prefix.len() as int + 4;
    assert(bytes.subrange(at, at + coded.len()) == coded);
    encode_utf8_valid_utf8(text);
    encode_utf8_decode_utf8(text);
}

proof fn lemma_read_fields_at(
    prefix: Seq<u8>,
    fields: Seq<(Seq<char>, Seq<char>)>,
    suffix: Seq<u8>,
)
    requires
        forall|i: int|
            0 <= i < fields.len() ==> text_fits((#[trigger] fields[i]).0) && text_fits(
                fields[i].1,
            ),
    ensures
        read_fields(
            prefix + encode_fields(fields) + suffix,
            prefix.len() as int,
            fields.len() as int,
        ) == Some((fields, prefix.len() as int + encode_fields(fields).len())),
    decreases fields.len(),
{
    let bytes = prefix + encode_fields(fields) + suffix;
    if fields.len() > 0 {
        let front = fields.drop_last();
        let name = encode_text(fields.last().0);
        let value = encode_text(fields.last().1);
        let before = encode_fields(front);
        assert(text_fits(fields[fields.len() - 1].0) && text_fits(fields[fields.len() - 1].1));
        assert forall|i: int| 0 <= i < front.len() implies text_fits((#[trigger] front[i]).0)
            && text_fits(front[i].1) by {
            assert(front[i] == fields[i]);
        }
        lemma_read_fields_at(prefix, front, name + value + suffix);
        assert(bytes == prefix + before + (name + value + suffix));
        lemma_read_text_at(prefix + before, fields.last().0, value + suffix);
        assert(bytes == (prefix + before) + name + (value + suffix));
        lemma_read_text_at(prefix + before + name, fields.last().1, suffix);
        assert(bytes == (prefix + before + name) + value + suffix);
        assert(front.push(fields.last()) == fields);
    }
}

proof fn lemma_read_record_at(
    prefix: Seq<u8>,
    record: Seq<(Seq<char>, Seq<char>)>,
    suffix: Seq<u8>,
)
    requires
        record_fits(record),
    ensures
        read_record(prefix + encode_record(record) + suffix, prefix.len() as int) == Some(
            (record, prefix.len() as int + encode_record(record).len()),
        ),
{
    let number = spec_u32_to_le_bytes(record.len() as u32);
    let bytes = prefix + encode_record(record) + suffix;
    lemma_read_number_at(prefix, record.len() as u32, encode_fields(record) + suffix);
    assert(bytes == prefix + number + (encode_fields(record) + suffix));
    lemma_read_fields_at(prefix + number, record, suffix);
    assert(bytes == (prefix + number) + encode_fields(record) + suffix);
}

proof fn lemma_read_records_at(
    prefix: Seq<u8>,
    records: Seq<Seq<(Seq<char>, Seq<char>)>>,
    suffix: Seq<u8>,
)
    requires
        forall|i: int| 0 <= i < records.len() ==> record_fits(#[trigger] records[i]),
    ensures
        read_records(
            prefix + encode_records(records) + suffix,
            prefix.len() as int,
            records.len() as int,
        ) == Some((records, prefix.len() as int + encode_records(records).len())),
    decreases records.len(),
{
    let bytes = prefix + encode_records(records) + suffix;
    if records.len() > 0 {
        let front = records.drop_last();
        let last = encode_record(records.last());
        let before = encode_records(front);
        assert(record_fits(records[records.len() - 1]));
        assert forall|i: int| 0 <= i < front.len() implies record_fits(#[trigger] front[i]) by {
            assert(front[i] == records[i]);
        }
        lemma_read_records_at(prefix, front, last + suffix);
        assert(bytes == prefix + before + (last + suffix));
        lemma_read_record_at(prefix + before, records.last(), suffix);
        assert(bytes == (prefix + before) + last + suffix);
        assert(front.push(records.last()) == records);
    }
}

/// What was written in the format is read back as it was.
pub proof fn lemma_collection_round_trip(records: Seq<Seq<(Seq<char>, Seq<char>)>>)
    requires
        collection_fits(records),
    ensures
        decode_collection(encode_collection(records)) == Some(records),
{
    let number = spec_u32_to_le_bytes(records.len() as u32);
    let bytes = encode_collection(records);
    let none = Seq::<u8>::empty();
    lemma_read_number_at(none, records.len() as u32, encode_records(records));
    assert(bytes == none + number + encode_records(records));
    lemma_read_records_at(number, records, none);
    assert(bytes == number + encode_records(records) + none);
}

/// The reserved names: none is the name of the entry that holds the
/// checksum, and no two objects share one.
pub proof fn lemma_object_names(object: PackageObject, other: PackageObject)
    ensures
        object_entry_name(object) != marker_name(),
        object != other ==> object_entry_name(object) != object_entry_name(other),
{
    reveal_strlit("objects/applications");
    reveal_strlit("objects/datafeeds");
    reveal_strlit("objects/notifications");
    reveal_strlit("objects/solutions");
    reveal_strlit("objects/dashboards");
    reveal_strlit("objects/workspaces");
    reveal_strlit("objects/data_driven_events");
    reveal_strlit("objects/levels");
    reveal_strlit("checksum");
    let a = object_entry_name(object);
    let b = object_entry_name(other);
    assert(marker_name().len() == 8 && a.len() > 8);
    if object != other && a.len() == b.len() {
        assert(a[8] != b[8]);
    }
}

/// Reads the records of an object from the archive.
pub fn load_object(archive: &Archive, object: PackageObject) -> (r: Result<Vec<Record>, APMError>)
    ensures
        match r {
            Ok(records) => has_entry(archive@, object_entry_name(object)) && decode_collection(
                content_of(archive@, object_entry_name(object)),
            ) == Some(records_view(records@)),
            Err(e) => if has_entry(archive@, object_entry_name(object)) {
                decode_collection(content_of(archive@, object_entry_name(object))) is None
                    && e.err_type == APMErrorType::DeserializationError
            } else {
                e.err_type == APMErrorType::ObjectEntryNotFoundError
            },
        },
{
    match archive.find(object.entry_name()) {
        None => Err(
            APMErrorType::ObjectEntryNotFoundError.into_apm_error(
                "The archive holds no entry for the object".to_owned(),
            ),
        ),
        Some(i) => {
            proof {
                lemma_first_position(archive@, object_entry_name(object), i as int);
            }
            deserialize_collection(archive.entry(i).content.as_slice())
        },
    }
}

/// The archive with the records of an object stored in it: in place of the
/// records that it held for the object, or as a new entry.
pub fn store_object(archive: &Archive, object: PackageObject, collection: &Vec<Record>) -> (r:
    Result<Archive, APMError>)
    ensures
        match r {
            Ok(stored) => collection_fits(records_view(collection@)) && stored@ == stored_under(
                archive@,
                object_entry_name(object),
                encode_collection(records_view(collection@)),
            ) && stored.wf(),
            Err(e) => !collection_fits(records_view(collection@)) && e.err_type
                == APMErrorType::SerializationError,
        },
{
    match serialize_collection(collection) {
        Err(e) => Err(e),
        Ok(bytes) => {
            let mut stored = archive.duplicate();
            stored.put_file(object.entry_name(), bytes);
            Ok(stored)
        },
    }
}

/// Records that were stored for an object are loaded as they were, and
/// storing them leaves the entries of all other names as they were.
pub proof fn lemma_store_then_load(
    entries: Seq<(Seq<char>, bool, Seq<u8>)>,
    object: PackageObject,
    records: Seq<Seq<(Seq<char>, Seq<char>)>>,
)
    requires
        collection_fits(records),
    ensures
        ({
            let name = object_entry_name(object);
            let stored = stored_under(entries, name, encode_collection(records));
            &&& has_entry(stored, name)
            &&& decode_collection(content_of(stored, name)) == Some(records)
            &&& forall|other: Seq<char>|
                other != name ==> has_entry(stored, other) == has_entry(entries, other)
            &&& forall|other: Seq<char>|
                other != name && has_entry(entries, other) ==> content_of(stored, other)
                    == content_of(entries, other)
            &&& forall|i: int|
                0 <= i < entries.len() && (#[trigger] entries[i]).0 != name ==> stored[i]
                    == entries[i]
        }),
{
    lemma_stored_under_keeps(entries, object_entry_name(object), encode_collection(records));
    lemma_stored_under(entries, object_entry_name(object), encode_collection(records));
    lemma_collection_round_trip(records);
}

proof fn lemma_number_read(bytes: Seq<u8>, pos: int)
    requires
        read_number(bytes, pos) is Some,
    ensures
        ({
            let (number, at) = read_number(bytes, pos)->0;
            &&& at == pos + 4
            &&& 0 <= pos
            &&& at <= bytes.len()
            &&& 0 <= number <= format_limit()
            &&& bytes.subrange(pos, at) == spec_u32_to_le_bytes(number as u32)
        }),
{
    lemma_auto_spec_u32_to_from_le_bytes();
    let part = bytes.subrange(pos, pos + 4);
    assert(spec_u32_to_le_bytes(spec_u32_from_le_bytes(part)) == part);
}

proof fn lemma_text_read(bytes: Seq<u8>, pos: int)
    requires
        read_text(bytes, pos) is Some,
    ensures
        ({
            let (text, at) = read_text(bytes, pos)->0;
            &&& 0 <= pos <= at <= bytes.len()
            &&& text_fits(text)
            &&& bytes.subrange(pos, at) == encode_text(text)
        }),
{
    lemma_number_read(bytes, pos);
    let (len, start) = read_number(bytes, pos)->0;
    let (text, at) = read_text(bytes, pos)->0;
    let coded = bytes.subrange(start, at);
    decode_utf8_encode_utf8(coded);
    assert(bytes.subrange(pos, at) == bytes.subrange(pos, start) + coded);
}

proof fn lemma_fields_read(bytes: Seq<u8>, pos: int, count: int)
    requires
        0 <= pos <= bytes.len(),
        0 <= count,
        read_fields(bytes, pos, count) is Some,
    ensures
        ({
            let (fields, at) = read_fields(bytes, pos, count)->0;
            &&& pos <= at <= bytes.len()
            &&& fields.len() == count
            &&& forall|i: int|
                0 <= i < fields.len() ==> text_fits((#[trigger] fields[i]).0) && text_fits(
                    fields[i].1,
                )
            &&& bytes.subrange(pos, at) == encode_fields(fields)
        }),
    decreases count,
{
    if count > 0 {
        lemma_fields_read(bytes, pos, count - 1);
        let (front, start) = read_fields(bytes, pos, count - 1)->0;
        lemma_text_read(bytes, start);
        let (name, behind_name) = read_text(bytes, start)->0;
        lemma_text_read(bytes, behind_name);
        let (value, at) = read_text(bytes, behind_name)->0;
        let fields = front.push((name, value));
        assert(fields.drop_last() == front);
        assert(bytes.subrange(pos, at) == bytes.subrange(pos, start) + bytes.subrange(
            start,
            behind_name,
        ) + bytes.subrange(behind_name, at));
        assert forall|i: int| 0 <= i < fields.len() implies text_fits((#[trigger] fields[i]).0)
            && text_fits(fields[i].1) by {
            if i < front.len() {
                assert(fields[i] == front[i]);
            }
        }
    } else {
        assert(bytes.subrange(pos, pos) == Seq::<u8>::empty());
    }
}

proof fn lemma_record_read(bytes: Seq<u8>, pos: int)
    requires
        read_record(bytes, pos) is Some,
    ensures
        ({
            let (record, at) = read_record(bytes, pos)->0;
            &&& 0 <= pos <= at <= bytes.len()
            &&& record_fits(record)
            &&& bytes.subrange(pos, at) == encode_record(record)
        }),
{
    lemma_number_read(bytes, pos);
    let (count, start) = read_number(bytes, pos)->0;
    lemma_fields_read(bytes, start, count);
    let (record, at) = read_record(bytes, pos)->0;
    assert(bytes.subrange(pos, at) == bytes.subrange(pos, start) + bytes.subrange(start, at));
}

proof fn lemma_records_read(bytes: Seq<u8>, pos: int, count: int)
    requires
        0 <= pos <= bytes.len(),
        0 <= count,
        read_records(bytes, pos, count) is Some,
    ensures
        ({
            let (records, at) = read_records(bytes, pos, count)->0;
            &&& pos <= at <= bytes.len()
            &&& records.len() == count
            &&& forall|i: int| 0 <= i < records.len() ==> record_fits(#[trigger] records[i])
            &&& bytes.subrange(pos, at) == encode_records(records)
        }),
    decreases count,
{
    if count > 0 {
        lemma_records_read(bytes, pos, count - 1);
        let (front, start) = read_records(bytes, pos, count - 1)->0;
        lemma_record_read(bytes, start);
        let (record, at) = read_record(bytes, start)->0;
        let records = front.push(record);
        assert(records.drop_last() == front);
        assert(bytes.subrange(pos, at) == bytes.subrange(pos, start) + bytes.subrange(start, at));
        assert forall|i: int| 0 <= i < records.len() implies record_fits(
            #[trigger] records[i],
        ) by {
            if i < front.len() {
                assert(records[i] == front[i]);
            }
        }
    } else {
        assert(bytes.subrange(pos, pos) == Seq::<u8>::empty());
    }
}

/// Bytes that hold a collection are the collection written in the format,
/// and nothing else: no two collections are read from the same bytes, and
/// no bytes but its own are read as a collection.
pub proof fn lemma_collection_read(bytes: Seq<u8>)
    requires
        decode_collection(bytes) is Some,
    ensures
        collection_fits(decode_collection(bytes)->0),
        encode_collection(decode_collection(bytes)->0) == bytes,
{
    lemma_number_read(bytes, 0);
    let (count, start) = read_number(bytes, 0)->0;
    lemma_records_read(bytes, start, count);
    assert(bytes == bytes.subrange(0, start) + bytes.subrange(start, bytes.len() as int));
}

} // verus!
