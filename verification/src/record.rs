//! Records: the entities of a package object, each an ordered list of named
//! fields.

use vstd::prelude::*;
use crate::text::str_eq;

verus! {

/// Position `i` holds the first field named `name`.
pub open spec fn is_field_at(fields: Seq<(Seq<char>, Seq<char>)>, name: Seq<char>, i: int) -> bool {
    &&& 0 <= i < fields.len()
    &&& fields[i].0 == name
    &&& forall|j: int| 0 <= j < i ==> (#[trigger] fields[j]).0 != name
}

/// Some field is named `name`.
pub open spec fn has_field(fields: Seq<(Seq<char>, Seq<char>)>, name: Seq<char>) -> bool {
    exists|i: int| is_field_at(fields, name, i)
}

/// The position of the first field named `name`.
pub open spec fn field_position(fields: Seq<(Seq<char>, Seq<char>)>, name: Seq<char>) -> int {
    choose|i: int| is_field_at(fields, name, i)
}

/// The value of the first field named `name`.
pub open spec fn lookup(fields: Seq<(Seq<char>, Seq<char>)>, name: Seq<char>) -> Option<
    Seq<char>,
> {
    if has_field(fields, name) {
        Some(fields[field_position(fields, name)].1)
    } else {
        None
    }
}

/// The fields with `value` in the first field named `name`; the fields
/// unchanged where none bears the name.
pub open spec fn with_field(
    fields: Seq<(Seq<char>, Seq<char>)>,
    name: Seq<char>,
    value: Seq<char>,
) -> Seq<(Seq<char>, Seq<char>)> {
    if has_field(fields, name) {
        fields.update(field_position(fields, name), (name, value))
    } else {
        fields
    }
}

/// The names of the fields, in order.
pub open spec fn field_names(fields: Seq<(Seq<char>, Seq<char>)>) -> Seq<Seq<char>> {
    Seq::new(fields.len(), |i: int| fields[i].0)
}

/// The first field of a name is the only position that [`is_field_at`] holds of.
pub proof fn lemma_field_position(fields: Seq<(Seq<char>, Seq<char>)>, name: Seq<char>, i: int)
    requires
        is_field_at(fields, name, i),
    ensures
        has_field(fields, name),
        field_position(fields, name) == i,
        lookup(fields, name) == Some(fields[i].1),
{
    let k = field_position(fields, name);
    assert(is_field_at(fields, name, k));
    if k < i {
        assert(fields[k].0 != name);
    } else if i < k {
        assert(fields[i].0 != name);
    }
}

/// No field is named `name` where no position bears the name.
pub proof fn lemma_no_field(fields: Seq<(Seq<char>, Seq<char>)>, name: Seq<char>)
    requires
        forall|j: int| 0 <= j < fields.len() ==> (#[trigger] fields[j]).0 != name,
    ensures
        !has_field(fields, name),
        lookup(fields, name) is None,
{
    if has_field(fields, name) {
        let i = choose|i: int| is_field_at(fields, name, i);
        assert(fields[i].0 != name);
    }
}

/// Writing a field keeps the names of all fields, and with them which fields
/// a record has.
pub proof fn lemma_with_field_names(
    fields: Seq<(Seq<char>, Seq<char>)>,
    name: Seq<char>,
    value: Seq<char>,
)
    ensures
        field_names(with_field(fields, name, value)) == field_names(fields),
        with_field(fields, name, value).len() == fields.len(),
{
    if has_field(fields, name) {
        let i = field_position(fields, name);
        assert(is_field_at(fields, name, i));
        assert(field_names(fields.update(i, (name, value))) == field_names(fields));
    }
}

/// Writing a field moves no field: each name is first found where it was.
pub proof fn lemma_with_field_positions(
    fields: Seq<(Seq<char>, Seq<char>)>,
    name: Seq<char>,
    value: Seq<char>,
    other: Seq<char>,
)
    ensures
        has_field(with_field(fields, name, value), other) == has_field(fields, other),
        has_field(fields, other) ==> field_position(with_field(fields, name, value), other)
            == field_position(fields, other),
{
    let written = with_field(fields, name, value);
    lemma_with_field_names(fields, name, value);
    assert forall|i: int| 0 <= i < fields.len() implies (#[trigger] written[i]).0
        == fields[i].0 by {
        assert(field_names(written)[i] == field_names(fields)[i]);
    }
    if has_field(fields, other) {
        let i = field_position(fields, other);
        assert(is_field_at(fields, other, i));
        assert(is_field_at(written, other, i));
        lemma_field_position(written, other, i);
    }
    if has_field(written, other) {
        let i = field_position(written, other);
        assert(is_field_at(written, other, i));
        assert(is_field_at(fields, other, i)) by {
            assert(fields[i].0 == written[i].0);
            assert forall|j: int| 0 <= j < i implies (#[trigger] fields[j]).0 != other by {
                assert(written[j].0 == fields[j].0);
            }
        }
    }
}

/// Writing two fields of different names gives the same in either order.
pub proof fn lemma_with_field_commutes(
    fields: Seq<(Seq<char>, Seq<char>)>,
    first: Seq<char>,
    first_value: Seq<char>,
    second: Seq<char>,
    second_value: Seq<char>,
)
    requires
        first != second,
    ensures
        with_field(with_field(fields, first, first_value), second, second_value) == with_field(
            with_field(fields, second, second_value),
            first,
            first_value,
        ),
{
    lemma_with_field_positions(fields, first, first_value, second);
    lemma_with_field_positions(fields, second, second_value, first);
    if has_field(fields, first) && has_field(fields, second) {
        let i = field_position(fields, first);
        let j = field_position(fields, second);
        assert(is_field_at(fields, first, i));
        assert(is_field_at(fields, second, j));
        assert(i != j);
        assert(fields.update(i, (first, first_value)).update(j, (second, second_value))
            == fields.update(j, (second, second_value)).update(i, (first, first_value)));
    }
}

/// Writing into a field the value that it has changes nothing.
pub proof fn lemma_with_field_same(fields: Seq<(Seq<char>, Seq<char>)>, name: Seq<char>)
    requires
        has_field(fields, name),
    ensures
        with_field(fields, name, lookup(fields, name)->0) == fields,
{
    let i = field_position(fields, name);
    assert(is_field_at(fields, name, i));
    assert(fields.update(i, (name, fields[i].1)) == fields);
}

/// One entity of a package object.
pub struct Record {
    pub fields: Vec<(String, String)>,
}

impl View for Record {
    type V = Seq<(Seq<char>, Seq<char>)>;

    open spec fn view(&self) -> Seq<(Seq<char>, Seq<char>)> {
        Seq::new(self.fields@.len(), |i: int| (self.fields@[i].0@, self.fields@[i].1@))
    }
}

/// A collection of records by the views of its records.
pub open spec fn records_view(records: Seq<Record>) -> Seq<Seq<(Seq<char>, Seq<char>)>> {
    Seq::new(records.len(), |i: int| records[i]@)
}

impl Record {
    /// The record without fields.
    pub fn new() -> (r: Record)
        ensures
            r@ == Seq::<(Seq<char>, Seq<char>)>::empty(),
    {
        Record { fields: Vec::new() }
    }

    /// The number of fields.
    pub fn len(&self) -> (n: usize)
        ensures
            n == self@.len(),
    {
        self.fields.len()
    }

    /// The position of the first field named `name`.
    pub fn position(&self, name: &str) -> (r: Option<usize>)
        ensures
            match r {
                Some(i) => is_field_at(self@, name@, i as int),
                None => !has_field(self@, name@),
            },
    {
        let mut i: usize = 0;
        while i < self.fields.len()
            invariant
                i <= self.fields.len(),
                forall|j: int| 0 <= j < i ==> (#[trigger] self@[j]).0 != name@,
            decreases self.fields.len() - i,
        {
            if str_eq(self.fields[i].0.as_str(), name) {
                return Some(i);
            }
            i += 1;
        }
        proof {
            lemma_no_field(self@, name@);
        }
        None
    }

    /// The value of the first field named `name`.
    pub fn get(&self, name: &str) -> (r: Option<String>)
        ensures
            match r {
                Some(value) => lookup(self@, name@) == Some(value@),
                None => lookup(self@, name@) is None,
            },
    {
        match self.position(name) {
            Some(i) => {
                proof {
                    lemma_field_position(self@, name@, i as int);
                }
                Some(self.fields[i].1.clone())
            },
            None => None,
        }
    }

    /// Writes `value` into the first field named `name`, and says whether
    /// there is such a field. A record without it stays as it is.
    pub fn set(&mut self, name: &str, value: String) -> (r: bool)
        ensures
            r == has_field(old(self)@, name@),
            final(self)@ == with_field(old(self)@, name@, value@),
    {
        match self.position(name) {
            Some(i) => {
                proof {
                    lemma_field_position(self@, name@, i as int);
                }
                self.fields.set(i, (name.to_owned(), value));
                assert(self@ == old(self)@.update(i as int, (name@, value@)));
                true
            },
            None => false,
        }
    }

    /// Adds a field behind the others.
    pub fn push(&mut self, name: String, value: String)
        ensures
            final(self)@ == old(self)@.push((name@, value@)),
    {
        self.fields.push((name, value));
        assert(self@ == old(self)@.push((name@, value@)));
    }

    /// A fresh copy of the record.
    pub fn duplicate(&self) -> (r: Record)
        ensures
            r@ == self@,
    {
        let mut fields: Vec<(String, String)> = Vec::new();
        let mut i: usize = 0;
        while i < self.fields.len()
            invariant
                i <= self.fields.len(),
                fields@.len() == i,
                forall|k: int|
                    0 <= k < i ==> (#[trigger] fields@[k]).0@ == self@[k].0 && fields@[k].1@
                        == self@[k].1,
            decreases self.fields.len() - i,
        {
            fields.push((self.fields[i].0.clone(), self.fields[i].1.clone()));
            i += 1;
        }
        let r = Record { fields };
        assert(r@ == self@);
        r
    }
}

} // verus!
