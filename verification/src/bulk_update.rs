//! Bulk update of a record collection: a filter selects records, and value
//! templates say what is written into the listed fields of each.
//!
//! A field that a record lacks is never created: only fields that the record
//! has are rewritten.

use vstd::prelude::*;
use vstd::string::StringExecFns;
use crate::error::APMError;
use crate::error::APMErrorType;
use crate::record::has_field;
use crate::record::lemma_with_field_commutes;
use crate::record::lemma_with_field_names;
use crate::record::lemma_with_field_same;
use crate::record::field_names;
use crate::record::lookup;
use crate::record::records_view;
use crate::record::with_field;
use crate::record::Record;
use crate::text::contains;
use crate::text::contains_text;
use crate::text::str_eq;
use crate::text::to_chars;

verus! {

/// The first position at or behind `from` that holds `c`; the length of `s`
/// where there is none.
pub open spec fn first_index_from(s: Seq<char>, c: char, from: int) -> int
    decreases s.len() - from,
{
    if from < 0 || from >= s.len() {
        s.len() as int
    } else if s[from] == c {
        from
    } else {
        first_index_from(s, c, from + 1)
    }
}

fn find_char(s: &Vec<char>, c: char, from: usize) -> (r: usize)
    ensures
        r == first_index_from(s@, c, from as int),
        from <= r || r == s@.len(),
        r <= s@.len(),
        r < s@.len() ==> s@[r as int] == c,
{
    let mut i: usize = from;
    while i < s.len() && s[i] != c
        invariant
            from <= i,
            first_index_from(s@, c, from as int) == first_index_from(s@, c, i as int),
        decreases s.len() - i,
    {
        i += 1;
    }
    if i >= s.len() {
        s.len()
    } else {
        i
    }
}

/// How a filter compares.
#[derive(Clone, Copy, Debug, PartialEq, Eq, Structural)]
pub enum FilterKind {
    /// The field equals the text.
    Equals,
    /// The field contains the text.
    Contains,
}

/// A predicate on records: a field, a comparison and a text.
pub struct Filter {
    pub field: String,
    pub kind: FilterKind,
    pub text: String,
}

impl View for Filter {
    type V = (Seq<char>, FilterKind, Seq<char>);

    open spec fn view(&self) -> (Seq<char>, FilterKind, Seq<char>) {
        (self.field@, self.kind, self.text@)
    }
}

/// What a filter expression denotes: `{field}=text` compares for equality,
/// `{field}*text` for containment. The field's name ends at the first `}`.
/// Anything else is no filter.
pub open spec fn parsed_filter(s: Seq<char>) -> Option<(Seq<char>, FilterKind, Seq<char>)> {
    let close = first_index_from(s, '}', 1);
    if s.len() >= 1 && s[0] == '{' && close + 1 < s.len() && (s[close + 1] == '=' || s[close + 1]
        == '*') {
        Some(
            (
                s.subrange(1, close),
                if s[close + 1] == '=' {
                    FilterKind::Equals
                } else {
                    FilterKind::Contains
                },
                s.skip(close + 2),
            ),
        )
    } else {
        None
    }
}

/// Whether a record meets a filter. A record without the field does not.
pub open spec fn filter_matches(
    filter: (Seq<char>, FilterKind, Seq<char>),
    record: Seq<(Seq<char>, Seq<char>)>,
) -> bool {
    match lookup(record, filter.0) {
        Some(value) => match filter.1 {
            FilterKind::Equals => value == filter.2,
            FilterKind::Contains => contains_text(value, filter.2),
        },
        None => false,
    }
}

/// Reads a filter expression.
pub fn parse_filter(expression: &str) -> (r: Result<Filter, APMError>)
    ensures
        match r {
            Ok(filter) => parsed_filter(expression@) == Some(filter@),
            Err(e) => parsed_filter(expression@) is None && e.err_type
                == APMErrorType::FilterParseError,
        },
{
    let s = to_chars(expression);
    if s.len() == 0 || s[0] != '{' {
        return Err(
            APMErrorType::FilterParseError.into_apm_error(
                "A filter starts with a field in braces".to_owned(),
            ),
        );
    }
    let close = find_char(&s, '}', 1);
    if close >= s.len() || close + 1 >= s.len() {
        return Err(
            APMErrorType::FilterParseError.into_apm_error(
                "A filter has '=' or '*' behind its field".to_owned(),
            ),
        );
    }
    let op = s[close + 1];
    if op != '=' && op != '*' {
        return Err(
            APMErrorType::FilterParseError.into_apm_error(
                "A filter has '=' or '*' behind its field".to_owned(),
            ),
        );
    }
    let kind = if op == '=' {
        FilterKind::Equals
    } else {
        FilterKind::Contains
    };
    let field = expression.substring_char(1, close).to_owned();
    let text = expression.substring_char(close + 2, s.len()).to_owned();
    assert(s@.skip(close + 2) == s@.subrange(close + 2, s@.len() as int));
    Ok(Filter { field, kind, text })
}

impl Filter {
    /// Whether `record` meets the filter.
    pub fn matches(&self, record: &Record) -> (r: bool)
        ensures
            r == filter_matches(self@, record@),
    {
        match record.get(self.field.as_str()) {
            Some(value) => match self.kind {
                FilterKind::Equals => str_eq(value.as_str(), self.text.as_str()),
                FilterKind::Contains => contains(value.as_str(), self.text.as_str()),
            },
            None => false,
        }
    }
}

/// Two pieces of text one behind the other, where both are there.
pub open spec fn join(a: Option<Seq<char>>, b: Option<Seq<char>>) -> Option<Seq<char>> {
    match (a, b) {
        (Some(x), Some(y)) => Some(x + y),
        _ => None,
    }
}

/// What the template `t` gives from position `pos` on, for a record and for
/// the value that the rewritten field has: `*` stands for that value, a name
/// in braces for the record's field of that name, every other character for
/// itself. A `{` that no `}` follows stands for itself. Nothing is given
/// where a name in braces is no field of the record.
pub open spec fn expand_from(
    t: Seq<char>,
    pos: int,
    record: Seq<(Seq<char>, Seq<char>)>,
    original: Seq<char>,
) -> Option<Seq<char>>
    decreases t.len() - pos,
{
    if pos < 0 || pos >= t.len() {
        Some(Seq::empty())
    } else if t[pos] == '*' {
        join(Some(original), expand_from(t, pos + 1, record, original))
    } else if t[pos] == '{' && pos < first_index_from(t, '}', pos + 1) < t.len() {
        let close = first_index_from(t, '}', pos + 1);
        join(
            lookup(record, t.subrange(pos + 1, close)),
            expand_from(t, close + 1, record, original),
        )
    } else {
        join(Some(seq![t[pos]]), expand_from(t, pos + 1, record, original))
    }
}

/// What the template `t` gives for a record and for the value that the
/// rewritten field has.
pub open spec fn expand(
    t: Seq<char>,
    record: Seq<(Seq<char>, Seq<char>)>,
    original: Seq<char>,
) -> Option<Seq<char>> {
    expand_from(t, 0, record, original)
}

/// A piece of a value template.
pub enum Segment {
    /// Text that stands for itself.
    Literal(String),
    /// The value that the rewritten field has.
    KeepOriginal,
    /// The value of another field of the record.
    Field(String),
}

/// What one segment gives.
pub open spec fn eval_segment(
    segment: Segment,
    record: Seq<(Seq<char>, Seq<char>)>,
    original: Seq<char>,
) -> Option<Seq<char>> {
    match segment {
        Segment::Literal(text) => Some(text@),
        Segment::KeepOriginal => Some(original),
        Segment::Field(name) => lookup(record, name@),
    }
}

/// What the segments give, one behind the other.
pub open spec fn eval_segments(
    segments: Seq<Segment>,
    record: Seq<(Seq<char>, Seq<char>)>,
    original: Seq<char>,
) -> Option<Seq<char>>
    decreases segments.len(),
{
    if segments.len() == 0 {
        Some(Seq::empty())
    } else {
        join(
            eval_segments(segments.drop_last(), record, original),
            eval_segment(segments.last(), record, original),
        )
    }
}

/// The segments stand for the first `upto` characters of `t`.
pub open spec fn covers(segments: Seq<Segment>, t: Seq<char>, upto: int) -> bool {
    forall|record: Seq<(Seq<char>, Seq<char>)>, original: Seq<char>|
        #[trigger] expand_from(t, 0, record, original) == join(
            eval_segments(segments, record, original),
            expand_from(t, upto, record, original),
        )
}

/// The characters of `t` from `start` up to `end` stand for themselves.
pub open spec fn plain_run(t: Seq<char>, start: int, end: int) -> bool {
    forall|record: Seq<(Seq<char>, Seq<char>)>, original: Seq<char>|
        #[trigger] expand_from(t, start, record, original) == join(
            Some(t.subrange(start, end)),
            expand_from(t, end, record, original),
        )
}

proof fn lemma_join_assoc(a: Option<Seq<char>>, b: Option<Seq<char>>, c: Option<Seq<char>>)
    ensures
        join(join(a, b), c) == join(a, join(b, c)),
{
    if a is Some && b is Some && c is Some {
        assert((a->0 + b->0) + c->0 == a->0 + (b->0 + c->0));
    }
}

proof fn lemma_join_empty(a: Option<Seq<char>>)
    ensures
        join(Some(Seq::empty()), a) == a,
        join(a, Some(Seq::empty())) == a,
{
    if a is Some {
        assert(Seq::<char>::empty() + a->0 == a->0);
        assert(a->0 + Seq::<char>::empty() == a->0);
    }
}

proof fn lemma_covers_push(
    segments: Seq<Segment>,
    segment: Segment,
    t: Seq<char>,
    upto: int,
    next: int,
)
    requires
        covers(segments, t, upto),
        forall|record: Seq<(Seq<char>, Seq<char>)>, original: Seq<char>|
            #[trigger] expand_from(t, upto, record, original) == join(
                eval_segment(segment, record, original),
                expand_from(t, next, record, original),
            ),
    ensures
        covers(segments.push(segment), t, next),
{
    assert forall|record: Seq<(Seq<char>, Seq<char>)>, original: Seq<char>|
        #[trigger] expand_from(t, 0, record, original) == join(
            eval_segments(segments.push(segment), record, original),
            expand_from(t, next, record, original),
        ) by {
        assert(segments.push(segment).drop_last() == segments);
        lemma_join_assoc(
            eval_segments(segments, record, original),
            eval_segment(segment, record, original),
            expand_from(t, next, record, original),
        );
        assert(expand_from(t, upto, record, original) == join(
            eval_segment(segment, record, original),
            expand_from(t, next, record, original),
        ));
    }
}

proof fn lemma_plain_run_start(t: Seq<char>, start: int)
    requires
        0 <= start <= t.len(),
    ensures
        plain_run(t, start, start),
{
    assert forall|record: Seq<(Seq<char>, Seq<char>)>, original: Seq<char>|
        #[trigger] expand_from(t, start, record, original) == join(
            Some(t.subrange(start, start)),
            expand_from(t, start, record, original),
        ) by {
        assert(t.subrange(start, start) == Seq::<char>::empty());
        lemma_join_empty(expand_from(t, start, record, original));
    }
}

proof fn lemma_plain_run_extend(t: Seq<char>, start: int, end: int)
    requires
        0 <= start <= end < t.len(),
        plain_run(t, start, end),
        t[end] != '*',
        !(t[end] == '{' && end < first_index_from(t, '}', end + 1) < t.len()),
    ensures
        plain_run(t, start, end + 1),
{
    assert forall|record: Seq<(Seq<char>, Seq<char>)>, original: Seq<char>|
        #[trigger] expand_from(t, start, record, original) == join(
            Some(t.subrange(start, end + 1)),
            expand_from(t, end + 1, record, original),
        ) by {
        assert(expand_from(t, start, record, original) == join(
            Some(t.subrange(start, end)),
            expand_from(t, end, record, original),
        ));
        lemma_join_assoc(
            Some(t.subrange(start, end)),
            Some(seq![t[end]]),
            expand_from(t, end + 1, record, original),
        );
        assert(t.subrange(start, end) + seq![t[end]] == t.subrange(start, end + 1));
    }
}

/// A value template, read once and applied to many records.
pub struct Template {
    pub segments: Vec<Segment>,
}

/// Reads a value template. Every text is a template.
pub fn parse_template(text: &str) -> (template: Template)
    ensures
        forall|record: Seq<(Seq<char>, Seq<char>)>, original: Seq<char>|
            #[trigger] eval_segments(template.segments@, record, original) == expand(
                text@,
                record,
                original,
            ),
{
    let t = to_chars(text);
    let mut segments: Vec<Segment> = Vec::new();
    let mut start: usize = 0;
    let mut i: usize = 0;
    proof {
        lemma_plain_run_start(t@, 0);
        assert forall|record: Seq<(Seq<char>, Seq<char>)>, original: Seq<char>|
            #[trigger] expand_from(t@, 0, record, original) == join(
                eval_segments(segments@, record, original),
                expand_from(t@, 0, record, original),
            ) by {
            lemma_join_empty(expand_from(t@, 0, record, original));
        }
    }
    while i < t.len()
        invariant
            t@ == text@,
            start <= i <= t.len(),
            covers(segments@, t@, start as int),
            plain_run(t@, start as int, i as int),
        decreases t.len() - i,
    {
        let c = t[i];
        let close = if c == '{' {
            find_char(&t, '}', i + 1)
        } else {
            t.len()
        };
        if c == '*' || (c == '{' && close < t.len()) {
            if start < i {
                let literal = text.substring_char(start, i).to_owned();
                proof {
                    lemma_covers_push(
                        segments@,
                        Segment::Literal(literal),
                        t@,
                        start as int,
                        i as int,
                    );
                }
                segments.push(Segment::Literal(literal));
            }
            if c == '*' {
                proof {
                    lemma_covers_push(segments@, Segment::KeepOriginal, t@, i as int, i + 1);
                }
                segments.push(Segment::KeepOriginal);
                i += 1;
            } else {
                let name = text.substring_char(i + 1, close).to_owned();
                proof {
                    lemma_covers_push(segments@, Segment::Field(name), t@, i as int, close + 1);
                }
                segments.push(Segment::Field(name));
                i = close + 1;
            }
            start = i;
            proof {
                lemma_plain_run_start(t@, i as int);
            }
        } else {
            proof {
                lemma_plain_run_extend(t@, start as int, i as int);
            }
            i += 1;
        }
    }
    if start < i {
        let literal = text.substring_char(start, i).to_owned();
        proof {
            lemma_covers_push(segments@, Segment::Literal(literal), t@, start as int, i as int);
        }
        segments.push(Segment::Literal(literal));
    }
    proof {
        assert forall|record: Seq<(Seq<char>, Seq<char>)>, original: Seq<char>|
            #[trigger] eval_segments(segments@, record, original) == expand(
                text@,
                record,
                original,
            ) by {
            assert(expand_from(t@, 0, record, original) == join(
                eval_segments(segments@, record, original),
                expand_from(t@, i as int, record, original),
            ));
            lemma_join_empty(eval_segments(segments@, record, original));
        }
    }
    Template { segments }
}

impl Template {
    /// What the template gives for `record` and for the value that the
    /// rewritten field has; nothing where it names a field that the record
    /// lacks.
    pub fn render(&self, record: &Record, original: &str) -> (r: Option<String>)
        ensures
            match r {
                Some(text) => eval_segments(self.segments@, record@, original@) == Some(text@),
                None => eval_segments(self.segments@, record@, original@) is None,
            },
    {
        let mut out = String::new();
        let mut i: usize = 0;
        while i < self.segments.len()
            invariant
                i <= self.segments.len(),
                eval_segments(self.segments@.take(i as int), record@, original@) == Some(out@),
            decreases self.segments.len() - i,
        {
            proof {
                assert(self.segments@.take(i + 1).drop_last() == self.segments@.take(i as int));
                assert(self.segments@.take(i + 1).last() == self.segments@[i as int]);
            }
            match &self.segments[i] {
                Segment::Literal(text) => {
                    out.append(text.as_str());
                },
                Segment::KeepOriginal => {
                    out.append(original);
                },
                Segment::Field(name) => match record.get(name.as_str()) {
                    Some(value) => {
                        out.append(value.as_str());
                    },
                    None => {
                        proof {
                            lemma_eval_failure(
                                self.segments@,
                                i + 1,
                                record@,
                                original@,
                            );
                        }
                        return None;
                    },
                },
            }
            i += 1;
        }
        assert(self.segments@.take(self.segments@.len() as int) == self.segments@);
        Some(out)
    }
}

proof fn lemma_eval_failure(
    segments: Seq<Segment>,
    n: int,
    record: Seq<(Seq<char>, Seq<char>)>,
    original: Seq<char>,
)
    requires
        0 <= n <= segments.len(),
        eval_segments(segments.take(n), record, original) is None,
    ensures
        eval_segments(segments, record, original) is None,
    decreases segments.len(),
{
    if n == segments.len() {
        assert(segments.take(n) == segments);
    } else {
        assert(segments.drop_last().take(n) == segments.take(n));
        lemma_eval_failure(segments.drop_last(), n, record, original);
    }
}

/// One line of the change log: the position of the record in the
/// collection, the field, and its value before and after.
pub struct Change {
    pub record: usize,
    pub key: String,
    pub old_value: String,
    pub new_value: String,
}

impl View for Change {
    type V = (int, Seq<char>, Seq<char>, Seq<char>);

    open spec fn view(&self) -> (int, Seq<char>, Seq<char>, Seq<char>) {
        (self.record as int, self.key@, self.old_value@, self.new_value@)
    }
}

/// A change log by the views of its lines.
pub open spec fn changes_view(log: Seq<Change>) -> Seq<(int, Seq<char>, Seq<char>, Seq<char>)> {
    Seq::new(log.len(), |i: int| log[i]@)
}

/// Strings by their characters.
pub open spec fn strings_view(strings: Seq<String>) -> Seq<Seq<char>> {
    Seq::new(strings.len(), |i: int| strings[i]@)
}

/// The record after the first `n` keys were applied. Each key that the
/// record has as a field gets what its template gives for the record as it
/// was before the update; a key that the record lacks is passed over.
/// Nothing is given where a template names a field that the record lacks.
pub open spec fn rewritten(
    record: Seq<(Seq<char>, Seq<char>)>,
    keys: Seq<Seq<char>>,
    templates: Seq<Seq<char>>,
    n: int,
) -> Option<Seq<(Seq<char>, Seq<char>)>>
    decreases n,
{
    if n <= 0 {
        Some(record)
    } else {
        match rewritten(record, keys, templates, n - 1) {
            None => None,
            Some(so_far) => match lookup(record, keys[n - 1]) {
                None => Some(so_far),
                Some(old_value) => match expand(templates[n - 1], record, old_value) {
                    None => None,
                    Some(new_value) => Some(with_field(so_far, keys[n - 1], new_value)),
                },
            },
        }
    }
}

/// The lines that the first `n` keys add to the change log for one record:
/// one line for each key that the record has as a field, in the order of the
/// keys.
pub open spec fn record_changes(
    record: Seq<(Seq<char>, Seq<char>)>,
    index: int,
    keys: Seq<Seq<char>>,
    templates: Seq<Seq<char>>,
    n: int,
) -> Seq<(int, Seq<char>, Seq<char>, Seq<char>)>
    decreases n,
{
    if n <= 0 {
        Seq::empty()
    } else {
        let so_far = record_changes(record, index, keys, templates, n - 1);
        match lookup(record, keys[n - 1]) {
            None => so_far,
            Some(old_value) => match expand(templates[n - 1], record, old_value) {
                None => so_far,
                Some(new_value) => so_far.push((index, keys[n - 1], old_value, new_value)),
            },
        }
    }
}

/// Whether the filter selects the record. Without a filter every record is
/// selected.
pub open spec fn selects(
    filter: Option<(Seq<char>, FilterKind, Seq<char>)>,
    record: Seq<(Seq<char>, Seq<char>)>,
) -> bool {
    match filter {
        None => true,
        Some(f) => filter_matches(f, record),
    }
}

/// The first `n` records after the update, and the change log so far.
/// Records that the filter does not select stay as they are and add nothing
/// to the log.
pub open spec fn updated(
    records: Seq<Seq<(Seq<char>, Seq<char>)>>,
    keys: Seq<Seq<char>>,
    templates: Seq<Seq<char>>,
    filter: Option<(Seq<char>, FilterKind, Seq<char>)>,
    n: int,
) -> Option<(Seq<Seq<(Seq<char>, Seq<char>)>>, Seq<(int, Seq<char>, Seq<char>, Seq<char>)>)>
    decreases n,
{
    if n <= 0 {
        Some((Seq::empty(), Seq::empty()))
    } else {
        match updated(records, keys, templates, filter, n - 1) {
            None => None,
            Some((out, log)) => if !selects(filter, records[n - 1]) {
                Some((out.push(records[n - 1]), log))
            } else {
                match rewritten(records[n - 1], keys, templates, keys.len() as int) {
                    None => None,
                    Some(record) => Some(
                        (
                            out.push(record),
                            log + record_changes(
                                records[n - 1],
                                n - 1,
                                keys,
                                templates,
                                keys.len() as int,
                            ),
                        ),
                    ),
                }
            },
        }
    }
}

/// The filter that an optional expression denotes.
pub open spec fn chosen_filter(filter: Option<Seq<char>>) -> Option<
    (Seq<char>, FilterKind, Seq<char>),
> {
    match filter {
        Some(text) => parsed_filter(text),
        None => None,
    }
}

/// What a bulk update gives: the collection and the change log, or the kind
/// of the failure. A dry run gives the collection as it was, with the change
/// log of the real run.
pub open spec fn bulk_update_outcome(
    records: Seq<Seq<(Seq<char>, Seq<char>)>>,
    keys: Seq<Seq<char>>,
    values: Seq<Seq<char>>,
    filter: Option<Seq<char>>,
    dry_run: bool,
) -> Result<
    (Seq<Seq<(Seq<char>, Seq<char>)>>, Seq<(int, Seq<char>, Seq<char>, Seq<char>)>),
    APMErrorType,
> {
    if keys.len() != values.len() {
        Err(APMErrorType::KeyValueCountMismatchError)
    } else if filter is Some && parsed_filter(filter->0) is None {
        Err(APMErrorType::FilterParseError)
    } else {
        match updated(records, keys, values, chosen_filter(filter), records.len() as int) {
            None => Err(APMErrorType::UnknownFieldReferenceError),
            Some((out, log)) => Ok(
                (
                    if dry_run {
                        records
                    } else {
                        out
                    },
                    log,
                ),
            ),
        }
    }
}

/// An optional expression by its characters.
pub open spec fn filter_text(filter: Option<&str>) -> Option<Seq<char>> {
    match filter {
        Some(text) => Some(text@),
        None => None,
    }
}

/// The templates stand for the texts, one for one.
pub open spec fn templates_read(templates: Seq<Template>, texts: Seq<Seq<char>>) -> bool {
    &&& templates.len() == texts.len()
    &&& forall|j: int, record: Seq<(Seq<char>, Seq<char>)>, original: Seq<char>|
        0 <= j < templates.len() ==> #[trigger] eval_segments(
            templates[j].segments@,
            record,
            original,
        ) == expand(texts[j], record, original)
}

/// Applies the keys to one record: the record after the update and its
/// lines of the change log, or nothing where a template names a field that
/// the record lacks.
fn rewrite_record(
    record: &Record,
    index: usize,
    keys: &Vec<String>,
    templates: &Vec<Template>,
    Ghost(texts): Ghost<Seq<Seq<char>>>,
) -> (r: Option<(Record, Vec<Change>)>)
    requires
        templates_read(templates@, texts),
        keys@.len() == texts.len(),
    ensures
        match r {
            Some((changed, log)) => rewritten(
                record@,
                strings_view(keys@),
                texts,
                keys@.len() as int,
            ) == Some(changed@) && changes_view(log@) == record_changes(
                record@,
                index as int,
                strings_view(keys@),
                texts,
                keys@.len() as int,
            ),
            None => rewritten(record@, strings_view(keys@), texts, keys@.len() as int) is None,
        },
{
    let mut changed = record.duplicate();
    let mut log: Vec<Change> = Vec::new();
    let mut j: usize = 0;
    while j < keys.len()
        invariant
            j <= keys.len(),
            templates_read(templates@, texts),
            keys@.len() == texts.len(),
            rewritten(record@, strings_view(keys@), texts, j as int) == Some(changed@),
            changes_view(log@) == record_changes(
                record@,
                index as int,
                strings_view(keys@),
                texts,
                j as int,
            ),
        decreases keys.len() - j,
    {
        let key = &keys[j];
        assert(strings_view(keys@)[j as int] == key@);
        match record.get(key.as_str()) {
            None => {},
            Some(old_value) => match templates[j].render(record, old_value.as_str()) {
                None => {
                    proof {
                        lemma_rewritten_failure(
                            record@,
                            strings_view(keys@),
                            texts,
                            j + 1,
                            keys@.len() as int,
                        );
                    }
                    return None;
                },
                Some(new_value) => {
                    let ghost before = changes_view(log@);
                    log.push(
                        Change {
                            record: index,
                            key: key.clone(),
                            old_value,
                            new_value: new_value.clone(),
                        },
                    );
                    assert(changes_view(log@) == before.push(
                        (index as int, key@, old_value@, new_value@),
                    ));
                    changed.set(key.as_str(), new_value);
                },
            },
        }
        j += 1;
    }
    Some((changed, log))
}

proof fn lemma_rewritten_failure(
    record: Seq<(Seq<char>, Seq<char>)>,
    keys: Seq<Seq<char>>,
    templates: Seq<Seq<char>>,
    n: int,
    m: int,
)
    requires
        0 <= n <= m,
        rewritten(record, keys, templates, n) is None,
    ensures
        rewritten(record, keys, templates, m) is None,
    decreases m,
{
    if n < m {
        lemma_rewritten_failure(record, keys, templates, n, m - 1);
    }
}

proof fn lemma_updated_failure(
    records: Seq<Seq<(Seq<char>, Seq<char>)>>,
    keys: Seq<Seq<char>>,
    templates: Seq<Seq<char>>,
    filter: Option<(Seq<char>, FilterKind, Seq<char>)>,
    n: int,
    m: int,
)
    requires
        0 <= n <= m,
        updated(records, keys, templates, filter, n) is None,
    ensures
        updated(records, keys, templates, filter, m) is None,
    decreases m,
{
    if n < m {
        lemma_updated_failure(records, keys, templates, filter, n, m - 1);
    }
}

fn update_failure(kind: APMErrorType, detail: &str) -> (r: Result<
    (Vec<Record>, Vec<Change>),
    APMError,
>)
    ensures
        r matches Err(e) && e.err_type == kind,
{
    Err(kind.into_apm_error(detail.to_owned()))
}

/// Rewrites the fields `keys` of the records that `filter` selects, each
/// key with the value template at the same position in `values`, and logs
/// every rewrite. A dry run logs the same and hands the collection back as
/// it was.
pub fn bulk_update(
    collection: &Vec<Record>,
    keys: &Vec<String>,
    values: &Vec<String>,
    filter: Option<&str>,
    dry_run: bool,
) -> (r: Result<(Vec<Record>, Vec<Change>), APMError>)
    ensures
        match r {
            Ok((records, log)) => bulk_update_outcome(
                records_view(collection@),
                strings_view(keys@),
                strings_view(values@),
                filter_text(filter),
                dry_run,
            ) == Ok::<
                (Seq<Seq<(Seq<char>, Seq<char>)>>, Seq<(int, Seq<char>, Seq<char>, Seq<char>)>),
                APMErrorType,
            >((records_view(records@), changes_view(log@))),
            Err(e) => bulk_update_outcome(
                records_view(collection@),
                strings_view(keys@),
                strings_view(values@),
                filter_text(filter),
                dry_run,
            ) == Err::<
                (Seq<Seq<(Seq<char>, Seq<char>)>>, Seq<(int, Seq<char>, Seq<char>, Seq<char>)>),
                APMErrorType,
            >(e.err_type),
        },
{
    if keys.len() != values.len() {
        return update_failure(
            APMErrorType::KeyValueCountMismatchError,
            "Each key needs one value",
        );
    }
    let chosen: Option<Filter> = match filter {
        Some(text) => match parse_filter(text) {
            Ok(f) => Some(f),
            Err(e) => {
                return Err(e);
            },
        },
        None => None,
    };
    let ghost selection = chosen_filter(filter_text(filter));
    assert(selection == match chosen {
        Some(f) => Some(f@),
        None => None,
    });
    let ghost texts = strings_view(values@);
    let ghost names = strings_view(keys@);
    let ghost given = records_view(collection@);
    let mut templates: Vec<Template> = Vec::new();
    let mut k: usize = 0;
    while k < values.len()
        invariant
            k <= values.len(),
            texts == strings_view(values@),
            templates_read(templates@, texts.take(k as int)),
        decreases values.len() - k,
    {
        let template = parse_template(values[k].as_str());
        templates.push(template);
        assert(texts.take(k + 1) == texts.take(k as int).push(values@[k as int]@));
        k += 1;
    }
    assert(texts.take(values@.len() as int) == texts);
    let mut records: Vec<Record> = Vec::new();
    let mut log: Vec<Change> = Vec::new();
    let mut i: usize = 0;
    while i < collection.len()
        invariant
            i <= collection.len(),
            keys@.len() == values@.len(),
            texts == strings_view(values@),
            names == strings_view(keys@),
            given == records_view(collection@),
            templates_read(templates@, texts),
            selection == chosen_filter(filter_text(filter)),
            filter_text(filter) is Some ==> parsed_filter(filter_text(filter)->0) is Some,
            selection == match chosen {
                Some(f) => Some(f@),
                None => None,
            },
            records@.len() == i,
            updated(given, names, texts, selection, i as int) matches Some(so_far)
                && changes_view(log@) == so_far.1 && if dry_run {
                records_view(records@) == given.take(i as int)
            } else {
                records_view(records@) == so_far.0
            },
        decreases collection.len() - i,
    {
        let record = &collection[i];
        let ghost before = records_view(records@);
        let ghost logged = changes_view(log@);
        let selected = match &chosen {
            Some(f) => f.matches(record),
            None => true,
        };
        assert(given[i as int] == record@);
        assert(given.take(i + 1) == given.take(i as int).push(record@));
        if !selected {
            records.push(record.duplicate());
            assert(records_view(records@) == before.push(record@));
        } else {
            match rewrite_record(record, i, keys, &templates, Ghost(texts)) {
                None => {
                    proof {
                        lemma_updated_failure(
                            given,
                            names,
                            texts,
                            selection,
                            i + 1,
                            given.len() as int,
                        );
                    }
                    return update_failure(
                        APMErrorType::UnknownFieldReferenceError,
                        "A value names a field that a record lacks",
                    );
                },
                Some((changed, lines)) => {
                    let mut lines = lines;
                    let ghost added = changes_view(lines@);
                    log.append(&mut lines);
                    assert(changes_view(log@) == logged + added);
                    if dry_run {
                        records.push(record.duplicate());
                        assert(records_view(records@) == before.push(record@));
                    } else {
                        records.push(changed);
                        assert(records_view(records@) == before.push(changed@));
                    }
                },
            }
        }
        i += 1;
    }
    assert(given.take(given.len() as int) == given);
    Ok((records, log))
}

/// A dry run previews the real run: both fail alike or both succeed with
/// the same change log, and the dry run hands the collection back as it was.
pub proof fn lemma_dry_run_previews(
    records: Seq<Seq<(Seq<char>, Seq<char>)>>,
    keys: Seq<Seq<char>>,
    values: Seq<Seq<char>>,
    filter: Option<Seq<char>>,
)
    ensures
        match bulk_update_outcome(records, keys, values, filter, true) {
            Ok(preview) => bulk_update_outcome(records, keys, values, filter, false) matches Ok(
                done,
            ) && preview.1 == done.1 && preview.0 == records,
            Err(kind) => bulk_update_outcome(records, keys, values, filter, false) matches Err(
                other,
            ) && other == kind,
        },
{
}

/// With as many keys as values or not: where the counts differ the update
/// fails with `KeyValueCountMismatchError`, whatever else was asked for.
pub proof fn lemma_count_mismatch(
    records: Seq<Seq<(Seq<char>, Seq<char>)>>,
    keys: Seq<Seq<char>>,
    values: Seq<Seq<char>>,
    filter: Option<Seq<char>>,
    dry_run: bool,
)
    requires
        keys.len() != values.len(),
    ensures
        bulk_update_outcome(records, keys, values, filter, dry_run) == Err::<
            (Seq<Seq<(Seq<char>, Seq<char>)>>, Seq<(int, Seq<char>, Seq<char>, Seq<char>)>),
            APMErrorType,
        >(APMErrorType::KeyValueCountMismatchError),
{
}

/// The first `c` behind a text that holds no `c` is found right behind it.
pub proof fn lemma_first_index_behind(s: Seq<char>, c: char, from: int, at: int)
    requires
        0 <= from <= at < s.len(),
        s[at] == c,
        forall|k: int| from <= k < at ==> s[k] != c,
    ensures
        first_index_from(s, c, from) == at,
    decreases at - from,
{
    if from < at {
        lemma_first_index_behind(s, c, from + 1, at);
    }
}

/// The text of a filter on `field`: the field in braces, the sign of the
/// comparison, and the text to compare with.
pub open spec fn filter_expression(field: Seq<char>, sign: char, text: Seq<char>) -> Seq<char> {
    seq!['{'] + field + seq!['}', sign] + text
}

/// `{field}*text` selects the records whose field contains the text, and
/// `{field}=text` those whose field equals it: no others. This holds of
/// every field name without `}`.
pub proof fn lemma_filter_forms(
    field: Seq<char>,
    text: Seq<char>,
    record: Seq<(Seq<char>, Seq<char>)>,
)
    requires
        !field.contains('}'),
    ensures
        parsed_filter(filter_expression(field, '*', text)) == Some(
            (field, FilterKind::Contains, text),
        ),
        parsed_filter(filter_expression(field, '=', text)) == Some(
            (field, FilterKind::Equals, text),
        ),
        selects(parsed_filter(filter_expression(field, '*', text)), record) <==> (lookup(
            record,
            field,
        ) matches Some(value) && contains_text(value, text)),
        selects(parsed_filter(filter_expression(field, '=', text)), record) <==> lookup(
            record,
            field,
        ) == Some(text),
{
    let close = field.len() as int + 1;
    let contains = filter_expression(field, '*', text);
    let equals = filter_expression(field, '=', text);
    assert forall|k: int| 1 <= k < close implies contains[k] != '}' && equals[k] != '}' by {
        assert(contains[k] == field[k - 1]);
        assert(equals[k] == field[k - 1]);
        assert(field.contains(field[k - 1]));
    }
    lemma_first_index_behind(contains, '}', 1, close);
    lemma_first_index_behind(equals, '}', 1, close);
    assert(contains.subrange(1, close) == field);
    assert(equals.subrange(1, close) == field);
    assert(contains.skip(close + 2) == text);
    assert(equals.skip(close + 2) == text);
}

/// The template `*` gives the value that the field has, so rewriting a
/// field with it leaves the record as it was.
pub proof fn lemma_keep_original(
    record: Seq<(Seq<char>, Seq<char>)>,
    key: Seq<char>,
    original: Seq<char>,
)
    ensures
        expand(seq!['*'], record, original) == Some(original),
        rewritten(record, seq![key], seq![seq!['*']], 1) == Some(record),
{
    let t = seq!['*'];
    assert(expand_from(t, 1, record, original) == Some(Seq::<char>::empty()));
    assert(original + Seq::<char>::empty() == original);
    assert(expand(t, record, original) == Some(original));
    assert(rewritten(record, seq![key], seq![t], 0) == Some(record));
    if has_field(record, key) {
        let old_value = lookup(record, key)->0;
        assert(expand_from(t, 1, record, old_value) == Some(Seq::<char>::empty()));
        assert(old_value + Seq::<char>::empty() == old_value);
        assert(expand(t, record, old_value) == Some(old_value));
        lemma_with_field_same(record, key);
    }
}

/// The template `{name}` gives the value that the record's field `name`
/// has, and fails where the record has no such field. This holds of every
/// field name without `}`.
pub proof fn lemma_field_reference(
    name: Seq<char>,
    record: Seq<(Seq<char>, Seq<char>)>,
    original: Seq<char>,
)
    requires
        !name.contains('}'),
    ensures
        expand(seq!['{'] + name + seq!['}'], record, original) == lookup(record, name),
{
    let t = seq!['{'] + name + seq!['}'];
    let close = name.len() as int + 1;
    assert forall|k: int| 1 <= k < close implies t[k] != '}' by {
        assert(t[k] == name[k - 1]);
        assert(name.contains(name[k - 1]));
    }
    lemma_first_index_behind(t, '}', 1, close);
    assert(t.subrange(1, close) == name);
    assert(expand_from(t, close + 1, record, original) == Some(Seq::<char>::empty()));
    if lookup(record, name) is Some {
        assert(lookup(record, name)->0 + Seq::<char>::empty() == lookup(record, name)->0);
    }
}

/// Rewriting keeps the names of a record's fields, in their order.
pub proof fn lemma_rewritten_names(
    record: Seq<(Seq<char>, Seq<char>)>,
    keys: Seq<Seq<char>>,
    templates: Seq<Seq<char>>,
    n: int,
)
    requires
        rewritten(record, keys, templates, n) is Some,
    ensures
        field_names(rewritten(record, keys, templates, n)->0) == field_names(record),
    decreases n,
{
    if n > 0 {
        lemma_rewritten_names(record, keys, templates, n - 1);
        let so_far = rewritten(record, keys, templates, n - 1)->0;
        if lookup(record, keys[n - 1]) is Some {
            let old_value = lookup(record, keys[n - 1])->0;
            let new_value = expand(templates[n - 1], record, old_value)->0;
            lemma_with_field_names(so_far, keys[n - 1], new_value);
        }
    }
}

/// An update keeps the number and the order of the records and the names of
/// their fields. A record that the filter does not select stays as it was,
/// and every line of the change log is about a record that the filter
/// selects.
pub proof fn lemma_updated_shape(
    records: Seq<Seq<(Seq<char>, Seq<char>)>>,
    keys: Seq<Seq<char>>,
    templates: Seq<Seq<char>>,
    filter: Option<(Seq<char>, FilterKind, Seq<char>)>,
    n: int,
)
    requires
        0 <= n <= records.len(),
        updated(records, keys, templates, filter, n) is Some,
    ensures
        ({
            let done = updated(records, keys, templates, filter, n)->0;
            let out = done.0;
            let log = done.1;
            &&& out.len() == n
            &&& forall|i: int|
                0 <= i < n ==> field_names(#[trigger] out[i]) == field_names(records[i])
            &&& forall|i: int|
                0 <= i < n && !selects(filter, records[i]) ==> #[trigger] out[i] == records[i]
            &&& forall|k: int|
                0 <= k < log.len() ==> 0 <= (#[trigger] log[k]).0 < n && selects(
                    filter,
                    records[log[k].0],
                )
        }),
    decreases n,
{
    if n > 0 {
        lemma_updated_shape(records, keys, templates, filter, n - 1);
        let before = updated(records, keys, templates, filter, n - 1)->0;
        let now = updated(records, keys, templates, filter, n)->0;
        if selects(filter, records[n - 1]) {
            lemma_rewritten_names(records[n - 1], keys, templates, keys.len() as int);
            lemma_record_changes_index(records[n - 1], n - 1, keys, templates, keys.len() as int);
            let added = record_changes(records[n - 1], n - 1, keys, templates, keys.len() as int);
            assert(now.1 == before.1 + added);
            assert forall|k: int| 0 <= k < now.1.len() implies 0 <= (#[trigger] now.1[k]).0 < n
                && selects(filter, records[now.1[k].0]) by {
                if k < before.1.len() {
                    assert(now.1[k] == before.1[k]);
                } else {
                    assert(now.1[k] == added[k - before.1.len()]);
                }
            }
        }
        assert forall|i: int| 0 <= i < n implies field_names(#[trigger] now.0[i]) == field_names(
            records[i],
        ) by {
            if i < n - 1 {
                assert(now.0[i] == before.0[i]);
            }
        }
        assert forall|i: int| 0 <= i < n && !selects(filter, records[i]) implies #[trigger] now.0[i]
            == records[i] by {
            if i < n - 1 {
                assert(now.0[i] == before.0[i]);
            }
        }
    }
}

/// Every line that a record adds to the change log bears the record's
/// position, names one of its fields, and holds the value that the field
/// had before the update.
pub proof fn lemma_record_changes_index(
    record: Seq<(Seq<char>, Seq<char>)>,
    index: int,
    keys: Seq<Seq<char>>,
    templates: Seq<Seq<char>>,
    n: int,
)
    ensures
        forall|k: int|
            0 <= k < record_changes(record, index, keys, templates, n).len() ==> {
                let line = #[trigger] record_changes(record, index, keys, templates, n)[k];
                line.0 == index && lookup(record, line.1) == Some(line.2)
            },
    decreases n,
{
    if n > 0 {
        lemma_record_changes_index(record, index, keys, templates, n - 1);
    }
}

/// Templates read the record as it was before the update, so for two keys
/// that name different fields the order of the keys does not matter.
pub proof fn lemma_key_order(
    record: Seq<(Seq<char>, Seq<char>)>,
    first: Seq<char>,
    first_template: Seq<char>,
    second: Seq<char>,
    second_template: Seq<char>,
)
    requires
        first != second,
    ensures
        rewritten(record, seq![first, second], seq![first_template, second_template], 2)
            == rewritten(record, seq![second, first], seq![second_template, first_template], 2),
{
    reveal_with_fuel(rewritten, 3);
    let one = lookup(record, first);
    let two = lookup(record, second);
    if one is Some && two is Some {
        let first_value = expand(first_template, record, one->0);
        let second_value = expand(second_template, record, two->0);
        if first_value is Some && second_value is Some {
            lemma_with_field_commutes(record, first, first_value->0, second, second_value->0);
        }
    }
}

/// The pieces of a list from position `from` on: the list is cut at every
/// comma, and the commas are left out. A list without a comma is one piece,
/// and so is the empty list.
pub open spec fn list_pieces_from(list: Seq<char>, from: int) -> Seq<Seq<char>>
    decreases list.len() - from,
{
    let next = first_index_from(list, ',', from);
    if from < 0 || from > list.len() {
        Seq::empty()
    } else if next < from || next >= list.len() {
        seq![list.subrange(from, list.len() as int)]
    } else {
        seq![list.subrange(from, next)] + list_pieces_from(list, next + 1)
    }
}

/// The pieces of a list of keys or of values, as it is written on a command
/// line: cut at every comma. A piece cannot hold a comma.
pub open spec fn list_pieces(list: Seq<char>) -> Seq<Seq<char>> {
    list_pieces_from(list, 0)
}

/// Cuts a list of keys or of values at its commas.
pub fn split_list(list: &str) -> (pieces: Vec<String>)
    ensures
        strings_view(pieces@) == list_pieces(list@),
{
    let chars = to_chars(list);
    let mut pieces: Vec<String> = Vec::new();
    let mut from: usize = 0;
    loop
        invariant
            chars@ == list@,
            from <= chars.len(),
            list_pieces(list@) == strings_view(pieces@) + list_pieces_from(list@, from as int),
        decreases chars.len() - from,
    {
        let next = find_char(&chars, ',', from);
        let ghost before = strings_view(pieces@);
        if next >= chars.len() {
            let piece = list.substring_char(from, chars.len()).to_owned();
            pieces.push(piece);
            proof {
                assert(strings_view(pieces@) == before.push(piece@));
                assert(before + seq![piece@] == before.push(piece@));
            }
            return pieces;
        }
        let piece = list.substring_char(from, next).to_owned();
        pieces.push(piece);
        proof {
            assert(strings_view(pieces@) == before.push(piece@));
            assert(before + (seq![piece@] + list_pieces_from(list@, next + 1)) == before.push(
                piece@,
            ) + list_pieces_from(list@, next + 1));
        }
        from = next + 1;
    }
}

} // verus!
