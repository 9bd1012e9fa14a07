//! The checksum of an archive: a digest over its entries, held by the
//! archive itself in an entry of a reserved name.
//!
//! The entries are taken in the order of their stored names, so the digest
//! does not depend on the order in which they were written, and the entry
//! that holds the checksum is left out.

use vstd::prelude::*;
use vstd::bytes::spec_u64_to_le_bytes;
use vstd::bytes::u64_to_le_bytes;
use vstd::relations::sorted_by;
use vstd::seq_lib::lemma_sorted_unique;
use vstd::seq_lib::to_multiset_build;
use vstd::seq_lib::to_multiset_insert;
use vstd::utf8::encode_utf8;
use crate::archive::archive_wf;
use crate::archive::content_of;
use crate::archive::entry_names;
use crate::archive::has_entry;
use crate::archive::is_first_at;
use crate::archive::lemma_first_position;
use crate::archive::lemma_unique_entry;
use crate::archive::lemma_without_name_keeps;
use crate::archive::lemma_without_name_push;
use crate::archive::lemma_without_name_wf;
use crate::archive::without_name;
use crate::archive::Archive;
use crate::error::APMError;
use crate::error::APMErrorType;
use crate::text::bytes_eq;
use crate::text::lemma_name_leq_total;
use crate::text::lemma_name_leq_transitive;
use crate::text::lemma_name_order_total;
use crate::text::name_le;
use crate::text::name_leq;
use crate::text::name_order;
use crate::text::str_eq;
use crate::text::to_chars;

verus! {

/// The stored name of the entry that holds the checksum.
pub open spec fn marker_name() -> Seq<char> {
    "checksum"@
}

/// The stored name of the entry that holds the checksum.
pub fn checksum_entry_name() -> (name: &'static str)
    ensures
        name@ == marker_name(),
{
    "checksum"
}

/// The state in which the digest starts.
pub const DIGEST_START: u64 = 0xcbf29ce484222325;

/// The factor of the digest.
pub const DIGEST_FACTOR: u64 = 0x100000001b3;

/// The state of the digest after one more byte: the byte is folded into the
/// low bits, and the state multiplied by the factor, modulo 2^64.
pub open spec fn digest_step(state: u64, byte: u8) -> u64 {
    (((state ^ (byte as u64)) as int * (DIGEST_FACTOR as int)) % 0x1_0000_0000_0000_0000) as u64
}

/// The state of the digest after the bytes.
pub open spec fn digest_bytes(state: u64, bytes: Seq<u8>) -> u64
    decreases bytes.len(),
{
    if bytes.len() == 0 {
        state
    } else {
        digest_step(digest_bytes(state, bytes.drop_last()), bytes.last())
    }
}

/// The state of the digest after one entry: its stored name as UTF-8, then
/// its content.
pub open spec fn digest_entry(state: u64, name: Seq<char>, content: Seq<u8>) -> u64 {
    digest_bytes(digest_bytes(state, encode_utf8(name)), content)
}

/// The state of the digest after the entries of the given names, in the
/// order given.
pub open spec fn digest_named(
    state: u64,
    names: Seq<Seq<char>>,
    entries: Seq<(Seq<char>, bool, Seq<u8>)>,
) -> u64
    decreases names.len(),
{
    if names.len() == 0 {
        state
    } else {
        digest_entry(
            digest_named(state, names.drop_last(), entries),
            names.last(),
            content_of(entries, names.last()),
        )
    }
}

/// The digest over all the entries given, taken in the order of their names.
pub open spec fn plain_digest(entries: Seq<(Seq<char>, bool, Seq<u8>)>) -> u64 {
    digest_named(DIGEST_START, entry_names(entries).sort_by(name_order()), entries)
}

/// The checksum of an archive, as it is stored: the digest over all entries
/// but the one that holds the checksum, in eight bytes, the lowest first.
pub open spec fn checksum_of(entries: Seq<(Seq<char>, bool, Seq<u8>)>) -> Seq<u8> {
    spec_u64_to_le_bytes(plain_digest(without_name(entries, marker_name())))
}

/// The archive with its checksum: the entries but a checksum held so far,
/// and behind them the entry that holds the checksum.
pub open spec fn with_checksum(entries: Seq<(Seq<char>, bool, Seq<u8>)>) -> Seq<(Seq<char>, bool, Seq<u8>)> {
    without_name(entries, marker_name()).push((marker_name(), false, checksum_of(entries)))
}

/// The archive holds a checksum, and it is the checksum of the archive.
pub open spec fn checksum_holds(entries: Seq<(Seq<char>, bool, Seq<u8>)>) -> bool {
    has_entry(entries, marker_name()) && content_of(entries, marker_name()) == checksum_of(
        entries,
    )
}

fn step(state: u64, byte: u8) -> (r: u64)
    ensures
        r == digest_step(state, byte),
{
    (state ^ (byte as u64)).wrapping_mul(DIGEST_FACTOR)
}

fn feed(state: u64, bytes: &[u8]) -> (r: u64)
    ensures
        r == digest_bytes(state, bytes@),
{
    let mut h = state;
    let mut i: usize = 0;
    while i < bytes.len()
        invariant
            i <= bytes.len(),
            h == digest_bytes(state, bytes@.take(i as int)),
        decreases bytes.len() - i,
    {
        assert(bytes@.take(i + 1).drop_last() == bytes@.take(i as int));
        h = step(h, bytes[i]);
        i += 1;
    }
    assert(bytes@.take(bytes@.len() as int) == bytes@);
    h
}

/// The names of the entries at the given positions.
pub open spec fn names_at(order: Seq<usize>, entries: Seq<(Seq<char>, bool, Seq<u8>)>) -> Seq<
    Seq<char>,
> {
    Seq::new(order.len(), |k: int| entries[order[k] as int].0)
}

proof fn lemma_insert_sorted(names: Seq<Seq<char>>, j: int, name: Seq<char>)
    requires
        sorted_by(names, name_order()),
        0 <= j <= names.len(),
        forall|k: int| 0 <= k < j ==> name_leq(#[trigger] names[k], name),
        j < names.len() ==> !name_leq(names[j], name),
    ensures
        sorted_by(names.insert(j, name), name_order()),
{
    let more = names.insert(j, name);
    assert forall|a: int, b: int| 0 <= a < b < more.len() implies #[trigger] name_order()(
        more[a],
        more[b],
    ) by {
        if b == j {
            assert(more[a] == names[a]);
        } else if a == j {
            assert(more[b] == names[b - 1]);
            lemma_name_leq_total(names[j], name);
            if b - 1 > j {
                assert(name_order()(names[j], names[b - 1]));
                lemma_name_leq_transitive(name, names[j], names[b - 1]);
            }
        } else {
            let x = if a < j {
                a
            } else {
                a - 1
            };
            let y = if b < j {
                b
            } else {
                b - 1
            };
            assert(more[a] == names[x] && more[b] == names[y]);
            assert(name_order()(names[x], names[y]));
        }
    }
}

/// The positions of all entries but the one that holds the checksum, in the
/// order of their names.
fn name_order_of(archive: &Archive) -> (order: Vec<usize>)
    ensures
        archive.wf(),
        forall|k: int| 0 <= k < order@.len() ==> (#[trigger] order@[k]) < archive@.len(),
        names_at(order@, archive@) == entry_names(without_name(archive@, marker_name())).sort_by(
            name_order(),
        ),
{
    let ghost e = archive@;
    let ghost m = marker_name();
    let n = archive.len();
    assert(archive.wf());
    let mut names: Vec<Vec<char>> = Vec::new();
    let mut i: usize = 0;
    while i < n
        invariant
            i <= n,
            n == archive@.len(),
            names@.len() == i,
            forall|k: int| 0 <= k < i ==> (#[trigger] names@[k])@ == archive@[k].0,
        decreases n - i,
    {
        names.push(to_chars(archive.entry(i).stored_name.as_str()));
        i += 1;
    }
    let mut order: Vec<usize> = Vec::new();
    let mut i: usize = 0;
    assert(without_name(e.take(0), m) == Seq::<(Seq<char>, bool, Seq<u8>)>::empty());
    assert(names_at(order@, e) == entry_names(without_name(e.take(0), m)));
    while i < n
        invariant
            i <= n,
            n == archive@.len(),
            e == archive@,
            m == marker_name(),
            names@.len() == n,
            forall|k: int| 0 <= k < n ==> (#[trigger] names@[k])@ == e[k].0,
            forall|k: int| 0 <= k < order@.len() ==> (#[trigger] order@[k]) < n,
            sorted_by(names_at(order@, e), name_order()),
            names_at(order@, e).to_multiset() == entry_names(
                without_name(e.take(i as int), m),
            ).to_multiset(),
        decreases n - i,
    {
        proof {
            assert(e.take(i + 1) == e.take(i as int).push(e[i as int]));
            lemma_without_name_push(e.take(i as int), e[i as int], m);
        }
        if !str_eq(archive.entry(i).stored_name.as_str(), checksum_entry_name()) {
            let mut j: usize = 0;
            while j < order.len() && name_le(&names[order[j]], &names[i])
                invariant
                    j <= order@.len(),
                    i < n,
                    names@.len() == n,
                    forall|k: int| 0 <= k < n ==> (#[trigger] names@[k])@ == e[k].0,
                    forall|k: int| 0 <= k < order@.len() ==> (#[trigger] order@[k]) < n,
                    forall|k: int|
                        0 <= k < j ==> name_leq(#[trigger] names_at(order@, e)[k], e[i as int].0),
                decreases order@.len() - j,
            {
                j += 1;
            }
            let ghost before = names_at(order@, e);
            let ghost kept = without_name(e.take(i as int), m);
            order.insert(j, i);
            proof {
                assert(names_at(order@, e) == before.insert(j as int, e[i as int].0));
                lemma_insert_sorted(before, j as int, e[i as int].0);
                to_multiset_insert(before, j as int, e[i as int].0);
                assert(entry_names(kept.push(e[i as int])) == entry_names(kept).push(
                    e[i as int].0,
                ));
                to_multiset_build(entry_names(kept), e[i as int].0);
            }
        }
        i += 1;
    }
    proof {
        assert(e.take(n as int) == e);
        let all = entry_names(without_name(e, m));
        lemma_name_order_total();
        all.lemma_sort_by_ensures(name_order());
        lemma_sorted_unique(names_at(order@, e), all.sort_by(name_order()), name_order());
    }
    order
}

/// The checksum of the archive, as it is stored.
pub fn compute_checksum(archive: &Archive) -> (digest: Vec<u8>)
    ensures
        digest@ == checksum_of(archive@),
{
    let order = name_order_of(archive);
    let ghost kept = without_name(archive@, marker_name());
    let ghost names = names_at(order@, archive@);
    let mut h: u64 = DIGEST_START;
    let mut k: usize = 0;
    while k < order.len()
        invariant
            k <= order@.len(),
            archive.wf(),
            kept == without_name(archive@, marker_name()),
            names == names_at(order@, archive@),
            names == entry_names(kept).sort_by(name_order()),
            forall|j: int| 0 <= j < order@.len() ==> (#[trigger] order@[j]) < archive@.len(),
            h == digest_named(DIGEST_START, names.take(k as int), kept),
        decreases order@.len() - k,
    {
        let entry = archive.entry(order[k]);
        proof {
            let at = order@[k as int] as int;
            assert(names.take(k + 1).drop_last() == names.take(k as int));
            assert(names.take(k + 1).last() == archive@[at].0);
            lemma_sorted_names_kept(archive@, names, k as int);
            lemma_without_name_keeps(archive@, marker_name(), at);
            lemma_without_name_wf(archive@, marker_name());
            let w = choose|w: int| 0 <= w < kept.len() && kept[w] == archive@[at];
            lemma_unique_entry(kept, w);
        }
        h = feed(h, entry.stored_name.as_str().as_bytes());
        h = feed(h, entry.content.as_slice());
        k += 1;
    }
    assert(names.take(names.len() as int) == names);
    u64_to_le_bytes(h)
}

/// A name among the sorted names of the entries that are kept is not the
/// reserved name.
proof fn lemma_sorted_names_kept(
    entries: Seq<(Seq<char>, bool, Seq<u8>)>,
    names: Seq<Seq<char>>,
    k: int,
)
    requires
        names == entry_names(without_name(entries, marker_name())).sort_by(name_order()),
        0 <= k < names.len(),
    ensures
        names[k] != marker_name(),
{
    let kept = without_name(entries, marker_name());
    let all = entry_names(kept);
    lemma_name_order_total();
    all.lemma_sort_by_ensures(name_order());
    lemma_without_name_wf(entries, marker_name());
    assert(names.contains(names[k]));
    if !all.contains(names[k]) {
        assert(!names.contains(names[k]));
    }
    let i = choose|i: int| 0 <= i < all.len() && all[i] == names[k];
    if names[k] == marker_name() {
        assert(kept[i].0 == marker_name());
        assert(has_entry(kept, marker_name()));
    }
}

/// Whether the archive holds a checksum.
pub fn has_checksum(archive: &Archive) -> (r: bool)
    ensures
        r == has_entry(archive@, marker_name()),
{
    archive.contains(checksum_entry_name())
}

/// The archive with its checksum added. An archive that holds a checksum
/// already is refused, unless `remove_existing` asks for the checksum to be
/// replaced.
pub fn add_checksum(archive: &Archive, remove_existing: bool) -> (r: Result<Archive, APMError>)
    ensures
        match r {
            Ok(sealed) => (remove_existing || !has_entry(archive@, marker_name())) && sealed@
                == with_checksum(archive@) && sealed.wf(),
            Err(e) => !remove_existing && has_entry(archive@, marker_name()) && e.err_type
                == APMErrorType::ChecksumMarkerExistsError,
        },
{
    if !remove_existing && has_checksum(archive) {
        return Err(
            APMErrorType::ChecksumMarkerExistsError.into_apm_error(
                "The archive holds a checksum already".to_owned(),
            ),
        );
    }
    let digest = compute_checksum(archive);
    let mut sealed = archive.duplicate();
    sealed.remove(checksum_entry_name());
    proof {
        lemma_without_name_wf(archive@, marker_name());
    }
    match sealed.add_file(checksum_entry_name(), digest) {
        Ok(_) => Ok(sealed),
        Err(e) => Err(e),
    }
}

/// The archive without its checksum. An archive that holds none is refused.
pub fn remove_checksum(archive: &Archive) -> (r: Result<Archive, APMError>)
    ensures
        match r {
            Ok(bare) => has_entry(archive@, marker_name()) && bare@ == without_name(
                archive@,
                marker_name(),
            ) && bare.wf(),
            Err(e) => !has_entry(archive@, marker_name()) && e.err_type
                == APMErrorType::ChecksumMarkerNotFoundError,
        },
{
    let mut bare = archive.duplicate();
    if bare.remove(checksum_entry_name()) {
        Ok(bare)
    } else {
        Err(
            APMErrorType::ChecksumMarkerNotFoundError.into_apm_error(
                "The archive holds no checksum".to_owned(),
            ),
        )
    }
}

/// Whether the archive holds a checksum and it is the checksum of the
/// archive.
pub fn verify_checksum(archive: &Archive) -> (r: bool)
    ensures
        r == checksum_holds(archive@),
{
    match archive.find(checksum_entry_name()) {
        None => false,
        Some(i) => {
            proof {
                lemma_first_position(archive@, marker_name(), i as int);
            }
            let digest = compute_checksum(archive);
            bytes_eq(archive.entry(i).content.as_slice(), digest.as_slice())
        },
    }
}

/// The checksum of an archive does not depend on a checksum that it holds:
/// the archive with its checksum added has the checksum of the archive.
pub proof fn lemma_checksum_ignores_marker(entries: Seq<(Seq<char>, bool, Seq<u8>)>)
    ensures
        without_name(with_checksum(entries), marker_name()) == without_name(
            entries,
            marker_name(),
        ),
        checksum_of(with_checksum(entries)) == checksum_of(entries),
        !has_entry(entries, marker_name()) ==> with_checksum(entries) == entries.push(
            (marker_name(), false, checksum_of(entries)),
        ),
{
    let kept = without_name(entries, marker_name());
    lemma_without_name_wf(entries, marker_name());
    lemma_without_name_push(kept, (marker_name(), false, checksum_of(entries)), marker_name());
    lemma_without_name_wf(kept, marker_name());
}

/// After a checksum was added, the checksum holds: on an archive without a
/// checksum, and on one whose checksum is replaced.
pub proof fn lemma_added_checksum_holds(entries: Seq<(Seq<char>, bool, Seq<u8>)>)
    ensures
        checksum_holds(with_checksum(entries)),
{
    let kept = without_name(entries, marker_name());
    let sealed = with_checksum(entries);
    lemma_checksum_ignores_marker(entries);
    lemma_without_name_wf(entries, marker_name());
    assert(sealed[kept.len() as int] == (marker_name(), false, checksum_of(entries)));
    assert forall|j: int| 0 <= j < kept.len() implies (#[trigger] sealed[j]).0
        != marker_name() by {
        assert(sealed[j] == kept[j]);
    }
    assert(is_first_at(sealed, marker_name(), kept.len() as int));
    lemma_first_position(sealed, marker_name(), kept.len() as int);
}

/// After the checksum of an archive was removed, the archive holds none,
/// and a checksum that is added then holds.
pub proof fn lemma_removed_then_added(entries: Seq<(Seq<char>, bool, Seq<u8>)>)
    requires
        has_entry(entries, marker_name()),
    ensures
        !has_entry(without_name(entries, marker_name()), marker_name()),
        checksum_holds(with_checksum(without_name(entries, marker_name()))),
{
    lemma_without_name_wf(entries, marker_name());
    lemma_added_checksum_holds(without_name(entries, marker_name()));
}

/// Two archives hold the same entries, in whatever order.
pub open spec fn same_entries(a: Seq<(Seq<char>, bool, Seq<u8>)>, b: Seq<(Seq<char>, bool, Seq<u8>)>) -> bool {
    forall|x: (Seq<char>, bool, Seq<u8>)| a.contains(x) <==> b.contains(x)
}

proof fn lemma_without_name_from(entries: Seq<(Seq<char>, bool, Seq<u8>)>, name: Seq<char>, k: int)
    requires
        0 <= k < without_name(entries, name).len(),
    ensures
        entries.contains(without_name(entries, name)[k]),
        without_name(entries, name)[k].0 != name,
    decreases entries.len(),
{
    let kept = without_name(entries, name);
    let front = entries.drop_last();
    if entries.len() > 0 {
        if entries.last().0 != name && k == kept.len() - 1 {
            assert(entries[entries.len() - 1] == kept[k]);
        } else {
            lemma_without_name_from(front, name, k);
            let i = choose|i: int| 0 <= i < front.len() && front[i] == without_name(front, name)[k];
            assert(entries[i] == kept[k]);
        }
    }
}

proof fn lemma_digest_named_same(
    state: u64,
    names: Seq<Seq<char>>,
    a: Seq<(Seq<char>, bool, Seq<u8>)>,
    b: Seq<(Seq<char>, bool, Seq<u8>)>,
)
    requires
        forall|k: int|
            0 <= k < names.len() ==> content_of(a, #[trigger] names[k]) == content_of(
                b,
                names[k],
            ),
    ensures
        digest_named(state, names, a) == digest_named(state, names, b),
    decreases names.len(),
{
    if names.len() > 0 {
        assert forall|k: int| 0 <= k < names.drop_last().len() implies content_of(
            a,
            #[trigger] names.drop_last()[k],
        ) == content_of(b, names.drop_last()[k]) by {
            assert(names.drop_last()[k] == names[k]);
        }
        lemma_digest_named_same(state, names.drop_last(), a, b);
        assert(names.last() == names[names.len() - 1]);
    }
}

/// The checksum does not depend on the order of the entries: two archives
/// that hold the same entries have the same checksum.
pub proof fn lemma_checksum_order_independent(
    a: Seq<(Seq<char>, bool, Seq<u8>)>,
    b: Seq<(Seq<char>, bool, Seq<u8>)>,
)
    requires
        archive_wf(a),
        archive_wf(b),
        same_entries(a, b),
    ensures
        checksum_of(a) == checksum_of(b),
{
    broadcast use vstd::seq_lib::group_to_multiset_ensures;

    let m = marker_name();
    let wa = without_name(a, m);
    let wb = without_name(b, m);
    lemma_without_name_wf(a, m);
    lemma_without_name_wf(b, m);
    assert forall|x: (Seq<char>, bool, Seq<u8>)| wa.contains(x) implies wb.contains(x) by {
        let k = choose|k: int| 0 <= k < wa.len() && wa[k] == x;
        lemma_without_name_from(a, m, k);
        let j = choose|j: int| 0 <= j < b.len() && b[j] == x;
        lemma_without_name_keeps(b, m, j);
    }
    assert forall|x: (Seq<char>, bool, Seq<u8>)| wb.contains(x) implies wa.contains(x) by {
        let k = choose|k: int| 0 <= k < wb.len() && wb[k] == x;
        lemma_without_name_from(b, m, k);
        let j = choose|j: int| 0 <= j < a.len() && a[j] == x;
        lemma_without_name_keeps(a, m, j);
    }
    let na = entry_names(wa);
    let nb = entry_names(wb);
    assert(na.no_duplicates()) by {
        assert forall|i: int, j: int| 0 <= i < na.len() && 0 <= j < na.len() && i != j implies na[i]
            != na[j] by {
            if i < j {
                assert(wa[i].0 != wa[j].0);
            } else {
                assert(wa[j].0 != wa[i].0);
            }
        }
    }
    assert(nb.no_duplicates()) by {
        assert forall|i: int, j: int| 0 <= i < nb.len() && 0 <= j < nb.len() && i != j implies nb[i]
            != nb[j] by {
            if i < j {
                assert(wb[i].0 != wb[j].0);
            } else {
                assert(wb[j].0 != wb[i].0);
            }
        }
    }
    assert forall|n: Seq<char>| na.contains(n) <==> nb.contains(n) by {
        if na.contains(n) {
            let i = choose|i: int| 0 <= i < na.len() && na[i] == n;
            assert(wa.contains(wa[i]));
            let j = choose|j: int| 0 <= j < wb.len() && wb[j] == wa[i];
            assert(nb[j] == n);
        }
        if nb.contains(n) {
            let i = choose|i: int| 0 <= i < nb.len() && nb[i] == n;
            assert(wb.contains(wb[i]));
            let j = choose|j: int| 0 <= j < wa.len() && wa[j] == wb[i];
            assert(na[j] == n);
        }
    }
    na.lemma_multiset_has_no_duplicates();
    nb.lemma_multiset_has_no_duplicates();
    assert(na.to_multiset() =~= nb.to_multiset()) by {
        assert forall|n: Seq<char>| na.to_multiset().count(n) == nb.to_multiset().count(n) by {
            assert(na.contains(n) <==> nb.contains(n));
            assert(na.contains(n) <==> na.to_multiset().count(n) > 0);
            assert(nb.contains(n) <==> nb.to_multiset().count(n) > 0);
        }
    }
    lemma_name_order_total();
    na.lemma_sort_by_ensures(name_order());
    nb.lemma_sort_by_ensures(name_order());
    let sa = na.sort_by(name_order());
    let sb = nb.sort_by(name_order());
    lemma_sorted_unique(sa, sb, name_order());
    assert(sa == sb);
    assert forall|k: int| 0 <= k < sa.len() implies content_of(wa, #[trigger] sa[k]) == content_of(
        wb,
        sa[k],
    ) by {
        assert(sa.contains(sa[k]));
        assert(na.contains(sa[k]));
        let i = choose|i: int| 0 <= i < na.len() && na[i] == sa[k];
        assert(wa.contains(wa[i]));
        let j = choose|j: int| 0 <= j < wb.len() && wb[j] == wa[i];
        lemma_unique_entry(wa, i);
        lemma_unique_entry(wb, j);
    }
    lemma_digest_named_same(DIGEST_START, sa, wa, wb);
}

} // verus!
