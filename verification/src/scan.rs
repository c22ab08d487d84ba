//! Building an index: records are scanned one after the other, and every
//! entry is held against the collection before it is accepted.

use vstd::prelude::*;
use vstd::slice::slice_subrange;
use crate::error::Error;
use crate::error::FormatError;
use crate::index::lemma_byte_position_monotonic;
use crate::index::lemma_first_position;
use crate::index::EntryView;
use crate::index::IndexEntry;

verus! {

/// Whether a byte is blank: a space, a tab, a line feed, a form feed or a
/// carriage return. A record's name ends at the first blank byte.
pub open spec fn is_blank(byte: u8) -> bool {
    byte == 32u8 || byte == 9u8 || byte == 10u8 || byte == 12u8 || byte == 13u8
}

/// Whether the header line of the record that begins at `from` is the one
/// that `entry` tells of: the line begins with `>`, the entry's name follows
/// and ends at a blank byte, and the line ends with the line feed directly
/// before the entry's offset.
pub open spec fn header_marked(data: Seq<u8>, entry: EntryView, from: int) -> bool {
    let name_end = from + 1 + entry.name.len();
    &&& 0 <= from
    &&& name_end < entry.offset <= data.len()
    &&& data[from] == 62u8
    &&& entry.name.len() >= 1
    &&& data.subrange(from + 1, name_end) == entry.name
    &&& forall|k: int| 0 <= k < entry.name.len() ==> !is_blank(#[trigger] entry.name[k])
    &&& is_blank(data[name_end])
    &&& data[entry.offset - 1] == 10u8
    &&& forall|p: int| from <= p < entry.offset - 1 ==> #[trigger] data[p] != 10u8
}

/// Whether the byte at the position of `coordinate` can be a base: it is no
/// line feed, and where it begins a line it is no `>`.
pub open spec fn base_marked(data: Seq<u8>, entry: EntryView, coordinate: nat) -> bool {
    let byte = data[entry.byte_position(coordinate) as int];
    byte != 10u8 && ((coordinate - 1) % (entry.line_bases as int) == 0 ==> byte != 62u8)
}

/// Whether `position` is the position of a base of the record.
pub open spec fn is_base_position(entry: EntryView, position: int) -> bool {
    exists|c: nat| 1 <= c <= entry.length && #[trigger] entry.byte_position(c) == position
}

/// Whether the body of a record is the one that `entry` tells of, up to
/// `next`: the line metrics are sound, every base lies before `next` and can
/// be a base, every byte between the offset and `next` that is not at the
/// position of a base is a line feed or a carriage return, and at `next` the
/// collection ends or another record begins.
pub open spec fn body_marked(data: Seq<u8>, entry: EntryView, next: int) -> bool {
    &&& entry.line_bases >= 1
    &&& entry.line_width >= entry.line_bases
    &&& entry.length >= 1
    &&& entry.offset <= next <= data.len()
    &&& entry.byte_position(entry.length) < next
    &&& forall|c: nat| 1 <= c <= entry.length ==> #[trigger] base_marked(data, entry, c)
    &&& forall|p: int|
        entry.offset <= p < next ==> is_base_position(entry, p) || #[trigger] data[p] == 10u8
            || data[p] == 13u8
    &&& (next == data.len() || data[next] == 62u8)
}

/// Whether `entry` marks the record of `data` that begins at `from` and
/// ends before `next`.
pub open spec fn marks(data: Seq<u8>, entry: EntryView, from: int, next: int) -> bool {
    header_marked(data, entry, from) && body_marked(data, entry, next)
}

/// Whether a byte is blank.
pub fn is_blank_byte(byte: u8) -> (r: bool)
    ensures
        r == is_blank(byte),
{
    byte == 32u8 || byte == 9u8 || byte == 10u8 || byte == 12u8 || byte == 13u8
}

/// Whether the header line of the record that begins at `from` is the one
/// that `entry` tells of.
pub fn header_is_marked(data: &[u8], entry: &IndexEntry, from: usize) -> (r: bool)
    ensures
        r == header_marked(data@, entry@, from as int),
{
    let size: usize = data.len();
    let count: usize = entry.name.len();
    if entry.offset > size as u64 || count == 0 {
        return false;
    }
    let offset: usize = entry.offset as usize;
    if from >= offset || count >= offset - from - 1 {
        return false;
    }
    let name_end: usize = from + 1 + count;
    if data[from] != 62u8 || !is_blank_byte(data[name_end]) || data[offset - 1] != 10u8 {
        return false;
    }
    let mut k: usize = 0;
    while k < count
        invariant
            k <= count,
            count == entry.name.len(),
            name_end == from + 1 + count,
            name_end < data.len(),
            forall|j: int| 0 <= j < k ==> data@[from + 1 + j] == entry.name@[j],
            forall|j: int| 0 <= j < k ==> !is_blank(#[trigger] entry.name@[j]),
        decreases count - k,
    {
        if data[from + 1 + k] != entry.name[k] {
            assert(data@.subrange(from + 1, name_end as int)[k as int] == data@[from + 1 + k]);
            return false;
        }
        if is_blank_byte(entry.name[k]) {
            return false;
        }
        k += 1;
    }
    assert(data@.subrange(from + 1, name_end as int) =~= entry.name@);
    let mut p: usize = from;
    while p < offset - 1
        invariant
            from <= p <= offset - 1,
            offset <= data.len(),
            offset == entry.offset,
            forall|q: int| from <= q < p ==> #[trigger] data@[q] != 10u8,
        decreases offset - p,
    {
        if data[p] == 10u8 {
            return false;
        }
        p += 1;
    }
    true
}

/// Whether the body of a record is the one that `entry` tells of, up to
/// `next`.
pub fn body_is_marked(data: &[u8], entry: &IndexEntry, next: usize) -> (r: bool)
    ensures
        r == body_marked(data@, entry@, next as int),
{
    let size: usize = data.len();
    if entry.line_bases == 0 || entry.line_width < entry.line_bases || entry.length == 0 {
        return false;
    }
    if next > size || entry.offset > next as u64 {
        return false;
    }
    match entry.byte_position(entry.length) {
        Some(last) => if last >= next as u64 {
            return false;
        },
        None => {
            return false;
        },
    }
    if next < size && data[next] != 62u8 {
        return false;
    }
    let length: u64 = entry.length;
    let mut p: usize = entry.offset as usize;
    let mut seen: u64 = 0;
    proof {
        lemma_first_position(entry@);
    }
    while p < next
        invariant
            entry@.offset <= p <= next <= data.len(),
            length == entry.length,
            entry.line_bases >= 1,
            entry.line_width >= entry.line_bases,
            entry@.byte_position(entry@.length) < next,
            seen <= length,
            seen < length ==> entry@.byte_position((seen + 1) as nat) >= p,
            seen >= 1 ==> entry@.byte_position(seen as nat) < p,
            forall|c: nat| 1 <= c <= seen ==> #[trigger] base_marked(data@, entry@, c),
            forall|q: int|
                entry@.offset <= q < p ==> is_base_position(entry@, q) || #[trigger] data@[q]
                    == 10u8 || data@[q] == 13u8,
        decreases next - p,
    {
        let byte: u8 = data[p];
        let at_base = seen < length && entry.byte_position(seen + 1) == Some(p as u64);
        if at_base {
            if byte == 10u8 || (seen % entry.line_bases == 0 && byte == 62u8) {
                assert(!base_marked(data@, entry@, (seen + 1) as nat));
                return false;
            }
            proof {
                assert(base_marked(data@, entry@, (seen + 1) as nat));
                assert(is_base_position(entry@, p as int));
                if seen + 1 < length {
                    lemma_byte_position_monotonic(
                        entry@,
                        (seen + 1) as nat,
                        (seen + 2) as nat,
                    );
                }
            }
            seen += 1;
        } else {
            if byte != 10u8 && byte != 13u8 {
                proof {
                    assert forall|c: nat| 1 <= c <= entry@.length implies entry@.byte_position(c)
                        != p by {
                        if c <= seen {
                            lemma_byte_position_monotonic(entry@, c, seen as nat);
                        } else {
                            lemma_byte_position_monotonic(entry@, (seen + 1) as nat, c);
                        }
                    }
                    assert(!is_base_position(entry@, p as int));
                }
                return false;
            }
        }
        p += 1;
    }
    proof {
        if seen < length {
            lemma_byte_position_monotonic(entry@, (seen + 1) as nat, entry@.length);
        }
        assert(seen == length);
    }
    true
}

/// Whether `entry` marks the record of `data` that begins at `from` and
/// ends before `next`.
pub fn entry_marks(data: &[u8], entry: &IndexEntry, from: usize, next: usize) -> (r: bool)
    ensures
        r == marks(data@, entry@, from as int, next as int),
{
    header_is_marked(data, entry, from) && body_is_marked(data, entry, next)
}

/// What `noodles::fasta::io::Indexer::index_record` makes of the front of
/// `data`, and how many bytes it leaves unread: an entry whose offset counts
/// from the front of `data`, nothing where `data` is used up, or a failure.
pub uninterp spec fn scanned_record(data: Seq<u8>) -> (Result<Option<EntryView>, ()>, nat);

/// A scan's outcome as plain values.
pub open spec fn scan_view(scan: (Result<Option<IndexEntry>, ()>, usize)) -> (
    Result<Option<EntryView>, ()>,
    nat,
) {
    (
        match scan.0 {
            Ok(Some(entry)) => Ok(Some(entry@)),
            Ok(None) => Ok(None),
            Err(e) => Err(e),
        },
        scan.1 as nat,
    )
}

/// Runs `noodles::fasta::io::Indexer::index_record` once on a fresh indexer
/// over `data`, and reports the record it indexed and the number of bytes it
/// left unread. The result is named, not described: the contract claims only
/// that it depends on `data` alone.
#[verifier::external_body]
fn scan_record(data: &[u8]) -> (scan: (Result<Option<IndexEntry>, ()>, usize))
    ensures
        scan_view(scan) == scanned_record(data@),
{
    let mut unread: &[u8] = data;
    let outcome = match noodles::fasta::io::Indexer::new(&mut unread).index_record() {
        Ok(Some(record)) => Ok(Some(IndexEntry {
            name: record.name().to_vec(),
            length: record.length(),
            offset: record.position(),
            line_bases: record.line_base_count().get(),
            line_width: record.line_width().get(),
        })),
        Ok(None) => Ok(None),
        Err(_) => Err(()),
    };
    (outcome, unread.len())
}

/// Whether a scanned entry is accepted for the record that begins at
/// `from`: the scan went forward, the entry's offset fits 64 bits once it
/// counts from the front of `data`, and the entry marks the record up to
/// where the scan ended.
pub open spec fn accepted(data: Seq<u8>, from: nat, entry: EntryView, unread: nat) -> bool {
    &&& unread < data.len() - from
    &&& entry.offset + from <= u64::MAX
    &&& marks(data, entry.shifted(from), from as int, data.len() - unread)
}

/// The index of what `data` holds from `from` on. Records are scanned one
/// after the other, each from where the one before it ended, and each entry's
/// offset counts from the front of `data`. The scan ends well where nothing
/// is left to scan. It fails where the scanner fails, where it finds no
/// record although bytes are left, and where an entry is not accepted.
pub open spec fn index_from(data: Seq<u8>, from: nat) -> Result<Seq<EntryView>, Error>
    decreases data.len() - from,
{
    if from > data.len() {
        Err(Error::Format(FormatError::Collection))
    } else {
        let (outcome, unread) = scanned_record(data.skip(from as int));
        match outcome {
            Err(_) => Err(Error::Format(FormatError::Collection)),
            Ok(None) => if from == data.len() {
                Ok(Seq::empty())
            } else {
                Err(Error::Format(FormatError::Collection))
            },
            Ok(Some(entry)) => if accepted(data, from, entry, unread) {
                match index_from(data, (data.len() - unread) as nat) {
                    Ok(entries) => Ok(seq![entry.shifted(from)] + entries),
                    Err(e) => Err(e),
                }
            } else {
                Err(Error::Format(FormatError::Collection))
            },
        }
    }
}

/// The index of a collection.
pub open spec fn index_of(data: Seq<u8>) -> Result<Seq<EntryView>, Error> {
    index_from(data, 0)
}

/// Whether an entry marks some record of the collection.
pub open spec fn marks_a_record(data: Seq<u8>, entry: EntryView) -> bool {
    exists|from: int, next: int| #[trigger] marks(data, entry, from, next)
}

/// Every entry of a built index marks a record of the collection.
pub proof fn lemma_built_index_marks(data: Seq<u8>, from: nat, entries: Seq<EntryView>)
    requires
        index_from(data, from) == Ok::<Seq<EntryView>, Error>(entries),
    ensures
        forall|i: int| 0 <= i < entries.len() ==> marks_a_record(data, #[trigger] entries[i]),
    decreases data.len() - from,
{
    let (outcome, unread) = scanned_record(data.skip(from as int));
    if entries.len() > 0 {
        let scanned = outcome->Ok_0->Some_0;
        assert(accepted(data, from, scanned, unread));
        let next = (data.len() - unread) as nat;
        let more = index_from(data, next)->Ok_0;
        assert(entries == seq![scanned.shifted(from)] + more);
        lemma_built_index_marks(data, next, more);
        assert forall|i: int| 0 <= i < entries.len() implies marks_a_record(
            data,
            #[trigger] entries[i],
        ) by {
            if i == 0 {
                assert(marks(data, entries[0], from as int, next as int));
            } else {
                assert(entries[i] == more[i - 1]);
            }
        }
    }
}

/// An index with `entries` put before it; a failure stays what it is.
pub open spec fn preceded(entries: Seq<EntryView>, index: Result<Seq<EntryView>, Error>) -> Result<
    Seq<EntryView>,
    Error,
> {
    match index {
        Ok(more) => Ok(entries + more),
        Err(e) => Err(e),
    }
}

/// Scans a collection once and returns one entry per record, in the order of
/// the records. Every entry that is returned marks a record of the
/// collection.
pub fn build_index(data: &[u8]) -> (r: Result<Vec<IndexEntry>, Error>)
    ensures
        match r {
            Ok(entries) => index_of(data@) == Ok::<Seq<EntryView>, Error>(entries.deep_view()),
            Err(e) => index_of(data@) == Err::<Seq<EntryView>, Error>(e),
        },
        r matches Ok(entries) ==> forall|i: int|
            0 <= i < entries.len() ==> marks_a_record(data@, #[trigger] entries.deep_view()[i]),
{
    let mut entries: Vec<IndexEntry> = Vec::new();
    let mut from: usize = 0;
    assert(entries.deep_view() + Seq::<EntryView>::empty() =~= entries.deep_view());
    loop
        invariant
            from <= data.len(),
            index_of(data@) == preceded(entries.deep_view(), index_from(data@, from as nat)),
        decreases data.len() - from,
    {
        let (outcome, unread) = scan_record(slice_subrange(data, from, data.len()));
        assert(data@.subrange(from as int, data.len() as int) =~= data@.skip(from as int));
        match outcome {
            Err(_) => {
                return Err(Error::Format(FormatError::Collection));
            },
            Ok(None) => {
                if from < data.len() {
                    return Err(Error::Format(FormatError::Collection));
                }
                assert(entries.deep_view() + Seq::<EntryView>::empty() =~= entries.deep_view());
                proof {
                    lemma_built_index_marks(data@, 0, entries.deep_view());
                }
                return Ok(entries);
            },
            Ok(Some(entry)) => {
                if unread >= data.len() - from {
                    return Err(Error::Format(FormatError::Collection));
                }
                let Some(offset) = entry.offset.checked_add(from as u64) else {
                    return Err(Error::Format(FormatError::Collection));
                };
                let ghost before = entries.deep_view();
                let ghost scanned = entry@;
                let placed = IndexEntry {
                    name: entry.name,
                    length: entry.length,
                    offset,
                    line_bases: entry.line_bases,
                    line_width: entry.line_width,
                };
                assert(placed@ == scanned.shifted(from as nat));
                if !entry_marks(data, &placed, from, data.len() - unread) {
                    return Err(Error::Format(FormatError::Collection));
                }
                entries.push(placed);
                proof {
                    let next = (data.len() - unread) as nat;
                    assert(entries.deep_view() =~= before.push(scanned.shifted(from as nat)));
                    match index_from(data@, next) {
                        Ok(more) => {
                            assert(before + (seq![scanned.shifted(from as nat)] + more)
                                =~= entries.deep_view() + more);
                        },
                        Err(_) => {},
                    }
                }
                from = data.len() - unread;
            },
        }
    }
}


} // verus!
