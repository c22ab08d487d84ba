//! Writing a collection and reading it back: how written records lie in
//! their text, and that an index built from the text finds every base of
//! every record.

use vstd::prelude::*;
use crate::error::Error;
use crate::extraction::distinct_names;
use crate::index::lemma_byte_position_monotonic;
use crate::index::lemma_first_line;
use crate::index::lemma_first_position;
use crate::index::lemma_line_back;
use crate::index::lemma_next_position;
use crate::index::EntryView;
use crate::record::header_line;
use crate::record::record_text;
use crate::record::records_text;
use crate::record::wrapped;
use crate::record::RecordView;
use crate::scan::accepted;
use crate::scan::base_marked;
use crate::scan::body_marked;
use crate::scan::index_from;
use crate::scan::index_of;
use crate::scan::is_base_position;
use crate::scan::is_blank;
use crate::scan::marks;
use crate::scan::scanned_record;
use crate::store::built;
use crate::store::fetched;
use crate::store::fetched_whole;
use crate::store::first_named;
use crate::store::lemma_first_named_unique;
use crate::store::lookup;
use crate::store::placed;
use crate::store::StoreView;

verus! {

/// Where the base at `k`, counted from 0, stands in the body lines of a
/// sequence: behind the `k` bases before it and one line feed for each full
/// line before it.
pub open spec fn wrapped_position(line_bases: nat, k: int) -> int {
    (k / line_bases as int) * (line_bases + 1) + k % line_bases as int
}

/// In the body lines of a sequence every base stands at its wrapped
/// position.
pub proof fn lemma_wrapped_base(bases: Seq<u8>, line_bases: nat, k: int)
    requires
        line_bases >= 1,
        0 <= k < bases.len(),
    ensures
        0 <= wrapped_position(line_bases, k) < wrapped(bases, line_bases).len(),
        wrapped(bases, line_bases)[wrapped_position(line_bases, k)] == bases[k],
    decreases bases.len(),
{
    let w = line_bases as int;
    if bases.len() <= line_bases {
        lemma_first_line(k, w);
        assert(0 * (w + 1) == 0);
    } else if k < w {
        lemma_first_line(k, w);
        assert(0 * (w + 1) == 0);
        assert(bases.take(w).push(10u8)[k] == bases[k]);
    } else {
        let rest = bases.skip(w);
        lemma_wrapped_base(rest, line_bases, k - w);
        lemma_line_back(k, w);
        assert((k / w - 1) * (w + 1) + (w + 1) == (k / w) * (w + 1)) by (nonlinear_arith);
        assert(wrapped_position(line_bases, k) == (w + 1) + wrapped_position(line_bases, k - w));
        let first = bases.take(w).push(10u8);
        assert(first.len() == w + 1);
        assert(rest[k - w] == bases[k]);
    }
}

/// In the body lines of a sequence a line feed stands behind the last base
/// of every line: behind every base that fills its line, and behind the last
/// base of all.
pub proof fn lemma_wrapped_line_feed(bases: Seq<u8>, line_bases: nat, k: int)
    requires
        line_bases >= 1,
        0 <= k < bases.len(),
        (k + 1) % (line_bases as int) == 0 || k == bases.len() - 1,
    ensures
        0 <= wrapped_position(line_bases, k) + 1 < wrapped(bases, line_bases).len(),
        wrapped(bases, line_bases)[wrapped_position(line_bases, k) + 1] == 10u8,
        k == bases.len() - 1 ==> wrapped(bases, line_bases).len() == wrapped_position(
            line_bases,
            k,
        ) + 2,
    decreases bases.len(),
{
    let w = line_bases as int;
    if bases.len() <= line_bases {
        lemma_first_line(k, w);
        assert(0 * (w + 1) == 0);
        if k + 1 < w {
            lemma_first_line(k + 1, w);
        }
    } else if k < w {
        lemma_first_line(k, w);
        assert(0 * (w + 1) == 0);
        if k + 1 < w {
            lemma_first_line(k + 1, w);
        }
        assert(bases.take(w).push(10u8)[w] == 10u8);
    } else {
        let rest = bases.skip(w);
        lemma_line_back(k, w);
        lemma_line_back(k + 1, w);
        lemma_wrapped_line_feed(rest, line_bases, k - w);
        assert((k / w - 1) * (w + 1) + (w + 1) == (k / w) * (w + 1)) by (nonlinear_arith);
        assert(wrapped_position(line_bases, k) == (w + 1) + wrapped_position(line_bases, k - w));
        let first = bases.take(w).push(10u8);
        assert(first.len() == w + 1);
    }
}

/// From one base to the next the wrapped position goes up by one within a
/// line, and by two from the end of a line to the start of the next.
pub proof fn lemma_wrapped_next(line_bases: nat, k: int)
    requires
        line_bases >= 1,
        0 <= k,
    ensures
        wrapped_position(line_bases, 0) == 0,
        (k + 1) % (line_bases as int) == 0 ==> wrapped_position(line_bases, k + 1)
            == wrapped_position(line_bases, k) + 2,
        (k + 1) % (line_bases as int) != 0 ==> wrapped_position(line_bases, k + 1)
            == wrapped_position(line_bases, k) + 1,
{
    let written = EntryView {
        name: Seq::empty(),
        length: 0,
        offset: 0,
        line_bases,
        line_width: line_bases + 1,
    };
    lemma_next_position(written, (k + 1) as nat);
    let w = line_bases as int;
    lemma_first_line(0, w);
    assert(0 * (w + 1) == 0);
}

/// The text of at least one record begins with `>`.
pub proof fn lemma_records_text_begins(records: Seq<RecordView>, line_bases: nat)
    requires
        records.len() >= 1,
    ensures
        records_text(records, line_bases).len() >= 1,
        records_text(records, line_bases)[0] == 62u8,
    decreases records.len(),
{
    let last = records.last();
    assert(header_line(last.name, last.description)[0] == 62u8);
    if records.len() > 1 {
        lemma_records_text_begins(records.drop_last(), line_bases);
    } else {
        assert(records_text(records.drop_last(), line_bases).len() == 0);
    }
}

/// The text of records is the text of those before any place, followed by
/// the text of those from that place on.
pub proof fn lemma_records_text_split(records: Seq<RecordView>, line_bases: nat, at: int)
    requires
        0 <= at <= records.len(),
    ensures
        records_text(records, line_bases) == records_text(records.take(at), line_bases)
            + records_text(records.skip(at), line_bases),
    decreases records.len(),
{
    let front = records.take(at);
    let back = records.skip(at);
    if at == records.len() {
        assert(front =~= records);
        assert(records_text(back, line_bases) =~= Seq::<u8>::empty());
        assert(records_text(records, line_bases) =~= records_text(front, line_bases)
            + records_text(back, line_bases));
    } else {
        lemma_records_text_split(records.drop_last(), line_bases, at);
        assert(records.drop_last().take(at) =~= front);
        assert(records.drop_last().skip(at) =~= back.drop_last());
        assert(back.last() == records.last());
        assert(records_text(records, line_bases) =~= records_text(front, line_bases)
            + records_text(back, line_bases));
    }
}

/// Whether a byte can stand in a written sequence and be found again: it
/// is no line feed, no carriage return and no `>`.
pub open spec fn is_plain(byte: u8) -> bool {
    byte != 10u8 && byte != 13u8 && byte != 62u8
}

/// Whether a record can be written and found again: its name is not empty
/// and holds no blank byte, its description holds no line feed, and its
/// sequence is not empty and holds plain bytes only.
pub open spec fn clean(record: RecordView) -> bool {
    &&& record.name.len() >= 1
    &&& forall|k: int| 0 <= k < record.name.len() ==> !is_blank(#[trigger] record.name[k])
    &&& match record.description {
        Some(text) => forall|k: int| 0 <= k < text.len() ==> #[trigger] text[k] != 10u8,
        None => true,
    }
    &&& record.sequence.len() >= 1
    &&& forall|k: int| 0 <= k < record.sequence.len() ==> is_plain(#[trigger] record.sequence[k])
}

/// Whether the bases of a written sequence lie in `text` from `offset` on:
/// each base at its wrapped position, and a line feed behind the last base
/// of every line.
pub open spec fn lies_at(text: Seq<u8>, offset: int, bases: Seq<u8>, line_bases: nat) -> bool {
    &&& forall|k: int|
        0 <= k < bases.len() ==> 0 <= offset + #[trigger] wrapped_position(line_bases, k)
            < text.len() && text[offset + wrapped_position(line_bases, k)] == bases[k]
    &&& forall|k: int|
        0 <= k < bases.len() && ((k + 1) % (line_bases as int) == 0 || k == bases.len() - 1)
            ==> offset + #[trigger] wrapped_position(line_bases, k) + 1 < text.len() && text[offset
            + wrapped_position(line_bases, k) + 1] == 10u8
}

/// How a written record lies in a text that holds it: the header line at
/// the record's start, with the name behind `>` and a blank byte behind the
/// name and the only line feed at the line's end; then the bases; then the
/// text behind the record.
pub proof fn lemma_written_text(
    before: Seq<u8>,
    record: RecordView,
    behind: Seq<u8>,
    line_bases: nat,
)
    requires
        line_bases >= 1,
        clean(record),
    ensures
        ({
            let text = before + record_text(record, line_bases) + behind;
            let from = before.len() as int;
            let header = header_line(record.name, record.description).len() as int;
            let offset = from + header;
            let end = from + record_text(record, line_bases).len();
            &&& header >= record.name.len() + 2
            &&& text[from] == 62u8
            &&& text.subrange(from + 1, from + 1 + record.name.len()) == record.name
            &&& is_blank(text[from + 1 + record.name.len()])
            &&& text[offset - 1] == 10u8
            &&& forall|p: int| from <= p < offset - 1 ==> #[trigger] text[p] != 10u8
            &&& lies_at(text, offset, record.sequence, line_bases)
            &&& end == offset + wrapped_position(line_bases, record.sequence.len() - 1) + 2
            &&& end <= text.len()
            &&& end < text.len() ==> text[end] == behind[0]
            &&& end == text.len() ==> behind.len() == 0
        }),
{
    let text = before + record_text(record, line_bases) + behind;
    let from = before.len() as int;
    let line = header_line(record.name, record.description);
    let header = line.len() as int;
    let offset = from + header;
    let body = wrapped(record.sequence, line_bases);
    let count = record.sequence.len() as int;
    let tail = match record.description {
        Some(d) => seq![32u8] + d,
        None => Seq::<u8>::empty(),
    };
    assert(line =~= seq![62u8] + record.name + tail + seq![10u8]);
    assert forall|p: int| 0 <= p < header implies text[from + p] == line[p] by {}
    assert(text.subrange(from + 1, from + 1 + record.name.len()) =~= record.name) by {
        assert forall|j: int| 0 <= j < record.name.len() implies text[from + 1 + j]
            == record.name[j] by {
            assert(line[1 + j] == record.name[j]);
        }
    }
    assert(is_blank(text[from + 1 + record.name.len()])) by {
        let at = (1 + record.name.len()) as int;
        assert(text[from + at] == line[at]);
        if tail.len() > 0 {
            assert(line[at] == tail[0]);
            assert(tail[0] == 32u8);
        } else {
            assert(line[at] == 10u8);
        }
    }
    assert forall|p: int| from <= p < offset - 1 implies #[trigger] text[p] != 10u8 by {
        let q = p - from;
        assert(text[p] == line[q]);
        if q == 0 {
        } else if q < 1 + record.name.len() {
            assert(line[q] == record.name[q - 1]);
            assert(!is_blank(record.name[q - 1]));
        } else {
            let t = q - 1 - record.name.len();
            assert(line[q] == tail[t]);
            match record.description {
                Some(d) => {
                    if t > 0 {
                        assert(tail[t] == d[t - 1]);
                    }
                },
                None => {},
            }
        }
    }
    assert forall|k: int| 0 <= k < count implies 0 <= offset + #[trigger] wrapped_position(
        line_bases,
        k,
    ) < text.len() && text[offset + wrapped_position(line_bases, k)] == record.sequence[k] by {
        lemma_wrapped_base(record.sequence, line_bases, k);
        assert(text[offset + wrapped_position(line_bases, k)] == body[wrapped_position(
            line_bases,
            k,
        )]);
    }
    assert forall|k: int|
        0 <= k < count && ((k + 1) % (line_bases as int) == 0 || k == count - 1) implies offset
            + #[trigger] wrapped_position(line_bases, k) + 1 < text.len() && text[offset
            + wrapped_position(line_bases, k) + 1] == 10u8 by {
        lemma_wrapped_line_feed(record.sequence, line_bases, k);
        assert(text[offset + wrapped_position(line_bases, k) + 1] == body[wrapped_position(
            line_bases,
            k,
        ) + 1]);
    }
    lemma_wrapped_line_feed(record.sequence, line_bases, count - 1);
    let end = from + record_text(record, line_bases).len();
    if end < text.len() {
        assert(text[end] == behind[0]);
    }
}

/// No base of an entry lies strictly between two bases that follow each
/// other.
pub proof fn lemma_no_base_between(entry: EntryView, coordinate: nat, position: int)
    requires
        entry.line_bases >= 1,
        entry.line_width >= entry.line_bases,
        coordinate >= 1,
        entry.byte_position(coordinate) < position,
        coordinate < entry.length ==> position < entry.byte_position(coordinate + 1),
        coordinate <= entry.length,
    ensures
        !is_base_position(entry, position),
{
    assert forall|c: nat| 1 <= c <= entry.length implies entry.byte_position(c) != position by {
        if c <= coordinate {
            lemma_byte_position_monotonic(entry, c, coordinate);
        } else {
            lemma_byte_position_monotonic(entry, coordinate + 1, c);
        }
    }
}

/// An entry whose body is marked in a text where written bases lie places
/// its bases where they were written, one after the other.
pub proof fn lemma_marked_positions(
    text: Seq<u8>,
    entry: EntryView,
    next: int,
    bases: Seq<u8>,
    line_bases: nat,
    coordinate: nat,
)
    requires
        line_bases >= 1,
        body_marked(text, entry, next),
        lies_at(text, entry.offset as int, bases, line_bases),
        forall|k: int| 0 <= k < bases.len() ==> is_plain(#[trigger] bases[k]),
        1 <= coordinate <= entry.length,
        coordinate <= bases.len(),
    ensures
        entry.byte_position(coordinate) == entry.offset + wrapped_position(
            line_bases,
            coordinate - 1,
        ),
    decreases coordinate,
{
    let w = line_bases as int;
    if coordinate == 1 {
        lemma_wrapped_next(line_bases, 0);
        lemma_first_position(entry);
    } else {
        let earlier = (coordinate - 1) as nat;
        lemma_marked_positions(text, entry, next, bases, line_bases, earlier);
        let previous = entry.byte_position(earlier) as int;
        let here = entry.byte_position(coordinate) as int;
        let written = entry.offset + wrapped_position(line_bases, coordinate - 1);
        lemma_wrapped_next(line_bases, coordinate - 2);
        lemma_byte_position_monotonic(entry, earlier, coordinate);
        lemma_byte_position_monotonic(entry, coordinate, entry.length);
        assert(base_marked(text, entry, coordinate));
        assert(wrapped_position(line_bases, coordinate - 2) == previous - entry.offset);
        if here < written {
            assert(here == previous + 1);
            assert((coordinate - 2 + 1) % w == 0);
            assert(text[entry.offset + wrapped_position(line_bases, coordinate - 2) + 1] == 10u8);
        } else if here > written {
            lemma_no_base_between(entry, earlier, written);
            assert(text[written] == bases[coordinate - 1]);
            assert(is_plain(bases[coordinate - 1]));
            assert(is_base_position(entry, written) || text[written] == 10u8 || text[written]
                == 13u8);
        }
    }
}

/// What a marked record is: an entry that marks a written record in a text
/// has the record's name and length, places every base where it was written,
/// and ends where the record's text ends.
pub proof fn lemma_marks_written(
    before: Seq<u8>,
    record: RecordView,
    behind: Seq<u8>,
    line_bases: nat,
    entry: EntryView,
    next: int,
)
    requires
        line_bases >= 1,
        clean(record),
        behind.len() == 0 || behind[0] == 62u8,
        marks(
            before + record_text(record, line_bases) + behind,
            entry,
            before.len() as int,
            next,
        ),
    ensures
        entry.name == record.name,
        entry.length == record.sequence.len(),
        next == before.len() + record_text(record, line_bases).len(),
        forall|c: nat|
            1 <= c <= record.sequence.len() ==> (#[trigger] entry.base_at(
                before + record_text(record, line_bases) + behind,
                c,
            )) == Some(record.sequence[c - 1]),
{
    let text = before + record_text(record, line_bases) + behind;
    let from = before.len() as int;
    let header = header_line(record.name, record.description).len() as int;
    let offset = from + header;
    let end = from + record_text(record, line_bases).len();
    let bases = record.sequence;
    let count = bases.len();
    let w = line_bases as int;
    lemma_written_text(before, record, behind, line_bases);
    // The name.
    let named = entry.name.len();
    assert(text.subrange(from + 1, from + 1 + named) == entry.name);
    if named > record.name.len() {
        let at = record.name.len() as int;
        assert(entry.name[at] == text.subrange(from + 1, from + 1 + named)[at]);
        assert(is_blank(entry.name[at]));
    } else if named < record.name.len() {
        assert(record.name[named as int] == text.subrange(
            from + 1,
            from + 1 + record.name.len(),
        )[named as int]);
        assert(!is_blank(record.name[named as int]));
    }
    assert(entry.name =~= record.name) by {
        assert(text.subrange(from + 1, from + 1 + named) == record.name);
    }
    // The offset.
    if entry.offset - 1 < offset - 1 {
        assert(text[entry.offset - 1] != 10u8);
    } else if entry.offset - 1 > offset - 1 {
        assert(text[offset - 1] != 10u8);
    }
    assert(entry.offset == offset);
    // The bases.
    let shared = if entry.length <= count {
        entry.length
    } else {
        count
    };
    assert forall|c: nat| 1 <= c <= shared implies entry.byte_position(c) == offset
        + wrapped_position(line_bases, c - 1) by {
        lemma_marked_positions(text, entry, next, bases, line_bases, c);
    }
    let last = entry.byte_position(shared) as int;
    assert(last == offset + wrapped_position(line_bases, shared - 1));
    lemma_wrapped_next(line_bases, shared - 1);
    if entry.length < count {
        // A written base is left over behind the entry's last base.
        let left = offset + wrapped_position(line_bases, shared as int);
        assert(text[left] == bases[shared as int]);
        assert(is_plain(bases[shared as int]));
        if next <= left {
            if next < left {
                assert(next == last + 1);
                assert(text[last + 1] == 10u8);
            }
            assert(false);
        }
        lemma_no_base_between(entry, shared, left);
        assert(is_base_position(entry, left) || text[left] == 10u8 || text[left] == 13u8);
        assert(false);
    }
    if entry.length > count {
        // The entry has a base behind the last written base.
        let further = entry.byte_position(count + 1) as int;
        lemma_byte_position_monotonic(entry, count, count + 1);
        lemma_byte_position_monotonic(entry, count + 1, entry.length);
        lemma_next_position(entry, count);
        assert(base_marked(text, entry, count + 1));
        assert(text[last + 1] == 10u8);
        assert(end == last + 2);
        assert(further >= end);
        assert(end < text.len());
        assert(text[end] == 62u8);
        if further == end {
            assert(count % entry.line_bases == 0);
            assert(false);
        } else {
            lemma_no_base_between(entry, count, end);
            assert(is_base_position(entry, end) || text[end] == 10u8 || text[end] == 13u8);
            assert(false);
        }
    }
    assert(entry.length == count);
    // The end.
    assert(end == last + 2);
    assert(text[last + 1] == 10u8);
    if next > end {
        assert(text[end] == 62u8);
        lemma_no_base_between(entry, count, end);
        assert(is_base_position(entry, end) || text[end] == 10u8 || text[end] == 13u8);
        assert(false);
    }
    assert(next == end);
    assert forall|c: nat| 1 <= c <= count implies (#[trigger] entry.base_at(text, c)) == Some(
        bases[c - 1],
    ) by {
        assert(entry.byte_position(c) == offset + wrapped_position(line_bases, c - 1));
        assert(text[offset + wrapped_position(line_bases, c - 1)] == bases[c - 1]);
    }
}

/// Whether an entry finds a record in a text: it has the record's name and
/// length, and places every base of the record on the byte that holds it.
pub open spec fn finds(entry: EntryView, text: Seq<u8>, record: RecordView) -> bool {
    &&& entry.name == record.name
    &&& entry.length == record.sequence.len()
    &&& forall|c: nat|
        1 <= c <= record.sequence.len() ==> (#[trigger] entry.base_at(text, c)) == Some(
            record.sequence[c - 1],
        )
}

/// Whether records can be written and found again: each is clean, and no
/// two have the same name.
pub open spec fn writable_records(records: Seq<RecordView>) -> bool {
    &&& distinct_names(records)
    &&& forall|i: int| 0 <= i < records.len() ==> clean(#[trigger] records[i])
}

/// What is read under an entry that finds a record is the record's own:
/// in a store whose index looks the record up as such an entry, a query that
/// succeeds returns the bases of the record between its coordinates, and a
/// query for the whole record returns the record's sequence.
pub proof fn lemma_found_reads_back(
    store: StoreView,
    entry: EntryView,
    record: RecordView,
    start: nat,
    end: nat,
)
    requires
        lookup(store.entries, record.name) == Some(entry),
        finds(entry, store.data, record),
    ensures
        fetched(store, record.name, start, end) is Ok ==> 1 <= start <= end
            <= record.sequence.len() && fetched(store, record.name, start, end) == Ok::<
            Seq<u8>,
            Error,
        >(record.sequence.subrange(start - 1, end as int)),
        fetched_whole(store, record.name) is Ok ==> fetched_whole(store, record.name) == Ok::<
            Seq<u8>,
            Error,
        >(record.sequence),
{
    if fetched(store, record.name, start, end) is Ok {
        let bases = fetched(store, record.name, start, end)->Ok_0;
        let part = record.sequence.subrange(start - 1, end as int);
        assert(placed(bases, store.data, entry, start, end));
        assert forall|k: int| 0 <= k < bases.len() implies bases[k] == part[k] by {
            assert(entry.base_at(store.data, (start + k) as nat) == Some(bases[k]));
        }
        assert(bases =~= part);
    }
    if fetched_whole(store, record.name) is Ok {
        let bases = fetched_whole(store, record.name)->Ok_0;
        assert(placed(bases, store.data, entry, 1, entry.length));
        assert forall|k: int| 0 <= k < bases.len() implies bases[k] == record.sequence[k] by {
            assert(entry.base_at(store.data, (1 + k) as nat) == Some(bases[k]));
        }
        assert(bases =~= record.sequence);
    }
}

/// The index of written records: where the index of the text of clean
/// records from the start of the record at `k` on is built, it holds one
/// entry for each record from `k` on, in order, and each entry finds its
/// record.
pub proof fn lemma_index_of_written(
    records: Seq<RecordView>,
    line_bases: nat,
    k: int,
    rest: Seq<EntryView>,
)
    requires
        line_bases >= 1,
        forall|i: int| 0 <= i < records.len() ==> clean(#[trigger] records[i]),
        0 <= k <= records.len(),
        index_from(
            records_text(records, line_bases),
            records_text(records.take(k), line_bases).len(),
        ) == Ok::<Seq<EntryView>, Error>(rest),
    ensures
        rest.len() == records.len() - k,
        forall|j: int|
            0 <= j < rest.len() ==> finds(
                #[trigger] rest[j],
                records_text(records, line_bases),
                records[k + j],
            ),
    decreases records.len() - k,
{
    let text = records_text(records, line_bases);
    let before = records_text(records.take(k), line_bases);
    let from = before.len();
    lemma_records_text_split(records, line_bases, k);
    let (outcome, unread) = scanned_record(text.skip(from as int));
    if k == records.len() {
        assert(records.take(k) =~= records);
        assert(rest =~= Seq::<EntryView>::empty());
    } else {
        let record = records[k];
        let behind = records_text(records.skip(k + 1), line_bases);
        let upto = records.take(k + 1);
        assert(upto.drop_last() =~= records.take(k));
        assert(upto.last() == record);
        assert(records_text(upto, line_bases) == before + record_text(record, line_bases));
        lemma_records_text_split(records, line_bases, k + 1);
        assert(text =~= before + record_text(record, line_bases) + behind);
        if records.skip(k + 1).len() >= 1 {
            lemma_records_text_begins(records.skip(k + 1), line_bases);
        } else {
            assert(behind.len() == 0);
        }
        assert(header_line(record.name, record.description).len() >= 1);
        assert(from < text.len());
        let scanned = outcome->Ok_0->Some_0;
        assert(outcome == Ok::<Option<EntryView>, ()>(Some(scanned)));
        assert(accepted(text, from, scanned, unread));
        let entry = scanned.shifted(from);
        let next = text.len() - unread;
        lemma_marks_written(before, record, behind, line_bases, entry, next);
        let more = index_from(text, next as nat)->Ok_0;
        assert(rest == seq![entry] + more);
        assert(next == records_text(upto, line_bases).len());
        lemma_index_of_written(records, line_bases, k + 1, more);
        assert forall|j: int| 0 <= j < rest.len() implies finds(
            #[trigger] rest[j],
            text,
            records[k + j],
        ) by {
            if j == 0 {
                assert(rest[0] == entry);
            } else {
                assert(rest[j] == more[j - 1]);
                assert(finds(more[j - 1], text, records[k + 1 + (j - 1)]));
            }
        }
    }
}

/// Writing and reading back: in the store that is built from the text of
/// written records, every query on a record that succeeds returns the bases
/// that were written, byte for byte, and a query for a whole record returns
/// the record's sequence. This holds of records that can be found again:
/// clean ones with distinct names.
pub proof fn lemma_round_trip(
    records: Seq<RecordView>,
    line_bases: nat,
    store: StoreView,
    i: int,
    start: nat,
    end: nat,
)
    requires
        line_bases >= 1,
        writable_records(records),
        built(records_text(records, line_bases)) == Ok::<StoreView, Error>(store),
        0 <= i < records.len(),
    ensures
        fetched_whole(store, records[i].name) is Ok ==> fetched_whole(store, records[i].name)
            == Ok::<Seq<u8>, Error>(records[i].sequence),
        fetched(store, records[i].name, start, end) is Ok ==> 1 <= start <= end
            <= records[i].sequence.len() && fetched(store, records[i].name, start, end) == Ok::<
            Seq<u8>,
            Error,
        >(records[i].sequence.subrange(start - 1, end as int)),
{
    let text = records_text(records, line_bases);
    let entries = store.entries;
    assert(index_of(text) == Ok::<Seq<EntryView>, Error>(entries));
    assert(store.data == text);
    assert(records.take(0) =~= Seq::<RecordView>::empty());
    assert(records_text(records.take(0), line_bases).len() == 0);
    lemma_index_of_written(records, line_bases, 0, entries);
    assert(finds(entries[i], text, records[0 + i]));
    assert(first_named(entries, records[i].name, i)) by {
        assert forall|j: int| 0 <= j < i implies (#[trigger] entries[j]).name
            != records[i].name by {
            assert(finds(entries[j], text, records[0 + j]));
            assert(records[j].name != records[i].name);
        }
    }
    let found = choose|j: int| first_named(entries, records[i].name, j);
    lemma_first_named_unique(entries, records[i].name, i, found);
    lemma_found_reads_back(store, entries[i], records[i], start, end);
}

} // verus!
