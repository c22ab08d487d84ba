//! The index of a sequence collection: one entry per record, which says where
//! the record's bases lie and how its lines are wrapped.

use vstd::prelude::*;
use vstd::arithmetic::div_mod::lemma_div_is_ordered;
use vstd::arithmetic::div_mod::lemma_fundamental_div_mod;
use vstd::arithmetic::div_mod::lemma_fundamental_div_mod_converse;
use vstd::arithmetic::div_mod::lemma_mod_bound;
use crate::bytes::append_bytes;
use crate::bytes::decimal;
use crate::error::Error;
use crate::error::FormatError;

verus! {

/// Where one record's bases lie in the collection.
#[derive(Clone, Debug)]
pub struct IndexEntry {
    /// The record's name.
    pub name: Vec<u8>,
    /// The number of bases of the record.
    pub length: u64,
    /// The position in the collection of the record's first base.
    pub offset: u64,
    /// The number of bases on each full line.
    pub line_bases: u64,
    /// The number of bytes of each full line, its terminator included.
    pub line_width: u64,
}

/// An index entry as plain values.
pub struct EntryView {
    pub name: Seq<u8>,
    pub length: nat,
    pub offset: nat,
    pub line_bases: nat,
    pub line_width: nat,
}

impl View for IndexEntry {
    type V = EntryView;

    open spec fn view(&self) -> EntryView {
        EntryView {
            name: self.name@,
            length: self.length as nat,
            offset: self.offset as nat,
            line_bases: self.line_bases as nat,
            line_width: self.line_width as nat,
        }
    }
}

impl DeepView for IndexEntry {
    type V = EntryView;

    open spec fn deep_view(&self) -> EntryView {
        self@
    }
}

impl EntryView {
    /// The position in the collection of the base at `coordinate`, counted
    /// from 1: the record's offset, one line width for each full line before
    /// the base, and the base's place on its own line.
    pub open spec fn byte_position(self, coordinate: nat) -> nat {
        let before = (coordinate - 1) as nat;
        self.offset + (before / self.line_bases) * self.line_width + before % self.line_bases
    }

    /// The base that the entry places at `coordinate` of its record: the byte
    /// of the collection at the coordinate's position, where there is one.
    pub open spec fn base_at(self, data: Seq<u8>, coordinate: nat) -> Option<u8> {
        if self.line_bases >= 1 && coordinate >= 1 && self.byte_position(coordinate) < data.len() {
            Some(data[self.byte_position(coordinate) as int])
        } else {
            None
        }
    }

    /// Whether the entry can describe a record of a collection of `size`
    /// bytes: lines hold at least one base and are at least as wide as their
    /// bases, the record is not empty, and its last base lies in the
    /// collection.
    pub open spec fn fits(self, size: nat) -> bool {
        &&& self.line_bases >= 1
        &&& self.line_width >= self.line_bases
        &&& self.length >= 1
        &&& self.byte_position(self.length) < size
    }

    /// The entry with its offset moved forward by `by`.
    pub open spec fn shifted(self, by: nat) -> EntryView {
        EntryView { offset: self.offset + by, ..self }
    }
}

/// A number below a line's length lies on the first line, at its own place.
pub proof fn lemma_first_line(k: int, n: int)
    requires
        0 <= k < n,
    ensures
        k / n == 0,
        k % n == k,
{
    assert(k == 0 * n + k);
    lemma_fundamental_div_mod_converse(k, n, 0, k);
}

/// A line further back, a number has the same place on its line.
pub proof fn lemma_line_back(k: int, n: int)
    requires
        1 <= n <= k,
    ensures
        (k - n) / n == k / n - 1,
        (k - n) % n == k % n,
{
    let (q, r) = (k / n, k % n);
    lemma_fundamental_div_mod(k, n);
    lemma_mod_bound(k, n);
    assert(n * q == q * n) by (nonlinear_arith);
    assert((q - 1) * n == q * n - n) by (nonlinear_arith);
    lemma_fundamental_div_mod_converse(k - n, n, q - 1, r);
}

/// The first base of a record lies at the record's offset.
pub proof fn lemma_first_position(entry: EntryView)
    requires
        entry.line_bases >= 1,
    ensures
        entry.byte_position(1) == entry.offset,
{
    lemma_first_line(0, entry.line_bases as int);
    assert(0 * (entry.line_width as int) == 0);
}

/// Along a record, positions in the collection go forward: a later base
/// lies behind an earlier one.
pub proof fn lemma_byte_position_monotonic(entry: EntryView, earlier: nat, later: nat)
    requires
        entry.line_bases >= 1,
        entry.line_width >= entry.line_bases,
        1 <= earlier <= later,
    ensures
        entry.byte_position(earlier) <= entry.byte_position(later),
        earlier < later ==> entry.byte_position(earlier) < entry.byte_position(later),
{
    let a = (earlier - 1) as int;
    let b = (later - 1) as int;
    let n = entry.line_bases as int;
    let w = entry.line_width as int;
    let (qa, ra) = (a / n, a % n);
    let (qb, rb) = (b / n, b % n);
    lemma_fundamental_div_mod(a, n);
    lemma_fundamental_div_mod(b, n);
    lemma_mod_bound(a, n);
    lemma_mod_bound(b, n);
    lemma_div_is_ordered(a, b, n);
    if qa < qb {
        assert((qa + 1) * w <= qb * w) by (nonlinear_arith)
            requires
                qa + 1 <= qb,
                0 <= w,
        ;
        assert((qa + 1) * w == qa * w + w) by (nonlinear_arith);
    }
}

/// From one base to the next the position goes up by one within a line, and
/// by one and the line's terminator from the end of a line to the start of
/// the next.
pub proof fn lemma_next_position(entry: EntryView, coordinate: nat)
    requires
        entry.line_bases >= 1,
        coordinate >= 1,
    ensures
        coordinate % entry.line_bases == 0 ==> entry.byte_position(coordinate + 1)
            == entry.byte_position(coordinate) + entry.line_width - entry.line_bases + 1,
        coordinate % entry.line_bases != 0 ==> entry.byte_position(coordinate + 1)
            == entry.byte_position(coordinate) + 1,
{
    let a = (coordinate - 1) as int;
    let n = entry.line_bases as int;
    let w = entry.line_width as int;
    let (q, r) = (a / n, a % n);
    lemma_fundamental_div_mod(a, n);
    lemma_mod_bound(a, n);
    assert(n * q == q * n) by (nonlinear_arith);
    if r + 1 < n {
        lemma_fundamental_div_mod_converse(a + 1, n, q, r + 1);
    } else {
        assert((q + 1) * n == q * n + n) by (nonlinear_arith);
        lemma_fundamental_div_mod_converse(a + 1, n, q + 1, 0);
        assert((q + 1) * w == q * w + w) by (nonlinear_arith);
    }
}

impl IndexEntry {
    /// The position in the collection of the base at `coordinate`, where it
    /// is defined and fits the machine's integers.
    pub fn byte_position(&self, coordinate: u64) -> (r: Option<u64>)
        ensures
            match r {
                Some(position) => self.line_bases >= 1 && coordinate >= 1 && position
                    == self@.byte_position(coordinate as nat),
                None => self.line_bases == 0 || coordinate == 0 || self@.byte_position(
                    coordinate as nat,
                ) > u64::MAX,
            },
    {
        if self.line_bases == 0 || coordinate == 0 {
            return None;
        }
        let before: u64 = coordinate - 1;
        let full_lines: u64 = before / self.line_bases;
        let on_line: u64 = before % self.line_bases;
        let Some(skipped) = full_lines.checked_mul(self.line_width) else {
            return None;
        };
        let Some(line_start) = self.offset.checked_add(skipped) else {
            return None;
        };
        line_start.checked_add(on_line)
    }

    /// The base that the entry places at `coordinate` of its record.
    pub fn base_at(&self, data: &[u8], coordinate: u64) -> (r: Option<u8>)
        ensures
            r == self@.base_at(data@, coordinate as nat),
    {
        let size: usize = data.len();
        match self.byte_position(coordinate) {
            Some(position) => if position < size as u64 {
                Some(data[position as usize])
            } else {
                None
            },
            None => None,
        }
    }

    /// Whether the entry can describe a record of a collection of `size`
    /// bytes.
    pub fn fits(&self, size: usize) -> (r: bool)
        ensures
            r == self@.fits(size as nat),
    {
        if self.line_bases == 0 || self.line_width < self.line_bases || self.length == 0 {
            return false;
        }
        match self.byte_position(self.length) {
            Some(position) => position < size as u64,
            None => false,
        }
    }
}

/// The line of an index text that stands for one entry: the name, the
/// length, the offset, the bases per line and the bytes per line, separated
/// by tabs and closed by a line feed, the numbers as decimal numerals.
pub open spec fn entry_line(entry: EntryView) -> Seq<u8> {
    entry.name + seq![9u8] + decimal(entry.length) + seq![9u8] + decimal(entry.offset) + seq![9u8]
        + decimal(entry.line_bases) + seq![9u8] + decimal(entry.line_width) + seq![10u8]
}

/// The text of an index: one line per entry, in order.
pub open spec fn index_text(entries: Seq<EntryView>) -> Seq<u8>
    decreases entries.len(),
{
    if entries.len() == 0 {
        Seq::empty()
    } else {
        index_text(entries.drop_last()) + entry_line(entries.last())
    }
}

/// Whether every entry has at least one base and one byte per line, which the
/// index text cannot do without.
pub open spec fn writable(entries: Seq<EntryView>) -> bool {
    forall|i: int| 0 <= i < entries.len() ==> entries[i].line_bases >= 1 && entries[i].line_width >= 1
}

/// Calls `noodles::fasta::fai::io::Writer::write_index` on an index of the
/// one entry, over an empty byte vector, and returns what was written. The
/// contract claims what the writer's source shows: the name, then a tab and
/// the decimal numeral for each of the four numbers, then a line feed.
#[verifier::external_body]
fn render_entry(entry: &IndexEntry) -> (line: Vec<u8>)
    requires
        entry.line_bases >= 1,
        entry.line_width >= 1,
    ensures
        line@ == entry_line(entry@),
{
    let record = noodles::fasta::fai::Record::new(
        entry.name.clone(),
        entry.length,
        entry.offset,
        std::num::NonZero::new(entry.line_bases).unwrap(),
        std::num::NonZero::new(entry.line_width).unwrap(),
    );
    let mut writer = noodles::fasta::fai::io::Writer::new(Vec::new());
    writer.write_index(&noodles::fasta::fai::Index::from(vec![record])).unwrap();
    writer.into_inner()
}

/// Renders an index as text. Entries without bases or bytes per line cannot
/// be written.
pub fn write_index(entries: &Vec<IndexEntry>) -> (r: Result<Vec<u8>, Error>)
    ensures
        match r {
            Ok(text) => writable(entries.deep_view()) && text@ == index_text(entries.deep_view()),
            Err(e) => e == Error::Format(FormatError::Index) && !writable(entries.deep_view()),
        },
{
    let mut text: Vec<u8> = Vec::new();
    let mut i: usize = 0;
    while i < entries.len()
        invariant
            i <= entries.len(),
            writable(entries.deep_view().take(i as int)),
            text@ == index_text(entries.deep_view().take(i as int)),
        decreases entries.len() - i,
    {
        let entry = &entries[i];
        if entry.line_bases == 0 || entry.line_width == 0 {
            assert(entries.deep_view()[i as int] == entry@);
            return Err(Error::Format(FormatError::Index));
        }
        let line = render_entry(entry);
        append_bytes(&mut text, line.as_slice());
        proof {
            let all = entries.deep_view();
            assert(all.take(i + 1).drop_last() =~= all.take(i as int));
            assert(all.take(i + 1).last() == entry@);
            let part = all.take(i + 1);
            assert forall|k: int| 0 <= k < part.len() implies (#[trigger] part[k]).line_bases >= 1
                && part[k].line_width >= 1 by {
                if k < i {
                    assert(part[k] == all.take(i as int)[k]);
                }
            }
        }
        i += 1;
    }
    assert(entries.deep_view().take(entries.len() as int) =~= entries.deep_view());
    Ok(text)
}

/// What `noodles::fasta::fai::io::Reader::read_index` makes of an index
/// text: its entries, or nothing where it rejects the text.
pub uninterp spec fn parsed_index(text: Seq<u8>) -> Option<Seq<EntryView>>;

/// Parsed entries as plain values.
pub open spec fn entries_view(entries: Option<Vec<IndexEntry>>) -> Option<Seq<EntryView>> {
    match entries {
        Some(entries) => Some(entries.deep_view()),
        None => None,
    }
}

/// Calls `noodles::fasta::fai::io::Reader::read_index` on a reader over
/// `text`. The result is named, not described: the entries are whatever that
/// reader found, and nothing comes back where it fails.
#[verifier::external_body]
fn read_index(text: &[u8]) -> (entries: Option<Vec<IndexEntry>>)
    ensures
        entries_view(entries) == parsed_index(text@),
{
    let index = noodles::fasta::fai::io::Reader::new(text).read_index().ok()?;
    Some(
        index.as_ref().iter().map(
            |record| IndexEntry {
                name: record.name().to_vec(),
                length: record.length(),
                offset: record.position(),
                line_bases: record.line_base_count().get(),
                line_width: record.line_width().get(),
            },
        ).collect(),
    )
}

/// Reads an index from its text.
pub fn parse_index(text: &[u8]) -> (r: Result<Vec<IndexEntry>, Error>)
    ensures
        match r {
            Ok(entries) => parsed_index(text@) == Some(entries.deep_view()),
            Err(e) => e == Error::Format(FormatError::Index) && parsed_index(text@) is None,
        },
{
    match read_index(text) {
        Some(entries) => Ok(entries),
        None => Err(Error::Format(FormatError::Index)),
    }
}

} // verus!
