//! The result of an extraction: records under distinct keys, in the order in
//! which the keys were first seen, and its merging into one contig.

use vstd::prelude::*;
use vstd::slice::slice_to_vec;
use crate::bytes::append_bytes;
use crate::bytes::same_bytes;
use crate::record::Record;
use crate::record::RecordView;

verus! {

/// The symbol that fills the gaps of a merged contig: `N`.
pub const FILLER: u8 = 78;

/// Whether no two records have the same name.
pub open spec fn distinct_names(records: Seq<RecordView>) -> bool {
    forall|i: int, j: int|
        0 <= i < j < records.len() ==> (#[trigger] records[i]).name != (#[trigger] records[j]).name
}

/// Whether the record at `i` is named `key`.
pub open spec fn keyed_at(records: Seq<RecordView>, key: Seq<u8>, i: int) -> bool {
    0 <= i < records.len() && records[i].name == key
}

/// Whether a record is named `key`.
pub open spec fn has_key(records: Seq<RecordView>, key: Seq<u8>) -> bool {
    exists|i: int| keyed_at(records, key, i)
}

/// The records after `bases` were added under `key`. Under a key that is
/// already there the bases go behind those that the record holds; a new key
/// makes a new record behind all others.
pub open spec fn accumulated(records: Seq<RecordView>, key: Seq<u8>, bases: Seq<u8>) -> Seq<
    RecordView,
> {
    if has_key(records, key) {
        let i = choose|i: int| keyed_at(records, key, i);
        records.update(i, RecordView { sequence: records[i].sequence + bases, ..records[i] })
    } else {
        records.push(RecordView { name: key, description: None, sequence: bases })
    }
}

/// A run of `gap` filler symbols.
pub open spec fn filler(gap: nat) -> Seq<u8> {
    Seq::new(gap, |i: int| FILLER)
}

/// The sequences of the records joined in order, with `gap` filler symbols
/// between each two neighbours and none before the first or behind the last.
pub open spec fn merged(records: Seq<RecordView>, gap: nat) -> Seq<u8>
    decreases records.len(),
{
    if records.len() == 0 {
        Seq::empty()
    } else if records.len() == 1 {
        records[0].sequence
    } else {
        merged(records.drop_last(), gap) + filler(gap) + records.last().sequence
    }
}

/// The number of bases that the records hold together.
pub open spec fn total_bases(records: Seq<RecordView>) -> nat
    decreases records.len(),
{
    if records.len() == 0 {
        0
    } else {
        total_bases(records.drop_last()) + records.last().sequence.len()
    }
}

/// Where the sequence of the record at `i` begins in the merged contig:
/// behind the records before it and one gap for each of them.
pub open spec fn merged_offset(records: Seq<RecordView>, gap: nat, i: int) -> int {
    total_bases(records.take(i)) + gap * i
}

/// The one record that merging makes: it has the given name, no description,
/// and the merged sequence.
pub open spec fn merged_record(records: Seq<RecordView>, gap: nat, name: Seq<u8>) -> RecordView {
    RecordView { name, description: None, sequence: merged(records, gap) }
}

/// A merged contig holds the bases of its records and `gap` filler symbols
/// for each record after the first: with `n >= 1` records that is
/// `gap * (n - 1)` filler symbols, and none where there is no record.
pub proof fn lemma_merged_length(records: Seq<RecordView>, gap: nat)
    ensures
        records.len() == 0 ==> merged(records, gap).len() == 0,
        records.len() >= 1 ==> merged(records, gap).len() == total_bases(records) + gap * (
        records.len() - 1),
    decreases records.len(),
{
    if records.len() == 0 {
    } else if records.len() == 1 {
        assert(records.drop_last().len() == 0);
        assert(total_bases(records.drop_last()) == 0);
        assert(records.last() == records[0]);
        assert(gap * 0 == 0);
    } else {
        let before = records.drop_last();
        lemma_merged_length(before, gap);
        let n = records.len() as int;
        assert(before.len() == n - 1);
        assert(gap * (n - 2) + gap == gap * (n - 1)) by (nonlinear_arith);
        assert(merged(records, gap).len() == merged(before, gap).len() + gap
            + records.last().sequence.len());
    }
}

/// A merged contig begins with the sequence of its first record and ends
/// with that of its last: no filler stands before the first or behind the
/// last.
pub proof fn lemma_merged_ends(records: Seq<RecordView>, gap: nat)
    requires
        records.len() >= 1,
    ensures
        merged(records, gap).len() >= records.first().sequence.len(),
        merged(records, gap).len() >= records.last().sequence.len(),
        merged(records, gap).take(records.first().sequence.len() as int)
            == records.first().sequence,
        merged(records, gap).skip(
            merged(records, gap).len() - records.last().sequence.len(),
        ) == records.last().sequence,
    decreases records.len(),
{
    let whole = merged(records, gap);
    let first = records.first().sequence;
    let last = records.last().sequence;
    if records.len() == 1 {
        assert(whole.take(first.len() as int) =~= first);
        assert(whole.skip(0) =~= last);
    } else {
        let before = records.drop_last();
        lemma_merged_ends(before, gap);
        assert(before.first() == records.first());
        assert(whole.take(first.len() as int) =~= merged(before, gap).take(first.len() as int));
        assert(whole.skip(whole.len() - last.len()) =~= last);
    }
}

/// The layout of a merged contig: the sequence of each record stands at its
/// offset, and the `gap` symbols before each record but the first are
/// filler.
pub proof fn lemma_merged_layout(records: Seq<RecordView>, gap: nat, i: int)
    requires
        0 <= i < records.len(),
    ensures
        merged_offset(records, gap, i) + records[i].sequence.len() <= merged(records, gap).len(),
        merged_offset(records, gap, i) >= 0,
        merged(records, gap).subrange(
            merged_offset(records, gap, i),
            merged_offset(records, gap, i) + records[i].sequence.len(),
        ) == records[i].sequence,
        i >= 1 ==> merged_offset(records, gap, i) >= gap && merged(records, gap).subrange(
            merged_offset(records, gap, i) - gap,
            merged_offset(records, gap, i),
        ) == filler(gap),
    decreases records.len(),
{
    let whole = merged(records, gap);
    let offset = merged_offset(records, gap, i);
    let bases = records[i].sequence;
    let before = records.drop_last();
    lemma_merged_length(records, gap);
    if records.len() == 1 {
        assert(records.take(0).len() == 0);
        assert(whole.subrange(0, bases.len() as int) =~= bases);
    } else if i == records.len() - 1 {
        lemma_merged_length(before, gap);
        assert(records.take(i) =~= before);
        assert(gap * (before.len() - 1) + gap == gap * i) by (nonlinear_arith)
            requires
                before.len() == i,
        ;
        assert(whole.subrange(offset, offset + bases.len()) =~= bases);
        assert(whole.subrange(offset - gap, offset) =~= filler(gap));
    } else {
        lemma_merged_layout(before, gap, i);
        lemma_merged_length(before, gap);
        assert(records.take(i) =~= before.take(i));
        assert(before[i] == records[i]);
        let inner = merged(before, gap);
        assert(whole.subrange(offset, offset + bases.len()) =~= inner.subrange(
            offset,
            offset + bases.len(),
        ));
        if i >= 1 {
            assert(whole.subrange(offset - gap, offset) =~= inner.subrange(
                offset - gap,
                offset,
            ));
        }
    }
}

/// Adding bases under a key keeps the names distinct, keeps the records that
/// were there in their places, and leaves a record under the key.
pub proof fn lemma_accumulated(records: Seq<RecordView>, key: Seq<u8>, bases: Seq<u8>)
    requires
        distinct_names(records),
    ensures
        distinct_names(accumulated(records, key, bases)),
        has_key(accumulated(records, key, bases), key),
        accumulated(records, key, bases).len() >= records.len(),
        forall|i: int|
            0 <= i < records.len() ==> (#[trigger] accumulated(records, key, bases)[i]).name
                == records[i].name,
{
    let after = accumulated(records, key, bases);
    if has_key(records, key) {
        let i = choose|i: int| keyed_at(records, key, i);
        assert(keyed_at(after, key, i));
        assert forall|a: int, b: int| 0 <= a < b < after.len() implies (#[trigger] after[a]).name != (
        #[trigger] after[b]).name by {
            assert(after[a].name == records[a].name);
            assert(after[b].name == records[b].name);
        }
    } else {
        assert(keyed_at(after, key, records.len() as int));
        assert forall|a: int, b: int| 0 <= a < b < after.len() implies (#[trigger] after[a]).name != (
        #[trigger] after[b]).name by {
            if b == records.len() {
                assert(!keyed_at(records, key, a));
            } else {
                assert(after[a].name == records[a].name);
                assert(after[b].name == records[b].name);
            }
        }
    }
}

/// Records under distinct keys, in the order in which the keys came.
pub struct Extraction {
    records: Vec<Record>,
}

impl View for Extraction {
    type V = Seq<RecordView>;

    closed spec fn view(&self) -> Seq<RecordView> {
        self.records.deep_view()
    }
}

impl Extraction {
    #[verifier::type_invariant]
    spec fn well_formed(self) -> bool {
        distinct_names(self.records.deep_view())
    }

    /// An extraction without records.
    pub fn new() -> (r: Extraction)
        ensures
            r@ == Seq::<RecordView>::empty(),
    {
        Extraction { records: Vec::new() }
    }

    /// The records, in the order in which their keys were first seen. No two
    /// have the same name.
    pub fn records(&self) -> (records: &Vec<Record>)
        ensures
            records.deep_view() == self@,
            distinct_names(self@),
    {
        proof {
            use_type_invariant(self);
        }
        &self.records
    }

    /// The place of the record named `key`.
    pub fn find(&self, key: &[u8]) -> (r: Option<usize>)
        ensures
            match r {
                Some(i) => keyed_at(self@, key@, i as int),
                None => !has_key(self@, key@),
            },
    {
        let mut i: usize = 0;
        while i < self.records.len()
            invariant
                i <= self.records.len(),
                forall|j: int| 0 <= j < i ==> !keyed_at(self@, key@, j),
            decreases self.records.len() - i,
        {
            if same_bytes(self.records[i].name.as_slice(), key) {
                return Some(i);
            }
            i += 1;
        }
        None
    }

    /// Adds `bases` under `key`: behind the bases of the record with that
    /// name, or as a new record behind all others.
    pub fn append(&mut self, key: &[u8], bases: &[u8])
        ensures
            final(self)@ == accumulated(old(self)@, key@, bases@),
    {
        proof {
            use_type_invariant(&*self);
            lemma_accumulated(self@, key@, bases@);
        }
        let found = self.find(key);
        let mut records: Vec<Record> = Vec::new();
        std::mem::swap(&mut self.records, &mut records);
        match found {
            Some(i) => {
                proof {
                    let k = choose|k: int| keyed_at(old(self)@, key@, k);
                    if k != i {
                        assert(old(self)@[k].name != old(self)@[i as int].name);
                    }
                }
                let record: &mut Record = &mut records[i];
                append_bytes(&mut record.sequence, bases);
            },
            None => {
                records.push(
                    Record {
                        name: slice_to_vec(key),
                        description: None,
                        sequence: slice_to_vec(bases),
                    },
                );
            },
        }
        assert(records.deep_view() =~= accumulated(old(self)@, key@, bases@));
        std::mem::swap(&mut self.records, &mut records);
    }

    /// The sequences of the records joined in order, with `gap` filler
    /// symbols between each two neighbours.
    pub fn merged(&self, gap: usize) -> (bases: Vec<u8>)
        ensures
            bases@ == merged(self@, gap as nat),
    {
        let mut bases: Vec<u8> = Vec::new();
        let mut i: usize = 0;
        while i < self.records.len()
            invariant
                i <= self.records.len(),
                bases@ == merged(self@.take(i as int), gap as nat),
            decreases self.records.len() - i,
        {
            let ghost before = bases@;
            if i > 0 {
                let mut k: usize = 0;
                while k < gap
                    invariant
                        k <= gap,
                        bases@ == before + filler(k as nat),
                    decreases gap - k,
                {
                    bases.push(FILLER);
                    assert(bases@ =~= before + filler((k + 1) as nat));
                    k += 1;
                }
            }
            append_bytes(&mut bases, self.records[i].sequence.as_slice());
            proof {
                let part = self@.take(i + 1);
                assert(part.drop_last() =~= self@.take(i as int));
                assert(part.last() == self.records[i as int]@);
                if i == 0 {
                    assert(part[0] == part.last());
                    assert(bases@ =~= part[0].sequence);
                }
            }
            i += 1;
        }
        assert(self@.take(self.records.len() as int) =~= self@);
        bases
    }
}

} // verus!
