//! A whole run: a store, the regions to extract from it, and what has been
//! extracted so far.

use vstd::prelude::*;
use vstd::string::StrSliceExecFns;
use vstd::utf8::encode_utf8;
use crate::complement::reverse_complement;
use crate::complement::reverse_complement_of;
use crate::error::Error;
use crate::extraction::accumulated;
use crate::extraction::merged_record;
use crate::extraction::Extraction;
use crate::record::record_text;
use crate::record::records_text;
use crate::record::write_records;
use crate::record::Record;
use crate::record::RecordView;
use crate::record::DEFAULT_LINE_BASES;
use crate::region::key;
use crate::region::parse_regions;
use crate::region::regions_of_text;
use crate::region::Region;
use crate::region::RegionView;
use crate::store::fetched;
use crate::store::first_named;
use crate::store::fetched_whole;
use crate::store::IndexedStore;
use crate::store::StoreView;

verus! {

/// What one region yields: the bases between its bounds, or all bases of
/// the record where it has no end, reverse-complemented where the region
/// asks for it.
pub open spec fn extract_of(store: StoreView, region: RegionView) -> Result<Seq<u8>, Error> {
    let read = match region.end {
        Some(end) => fetched(store, region.name, region.start, end),
        None => fetched_whole(store, region.name),
    };
    match read {
        Ok(bases) => if region.reverse {
            reverse_complement_of(bases)
        } else {
            Ok(bases)
        },
        Err(e) => Err(e),
    }
}

/// A region that names a record that the index does not hold yields
/// `NotFound`, whatever its coordinates.
pub proof fn lemma_unknown_record_not_found(store: StoreView, region: RegionView)
    requires
        forall|i: int|
            0 <= i < store.entries.len() ==> (#[trigger] store.entries[i]).name != region.name,
    ensures
        extract_of(store, region) == Err::<Seq<u8>, Error>(Error::NotFound),
{
    if exists|i: int| first_named(store.entries, region.name, i) {
        let i = choose|i: int| first_named(store.entries, region.name, i);
        assert(store.entries[i].name == region.name);
    }
}

/// Extracts one region from a store.
pub fn extract_region(store: &IndexedStore, region: &Region) -> (r: Result<Vec<u8>, Error>)
    ensures
        match r {
            Ok(bases) => extract_of(store@, region@) == Ok::<Seq<u8>, Error>(bases@),
            Err(e) => extract_of(store@, region@) == Err::<Seq<u8>, Error>(e),
        },
{
    let read = match region.end {
        Some(end) => store.get(region.name.as_slice(), region.start, end),
        None => store.get_whole(region.name.as_slice()),
    };
    match read {
        Ok(bases) => if region.reverse {
            reverse_complement(bases.as_slice())
        } else {
            Ok(bases)
        },
        Err(e) => Err(e),
    }
}

/// The records after the regions were extracted in order and each extract
/// was added under its region's key, and the failure that ended the
/// extraction, if one did. Regions behind a failure are not looked at.
pub open spec fn extracted(
    records: Seq<RecordView>,
    store: StoreView,
    regions: Seq<RegionView>,
    per_record: bool,
) -> (Seq<RecordView>, Option<Error>)
    decreases regions.len(),
{
    if regions.len() == 0 {
        (records, None)
    } else {
        let (before, failure) = extracted(records, store, regions.drop_last(), per_record);
        match failure {
            Some(_) => (before, failure),
            None => match extract_of(store, regions.last()) {
                Ok(bases) => (accumulated(before, key(regions.last(), per_record), bases), None),
                Err(e) => (before, Some(e)),
            },
        }
    }
}

/// The text that is written for extracted records: one record per key, or
/// one merged record of the given name.
pub open spec fn written(records: Seq<RecordView>, merge: bool, name: Seq<u8>, gap: nat) -> Seq<
    u8,
> {
    if merge {
        record_text(merged_record(records, gap, name), DEFAULT_LINE_BASES as nat)
    } else {
        records_text(records, DEFAULT_LINE_BASES as nat)
    }
}

/// A store, the regions to extract from it, the base name of the regions
/// list, and the records extracted so far.
pub struct Sequences {
    store: IndexedStore,
    regions: Vec<Region>,
    regions_filename: String,
    results: Extraction,
}

/// A run as plain values.
pub struct SequencesView {
    pub store: StoreView,
    pub regions: Seq<RegionView>,
    pub regions_filename: Seq<char>,
    pub results: Seq<RecordView>,
}

impl View for Sequences {
    type V = SequencesView;

    closed spec fn view(&self) -> SequencesView {
        SequencesView {
            store: self.store@,
            regions: self.regions.deep_view(),
            regions_filename: self.regions_filename@,
            results: self.results@,
        }
    }
}

/// How a run stands after an extraction: the store and the regions are what
/// they were, the records are those that `extracted` gives, and the result
/// tells the failure that ended the extraction, if one did.
pub open spec fn extraction_step(
    before: SequencesView,
    after: SequencesView,
    result: Result<(), Error>,
    per_record: bool,
) -> bool {
    let (records, failure) = extracted(before.results, before.store, before.regions, per_record);
    &&& after == SequencesView { results: records, ..before }
    &&& result == match failure {
        Some(e) => Err::<(), Error>(e),
        None => Ok::<(), Error>(()),
    }
}

/// Extraction is a function of its inputs: two extractions from equal runs
/// end in equal runs with equal results, and what is written for them is the
/// same text.
pub proof fn lemma_extraction_deterministic(
    before: SequencesView,
    first: SequencesView,
    first_result: Result<(), Error>,
    second: SequencesView,
    second_result: Result<(), Error>,
    per_record: bool,
)
    requires
        extraction_step(before, first, first_result, per_record),
        extraction_step(before, second, second_result, per_record),
    ensures
        first == second,
        first_result == second_result,
        forall|merge: bool, name: Seq<u8>, gap: nat| #[trigger]
            written(first.results, merge, name, gap) == written(second.results, merge, name, gap),
{
}

impl Sequences {
    /// Sets a run up on a store: parses the regions list and keeps the base
    /// name of the list for a merged contig. Nothing is extracted yet.
    pub fn new(store: IndexedStore, regions: &str, regions_filename: String) -> (run: Sequences)
        ensures
            run@.store == store@,
            run@.regions == regions_of_text(encode_utf8(regions@)),
            run@.regions_filename == regions_filename@,
            run@.results == Seq::<RecordView>::empty(),
    {
        Sequences {
            store,
            regions: parse_regions(regions.as_bytes()),
            regions_filename,
            results: Extraction::new(),
        }
    }

    /// The store.
    pub fn store(&self) -> (store: &IndexedStore)
        ensures
            store@ == self@.store,
    {
        &self.store
    }

    /// The regions, in the order of the regions list.
    pub fn regions(&self) -> (regions: &Vec<Region>)
        ensures
            regions.deep_view() == self@.regions,
    {
        &self.regions
    }

    /// The records extracted so far, in the order in which their keys were
    /// first seen.
    pub fn records(&self) -> (records: &Vec<Record>)
        ensures
            records.deep_view() == self@.results,
    {
        self.results.records()
    }

    /// Extracts every region in order and adds each extract under its key:
    /// the record name where extracts are gathered per record, as they are
    /// for a merged contig, else the region's label. The first failure ends
    /// the extraction; what was added before it stays.
    pub fn extract(&mut self, per_record: bool) -> (r: Result<(), Error>)
        ensures
            extraction_step(old(self)@, final(self)@, r, per_record),
    {
        let mut i: usize = 0;
        assert(self@.regions.take(0) =~= Seq::<RegionView>::empty());
        while i < self.regions.len()
            invariant
                i <= self.regions.len(),
                self@.store == old(self)@.store,
                self@.regions == old(self)@.regions,
                self@.regions_filename == old(self)@.regions_filename,
                extracted(
                    old(self)@.results,
                    old(self)@.store,
                    old(self)@.regions.take(i as int),
                    per_record,
                ) == (self@.results, None::<Error>),
            decreases self.regions.len() - i,
        {
            proof {
                let part = self@.regions.take(i + 1);
                assert(part.drop_last() =~= self@.regions.take(i as int));
                assert(part.last() == self.regions[i as int]@);
            }
            match extract_region(&self.store, &self.regions[i]) {
                Ok(bases) => {
                    let key = self.regions[i].key(per_record);
                    self.results.append(key.as_slice(), bases.as_slice());
                },
                Err(e) => {
                    proof {
                        lemma_failure_ends(
                            old(self)@.results,
                            old(self)@.store,
                            old(self)@.regions,
                            per_record,
                            i + 1,
                        );
                    }
                    return Err(e);
                },
            }
            i += 1;
        }
        assert(self@.regions.take(self.regions.len() as int) =~= self@.regions);
        Ok(())
    }

    /// Renders what was extracted: one record per key, or, where `merge` is
    /// set, one record that joins all of them with `gap_size` filler symbols
    /// between neighbours. The merged record is named `contig_name`, or
    /// after the regions list where no name is given.
    pub fn write(&self, merge: bool, contig_name: Option<String>, gap_size: usize) -> (text: Vec<u8>)
        ensures
            text@ == written(
                self@.results,
                merge,
                match contig_name {
                    Some(name) => encode_utf8(name@),
                    None => encode_utf8(self@.regions_filename),
                },
                gap_size as nat,
            ),
    {
        if merge {
            let name = match &contig_name {
                Some(name) => name.as_str().as_bytes_vec(),
                None => self.regions_filename.as_str().as_bytes_vec(),
            };
            let record = Record { name, description: None, sequence: self.results.merged(gap_size) };
            let mut records: Vec<Record> = Vec::new();
            records.push(record);
            proof {
                let one = records.deep_view();
                assert(one.drop_last() =~= Seq::<RecordView>::empty());
                assert(records_text(one.drop_last(), DEFAULT_LINE_BASES as nat) =~= Seq::<
                    u8,
                >::empty());
                assert(records_text(one, DEFAULT_LINE_BASES as nat) =~= record_text(
                    one.last(),
                    DEFAULT_LINE_BASES as nat,
                ));
            }
            write_records(&records, DEFAULT_LINE_BASES)
        } else {
            write_records(self.results.records(), DEFAULT_LINE_BASES)
        }
    }
}

/// Once an extraction has failed, further regions change nothing.
pub proof fn lemma_failure_ends(
    records: Seq<RecordView>,
    store: StoreView,
    regions: Seq<RegionView>,
    per_record: bool,
    failed: int,
)
    requires
        0 <= failed <= regions.len(),
        extracted(records, store, regions.take(failed), per_record).1 is Some,
    ensures
        extracted(records, store, regions, per_record) == extracted(
            records,
            store,
            regions.take(failed),
            per_record,
        ),
    decreases regions.len() - failed,
{
    if failed == regions.len() {
        assert(regions.take(failed) =~= regions);
    } else {
        let next = regions.take(failed + 1);
        assert(next.drop_last() =~= regions.take(failed));
        lemma_failure_ends(records, store, regions, per_record, failed + 1);
    }
}

/// A regions list with a region that names an unknown record cannot be
/// extracted: the extraction fails, and it fails with `NotFound` unless a
/// region before that one has failed already.
pub proof fn lemma_unknown_record_fails(
    records: Seq<RecordView>,
    store: StoreView,
    regions: Seq<RegionView>,
    per_record: bool,
    at: int,
)
    requires
        0 <= at < regions.len(),
        forall|i: int|
            0 <= i < store.entries.len() ==> (#[trigger] store.entries[i]).name
                != regions[at].name,
    ensures
        extracted(records, store, regions, per_record).1 is Some,
        extracted(records, store, regions.take(at), per_record).1 is None ==> extracted(
            records,
            store,
            regions,
            per_record,
        ).1 == Some(Error::NotFound),
{
    let upto = regions.take(at + 1);
    assert(upto.drop_last() =~= regions.take(at));
    assert(upto.last() == regions[at]);
    lemma_unknown_record_not_found(store, regions[at]);
    lemma_failure_ends(records, store, regions, per_record, at + 1);
}

} // verus!
