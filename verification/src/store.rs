//! The indexed store: a collection held in memory with its index, answering
//! range queries on any record.

use vstd::prelude::*;
use vstd::arithmetic::div_mod::lemma_fundamental_div_mod;
use crate::bytes::same_bytes;
use crate::error::Error;
use crate::error::FormatError;
use crate::scan::build_index;
use crate::scan::index_of;
use crate::index::lemma_byte_position_monotonic;
use crate::index::parse_index;
use crate::index::parsed_index;
use crate::index::EntryView;
use crate::index::IndexEntry;

verus! {

/// A sequence collection with an index whose every entry fits it.
pub struct IndexedStore {
    data: Vec<u8>,
    entries: Vec<IndexEntry>,
}

/// A store as plain values.
pub struct StoreView {
    pub data: Seq<u8>,
    pub entries: Seq<EntryView>,
}

/// Whether every entry fits a collection of `size` bytes.
pub open spec fn all_fit(entries: Seq<EntryView>, size: nat) -> bool {
    forall|i: int| 0 <= i < entries.len() ==> (#[trigger] entries[i]).fits(size)
}

/// Whether `i` is the place of the first entry named `name`.
pub open spec fn first_named(entries: Seq<EntryView>, name: Seq<u8>, i: int) -> bool {
    &&& 0 <= i < entries.len()
    &&& entries[i].name == name
    &&& forall|j: int| 0 <= j < i ==> (#[trigger] entries[j]).name != name
}

/// The first entry named `name`, if there is one.
pub open spec fn lookup(entries: Seq<EntryView>, name: Seq<u8>) -> Option<EntryView> {
    if exists|i: int| first_named(entries, name, i) {
        Some(entries[choose|i: int| first_named(entries, name, i)])
    } else {
        None
    }
}

/// At most one place is that of the first entry named `name`.
pub proof fn lemma_first_named_unique(entries: Seq<EntryView>, name: Seq<u8>, i: int, j: int)
    requires
        first_named(entries, name, i),
        first_named(entries, name, j),
    ensures
        i == j,
{
    if i < j {
        assert(entries[i].name != name);
    } else if j < i {
        assert(entries[j].name != name);
    }
}

/// What `noodles::fasta::io::IndexedReader::query` returns for the bases
/// `start` to `end` of the record that `entry` describes in `data`: the bases
/// it read, or nothing where it fails.
pub uninterp spec fn queried_bases(data: Seq<u8>, entry: EntryView, start: nat, end: nat) -> Option<
    Seq<u8>,
>;

/// Bases read as a plain value.
pub open spec fn bases_view(bases: Option<Vec<u8>>) -> Option<Seq<u8>> {
    match bases {
        Some(bases) => Some(bases@),
        None => None,
    }
}

/// Builds a `noodles::fasta::io::IndexedReader` over `data` with an index of
/// the one entry, and calls its `query` for the entry's record from `start`
/// to `end`. The result is named, not described: the bases are whatever that
/// reader returned. The preconditions keep the reader's arithmetic within 64
/// bits and its line metrics nonzero.
#[verifier::external_body]
fn read_bases(data: &[u8], entry: &IndexEntry, start: usize, end: usize) -> (bases: Option<Vec<u8>>)
    requires
        entry.line_bases >= 1,
        entry.line_width >= 1,
        1 <= start <= end,
        entry@.byte_position(start as nat) <= u64::MAX,
    ensures
        bases_view(bases) == queried_bases(data@, entry@, start as nat, end as nat),
{
    let record = noodles::fasta::fai::Record::new(
        entry.name.clone(),
        entry.length,
        entry.offset,
        std::num::NonZero::new(entry.line_bases)?,
        std::num::NonZero::new(entry.line_width)?,
    );
    let interval = noodles::core::Position::new(start)?..=noodles::core::Position::new(end)?;
    let region = noodles::core::Region::new(entry.name.clone(), interval);
    let index = noodles::fasta::fai::Index::from(vec![record]);
    let mut reader = noodles::fasta::io::IndexedReader::new(std::io::Cursor::new(data), index);
    Some(reader.query(&region).ok()?.sequence().as_ref().to_vec())
}

/// Whether `bases` are the bases `start` to `end` of the record that `entry`
/// describes: as many as the coordinates, and each the byte that the entry
/// places at its coordinate.
pub open spec fn placed(bases: Seq<u8>, data: Seq<u8>, entry: EntryView, start: nat, end: nat) -> bool {
    &&& bases.len() == end - start + 1
    &&& forall|k: int|
        0 <= k < bases.len() ==> entry.base_at(data, (start + k) as nat) == Some(#[trigger] bases[k])
}

/// What a read is worth: a failed read is an I/O failure, and a read that
/// did not bring the bases that the entry places at `start` to `end` shows
/// an index that does not describe the collection.
pub open spec fn checked_read(
    read: Option<Seq<u8>>,
    data: Seq<u8>,
    entry: EntryView,
    start: nat,
    end: nat,
) -> Result<Seq<u8>, Error> {
    match read {
        None => Err(Error::Io),
        Some(bases) => if placed(bases, data, entry, start, end) {
            Ok(bases)
        } else {
            Err(Error::Format(FormatError::Index))
        },
    }
}

/// Accepts a read only if it brought the bases that the entry places at
/// `start` to `end`.
pub fn check_read(
    read: Option<Vec<u8>>,
    data: &[u8],
    entry: &IndexEntry,
    start: usize,
    end: usize,
) -> (r: Result<Vec<u8>, Error>)
    ensures
        match r {
            Ok(bases) => checked_read(
                bases_view(read),
                data@,
                entry@,
                start as nat,
                end as nat,
            ) == Ok::<Seq<u8>, Error>(bases@),
            Err(e) => checked_read(bases_view(read), data@, entry@, start as nat, end as nat)
                == Err::<Seq<u8>, Error>(e),
        },
{
    let Some(bases) = read else {
        return Err(Error::Io);
    };
    let count: usize = bases.len();
    let complete = if start <= end {
        end - start < usize::MAX && count == end - start + 1
    } else {
        start - end == 1 && count == 0
    };
    if !complete {
        return Err(Error::Format(FormatError::Index));
    }
    let mut k: usize = 0;
    while k < count
        invariant
            k <= count,
            count == bases.len(),
            count == end - start + 1,
            bases_view(read) == Some(bases@),
            forall|j: int|
                0 <= j < k ==> entry@.base_at(data@, (start + j) as nat) == Some(#[trigger] bases@[j]),
        decreases count - k,
    {
        if entry.base_at(data, (start + k) as u64) != Some(bases[k]) {
            assert(entry@.base_at(data@, (start + k) as nat) != Some(bases@[k as int]));
            return Err(Error::Format(FormatError::Index));
        }
        k += 1;
    }
    Ok(bases)
}

/// The bases `start` to `end` of the record named `name`. An unknown name is
/// `NotFound`; coordinates outside `1 <= start <= end <= length` are `Range`;
/// else the read decides, and only a read that brought the bases at their
/// positions is accepted.
pub open spec fn fetched(store: StoreView, name: Seq<u8>, start: nat, end: nat) -> Result<
    Seq<u8>,
    Error,
> {
    match lookup(store.entries, name) {
        None => Err(Error::NotFound),
        Some(entry) => if 1 <= start <= end <= entry.length {
            checked_read(queried_bases(store.data, entry, start, end), store.data, entry, start, end)
        } else {
            Err(Error::Range)
        },
    }
}

/// All bases of the record named `name`.
pub open spec fn fetched_whole(store: StoreView, name: Seq<u8>) -> Result<Seq<u8>, Error> {
    match lookup(store.entries, name) {
        None => Err(Error::NotFound),
        Some(entry) => fetched(store, name, 1, entry.length),
    }
}

/// The store that `entries` make with `data`, where every entry fits.
pub open spec fn opened(data: Seq<u8>, entries: Seq<EntryView>) -> Result<StoreView, Error> {
    if all_fit(entries, data.len()) {
        Ok(StoreView { data, entries })
    } else {
        Err(Error::Format(FormatError::Index))
    }
}

/// The store that a collection makes with its own index.
pub open spec fn built(data: Seq<u8>) -> Result<StoreView, Error> {
    match index_of(data) {
        Ok(entries) => opened(data, entries),
        Err(e) => Err(e),
    }
}

/// The index that a text found beside a collection gives, where it is fresh:
/// the text can be read as an index and every entry fits the collection.
pub open spec fn fresh_index(data: Seq<u8>, found: Option<Seq<u8>>) -> Option<Seq<EntryView>> {
    match found {
        Some(text) => match parsed_index(text) {
            Some(entries) => if all_fit(entries, data.len()) {
                Some(entries)
            } else {
                None
            },
            None => None,
        },
        None => None,
    }
}

/// The store that a collection makes with the index found beside it where
/// that index is fresh, else with its own index, and whether the index was
/// built anew.
pub open spec fn loaded(data: Seq<u8>, found: Option<Seq<u8>>) -> Result<(StoreView, bool), Error> {
    match fresh_index(data, found) {
        Some(entries) => Ok((StoreView { data, entries }, false)),
        None => match built(data) {
            Ok(store) => Ok((store, true)),
            Err(e) => Err(e),
        },
    }
}

/// A record of `length` bases whose entry fits a collection is no longer
/// than the collection.
pub proof fn lemma_length_within(entry: EntryView, size: nat)
    requires
        entry.fits(size),
    ensures
        entry.length <= size,
{
    let before = (entry.length - 1) as int;
    let n = entry.line_bases as int;
    let w = entry.line_width as int;
    let q = before / n;
    lemma_fundamental_div_mod(before, n);
    assert(n * q == q * n) by (nonlinear_arith);
    assert(q * w >= q * n) by (nonlinear_arith)
        requires
            q >= 0,
            w >= n,
    ;
}

/// An optional text as a plain value.
pub open spec fn bytes_view(text: Option<&[u8]>) -> Option<Seq<u8>> {
    match text {
        Some(text) => Some(text@),
        None => None,
    }
}

/// Whether every entry fits a collection of `size` bytes.
pub fn entries_fit(entries: &Vec<IndexEntry>, size: usize) -> (r: bool)
    ensures
        r == all_fit(entries.deep_view(), size as nat),
{
    let mut i: usize = 0;
    while i < entries.len()
        invariant
            i <= entries.len(),
            all_fit(entries.deep_view().take(i as int), size as nat),
        decreases entries.len() - i,
    {
        if !entries[i].fits(size) {
            assert(entries.deep_view()[i as int] == entries[i as int]@);
            return false;
        }
        proof {
            let all = entries.deep_view();
            let part = all.take(i + 1);
            assert forall|k: int| 0 <= k < part.len() implies (#[trigger] part[k]).fits(
                size as nat,
            ) by {
                if k < i {
                    assert(part[k] == all.take(i as int)[k]);
                }
            }
        }
        i += 1;
    }
    assert(entries.deep_view().take(entries.len() as int) =~= entries.deep_view());
    true
}

impl View for IndexedStore {
    type V = StoreView;

    closed spec fn view(&self) -> StoreView {
        StoreView { data: self.data@, entries: self.entries.deep_view() }
    }
}

impl IndexedStore {
    #[verifier::type_invariant]
    spec fn well_formed(self) -> bool {
        all_fit(self.entries.deep_view(), self.data@.len())
    }

    /// Opens a collection with a given index. An index with an entry that
    /// does not fit the collection is refused.
    pub fn open(data: Vec<u8>, entries: Vec<IndexEntry>) -> (r: Result<IndexedStore, Error>)
        ensures
            match r {
                Ok(store) => opened(data@, entries.deep_view()) == Ok::<StoreView, Error>(store@),
                Err(e) => opened(data@, entries.deep_view()) == Err::<StoreView, Error>(e),
            },
    {
        if entries_fit(&entries, data.len()) {
            Ok(IndexedStore { data, entries })
        } else {
            Err(Error::Format(FormatError::Index))
        }
    }

    /// Indexes a collection and opens it with that index.
    pub fn build(data: Vec<u8>) -> (r: Result<IndexedStore, Error>)
        ensures
            match r {
                Ok(store) => built(data@) == Ok::<StoreView, Error>(store@),
                Err(e) => built(data@) == Err::<StoreView, Error>(e),
            },
    {
        match build_index(data.as_slice()) {
            Ok(entries) => IndexedStore::open(data, entries),
            Err(e) => Err(e),
        }
    }

    /// Opens a collection with the index whose text was found beside it,
    /// where there is one and it is fresh, else with an index built from the
    /// collection. The flag tells whether the index was built anew.
    pub fn load(data: Vec<u8>, found: Option<&[u8]>) -> (r: Result<(IndexedStore, bool), Error>)
        ensures
            match r {
                Ok((store, anew)) => loaded(data@, bytes_view(found)) == Ok::<
                    (StoreView, bool),
                    Error,
                >((store@, anew)),
                Err(e) => loaded(data@, bytes_view(found)) == Err::<(StoreView, bool), Error>(e),
            },
    {
        if let Some(text) = found {
            if let Ok(entries) = parse_index(text) {
                if entries_fit(&entries, data.len()) {
                    return Ok((IndexedStore { data, entries }, false));
                }
            }
        }
        match IndexedStore::build(data) {
            Ok(store) => Ok((store, true)),
            Err(e) => Err(e),
        }
    }

    /// The collection.
    pub fn data(&self) -> (data: &Vec<u8>)
        ensures
            data@ == self@.data,
    {
        &self.data
    }

    /// The index, one entry per record. Every entry fits the collection.
    pub fn entries(&self) -> (entries: &Vec<IndexEntry>)
        ensures
            entries.deep_view() == self@.entries,
            all_fit(self@.entries, self@.data.len()),
    {
        proof {
            use_type_invariant(self);
        }
        &self.entries
    }

    /// The place of the first entry named `name`.
    pub fn find(&self, name: &[u8]) -> (r: Option<usize>)
        ensures
            match r {
                Some(i) => first_named(self@.entries, name@, i as int),
                None => forall|i: int|
                    0 <= i < self@.entries.len() ==> (#[trigger] self@.entries[i]).name != name@,
            },
    {
        let mut i: usize = 0;
        while i < self.entries.len()
            invariant
                i <= self.entries.len(),
                forall|j: int| 0 <= j < i ==> (#[trigger] self@.entries[j]).name != name@,
            decreases self.entries.len() - i,
        {
            if same_bytes(self.entries[i].name.as_slice(), name) {
                return Some(i);
            }
            i += 1;
        }
        None
    }

    /// The bases `start` to `end` of the record named `name`, coordinates
    /// counted from 1 and both included.
    pub fn get(&self, name: &[u8], start: usize, end: usize) -> (r: Result<Vec<u8>, Error>)
        ensures
            match r {
                Ok(bases) => fetched(self@, name@, start as nat, end as nat) == Ok::<
                    Seq<u8>,
                    Error,
                >(bases@),
                Err(e) => fetched(self@, name@, start as nat, end as nat) == Err::<
                    Seq<u8>,
                    Error,
                >(e),
            },
    {
        let Some(i) = self.find(name) else {
            proof {
                if exists|k: int| first_named(self@.entries, name@, k) {
                    let k = choose|k: int| first_named(self@.entries, name@, k);
                    assert(self@.entries[k].name == name@);
                }
            }
            return Err(Error::NotFound);
        };
        let entry = &self.entries[i];
        let size: usize = self.data.len();
        proof {
            let k = choose|k: int| first_named(self@.entries, name@, k);
            lemma_first_named_unique(self@.entries, name@, i as int, k);
            assert(lookup(self@.entries, name@) == Some(entry@));
        }
        if !(1 <= start && start <= end && end as u64 <= entry.length) {
            return Err(Error::Range);
        }
        proof {
            use_type_invariant(self);
            assert(self@.entries[i as int] == entry@);
            assert(entry@.fits(self@.data.len()));
            lemma_byte_position_monotonic(entry@, start as nat, entry@.length);
        }
        check_read(
            read_bases(self.data.as_slice(), entry, start, end),
            self.data.as_slice(),
            entry,
            start,
            end,
        )
    }

    /// All bases of the record named `name`.
    pub fn get_whole(&self, name: &[u8]) -> (r: Result<Vec<u8>, Error>)
        ensures
            match r {
                Ok(bases) => fetched_whole(self@, name@) == Ok::<Seq<u8>, Error>(bases@),
                Err(e) => fetched_whole(self@, name@) == Err::<Seq<u8>, Error>(e),
            },
    {
        let Some(i) = self.find(name) else {
            proof {
                if exists|k: int| first_named(self@.entries, name@, k) {
                    let k = choose|k: int| first_named(self@.entries, name@, k);
                    assert(self@.entries[k].name == name@);
                }
            }
            return Err(Error::NotFound);
        };
        let length: u64 = self.entries[i].length;
        let size: usize = self.data.len();
        proof {
            let k = choose|k: int| first_named(self@.entries, name@, k);
            lemma_first_named_unique(self@.entries, name@, i as int, k);
            use_type_invariant(self);
            let entry = self.entries[i as int]@;
            assert(self@.entries[i as int] == entry);
            assert(lookup(self@.entries, name@) == Some(entry));
            assert(entry.fits(self@.data.len()));
            lemma_length_within(entry, self@.data.len());
        }
        self.get(name, 1, length as usize)
    }
}

} // verus!
