//! Sequence records and their text form.

use vstd::prelude::*;
use crate::bytes::append_bytes;

verus! {

/// The number of bases per body line when none is asked for.
pub const DEFAULT_LINE_BASES: usize = 80;

/// A named sequence with an optional free-text description.
#[derive(Clone, Debug)]
pub struct Record {
    pub name: Vec<u8>,
    pub description: Option<Vec<u8>>,
    pub sequence: Vec<u8>,
}

/// A record as plain sequences.
pub struct RecordView {
    pub name: Seq<u8>,
    pub description: Option<Seq<u8>>,
    pub sequence: Seq<u8>,
}

impl View for Record {
    type V = RecordView;

    open spec fn view(&self) -> RecordView {
        RecordView {
            name: self.name@,
            description: match self.description {
                Some(d) => Some(d@),
                None => None,
            },
            sequence: self.sequence@,
        }
    }
}

impl DeepView for Record {
    type V = RecordView;

    open spec fn deep_view(&self) -> RecordView {
        self@
    }
}

/// The body lines of a sequence: `line_bases` bases per line, the last line
/// possibly shorter, each line closed by a line feed. An empty sequence has
/// no body line.
pub open spec fn wrapped(bases: Seq<u8>, line_bases: nat) -> Seq<u8>
    decreases bases.len(),
{
    if bases.len() == 0 || line_bases == 0 {
        Seq::empty()
    } else if bases.len() <= line_bases {
        bases.push(10u8)
    } else {
        bases.take(line_bases as int).push(10u8) + wrapped(
            bases.skip(line_bases as int),
            line_bases,
        )
    }
}

/// The header line of a record: `>`, the name, then a space and the
/// description where there is one, and a line feed.
pub open spec fn header_line(name: Seq<u8>, description: Option<Seq<u8>>) -> Seq<u8> {
    seq![62u8] + name + match description {
        Some(d) => seq![32u8] + d,
        None => Seq::empty(),
    } + seq![10u8]
}

/// The text of one record: its header line and its wrapped body.
pub open spec fn record_text(record: RecordView, line_bases: nat) -> Seq<u8> {
    header_line(record.name, record.description) + wrapped(record.sequence, line_bases)
}

/// The text of a list of records, one after the other.
pub open spec fn records_text(records: Seq<RecordView>, line_bases: nat) -> Seq<u8>
    decreases records.len(),
{
    if records.len() == 0 {
        Seq::empty()
    } else {
        records_text(records.drop_last(), line_bases) + record_text(records.last(), line_bases)
    }
}

/// Calls `noodles::fasta::io::Writer::write_record` on a writer built with
/// `line_bases` bases per line over an empty byte vector, and returns what was
/// written. The contract claims what the writer's source shows: the prefix
/// `>`, the name, a space and the description if there is one, a line feed,
/// then each chunk of `line_bases` bases followed by a line feed.
#[verifier::external_body]
fn render_record(record: &Record, line_bases: usize) -> (text: Vec<u8>)
    requires
        line_bases >= 1,
    ensures
        text@ == record_text(record@, line_bases as nat),
{
    let definition = noodles::fasta::record::Definition::new(
        record.name.clone(),
        record.description.clone().map(Into::into),
    );
    let sequence = noodles::fasta::record::Sequence::from(record.sequence.clone());
    let mut writer = noodles::fasta::io::writer::Builder::default()
        .set_line_base_count(std::num::NonZero::new(line_bases).unwrap())
        .build_from_writer(Vec::new());
    writer.write_record(&noodles::fasta::Record::new(definition, sequence)).unwrap();
    writer.into_inner()
}

/// Renders records in order, `line_bases` bases per body line.
pub fn write_records(records: &Vec<Record>, line_bases: usize) -> (text: Vec<u8>)
    requires
        line_bases >= 1,
    ensures
        text@ == records_text(records.deep_view(), line_bases as nat),
{
    let mut text: Vec<u8> = Vec::new();
    let mut i: usize = 0;
    while i < records.len()
        invariant
            i <= records.len(),
            line_bases >= 1,
            text@ == records_text(records.deep_view().take(i as int), line_bases as nat),
        decreases records.len() - i,
    {
        let one = render_record(&records[i], line_bases);
        append_bytes(&mut text, one.as_slice());
        proof {
            let all = records.deep_view();
            assert(all.take(i + 1).drop_last() =~= all.take(i as int));
            assert(all.take(i + 1).last() == records[i as int]@);
        }
        i += 1;
    }
    assert(records.deep_view().take(records.len() as int) =~= records.deep_view());
    text
}

} // verus!
