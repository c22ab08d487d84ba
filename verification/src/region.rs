//! Regions: which part of which record to extract, and how a list of them is
//! read from text.

use vstd::prelude::*;
use vstd::slice::slice_subrange;
use vstd::slice::slice_to_vec;
use crate::bytes::append_decimal;
use crate::bytes::decimal;
use crate::error::Error;

verus! {

/// A coordinate interval on a named record, with coordinates counted from 1
/// and both ends included. Without an end the region is the whole record.
#[derive(Clone, Debug)]
pub struct Region {
    pub name: Vec<u8>,
    pub start: usize,
    pub end: Option<usize>,
    /// Whether the extract is to be reverse-complemented.
    pub reverse: bool,
}

/// A region as plain values.
pub struct RegionView {
    pub name: Seq<u8>,
    pub start: nat,
    pub end: Option<nat>,
    pub reverse: bool,
}

impl View for Region {
    type V = RegionView;

    open spec fn view(&self) -> RegionView {
        RegionView {
            name: self.name@,
            start: self.start as nat,
            end: match self.end {
                Some(e) => Some(e as nat),
                None => None,
            },
            reverse: self.reverse,
        }
    }
}

impl DeepView for Region {
    type V = RegionView;

    open spec fn deep_view(&self) -> RegionView {
        self@
    }
}

/// The identity of a region: the record name alone for a whole record, else
/// the name, a colon, the start, a hyphen and the end.
pub open spec fn label(region: RegionView) -> Seq<u8> {
    match region.end {
        None => region.name,
        Some(end) => region.name + seq![58u8] + decimal(region.start) + seq![45u8] + decimal(end),
    }
}

/// The key under which a region's extract is kept: the bare record name when
/// extracts are gathered per record, else the region's label.
pub open spec fn key(region: RegionView, per_record: bool) -> Seq<u8> {
    if per_record {
        region.name
    } else {
        label(region)
    }
}

impl Region {
    /// The region's label.
    pub fn label(&self) -> (text: Vec<u8>)
        ensures
            text@ == label(self@),
    {
        let mut text: Vec<u8> = slice_to_vec(self.name.as_slice());
        match self.end {
            None => {},
            Some(end) => {
                text.push(58u8);
                append_decimal(&mut text, self.start as u64);
                text.push(45u8);
                append_decimal(&mut text, end as u64);
                assert(text@ =~= label(self@));
            },
        }
        text
    }

    /// The key under which this region's extract is kept.
    pub fn key(&self, per_record: bool) -> (text: Vec<u8>)
        ensures
            text@ == key(self@, per_record),
    {
        if per_record {
            slice_to_vec(self.name.as_slice())
        } else {
            self.label()
        }
    }
}

/// What `noodles::core::Region`'s parser makes of a text: nothing where it
/// rejects the text, else the record name and the two optional bounds.
pub uninterp spec fn parsed_region(text: Seq<u8>) -> Option<(Seq<u8>, Option<usize>, Option<usize>)>;

/// The raw parts of a parsed region as plain values.
pub open spec fn parts_view(parts: Option<(Vec<u8>, Option<usize>, Option<usize>)>) -> Option<
    (Seq<u8>, Option<usize>, Option<usize>),
> {
    match parts {
        Some((name, start, end)) => Some((name@, start, end)),
        None => None,
    }
}

/// Reads `text` as UTF-8 and hands it to the `FromStr` impl of
/// `noodles::core::Region`. The result is named, not described: the record
/// name and the bounds are whatever that parser found, and nothing comes back
/// where the text is not UTF-8 or the parser rejects it.
#[verifier::external_body]
fn parse_region_text(text: &[u8]) -> (parts: Option<(Vec<u8>, Option<usize>, Option<usize>)>)
    ensures
        parts_view(parts) == parsed_region(text@),
{
    let region: noodles::core::Region = std::str::from_utf8(text).ok()?.parse().ok()?;
    let interval = region.interval();
    Some((region.name().to_vec(), interval.start().map(usize::from), interval.end().map(usize::from)))
}

/// The region that parsed parts stand for. A lone position is a single base;
/// a missing start is the first base. Bounds that are zero or out of order
/// give no region.
pub open spec fn normalized(
    name: Seq<u8>,
    start: Option<usize>,
    end: Option<usize>,
    reverse: bool,
) -> Option<RegionView> {
    match (start, end) {
        (None, None) => Some(RegionView { name, start: 1, end: None, reverse }),
        (Some(s), None) => if s >= 1 {
            Some(RegionView { name, start: s as nat, end: Some(s as nat), reverse })
        } else {
            None
        },
        (None, Some(e)) => if e >= 1 {
            Some(RegionView { name, start: 1, end: Some(e as nat), reverse })
        } else {
            None
        },
        (Some(s), Some(e)) => if 1 <= s <= e {
            Some(RegionView { name, start: s as nat, end: Some(e as nat), reverse })
        } else {
            None
        },
    }
}

/// Builds the region that parsed parts stand for.
pub fn region_from_parts(
    name: Vec<u8>,
    start: Option<usize>,
    end: Option<usize>,
    reverse: bool,
) -> (r: Option<Region>)
    ensures
        match r {
            Some(region) => normalized(name@, start, end, reverse) == Some(region@),
            None => normalized(name@, start, end, reverse) is None,
        },
{
    match (start, end) {
        (None, None) => Some(Region { name, start: 1, end: None, reverse }),
        (Some(s), None) => if s >= 1 {
            Some(Region { name, start: s, end: Some(s), reverse })
        } else {
            None
        },
        (None, Some(e)) => if e >= 1 {
            Some(Region { name, start: 1, end: Some(e), reverse })
        } else {
            None
        },
        (Some(s), Some(e)) => if 1 <= s && s <= e {
            Some(Region { name, start: s, end: Some(e), reverse })
        } else {
            None
        },
    }
}

/// The region that one line of a regions list stands for. A leading hyphen
/// asks for the reverse complement and is not part of the region text. An
/// empty line, and a line whose region text does not parse, stand for none.
pub open spec fn region_of_line(line: Seq<u8>) -> Option<RegionView> {
    if line.len() == 0 {
        None
    } else {
        let reverse = line[0] == 45u8;
        let text = if reverse {
            line.skip(1)
        } else {
            line
        };
        match parsed_region(text) {
            Some((name, start, end)) => normalized(name, start, end, reverse),
            None => None,
        }
    }
}

/// Parses one line of a regions list.
pub fn parse_region_line(line: &[u8]) -> (r: Result<Region, Error>)
    ensures
        match r {
            Ok(region) => region_of_line(line@) == Some(region@),
            Err(e) => e == Error::Parse && region_of_line(line@) is None,
        },
{
    if line.len() == 0 {
        return Err(Error::Parse);
    }
    let reverse = line[0] == 45u8;
    let text = if reverse {
        slice_subrange(line, 1, line.len())
    } else {
        line
    };
    assert(text@ == if reverse { line@.skip(1) } else { line@ });
    match parse_region_text(text) {
        Some((name, start, end)) => match region_from_parts(name, start, end, reverse) {
            Some(region) => Ok(region),
            None => Err(Error::Parse),
        },
        None => Err(Error::Parse),
    }
}

/// Where the first line of a text ends: the index of its first line feed, or
/// the text's length where it holds none.
pub open spec fn line_end(text: Seq<u8>) -> nat
    decreases text.len(),
{
    if text.len() == 0 || text[0] == 10u8 {
        0
    } else {
        1 + line_end(text.drop_first())
    }
}

/// A line without the carriage return that closes it, if one does.
pub open spec fn without_carriage_return(line: Seq<u8>) -> Seq<u8> {
    if line.len() > 0 && line.last() == 13u8 {
        line.drop_last()
    } else {
        line
    }
}

/// The lines of a text. A line ends at a line feed, or at a carriage return
/// directly before one; neither belongs to the line. Text after the last
/// line feed is a line of its own, taken as it stands.
pub open spec fn lines(text: Seq<u8>) -> Seq<Seq<u8>>
    decreases text.len(),
{
    if text.len() == 0 {
        Seq::empty()
    } else {
        let n = line_end(text) as int;
        if n >= text.len() {
            seq![text]
        } else {
            seq![without_carriage_return(text.take(n))] + lines(text.skip(n + 1))
        }
    }
}

/// The regions that a sequence of lines stands for, in the order of the
/// lines. Lines that stand for no region are passed over; repeated regions
/// are kept.
pub open spec fn regions_of_lines(lines: Seq<Seq<u8>>) -> Seq<RegionView>
    decreases lines.len(),
{
    if lines.len() == 0 {
        Seq::empty()
    } else {
        let before = regions_of_lines(lines.drop_last());
        match region_of_line(lines.last()) {
            Some(region) => before.push(region),
            None => before,
        }
    }
}

/// The regions that a regions list stands for.
pub open spec fn regions_of_text(text: Seq<u8>) -> Seq<RegionView> {
    regions_of_lines(lines(text))
}

/// `line_end` is bounded by the text's length, no byte before it is a line
/// feed, and the byte at it is one unless the text ends there.
pub proof fn lemma_line_end(text: Seq<u8>)
    ensures
        line_end(text) <= text.len(),
        forall|k: int| 0 <= k < line_end(text) ==> text[k] != 10u8,
        line_end(text) < text.len() ==> text[line_end(text) as int] == 10u8,
    decreases text.len(),
{
    if text.len() == 0 || text[0] == 10u8 {
    } else {
        let rest = text.drop_first();
        lemma_line_end(rest);
        assert forall|k: int| 0 <= k < line_end(text) implies text[k] != 10u8 by {
            if k > 0 {
                assert(text[k] == rest[k - 1]);
            }
        }
        if line_end(text) < text.len() {
            assert(text[line_end(text) as int] == rest[line_end(rest) as int]);
        }
    }
}

/// The first position with the properties of `line_end` is `line_end`.
pub proof fn lemma_line_end_is(text: Seq<u8>, n: int)
    requires
        0 <= n <= text.len(),
        forall|k: int| 0 <= k < n ==> text[k] != 10u8,
        n < text.len() ==> text[n] == 10u8,
    ensures
        line_end(text) == n,
{
    lemma_line_end(text);
    let m = line_end(text) as int;
    if m < n {
        assert(text[m] == 10u8);
    } else if n < m {
        assert(text[n] == 10u8);
    }
}

/// Splits a text into its lines.
pub fn split_lines(text: &[u8]) -> (out: Vec<Vec<u8>>)
    ensures
        out.deep_view() == lines(text@),
{
    let mut out: Vec<Vec<u8>> = Vec::new();
    let mut pos: usize = 0;
    assert(text@.skip(0) =~= text@);
    while pos < text.len()
        invariant
            pos <= text.len(),
            lines(text@) == out.deep_view() + lines(text@.skip(pos as int)),
        decreases text.len() - pos,
    {
        let ghost rest = text@.skip(pos as int);
        let mut end: usize = pos;
        while end < text.len() && text[end] != 10u8
            invariant
                pos <= end <= text.len(),
                forall|k: int| pos <= k < end ==> text@[k] != 10u8,
            decreases text.len() - end,
        {
            end += 1;
        }
        proof {
            assert forall|k: int| 0 <= k < end - pos implies rest[k] != 10u8 by {
                assert(rest[k] == text@[pos + k]);
            }
            lemma_line_end_is(rest, end - pos);
        }
        let ghost before = out.deep_view();
        if end == text.len() {
            let line = slice_to_vec(slice_subrange(text, pos, end));
            out.push(line);
            proof {
                assert(line.deep_view() =~= line@);
                assert(line@ =~= rest);
                assert(rest.skip(rest.len() as int) =~= Seq::<u8>::empty());
                assert(text@.skip(end as int) =~= Seq::<u8>::empty());
                assert(out.deep_view() =~= before + seq![rest]);
            }
            pos = end;
        } else {
            let stop: usize = if end > pos && text[end - 1] == 13u8 {
                (end - 1) as usize
            } else {
                end
            };
            let line = slice_to_vec(slice_subrange(text, pos, stop));
            out.push(line);
            proof {
                let first = rest.take(end - pos);
                assert(line.deep_view() =~= line@);
                assert(first =~= text@.subrange(pos as int, end as int));
                assert(line@ =~= without_carriage_return(first));
                assert(rest.skip(end - pos + 1) =~= text@.skip(end + 1));
                assert(out.deep_view() =~= before + seq![without_carriage_return(first)]);
            }
            pos = end + 1;
        }
    }
    proof {
        assert(text@.skip(pos as int).len() == 0);
        assert(out.deep_view() + Seq::<Seq<u8>>::empty() =~= out.deep_view());
    }
    out
}

/// Parses a regions list: every line that stands for a region, in order.
pub fn parse_regions(text: &[u8]) -> (regions: Vec<Region>)
    ensures
        regions.deep_view() == regions_of_text(text@),
{
    let lines = split_lines(text);
    let mut regions: Vec<Region> = Vec::new();
    let mut i: usize = 0;
    while i < lines.len()
        invariant
            i <= lines.len(),
            regions.deep_view() == regions_of_lines(lines.deep_view().take(i as int)),
        decreases lines.len() - i,
    {
        let ghost before = regions.deep_view();
        match parse_region_line(lines[i].as_slice()) {
            Ok(region) => {
                regions.push(region);
                assert(regions.deep_view() =~= before.push(region@));
            },
            Err(_) => {},
        }
        proof {
            let all = lines.deep_view();
            assert(all.take(i + 1).drop_last() =~= all.take(i as int));
            assert(lines[i as int].deep_view() =~= lines[i as int]@);
            assert(all.take(i + 1).last() == lines[i as int]@);
        }
        i += 1;
    }
    assert(lines.deep_view().take(lines.len() as int) =~= lines.deep_view());
    regions
}

} // verus!
