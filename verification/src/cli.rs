//! The settings of one run, as plain values.

use vstd::prelude::*;

verus! {

/// What a run is asked to do: which files to read, where to write, and
/// whether to merge the extracts into one contig.
#[derive(Clone, Debug)]
pub struct Cli {
    /// Path of the sequence collection.
    pub fasta: String,
    /// Path of the regions list.
    pub regions: String,
    /// Path to write to; standard output when absent.
    pub output: Option<String>,
    /// Whether to write one merged contig in place of one record per key.
    pub merge_contigs: bool,
    /// Name of the merged contig; the regions list's base name when absent.
    pub contig_name: Option<String>,
    /// Number of filler symbols between merged entries.
    pub gap_size: usize,
}

impl Cli {
    /// The paths of the sequence collection and of the regions list.
    pub fn get_input(&self) -> (r: (String, String))
        ensures
            r.0 == self.fasta,
            r.1 == self.regions,
    {
        (self.fasta.clone(), self.regions.clone())
    }

    /// The output path, the merge toggle, the merged contig's name and the
    /// gap size.
    pub fn get_output(&self) -> (r: (Option<String>, bool, Option<String>, usize))
        ensures
            r.0 == self.output,
            r.1 == self.merge_contigs,
            r.2 == self.contig_name,
            r.3 == self.gap_size,
    {
        let output = match &self.output {
            Some(path) => Some(path.clone()),
            None => None,
        };
        let contig_name = match &self.contig_name {
            Some(name) => Some(name.clone()),
            None => None,
        };
        (output, self.merge_contigs, contig_name, self.gap_size)
    }
}

} // verus!
