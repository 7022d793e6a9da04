//! What the command line asks for.

use crate::records::{count_of, parse_usize};
use vstd::prelude::*;

verus! {

/// The input file, the number of clusters to leave, and whether the file
/// holds codes rather than weighted edges.
#[derive(Debug)]
pub struct CommandArgs {
    pub filename: String,
    pub num_clusters: usize,
    pub hamming: bool,
}

/// The number of clusters that an argument asks for: the number it spells,
/// and zero for an argument that is missing or spells no number.
pub open spec fn clusters_asked(clusters: Option<Seq<char>>) -> usize {
    match clusters {
        Some(text) => match count_of(text) {
            Some(n) => n,
            None => 0,
        },
        None => 0,
    }
}

impl CommandArgs {
    /// The arguments as given on the command line: the name of the file,
    /// the text of the number of clusters where there is one, and whether
    /// codes were asked for.
    pub fn from_values(filename: &str, clusters: Option<&str>, hamming: bool) -> (args: Self)
        ensures
            args.filename@ == filename@,
            args.num_clusters == clusters_asked(
                match clusters {
                    Some(text) => Some(text@),
                    None => None,
                },
            ),
            args.hamming == hamming,
    {
        let num_clusters: usize = match clusters {
            None => 0,
            Some(text) => match parse_usize(text) {
                Some(n) => n,
                None => 0,
            },
        };
        CommandArgs { filename: filename.to_owned(), num_clusters: num_clusters, hamming: hamming }
    }
}

} // verus!
