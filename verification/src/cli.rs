use vstd::prelude::*;

verus! {

/// What a bounded crawl is asked for on the command line.
#[derive(Debug)]
pub struct Args {
    /// The URL to start from.
    pub url: String,
    /// The number of pages after which the crawl stops.
    pub pages: usize,
}

} // verus!
