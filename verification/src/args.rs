//! What the command line asks for, and which of the two modes that means.

use vstd::prelude::*;

verus! {

/// The options of the command line.
#[derive(Debug, Clone)]
pub struct Args {
    /// Crawl all pages reachable from the page of this name.
    pub scan_url: Option<String>,
    /// Answer path queries on the stored graph of this name.
    pub shortest_path: Option<String>,
    /// The number of threads that fetch pages.
    pub threads: usize,
    /// The number of levels after which a crawl stops.
    pub max_depth: usize,
}

/// What a run of the program does.
#[derive(Debug, Clone, PartialEq, Eq)]
pub enum Mode {
    /// Crawl from `seed` and store the graph.
    Crawl { seed: String, max_depth: usize, threads: usize },
    /// Load the stored graph called `name` and answer path queries on it.
    Query { name: String },
    /// Neither was asked for.
    Idle,
}

impl Default for Args {
    /// No mode chosen, 250 threads, 1024 levels.
    fn default() -> (args: Args)
        ensures
            args.scan_url is None,
            args.shortest_path is None,
            args.threads == 250,
            args.max_depth == 1024,
    {
        Args { scan_url: None, shortest_path: None, threads: 250, max_depth: 1024 }
    }
}

impl Args {
    /// The mode that the options select: a crawl where a page to scan is
    /// named, else path queries where a stored graph is named, else nothing.
    pub fn mode(&self) -> (mode: Mode)
        ensures
            match mode {
                Mode::Crawl { seed, max_depth, threads } => {
                    &&& self.scan_url is Some
                    &&& seed@ == self.scan_url->0@
                    &&& max_depth == self.max_depth
                    &&& threads == self.threads
                },
                Mode::Query { name } => {
                    &&& self.scan_url is None
                    &&& self.shortest_path is Some
                    &&& name@ == self.shortest_path->0@
                },
                Mode::Idle => self.scan_url is None && self.shortest_path is None,
            },
    {
        match &self.scan_url {
            Some(seed) => Mode::Crawl {
                seed: seed.clone(),
                max_depth: self.max_depth,
                threads: self.threads,
            },
            None => match &self.shortest_path {
                Some(name) => Mode::Query { name: name.clone() },
                None => Mode::Idle,
            },
        }
    }
}

} // verus!
