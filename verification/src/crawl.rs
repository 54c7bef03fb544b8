//! The depth-bounded breadth-first crawl, as a state machine. The caller
//! fetches the pages of the current frontier by whatever means it has, turns
//! each into an edge record, and hands the records of the level back; the
//! crawl merges them, one level at a time, into its set of vertices and
//! computes the next frontier.

use crate::extract::{extract, page_links};
use crate::text::string_views;
use vstd::hash_set::StringHashSet;
use vstd::prelude::*;

verus! {

/// The links found on one page: the page's identifier and the identifiers it
/// links to, in the order in which they stand on the page.
#[derive(Debug, Clone, PartialEq, Eq)]
pub struct EdgeRecord {
    pub source: String,
    pub links: Vec<String>,
}

/// What an edge record stands for.
pub struct RecordView {
    pub source: Seq<char>,
    pub links: Seq<Seq<char>>,
}

impl View for EdgeRecord {
    type V = RecordView;

    open spec fn view(&self) -> RecordView {
        RecordView { source: self.source@, links: string_views(self.links@) }
    }
}

/// What a list of edge records stands for.
pub open spec fn record_views(records: Seq<EdgeRecord>) -> Seq<RecordView> {
    Seq::new(records.len(), |k: int| records[k]@)
}

/// All links of a list of records, record after record.
pub open spec fn all_links(records: Seq<RecordView>) -> Seq<Seq<char>> {
    records.flat_map(|record: RecordView| record.links)
}

/// The identifiers among `links` that are not in `known`, each once, in the
/// order in which they are first met.
pub open spec fn fresh(known: Seq<Seq<char>>, links: Seq<Seq<char>>) -> Seq<Seq<char>>
    decreases links.len(),
{
    if links.len() == 0 {
        Seq::empty()
    } else {
        let earlier = fresh(known, links.drop_last());
        let link = links.last();
        if known.contains(link) || earlier.contains(link) {
            earlier
        } else {
            earlier.push(link)
        }
    }
}

impl EdgeRecord {
    /// The record of one fetched page. A page that could not be fetched, or
    /// whose body could not be read as text, has no content and yields a
    /// record without links.
    pub fn from_page(source: String, content: Option<&str>) -> (record: EdgeRecord)
        ensures
            record@.source == source@,
            record@.links == match content {
                Some(text) => page_links(text@),
                None => Seq::<Seq<char>>::empty(),
            },
    {
        let links = match content {
            Some(text) => extract(text),
            None => Vec::new(),
        };
        proof {
            if content is None {
                assert(string_views(links@) =~= Seq::<Seq<char>>::empty());
            }
        }
        EdgeRecord { source, links }
    }
}

/// The state of a crawl between two levels.
pub struct CrawlView {
    /// Every identifier seen so far, in the order of discovery.
    pub vertices: Seq<Seq<char>>,
    /// The identifiers to fetch at the current level.
    pub frontier: Seq<Seq<char>>,
    /// The records of all levels processed so far.
    pub edges: Seq<RecordView>,
    /// The number of levels processed so far.
    pub level: nat,
    /// The number of levels after which the crawl stops.
    pub max_depth: nat,
}

impl CrawlView {
    /// The state a crawl starts in: the seed is the only vertex and the whole
    /// frontier.
    pub open spec fn start(seed: Seq<char>, max_depth: nat) -> CrawlView {
        CrawlView {
            vertices: seq![seed],
            frontier: seq![seed],
            edges: Seq::empty(),
            level: 0,
            max_depth,
        }
    }

    /// The crawl is over: nothing is left to fetch, or the depth is reached.
    pub open spec fn finished(self) -> bool {
        self.frontier.len() == 0 || self.level >= self.max_depth
    }

    /// The state after the records of the current level have been merged. A
    /// finished crawl stays as it is.
    pub open spec fn next(self, records: Seq<RecordView>) -> CrawlView {
        if self.finished() {
            self
        } else {
            let found = fresh(self.vertices, all_links(records));
            CrawlView {
                vertices: self.vertices + found,
                frontier: found,
                edges: self.edges + records,
                level: self.level + 1,
                max_depth: self.max_depth,
            }
        }
    }

    /// The state after the given levels of records have been merged in turn.
    pub open spec fn run(seed: Seq<char>, max_depth: nat, levels: Seq<Seq<RecordView>>) -> CrawlView
        decreases levels.len(),
    {
        if levels.len() == 0 {
            CrawlView::start(seed, max_depth)
        } else {
            CrawlView::run(seed, max_depth, levels.drop_last()).next(levels.last())
        }
    }

    /// What holds of every state of a crawl: no vertex is listed twice, the
    /// frontier is the tail of the vertex list, and the level counter has not
    /// passed the depth.
    pub open spec fn valid(self) -> bool {
        &&& self.vertices.no_duplicates()
        &&& self.frontier.len() <= self.vertices.len()
        &&& self.frontier == self.vertices.skip(self.vertices.len() - self.frontier.len())
        &&& self.level <= self.max_depth
    }
}

/// A crawl in progress.
pub struct Crawl {
    vertices: Vec<String>,
    seen: StringHashSet,
    frontier_start: usize,
    edges: Vec<EdgeRecord>,
    level: usize,
    max_depth: usize,
}

impl View for Crawl {
    type V = CrawlView;

    closed spec fn view(&self) -> CrawlView {
        CrawlView {
            vertices: string_views(self.vertices@),
            frontier: string_views(self.vertices@).skip(self.frontier_start as int),
            edges: record_views(self.edges@),
            level: self.level as nat,
            max_depth: self.max_depth as nat,
        }
    }
}

impl Crawl {
    #[verifier::type_invariant]
    spec fn inv(&self) -> bool {
        &&& self.seen@ == string_views(self.vertices@).to_set()
        &&& string_views(self.vertices@).no_duplicates()
        &&& self.frontier_start <= self.vertices.len()
        &&& self.level <= self.max_depth
    }

    /// The invariant of the representation makes the state valid.
    proof fn lemma_valid(&self)
        requires
            self.inv(),
        ensures
            self@.valid(),
    {
        let names = string_views(self.vertices@);
        assert(names.skip(names.len() - names.skip(self.frontier_start as int).len()) =~= names.skip(
            self.frontier_start as int,
        ));
    }

    /// A crawl that starts at `seed` and processes at most `max_depth` levels.
    pub fn new(seed: String, max_depth: usize) -> (crawl: Crawl)
        ensures
            crawl@ == CrawlView::start(seed@, max_depth as nat),
            crawl@.valid(),
    {
        let mut seen = StringHashSet::new();
        seen.insert(seed.clone());
        let mut vertices: Vec<String> = Vec::new();
        vertices.push(seed);
        let edges: Vec<EdgeRecord> = Vec::new();
        proof {
            let names = string_views(vertices@);
            assert(names =~= seq![seed@]);
            assert(names[0] == seed@);
            assert(names.to_set() =~= seen@);
            assert(names.skip(0) =~= names);
            assert(record_views(edges@) =~= Seq::<RecordView>::empty());
        }
        Crawl { vertices, seen, frontier_start: 0, edges, level: 0, max_depth }
    }

    /// Whether the crawl is over: the frontier is empty or the depth is
    /// reached.
    pub fn is_finished(&self) -> (done: bool)
        ensures
            done == self@.finished(),
            self@.valid(),
    {
        proof {
            use_type_invariant(self);
            self.lemma_valid();
        }
        self.frontier_start >= self.vertices.len() || self.level >= self.max_depth
    }

    /// The identifiers to fetch at the current level.
    pub fn frontier(&self) -> (frontier: Vec<String>)
        ensures
            string_views(frontier@) == self@.frontier,
    {
        proof {
            use_type_invariant(self);
        }
        let mut frontier: Vec<String> = Vec::new();
        let mut i: usize = self.frontier_start;
        proof {
            assert(string_views(frontier@) =~= string_views(self.vertices@).subrange(
                i as int,
                i as int,
            ));
        }
        while i < self.vertices.len()
            invariant
                self.frontier_start <= i <= self.vertices.len(),
                string_views(frontier@) == string_views(self.vertices@).subrange(
                    self.frontier_start as int,
                    i as int,
                ),
            decreases self.vertices.len() - i,
        {
            let ghost earlier = string_views(frontier@);
            frontier.push(self.vertices[i].clone());
            proof {
                assert(string_views(frontier@) =~= earlier.push(self.vertices@[i as int]@));
                assert(string_views(self.vertices@).subrange(
                    self.frontier_start as int,
                    i + 1,
                ) =~= earlier.push(self.vertices@[i as int]@));
            }
            i += 1;
        }
        proof {
            assert(string_views(self.vertices@).subrange(self.frontier_start as int, i as int)
                =~= string_views(self.vertices@).skip(self.frontier_start as int));
        }
        frontier
    }

    /// Merges the records of the current level: every link that has not been
    /// seen before becomes a vertex and part of the next frontier, in the
    /// order of the records and of the links in them; the records join the
    /// accumulated edges and the level counter goes up by one. A finished
    /// crawl is handed back unchanged.
    pub fn advance(self, records: Vec<EdgeRecord>) -> (next: Crawl)
        ensures
            next@ == self@.next(record_views(records@)),
            next@.valid(),
    {
        proof {
            use_type_invariant(&self);
            self.lemma_valid();
            lemma_next_valid(self@, record_views(records@));
        }
        if self.is_finished() {
            return self;
        }
        let ghost before = self@;
        let Crawl { mut vertices, mut seen, frontier_start, mut edges, level, max_depth } = self;
        let mut records = records;
        let start: usize = vertices.len();
        let ghost known = string_views(vertices@);
        let ghost views = record_views(records@);
        let ghost per_record = |record: RecordView| record.links;
        let mut i: usize = 0;
        proof {
            assert(views.take(0).map_values(per_record) =~= Seq::<Seq<Seq<char>>>::empty());
            assert(all_links(views.take(0)) =~= Seq::<Seq<char>>::empty());
            assert(string_views(vertices@) =~= known + Seq::<Seq<char>>::empty());
        }
        while i < records.len()
            invariant
                i <= records.len(),
                views == record_views(records@),
                per_record == |record: RecordView| record.links,
                string_views(vertices@) == known + fresh(known, all_links(views.take(i as int))),
                seen@ == string_views(vertices@).to_set(),
                string_views(vertices@).no_duplicates(),
            decreases records.len() - i,
        {
            let ghost scanned = all_links(views.take(i as int));
            let mut j: usize = 0;
            proof {
                assert(string_views(records[i as int].links@).take(0) =~= Seq::<Seq<char>>::empty());
                assert(scanned + Seq::<Seq<char>>::empty() =~= scanned);
            }
            while j < records[i].links.len()
                invariant
                    i < records.len(),
                    j <= records[i as int].links.len(),
                    string_views(vertices@) == known + fresh(
                        known,
                        scanned + string_views(records[i as int].links@).take(j as int),
                    ),
                    seen@ == string_views(vertices@).to_set(),
                    string_views(vertices@).no_duplicates(),
                decreases records[i as int].links.len() - j,
            {
                let ghost links = string_views(records[i as int].links@);
                let ghost earlier = fresh(known, scanned + links.take(j as int));
                let ghost names = string_views(vertices@);
                let link = records[i].links[j].clone();
                proof {
                    let longer = scanned + links.take(j + 1);
                    assert(longer.drop_last() =~= scanned + links.take(j as int));
                    assert(longer.last() == link@);
                    assert(names.to_set().contains(link@) <==> names.contains(link@));
                    assert(names.contains(link@) <==> known.contains(link@) || earlier.contains(
                        link@,
                    )) by {
                        if names.contains(link@) {
                            let k = choose|k: int| 0 <= k < names.len() && names[k] == link@;
                            if k < known.len() {
                                assert(known[k] == link@);
                            } else {
                                assert(earlier[k - known.len()] == link@);
                            }
                        }
                        if known.contains(link@) {
                            let k = choose|k: int| 0 <= k < known.len() && known[k] == link@;
                            assert(names[k] == link@);
                        }
                        if earlier.contains(link@) {
                            let k = choose|k: int| 0 <= k < earlier.len() && earlier[k] == link@;
                            assert(names[known.len() + k] == link@);
                        }
                    }
                }
                if seen.insert(link.clone()) {
                    vertices.push(link);
                    proof {
                        assert(string_views(vertices@) =~= names.push(link@));
                        assert(names.push(link@) =~= known + earlier.push(link@));
                        assert(names.push(link@).to_set() =~= names.to_set().insert(link@)) by {
                            names.lemma_push_to_set_commute(link@);
                        }
                        assert(names.push(link@).no_duplicates());
                    }
                }
                j += 1;
            }
            proof {
                let links = string_views(records[i as int].links@);
                assert(links.take(j as int) =~= links);
                assert(views[i as int].links == links);
                views.lemma_flat_map_take_append(per_record, i as int);
            }
            i += 1;
        }
        proof {
            assert(views.take(i as int) =~= views);
        }
        let ghost found = fresh(known, all_links(views));
        let ghost old_edges = record_views(edges@);
        edges.append(&mut records);
        proof {
            assert(record_views(edges@) =~= old_edges + views);
            assert(string_views(vertices@).skip(start as int) =~= found);
        }
        Crawl { vertices, seen, frontier_start: start, edges, level: level + 1, max_depth }
    }

    /// Every identifier seen so far, in the order of discovery; none stands
    /// in the list twice.
    pub fn vertices(&self) -> (vertices: &Vec<String>)
        ensures
            string_views(vertices@) == self@.vertices,
            self@.vertices.no_duplicates(),
    {
        proof {
            use_type_invariant(self);
        }
        &self.vertices
    }

    /// The records of all levels processed so far.
    pub fn edges(&self) -> (edges: &Vec<EdgeRecord>)
        ensures
            record_views(edges@) == self@.edges,
    {
        &self.edges
    }

    /// The number of levels processed so far; never more than the depth the
    /// crawl was started with.
    pub fn level(&self) -> (level: usize)
        ensures
            level == self@.level,
            level <= self@.max_depth,
    {
        proof {
            use_type_invariant(self);
        }
        self.level
    }

    /// The vertices and the accumulated edge records, as the crawl leaves
    /// them.
    pub fn into_parts(self) -> (parts: (Vec<String>, Vec<EdgeRecord>))
        ensures
            string_views(parts.0@) == self@.vertices,
            record_views(parts.1@) == self@.edges,
            string_views(parts.0@).no_duplicates(),
    {
        proof {
            use_type_invariant(&self);
        }
        let Crawl { vertices, seen: _, frontier_start: _, edges, level: _, max_depth: _ } = self;
        (vertices, edges)
    }
}

/// What `fresh` picks: nothing twice, nothing that was known, nothing that is
/// not among the links; and every link is known or picked.
pub proof fn lemma_fresh(known: Seq<Seq<char>>, links: Seq<Seq<char>>)
    ensures
        fresh(known, links).no_duplicates(),
        forall|id: Seq<char>| #[trigger]
            fresh(known, links).contains(id) <==> links.contains(id) && !known.contains(id),
    decreases links.len(),
{
    let picked = fresh(known, links);
    if links.len() > 0 {
        let shorter = links.drop_last();
        let earlier = fresh(known, shorter);
        let link = links.last();
        lemma_fresh(known, shorter);
        assert(links =~= shorter.push(link));
        assert forall|id: Seq<char>| #[trigger]
            picked.contains(id) <==> links.contains(id) && !known.contains(id) by {
            if links.contains(id) {
                let k = choose|k: int| 0 <= k < links.len() && links[k] == id;
                if k < shorter.len() {
                    assert(shorter[k] == id);
                }
            }
            if shorter.contains(id) {
                let k = choose|k: int| 0 <= k < shorter.len() && shorter[k] == id;
                assert(links[k] == id);
            }
            assert(links[links.len() - 1] == link);
            if known.contains(link) || earlier.contains(link) {
            } else {
                assert(picked =~= earlier.push(link));
                if earlier.contains(id) {
                    let k = choose|k: int| 0 <= k < earlier.len() && earlier[k] == id;
                    assert(picked[k] == id);
                }
                if picked.contains(id) {
                    let k = choose|k: int| 0 <= k < picked.len() && picked[k] == id;
                    if k < earlier.len() {
                        assert(earlier[k] == id);
                    }
                }
                assert(picked[picked.len() - 1] == link);
            }
        }
    }
}

/// A step of the crawl keeps its state valid.
pub proof fn lemma_next_valid(state: CrawlView, records: Seq<RecordView>)
    requires
        state.valid(),
    ensures
        state.next(records).valid(),
{
    if !state.finished() {
        let found = fresh(state.vertices, all_links(records));
        let after = state.next(records);
        lemma_fresh(state.vertices, all_links(records));
        assert(after.vertices.skip(after.vertices.len() - found.len()) =~= found);
        assert forall|i: int, j: int|
            0 <= i < after.vertices.len() && 0 <= j < after.vertices.len() && i != j implies after.vertices[i]
            != after.vertices[j] by {
            let n = state.vertices.len() as int;
            if i >= n {
                assert(found.contains(found[i - n]));
            }
            if j >= n {
                assert(found.contains(found[j - n]));
            }
            if i < n {
                assert(state.vertices.contains(state.vertices[i]));
            }
            if j < n {
                assert(state.vertices.contains(state.vertices[j]));
            }
        }
    }
}

/// Every state that a crawl can reach is valid: whatever the pages held, no
/// identifier stands in the vertex list twice, the frontier is the tail of
/// that list, and the level counter has not passed the depth.
pub proof fn lemma_run_valid(seed: Seq<char>, max_depth: nat, levels: Seq<Seq<RecordView>>)
    ensures
        CrawlView::run(seed, max_depth, levels).valid(),
    decreases levels.len(),
{
    if levels.len() == 0 {
        let s = CrawlView::start(seed, max_depth);
        assert(s.vertices.skip(0) =~= s.frontier);
    } else {
        lemma_run_valid(seed, max_depth, levels.drop_last());
        lemma_next_valid(CrawlView::run(seed, max_depth, levels.drop_last()), levels.last());
    }
}

/// The vertex list only grows: what was a vertex after the first `i` levels
/// is one after the first `j`, for `i <= j`.
pub proof fn lemma_vertices_grow(
    seed: Seq<char>,
    max_depth: nat,
    levels: Seq<Seq<RecordView>>,
    i: int,
    j: int,
)
    requires
        0 <= i <= j <= levels.len(),
    ensures
        CrawlView::run(seed, max_depth, levels.take(i)).vertices.is_prefix_of(
            CrawlView::run(seed, max_depth, levels.take(j)).vertices,
        ),
    decreases j - i,
{
    if i < j {
        lemma_vertices_grow(seed, max_depth, levels, i, j - 1);
        assert(levels.take(j).drop_last() =~= levels.take(j - 1));
    }
}

/// No identifier is queued twice: a frontier that a step of the crawl
/// computes shares no identifier with any frontier before it.
pub proof fn lemma_frontiers_disjoint(
    seed: Seq<char>,
    max_depth: nat,
    levels: Seq<Seq<RecordView>>,
    i: int,
    j: int,
    id: Seq<char>,
)
    requires
        0 <= i < j <= levels.len(),
        !CrawlView::run(seed, max_depth, levels.take(j - 1)).finished(),
    ensures
        !(CrawlView::run(seed, max_depth, levels.take(i)).frontier.contains(id)
            && CrawlView::run(seed, max_depth, levels.take(j)).frontier.contains(id)),
{
    let early = CrawlView::run(seed, max_depth, levels.take(i));
    let prev = CrawlView::run(seed, max_depth, levels.take(j - 1));
    let late = CrawlView::run(seed, max_depth, levels.take(j));
    assert(levels.take(j).drop_last() =~= levels.take(j - 1));
    lemma_run_valid(seed, max_depth, levels.take(i));
    lemma_vertices_grow(seed, max_depth, levels, i, j - 1);
    lemma_fresh(prev.vertices, all_links(levels.take(j).last()));
    if early.frontier.contains(id) {
        let k = choose|k: int| 0 <= k < early.frontier.len() && early.frontier[k] == id;
        let at = early.vertices.len() - early.frontier.len() + k;
        assert(early.vertices[at] == id);
        assert(prev.vertices[at] == id);
        assert(prev.vertices.contains(id));
    }
}

/// The levels of records answer the crawl: the records handed in for each
/// level name as their sources only pages of the frontier of that level.
pub open spec fn answers_frontiers(
    seed: Seq<char>,
    max_depth: nat,
    levels: Seq<Seq<RecordView>>,
) -> bool {
    forall|i: int, k: int|
        0 <= i < levels.len() && 0 <= k < levels[i].len() ==> CrawlView::run(
            seed,
            max_depth,
            levels.take(i),
        ).frontier.contains(#[trigger] levels[i][k].source)
}

/// Where the records answer the frontiers, the source of every accumulated
/// edge record is a vertex.
pub proof fn lemma_sources_are_vertices(
    seed: Seq<char>,
    max_depth: nat,
    levels: Seq<Seq<RecordView>>,
    k: int,
)
    requires
        answers_frontiers(seed, max_depth, levels),
        0 <= k < CrawlView::run(seed, max_depth, levels).edges.len(),
    ensures
        CrawlView::run(seed, max_depth, levels).vertices.contains(
            CrawlView::run(seed, max_depth, levels).edges[k].source,
        ),
    decreases levels.len(),
{
    if levels.len() > 0 {
        let shorter = levels.drop_last();
        let before = CrawlView::run(seed, max_depth, shorter);
        let after = CrawlView::run(seed, max_depth, levels);
        let last = levels.len() - 1;
        assert(levels.take(last) =~= shorter);
        assert forall|i: int, j: int|
            0 <= i < shorter.len() && 0 <= j < shorter[i].len() implies CrawlView::run(
            seed,
            max_depth,
            shorter.take(i),
        ).frontier.contains(#[trigger] shorter[i][j].source) by {
            assert(shorter.take(i) =~= levels.take(i));
            assert(shorter[i] == levels[i]);
        }
        lemma_run_valid(seed, max_depth, shorter);
        if before.finished() {
            lemma_sources_are_vertices(seed, max_depth, shorter, k);
        } else {
            let source = after.edges[k].source;
            if k < before.edges.len() {
                lemma_sources_are_vertices(seed, max_depth, shorter, k);
                assert(before.vertices.contains(source));
            } else {
                let j = k - before.edges.len();
                assert(source == levels[last][j].source);
                assert(before.frontier.contains(source));
                let at = choose|at: int| 0 <= at < before.frontier.len() && before.frontier[at] == source;
                assert(before.vertices[before.vertices.len() - before.frontier.len() + at]
                    == source);
            }
            let at = choose|at: int| 0 <= at < before.vertices.len() && before.vertices[at] == source;
            assert(after.vertices[at] == source);
        }
    }
}

/// The depth bounds the crawl: the level counter never passes the depth nor
/// the number of levels handed in, and once as many levels as the depth have
/// been merged, the crawl is finished and nothing merged after that changes
/// it.
pub proof fn lemma_depth_bound(seed: Seq<char>, max_depth: nat, levels: Seq<Seq<RecordView>>)
    ensures
        CrawlView::run(seed, max_depth, levels).max_depth == max_depth,
        CrawlView::run(seed, max_depth, levels).level <= max_depth,
        CrawlView::run(seed, max_depth, levels).level <= levels.len(),
        CrawlView::run(seed, max_depth, levels).level == levels.len() || CrawlView::run(
            seed,
            max_depth,
            levels,
        ).finished(),
        levels.len() >= max_depth ==> CrawlView::run(seed, max_depth, levels) == CrawlView::run(
            seed,
            max_depth,
            levels.take(max_depth as int),
        ),
    decreases levels.len(),
{
    if levels.len() > 0 {
        lemma_depth_bound(seed, max_depth, levels.drop_last());
        if levels.len() > max_depth {
            assert(levels.drop_last().take(max_depth as int) =~= levels.take(max_depth as int));
        } else {
            assert(levels.take(levels.len() as int) =~= levels);
        }
    } else {
        assert(levels.take(0) =~= levels);
    }
}

/// A crawl of depth zero processes nothing: it is finished from the start,
/// the seed is its only vertex and it has no edge records.
pub proof fn lemma_zero_depth(seed: Seq<char>, levels: Seq<Seq<RecordView>>)
    ensures
        CrawlView::run(seed, 0, levels) == CrawlView::start(seed, 0),
        CrawlView::run(seed, 0, levels).finished(),
        CrawlView::run(seed, 0, levels).vertices == seq![seed],
        CrawlView::run(seed, 0, levels).edges == Seq::<RecordView>::empty(),
    decreases levels.len(),
{
    if levels.len() > 0 {
        lemma_zero_depth(seed, levels.drop_last());
    }
}

} // verus!
