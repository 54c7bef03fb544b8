//! The loaded graph: vertices with a stable numbering, adjacency by index,
//! shortest paths by breadth-first search, and the single-hop lookups.

use crate::crawl::{record_views, EdgeRecord, RecordView};
use crate::search::shortest_walk;
use crate::text::string_views;
use vstd::hash_map::StringHashMap;
use vstd::prelude::*;

verus! {

/// `i` is the first position at which `name` stands in `names`.
pub open spec fn is_first_index(names: Seq<Seq<char>>, name: Seq<char>, i: int) -> bool {
    &&& 0 <= i < names.len()
    &&& names[i] == name
    &&& forall|j: int| 0 <= j < i ==> names[j] != name
}

/// The number of the vertex called `name`: the first position at which the
/// name stands in the vertex list, or `None` where no vertex has that name.
pub open spec fn index_of(names: Seq<Seq<char>>, name: Seq<char>) -> Option<int> {
    if names.contains(name) {
        Some(choose|i: int| is_first_index(names, name, i))
    } else {
        None
    }
}

/// The numbers that a list of machine integers stands for.
pub open spec fn index_views(indices: Seq<usize>) -> Seq<int> {
    Seq::new(indices.len(), |k: int| indices[k] as int)
}

/// The adjacency that a list of lists of machine integers stands for.
pub open spec fn list_views(lists: Seq<Vec<usize>>) -> Seq<Seq<int>> {
    Seq::new(lists.len(), |i: int| index_views(lists[i]@))
}

/// What a graph stands for: the names of its vertices, numbered from zero in
/// the order of the list, and for each vertex the numbers of the vertices
/// that it links to.
pub struct GraphView {
    pub vertices: Seq<Seq<char>>,
    pub children: Seq<Seq<int>>,
}

impl GraphView {
    /// Every vertex has an adjacency list, every number in such a list is
    /// that of a vertex, and no list names a vertex twice.
    pub open spec fn valid(self) -> bool {
        &&& self.children.len() == self.vertices.len()
        &&& forall|i: int, k: int|
            0 <= i < self.children.len() && 0 <= k < self.children[i].len() ==> 0
                <= #[trigger] self.children[i][k] < self.vertices.len()
        &&& forall|i: int|
            0 <= i < self.children.len() ==> (#[trigger] self.children[i]).no_duplicates()
    }

    /// There is an edge from vertex `from` to vertex `to`.
    pub open spec fn has_edge(self, from: int, to: int) -> bool {
        0 <= from < self.children.len() && self.children[from].contains(to)
    }

    /// `walk` is a non-empty list of vertices in which each is linked to the
    /// one after it.
    pub open spec fn is_walk(self, walk: Seq<int>) -> bool {
        &&& walk.len() > 0
        &&& forall|k: int| 0 <= k < walk.len() ==> 0 <= #[trigger] walk[k] < self.vertices.len()
        &&& forall|k: int| 0 <= k < walk.len() - 1 ==> self.has_edge(#[trigger] walk[k], walk[k + 1])
    }

    /// `walk` leads from vertex `from` to vertex `to`.
    pub open spec fn connects(self, walk: Seq<int>, from: int, to: int) -> bool {
        &&& self.is_walk(walk)
        &&& walk[0] == from
        &&& walk[walk.len() - 1] == to
    }

    /// `walk` leads from `from` to `to`, and no walk that does so has fewer
    /// vertices.
    pub open spec fn is_shortest(self, walk: Seq<int>, from: int, to: int) -> bool {
        &&& self.connects(walk, from, to)
        &&& forall|other: Seq<int>| #[trigger]
            self.connects(other, from, to) ==> walk.len() <= other.len()
    }

    /// The names of the vertices of a walk.
    pub open spec fn names_along(self, walk: Seq<int>) -> Seq<Seq<char>> {
        Seq::new(walk.len(), |k: int| self.vertices[walk[k]])
    }

    /// What a path query from `from` to `to` may answer with: the names
    /// along a shortest walk, or nothing where no walk leads there.
    pub open spec fn answers(self, names: Seq<Seq<char>>, from: int, to: int) -> bool {
        if names.len() == 0 {
            forall|walk: Seq<int>| !#[trigger] self.connects(walk, from, to)
        } else {
            exists|walk: Seq<int>| #[trigger]
                self.is_shortest(walk, from, to) && names == self.names_along(walk)
        }
    }

    /// The vertices at most `hops` edges away from `from`, found by
    /// expanding children `hops` times: `from` itself, and with every vertex
    /// found within one hop less, its children.
    pub open spec fn reach(self, from: int, hops: nat) -> Set<int>
        decreases hops,
    {
        if hops == 0 {
            set![from]
        } else {
            let nearer = self.reach(from, (hops - 1) as nat);
            nearer.union(
                Set::new(|v: int| exists|u: int| nearer.contains(u) && self.has_edge(u, v)),
            )
        }
    }

    /// `hops` is the distance from `from` to `to`: the least number of
    /// expansions after which `to` is found.
    pub open spec fn is_distance(self, from: int, to: int, hops: nat) -> bool {
        &&& self.reach(from, hops).contains(to)
        &&& forall|fewer: nat| fewer < hops ==> !#[trigger] self.reach(from, fewer).contains(to)
    }

    /// The vertices with an edge to `to`, in ascending order.
    pub open spec fn parents(self, to: int) -> Seq<int> {
        Seq::new(self.children.len(), |i: int| i).filter(|from: int| self.has_edge(from, to))
    }
}

/// The numbers of those among `links` that are vertex names, each once, in
/// the order in which they are first met. A link that names no vertex is
/// dropped.
pub open spec fn resolve(names: Seq<Seq<char>>, links: Seq<Seq<char>>) -> Seq<int>
    decreases links.len(),
{
    if links.len() == 0 {
        Seq::empty()
    } else {
        let earlier = resolve(names, links.drop_last());
        match index_of(names, links.last()) {
            Some(i) => if earlier.contains(i) {
                earlier
            } else {
                earlier.push(i)
            },
            None => earlier,
        }
    }
}

/// The adjacency that a list of edge records gives to the vertices called
/// `names`: each vertex has the resolved links of the last record whose
/// source it is, and no children where there is no such record.
pub open spec fn adjacency(names: Seq<Seq<char>>, records: Seq<RecordView>) -> Seq<Seq<int>>
    decreases records.len(),
{
    if records.len() == 0 {
        Seq::new(names.len(), |i: int| Seq::<int>::empty())
    } else {
        let earlier = adjacency(names, records.drop_last());
        match index_of(names, records.last().source) {
            Some(i) => earlier.update(i, resolve(names, records.last().links)),
            None => earlier,
        }
    }
}

/// Record `k` is the first whose source is not a vertex name.
pub open spec fn is_first_unknown_source(
    names: Seq<Seq<char>>,
    records: Seq<RecordView>,
    k: int,
) -> bool {
    &&& 0 <= k < records.len()
    &&& index_of(names, records[k].source) is None
    &&& forall|j: int| 0 <= j < k ==> index_of(names, (#[trigger] records[j]).source) is Some
}

/// The graph that a vertex list and a list of edge records stand for.
pub open spec fn graph_of(names: Seq<Seq<char>>, records: Seq<RecordView>) -> GraphView {
    GraphView { vertices: names, children: adjacency(names, records) }
}

/// `index` gives each name that stands in `names` its first position there,
/// and knows no other name.
spec fn indexes(index: Map<Seq<char>, usize>, names: Seq<Seq<char>>) -> bool {
    &&& forall|name: Seq<char>| #[trigger] index.contains_key(name) <==> names.contains(name)
    &&& forall|name: Seq<char>| #[trigger]
        index.contains_key(name) ==> is_first_index(names, name, index[name] as int)
}

/// A record whose source is not the name of any vertex.
#[derive(Debug, Clone, Copy, PartialEq, Eq)]
pub struct UnknownSource {
    /// The position of the record in the list, counted from zero.
    pub record: usize,
}

/// A name that no vertex of the graph has.
#[derive(Debug, Clone, PartialEq, Eq)]
pub struct UnknownVertex {
    pub name: String,
}

/// A name that stands in a list has a first position there.
pub proof fn lemma_index_of(names: Seq<Seq<char>>, name: Seq<char>)
    ensures
        match index_of(names, name) {
            Some(i) => is_first_index(names, name, i),
            None => !names.contains(name),
        },
{
    if names.contains(name) {
        let k = choose|k: int| 0 <= k < names.len() && names[k] == name;
        lemma_first_index_exists(names, name, k);
    }
}

proof fn lemma_first_index_exists(names: Seq<Seq<char>>, name: Seq<char>, k: int)
    requires
        0 <= k < names.len(),
        names[k] == name,
    ensures
        exists|i: int| is_first_index(names, name, i),
    decreases k,
{
    if exists|j: int| 0 <= j < k && names[j] == name {
        let j = choose|j: int| 0 <= j < k && names[j] == name;
        lemma_first_index_exists(names, name, j);
    } else {
        assert(is_first_index(names, name, k));
    }
}

/// What resolving keeps of a list of links, whatever their order: the
/// number of every link that names a vertex, no other number, and none
/// twice.
pub proof fn lemma_resolve(names: Seq<Seq<char>>, links: Seq<Seq<char>>)
    ensures
        resolve(names, links).no_duplicates(),
        forall|i: int| #[trigger]
            resolve(names, links).contains(i) <==> exists|k: int|
                0 <= k < links.len() && index_of(names, #[trigger] links[k]) == Some(i),
        forall|k: int|
            0 <= k < resolve(names, links).len() ==> 0 <= #[trigger] resolve(names, links)[k]
                < names.len(),
    decreases links.len(),
{
    let kept = resolve(names, links);
    if links.len() > 0 {
        let shorter = links.drop_last();
        let earlier = resolve(names, shorter);
        let last = links[links.len() - 1];
        lemma_resolve(names, shorter);
        lemma_index_of(names, last);
        assert forall|i: int| #[trigger]
            kept.contains(i) <==> exists|k: int|
                0 <= k < links.len() && index_of(names, #[trigger] links[k]) == Some(i) by {
            if earlier.contains(i) {
                let k = choose|k: int|
                    0 <= k < shorter.len() && index_of(names, #[trigger] shorter[k]) == Some(i);
                assert(links[k] == shorter[k]);
                let at = choose|at: int| 0 <= at < earlier.len() && earlier[at] == i;
                assert(kept[at] == i);
            }
            if exists|k: int|
                0 <= k < links.len() && index_of(names, #[trigger] links[k]) == Some(i) {
                let k = choose|k: int|
                    0 <= k < links.len() && index_of(names, #[trigger] links[k]) == Some(i);
                if k < shorter.len() {
                    assert(shorter[k] == links[k]);
                    assert(earlier.contains(i));
                } else {
                    if !earlier.contains(i) {
                        assert(kept == earlier.push(i));
                        assert(kept[kept.len() - 1] == i);
                    }
                }
            }
            if kept.contains(i) && !earlier.contains(i) {
                let at = choose|at: int| 0 <= at < kept.len() && kept[at] == i;
                if at < earlier.len() {
                    assert(earlier[at] == i);
                }
                assert(index_of(names, links[links.len() - 1]) == Some(i));
            }
        }
        assert forall|a: int, b: int| 0 <= a < kept.len() && 0 <= b < kept.len() && a
            != b implies kept[a] != kept[b] by {
            if a < earlier.len() {
                assert(earlier.contains(earlier[a]));
            }
            if b < earlier.len() {
                assert(earlier.contains(earlier[b]));
            }
        }
    }
}

/// The first position of a name is the number `index_of` gives.
pub proof fn lemma_index_of_is(names: Seq<Seq<char>>, name: Seq<char>, i: int)
    requires
        is_first_index(names, name, i),
    ensures
        index_of(names, name) == Some(i),
{
    lemma_index_of(names, name);
    assert(names.contains(name));
}

/// The end of a walk of at most `hops` edges is found within `hops`
/// expansions.
pub proof fn lemma_walk_in_reach(g: GraphView, walk: Seq<int>, from: int, hops: nat)
    requires
        g.is_walk(walk),
        walk[0] == from,
        walk.len() <= hops + 1,
    ensures
        g.reach(from, hops).contains(walk[walk.len() - 1]),
    decreases hops,
{
    if hops > 0 {
        let nearer = g.reach(from, (hops - 1) as nat);
        if walk.len() <= hops {
            lemma_walk_in_reach(g, walk, from, (hops - 1) as nat);
        } else {
            let shorter = walk.drop_last();
            assert(g.is_walk(shorter)) by {
                assert forall|k: int| 0 <= k < shorter.len() - 1 implies g.has_edge(
                    #[trigger] shorter[k],
                    shorter[k + 1],
                ) by {
                    assert(g.has_edge(walk[k], walk[k + 1]));
                }
                assert forall|k: int| 0 <= k < shorter.len() implies 0 <= #[trigger] shorter[k]
                    < g.vertices.len() by {
                    assert(0 <= walk[k] < g.vertices.len());
                }
            }
            lemma_walk_in_reach(g, shorter, from, (hops - 1) as nat);
            let u = walk[walk.len() - 2];
            assert(shorter[shorter.len() - 1] == u);
            assert(g.has_edge(walk[walk.len() - 2], walk[walk.len() - 2 + 1]));
            assert(nearer.contains(u) && g.has_edge(u, walk[walk.len() - 1]));
        }
    }
}

/// A vertex found within `hops` expansions is the end of a walk of at most
/// `hops` edges.
pub proof fn lemma_reach_has_walk(g: GraphView, from: int, hops: nat, to: int)
    requires
        g.valid(),
        0 <= from < g.vertices.len(),
        g.reach(from, hops).contains(to),
    ensures
        exists|walk: Seq<int>| #[trigger] g.connects(walk, from, to) && walk.len() <= hops + 1,
    decreases hops,
{
    if hops == 0 {
        let walk = seq![from];
        assert(g.connects(walk, from, to));
    } else {
        let nearer = g.reach(from, (hops - 1) as nat);
        if nearer.contains(to) {
            lemma_reach_has_walk(g, from, (hops - 1) as nat, to);
            let walk = choose|walk: Seq<int>| #[trigger]
                g.connects(walk, from, to) && walk.len() <= hops;
            assert(g.connects(walk, from, to) && walk.len() <= hops + 1);
        } else {
            let u = choose|u: int| nearer.contains(u) && g.has_edge(u, to);
            lemma_reach_has_walk(g, from, (hops - 1) as nat, u);
            let shorter = choose|walk: Seq<int>| #[trigger]
                g.connects(walk, from, u) && walk.len() <= hops;
            let walk = shorter.push(to);
            let at = choose|at: int| 0 <= at < g.children[u].len() && g.children[u][at] == to;
            assert(0 <= g.children[u][at] < g.vertices.len());
            assert(g.is_walk(walk)) by {
                assert forall|k: int| 0 <= k < walk.len() - 1 implies g.has_edge(
                    #[trigger] walk[k],
                    walk[k + 1],
                ) by {
                    if k < shorter.len() - 1 {
                        assert(g.has_edge(shorter[k], shorter[k + 1]));
                    }
                }
                assert forall|k: int| 0 <= k < walk.len() implies 0 <= #[trigger] walk[k]
                    < g.vertices.len() by {
                    if k < shorter.len() {
                        assert(0 <= shorter[k] < g.vertices.len());
                    }
                }
            }
            assert(g.connects(walk, from, to) && walk.len() <= hops + 1);
        }
    }
}

/// The length of a shortest walk is the breadth-first distance: a shortest
/// walk from `from` to `to` has exactly as many edges as it takes expansions
/// of children, starting at `from`, to find `to`.
pub proof fn lemma_shortest_is_distance(g: GraphView, walk: Seq<int>, from: int, to: int)
    requires
        g.valid(),
        g.is_shortest(walk, from, to),
    ensures
        g.is_distance(from, to, (walk.len() - 1) as nat),
{
    let hops = (walk.len() - 1) as nat;
    lemma_walk_in_reach(g, walk, from, hops);
    assert(0 <= walk[0] < g.vertices.len());
    assert forall|fewer: nat| fewer < hops implies !#[trigger] g.reach(from, fewer).contains(
        to,
    ) by {
        if g.reach(from, fewer).contains(to) {
            lemma_reach_has_walk(g, from, fewer, to);
            let other = choose|other: Seq<int>| #[trigger]
                g.connects(other, from, to) && other.len() <= fewer + 1;
            assert(g.connects(other, from, to));
        }
    }
}

/// The length of the answer to a path query is the breadth-first distance:
/// a path that is not empty has exactly as many edges as it takes expansions
/// of children, starting at the first vertex, to find the last; and where
/// the answer is empty, no number of expansions finds it.
pub proof fn lemma_path_length_is_distance(
    g: GraphView,
    names: Seq<Seq<char>>,
    from: int,
    to: int,
    hops: nat,
)
    requires
        g.valid(),
        0 <= from < g.vertices.len(),
        g.answers(names, from, to),
    ensures
        names.len() > 0 ==> g.is_distance(from, to, (names.len() - 1) as nat),
        names.len() == 0 ==> !g.reach(from, hops).contains(to),
{
    if names.len() > 0 {
        let walk = choose|walk: Seq<int>| #[trigger]
            g.is_shortest(walk, from, to) && names == g.names_along(walk);
        lemma_shortest_is_distance(g, walk, from, to);
    } else {
        lemma_unconnected_is_unreachable(g, from, to, hops);
    }
}

/// Where no walk leads from `from` to `to`, no number of expansions finds
/// `to`.
pub proof fn lemma_unconnected_is_unreachable(g: GraphView, from: int, to: int, hops: nat)
    requires
        g.valid(),
        0 <= from < g.vertices.len(),
        forall|walk: Seq<int>| !#[trigger] g.connects(walk, from, to),
    ensures
        !g.reach(from, hops).contains(to),
{
    if g.reach(from, hops).contains(to) {
        lemma_reach_has_walk(g, from, hops, to);
    }
}

/// A graph held in memory: the vertex names in the order of their numbers,
/// the number of each name, and for each vertex the numbers of its children.
pub struct Graph {
    vertices: Vec<String>,
    index: StringHashMap<usize>,
    edges: Vec<Vec<usize>>,
}

impl View for Graph {
    type V = GraphView;

    closed spec fn view(&self) -> GraphView {
        GraphView {
            vertices: string_views(self.vertices@),
            children: list_views(self.edges@),
        }
    }
}

/// A copy of `list`.
pub(crate) fn copied(list: &Vec<usize>) -> (copy: Vec<usize>)
    ensures
        copy@ == list@,
{
    let mut copy: Vec<usize> = Vec::new();
    let mut k: usize = 0;
    while k < list.len()
        invariant
            k <= list.len(),
            copy@ == list@.take(k as int),
        decreases list.len() - k,
    {
        copy.push(list[k]);
        proof {
            assert(list@.take(k + 1) =~= list@.take(k as int).push(list@[k as int]));
        }
        k += 1;
    }
    proof {
        assert(list@.take(k as int) =~= list@);
    }
    copy
}

/// Whether `v` stands in `list`.
fn holds(list: &Vec<usize>, v: usize) -> (found: bool)
    ensures
        found == index_views(list@).contains(v as int),
{
    let mut k: usize = 0;
    while k < list.len()
        invariant
            k <= list.len(),
            forall|j: int| 0 <= j < k ==> list[j] != v,
        decreases list.len() - k,
    {
        if list[k] == v {
            proof {
                assert(index_views(list@)[k as int] == v as int);
            }
            return true;
        }
        k += 1;
    }
    false
}

/// The index that gives each name its first position in `vertices`.
fn build_index(vertices: &Vec<String>) -> (index: StringHashMap<usize>)
    ensures
        indexes(index@, string_views(vertices@)),
{
    let ghost names = string_views(vertices@);
    let mut index: StringHashMap<usize> = StringHashMap::new();
    let mut i: usize = 0;
    while i < vertices.len()
        invariant
            i <= vertices.len(),
            names == string_views(vertices@),
            forall|name: Seq<char>| #[trigger]
                index@.contains_key(name) <==> names.take(i as int).contains(name),
            forall|name: Seq<char>| #[trigger]
                index@.contains_key(name) ==> is_first_index(names, name, index@[name] as int),
        decreases vertices.len() - i,
    {
        let ghost before = index@;
        let ghost name_i = names[i as int];
        if !index.contains_key(vertices[i].as_str()) {
            index.insert(vertices[i].clone(), i);
            proof {
                assert(is_first_index(names, name_i, i as int)) by {
                    assert forall|j: int| 0 <= j < i implies names[j] != name_i by {
                        if names[j] == name_i {
                            assert(names.take(i as int)[j] == name_i);
                            assert(names.take(i as int).contains(name_i));
                        }
                    }
                }
            }
        }
        proof {
            let shorter = names.take(i as int);
            let longer = names.take(i + 1);
            assert(longer =~= shorter.push(name_i));
            assert forall|name: Seq<char>| #[trigger]
                index@.contains_key(name) <==> longer.contains(name) by {
                if shorter.contains(name) {
                    let j = choose|j: int| 0 <= j < shorter.len() && shorter[j] == name;
                    assert(longer[j] == name);
                }
                if longer.contains(name) {
                    let j = choose|j: int| 0 <= j < longer.len() && longer[j] == name;
                    if j < i {
                        assert(shorter[j] == name);
                    }
                }
                assert(longer[i as int] == name_i);
            }
        }
        i += 1;
    }
    proof {
        assert(names.take(i as int) =~= names);
    }
    index
}

/// The numbers of those among `links` that are vertex names, each once.
/// `marks` serves to tell in constant time whether a number has been taken;
/// it is all `false` before and after.
fn resolve_links(
    index: &StringHashMap<usize>,
    links: &Vec<String>,
    marks: &mut Vec<bool>,
    Ghost(names): Ghost<Seq<Seq<char>>>,
) -> (children: Vec<usize>)
    requires
        indexes(index@, names),
        old(marks).len() == names.len(),
        forall|v: int| 0 <= v < old(marks).len() ==> !old(marks)[v],
    ensures
        index_views(children@) == resolve(names, string_views(links@)),
        index_views(children@).no_duplicates(),
        forall|k: int| 0 <= k < children.len() ==> children[k] < names.len(),
        final(marks).len() == names.len(),
        forall|v: int| 0 <= v < final(marks).len() ==> !final(marks)[v],
{
    let ghost link_names = string_views(links@);
    let mut children: Vec<usize> = Vec::new();
    let mut k: usize = 0;
    proof {
        assert(index_views(children@) =~= resolve(names, link_names.take(0)));
    }
    while k < links.len()
        invariant
            k <= links.len(),
            indexes(index@, names),
            link_names == string_views(links@),
            marks.len() == names.len(),
            index_views(children@) == resolve(names, link_names.take(k as int)),
            index_views(children@).no_duplicates(),
            forall|j: int| 0 <= j < children.len() ==> children[j] < names.len(),
            forall|v: int|
                0 <= v < marks.len() ==> (#[trigger] marks[v] <==> index_views(children@).contains(
                    v,
                )),
        decreases links.len() - k,
    {
        let ghost earlier = index_views(children@);
        proof {
            assert(link_names.take(k + 1).drop_last() =~= link_names.take(k as int));
            assert(link_names.take(k + 1).last() == links@[k as int]@);
            lemma_index_of(names, links@[k as int]@);
        }
        match index.get(links[k].as_str()) {
            Some(found) => {
                let i: usize = *found;
                proof {
                    lemma_index_of_is(names, links@[k as int]@, i as int);
                }
                if !marks[i] {
                    marks[i] = true;
                    children.push(i);
                    proof {
                        assert(index_views(children@) =~= earlier.push(i as int));
                        assert forall|v: int| 0 <= v < marks.len() implies (#[trigger] marks[v]
                            <==> index_views(children@).contains(v)) by {
                            if earlier.contains(v) {
                                let w = choose|w: int| 0 <= w < earlier.len() && earlier[w] == v;
                                assert(index_views(children@)[w] == v);
                            }
                            if index_views(children@).contains(v) && v != i {
                                let w = choose|w: int|
                                    0 <= w < index_views(children@).len() && index_views(
                                        children@,
                                    )[w] == v;
                                assert(earlier[w] == v);
                            }
                            assert(index_views(children@)[children.len() - 1] == i);
                        }
                        assert forall|a: int, b: int|
                            0 <= a < children.len() && 0 <= b < children.len() && a
                                != b implies index_views(children@)[a] != index_views(
                            children@,
                        )[b] by {
                            if a < earlier.len() {
                                assert(earlier.contains(earlier[a]));
                            }
                            if b < earlier.len() {
                                assert(earlier.contains(earlier[b]));
                            }
                        }
                    }
                }
            },
            None => {},
        }
        k += 1;
    }
    proof {
        assert(link_names.take(k as int) =~= link_names);
    }
    let ghost taken = index_views(children@);
    let mut c: usize = 0;
    proof {
        assert(taken.skip(0) =~= taken);
    }
    while c < children.len()
        invariant
            c <= children.len(),
            marks.len() == names.len(),
            taken == index_views(children@),
            taken.no_duplicates(),
            forall|j: int| 0 <= j < children.len() ==> children[j] < names.len(),
            forall|v: int|
                0 <= v < marks.len() ==> (#[trigger] marks[v] <==> taken.skip(c as int).contains(v)),
        decreases children.len() - c,
    {
        let ghost before = marks@;
        let ghost rest = taken.skip(c as int);
        let ghost later = taken.skip(c + 1);
        marks[children[c]] = false;
        proof {
            assert forall|v: int| 0 <= v < marks.len() implies (#[trigger] marks[v]
                <==> later.contains(v)) by {
                if later.contains(v) {
                    let w = choose|w: int| 0 <= w < later.len() && later[w] == v;
                    assert(rest[w + 1] == v);
                    assert(taken[c + 1 + w] == v);
                    assert(taken[c as int] == children[c as int]);
                }
                if rest.contains(v) && v != children[c as int] {
                    let w = choose|w: int| 0 <= w < rest.len() && rest[w] == v;
                    assert(rest[0] == children[c as int]);
                    assert(later[w - 1] == v);
                }
            }
        }
        c += 1;
    }
    children
}

impl Graph {
    #[verifier::type_invariant]
    spec fn inv(&self) -> bool {
        &&& self@.valid()
        &&& indexes(self.index@, string_views(self.vertices@))
    }

    /// The graph of the given vertices and edge records. The vertices are
    /// numbered in the order of the list; of two vertices with one name the
    /// first answers to it. Each record gives its source the links that name
    /// a vertex as children, a later record for the same source replacing an
    /// earlier one. A record whose source is no vertex is an error, and the
    /// first such record is reported.
    pub fn new(vertices: Vec<String>, records: &Vec<EdgeRecord>) -> (result: Result<
        Graph,
        UnknownSource,
    >)
        ensures
            match result {
                Ok(graph) => {
                    &&& graph@ == graph_of(string_views(vertices@), record_views(records@))
                    &&& graph@.valid()
                    &&& forall|k: int|
                        0 <= k < records.len() ==> index_of(
                            string_views(vertices@),
                            (#[trigger] record_views(records@)[k]).source,
                        ) is Some
                },
                Err(unknown) => is_first_unknown_source(
                    string_views(vertices@),
                    record_views(records@),
                    unknown.record as int,
                ),
            },
    {
        let ghost names = string_views(vertices@);
        let ghost views = record_views(records@);
        let n: usize = vertices.len();
        let index = build_index(&vertices);
        let mut edges: Vec<Vec<usize>> = Vec::new();
        let mut marks: Vec<bool> = Vec::new();
        let mut v: usize = 0;
        while v < n
            invariant
                v <= n,
                edges.len() == v,
                marks.len() == v,
                forall|i: int| 0 <= i < v ==> (#[trigger] edges[i])@.len() == 0,
                forall|i: int| 0 <= i < v ==> !marks[i],
            decreases n - v,
        {
            edges.push(Vec::new());
            marks.push(false);
            v += 1;
        }
        let mut k: usize = 0;
        proof {
            let lists = list_views(edges@);
            assert forall|i: int| 0 <= i < lists.len() implies lists[i] == Seq::<int>::empty() by {
                assert(edges[i]@.len() == 0);
                assert(index_views(edges@[i]@) =~= Seq::<int>::empty());
            }
            assert(lists =~= adjacency(names, views.take(0)));
        }
        while k < records.len()
            invariant
                k <= records.len(),
                n == names.len(),
                names == string_views(vertices@),
                views == record_views(records@),
                indexes(index@, names),
                edges.len() == n,
                marks.len() == n,
                forall|i: int| 0 <= i < n ==> !marks[i],
                list_views(edges@) == adjacency(
                    names,
                    views.take(k as int),
                ),
                forall|i: int, j: int|
                    0 <= i < n && 0 <= j < edges[i].len() ==> #[trigger] edges[i][j] < n,
                forall|i: int| 0 <= i < n ==> index_views((#[trigger] edges[i])@).no_duplicates(),
                forall|j: int| 0 <= j < k ==> index_of(names, (#[trigger] views[j]).source) is Some,
            decreases records.len() - k,
        {
            proof {
                assert(views.take(k + 1).drop_last() =~= views.take(k as int));
                assert(views.take(k + 1).last() == views[k as int]);
                assert(views[k as int].source == records[k as int].source@);
                lemma_index_of(names, records[k as int].source@);
            }
            match index.get(records[k].source.as_str()) {
                Some(found) => {
                    let source: usize = *found;
                    proof {
                        lemma_index_of_is(names, records[k as int].source@, source as int);
                    }
                    let children = resolve_links(&index, &records[k].links, &mut marks, Ghost(names));
                    let ghost before = list_views(edges@);
                    edges[source] = children;
                    proof {
                        assert(list_views(edges@)
                            =~= before.update(source as int, index_views(children@)));
                    }
                },
                None => {
                    return Err(UnknownSource { record: k });
                },
            }
            k += 1;
        }
        proof {
            assert(views.take(k as int) =~= views);
            let children = list_views(edges@);
            assert forall|i: int, j: int|
                0 <= i < children.len() && 0 <= j < children[i].len() implies 0
                <= #[trigger] children[i][j] < names.len() by {
                assert(edges[i][j] < n);
            }
            assert forall|i: int| 0 <= i < children.len() implies (
            #[trigger] children[i]).no_duplicates() by {
                assert(index_views(edges[i]@).no_duplicates());
            }
        }
        Ok(Graph { vertices, index, edges })
    }

    /// Whether a vertex is called `name`.
    pub fn contains(&self, name: &str) -> (known: bool)
        ensures
            known == self@.vertices.contains(name@),
    {
        proof {
            use_type_invariant(self);
        }
        self.index.contains_key(name)
    }

    /// The names of the vertices, in the order of their numbers.
    pub fn vertices(&self) -> (vertices: &Vec<String>)
        ensures
            string_views(vertices@) == self@.vertices,
    {
        &self.vertices
    }

    /// For each vertex, by its number, the numbers of its children.
    pub fn adjacency(&self) -> (lists: &Vec<Vec<usize>>)
        ensures
            self@.valid(),
            lists.len() == self@.children.len(),
            forall|i: int|
                0 <= i < lists.len() ==> index_views((#[trigger] lists[i])@) == self@.children[i],
    {
        proof {
            use_type_invariant(self);
        }
        &self.edges
    }

    /// The direct out-neighbours of the vertex called `name`, by their
    /// numbers, or the name where no vertex has it.
    pub fn get_children(&self, name: &str) -> (result: Result<Vec<usize>, UnknownVertex>)
        ensures
            self@.valid(),
            match result {
                Ok(children) => {
                    &&& index_of(self@.vertices, name@) is Some
                    &&& index_views(children@) == self@.children[index_of(self@.vertices, name@)->0]
                },
                Err(unknown) => index_of(self@.vertices, name@) is None && unknown.name@ == name@,
            },
    {
        proof {
            use_type_invariant(self);
        }
        match self.lookup(name) {
            Some(i) => Ok(copied(&self.edges[i])),
            None => Err(UnknownVertex { name: name.to_owned() }),
        }
    }

    /// The vertices with an edge to the vertex called `name`, by their
    /// numbers in ascending order, or the name where no vertex has it. Every
    /// adjacency list is scanned.
    pub fn get_parents(&self, name: &str) -> (result: Result<Vec<usize>, UnknownVertex>)
        ensures
            self@.valid(),
            match result {
                Ok(parents) => {
                    &&& index_of(self@.vertices, name@) is Some
                    &&& index_views(parents@) == self@.parents(index_of(self@.vertices, name@)->0)
                },
                Err(unknown) => index_of(self@.vertices, name@) is None && unknown.name@ == name@,
            },
    {
        proof {
            use_type_invariant(self);
        }
        let to = match self.lookup(name) {
            Some(i) => i,
            None => {
                return Err(UnknownVertex { name: name.to_owned() });
            },
        };
        let ghost g = self@;
        let ghost numbers = Seq::new(g.children.len(), |i: int| i);
        let ghost into = |from: int| g.has_edge(from, to as int);
        let mut parents: Vec<usize> = Vec::new();
        let mut from: usize = 0;
        proof {
            assert(numbers.take(0) =~= Seq::<int>::empty());
            assert(numbers.take(0).filter(into) =~= Seq::<int>::empty()) by {
                reveal(Seq::filter);
            }
            assert(index_views(parents@) =~= Seq::<int>::empty());
        }
        while from < self.edges.len()
            invariant
                from <= self.edges.len(),
                g == self@,
                numbers == Seq::new(g.children.len(), |i: int| i),
                into == |from: int| g.has_edge(from, to as int),
                index_views(parents@) == numbers.take(from as int).filter(into),
            decreases self.edges.len() - from,
        {
            let ghost earlier = index_views(parents@);
            proof {
                assert(numbers.take(from + 1) =~= numbers.take(from as int).push(from as int));
                numbers.take(from as int).lemma_filter_push(from as int, into);
                assert(g.children[from as int] == index_views(self.edges@[from as int]@));
            }
            if holds(&self.edges[from], to) {
                parents.push(from);
                proof {
                    assert(index_views(parents@) =~= earlier.push(from as int));
                }
            }
            from += 1;
        }
        proof {
            assert(numbers.take(from as int) =~= numbers);
        }
        Ok(parents)
    }

    /// The number of the vertex called `name`.
    fn lookup(&self, name: &str) -> (found: Option<usize>)
        ensures
            self@.valid(),
            match found {
                Some(i) => index_of(self@.vertices, name@) == Some(i as int) && i
                    < self@.vertices.len(),
                None => index_of(self@.vertices, name@).is_none(),
            },
    {
        proof {
            use_type_invariant(self);
            lemma_index_of(self@.vertices, name@);
        }
        match self.index.get(name) {
            Some(i) => {
                proof {
                    lemma_index_of_is(self@.vertices, name@, *i as int);
                }
                Some(*i)
            },
            None => None,
        }
    }

    /// The names of the vertices of `walk`.
    fn names_of(&self, walk: &Vec<usize>) -> (names: Vec<String>)
        requires
            forall|k: int| 0 <= k < walk.len() ==> walk[k] < self@.vertices.len(),
        ensures
            string_views(names@) == self@.names_along(index_views(walk@)),
    {
        let mut names: Vec<String> = Vec::new();
        let mut k: usize = 0;
        proof {
            assert(string_views(names@) =~= self@.names_along(index_views(walk@)).take(0));
        }
        while k < walk.len()
            invariant
                k <= walk.len(),
                forall|k: int| 0 <= k < walk.len() ==> walk[k] < self@.vertices.len(),
                string_views(names@) == self@.names_along(index_views(walk@)).take(k as int),
            decreases walk.len() - k,
        {
            let ghost earlier = string_views(names@);
            names.push(self.vertices[walk[k]].clone());
            proof {
                let along = self@.names_along(index_views(walk@));
                assert(string_views(names@) =~= earlier.push(along[k as int]));
                assert(along.take(k + 1) =~= along.take(k as int).push(along[k as int]));
            }
            k += 1;
        }
        proof {
            let along = self@.names_along(index_views(walk@));
            assert(along.take(k as int) =~= along);
        }
        names
    }

    /// A shortest path from the vertex called `start` to the one called
    /// `end`, as the names of the vertices along it, both ends included; the
    /// empty list where no path leads from the one to the other. A name that
    /// no vertex has is reported as such, `start` before `end`.
    pub fn path(&self, start: &str, end: &str) -> (result: Result<Vec<String>, UnknownVertex>)
        ensures
            self@.valid(),
            match result {
                Ok(names) => {
                    &&& index_of(self@.vertices, start@) is Some
                    &&& index_of(self@.vertices, end@) is Some
                    &&& self@.answers(
                        string_views(names@),
                        index_of(self@.vertices, start@)->0,
                        index_of(self@.vertices, end@)->0,
                    )
                },
                Err(unknown) => if index_of(self@.vertices, start@) is None {
                    unknown.name@ == start@
                } else {
                    index_of(self@.vertices, end@) is None && unknown.name@ == end@
                },
            },
    {
        let from = match self.lookup(start) {
            Some(i) => i,
            None => {
                return Err(UnknownVertex { name: start.to_owned() });
            },
        };
        let to = match self.lookup(end) {
            Some(i) => i,
            None => {
                return Err(UnknownVertex { name: end.to_owned() });
            },
        };
        proof {
            use_type_invariant(self);
        }
        match shortest_walk(&self.edges, from, to, Ghost(self@)) {
            Some(walk) => {
                proof {
                    let steps = index_views(walk@);
                    assert forall|k: int| 0 <= k < walk.len() implies walk[k]
                        < self@.vertices.len() by {
                        assert(0 <= steps[k] < self@.vertices.len());
                    }
                }
                Ok(self.names_of(&walk))
            },
            None => {
                let names: Vec<String> = Vec::new();
                proof {
                    assert(string_views(names@).len() == 0);
                }
                Ok(names)
            },
        }
    }
}

} // verus!
