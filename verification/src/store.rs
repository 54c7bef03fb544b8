//! The text format in which a crawled graph is kept: one text with a vertex
//! name on each line and one with an edge record on each line, written as
//! `source: link, link, ...`. Rendering and parsing are functions on text;
//! reading and writing the two files is left to the caller.

use crate::crawl::{record_views, EdgeRecord, RecordView};
use crate::graph::{graph_of, index_of, is_first_unknown_source, Graph};
use crate::text::{
    after, after_slice, before, before_slice, find, join, join_strings, lemma_first_occurrence_behind,
    lemma_first_occurrence_is, lemma_join_lacks, lemma_no_occurrence, lemma_single_occurs,
    lemma_split_join, occurs, occurs_at, slice_views, split, split_slices, string_views, to_chars,
    to_string, to_strings, unbordered,
};
use vstd::prelude::*;
use vstd::string::StringExecFns;

verus! {

/// The text that ends a line.
pub open spec fn newline() -> Seq<char> {
    "\n"@
}

/// The text between the source of an edge record and its links.
pub open spec fn source_separator() -> Seq<char> {
    ": "@
}

/// The text between two links of an edge record.
pub open spec fn link_separator() -> Seq<char> {
    ", "@
}

/// The vertex text: the names, one on each line, with no line end behind the
/// last.
pub open spec fn vertices_text(names: Seq<Seq<char>>) -> Seq<char> {
    join(names, newline())
}

/// The line of one edge record: the source, the separator, and the links
/// with the link separator between them. A record without links ends with
/// the source separator.
pub open spec fn edge_line(record: RecordView) -> Seq<char> {
    record.source + source_separator() + join(record.links, link_separator())
}

/// The lines of a list of edge records.
pub open spec fn edge_lines(records: Seq<RecordView>) -> Seq<Seq<char>> {
    Seq::new(records.len(), |k: int| edge_line(records[k]))
}

/// The edge text: the lines of the records, with no line end behind the
/// last.
pub open spec fn edges_text(records: Seq<RecordView>) -> Seq<char> {
    join(edge_lines(records), newline())
}

/// The vertex names that a vertex text holds: the stretches between its line
/// ends. The empty text holds one vertex, with the empty name.
pub open spec fn parsed_vertices(text: Seq<char>) -> Seq<Seq<char>> {
    split(text, newline())
}

/// The lines of an edge text: the stretches between its line ends, without
/// the last stretch where that is empty. The empty text has no lines.
pub open spec fn lines(text: Seq<char>) -> Seq<Seq<char>> {
    let pieces = split(text, newline());
    if pieces.last().len() == 0 {
        pieces.drop_last()
    } else {
        pieces
    }
}

/// The links that the part of a line behind the source separator holds. An
/// empty part holds no link.
pub open spec fn parsed_links(text: Seq<char>) -> Seq<Seq<char>> {
    if text.len() == 0 {
        Seq::empty()
    } else {
        split(text, link_separator())
    }
}

/// The line holds the source separator, so that it can be read as a record.
pub open spec fn has_separator(line: Seq<char>) -> bool {
    occurs(line, source_separator())
}

/// The record that a line with a source separator stands for: the source is
/// what stands in front of the first separator, the links are read from all
/// that stands behind it.
pub open spec fn parsed_line(line: Seq<char>) -> RecordView {
    RecordView {
        source: before(line, source_separator()),
        links: parsed_links(after(line, source_separator())),
    }
}

/// The records that a list of lines stands for.
pub open spec fn parsed_records(lines: Seq<Seq<char>>) -> Seq<RecordView> {
    Seq::new(lines.len(), |k: int| parsed_line(lines[k]))
}

/// Line `k` is the first without a source separator.
pub open spec fn is_first_bad_line(lines: Seq<Seq<char>>, k: int) -> bool {
    &&& 0 <= k < lines.len()
    &&& !has_separator(lines[k])
    &&& forall|j: int| 0 <= j < k ==> has_separator(#[trigger] lines[j])
}

/// The directory that the graph crawled from `seed` is kept in: `data/` and
/// the seed, with an underscore for each slash in it.
pub open spec fn directory_of(seed: Seq<char>) -> Seq<char> {
    "data/"@ + Seq::new(seed.len(), |k: int| if seed[k] == '/' { '_' } else { seed[k] })
}

/// Why a stored graph could not be loaded. Lines and records are counted
/// from zero.
#[derive(Debug, Clone, Copy, PartialEq, Eq)]
pub enum LoadError {
    /// A line of the edge text lacks the separator behind the source.
    MissingSeparator { line: usize },
    /// The source of an edge record is not in the vertex text.
    UnknownSource { line: usize },
}

/// The vertex text for `vertices`.
pub fn render_vertices(vertices: &Vec<String>) -> (text: String)
    ensures
        text@ == vertices_text(string_views(vertices@)),
{
    join_strings(vertices, "\n")
}

/// The line for one edge record.
pub fn render_edge(record: &EdgeRecord) -> (line: String)
    ensures
        line@ == edge_line(record@),
{
    let mut line = record.source.clone();
    line.append(": ");
    let links = join_strings(&record.links, ", ");
    line.append(links.as_str());
    line
}

/// The edge text for `records`.
pub fn render_edges(records: &Vec<EdgeRecord>) -> (text: String)
    ensures
        text@ == edges_text(record_views(records@)),
{
    let ghost views = record_views(records@);
    let mut rendered: Vec<String> = Vec::new();
    let mut k: usize = 0;
    while k < records.len()
        invariant
            k <= records.len(),
            views == record_views(records@),
            string_views(rendered@) == edge_lines(views).take(k as int),
        decreases records.len() - k,
    {
        let ghost earlier = string_views(rendered@);
        rendered.push(render_edge(&records[k]));
        proof {
            let line = edge_line(views[k as int]);
            assert(string_views(rendered@) =~= earlier.push(line));
            assert(edge_lines(views).take(k + 1) =~= earlier.push(line));
        }
        k += 1;
    }
    proof {
        assert(edge_lines(views).take(k as int) =~= edge_lines(views));
    }
    join_strings(&rendered, "\n")
}

/// The directory name for the graph crawled from `seed`.
pub fn directory_name(seed: &str) -> (name: String)
    ensures
        name@ == directory_of(seed@),
{
    let chars = to_chars(seed);
    let mut name = String::new();
    name.append("data/");
    let ghost replaced = Seq::new(seed@.len(), |k: int| if seed@[k] == '/' { '_' } else { seed@[k] });
    let mut k: usize = 0;
    proof {
        assert("data/"@ + replaced.take(0) =~= "data/"@);
    }
    while k < chars.len()
        invariant
            k <= chars.len(),
            chars@ == seed@,
            replaced == Seq::new(
                seed@.len(),
                |k: int| if seed@[k] == '/' { '_' } else { seed@[k] },
            ),
            name@ == "data/"@ + replaced.take(k as int),
        decreases chars.len() - k,
    {
        let c = chars[k];
        proof {
            assert(replaced.take(k + 1) =~= replaced.take(k as int).push(replaced[k as int]));
            assert(("data/"@ + replaced.take(k as int)).push(replaced[k as int]) =~= "data/"@
                + replaced.take(k + 1));
        }
        if c == '/' {
            name.push('_');
        } else {
            name.push(c);
        }
        k += 1;
    }
    proof {
        assert(replaced.take(k as int) =~= replaced);
    }
    name
}

/// The vertex names that a vertex text holds.
pub fn parse_vertices(text: &str) -> (vertices: Vec<String>)
    ensures
        string_views(vertices@) == parsed_vertices(text@),
{
    let chars = to_chars(text);
    let line_end = to_chars("\n");
    let pieces = split_slices(chars.as_slice(), line_end.as_slice());
    to_strings(&pieces)
}

/// The record that one line of the edge text stands for, or `None` where
/// the line has no source separator.
pub fn parse_line(line: &[char]) -> (record: Option<EdgeRecord>)
    ensures
        match record {
            Some(r) => has_separator(line@) && r@ == parsed_line(line@),
            None => !has_separator(line@),
        },
{
    let separator = to_chars(": ");
    let comma = to_chars(", ");
    if find(line, separator.as_slice()).is_none() {
        return None;
    }
    let source = to_string(before_slice(line, separator.as_slice()));
    let rest = after_slice(line, separator.as_slice());
    let links = if rest.len() == 0 {
        let none: Vec<String> = Vec::new();
        proof {
            assert(string_views(none@) =~= Seq::<Seq<char>>::empty());
        }
        none
    } else {
        let pieces = split_slices(rest, comma.as_slice());
        to_strings(&pieces)
    };
    Some(EdgeRecord { source, links })
}

/// The edge records that an edge text holds, or the first line that cannot
/// be read as a record.
pub fn parse_edges(text: &str) -> (result: Result<Vec<EdgeRecord>, LoadError>)
    ensures
        match result {
            Ok(records) => {
                &&& forall|k: int|
                    0 <= k < lines(text@).len() ==> has_separator(#[trigger] lines(text@)[k])
                &&& record_views(records@) == parsed_records(lines(text@))
            },
            Err(LoadError::MissingSeparator { line }) => is_first_bad_line(lines(text@), line as int),
            Err(LoadError::UnknownSource { .. }) => false,
        },
{
    let chars = to_chars(text);
    let line_end = to_chars("\n");
    let pieces = split_slices(chars.as_slice(), line_end.as_slice());
    let ghost all = lines(text@);
    let count: usize = if pieces[pieces.len() - 1].len() == 0 {
        pieces.len() - 1
    } else {
        pieces.len()
    };
    proof {
        assert(slice_views(pieces@).last() == pieces@[pieces.len() - 1]@);
        assert(all =~= slice_views(pieces@).take(count as int));
    }
    let mut records: Vec<EdgeRecord> = Vec::new();
    let mut k: usize = 0;
    while k < count
        invariant
            k <= count <= pieces.len(),
            all == lines(text@),
            all == slice_views(pieces@).take(count as int),
            forall|j: int| 0 <= j < k ==> has_separator(#[trigger] all[j]),
            record_views(records@) == parsed_records(all).take(k as int),
        decreases count - k,
    {
        let ghost earlier = record_views(records@);
        proof {
            assert(all[k as int] == pieces@[k as int]@);
        }
        match parse_line(pieces[k]) {
            Some(record) => {
                records.push(record);
                proof {
                    assert(record_views(records@) =~= earlier.push(parsed_line(all[k as int])));
                    assert(parsed_records(all).take(k + 1) =~= earlier.push(
                        parsed_line(all[k as int]),
                    ));
                }
            },
            None => {
                return Err(LoadError::MissingSeparator { line: k });
            },
        }
        k += 1;
    }
    proof {
        assert(parsed_records(all).take(k as int) =~= parsed_records(all));
    }
    Ok(records)
}

/// The graph that a vertex text and an edge text hold. The vertices are
/// numbered in the order of their lines, and of two lines with one name the
/// first answers to it. A link that names no vertex is dropped. The first
/// line of the edge text without a source separator is an error; where all
/// lines have one, the first record whose source names no vertex is.
pub fn load(vertex_text: &str, edge_text: &str) -> (result: Result<Graph, LoadError>)
    ensures
        match result {
            Ok(graph) => {
                &&& forall|k: int|
                    0 <= k < lines(edge_text@).len() ==> has_separator(
                        #[trigger] lines(edge_text@)[k],
                    )
                &&& forall|k: int|
                    0 <= k < lines(edge_text@).len() ==> index_of(
                        parsed_vertices(vertex_text@),
                        (#[trigger] parsed_records(lines(edge_text@))[k]).source,
                    ) is Some
                &&& graph@ == graph_of(
                    parsed_vertices(vertex_text@),
                    parsed_records(lines(edge_text@)),
                )
                &&& graph@.valid()
            },
            Err(LoadError::MissingSeparator { line }) => is_first_bad_line(
                lines(edge_text@),
                line as int,
            ),
            Err(LoadError::UnknownSource { line }) => {
                &&& forall|k: int|
                    0 <= k < lines(edge_text@).len() ==> has_separator(
                        #[trigger] lines(edge_text@)[k],
                    )
                &&& is_first_unknown_source(
                    parsed_vertices(vertex_text@),
                    parsed_records(lines(edge_text@)),
                    line as int,
                )
            },
        },
{
    let vertices = parse_vertices(vertex_text);
    let records = match parse_edges(edge_text) {
        Ok(records) => records,
        Err(error) => {
            return Err(error);
        },
    };
    match Graph::new(vertices, &records) {
        Ok(graph) => Ok(graph),
        Err(unknown) => Err(LoadError::UnknownSource { line: unknown.record }),
    }
}

/// The record can be written to a line and read back: its source holds
/// neither the source separator nor a line end, none of its links holds the
/// link separator or a line end, and its links are not the empty name alone
/// (which is written as a record without links is).
pub open spec fn storable(record: RecordView) -> bool {
    &&& !occurs(record.source, source_separator())
    &&& !occurs(record.source, newline())
    &&& forall|k: int|
        0 <= k < record.links.len() ==> !occurs(#[trigger] record.links[k], link_separator())
            && !occurs(record.links[k], newline())
    &&& record.links != seq![Seq::<char>::empty()]
}

/// What the three separators are made of.
pub proof fn lemma_separators()
    ensures
        newline() == seq!['\n'],
        source_separator() == seq![':', ' '],
        link_separator() == seq![',', ' '],
        unbordered(newline()),
        unbordered(source_separator()),
        unbordered(link_separator()),
{
    reveal_strlit("\n");
    reveal_strlit(": ");
    reveal_strlit(", ");
    assert(newline() =~= seq!['\n']);
    assert(source_separator() =~= seq![':', ' ']);
    assert(link_separator() =~= seq![',', ' ']);
    assert(source_separator().skip(1)[0] == ' ' && source_separator().take(1)[0] == ':');
    assert(link_separator().skip(1)[0] == ' ' && link_separator().take(1)[0] == ',');
}

/// Reading the links of a rendered list of links gives the list back.
pub proof fn lemma_links_round_trip(links: Seq<Seq<char>>)
    requires
        forall|k: int| 0 <= k < links.len() ==> !occurs(#[trigger] links[k], link_separator()),
        links != seq![Seq::<char>::empty()],
    ensures
        parsed_links(join(links, link_separator())) == links,
{
    lemma_separators();
    let text = join(links, link_separator());
    if links.len() == 0 {
        assert(links =~= Seq::<Seq<char>>::empty());
    } else {
        lemma_split_join(links, link_separator());
        if links.len() == 1 {
            if links[0].len() == 0 {
                assert(links[0] =~= Seq::<char>::empty());
                assert(links =~= seq![Seq::<char>::empty()]);
            }
        } else {
            assert(text == links[0] + link_separator() + join(links.drop_first(), link_separator()));
        }
    }
}

/// A text put together from three parts holds no character that none of
/// the parts holds.
proof fn lemma_concat_lacks(a: Seq<char>, b: Seq<char>, c: Seq<char>, x: char)
    requires
        !a.contains(x),
        !b.contains(x),
        !c.contains(x),
    ensures
        !(a + b + c).contains(x),
{
    let text = a + b + c;
    if text.contains(x) {
        let i = choose|i: int| 0 <= i < text.len() && text[i] == x;
        if i < a.len() {
            assert(a[i] == x);
        } else if i < a.len() + b.len() {
            assert(b[i - a.len()] == x);
        } else {
            assert(c[i - a.len() - b.len()] == x);
        }
    }
}

/// The line of a storable record holds no line end.
pub proof fn lemma_line_is_one_line(record: RecordView)
    requires
        storable(record),
    ensures
        !occurs(edge_line(record), newline()),
{
    lemma_separators();
    let listed = join(record.links, link_separator());
    lemma_single_occurs(edge_line(record), newline());
    lemma_single_occurs(record.source, newline());
    assert forall|k: int| 0 <= k < record.links.len() implies !(#[trigger] record.links[k]).contains(
        '\n',
    ) by {
        lemma_single_occurs(record.links[k], newline());
    }
    assert(!link_separator().contains('\n')) by {
        if link_separator().contains('\n') {
            let i = choose|i: int| 0 <= i < 2 && link_separator()[i] == '\n';
        }
    }
    assert(!source_separator().contains('\n')) by {
        if source_separator().contains('\n') {
            let i = choose|i: int| 0 <= i < 2 && source_separator()[i] == '\n';
        }
    }
    lemma_join_lacks(record.links, link_separator(), '\n');
    lemma_concat_lacks(record.source, source_separator(), listed, '\n');
}

/// Reading the line of a storable record gives the record back.
pub proof fn lemma_line_round_trip(record: RecordView)
    requires
        storable(record),
    ensures
        has_separator(edge_line(record)),
        parsed_line(edge_line(record)) == record,
        edge_line(record).len() > 0,
{
    lemma_separators();
    let line = edge_line(record);
    let listed = join(record.links, link_separator());
    let at = record.source.len() as int;
    lemma_first_occurrence_behind(record.source, source_separator(), listed);
    lemma_first_occurrence_is(line, source_separator(), at);
    lemma_links_round_trip(record.links);
    assert(before(line, source_separator()) == line.take(at));
    assert(after(line, source_separator()) == line.skip(at + 2));
    assert(line.take(at) =~= record.source);
    assert(line.skip(at + 2) =~= listed);
}

/// Loading undoes saving. For a vertex list that is not empty and whose
/// names hold no line end, and for edge records that are storable, the
/// vertex text reads back as the vertex list and the edge text as the
/// records, line for line and in the same order; so the graph that is loaded
/// from the two texts is the graph of the vertices and records that were
/// saved.
pub proof fn lemma_load_inverts_save(names: Seq<Seq<char>>, records: Seq<RecordView>)
    requires
        names.len() > 0,
        forall|k: int| 0 <= k < names.len() ==> !occurs(#[trigger] names[k], newline()),
        forall|k: int| 0 <= k < records.len() ==> storable(#[trigger] records[k]),
    ensures
        parsed_vertices(vertices_text(names)) == names,
        lines(edges_text(records)) == edge_lines(records),
        forall|k: int|
            0 <= k < records.len() ==> has_separator(#[trigger] lines(edges_text(records))[k]),
        parsed_records(lines(edges_text(records))) == records,
        graph_of(
            parsed_vertices(vertices_text(names)),
            parsed_records(lines(edges_text(records))),
        ) == graph_of(names, records),
{
    lemma_separators();
    lemma_split_join(names, newline());
    let rendered = edge_lines(records);
    let text = edges_text(records);
    assert forall|k: int| 0 <= k < rendered.len() implies !occurs(
        #[trigger] rendered[k],
        newline(),
    ) && rendered[k].len() > 0 && has_separator(rendered[k]) && parsed_line(rendered[k])
        == records[k] by {
        lemma_line_round_trip(records[k]);
        lemma_line_is_one_line(records[k]);
    }
    if records.len() == 0 {
        assert(text =~= Seq::<char>::empty());
        assert(!occurs(text, newline())) by {
            if occurs(text, newline()) {
                let i = choose|i: int| occurs_at(text, newline(), i);
            }
        }
        lemma_no_occurrence(text, newline());
        assert(split(text, newline()).drop_last() =~= rendered);
    } else {
        lemma_split_join(rendered, newline());
    }
    assert(lines(text) == rendered);
    assert(parsed_records(rendered) =~= records);
}

} // verus!
