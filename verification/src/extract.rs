//! Link extraction: a coarse scan of raw page markup for the identifiers of
//! linked pages. Only text inside paragraphs is looked at, every anchor that
//! points into the wiki yields a candidate, and candidates of the
//! administrative namespaces are left out.

use crate::text::{
    before, before_slice, slice_views, split, split_slices, starts_with, string_views, to_chars,
    to_string,
};
use vstd::prelude::*;

verus! {

/// The marker that opens a paragraph.
pub open spec fn paragraph_open() -> Seq<char> {
    "<p>"@
}

/// The marker that closes a paragraph.
pub open spec fn paragraph_close() -> Seq<char> {
    "</p>"@
}

/// The text with which an anchor to another page of the wiki begins; the
/// page's identifier follows it directly.
pub open spec fn anchor_open() -> Seq<char> {
    "<a href=\"/wiki/"@
}

/// The character that ends an identifier inside an anchor.
pub open spec fn quote() -> Seq<char> {
    "\""@
}

/// Whether `id` begins with one of the seven namespace prefixes whose pages
/// are never followed.
pub open spec fn is_denied(id: Seq<char>) -> bool {
    ||| "Datei"@.is_prefix_of(id)
    ||| "Kategorie"@.is_prefix_of(id)
    ||| "Hilfe"@.is_prefix_of(id)
    ||| "Benutzer"@.is_prefix_of(id)
    ||| "Spezial"@.is_prefix_of(id)
    ||| "Wikipedia"@.is_prefix_of(id)
    ||| "Diskussion"@.is_prefix_of(id)
}

/// The paragraphs of a page: each stretch of text that follows a
/// paragraph-open marker, up to the first paragraph-close marker in it, or to
/// the next paragraph-open marker or the end of the page where it is never
/// closed. Text in front of the first paragraph-open marker belongs to no
/// paragraph.
pub open spec fn paragraphs(content: Seq<char>) -> Seq<Seq<char>> {
    split(content, paragraph_open()).drop_first().map_values(
        |piece: Seq<char>| before(piece, paragraph_close()),
    )
}

/// The identifiers that the anchors of one paragraph name, in the order of
/// the anchors: for each anchor marker the text that follows it, up to the
/// next quote character (or to the next anchor marker or the end of the
/// paragraph where no quote follows).
pub open spec fn anchor_targets(paragraph: Seq<char>) -> Seq<Seq<char>> {
    split(paragraph, anchor_open()).drop_first().map_values(
        |piece: Seq<char>| before(piece, quote()),
    )
}

/// The links of one paragraph: its anchor targets without the denied ones.
pub open spec fn paragraph_links(paragraph: Seq<char>) -> Seq<Seq<char>> {
    anchor_targets(paragraph).filter(|id: Seq<char>| !is_denied(id))
}

/// The links of a page: those of its paragraphs, paragraph after paragraph.
pub open spec fn page_links(content: Seq<char>) -> Seq<Seq<char>> {
    paragraphs(content).flat_map(|paragraph: Seq<char>| paragraph_links(paragraph))
}

/// What stands in a flattened list of lists stands in one of the lists.
proof fn lemma_flatten_member(lists: Seq<Seq<Seq<char>>>, id: Seq<char>)
    requires
        lists.flatten().contains(id),
    ensures
        exists|i: int| 0 <= i < lists.len() && (#[trigger] lists[i]).contains(id),
    decreases lists.len(),
{
    if lists.len() > 0 {
        let flat = lists.flatten();
        let rest = lists.drop_first();
        assert(flat == lists[0] + rest.flatten());
        let k = choose|k: int| 0 <= k < flat.len() && flat[k] == id;
        if k < lists[0].len() {
            assert(lists[0][k] == id);
            assert(lists[0].contains(id));
        } else {
            assert(rest.flatten()[k - lists[0].len()] == id);
            assert(rest.flatten().contains(id));
            lemma_flatten_member(rest, id);
            let i = choose|i: int| 0 <= i < rest.len() && (#[trigger] rest[i]).contains(id);
            assert(lists[i + 1] == rest[i]);
        }
    }
}

/// No link of a page is denied: whatever the page holds, none of the
/// identifiers extracted from it begins with a denied prefix.
pub proof fn lemma_links_are_allowed(content: Seq<char>, k: int)
    requires
        0 <= k < page_links(content).len(),
    ensures
        !is_denied(page_links(content)[k]),
{
    let per_paragraph = |paragraph: Seq<char>| paragraph_links(paragraph);
    let lists = paragraphs(content).map_values(per_paragraph);
    let link = page_links(content)[k];
    assert(lists.flatten().contains(link));
    lemma_flatten_member(lists, link);
    let i = choose|i: int| 0 <= i < lists.len() && (#[trigger] lists[i]).contains(link);
    let allowed = |id: Seq<char>| !is_denied(id);
    let targets = anchor_targets(paragraphs(content)[i]);
    assert(targets.filter(allowed).contains(link));
    let at = choose|at: int|
        0 <= at < targets.filter(allowed).len() && targets.filter(allowed)[at] == link;
    targets.lemma_filter_pred(allowed, at);
}

/// Whether `id` begins with one of the denied namespace prefixes.
pub fn denied(id: &[char]) -> (b: bool)
    ensures
        b == is_denied(id@),
{
    starts_with(id, to_chars("Datei").as_slice())
        || starts_with(id, to_chars("Kategorie").as_slice())
        || starts_with(id, to_chars("Hilfe").as_slice())
        || starts_with(id, to_chars("Benutzer").as_slice())
        || starts_with(id, to_chars("Spezial").as_slice())
        || starts_with(id, to_chars("Wikipedia").as_slice())
        || starts_with(id, to_chars("Diskussion").as_slice())
}

/// Appends the links of one paragraph to `links`.
fn collect_paragraph_links(paragraph: &[char], links: &mut Vec<String>)
    ensures
        string_views(final(links)@) == string_views(old(links)@) + paragraph_links(paragraph@),
{
    let anchor = to_chars("<a href=\"/wiki/");
    let quote_mark = to_chars("\"");
    let pieces = split_slices(paragraph, anchor.as_slice());
    let ghost allowed = |id: Seq<char>| !is_denied(id);
    let ghost target = |piece: Seq<char>| before(piece, quote());
    let ghost targets = anchor_targets(paragraph@);
    let mut k: usize = 1;
    proof {
        assert(targets.take(0) =~= Seq::<Seq<char>>::empty());
        assert(targets.take(0).filter(allowed) =~= Seq::<Seq<char>>::empty()) by {
            reveal(Seq::filter);
        }
        assert(string_views(links@) + Seq::<Seq<char>>::empty() =~= string_views(links@));
    }
    while k < pieces.len()
        invariant
            1 <= k <= pieces.len(),
            slice_views(pieces@) == split(paragraph@, anchor_open()),
            quote_mark@ == quote(),
            targets == anchor_targets(paragraph@),
            allowed == |id: Seq<char>| !is_denied(id),
            string_views(links@) == string_views(old(links)@) + targets.take(k - 1).filter(allowed),
        decreases pieces.len() - k,
    {
        let id = before_slice(pieces[k], quote_mark.as_slice());
        proof {
            assert(slice_views(pieces@)[k as int] == pieces@[k as int]@);
            assert(targets[k - 1] == id@);
            assert(targets.take(k as int) =~= targets.take(k - 1).push(id@));
            targets.take(k - 1).lemma_filter_push(id@, allowed);
        }
        if !denied(id) {
            let ghost before_push = links@;
            links.push(to_string(id));
            proof {
                assert(string_views(links@) =~= string_views(before_push).push(id@));
            }
        }
        k += 1;
    }
    proof {
        assert(targets.take(k - 1) =~= targets);
    }
}

/// The identifiers of the pages that the paragraphs of `content` link to, in
/// the order in which they stand in the text. A page may be named more than
/// once. A text without any link gives an empty list.
pub fn extract(content: &str) -> (links: Vec<String>)
    ensures
        string_views(links@) == page_links(content@),
{
    let chars = to_chars(content);
    let open = to_chars("<p>");
    let close = to_chars("</p>");
    let pieces = split_slices(chars.as_slice(), open.as_slice());
    let ghost pars = paragraphs(content@);
    let ghost per_paragraph = |paragraph: Seq<char>| paragraph_links(paragraph);
    let mut links: Vec<String> = Vec::new();
    let mut k: usize = 1;
    proof {
        assert(pars.take(0).map_values(per_paragraph) =~= Seq::<Seq<Seq<char>>>::empty());
        assert(pars.take(0).flat_map(per_paragraph) =~= Seq::<Seq<char>>::empty());
        assert(string_views(links@) =~= Seq::<Seq<char>>::empty());
    }
    while k < pieces.len()
        invariant
            1 <= k <= pieces.len(),
            slice_views(pieces@) == split(content@, paragraph_open()),
            close@ == paragraph_close(),
            pars == paragraphs(content@),
            per_paragraph == |paragraph: Seq<char>| paragraph_links(paragraph),
            string_views(links@) == pars.take(k - 1).flat_map(per_paragraph),
        decreases pieces.len() - k,
    {
        let paragraph = before_slice(pieces[k], close.as_slice());
        proof {
            assert(slice_views(pieces@)[k as int] == pieces@[k as int]@);
            assert(pars[k - 1] == paragraph@);
            pars.lemma_flat_map_take_append(per_paragraph, k - 1);
        }
        collect_paragraph_links(paragraph, &mut links);
        k += 1;
    }
    proof {
        assert(pars.take(k - 1) =~= pars);
    }
    links
}

} // verus!
