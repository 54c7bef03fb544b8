//! Character-sequence primitives shared by the extractor and the graph store:
//! conversion between strings and character vectors, pattern search,
//! splitting and joining.

use vstd::prelude::*;
use vstd::slice::slice_subrange;
use vstd::string::StringExecFns;

verus! {

/// `pat` stands in `s` at position `i`.
pub open spec fn occurs_at(s: Seq<char>, pat: Seq<char>, i: int) -> bool {
    &&& 0 <= i
    &&& i + pat.len() <= s.len()
    &&& s.subrange(i, i + pat.len()) =~= pat
}

/// `pat` stands somewhere in `s`.
pub open spec fn occurs(s: Seq<char>, pat: Seq<char>) -> bool {
    exists|i: int| occurs_at(s, pat, i)
}

/// `pat` stands in `s` at `i` and nowhere before `i`.
pub open spec fn is_first_occurrence(s: Seq<char>, pat: Seq<char>, i: int) -> bool {
    &&& occurs_at(s, pat, i)
    &&& forall|j: int| 0 <= j < i ==> !occurs_at(s, pat, j)
}

/// The leftmost position at which `pat` stands in `s`, where there is one.
pub open spec fn first_occurrence(s: Seq<char>, pat: Seq<char>) -> int {
    choose|i: int| is_first_occurrence(s, pat, i)
}

/// The pieces of `s` between the occurrences of `pat`, found from left to
/// right without overlap. There is always at least one piece; a text without
/// any occurrence is its own single piece, and so is any text where `pat` is
/// empty.
pub open spec fn split(s: Seq<char>, pat: Seq<char>) -> Seq<Seq<char>>
    decreases s.len(),
{
    let i = first_occurrence(s, pat);
    if pat.len() > 0 && occurs_at(s, pat, i) {
        seq![s.take(i)] + split(s.skip(i + pat.len()), pat)
    } else {
        seq![s]
    }
}

/// The part of `s` in front of the first occurrence of `pat`; all of `s`
/// where `pat` does not occur.
pub open spec fn before(s: Seq<char>, pat: Seq<char>) -> Seq<char> {
    if occurs(s, pat) {
        s.take(first_occurrence(s, pat))
    } else {
        s
    }
}

/// The part of `s` behind the first occurrence of `pat`; nothing where `pat`
/// does not occur.
pub open spec fn after(s: Seq<char>, pat: Seq<char>) -> Seq<char> {
    if occurs(s, pat) {
        s.skip(first_occurrence(s, pat) + pat.len())
    } else {
        Seq::empty()
    }
}

/// The parts written one after the other with `sep` between neighbours.
pub open spec fn join(parts: Seq<Seq<char>>, sep: Seq<char>) -> Seq<char>
    decreases parts.len(),
{
    if parts.len() == 0 {
        Seq::empty()
    } else if parts.len() == 1 {
        parts[0]
    } else {
        parts[0] + sep + join(parts.drop_first(), sep)
    }
}

/// The character sequences that a list of slices stands for.
pub open spec fn slice_views(pieces: Seq<&[char]>) -> Seq<Seq<char>> {
    Seq::new(pieces.len(), |k: int| pieces[k]@)
}

/// The character sequences that a list of strings stands for.
pub open spec fn string_views(strings: Seq<String>) -> Seq<Seq<char>> {
    Seq::new(strings.len(), |k: int| strings[k]@)
}

/// A pattern that occurs at all has a leftmost occurrence.
pub proof fn lemma_occurrence_has_first(s: Seq<char>, pat: Seq<char>, k: int)
    requires
        occurs_at(s, pat, k),
    ensures
        occurs(s, pat),
        is_first_occurrence(s, pat, first_occurrence(s, pat)),
        first_occurrence(s, pat) <= k,
    decreases k,
{
    if exists|j: int| 0 <= j < k && occurs_at(s, pat, j) {
        let j = choose|j: int| 0 <= j < k && occurs_at(s, pat, j);
        lemma_occurrence_has_first(s, pat, j);
    } else {
        assert(is_first_occurrence(s, pat, k));
        let f = first_occurrence(s, pat);
        if f > k {
            assert(!occurs_at(s, pat, k));
        }
    }
}

/// The leftmost occurrence is the one `first_occurrence` names.
pub proof fn lemma_first_occurrence_is(s: Seq<char>, pat: Seq<char>, i: int)
    requires
        is_first_occurrence(s, pat, i),
    ensures
        occurs(s, pat),
        first_occurrence(s, pat) == i,
{
    lemma_occurrence_has_first(s, pat, i);
    let f = first_occurrence(s, pat);
    if f < i {
        assert(!occurs_at(s, pat, f));
    }
}

/// Where `pat` does not occur, `first_occurrence` names no occurrence.
pub proof fn lemma_no_occurrence(s: Seq<char>, pat: Seq<char>)
    requires
        !occurs(s, pat),
    ensures
        !occurs_at(s, pat, first_occurrence(s, pat)),
        split(s, pat) == seq![s],
        before(s, pat) == s,
{
}

/// No end of `sep` is also a beginning of it, so that two occurrences of
/// `sep` in a text never overlap.
pub open spec fn unbordered(sep: Seq<char>) -> bool {
    forall|d: int| 0 < d < sep.len() ==> #[trigger] sep.skip(d) != sep.take(sep.len() - d)
}

/// Joining one more part adds the separator and the part at the end.
pub proof fn lemma_join_push(parts: Seq<Seq<char>>, sep: Seq<char>, part: Seq<char>)
    requires
        parts.len() > 0,
    ensures
        join(parts.push(part), sep) == join(parts, sep) + sep + part,
    decreases parts.len(),
{
    let longer = parts.push(part);
    assert(longer.drop_first() =~= parts.drop_first().push(part));
    if parts.len() == 1 {
        assert(longer.drop_first() =~= seq![part]);
        assert(join(seq![part], sep) == part);
        assert(join(parts, sep) == parts[0]);
        assert(join(longer, sep) == longer[0] + sep + join(longer.drop_first(), sep));
    } else {
        lemma_join_push(parts.drop_first(), sep, part);
        assert(join(longer, sep) =~= join(parts, sep) + sep + part);
    }
}

/// In a text that begins with a part free of the separator, followed by the
/// separator, the separator first occurs right behind that part.
pub proof fn lemma_first_occurrence_behind(part: Seq<char>, sep: Seq<char>, rest: Seq<char>)
    requires
        sep.len() > 0,
        unbordered(sep),
        !occurs(part, sep),
    ensures
        is_first_occurrence(part + sep + rest, sep, part.len() as int),
{
    let text = part + sep + rest;
    let n = part.len() as int;
    let m = sep.len() as int;
    assert(text.subrange(n, n + m) =~= sep);
    assert forall|j: int| 0 <= j < n implies !occurs_at(text, sep, j) by {
        if occurs_at(text, sep, j) {
            if j + m <= n {
                assert(part.subrange(j, j + m) =~= text.subrange(j, j + m));
                assert(occurs_at(part, sep, j));
            } else {
                let d = n - j;
                assert forall|t: int| 0 <= t < m - d implies sep.skip(d)[t] == sep.take(m - d)[t] by {
                    assert(text.subrange(j, j + m)[d + t] == text[j + d + t]);
                    assert(text[n + t] == sep[t]);
                }
                assert(sep.skip(d) =~= sep.take(m - d));
            }
        }
    }
}

/// Splitting undoes joining, as long as there is at least one part and no
/// part holds the separator.
pub proof fn lemma_split_join(parts: Seq<Seq<char>>, sep: Seq<char>)
    requires
        parts.len() > 0,
        sep.len() > 0,
        unbordered(sep),
        forall|k: int| 0 <= k < parts.len() ==> !occurs(#[trigger] parts[k], sep),
    ensures
        split(join(parts, sep), sep) == parts,
    decreases parts.len(),
{
    if parts.len() == 1 {
        lemma_no_occurrence(parts[0], sep);
        assert(parts =~= seq![parts[0]]);
    } else {
        let rest = parts.drop_first();
        let tail = join(rest, sep);
        let text = join(parts, sep);
        lemma_first_occurrence_behind(parts[0], sep, tail);
        lemma_first_occurrence_is(text, sep, parts[0].len() as int);
        assert forall|k: int| 0 <= k < rest.len() implies !occurs(#[trigger] rest[k], sep) by {
            assert(rest[k] == parts[k + 1]);
        }
        lemma_split_join(rest, sep);
        assert(text.take(parts[0].len() as int) =~= parts[0]);
        assert(text.skip((parts[0].len() + sep.len()) as int) =~= tail);
        assert(seq![parts[0]] + rest =~= parts);
    }
}

/// A pattern of one character occurs in a text exactly where the text holds
/// that character.
pub proof fn lemma_single_occurs(s: Seq<char>, pat: Seq<char>)
    requires
        pat.len() == 1,
    ensures
        occurs(s, pat) <==> s.contains(pat[0]),
{
    if occurs(s, pat) {
        let i = choose|i: int| occurs_at(s, pat, i);
        assert(s.subrange(i, i + 1)[0] == s[i]);
    }
    if s.contains(pat[0]) {
        let i = choose|i: int| 0 <= i < s.len() && s[i] == pat[0];
        assert(s.subrange(i, i + 1) =~= pat);
        assert(occurs_at(s, pat, i));
    }
}

/// A character that neither the parts nor the separator hold is not in the
/// joined text.
pub proof fn lemma_join_lacks(parts: Seq<Seq<char>>, sep: Seq<char>, c: char)
    requires
        !sep.contains(c),
        forall|k: int| 0 <= k < parts.len() ==> !(#[trigger] parts[k]).contains(c),
    ensures
        !join(parts, sep).contains(c),
    decreases parts.len(),
{
    let text = join(parts, sep);
    if parts.len() == 1 {
        assert(!parts[0].contains(c));
    } else if parts.len() > 1 {
        let rest = parts.drop_first();
        assert forall|k: int| 0 <= k < rest.len() implies !(#[trigger] rest[k]).contains(c) by {
            assert(rest[k] == parts[k + 1]);
        }
        lemma_join_lacks(rest, sep, c);
        let tail = join(rest, sep);
        if text.contains(c) {
            let i = choose|i: int| 0 <= i < text.len() && text[i] == c;
            if i < parts[0].len() {
                assert(parts[0][i] == c);
                assert(parts[0].contains(c));
            } else if i < parts[0].len() + sep.len() {
                assert(sep[i - parts[0].len()] == c);
                assert(sep.contains(c));
            } else {
                assert(tail[i - parts[0].len() - sep.len()] == c);
                assert(tail.contains(c));
            }
        }
    }
}

/// `String::push` appends one character to the end of the string and leaves
/// the characters before it as they were.
pub assume_specification[ String::push ](s: &mut String, c: char)
    ensures
        final(s)@ == old(s)@.push(c),
;

/// The characters of `s`, in order.
pub fn to_chars(s: &str) -> (chars: Vec<char>)
    ensures
        chars@ == s@,
{
    let mut chars: Vec<char> = Vec::new();
    for c in it: s.chars()
        invariant
            it.seq() == s@,
            chars@ == it.seq().take(it.index() as int),
    {
        chars.push(c);
    }
    chars
}

/// The string whose characters are those of `chars`.
pub fn to_string(chars: &[char]) -> (s: String)
    ensures
        s@ == chars@,
{
    let mut s = String::new();
    let mut i: usize = 0;
    while i < chars.len()
        invariant
            i <= chars.len(),
            s@ == chars@.take(i as int),
        decreases chars.len() - i,
    {
        s.push(chars[i]);
        i += 1;
    }
    s
}

/// Whether `pat` stands in `s` at position `i`.
pub fn matches_at(s: &[char], pat: &[char], i: usize) -> (b: bool)
    ensures
        b == occurs_at(s@, pat@, i as int),
{
    if pat.len() > s.len() || i > s.len() - pat.len() {
        return false;
    }
    let mut k: usize = 0;
    while k < pat.len()
        invariant
            k <= pat.len(),
            i + pat.len() <= s.len(),
            forall|j: int| 0 <= j < k ==> s@[i + j] == pat@[j],
        decreases pat.len() - k,
    {
        if s[i + k] != pat[k] {
            proof {
                assert(s@.subrange(i as int, i + pat@.len())[k as int] == s@[i + k]);
            }
            return false;
        }
        k += 1;
    }
    true
}

/// The leftmost position at which `pat` stands in `s`, or `None` where it
/// does not occur.
pub fn find(s: &[char], pat: &[char]) -> (r: Option<usize>)
    ensures
        match r {
            Some(i) => is_first_occurrence(s@, pat@, i as int),
            None => !occurs(s@, pat@),
        },
{
    if pat.len() > s.len() {
        return None;
    }
    let last: usize = s.len() - pat.len();
    let mut i: usize = 0;
    while i <= last
        invariant
            last == s.len() - pat.len(),
            i <= last + 1,
            forall|j: int| 0 <= j < i ==> !occurs_at(s@, pat@, j),
        decreases last + 1 - i,
    {
        if matches_at(s, pat, i) {
            return Some(i);
        }
        i += 1;
    }
    None
}

/// Whether `s` begins with `prefix`.
pub fn starts_with(s: &[char], prefix: &[char]) -> (b: bool)
    ensures
        b == prefix@.is_prefix_of(s@),
{
    let b = matches_at(s, prefix, 0);
    proof {
        if prefix@.len() <= s@.len() {
            assert(s@.subrange(0, prefix@.len() as int) =~= s@.take(prefix@.len() as int));
        }
    }
    b
}

/// The pieces of `s` between the occurrences of `pat`, as slices of `s`.
pub fn split_slices<'a>(s: &'a [char], pat: &[char]) -> (pieces: Vec<&'a [char]>)
    ensures
        slice_views(pieces@) == split(s@, pat@),
{
    let mut pieces: Vec<&'a [char]> = Vec::new();
    if pat.len() == 0 {
        pieces.push(s);
        proof {
            assert(slice_views(pieces@) =~= seq![s@]);
        }
        return pieces;
    }
    let mut rest: &'a [char] = s;
    proof {
        assert(slice_views(pieces@) + split(rest@, pat@) =~= split(s@, pat@));
    }
    let mut next = find(rest, pat);
    while next.is_some()
        invariant
            pat@.len() > 0,
            split(s@, pat@) == slice_views(pieces@) + split(rest@, pat@),
            match next {
                Some(i) => is_first_occurrence(rest@, pat@, i as int),
                None => !occurs(rest@, pat@),
            },
        decreases rest@.len(),
    {
        let i = next.unwrap();
        let n: usize = rest.len();
        let m: usize = pat.len();
        assert(occurs_at(rest@, pat@, i as int));
        let piece = slice_subrange(rest, 0, i);
        let tail = slice_subrange(rest, i + m, n);
        proof {
            lemma_first_occurrence_is(rest@, pat@, i as int);
            assert(slice_views(pieces@.push(piece)) =~= slice_views(pieces@) + seq![piece@]);
            assert(split(rest@, pat@) == seq![rest@.take(i as int)] + split(tail@, pat@));
        }
        pieces.push(piece);
        rest = tail;
        next = find(rest, pat);
    }
    proof {
        lemma_no_occurrence(rest@, pat@);
        assert(slice_views(pieces@.push(rest)) =~= slice_views(pieces@) + seq![rest@]);
    }
    pieces.push(rest);
    pieces
}

/// The part of `s` in front of the first occurrence of `pat`, as a slice of
/// `s`.
pub fn before_slice<'a>(s: &'a [char], pat: &[char]) -> (head: &'a [char])
    ensures
        head@ == before(s@, pat@),
{
    match find(s, pat) {
        Some(i) => {
            proof {
                lemma_first_occurrence_is(s@, pat@, i as int);
            }
            slice_subrange(s, 0, i)
        },
        None => s,
    }
}

/// The part of `s` behind the first occurrence of `pat`, as a slice of `s`.
pub fn after_slice<'a>(s: &'a [char], pat: &[char]) -> (tail: &'a [char])
    ensures
        tail@ == after(s@, pat@),
{
    match find(s, pat) {
        Some(i) => {
            let n: usize = s.len();
            let m: usize = pat.len();
            proof {
                lemma_first_occurrence_is(s@, pat@, i as int);
                assert(s@.subrange(i + m, n as int) =~= s@.skip(i + m));
            }
            slice_subrange(s, i + m, n)
        },
        None => {
            proof {
                assert(s@.subrange(0, 0) =~= Seq::<char>::empty());
            }
            slice_subrange(s, 0, 0)
        },
    }
}

/// The strings that a list of slices spells.
pub fn to_strings(pieces: &Vec<&[char]>) -> (strings: Vec<String>)
    ensures
        string_views(strings@) == slice_views(pieces@),
{
    let mut strings: Vec<String> = Vec::new();
    let mut k: usize = 0;
    while k < pieces.len()
        invariant
            k <= pieces.len(),
            string_views(strings@) == slice_views(pieces@).take(k as int),
        decreases pieces.len() - k,
    {
        let ghost earlier = string_views(strings@);
        strings.push(to_string(pieces[k]));
        proof {
            assert(string_views(strings@) =~= earlier.push(pieces@[k as int]@));
            assert(slice_views(pieces@).take(k + 1) =~= earlier.push(pieces@[k as int]@));
        }
        k += 1;
    }
    proof {
        assert(slice_views(pieces@).take(k as int) =~= slice_views(pieces@));
    }
    strings
}

/// The parts written one after the other with `sep` between neighbours.
pub fn join_strings(parts: &Vec<String>, sep: &str) -> (text: String)
    ensures
        text@ == join(string_views(parts@), sep@),
{
    let ghost names = string_views(parts@);
    let mut text = String::new();
    let mut k: usize = 0;
    proof {
        assert(names.take(0) =~= Seq::<Seq<char>>::empty());
    }
    while k < parts.len()
        invariant
            k <= parts.len(),
            names == string_views(parts@),
            text@ == join(names.take(k as int), sep@),
        decreases parts.len() - k,
    {
        proof {
            assert(names.take(k + 1) =~= names.take(k as int).push(names[k as int]));
            if k > 0 {
                lemma_join_push(names.take(k as int), sep@, names[k as int]);
            } else {
                assert(names.take(1)[0] == names[0]);
                assert(Seq::<char>::empty() + names[0] =~= names[0]);
            }
        }
        if k > 0 {
            text.append(sep);
        }
        text.append(parts[k].as_str());
        k += 1;
    }
    proof {
        assert(names.take(k as int) =~= names);
    }
    text
}

} // verus!
