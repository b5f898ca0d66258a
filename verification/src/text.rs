//! Texts as sequences of characters: conversions, substring search,
//! splitting, and the string operations of std the library calls
//! (lowercasing, whose result is only named here, and trimming).
use vstd::prelude::*;

verus! {

broadcast use vstd::string::group_string_axioms;

/// Names what `str::to_lowercase` returns for a text.
pub uninterp spec fn lowercase(text: Seq<char>) -> Seq<char>;

/// A character with the Unicode property White_Space: U+0009 to U+000D,
/// U+0020, U+0085, U+00A0, U+1680, U+2000 to U+200A, U+2028, U+2029, U+202F,
/// U+205F and U+3000.
pub open spec fn is_white_space(c: char) -> bool {
    let v = c as u32;
    ||| 0x09 <= v <= 0x0d
    ||| v == 0x20
    ||| v == 0x85
    ||| v == 0xa0
    ||| v == 0x1680
    ||| 0x2000 <= v <= 0x200a
    ||| v == 0x2028
    ||| v == 0x2029
    ||| v == 0x202f
    ||| v == 0x205f
    ||| v == 0x3000
}

/// `text` without the white space at its start.
pub open spec fn trimmed_start(text: Seq<char>) -> Seq<char>
    decreases text.len(),
{
    if text.len() > 0 && is_white_space(text[0]) {
        trimmed_start(text.drop_first())
    } else {
        text
    }
}

/// `text` without the white space at its end.
pub open spec fn trimmed_end(text: Seq<char>) -> Seq<char>
    decreases text.len(),
{
    if text.len() > 0 && is_white_space(text.last()) {
        trimmed_end(text.drop_last())
    } else {
        text
    }
}

/// `text` without white space at either end, as `str::trim` gives it.
pub open spec fn trimmed(text: Seq<char>) -> Seq<char> {
    trimmed_end(trimmed_start(text))
}

proof fn lemma_trimmed_start(t: Seq<char>) -> (i: int)
    ensures
        0 <= i <= t.len(),
        trimmed_start(t) == t.skip(i),
        forall|k: int| 0 <= k < i ==> is_white_space(#[trigger] t[k]),
        i < t.len() ==> !is_white_space(t[i]),
    decreases t.len(),
{
    if t.len() > 0 && is_white_space(t[0]) {
        let i = lemma_trimmed_start(t.drop_first());
        assert(t.drop_first().skip(i) =~= t.skip(i + 1));
        assert forall|k: int| 0 <= k < i + 1 implies is_white_space(#[trigger] t[k]) by {
            if k > 0 {
                assert(t[k] == t.drop_first()[k - 1]);
            }
        }
        i + 1
    } else {
        assert(t.skip(0) =~= t);
        0
    }
}

proof fn lemma_trimmed_end(t: Seq<char>) -> (j: int)
    ensures
        0 <= j <= t.len(),
        trimmed_end(t) == t.take(j),
        forall|k: int| j <= k < t.len() ==> is_white_space(#[trigger] t[k]),
        j > 0 ==> !is_white_space(t[j - 1]),
    decreases t.len(),
{
    if t.len() > 0 && is_white_space(t.last()) {
        let j = lemma_trimmed_end(t.drop_last());
        assert(t.drop_last().take(j) =~= t.take(j));
        assert forall|k: int| j <= k < t.len() implies is_white_space(#[trigger] t[k]) by {
            if k < t.len() - 1 {
                assert(t[k] == t.drop_last()[k]);
            }
        }
        j
    } else {
        assert(t.take(t.len() as int) =~= t);
        t.len() as int
    }
}

/// Trimming removes white space from both ends and nothing else: the result
/// is a run of the text's characters, every character cut off is white
/// space, and the result neither starts nor ends with white space.
pub proof fn lemma_trimmed(t: Seq<char>)
    ensures
        exists|i: int, j: int|
            0 <= i <= j <= t.len() && #[trigger] t.subrange(i, j) == trimmed(t) && (forall|k: int|
                0 <= k < i ==> is_white_space(#[trigger] t[k])) && (forall|k: int|
                j <= k < t.len() ==> is_white_space(#[trigger] t[k])),
        trimmed(t).len() > 0 ==> !is_white_space(trimmed(t)[0]) && !is_white_space(trimmed(t).last()),
{
    let i = lemma_trimmed_start(t);
    let u = t.skip(i);
    let j = lemma_trimmed_end(u);
    assert(trimmed(t) == u.take(j));
    assert(u.take(j) =~= t.subrange(i, i + j));
    assert forall|k: int| i + j <= k < t.len() implies is_white_space(#[trigger] t[k]) by {
        assert(t[k] == u[k - i]);
    }
    if j > 0 {
        assert(u.take(j)[0] == t[i]);
        assert(u.take(j).last() == u[j - 1]);
    }
    assert(t.subrange(i, i + j) == trimmed(t));
}

/// Trusted: calls `str::to_lowercase`.  Claims only that the result is
/// `lowercase` of the argument, a function of the text alone; what the
/// Unicode lowercase mapping does to each character is left unsaid.
#[verifier::external_body]
pub(crate) fn to_lowercase(text: &str) -> (lower: String)
    ensures
        lower@ == lowercase(text@),
{
    text.to_lowercase()
}

/// Trusted: calls `str::trim`, which its documentation describes as removing
/// the leading and trailing characters with the Unicode property White_Space.
/// Claims that the result is `trimmed` of the argument.
#[verifier::external_body]
pub(crate) fn trim(text: &str) -> (t: String)
    ensures
        t@ == trimmed(text@),
{
    text.trim().to_string()
}

/// Trusted: calls `String::push`, which appends one character at the end.
#[verifier::external_body]
pub(crate) fn push_char(s: &mut String, c: char)
    ensures
        final(s)@ == old(s)@.push(c),
{
    s.push(c);
}

/// The characters of `s`, one by one.
pub fn chars_of(s: &str) -> (out: Vec<char>)
    ensures
        out@ == s@,
{
    let mut out: Vec<char> = Vec::new();
    for c in it: s.chars()
        invariant
            out@ == it.seq().take(it.index() as int),
            it.seq() == s@,
    {
        out.push(c);
    }
    out
}

/// The text made of the characters `cs`.
pub fn text_of(cs: &Vec<char>) -> (s: String)
    ensures
        s@ == cs@,
{
    let mut s = String::new();
    let mut i: usize = 0;
    while i < cs.len()
        invariant
            i <= cs.len(),
            s@ == cs@.take(i as int),
        decreases cs.len() - i,
    {
        push_char(&mut s, cs[i]);
        assert(cs@.take(i + 1) =~= cs@.take(i as int).push(cs@[i as int]));
        i = i + 1;
    }
    assert(cs@.take(i as int) =~= cs@);
    s
}

/// `needle` occurs in `hay` as a run of consecutive characters (the empty
/// text occurs in every text).
pub open spec fn is_substring(needle: Seq<char>, hay: Seq<char>) -> bool {
    exists|i: int|
        0 <= i && i + needle.len() <= hay.len() && #[trigger] hay.subrange(i, i + needle.len())
            == needle
}

/// Whether `hay` starts with `needle` at position `at`.
fn occurs_at(needle: &Vec<char>, hay: &Vec<char>, at: usize) -> (r: bool)
    requires
        at + needle.len() <= hay.len(),
    ensures
        r == (hay@.subrange(at as int, at + needle.len()) == needle@),
{
    let mut k: usize = 0;
    while k < needle.len()
        invariant
            k <= needle.len(),
            at + needle.len() <= hay.len(),
            hay@.subrange(at as int, at + k) == needle@.take(k as int),
        decreases needle.len() - k,
    {
        if hay[at + k] != needle[k] {
            assert(hay@.subrange(at as int, at + needle.len())[k as int] != needle@[k as int]);
            return false;
        }
        assert(hay@.subrange(at as int, at + k + 1) =~= hay@.subrange(at as int, at + k).push(
            hay@[at + k],
        ));
        assert(needle@.take(k + 1) =~= needle@.take(k as int).push(needle@[k as int]));
        k = k + 1;
    }
    assert(needle@.take(k as int) =~= needle@);
    true
}

/// Whether `needle` occurs in `hay`.
pub fn contains_text(hay: &Vec<char>, needle: &Vec<char>) -> (r: bool)
    ensures
        r == is_substring(needle@, hay@),
{
    if needle.len() > hay.len() {
        return false;
    }
    let last: usize = hay.len() - needle.len();
    let mut at: usize = 0;
    loop
        invariant
            at <= last,
            last + needle.len() == hay.len(),
            forall|i: int|
                0 <= i < at ==> #[trigger] hay@.subrange(i, i + needle.len()) != needle@,
        decreases last - at,
    {
        if occurs_at(needle, hay, at) {
            assert(hay@.subrange(at as int, at + needle.len()) == needle@);
            return true;
        }
        if at == last {
            return false;
        }
        at = at + 1;
    }
}

/// The position of the first `c` in `s`, or the length of `s` where there is none.
pub open spec fn first_index(s: Seq<char>, c: char) -> nat
    decreases s.len(),
{
    if s.len() == 0 {
        0
    } else if s[0] == c {
        0
    } else {
        1 + first_index(s.drop_first(), c)
    }
}

/// The pieces of `s` between the occurrences of `sep`, as `str::split` with a
/// character yields them: one more piece than there are separators.
pub open spec fn split_on(s: Seq<char>, sep: char) -> Seq<Seq<char>>
    decreases s.len(),
{
    if first_index(s, sep) < s.len() {
        seq![s.take(first_index(s, sep) as int)] + split_on(
            s.skip(first_index(s, sep) as int + 1),
            sep,
        )
    } else {
        seq![s]
    }
}

/// Pieces put back together with `sep` between them.
pub open spec fn joined_with(pieces: Seq<Seq<char>>, sep: char) -> Seq<char>
    decreases pieces.len(),
{
    if pieces.len() == 0 {
        Seq::empty()
    } else if pieces.len() == 1 {
        pieces[0]
    } else {
        pieces[0].push(sep) + joined_with(pieces.drop_first(), sep)
    }
}

proof fn lemma_first_index_facts(s: Seq<char>, c: char)
    ensures
        first_index(s, c) <= s.len(),
        first_index(s, c) < s.len() ==> s[first_index(s, c) as int] == c,
        forall|i: int| 0 <= i < first_index(s, c) ==> s[i] != c,
    decreases s.len(),
{
    if s.len() > 0 && s[0] != c {
        lemma_first_index_facts(s.drop_first(), c);
        assert forall|i: int| 0 <= i < first_index(s, c) implies s[i] != c by {
            if i > 0 {
                assert(s[i] == s.drop_first()[i - 1]);
            }
        }
    }
}

/// Splitting on a separator cuts the text at every separator and nowhere
/// else: there is at least one piece, no piece holds the separator, and the
/// pieces joined with it give the text back.
pub proof fn lemma_split_on_pieces(s: Seq<char>, sep: char)
    ensures
        split_on(s, sep).len() >= 1,
        forall|k: int| 0 <= k < split_on(s, sep).len() ==> !(#[trigger] split_on(s, sep)[k]).contains(sep),
        joined_with(split_on(s, sep), sep) == s,
    decreases s.len(),
{
    lemma_first_index_facts(s, sep);
    let f = first_index(s, sep);
    if f < s.len() {
        let rest = s.skip(f as int + 1);
        lemma_split_on_pieces(rest, sep);
        let head = s.take(f as int);
        let pieces = split_on(s, sep);
        assert(pieces == seq![head] + split_on(rest, sep));
        assert(!head.contains(sep)) by {
            if head.contains(sep) {
                let i = choose|i: int| 0 <= i < head.len() && head[i] == sep;
                assert(s[i] == sep);
            }
        }
        assert forall|k: int| 0 <= k < pieces.len() implies !(#[trigger] pieces[k]).contains(sep) by {
            if k > 0 {
                assert(pieces[k] == split_on(rest, sep)[k - 1]);
            }
        }
        assert(pieces.drop_first() =~= split_on(rest, sep));
        assert(joined_with(pieces, sep) == head.push(sep) + joined_with(split_on(rest, sep), sep));
        assert(head.push(sep) + rest =~= s);
    } else {
        assert(!s.contains(sep)) by {
            if s.contains(sep) {
                let i = choose|i: int| 0 <= i < s.len() && s[i] == sep;
            }
        }
    }
}

/// The position of the first `c` in `cs` from position `from` on, or the
/// length of `cs` where there is none.
pub fn find_char(cs: &Vec<char>, from: usize, c: char) -> (end: usize)
    requires
        from <= cs.len(),
    ensures
        from <= end <= cs.len(),
        end - from == first_index(cs@.skip(from as int), c),
        end < cs.len() ==> cs@[end as int] == c,
{
    let ghost s = cs@;
    let mut end: usize = from;
    while end < cs.len() && cs[end] != c
        invariant
            from <= end <= cs.len(),
            s == cs@,
            first_index(s.skip(from as int), c) == (end - from) + first_index(s.skip(end as int), c),
        decreases cs.len() - end,
    {
        assert(s.skip(end as int).drop_first() =~= s.skip(end + 1));
        end = end + 1;
    }
    if end < cs.len() {
        assert(s.skip(end as int)[0] == c);
    } else {
        assert(s.skip(end as int).len() == 0);
    }
    end
}

/// The characters of `cs` from position `from` up to, not including, `to`.
pub fn chars_between(cs: &Vec<char>, from: usize, to: usize) -> (out: Vec<char>)
    requires
        from <= to <= cs.len(),
    ensures
        out@ == cs@.subrange(from as int, to as int),
{
    let mut out: Vec<char> = Vec::new();
    let mut k: usize = from;
    while k < to
        invariant
            from <= k <= to <= cs.len(),
            out@ == cs@.subrange(from as int, k as int),
        decreases to - k,
    {
        out.push(cs[k]);
        assert(out@ =~= cs@.subrange(from as int, k + 1));
        k = k + 1;
    }
    out
}

/// The pieces of `cs` between the occurrences of `sep`.
pub fn split_chars(cs: &Vec<char>, sep: char) -> (pieces: Vec<Vec<char>>)
    ensures
        pieces.deep_view() == split_on(cs@, sep),
{
    let ghost s = cs@;
    let mut pieces: Vec<Vec<char>> = Vec::new();
    let mut pos: usize = 0;
    assert(s.skip(0) =~= s);
    loop
        invariant
            pos <= cs.len(),
            s == cs@,
            split_on(s, sep) == pieces.deep_view() + split_on(s.skip(pos as int), sep),
        decreases cs.len() - pos,
    {
        let ghost rest = s.skip(pos as int);
        let end: usize = find_char(cs, pos, sep);
        let piece = chars_between(cs, pos, end);
        let ghost before = pieces.deep_view();
        assert(piece.deep_view() =~= piece@);
        pieces.push(piece);
        assert(rest.take(end - pos) =~= s.subrange(pos as int, end as int));
        if end == cs.len() {
            assert(rest =~= s.subrange(pos as int, end as int));
            assert(pieces.deep_view() =~= before.push(rest));
            assert(split_on(s, sep) =~= pieces.deep_view());
            return pieces;
        }
        assert(rest.skip(end - pos + 1) =~= s.skip(end + 1));
        assert(pieces.deep_view() =~= before.push(rest.take(end - pos)));
        assert(split_on(s, sep) =~= pieces.deep_view() + split_on(s.skip(end + 1), sep));
        pos = end + 1;
    }
}

/// A text is not empty.
pub open spec fn non_empty() -> spec_fn(Seq<char>) -> bool {
    |t: Seq<char>| t.len() > 0
}

/// Filtering one more element of `s` keeps it or drops it by `pred`.
pub(crate) proof fn lemma_filter_step<A>(s: Seq<A>, pred: spec_fn(A) -> bool, i: int)
    requires
        0 <= i < s.len(),
    ensures
        s.take(i + 1).filter(pred) == if pred(s[i]) {
            s.take(i).filter(pred).push(s[i])
        } else {
            s.take(i).filter(pred)
        },
{
    reveal_with_fuel(Seq::filter, 1);
    assert(s.take(i + 1).drop_last() =~= s.take(i));
}

} // verus!
