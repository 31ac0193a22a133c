//! A small DNS client library: building a query, encoding it in the RFC 1035
//! wire format, and decoding a reply buffer into header, question and
//! resource-record sections.

use crate::text::join;
use vstd::prelude::*;

pub mod budget;
pub mod compression;
pub mod errors;
pub mod message;
pub mod question;
pub mod rdata;
pub mod resconf;
pub mod reuse;
pub mod roundtrip;
pub mod rr;
pub mod text;
pub mod utils;

verus! {

/// The text with a dot at its end: as it is where it ends in one, else with
/// one added.
pub open spec fn with_final_dot(text: Seq<char>) -> Seq<char> {
    if text.len() > 0 && text.last() == '.' {
        text
    } else {
        text.push('.')
    }
}

/// The pieces between the dots of `text`, from the piece that starts at
/// `start` on, of which the characters before `i` hold no dot.
pub open spec fn split_from(text: Seq<char>, start: int, i: int) -> Seq<Seq<char>>
    decreases text.len() - i,
{
    if i >= text.len() {
        seq![text.subrange(start, text.len() as int)]
    } else if text[i] == '.' {
        seq![text.subrange(start, i)] + split_from(text, i + 1, i + 1)
    } else {
        split_from(text, start, i + 1)
    }
}

/// The pieces between the dots of a text: one more than it has dots.
pub open spec fn split_dots(text: Seq<char>) -> Seq<Seq<char>> {
    split_from(text, 0, 0)
}

/// The pieces from `start` on hold no dot, and joined with dots they are
/// the text from `start` on.
proof fn lemma_split_from(text: Seq<char>, start: int, i: int)
    requires
        0 <= start <= i <= text.len(),
        forall|k: int| start <= k < i ==> text[k] != '.',
    ensures
        split_from(text, start, i).len() >= 1,
        join(split_from(text, start, i), "."@) == text.subrange(start, text.len() as int),
        forall|a: int, b: int|
            0 <= a < split_from(text, start, i).len() && 0 <= b < split_from(text, start, i)[a].len()
                ==> split_from(text, start, i)[a][b] != '.',
    decreases text.len() - i,
{
    reveal_strlit(".");
    let end = text.len() as int;
    if i >= text.len() {
    } else if text[i] == '.' {
        lemma_split_from(text, i + 1, i + 1);
        let first = text.subrange(start, i);
        let rest = split_from(text, i + 1, i + 1);
        let all = seq![first] + rest;
        assert(all.drop_first() =~= rest);
        assert(all[0] == first);
        assert(first + "."@ + text.subrange(i + 1, end) =~= text.subrange(start, end));
        assert forall|a: int, b: int| 0 <= a < all.len() && 0 <= b < all[a].len() implies all[a][b]
            != '.' by {
            if a > 0 {
                assert(all[a] == rest[a - 1]);
            }
        }
    } else {
        lemma_split_from(text, start, i + 1);
    }
}

/// The pieces of a text hold no dot, and joined with dots they are the text.
pub proof fn lemma_split_joins_back(text: Seq<char>)
    ensures
        join(split_dots(text), "."@) == text,
        forall|a: int, b: int|
            0 <= a < split_dots(text).len() && 0 <= b < split_dots(text)[a].len() ==> split_dots(
                text,
            )[a][b] != '.',
{
    lemma_split_from(text, 0, 0);
    assert(text.subrange(0, text.len() as int) =~= text);
}

/// What `idna::domain_to_ascii` makes of a text: its ASCII form, with
/// Punycode where the text needs it, or nothing where the text is refused.
pub uninterp spec fn idna_ascii(text: Seq<char>) -> Option<Seq<char>>;

/// `idna::domain_to_ascii`, its error dropped. Nothing is claimed of the
/// outcome but that it depends on the text alone.
#[verifier::external_body]
fn to_ascii(label: &str) -> (r: Option<String>)
    ensures
        match r {
            Some(ascii) => idna_ascii(label@) == Some(ascii@),
            None => idna_ascii(label@) is None,
        },
{
    idna::domain_to_ascii(label).ok()
}

/// A label in ASCII: its ASCII form where it has one, else the label as it is.
pub open spec fn ascii_or_same(label: Seq<char>) -> Seq<char> {
    match idna_ascii(label) {
        Some(ascii) => ascii,
        None => label,
    }
}

/// Each label in ASCII.
pub open spec fn ascii_labels(labels: Seq<Seq<char>>) -> Seq<Seq<char>> {
    Seq::new(labels.len(), |i: int| ascii_or_same(labels[i]))
}

/// Labels whose first is empty stand for the root alone: the last of them
/// is dropped.
pub open spec fn root_trimmed(labels: Seq<Seq<char>>) -> Seq<Seq<char>> {
    if labels.len() > 0 && labels[0].len() == 0 {
        labels.drop_last()
    } else {
        labels
    }
}

/// The labels of a name given as text: the pieces between its dots, with
/// an empty last label for the root, each in ASCII.
pub open spec fn parsed_name(name: Seq<char>) -> Seq<Seq<char>> {
    root_trimmed(ascii_labels(split_dots(with_final_dot(name))))
}

/// Splits a name at its dots, after adding a final dot where it has none.
pub fn split_name(name: &str) -> (pieces: Vec<String>)
    ensures
        pieces.deep_view() == split_dots(with_final_dot(name@)),
{
    let mut dotted: String = name.to_owned();
    let len: usize = name.unicode_len();
    if len == 0 || name.get_char(len - 1) != '.' {
        dotted.append(".");
        proof {
            reveal_strlit(".");
            assert(dotted@ =~= name@.push('.'));
        }
    }
    let text: &str = dotted.as_str();
    let n: usize = text.unicode_len();
    let mut pieces: Vec<String> = Vec::new();
    let mut start: usize = 0;
    let mut i: usize = 0;
    assert(pieces.deep_view() + split_from(text@, 0, 0) =~= split_from(text@, 0, 0));
    while i < n
        invariant
            start <= i <= n,
            n == text@.len(),
            split_dots(text@) == pieces.deep_view() + split_from(text@, start as int, i as int),
        decreases n - i,
    {
        if text.get_char(i) == '.' {
            let piece = text.substring_char(start, i).to_owned();
            let ghost before = pieces.deep_view();
            pieces.push(piece);
            proof {
                let rest = split_from(text@, i + 1, i + 1);
                assert(pieces.deep_view() =~= before.push(piece@));
                assert(before + (seq![piece@] + rest) =~= before.push(piece@) + rest);
            }
            start = i + 1;
        }
        i = i + 1;
    }
    let piece = text.substring_char(start, n).to_owned();
    let ghost before = pieces.deep_view();
    pieces.push(piece);
    assert(pieces.deep_view() =~= before + seq![piece@]);
    pieces
}

/// Drops the last label where the first is empty.
pub fn trim_root(labels: Vec<String>) -> (trimmed: Vec<String>)
    ensures
        trimmed.deep_view() == root_trimmed(labels.deep_view()),
{
    let mut labels = labels;
    if labels.len() > 0 && labels[0].as_str().unicode_len() == 0 {
        let ghost before = labels.deep_view();
        labels.pop();
        assert(labels.deep_view() =~= before.drop_last());
    }
    labels
}

/// A label in ASCII, given what the conversion made of it: the ASCII form
/// where there is one, else the label as it is.
pub fn ascii_or_label(ascii: Option<String>, label: &str) -> (chosen: String)
    ensures
        chosen@ == match ascii {
            Some(text) => text@,
            None => label@,
        },
{
    match ascii {
        Some(text) => text,
        None => label.to_owned(),
    }
}

/// The labels of a name given as text.
pub fn parse_name(name: String) -> (labels: Vec<String>)
    ensures
        labels.deep_view() == parsed_name(name@),
{
    let pieces = split_name(name.as_str());
    let mut labels: Vec<String> = Vec::new();
    let mut i: usize = 0;
    while i < pieces.len()
        invariant
            i <= pieces.len(),
            labels.len() == i,
            forall|k: int| 0 <= k < i ==> labels[k]@ == ascii_or_same(pieces[k]@),
        decreases pieces.len() - i,
    {
        let label = pieces[i].as_str();
        labels.push(ascii_or_label(to_ascii(label), label));
        i = i + 1;
    }
    assert(labels.deep_view() =~= ascii_labels(pieces.deep_view()));
    trim_root(labels)
}

} // verus!
