//! Compression over a whole message: the name of any question, wherever it
//! stands, ends in a pointer to the suffix that was written before it.

use crate::compression::{
    after_label, encode_labels, lemma_encode_name_keeps, lemma_known_suffix_is_pointed,
    lemma_new_keys_are_suffixes, lemma_suffix_texts_differ, plain_name, pointer_wire,
    without_root, Encoder,
};
use crate::message::{encode_question, encode_questions, header_wire, message_wire, MessageView};
use crate::question::QuestionView;
use crate::rdata::name_text;
use crate::roundtrip::{
    host_label, host_name, is_prefix, lemma_host_name_by_text, lemma_name_stable,
    lemma_question_reads_back, lemma_questions_read_back, readable, reads_as, reads_back,
    recorded,
};
use crate::utils::u16_wire;
use vstd::prelude::*;

verus! {

/// Every recorded offset is at or behind `floor`.
pub open spec fn recorded_from(st: Encoder, floor: int) -> bool {
    forall|key: Seq<char>| #[trigger] st.seen.contains_key(key) ==> st.seen[key] >= floor
}

/// The state of the encoder behind the header of a message.
pub open spec fn behind_header(m: MessageView) -> Encoder {
    Encoder { wire: header_wire(m), seen: Map::empty() }
}

/// The state of the encoder before question `j` of a message is written.
pub open spec fn before_question(m: MessageView, j: int) -> Encoder {
    encode_questions(m.question.take(j), behind_header(m))
}

/// Writing labels records nothing before the offset at which they start.
proof fn lemma_labels_record_from(labels: Seq<Seq<char>>, st: Encoder, floor: int)
    requires
        recorded_from(st, floor),
        st.wire.len() >= floor,
    ensures
        recorded_from(encode_labels(labels, st), floor),
{
    let r = encode_labels(labels, st);
    assert forall|key: Seq<char>| #[trigger] r.seen.contains_key(key) implies r.seen[key]
        >= floor by {
        if st.seen.contains_key(key) {
            lemma_encode_name_keeps(labels, st, key);
        } else {
            lemma_new_keys_are_suffixes(labels, st, key);
        }
    }
}

/// Before any question, what is recorded is decodable where it is recorded,
/// and nothing is recorded before `floor`; and the questions from the
/// `j`-th on are written from that state.
proof fn lemma_state_before(qs: Seq<QuestionView>, st: Encoder, j: int, floor: int)
    requires
        forall|i: int| 0 <= i < qs.len() ==> readable(#[trigger] qs[i]),
        reads_back(st, Set::empty(), st.wire.len()),
        recorded_from(st, floor),
        st.wire.len() >= floor,
        0 <= j <= qs.len(),
    ensures
        reads_back(
            encode_questions(qs.take(j), st),
            Set::empty(),
            encode_questions(qs.take(j), st).wire.len(),
        ),
        recorded_from(encode_questions(qs.take(j), st), floor),
        is_prefix(st.wire, encode_questions(qs.take(j), st).wire),
        encode_questions(qs, st) == encode_questions(
            qs.skip(j),
            encode_questions(qs.take(j), st),
        ),
    decreases j,
{
    if j == 0 {
        assert(qs.take(0).len() == 0);
        assert(qs.skip(0) =~= qs);
        assert(st.wire.subrange(0, st.wire.len() as int) =~= st.wire);
    } else {
        let rest = qs.drop_first();
        let next = encode_question(qs[0], st);
        assert(readable(qs[0]));
        assert forall|i: int| 0 <= i < rest.len() implies readable(#[trigger] rest[i]) by {
            assert(rest[i] == qs[i + 1]);
        }
        assert(next.wire.subrange(0, next.wire.len() as int) =~= next.wire);
        lemma_question_reads_back(qs[0], st, next.wire);
        lemma_labels_record_from(without_root(qs[0].qname), st, floor);
        assert(recorded_from(next, floor));
        lemma_state_before(rest, next, j - 1, floor);
        assert(qs.take(j).drop_first() =~= rest.take(j - 1));
        assert(qs.take(j)[0] == qs[0]);
        assert(rest.skip(j - 1) =~= qs.skip(j));
        let last = encode_questions(rest.take(j - 1), next);
        assert(forall|i: int|
            0 <= i < next.wire.len() ==> next.wire[i] == last.wire.subrange(
                0,
                next.wire.len() as int,
            )[i]);
        assert(forall|i: int|
            0 <= i < st.wire.len() ==> st.wire[i] == next.wire.subrange(0, st.wire.len() as int)[i]);
        assert(last.wire.subrange(0, st.wire.len() as int) =~= st.wire);
    }
}

/// Compression reuse, for any question of any message of readable
/// questions. Let `k` be the first label of question `j` from which on the
/// name was recorded when the question is written, which makes the labels
/// from `k` on the longest suffix that was written before. Then the
/// question is written as its labels before `k` in full, the two bytes of a
/// pointer, the type and the class; no label from `k` on is written again.
/// The pointer holds an offset behind the header and before the pointer
/// itself, and at that offset of the message stands the suffix: decoding
/// there gives the labels from `k` on.
pub proof fn lemma_question_reuses(m: MessageView, j: int, k: int)
    requires
        forall|i: int| 0 <= i < m.question.len() ==> readable(#[trigger] m.question[i]),
        0 <= j < m.question.len(),
        0 <= k < without_root(m.question[j].qname).len(),
        before_question(m, j).seen.contains_key(
            name_text(without_root(m.question[j].qname).skip(k)),
        ),
        forall|i: int|
            0 <= i < k ==> !before_question(m, j).seen.contains_key(
                #[trigger] name_text(without_root(m.question[j].qname).skip(i)),
            ),
    ensures
        ({
            let before = before_question(m, j);
            let labels = without_root(m.question[j].qname);
            let target = before.seen[name_text(labels.skip(k))];
            let pointer_at = before.wire.len() + plain_name(labels.take(k)).len();
            let written = encode_question(m.question[j], before);
            &&& written.wire == before.wire + plain_name(labels.take(k)) + pointer_wire(target)
                + u16_wire(m.question[j].qtype.code()) + u16_wire(m.question[j].qclass)
            &&& 12 <= target < pointer_at
            &&& target < 16384
            &&& is_prefix(before.wire, message_wire(m))
            &&& is_prefix(written.wire, message_wire(m))
            &&& reads_as(message_wire(m), target, message_wire(m).len(), labels.skip(k))
        }),
{
    let start = behind_header(m);
    let before = before_question(m, j);
    let labels = without_root(m.question[j].qname);
    let suffix = labels.skip(k);
    let target = before.seen[name_text(suffix)];
    let written = encode_question(m.question[j], before);
    let w = message_wire(m);
    assert(start.wire.len() == 12);
    lemma_state_before(m.question, start, j, 12);
    assert(readable(m.question[j]));
    lemma_known_suffix_is_pointed(labels, before, k);
    // the suffix is a recorded host name
    assert(host_name(suffix)) by {
        assert forall|i: int| 0 <= i < suffix.len() implies host_label(
            #[trigger] suffix[i],
        ) by {
            assert(suffix[i] == labels[i + k]);
        }
    }
    assert(recorded(before, Set::empty(), suffix));
    assert(before.seen.contains_key(name_text(suffix)));
    // what follows the question is written behind it
    let rest = m.question.skip(j);
    assert(rest[0] == m.question[j]);
    assert(rest.drop_first() =~= m.question.skip(j + 1));
    assert(encode_questions(rest, before) == encode_questions(m.question.skip(j + 1), written));
    assert(w.subrange(0, w.len() as int) =~= w);
    assert forall|i: int| 0 <= i < m.question.skip(j + 1).len() implies readable(
        #[trigger] m.question.skip(j + 1)[i],
    ) by {
        assert(m.question.skip(j + 1)[i] == m.question[i + j + 1]);
    }
    assert(written.wire.subrange(0, written.wire.len() as int) =~= written.wire);
    lemma_question_reads_back(m.question[j], before, written.wire);
    lemma_questions_read_back(m.question.skip(j + 1), written, w);
    assert(forall|i: int|
        0 <= i < written.wire.len() ==> written.wire[i] == w.subrange(
            0,
            written.wire.len() as int,
        )[i]);
    assert(forall|i: int|
        0 <= i < before.wire.len() ==> before.wire[i] == written.wire.subrange(
            0,
            before.wire.len() as int,
        )[i]);
    assert(w.subrange(0, before.wire.len() as int) =~= before.wire);
    lemma_name_stable(before.wire, w, target, before.wire.len(), w.len());
}

/// Label `a` of question `i` starts a suffix of that question's name with
/// the text `key`.
pub open spec fn suffix_text_at(qs: Seq<QuestionView>, i: int, a: int, key: Seq<char>) -> bool {
    &&& 0 <= i < qs.len()
    &&& 0 <= a < without_root(qs[i].qname).len()
    &&& key == name_text(without_root(qs[i].qname).skip(a))
}

/// Of every recorded host name of two labels or more that does not wait, the
/// name behind its first label is recorded too.
pub open spec fn closed(st: Encoder, pending: Set<Seq<char>>) -> bool {
    forall|name: Seq<Seq<char>>| #[trigger]
        recorded(st, pending, name) && name.len() >= 2 ==> st.seen.contains_key(
            name_text(name.drop_first()),
        )
}

/// Writing labels adds bytes.
proof fn lemma_labels_add_bytes(labels: Seq<Seq<char>>, st: Encoder)
    ensures
        encode_labels(labels, st).wire.len() > st.wire.len(),
    decreases labels.len(),
{
    if labels.len() > 0 && !st.seen.contains_key(name_text(labels)) {
        lemma_labels_add_bytes(labels.drop_first(), after_label(labels, st));
    }
}

/// Writing questions takes no bytes away.
proof fn lemma_questions_add_bytes(qs: Seq<QuestionView>, st: Encoder)
    ensures
        encode_questions(qs, st).wire.len() >= st.wire.len(),
    decreases qs.len(),
{
    if qs.len() > 0 {
        lemma_labels_add_bytes(without_root(qs[0].qname), st);
        lemma_questions_add_bytes(qs.drop_first(), encode_question(qs[0], st));
    }
}

/// Writing questions keeps what was recorded before them.
proof fn lemma_questions_keep(qs: Seq<QuestionView>, st: Encoder, key: Seq<char>)
    requires
        st.seen.contains_key(key),
    ensures
        encode_questions(qs, st).seen.contains_key(key),
        encode_questions(qs, st).seen[key] == st.seen[key],
    decreases qs.len(),
{
    if qs.len() > 0 {
        lemma_encode_name_keeps(without_root(qs[0].qname), st, key);
        lemma_questions_keep(qs.drop_first(), encode_question(qs[0], st), key);
    }
}

/// A suffix of labels of a host name is a host name.
proof fn lemma_suffix_is_host_name(labels: Seq<Seq<char>>, a: int)
    requires
        host_name(labels),
        0 <= a <= labels.len(),
    ensures
        host_name(labels.skip(a)),
{
    assert forall|i: int| 0 <= i < labels.skip(a).len() implies host_label(
        #[trigger] labels.skip(a)[i],
    ) by {
        assert(labels.skip(a)[i] == labels[i + a]);
    }
}

/// Of a recorded name, every suffix is recorded.
proof fn lemma_suffixes_of_recorded(
    st: Encoder,
    pending: Set<Seq<char>>,
    labels: Seq<Seq<char>>,
    a: int,
)
    requires
        closed(st, pending),
        host_name(labels),
        st.seen.contains_key(name_text(labels)),
        forall|k: int|
            0 <= k < labels.len() ==> !pending.contains(#[trigger] name_text(labels.skip(k))),
        0 <= a < labels.len(),
    ensures
        st.seen.contains_key(name_text(labels.skip(a))),
    decreases a,
{
    if a == 0 {
        assert(labels.skip(0) =~= labels);
    } else {
        lemma_suffixes_of_recorded(st, pending, labels, a - 1);
        let longer = labels.skip(a - 1);
        lemma_suffix_is_host_name(labels, a - 1);
        assert(longer.drop_first() =~= labels.skip(a));
        assert(recorded(st, pending, longer));
    }
}

/// Once labels of a host name are written, inside the first 16384 bytes of
/// the message, every suffix of them is recorded, and what is recorded
/// stays closed under dropping a first label.
proof fn lemma_labels_are_recorded(labels: Seq<Seq<char>>, st: Encoder, pending: Set<Seq<char>>)
    requires
        host_name(labels),
        closed(st, pending),
        forall|k: int|
            0 <= k < labels.len() ==> !pending.contains(#[trigger] name_text(labels.skip(k))),
        encode_labels(labels, st).wire.len() <= 16384,
    ensures
        forall|a: int|
            0 <= a < labels.len() ==> encode_labels(labels, st).seen.contains_key(
                #[trigger] name_text(labels.skip(a)),
            ),
        closed(encode_labels(labels, st), pending),
    decreases labels.len(),
{
    let r = encode_labels(labels, st);
    if labels.len() == 0 {
        assert forall|name: Seq<Seq<char>>| #[trigger]
            recorded(r, pending, name) && name.len() >= 2 implies r.seen.contains_key(
            name_text(name.drop_first()),
        ) by {
            assert(recorded(st, pending, name));
        }
    } else if st.seen.contains_key(name_text(labels)) {
        assert forall|a: int| 0 <= a < labels.len() implies r.seen.contains_key(
            #[trigger] name_text(labels.skip(a)),
        ) by {
            lemma_suffixes_of_recorded(st, pending, labels, a);
        }
        assert forall|name: Seq<Seq<char>>| #[trigger]
            recorded(r, pending, name) && name.len() >= 2 implies r.seen.contains_key(
            name_text(name.drop_first()),
        ) by {
            assert(recorded(st, pending, name));
        }
    } else {
        let text = name_text(labels);
        let rest = labels.drop_first();
        let next = after_label(labels, st);
        let waiting = pending.insert(text);
        assert(labels.skip(0) =~= labels);
        lemma_labels_add_bytes(rest, next);
        assert(next.seen == st.seen.insert(text, st.wire.len() as int));
        lemma_suffix_is_host_name(labels, 1);
        assert(labels.skip(1) =~= rest);
        assert forall|name: Seq<Seq<char>>| #[trigger]
            recorded(next, waiting, name) && name.len() >= 2 implies next.seen.contains_key(
            name_text(name.drop_first()),
        ) by {
            assert(recorded(st, pending, name));
        }
        assert forall|k: int| 0 <= k < rest.len() implies !waiting.contains(
            #[trigger] name_text(rest.skip(k)),
        ) by {
            assert(rest.skip(k) =~= labels.skip(k + 1));
            assert(!pending.contains(name_text(labels.skip(k + 1))));
            lemma_suffix_texts_differ(labels, 0, k + 1);
        }
        lemma_labels_are_recorded(rest, next, waiting);
        lemma_encode_name_keeps(rest, next, text);
        assert forall|a: int| 0 <= a < labels.len() implies r.seen.contains_key(
            #[trigger] name_text(labels.skip(a)),
        ) by {
            if a > 0 {
                assert(rest.skip(a - 1) =~= labels.skip(a));
                assert(r.seen.contains_key(name_text(rest.skip(a - 1))));
            }
        }
        assert forall|name: Seq<Seq<char>>| #[trigger]
            recorded(r, pending, name) && name.len() >= 2 implies r.seen.contains_key(
            name_text(name.drop_first()),
        ) by {
            if name_text(name) == text {
                lemma_host_name_by_text(name, labels);
                assert(rest.skip(0) =~= rest);
                assert(r.seen.contains_key(name_text(rest.skip(0))));
            } else {
                assert(recorded(r, waiting, name));
            }
        }
    }
}

/// Once questions are written, inside the first 16384 bytes of the message,
/// every suffix of the name of each of them is recorded.
proof fn lemma_written_suffixes_are_recorded(
    qs: Seq<QuestionView>,
    st: Encoder,
    j: int,
    i: int,
    a: int,
)
    requires
        forall|x: int| 0 <= x < qs.len() ==> readable(#[trigger] qs[x]),
        closed(st, Set::empty()),
        0 <= i < j <= qs.len(),
        0 <= a < without_root(qs[i].qname).len(),
        encode_questions(qs.take(j), st).wire.len() <= 16384,
    ensures
        encode_questions(qs.take(j), st).seen.contains_key(
            name_text(without_root(qs[i].qname).skip(a)),
        ),
    decreases j,
{
    let labels = without_root(qs[0].qname);
    let rest = qs.drop_first();
    let next = encode_question(qs[0], st);
    assert(readable(qs[0]));
    assert(qs.take(j).drop_first() =~= rest.take(j - 1));
    assert(qs.take(j)[0] == qs[0]);
    assert(encode_questions(qs.take(j), st) == encode_questions(rest.take(j - 1), next));
    lemma_questions_add_bytes(rest.take(j - 1), next);
    assert(next.seen == encode_labels(labels, st).seen);
    assert(encode_labels(labels, st).wire.len() <= next.wire.len());
    lemma_labels_are_recorded(labels, st, Set::empty());
    assert(closed(next, Set::empty())) by {
        assert forall|name: Seq<Seq<char>>| #[trigger]
            recorded(next, Set::empty(), name) && name.len() >= 2 implies next.seen.contains_key(
            name_text(name.drop_first()),
        ) by {
            assert(recorded(encode_labels(labels, st), Set::empty(), name));
        }
    }
    if i == 0 {
        lemma_questions_keep(rest.take(j - 1), next, name_text(labels.skip(a)));
    } else {
        assert forall|x: int| 0 <= x < rest.len() implies readable(#[trigger] rest[x]) by {
            assert(rest[x] == qs[x + 1]);
        }
        assert(rest[i - 1] == qs[i]);
        lemma_written_suffixes_are_recorded(rest, next, j - 1, i - 1, a);
    }
}

/// What is recorded before a question, and was not recorded before the
/// first, is the text of a suffix of the name of an earlier question.
proof fn lemma_recorded_was_written(qs: Seq<QuestionView>, st: Encoder, j: int, key: Seq<char>)
    requires
        0 <= j <= qs.len(),
        encode_questions(qs.take(j), st).seen.contains_key(key),
        !st.seen.contains_key(key),
    ensures
        exists|i: int, a: int| 0 <= i < j && #[trigger] suffix_text_at(qs, i, a, key),
    decreases j,
{
    if j == 0 {
        assert(qs.take(0).len() == 0);
    } else {
        let labels = without_root(qs[0].qname);
        let rest = qs.drop_first();
        let next = encode_question(qs[0], st);
        assert(qs.take(j).drop_first() =~= rest.take(j - 1));
        assert(qs.take(j)[0] == qs[0]);
        assert(encode_questions(qs.take(j), st) == encode_questions(rest.take(j - 1), next));
        if next.seen.contains_key(key) {
            lemma_new_keys_are_suffixes(labels, st, key);
            let a = choose|a: int| 0 <= a < labels.len() && key == #[trigger] name_text(labels.skip(a));
            assert(suffix_text_at(qs, 0, a, key));
        } else {
            lemma_recorded_was_written(rest, next, j - 1, key);
            let (i, a) = choose|i: int, a: int|
                0 <= i < j - 1 && #[trigger] suffix_text_at(rest, i, a, key);
            assert(rest[i] == qs[i + 1]);
            assert(suffix_text_at(qs, i + 1, a, key));
        }
    }
}

/// The labels of question `x` from label `c` on.
pub open spec fn suffix_at(qs: Seq<QuestionView>, x: int, c: int) -> Seq<Seq<char>> {
    without_root(qs[x].qname).skip(c)
}

/// The labels of question `j` from label `b` on are a suffix of the name of
/// an earlier question.
pub open spec fn shared_before(qs: Seq<QuestionView>, j: int, b: int) -> bool {
    exists|x: int, c: int|
        0 <= x < j && 0 <= c < without_root(qs[x].qname).len() && #[trigger] suffix_at(qs, x, c)
            == suffix_at(qs, j, b)
}

/// Compression reuse, stated of the names alone. In a message of readable
/// questions that is written inside 16384 bytes, let the labels of
/// question `j` from `k` on be a suffix of the name of an earlier question,
/// and let no longer suffix of the name of question `j` be one. Then
/// question `j` is written as its labels before `k` in full, a pointer, the
/// type and the class; the pointer holds an offset behind the header and
/// before the pointer itself, and decoding at that offset of the message
/// gives the shared labels. No shared label is written again.
pub proof fn lemma_shared_suffix_is_pointed(m: MessageView, j: int, k: int)
    requires
        forall|x: int| 0 <= x < m.question.len() ==> readable(#[trigger] m.question[x]),
        message_wire(m).len() <= 16384,
        0 <= j < m.question.len(),
        0 <= k < without_root(m.question[j].qname).len(),
        shared_before(m.question, j, k),
        forall|b: int| 0 <= b < k ==> !#[trigger] shared_before(m.question, j, b),
    ensures
        ({
            let before = before_question(m, j);
            let labels = without_root(m.question[j].qname);
            let target = before.seen[name_text(labels.skip(k))];
            let pointer_at = before.wire.len() + plain_name(labels.take(k)).len();
            let written = encode_question(m.question[j], before);
            &&& written.wire == before.wire + plain_name(labels.take(k)) + pointer_wire(target)
                + u16_wire(m.question[j].qtype.code()) + u16_wire(m.question[j].qclass)
            &&& 12 <= target < pointer_at
            &&& is_prefix(written.wire, message_wire(m))
            &&& reads_as(message_wire(m), target, message_wire(m).len(), labels.skip(k))
        }),
{
    let start = behind_header(m);
    let before = before_question(m, j);
    let labels = without_root(m.question[j].qname);
    lemma_state_before(m.question, start, j, 12);
    lemma_questions_add_bytes(m.question.skip(j), before);
    assert(closed(start, Set::empty()));
    let (i, a) = choose|x: int, c: int|
        0 <= x < j && 0 <= c < without_root(m.question[x].qname).len() && #[trigger] suffix_at(
            m.question,
            x,
            c,
        ) == suffix_at(m.question, j, k);
    lemma_written_suffixes_are_recorded(m.question, start, j, i, a);
    assert(readable(m.question[j]));
    assert forall|b: int| 0 <= b < k implies !before.seen.contains_key(
        #[trigger] name_text(labels.skip(b)),
    ) by {
        let key = name_text(labels.skip(b));
        if before.seen.contains_key(key) {
            lemma_recorded_was_written(m.question, start, j, key);
            let (x, c) = choose|x: int, c: int|
                0 <= x < j && #[trigger] suffix_text_at(m.question, x, c, key);
            assert(readable(m.question[x]));
            lemma_suffix_is_host_name(labels, b);
            lemma_suffix_is_host_name(without_root(m.question[x].qname), c);
            lemma_host_name_by_text(labels.skip(b), without_root(m.question[x].qname).skip(c));
            assert(suffix_at(m.question, x, c) == suffix_at(m.question, j, b));
            assert(shared_before(m.question, j, b));
        }
    }
    lemma_question_reuses(m, j, k);
}

} // verus!
