//! What is written can be read: the questions of a query decode from its
//! encoding, pointers and all.

use crate::compression::{
    after_label, encode_labels, encode_name, label_wire, lemma_encode_name_keeps,
    lemma_new_keys_are_suffixes, lemma_suffix_texts_differ, pointer_wire, without_root, Encoder,
};
use crate::errors::ParseError;
use crate::message::{
    encode_question, encode_questions, header_wire, message_spec, message_wire, questions_spec,
    query_view, rrset_spec, MessageMeta, MessageView,
};
use crate::question::{question_spec, QType, QuestionView};
use crate::rdata::name_text;
use crate::rr::{u16_at, RRView};
use crate::utils::{name_at, pointer_target, u16_wire};
use vstd::prelude::*;
use vstd::utf8::{
    decode_utf8, encode_utf8, encode_utf8_decode_utf8, encode_utf8_valid_utf8, valid_utf8,
};

verus! {

/// A label of a host name: not empty, without a dot, and of at most 63 bytes.
pub open spec fn host_label(label: Seq<char>) -> bool {
    &&& 1 <= encode_utf8(label).len() <= 63
    &&& forall|i: int| 0 <= i < label.len() ==> label[i] != '.'
}

/// The labels of a host name: each of them a host label. The root, which
/// ends every name, is not among them.
pub open spec fn host_name(labels: Seq<Seq<char>>) -> bool {
    forall|i: int| 0 <= i < labels.len() ==> host_label(#[trigger] labels[i])
}

/// `short` is how `long` begins.
pub open spec fn is_prefix(short: Seq<u8>, long: Seq<u8>) -> bool {
    short.len() <= long.len() && long.subrange(0, short.len() as int) == short
}

/// A name that decodes still decodes, to the same, when bytes are added
/// behind the message and steps to the budget.
pub proof fn lemma_name_stable(w: Seq<u8>, longer: Seq<u8>, offset: int, steps: nat, more: nat)
    requires
        name_at(w, offset, steps) is Ok,
        is_prefix(w, longer),
        steps <= more,
    ensures
        name_at(longer, offset, more) == name_at(w, offset, steps),
    decreases steps,
{
    assert(forall|i: int| 0 <= i < w.len() ==> w[i] == longer.subrange(0, w.len() as int)[i]);
    let b = w[offset];
    assert(longer[offset] == b);
    if b == 0 {
    } else if b >= 192 {
        assert(longer[offset + 1] == w[offset + 1]);
        lemma_name_stable(
            w,
            longer,
            pointer_target(b, w[offset + 1]),
            (steps - 1) as nat,
            (more - 1) as nat,
        );
    } else {
        assert(longer.subrange(offset + 1, offset + 1 + b) =~= w.subrange(
            offset + 1,
            offset + 1 + b,
        ));
        lemma_name_stable(w, longer, offset + 1 + b, (steps - 1) as nat, (more - 1) as nat);
    }
}

/// The text of a host name is its one label, which holds no dot, or starts
/// with its first label and a dot.
proof fn lemma_host_name_text(labels: Seq<Seq<char>>)
    requires
        host_name(labels),
        labels.len() >= 1,
    ensures
        host_label(labels[0]),
        labels[0].len() >= 1,
        labels.len() == 1 ==> name_text(labels) == labels[0],
        labels.len() > 1 ==> name_text(labels) == labels[0] + seq!['.'] + name_text(
            labels.drop_first(),
        ) && host_name(labels.drop_first()),
{
    reveal_strlit(".");
    assert("."@ =~= seq!['.']);
    assert(host_label(labels[0]));
    if labels[0].len() == 0 {
        assert(labels[0] =~= Seq::<char>::empty());
    }
    if labels.len() > 1 {
        let rest = labels.drop_first();
        assert forall|i: int| 0 <= i < rest.len() implies host_label(#[trigger] rest[i]) by {
            assert(rest[i] == labels[i + 1]);
        }
    }
}

/// Two host names with the same text are the same name.
pub proof fn lemma_host_name_by_text(a: Seq<Seq<char>>, b: Seq<Seq<char>>)
    requires
        host_name(a),
        host_name(b),
        a.len() >= 1,
        b.len() >= 1,
        name_text(a) == name_text(b),
    ensures
        a == b,
    decreases a.len(),
{
    lemma_host_name_text(a);
    lemma_host_name_text(b);
    let text = name_text(a);
    let la = a[0].len() as int;
    let lb = b[0].len() as int;
    if a.len() > 1 {
        assert(text[la] == '.');
    }
    if b.len() > 1 {
        assert(text[lb] == '.');
    }
    if a.len() == 1 && b.len() == 1 {
        assert(a =~= b);
    } else if a.len() == 1 {
        assert(text[lb] == a[0][lb]);
    } else if b.len() == 1 {
        assert(text[la] == b[0][la]);
    } else {
        let ra = name_text(a.drop_first());
        let rb = name_text(b.drop_first());
        if la < lb {
            assert(text[la] == b[0][la]);
        }
        if lb < la {
            assert(text[lb] == a[0][lb]);
        }
        assert(la == lb);
        assert(a[0] =~= text.subrange(0, la));
        assert(b[0] =~= text.subrange(0, la));
        assert(ra =~= text.subrange(la + 1, text.len() as int));
        assert(rb =~= text.subrange(la + 1, text.len() as int));
        lemma_host_name_by_text(a.drop_first(), b.drop_first());
        assert(a =~= seq![a[0]] + a.drop_first());
        assert(b =~= seq![b[0]] + b.drop_first());
    }
}

/// The name at `offset` decodes, within `steps`, to `labels`.
pub open spec fn reads_as(w: Seq<u8>, offset: int, steps: nat, labels: Seq<Seq<char>>) -> bool {
    name_at(w, offset, steps) is Ok && name_at(w, offset, steps)->Ok_0.0 == labels
}

/// A host name of at least one label whose text is recorded, and is not
/// among the `pending` ones.
pub open spec fn recorded(st: Encoder, pending: Set<Seq<char>>, name: Seq<Seq<char>>) -> bool {
    &&& host_name(name)
    &&& name.len() >= 1
    &&& st.seen.contains_key(name_text(name))
    &&& !pending.contains(name_text(name))
}

/// Every recorded host name is recorded at an offset that a pointer can
/// hold and at which the name decodes within `steps`.
pub open spec fn reads_back(st: Encoder, pending: Set<Seq<char>>, steps: nat) -> bool {
    forall|name: Seq<Seq<char>>| #[trigger]
        recorded(st, pending, name) ==> {
            &&& 0 <= st.seen[name_text(name)] < st.wire.len()
            &&& st.seen[name_text(name)] < 16384
            &&& reads_as(st.wire, st.seen[name_text(name)], steps, name)
        }
}

/// A pointer on the wire holds its target.
proof fn lemma_pointer_wire(target: int)
    requires
        0 <= target < 16384,
    ensures
        pointer_wire(target).len() == 2,
        pointer_wire(target)[0] >= 192,
        pointer_target(pointer_wire(target)[0], pointer_wire(target)[1]) == target,
{
}

/// A host label on the wire: its length, then bytes that decode to it.
proof fn lemma_label_wire(label: Seq<char>)
    requires
        encode_utf8(label).len() <= 63,
    ensures
        label_wire(label).len() == 1 + encode_utf8(label).len(),
        label_wire(label)[0] == encode_utf8(label).len(),
        label_wire(label).subrange(1, label_wire(label).len() as int) == encode_utf8(label),
        valid_utf8(encode_utf8(label)),
        decode_utf8(encode_utf8(label)) == label,
        label.len() == 0 ==> encode_utf8(label).len() == 0,
{
    encode_utf8_valid_utf8(label);
    encode_utf8_decode_utf8(label);
    assert(label_wire(label).subrange(1, label_wire(label).len() as int) =~= encode_utf8(label));
}

/// What is recorded stays decodable when bytes are added behind the
/// message and steps to the budget.
proof fn lemma_reads_back_grows(
    st: Encoder,
    longer: Encoder,
    pending: Set<Seq<char>>,
    steps: nat,
    more: nat,
)
    requires
        reads_back(st, pending, steps),
        is_prefix(st.wire, longer.wire),
        longer.seen == st.seen,
        steps <= more,
    ensures
        reads_back(longer, pending, more),
{
    assert forall|name: Seq<Seq<char>>| #[trigger] recorded(longer, pending, name) implies {
        &&& 0 <= longer.seen[name_text(name)] < longer.wire.len()
        &&& longer.seen[name_text(name)] < 16384
        &&& reads_as(longer.wire, longer.seen[name_text(name)], more, name)
    } by {
        assert(recorded(st, pending, name));
        lemma_name_stable(st.wire, longer.wire, st.seen[name_text(name)], steps, more);
    }
}

/// Before the labels behind a first label are written: what was recorded
/// and did not wait is still decodable, and nothing of the labels to come
/// waits.
proof fn lemma_before_rest(
    labels: Seq<Seq<char>>,
    st: Encoder,
    pending: Set<Seq<char>>,
    steps: nat,
)
    requires
        host_name(labels),
        labels.len() >= 1,
        !st.seen.contains_key(name_text(labels)),
        reads_back(st, pending, steps),
        forall|k: int|
            0 <= k < labels.len() ==> !pending.contains(#[trigger] name_text(labels.skip(k))),
    ensures
        host_name(labels.drop_first()),
        reads_back(after_label(labels, st), pending.insert(name_text(labels)), steps),
        forall|k: int|
            0 <= k < labels.drop_first().len() ==> !pending.insert(name_text(labels)).contains(
                #[trigger] name_text(labels.drop_first().skip(k)),
            ),
{
    let rest = labels.drop_first();
    let next = after_label(labels, st);
    let waiting = pending.insert(name_text(labels));
    let p = st.wire.len() as int;
    assert(next.wire.subrange(0, p) =~= st.wire);
    assert forall|i: int| 0 <= i < rest.len() implies host_label(#[trigger] rest[i]) by {
        assert(rest[i] == labels[i + 1]);
    }
    assert forall|name: Seq<Seq<char>>| #[trigger] recorded(next, waiting, name) implies {
        &&& 0 <= next.seen[name_text(name)] < next.wire.len()
        &&& next.seen[name_text(name)] < 16384
        &&& reads_as(next.wire, next.seen[name_text(name)], steps, name)
    } by {
        assert(recorded(st, pending, name));
        lemma_name_stable(st.wire, next.wire, st.seen[name_text(name)], steps, steps);
    }
    assert forall|k: int| 0 <= k < rest.len() implies !waiting.contains(
        #[trigger] name_text(rest.skip(k)),
    ) by {
        assert(rest.skip(k) =~= labels.skip(k + 1));
        assert(labels.skip(0) =~= labels);
        assert(!pending.contains(name_text(labels.skip(k + 1))));
        lemma_suffix_texts_differ(labels, 0, k + 1);
    }
}

/// Once the labels behind a first label are written and decode, the whole
/// name decodes where its first label stands, and is decodable where it is
/// recorded.
proof fn lemma_after_rest(
    labels: Seq<Seq<char>>,
    st: Encoder,
    pending: Set<Seq<char>>,
    steps: nat,
)
    requires
        host_name(labels),
        labels.len() >= 1,
        !st.seen.contains_key(name_text(labels)),
        !pending.contains(name_text(labels)),
        is_prefix(
            after_label(labels, st).wire,
            encode_labels(labels.drop_first(), after_label(labels, st)).wire,
        ),
        name_at(
            encode_labels(labels, st).wire,
            after_label(labels, st).wire.len() as int,
            (steps + encode_labels(labels, st).wire.len() - after_label(labels, st).wire.len()) as nat,
        ) == Ok::<(Seq<Seq<char>>, int), ParseError>(
            (labels.drop_first(), encode_labels(labels, st).wire.len() as int),
        ),
        reads_back(
            encode_labels(labels, st),
            pending.insert(name_text(labels)),
            (steps + encode_labels(labels, st).wire.len() - after_label(labels, st).wire.len()) as nat,
        ),
    ensures
        is_prefix(st.wire, encode_labels(labels, st).wire),
        name_at(
            encode_labels(labels, st).wire,
            st.wire.len() as int,
            (steps + encode_labels(labels, st).wire.len() - st.wire.len()) as nat,
        ) == Ok::<(Seq<Seq<char>>, int), ParseError>(
            (labels, encode_labels(labels, st).wire.len() as int),
        ),
        reads_back(
            encode_labels(labels, st),
            pending,
            (steps + encode_labels(labels, st).wire.len() - st.wire.len()) as nat,
        ),
{
    let r = encode_labels(labels, st);
    let p = st.wire.len() as int;
    let text = name_text(labels);
    let rest = labels.drop_first();
    let next = after_label(labels, st);
    let waiting = pending.insert(text);
    let len = encode_utf8(labels[0]).len() as int;
    let inner = (steps + r.wire.len() - next.wire.len()) as nat;
    let grown = (steps + r.wire.len() - p) as nat;
    assert(labels.skip(0) =~= labels);
    lemma_host_name_text(labels);
    lemma_label_wire(labels[0]);
    assert(r == encode_labels(rest, next));
    assert(next.wire.subrange(0, p) =~= st.wire);
    assert(next.wire[p] == label_wire(labels[0])[0]);
    assert(next.wire.subrange(p + 1, p + 1 + len) =~= encode_utf8(labels[0]));
    assert(forall|i: int|
        0 <= i < next.wire.len() ==> next.wire[i] == r.wire.subrange(0, next.wire.len() as int)[i]);
    assert(r.wire[p] == next.wire[p]);
    assert(r.wire.subrange(p + 1, p + 1 + len) =~= encode_utf8(labels[0]));
    assert(r.wire.subrange(0, p) =~= st.wire);
    assert(r.wire.subrange(0, r.wire.len() as int) =~= r.wire);
    lemma_name_stable(r.wire, r.wire, p + 1 + len, inner, (grown - 1) as nat);
    assert(labels =~= seq![labels[0]] + rest);
    assert(name_at(r.wire, p, grown) == Ok::<(Seq<Seq<char>>, int), ParseError>(
        (labels, r.wire.len() as int),
    ));
    assert forall|name: Seq<Seq<char>>| #[trigger] recorded(r, pending, name) implies {
        &&& 0 <= r.seen[name_text(name)] < r.wire.len()
        &&& r.seen[name_text(name)] < 16384
        &&& reads_as(r.wire, r.seen[name_text(name)], grown, name)
    } by {
        if name_text(name) == text {
            lemma_host_name_by_text(name, labels);
            if !next.seen.contains_key(text) {
                lemma_new_keys_are_suffixes(rest, next, text);
                let k = choose|k: int|
                    0 <= k < rest.len() && text == #[trigger] name_text(rest.skip(k));
                assert(rest.skip(k) =~= labels.skip(k + 1));
                lemma_suffix_texts_differ(labels, 0, k + 1);
            }
            lemma_encode_name_keeps(rest, next, text);
        } else {
            assert(recorded(r, waiting, name));
            lemma_name_stable(r.wire, r.wire, r.seen[name_text(name)], inner, grown);
        }
    }
}

/// Writing the labels of a host name, and the root behind them, leaves a
/// message from which the name decodes where it was written, and keeps every
/// recorded name decodable where it is recorded; the steps needed grow by no
/// more than the bytes written.
pub proof fn lemma_name_reads_back(
    labels: Seq<Seq<char>>,
    st: Encoder,
    pending: Set<Seq<char>>,
    steps: nat,
)
    requires
        host_name(labels),
        reads_back(st, pending, steps),
        forall|k: int|
            0 <= k < labels.len() ==> !pending.contains(#[trigger] name_text(labels.skip(k))),
    ensures
        is_prefix(st.wire, encode_labels(labels, st).wire),
        encode_labels(labels, st).wire.len() > st.wire.len(),
        name_at(
            encode_labels(labels, st).wire,
            st.wire.len() as int,
            (steps + encode_labels(labels, st).wire.len() - st.wire.len()) as nat,
        ) == Ok::<(Seq<Seq<char>>, int), ParseError>(
            (labels, encode_labels(labels, st).wire.len() as int),
        ),
        reads_back(
            encode_labels(labels, st),
            pending,
            (steps + encode_labels(labels, st).wire.len() - st.wire.len()) as nat,
        ),
    decreases labels.len(),
{
    let r = encode_labels(labels, st);
    let p = st.wire.len() as int;
    let grown = (steps + r.wire.len() - p) as nat;
    if labels.len() == 0 {
        assert(r.wire.subrange(0, p) =~= st.wire);
        assert(r.wire[p] == 0);
        assert(labels =~= Seq::<Seq<char>>::empty());
        lemma_reads_back_grows(st, r, pending, steps, grown);
    } else if st.seen.contains_key(name_text(labels)) {
        let text = name_text(labels);
        assert(labels.skip(0) =~= labels);
        assert(recorded(st, pending, labels));
        let t = st.seen[text];
        lemma_pointer_wire(t);
        assert(r.wire == st.wire + pointer_wire(t));
        assert(r.wire.subrange(0, p) =~= st.wire);
        assert(r.wire[p] == pointer_wire(t)[0]);
        assert(r.wire[p + 1] == pointer_wire(t)[1]);
        lemma_name_stable(st.wire, r.wire, t, steps, (steps + 1) as nat);
        lemma_reads_back_grows(st, r, pending, steps, grown);
    } else {
        assert(labels.skip(0) =~= labels);
        lemma_before_rest(labels, st, pending, steps);
        lemma_name_reads_back(
            labels.drop_first(),
            after_label(labels, st),
            pending.insert(name_text(labels)),
            steps,
        );
        lemma_after_rest(labels, st, pending, steps);
    }
}

/// A question that can be read back: its name is a host name, with or
/// without an empty last label for the root, and its type is the one that
/// its code stands for.
pub open spec fn readable(q: QuestionView) -> bool {
    &&& host_name(without_root(q.qname))
    &&& QType::of_code(q.qtype.code()) == Some(q.qtype)
}

/// A question as it is read back: the same, its name without an empty last
/// label, which a decoded name never holds.
pub open spec fn read_back(q: QuestionView) -> QuestionView {
    QuestionView { qname: without_root(q.qname), qtype: q.qtype, qclass: q.qclass }
}

/// Each question as it is read back.
pub open spec fn read_backs(qs: Seq<QuestionView>) -> Seq<QuestionView> {
    Seq::new(qs.len(), |i: int| read_back(qs[i]))
}

/// A 16-bit value is read from its two bytes on the wire.
proof fn lemma_u16_at(w: Seq<u8>, offset: int, value: u16)
    requires
        0 <= offset,
        offset + 2 <= w.len(),
        w.subrange(offset, offset + 2) == u16_wire(value),
    ensures
        u16_at(w, offset) == value,
{
    assert(w[offset] == w.subrange(offset, offset + 2)[0]);
    assert(w[offset + 1] == w.subrange(offset, offset + 2)[1]);
}

/// Being a prefix carries over.
proof fn lemma_prefix_of_prefix(a: Seq<u8>, b: Seq<u8>, c: Seq<u8>)
    requires
        is_prefix(a, b),
        is_prefix(b, c),
    ensures
        is_prefix(a, c),
{
    assert(forall|i: int| 0 <= i < b.len() ==> b[i] == c.subrange(0, b.len() as int)[i]);
    assert(forall|i: int| 0 <= i < a.len() ==> a[i] == b.subrange(0, a.len() as int)[i]);
    assert(c.subrange(0, a.len() as int) =~= a);
}

/// Writing a readable question leaves a message from which, whatever is
/// written behind it, the question is read back where it was written; and
/// every recorded name stays decodable.
pub proof fn lemma_question_reads_back(q: QuestionView, st: Encoder, w: Seq<u8>)
    requires
        readable(q),
        reads_back(st, Set::empty(), st.wire.len()),
        is_prefix(encode_question(q, st).wire, w),
    ensures
        is_prefix(st.wire, encode_question(q, st).wire),
        reads_back(encode_question(q, st), Set::empty(), encode_question(q, st).wire.len()),
        question_spec(w, st.wire.len() as int) == Ok::<(QuestionView, int), ParseError>(
            (read_back(q), encode_question(q, st).wire.len() as int),
        ),
{
    let named = encode_name(q.qname, st);
    let r = encode_question(q, st);
    let fixed = named.wire.len() as int;
    lemma_name_reads_back(without_root(q.qname), st, Set::empty(), st.wire.len());
    assert(r.wire == named.wire + u16_wire(q.qtype.code()) + u16_wire(q.qclass));
    assert(r.wire.subrange(0, fixed) =~= named.wire);
    assert(is_prefix(named.wire, r.wire));
    lemma_prefix_of_prefix(st.wire, named.wire, r.wire);
    lemma_prefix_of_prefix(named.wire, r.wire, w);
    lemma_reads_back_grows(named, r, Set::empty(), named.wire.len(), r.wire.len());
    lemma_name_stable(named.wire, w, st.wire.len() as int, named.wire.len(), w.len());
    let qtype_wire = u16_wire(q.qtype.code());
    let qclass_wire = u16_wire(q.qclass);
    assert(r.wire.len() == fixed + 4);
    assert(r.wire[fixed] == qtype_wire[0] && r.wire[fixed + 1] == qtype_wire[1]);
    assert(r.wire[fixed + 2] == qclass_wire[0] && r.wire[fixed + 3] == qclass_wire[1]);
    assert(forall|i: int|
        0 <= i < r.wire.len() ==> r.wire[i] == w.subrange(0, r.wire.len() as int)[i]);
    assert(w[fixed] == r.wire[fixed] && w[fixed + 1] == r.wire[fixed + 1]);
    assert(w[fixed + 2] == r.wire[fixed + 2] && w[fixed + 3] == r.wire[fixed + 3]);
    assert(w.subrange(fixed, fixed + 2) =~= qtype_wire);
    assert(w.subrange(fixed + 2, fixed + 4) =~= qclass_wire);
    lemma_u16_at(w, fixed, q.qtype.code());
    lemma_u16_at(w, fixed + 2, q.qclass);
}

/// Writing readable questions leaves a message from which, whatever is
/// written behind them, they are read back in their order.
pub proof fn lemma_questions_read_back(qs: Seq<QuestionView>, st: Encoder, w: Seq<u8>)
    requires
        forall|i: int| 0 <= i < qs.len() ==> readable(#[trigger] qs[i]),
        reads_back(st, Set::empty(), st.wire.len()),
        is_prefix(encode_questions(qs, st).wire, w),
    ensures
        is_prefix(st.wire, encode_questions(qs, st).wire),
        questions_spec(w, st.wire.len() as int, qs.len()) == Ok::<
            (Seq<QuestionView>, int),
            ParseError,
        >((read_backs(qs), encode_questions(qs, st).wire.len() as int)),
    decreases qs.len(),
{
    if qs.len() == 0 {
        assert(st.wire.subrange(0, st.wire.len() as int) =~= st.wire);
        assert(read_backs(qs) =~= Seq::<QuestionView>::empty());
    } else {
        let rest = qs.drop_first();
        let next = encode_question(qs[0], st);
        assert(readable(qs[0]));
        assert forall|i: int| 0 <= i < rest.len() implies readable(#[trigger] rest[i]) by {
            assert(rest[i] == qs[i + 1]);
        }
        assert(next.wire.subrange(0, next.wire.len() as int) =~= next.wire);
        lemma_question_reads_back(qs[0], st, next.wire);
        lemma_questions_read_back(rest, next, w);
        lemma_prefix_of_prefix(next.wire, encode_questions(rest, next).wire, w);
        lemma_question_reads_back(qs[0], st, w);
        lemma_prefix_of_prefix(st.wire, next.wire, encode_questions(rest, next).wire);
        assert(read_backs(qs) =~= seq![read_back(qs[0])] + read_backs(rest));
    }
}

/// The fields of the header are read from its twelve bytes.
proof fn lemma_header_reads_back(m: MessageView, w: Seq<u8>)
    requires
        m.meta.wf(),
        is_prefix(header_wire(m), w),
    ensures
        w.len() >= 12,
        u16_at(w, 0) == m.id,
        MessageMeta::unpacked(u16_at(w, 2)) == m.meta,
        u16_at(w, 4) == m.qdcount,
        u16_at(w, 6) == m.ancount,
        u16_at(w, 8) == m.nscount,
        u16_at(w, 10) == m.arcount,
{
    let header = header_wire(m);
    MessageMeta::lemma_pack_unpack(m.meta);
    let packed = m.meta.packed() as u16;
    assert(m.meta.wire() =~= u16_wire(packed));
    assert(header =~= u16_wire(m.id) + u16_wire(packed) + u16_wire(m.qdcount) + u16_wire(
        m.ancount,
    ) + u16_wire(m.nscount) + u16_wire(m.arcount));
    assert(header.len() == 12);
    assert(forall|i: int| 0 <= i < 12 ==> header[i] == w.subrange(0, 12)[i]);
    assert(w.subrange(0, 2) =~= u16_wire(m.id)) by {
        assert(w[0] == header[0] && w[1] == header[1]);
    }
    assert(w.subrange(2, 4) =~= u16_wire(packed)) by {
        assert(w[2] == header[2] && w[3] == header[3]);
    }
    assert(w.subrange(4, 6) =~= u16_wire(m.qdcount)) by {
        assert(w[4] == header[4] && w[5] == header[5]);
    }
    assert(w.subrange(6, 8) =~= u16_wire(m.ancount)) by {
        assert(w[6] == header[6] && w[7] == header[7]);
    }
    assert(w.subrange(8, 10) =~= u16_wire(m.nscount)) by {
        assert(w[8] == header[8] && w[9] == header[9]);
    }
    assert(w.subrange(10, 12) =~= u16_wire(m.arcount)) by {
        assert(w[10] == header[10] && w[11] == header[11]);
    }
    lemma_u16_at(w, 0, m.id);
    lemma_u16_at(w, 2, packed);
    lemma_u16_at(w, 4, m.qdcount);
    lemma_u16_at(w, 6, m.ancount);
    lemma_u16_at(w, 8, m.nscount);
    lemma_u16_at(w, 10, m.arcount);
}

/// A message whose header counts no resource records is its header and
/// its questions.
proof fn lemma_message_without_records(w: Seq<u8>, questions: Seq<QuestionView>, end: int)
    requires
        w.len() >= 12,
        questions_spec(w, 12, u16_at(w, 4) as nat) == Ok::<(Seq<QuestionView>, int), ParseError>(
            (questions, end),
        ),
        u16_at(w, 6) == 0,
        u16_at(w, 8) == 0,
        u16_at(w, 10) == 0,
    ensures
        message_spec(w) == Ok::<MessageView, ParseError>(
            MessageView {
                id: u16_at(w, 0),
                meta: MessageMeta::unpacked(u16_at(w, 2)),
                qdcount: u16_at(w, 4),
                ancount: 0,
                nscount: 0,
                arcount: 0,
                question: questions,
                answer: Seq::empty(),
                authority: Seq::empty(),
                additional: Seq::empty(),
            },
        ),
{
    assert(rrset_spec(w, end, 0) == Ok::<(Seq<RRView>, int), ParseError>((Seq::empty(), end)));
}

/// The questions of a query are read back from behind its header.
proof fn lemma_query_questions_read_back(m: MessageView)
    requires
        forall|i: int| 0 <= i < m.question.len() ==> readable(#[trigger] m.question[i]),
    ensures
        is_prefix(header_wire(m), message_wire(m)),
        questions_spec(message_wire(m), 12, m.question.len()) == Ok::<
            (Seq<QuestionView>, int),
            ParseError,
        >((read_backs(m.question), message_wire(m).len() as int)),
{
    let w = message_wire(m);
    let start = Encoder { wire: header_wire(m), seen: Map::empty() };
    assert(w.subrange(0, w.len() as int) =~= w);
    assert(start.wire.len() == 12);
    lemma_questions_read_back(m.question, start, w);
}

/// A query that is written and decoded again is the query, but that a
/// decoded name holds no empty last label: every field of the header, and
/// every question. This holds of a well-formed message without resource
/// records whose questions are readable.
pub proof fn lemma_query_with_roots_reads_back(m: MessageView)
    requires
        m.wf(),
        m.answer.len() == 0,
        m.authority.len() == 0,
        m.additional.len() == 0,
        forall|i: int| 0 <= i < m.question.len() ==> readable(#[trigger] m.question[i]),
    ensures
        message_spec(message_wire(m)) == Ok::<MessageView, ParseError>(
            MessageView { question: read_backs(m.question), ..m },
        ),
{
    let w = message_wire(m);
    lemma_query_questions_read_back(m);
    lemma_header_reads_back(m, w);
    lemma_message_without_records(w, read_backs(m.question), w.len() as int);
    assert(m.answer =~= Seq::<RRView>::empty());
    assert(m.authority =~= Seq::<RRView>::empty());
    assert(m.additional =~= Seq::<RRView>::empty());
}

/// A host name holds no empty last label.
proof fn lemma_host_name_has_no_root(labels: Seq<Seq<char>>)
    requires
        host_name(labels),
    ensures
        without_root(labels) == labels,
{
    if labels.len() > 0 {
        assert(host_label(labels.last()));
        if labels.last().len() == 0 {
            assert(labels.last() =~= Seq::<char>::empty());
        }
    }
}

/// A query that is written and decoded again is the query. This holds of a
/// well-formed message without resource records, the names of whose
/// questions are host names and the types of whose questions are the ones
/// that their codes stand for.
pub proof fn lemma_query_reads_back(m: MessageView)
    requires
        m.wf(),
        m.answer.len() == 0,
        m.authority.len() == 0,
        m.additional.len() == 0,
        forall|i: int|
            0 <= i < m.question.len() ==> host_name((#[trigger] m.question[i]).qname)
                && QType::of_code(m.question[i].qtype.code()) == Some(m.question[i].qtype),
    ensures
        message_spec(message_wire(m)) == Ok::<MessageView, ParseError>(m),
{
    assert forall|i: int| 0 <= i < m.question.len() implies readable(#[trigger] m.question[i])
        && read_back(m.question[i]) == m.question[i] by {
        lemma_host_name_has_no_root(m.question[i].qname);
    }
    lemma_query_with_roots_reads_back(m);
    assert(read_backs(m.question) =~= m.question);
}

/// The query for a host name decodes, once written, to itself.
pub proof fn lemma_built_query_reads_back(id: u16, name: Seq<Seq<char>>, qtype: QType)
    requires
        host_name(name),
        QType::of_code(qtype.code()) == Some(qtype),
    ensures
        message_spec(message_wire(query_view(id, name, qtype))) == Ok::<MessageView, ParseError>(
            query_view(id, name, qtype),
        ),
{
    let m = query_view(id, name, qtype);
    assert(m.question[0].qname == name);
    lemma_query_reads_back(m);
}

} // verus!
