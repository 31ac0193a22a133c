//! Name compression: how names are written into a message, each suffix in
//! full once and as a pointer afterwards.

use crate::rdata::name_text;
use crate::utils::u16_wire;
use vstd::prelude::*;
use vstd::utf8::encode_utf8;

verus! {

/// The state of an encoder: the bytes written so far, and for each name
/// suffix written in full the offset at which it starts, keyed by the suffix
/// joined with dots.
pub struct Encoder {
    pub wire: Seq<u8>,
    pub seen: Map<Seq<char>, int>,
}

/// A label on the wire: a byte for its length, then its bytes.
pub open spec fn label_wire(label: Seq<char>) -> Seq<u8> {
    seq![encode_utf8(label).len() as u8] + encode_utf8(label)
}

/// A pointer on the wire: two set bits, then the target in 14 bits.
pub open spec fn pointer_wire(target: int) -> Seq<u8> {
    u16_wire((49152 + target) as u16)
}

/// The labels of a name without the empty label that may stand for the root
/// at their end. The root is part of every name, written or not.
pub open spec fn without_root(labels: Seq<Seq<char>>) -> Seq<Seq<char>> {
    if labels.len() > 0 && labels.last().len() == 0 {
        labels.drop_last()
    } else {
        labels
    }
}

/// Writes labels, and the root behind them. Each suffix of the labels is
/// looked up, the longest first: one that was written before is replaced by
/// a pointer to where it starts, and ends the name; one that is new has its
/// first label written, and is recorded where its offset fits a pointer.
/// Where the labels run out, the zero byte of the root ends the name.
pub open spec fn encode_labels(labels: Seq<Seq<char>>, st: Encoder) -> Encoder
    decreases labels.len(),
{
    if labels.len() == 0 {
        Encoder { wire: st.wire + seq![0u8], seen: st.seen }
    } else if st.seen.contains_key(name_text(labels)) {
        Encoder { wire: st.wire + pointer_wire(st.seen[name_text(labels)]), seen: st.seen }
    } else {
        encode_labels(
            labels.drop_first(),
            Encoder {
                wire: st.wire + label_wire(labels[0]),
                seen: if st.wire.len() < 16384 {
                    st.seen.insert(name_text(labels), st.wire.len() as int)
                } else {
                    st.seen
                },
            },
        )
    }
}

/// A name that can be written: each of its labels, but an empty last one
/// that stands for the root, has at least one byte and at most the 63 that a
/// length byte can announce.
pub open spec fn writable_name(labels: Seq<Seq<char>>) -> bool {
    forall|j: int|
        0 <= j < without_root(labels).len() ==> 1 <= encode_utf8(
            #[trigger] without_root(labels)[j],
        ).len() <= 63
}

/// Writes a name: its labels, and the root once, whether the name holds an
/// empty last label for it or not.
pub open spec fn encode_name(labels: Seq<Seq<char>>, st: Encoder) -> Encoder {
    encode_labels(without_root(labels), st)
}

/// Labels written in full, one behind the other.
pub open spec fn plain_name(labels: Seq<Seq<char>>) -> Seq<u8>
    decreases labels.len(),
{
    if labels.len() == 0 {
        Seq::empty()
    } else {
        label_wire(labels[0]) + plain_name(labels.drop_first())
    }
}

/// No suffix of the labels was written before.
pub open spec fn fresh(labels: Seq<Seq<char>>, st: Encoder) -> bool {
    forall|k: int|
        0 <= k < labels.len() ==> !st.seen.contains_key(#[trigger] name_text(labels.skip(k)))
}

/// The state after the first of the labels is written in full.
pub open spec fn after_label(labels: Seq<Seq<char>>, st: Encoder) -> Encoder {
    Encoder {
        wire: st.wire + label_wire(labels[0]),
        seen: if st.wire.len() < 16384 {
            st.seen.insert(name_text(labels), st.wire.len() as int)
        } else {
            st.seen
        },
    }
}

/// A shorter suffix of a name has a shorter text, so no two suffixes of one
/// name have the same text.
pub proof fn lemma_suffix_texts_differ(labels: Seq<Seq<char>>, j: int, k: int)
    requires
        0 <= j < k < labels.len(),
    ensures
        name_text(labels.skip(k)).len() < name_text(labels.skip(j)).len(),
    decreases k - j,
{
    reveal_strlit(".");
    let longer = labels.skip(k - 1);
    assert(longer.drop_first() =~= labels.skip(k));
    assert(longer.len() >= 2);
    assert(name_text(longer) == longer[0] + "."@ + name_text(labels.skip(k)));
    if j < k - 1 {
        lemma_suffix_texts_differ(labels, j, k - 1);
    }
}

/// Once a first label is written, no suffix of the labels behind it is
/// recorded that was not recorded before.
pub proof fn lemma_rest_stays_fresh(labels: Seq<Seq<char>>, st: Encoder, k: int)
    requires
        0 <= k < labels.len() - 1,
        !st.seen.contains_key(name_text(labels.skip(k + 1))),
    ensures
        labels.drop_first().skip(k) == labels.skip(k + 1),
        !after_label(labels, st).seen.contains_key(name_text(labels.drop_first().skip(k))),
{
    assert(labels.drop_first().skip(k) =~= labels.skip(k + 1));
    assert(labels.skip(0) =~= labels);
    lemma_suffix_texts_differ(labels, 0, k + 1);
}

/// Labels of which no suffix was written before are written in full, with
/// the zero byte of the root behind them.
pub proof fn lemma_fresh_name_is_plain(labels: Seq<Seq<char>>, st: Encoder)
    requires
        fresh(labels, st),
    ensures
        encode_labels(labels, st).wire == st.wire + plain_name(labels) + seq![0u8],
    decreases labels.len(),
{
    if labels.len() == 0 {
        assert(st.wire + plain_name(labels) + seq![0u8] =~= st.wire + seq![0u8]);
    } else {
        assert(labels.skip(0) =~= labels);
        let rest = labels.drop_first();
        let next = after_label(labels, st);
        assert forall|k: int| 0 <= k < rest.len() implies !next.seen.contains_key(
            #[trigger] name_text(rest.skip(k)),
        ) by {
            assert(rest.skip(k) =~= labels.skip(k + 1));
            lemma_rest_stays_fresh(labels, st, k);
        }
        lemma_fresh_name_is_plain(rest, next);
        assert(st.wire + plain_name(labels) + seq![0u8] =~= next.wire + plain_name(rest)
            + seq![0u8]);
    }
}

/// Where the suffix from label `j` on was written before, and no longer
/// suffix was, the name is written as its first `j` labels and a pointer to
/// where that suffix was written; none of its later labels is written
/// again, and nothing is recorded that does not start inside the name.
pub proof fn lemma_known_suffix_is_pointed(labels: Seq<Seq<char>>, st: Encoder, j: int)
    requires
        0 <= j < labels.len(),
        st.seen.contains_key(name_text(labels.skip(j))),
        forall|k: int| 0 <= k < j ==> !st.seen.contains_key(#[trigger] name_text(labels.skip(k))),
    ensures
        encode_labels(labels, st).wire == st.wire + plain_name(labels.take(j)) + pointer_wire(
            st.seen[name_text(labels.skip(j))],
        ),
    decreases j,
{
    assert(labels.skip(0) =~= labels);
    if j == 0 {
        assert(plain_name(labels.take(0)) =~= Seq::<u8>::empty());
        assert(st.wire + plain_name(labels.take(0)) =~= st.wire);
    } else {
        let rest = labels.drop_first();
        let next = after_label(labels, st);
        assert(rest.skip(j - 1) =~= labels.skip(j));
        lemma_suffix_texts_differ(labels, 0, j);
        assert forall|k: int| 0 <= k < j - 1 implies !next.seen.contains_key(
            #[trigger] name_text(rest.skip(k)),
        ) by {
            assert(rest.skip(k) =~= labels.skip(k + 1));
            lemma_rest_stays_fresh(labels, st, k);
        }
        lemma_known_suffix_is_pointed(rest, next, j - 1);
        assert(labels.take(j).drop_first() =~= rest.take(j - 1));
        assert(labels.take(j)[0] == labels[0]);
        assert(plain_name(labels.take(j)) == label_wire(labels[0]) + plain_name(rest.take(j - 1)));
        assert(st.wire + plain_name(labels.take(j)) =~= next.wire + plain_name(rest.take(j - 1)));
    }
}

/// Writing labels keeps what was recorded before them.
pub proof fn lemma_encode_name_keeps(labels: Seq<Seq<char>>, st: Encoder, key: Seq<char>)
    requires
        st.seen.contains_key(key),
    ensures
        encode_labels(labels, st).seen.contains_key(key),
        encode_labels(labels, st).seen[key] == st.seen[key],
    decreases labels.len(),
{
    if labels.len() > 0 && !st.seen.contains_key(name_text(labels)) {
        lemma_encode_name_keeps(labels.drop_first(), after_label(labels, st), key);
    }
}

/// A text that is recorded once labels are written, and was not recorded
/// before, is the text of a suffix of the labels, recorded at an offset at
/// or behind the one at which the labels start.
pub proof fn lemma_new_keys_are_suffixes(labels: Seq<Seq<char>>, st: Encoder, key: Seq<char>)
    requires
        encode_labels(labels, st).seen.contains_key(key),
        !st.seen.contains_key(key),
    ensures
        exists|k: int| 0 <= k < labels.len() && key == #[trigger] name_text(labels.skip(k)),
        encode_labels(labels, st).seen[key] >= st.wire.len(),
    decreases labels.len(),
{
    if labels.len() > 0 && !st.seen.contains_key(name_text(labels)) {
        assert(labels.skip(0) =~= labels);
        let rest = labels.drop_first();
        let next = after_label(labels, st);
        if key == name_text(labels) {
            assert(key == name_text(labels.skip(0)));
            if next.seen.contains_key(key) {
                lemma_encode_name_keeps(rest, next, key);
            } else {
                lemma_new_keys_are_suffixes(rest, next, key);
                let k = choose|k: int|
                    0 <= k < rest.len() && key == #[trigger] name_text(rest.skip(k));
                assert(rest.skip(k) =~= labels.skip(k + 1));
                lemma_suffix_texts_differ(labels, 0, k + 1);
            }
        } else {
            lemma_new_keys_are_suffixes(rest, next, key);
            let k = choose|k: int| 0 <= k < rest.len() && key == #[trigger] name_text(rest.skip(k));
            assert(rest.skip(k) =~= labels.skip(k + 1));
            assert(key == name_text(labels.skip(k + 1)));
        }
    }
}

/// Once labels are written in full, inside the first 16384 bytes of the
/// message, each of their suffixes is recorded at the offset at which the
/// suffix starts.
pub proof fn lemma_written_suffix_is_recorded(labels: Seq<Seq<char>>, st: Encoder, k: int)
    requires
        fresh(labels, st),
        st.wire.len() + plain_name(labels).len() <= 16384,
        0 <= k < labels.len(),
    ensures
        encode_labels(labels, st).seen.contains_key(name_text(labels.skip(k))),
        encode_labels(labels, st).seen[name_text(labels.skip(k))] == st.wire.len() + plain_name(
            labels.take(k),
        ).len(),
    decreases labels.len(),
{
    assert(labels.skip(0) =~= labels);
    let rest = labels.drop_first();
    let next = after_label(labels, st);
    assert(plain_name(labels).len() == label_wire(labels[0]).len() + plain_name(rest).len());
    assert(label_wire(labels[0]).len() >= 1);
    if k == 0 {
        assert(plain_name(labels.take(0)) =~= Seq::<u8>::empty());
        lemma_encode_name_keeps(rest, next, name_text(labels));
    } else {
        assert forall|i: int| 0 <= i < rest.len() implies !next.seen.contains_key(
            #[trigger] name_text(rest.skip(i)),
        ) by {
            assert(rest.skip(i) =~= labels.skip(i + 1));
            lemma_rest_stays_fresh(labels, st, i);
        }
        lemma_written_suffix_is_recorded(rest, next, k - 1);
        assert(rest.skip(k - 1) =~= labels.skip(k));
        assert(labels.take(k).drop_first() =~= rest.take(k - 1));
        assert(labels.take(k)[0] == labels[0]);
        assert(plain_name(labels.take(k)) == label_wire(labels[0]) + plain_name(rest.take(k - 1)));
    }
}

/// Two names that share a suffix: once the first is written in full, the
/// second is written as the labels before the longest suffix that it shares
/// with what was written, and a pointer to the offset at which that suffix
/// starts in the first name. The shared labels are not written again.
pub proof fn lemma_shared_suffix_is_reused(
    first: Seq<Seq<char>>,
    second: Seq<Seq<char>>,
    st: Encoder,
    between: Seq<u8>,
    i: int,
    j: int,
)
    requires
        fresh(first, st),
        st.wire.len() + plain_name(first).len() <= 16384,
        0 <= i < first.len(),
        0 <= j < second.len(),
        first.skip(i) == second.skip(j),
        forall|k: int|
            0 <= k < j ==> !encode_labels(first, st).seen.contains_key(
                #[trigger] name_text(second.skip(k)),
            ),
    ensures
        encode_labels(first, st).wire == st.wire + plain_name(first) + seq![0u8],
        encode_labels(
            second,
            Encoder {
                wire: encode_labels(first, st).wire + between,
                seen: encode_labels(first, st).seen,
            },
        ).wire == encode_labels(first, st).wire + between + plain_name(second.take(j))
            + pointer_wire((st.wire.len() + plain_name(first.take(i)).len()) as int),
{
    lemma_fresh_name_is_plain(first, st);
    lemma_written_suffix_is_recorded(first, st, i);
    let written = encode_labels(first, st);
    lemma_known_suffix_is_pointed(
        second,
        Encoder { wire: written.wire + between, seen: written.seen },
        j,
    );
}

} // verus!
