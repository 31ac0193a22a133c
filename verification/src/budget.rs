//! The step budget of the name decoder loses no name: a walk that ends at
//! all ends within as many steps as the message has bytes.

use crate::errors::ParseError;
use crate::utils::{name_at, name_spec, pointer_target};
use vstd::prelude::*;
use vstd::set_lib::{lemma_int_range, lemma_len_subset, set_int_range};
use vstd::utf8::valid_utf8;

verus! {

/// Decoding at `offset` comes to an end within `steps`: with a name, or
/// with a failure other than the budget running out.
pub open spec fn ends_within(buf: Seq<u8>, offset: int, steps: nat) -> bool {
    name_at(buf, offset, steps) != Err::<(Seq<Seq<char>>, int), ParseError>(ParseError::PointerLoop)
}

/// The number of length bytes that decoding at `offset` visits within
/// `steps`.
pub open spec fn visited(buf: Seq<u8>, offset: int, steps: nat) -> nat
    decreases steps,
{
    if !(0 <= offset < buf.len()) || steps == 0 {
        0
    } else if buf[offset] == 0 {
        1
    } else if buf[offset] >= 192 {
        if offset + 1 >= buf.len() || pointer_target(buf[offset], buf[offset + 1]) >= offset {
            1
        } else {
            1 + visited(buf, pointer_target(buf[offset], buf[offset + 1]), (steps - 1) as nat)
        }
    } else if buf[offset] >= 64 {
        1
    } else if offset + 1 + buf[offset] > buf.len() || !valid_utf8(
        buf.subrange(offset + 1, offset + 1 + buf[offset]),
    ) {
        1
    } else {
        1 + visited(buf, offset + 1 + buf[offset], (steps - 1) as nat)
    }
}

/// No more length bytes are visited than there are steps.
proof fn lemma_visited_within(buf: Seq<u8>, offset: int, steps: nat)
    ensures
        visited(buf, offset, steps) <= steps,
    decreases steps,
{
    if 0 <= offset < buf.len() && steps > 0 && buf[offset] != 0 {
        if buf[offset] >= 192 {
            if offset + 1 < buf.len() && pointer_target(buf[offset], buf[offset + 1]) < offset {
                lemma_visited_within(
                    buf,
                    pointer_target(buf[offset], buf[offset + 1]),
                    (steps - 1) as nat,
                );
            }
        } else if buf[offset] < 64 {
            lemma_visited_within(buf, offset + 1 + buf[offset], (steps - 1) as nat);
        }
    }
}

/// A walk that ends within `steps` gives the same with any budget of at
/// least as many steps as it visits length bytes.
proof fn lemma_enough_steps(buf: Seq<u8>, offset: int, steps: nat, other: nat)
    requires
        ends_within(buf, offset, steps),
        other >= visited(buf, offset, steps),
    ensures
        name_at(buf, offset, other) == name_at(buf, offset, steps),
    decreases steps,
{
    if 0 <= offset < buf.len() && steps > 0 && buf[offset] != 0 {
        if buf[offset] >= 192 {
            if offset + 1 < buf.len() && pointer_target(buf[offset], buf[offset + 1]) < offset {
                lemma_enough_steps(
                    buf,
                    pointer_target(buf[offset], buf[offset + 1]),
                    (steps - 1) as nat,
                    (other - 1) as nat,
                );
            }
        } else if buf[offset] < 64 && offset + 1 + buf[offset] <= buf.len() && valid_utf8(
            buf.subrange(offset + 1, offset + 1 + buf[offset]),
        ) {
            lemma_enough_steps(
                buf,
                offset + 1 + buf[offset],
                (steps - 1) as nat,
                (other - 1) as nat,
            );
        }
    }
}

/// A walk that ends within `steps` does not end with a budget of fewer steps
/// than it visits length bytes.
proof fn lemma_too_few_steps(buf: Seq<u8>, offset: int, steps: nat, other: nat)
    requires
        ends_within(buf, offset, steps),
        other < visited(buf, offset, steps),
    ensures
        !ends_within(buf, offset, other),
    decreases steps,
{
    if other > 0 {
        if buf[offset] >= 192 {
            lemma_too_few_steps(
                buf,
                pointer_target(buf[offset], buf[offset + 1]),
                (steps - 1) as nat,
                (other - 1) as nat,
            );
        } else {
            lemma_too_few_steps(
                buf,
                offset + 1 + buf[offset],
                (steps - 1) as nat,
                (other - 1) as nat,
            );
        }
    }
}

/// The length bytes that a walk visits are as many different offsets of
/// the message: from each of them the walk ends within the steps that the
/// whole walk takes, and from none of them it ends within fewer than are
/// left to it, so none is met twice.
proof fn lemma_visited_offsets(buf: Seq<u8>, offset: int, steps: nat) -> (offsets: Set<int>)
    requires
        ends_within(buf, offset, steps),
    ensures
        offsets.finite(),
        offsets.len() == visited(buf, offset, steps),
        offsets.subset_of(set_int_range(0, buf.len() as int)),
        forall|x: int| offsets.contains(x) ==> ends_within(buf, x, visited(buf, offset, steps)),
    decreases steps,
{
    let n = visited(buf, offset, steps);
    if n == 0 {
        Set::empty()
    } else {
        lemma_enough_steps(buf, offset, steps, n);
        let jumps = buf[offset] >= 192 && offset + 1 < buf.len() && pointer_target(
            buf[offset],
            buf[offset + 1],
        ) < offset;
        let walks = 1 <= buf[offset] < 64 && offset + 1 + buf[offset] <= buf.len() && valid_utf8(
            buf.subrange(offset + 1, offset + 1 + buf[offset]),
        );
        if jumps || walks {
            let next = if jumps {
                pointer_target(buf[offset], buf[offset + 1])
            } else {
                offset + 1 + buf[offset]
            };
            let rest = lemma_visited_offsets(buf, next, (steps - 1) as nat);
            let m = visited(buf, next, (steps - 1) as nat);
            assert(n == m + 1);
            assert forall|x: int| rest.contains(x) implies ends_within(buf, x, n) by {
                lemma_visited_within(buf, x, m);
                lemma_enough_steps(buf, x, m, n);
            }
            if rest.contains(offset) {
                lemma_too_few_steps(buf, offset, steps, m);
            }
            rest.insert(offset)
        } else {
            Set::empty().insert(offset)
        }
    }
}

/// A walk that ends within some number of steps ends within as many steps
/// as the message has bytes, and gives the same: the budget of the decoder
/// refuses only walks that no budget would bring to an end.
pub proof fn lemma_budget_is_enough(buf: Seq<u8>, offset: int, steps: nat)
    requires
        ends_within(buf, offset, steps),
    ensures
        name_spec(buf, offset) == name_at(buf, offset, steps),
{
    let offsets = lemma_visited_offsets(buf, offset, steps);
    lemma_int_range(0, buf.len() as int);
    lemma_len_subset(offsets, set_int_range(0, buf.len() as int));
    lemma_enough_steps(buf, offset, steps, buf.len());
}

} // verus!
