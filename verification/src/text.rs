//! Rendering of numbers and of lists as text.

use vstd::prelude::*;
use vstd::utf8::encode_utf8_decode_utf8;

verus! {

/// The character for one digit, decimal or (from 10 to 15) hexadecimal in
/// lower case.
pub open spec fn digit_char(d: int) -> char {
    if d == 0 {
        '0'
    } else if d == 1 {
        '1'
    } else if d == 2 {
        '2'
    } else if d == 3 {
        '3'
    } else if d == 4 {
        '4'
    } else if d == 5 {
        '5'
    } else if d == 6 {
        '6'
    } else if d == 7 {
        '7'
    } else if d == 8 {
        '8'
    } else if d == 9 {
        '9'
    } else if d == 10 {
        'a'
    } else if d == 11 {
        'b'
    } else if d == 12 {
        'c'
    } else if d == 13 {
        'd'
    } else if d == 14 {
        'e'
    } else {
        'f'
    }
}

/// `n` in decimal, without leading zeros; zero is `0`.
pub open spec fn decimal(n: nat) -> Seq<char>
    decreases n,
{
    if n < 10 {
        seq![digit_char(n as int)]
    } else {
        decimal(n / 10).push(digit_char((n % 10) as int))
    }
}

/// `n` in lower-case hexadecimal, without leading zeros; zero is `0`.
pub open spec fn hex(n: nat) -> Seq<char>
    decreases n,
{
    if n < 16 {
        seq![digit_char(n as int)]
    } else {
        hex(n / 16).push(digit_char((n % 16) as int))
    }
}

/// The parts in order, with `sep` between each two neighbours.
pub open spec fn join(parts: Seq<Seq<char>>, sep: Seq<char>) -> Seq<char>
    decreases parts.len(),
{
    if parts.len() == 0 {
        Seq::empty()
    } else if parts.len() == 1 {
        parts[0]
    } else {
        parts[0] + sep + join(parts.drop_first(), sep)
    }
}

/// Joining one more part appends the separator and the part.
pub proof fn lemma_join_push(parts: Seq<Seq<char>>, last: Seq<char>, sep: Seq<char>)
    requires
        parts.len() > 0,
    ensures
        join(parts.push(last), sep) == join(parts, sep) + sep + last,
    decreases parts.len(),
{
    let all = parts.push(last);
    assert(all.drop_first() =~= parts.drop_first().push(last));
    if parts.len() == 1 {
        assert(all.drop_first() =~= seq![last]);
        assert(join(all.drop_first(), sep) == last);
    } else {
        lemma_join_push(parts.drop_first(), last, sep);
        assert(join(all, sep) =~= join(parts, sep) + sep + last);
    }
}

fn digit_str(d: u32) -> (s: &'static str)
    requires
        d < 16,
    ensures
        s@ == seq![digit_char(d as int)],
{
    proof {
        reveal_strlit("0");
        reveal_strlit("1");
        reveal_strlit("2");
        reveal_strlit("3");
        reveal_strlit("4");
        reveal_strlit("5");
        reveal_strlit("6");
        reveal_strlit("7");
        reveal_strlit("8");
        reveal_strlit("9");
        reveal_strlit("a");
        reveal_strlit("b");
        reveal_strlit("c");
        reveal_strlit("d");
        reveal_strlit("e");
        reveal_strlit("f");
    }
    let s = match d {
        0 => "0",
        1 => "1",
        2 => "2",
        3 => "3",
        4 => "4",
        5 => "5",
        6 => "6",
        7 => "7",
        8 => "8",
        9 => "9",
        10 => "a",
        11 => "b",
        12 => "c",
        13 => "d",
        14 => "e",
        _ => "f",
    };
    assert(s@ =~= seq![digit_char(d as int)]);
    s
}

/// Renders a number in decimal.
pub fn decimal_string(n: u32) -> (s: String)
    ensures
        s@ == decimal(n as nat),
{
    let mut s: String = digit_str(n % 10).to_owned();
    let mut rest: u32 = n / 10;
    assert(Seq::<char>::empty() + s@ =~= s@);
    while rest > 0
        invariant
            decimal(n as nat) == (if rest > 0 {
                decimal(rest as nat)
            } else {
                Seq::empty()
            }) + s@,
        decreases rest,
    {
        let ghost old_s = s@;
        let d = digit_str(rest % 10);
        s = d.to_owned().concat(s.as_str());
        proof {
            let c = digit_char((rest % 10) as int);
            if rest >= 10 {
                assert(decimal((rest / 10) as nat).push(c) + old_s =~= decimal((rest / 10) as nat)
                    + s@);
            } else {
                assert(seq![c] + old_s =~= Seq::<char>::empty() + s@);
            }
        }
        rest = rest / 10;
    }
    assert(Seq::<char>::empty() + s@ =~= s@);
    s
}

/// Renders a number in lower-case hexadecimal.
pub fn hex_string(n: u16) -> (s: String)
    ensures
        s@ == hex(n as nat),
{
    let mut s: String = digit_str((n % 16) as u32).to_owned();
    let mut rest: u16 = n / 16;
    assert(Seq::<char>::empty() + s@ =~= s@);
    while rest > 0
        invariant
            hex(n as nat) == (if rest > 0 {
                hex(rest as nat)
            } else {
                Seq::empty()
            }) + s@,
        decreases rest,
    {
        let ghost old_s = s@;
        let d = digit_str((rest % 16) as u32);
        s = d.to_owned().concat(s.as_str());
        proof {
            let c = digit_char((rest % 16) as int);
            if rest >= 16 {
                assert(hex((rest / 16) as nat).push(c) + old_s =~= hex((rest / 16) as nat) + s@);
            } else {
                assert(seq![c] + old_s =~= Seq::<char>::empty() + s@);
            }
        }
        rest = rest / 16;
    }
    assert(Seq::<char>::empty() + s@ =~= s@);
    s
}

/// The strings from index `from` up to `to` (not included), joined by `sep`.
pub fn join_strings(parts: &Vec<String>, from: usize, to: usize, sep: &str) -> (s: String)
    requires
        from <= to <= parts.len(),
    ensures
        s@ == join(parts.deep_view().subrange(from as int, to as int), sep@),
{
    let mut s: String = String::new();
    if from >= to {
        return s;
    }
    s.append(parts[from].as_str());
    let mut i: usize = from + 1;
    let ghost all = parts.deep_view().subrange(from as int, to as int);
    assert(all.take(1) =~= seq![parts[from as int]@]);
    while i < to
        invariant
            from < i <= to <= parts.len(),
            all == parts.deep_view().subrange(from as int, to as int),
            s@ == join(all.take(i - from), sep@),
        decreases to - i,
    {
        proof {
            lemma_join_push(all.take(i - from), parts[i as int]@, sep@);
            assert(all.take(i - from).push(parts[i as int]@) =~= all.take(i + 1 - from));
        }
        s.append(sep);
        s.append(parts[i].as_str());
        i = i + 1;
    }
    assert(all.take(i - from) =~= all);
    s
}

/// All the strings, joined by `sep`.
pub fn join_all(parts: &Vec<String>, sep: &str) -> (s: String)
    ensures
        s@ == join(parts.deep_view(), sep@),
{
    assert(parts.deep_view().subrange(0, parts.len() as int) =~= parts.deep_view());
    join_strings(parts, 0, parts.len(), sep)
}

/// Whether two string slices hold the same text.
pub fn str_eq(a: &str, b: &str) -> (same: bool)
    ensures
        same == (a@ == b@),
{
    let x = a.as_bytes();
    let y = b.as_bytes();
    proof {
        encode_utf8_decode_utf8(a@);
        encode_utf8_decode_utf8(b@);
    }
    if x.len() != y.len() {
        return false;
    }
    let mut i: usize = 0;
    while i < x.len()
        invariant
            i <= x.len(),
            x.len() == y.len(),
            a@ == b@ ==> x@ == y@,
            x@ == y@ ==> a@ == b@,
            forall|k: int| 0 <= k < i ==> x@[k] == y@[k],
        decreases x.len() - i,
    {
        if x[i] != y[i] {
            return false;
        }
        i = i + 1;
    }
    assert(x@ =~= y@);
    true
}

} // verus!
