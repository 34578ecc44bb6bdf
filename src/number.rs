use vstd::prelude::*;
use vstd::std_specs::iter::IteratorSpec;

verus! {

/// An ASCII decimal digit.
pub open spec fn is_digit(c: char) -> bool {
    48 <= c as u32 <= 57
}

pub open spec fn all_digits(d: Seq<char>) -> bool {
    forall|i: int| 0 <= i < d.len() ==> is_digit(#[trigger] d[i])
}

/// The value of a run of decimal digits, most significant first.
pub open spec fn digits_value(d: Seq<char>) -> nat
    decreases d.len(),
{
    if d.len() == 0 {
        0
    } else {
        digits_value(d.drop_last()) * 10 + (d.last() as u32 - 48) as nat
    }
}

/// Whether the text begins with a sign character.
pub open spec fn has_sign(s: Seq<char>) -> bool {
    s.len() > 0 && (s[0] == '-' || s[0] == '+')
}

/// The digits of a literal: everything after an optional leading sign.
pub open spec fn digits_part(s: Seq<char>) -> Seq<char> {
    if has_sign(s) {
        s.drop_first()
    } else {
        s
    }
}

/// The mathematical value written by a literal: an optional `+` or `-`
/// followed by decimal digits.
pub open spec fn literal_value(s: Seq<char>) -> int {
    if s.len() > 0 && s[0] == '-' {
        -(digits_value(digits_part(s)) as int)
    } else {
        digits_value(digits_part(s)) as int
    }
}

/// The `i32` that the text denotes, if any: an optional sign, then at least
/// one decimal digit and nothing else, with a value in the range of `i32`.
/// This is the grammar that `i32::from_str` accepts.
pub open spec fn i32_of(s: Seq<char>) -> Option<i32> {
    let d = digits_part(s);
    let v = literal_value(s);
    if d.len() > 0 && all_digits(d) && i32::MIN <= v <= i32::MAX {
        Some(v as i32)
    } else {
        None
    }
}

proof fn lemma_digits_value_prefix(d: Seq<char>, k: int)
    requires
        0 <= k <= d.len(),
    ensures
        digits_value(d.subrange(0, k)) <= digits_value(d),
    decreases d.len(),
{
    if k < d.len() {
        let init = d.drop_last();
        assert(init.subrange(0, k) =~= d.subrange(0, k));
        lemma_digits_value_prefix(init, k);
    } else {
        assert(d.subrange(0, k) =~= d);
    }
}

/// Parses `s` as a decimal `i32`: an optional `+` or `-`, then one or more
/// ASCII digits, within the range of `i32`. Anything else gives `None`.
pub fn parse_i32(s: &str) -> (r: Option<i32>)
    ensures
        r == i32_of(s@),
{
    broadcast use vstd::string::group_string_axioms;

    let ghost t = s@;
    let mut it = s.chars();
    let ghost mut i: int = 0;
    let ghost mut off: int = 0;
    let mut at_start = true;
    let mut negative = false;
    let mut seen_digit = false;
    let mut magnitude: u64 = 0;
    loop
        invariant
            t == s@,
            0 <= off <= i <= t.len(),
            it.remaining() == t.subrange(i, t.len() as int),
            at_start <==> i == 0,
            i > 0 ==> off == if has_sign(t) { 1int } else { 0int },
            i == 0 ==> off == 0,
            negative <==> (i > 0 && t[0] == '-'),
            seen_digit <==> off < i,
            all_digits(t.subrange(off, i)),
            magnitude == digits_value(t.subrange(off, i)),
            magnitude <= 0x8000_0000,
        decreases t.len() - i,
    {
        match it.next() {
            Some(c) => {
                assert(c == t[i]);
                let u = c as u32;
                if at_start && (c == '-' || c == '+') {
                    negative = c == '-';
                    proof {
                        off = 1;
                        assert(t.subrange(1, 1) =~= Seq::<char>::empty());
                    }
                } else if 48 <= u && u <= 57 {
                    proof {
                        let p = t.subrange(off, i + 1);
                        assert(p.drop_last() =~= t.subrange(off, i));
                        assert(p.last() == c);
                        assert forall|j: int| 0 <= j < p.len() implies is_digit(#[trigger] p[j]) by {
                            if j < p.len() - 1 {
                                assert(p[j] == t.subrange(off, i)[j]);
                            }
                        }
                    }
                    magnitude = magnitude * 10 + (u - 48) as u64;
                    seen_digit = true;
                    if magnitude > 0x8000_0000 {
                        proof {
                            let d = digits_part(t);
                            assert(d =~= t.subrange(off, t.len() as int));
                            if all_digits(d) {
                                assert(d.subrange(0, i + 1 - off) =~= t.subrange(off, i + 1));
                                lemma_digits_value_prefix(d, i + 1 - off);
                            }
                        }
                        return None;
                    }
                } else {
                    proof {
                        let d = digits_part(t);
                        assert(d =~= t.subrange(off, t.len() as int));
                        assert(d[i - off] == c);
                    }
                    return None;
                }
                at_start = false;
                proof {
                    i = i + 1;
                }
            },
            None => {
                proof {
                    assert(t.subrange(i, t.len() as int).len() == 0);
                    assert(digits_part(t) =~= t.subrange(off, t.len() as int));
                }
                if !seen_digit {
                    return None;
                }
                if negative {
                    return Some((0i64 - magnitude as i64) as i32);
                } else if magnitude <= 0x7fff_ffff {
                    return Some(magnitude as i32);
                } else {
                    return None;
                }
            },
        }
    }
}

} // verus!
