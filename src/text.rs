use vstd::prelude::*;
use vstd::std_specs::iter::IteratorSpec;

verus! {

/// Relies on `String::push`: it appends the one character to the end of the string.
pub assume_specification[ String::push ](s: &mut String, ch: char)
    ensures
        final(s)@ == old(s)@.push(ch),
;

/// Characters with the Unicode `White_Space` property, the set that
/// `char::is_whitespace` and `str::split_whitespace` use.
pub open spec fn is_ws(c: char) -> bool {
    let u = c as u32;
    ||| 0x09 <= u <= 0x0D
    ||| u == 0x20
    ||| u == 0x85
    ||| u == 0xA0
    ||| u == 0x1680
    ||| 0x2000 <= u <= 0x200A
    ||| u == 0x2028
    ||| u == 0x2029
    ||| u == 0x202F
    ||| u == 0x205F
    ||| u == 0x3000
}

/// A token: a non-empty run of characters none of which is whitespace.
pub open spec fn is_token(t: Seq<char>) -> bool {
    t.len() > 0 && forall|i: int| 0 <= i < t.len() ==> !is_ws(#[trigger] t[i])
}

/// Every character of `s` is whitespace (the empty run included).
pub open spec fn is_blank(s: Seq<char>) -> bool {
    forall|i: int| 0 <= i < s.len() ==> is_ws(#[trigger] s[i])
}

/// The maximal runs of non-whitespace characters of `s`, left to right.
/// Read from the end: a whitespace character adds nothing; any other
/// character extends the last token when it follows a non-whitespace
/// character, and starts a new token otherwise.
pub open spec fn tokens_of(s: Seq<char>) -> Seq<Seq<char>>
    decreases s.len(),
{
    if s.len() == 0 {
        Seq::empty()
    } else {
        let init = s.drop_last();
        let c = s.last();
        let before = tokens_of(init);
        if is_ws(c) {
            before
        } else if init.len() > 0 && !is_ws(init.last()) {
            before.drop_last().push(before.last().push(c))
        } else {
            before.push(seq![c])
        }
    }
}

/// The tokens joined with one space between neighbours.
pub open spec fn join_spaced(ts: Seq<Seq<char>>) -> Seq<char>
    decreases ts.len(),
{
    if ts.len() == 0 {
        Seq::empty()
    } else if ts.len() == 1 {
        ts[0]
    } else {
        join_spaced(ts.drop_last()) + seq![' '] + ts.last()
    }
}

/// The line `gaps[0] + words[0] + gaps[1] + ... + words[n-1] + gaps[n]`.
pub open spec fn interleave(words: Seq<Seq<char>>, gaps: Seq<Seq<char>>) -> Seq<char>
    recommends
        gaps.len() == words.len() + 1,
    decreases words.len(),
{
    if words.len() == 0 || gaps.len() == 0 {
        if gaps.len() == 0 {
            Seq::empty()
        } else {
            gaps[0]
        }
    } else {
        interleave(words.drop_last(), gaps.drop_last()) + words.last() + gaps.last()
    }
}

proof fn lemma_tokens_nonempty_when_last_solid(s: Seq<char>)
    requires
        s.len() > 0,
        !is_ws(s.last()),
    ensures
        tokens_of(s).len() > 0,
{
}

/// Every element of `tokens_of(s)` is a token.
pub proof fn lemma_tokens_are_tokens(s: Seq<char>)
    ensures
        forall|k: int| 0 <= k < tokens_of(s).len() ==> is_token(#[trigger] tokens_of(s)[k]),
    decreases s.len(),
{
    if s.len() > 0 {
        let init = s.drop_last();
        lemma_tokens_are_tokens(init);
        let before = tokens_of(init);
        let c = s.last();
        if !is_ws(c) && init.len() > 0 && !is_ws(init.last()) {
            lemma_tokens_nonempty_when_last_solid(init);
            let t = before.last().push(c);
            assert(is_token(before[before.len() - 1]));
            assert forall|i: int| 0 <= i < t.len() implies !is_ws(#[trigger] t[i]) by {
                if i < t.len() - 1 {
                    assert(t[i] == before[before.len() - 1][i]);
                }
            }
            assert forall|k: int| 0 <= k < tokens_of(s).len() implies is_token(
                #[trigger] tokens_of(s)[k],
            ) by {
                if k < before.len() - 1 {
                    assert(tokens_of(s)[k] == before[k]);
                }
            }
        } else if !is_ws(c) {
            assert(is_token(seq![c]));
            assert forall|k: int| 0 <= k < tokens_of(s).len() implies is_token(
                #[trigger] tokens_of(s)[k],
            ) by {
                if k < before.len() {
                    assert(tokens_of(s)[k] == before[k]);
                }
            }
        }
    }
}

/// Splitting a concatenation splits each part, provided the parts meet at
/// whitespace or one of them is empty.
pub proof fn lemma_tokens_of_concat(a: Seq<char>, b: Seq<char>)
    requires
        a.len() == 0 || is_ws(a.last()) || b.len() == 0 || is_ws(b[0]),
    ensures
        tokens_of(a + b) == tokens_of(a) + tokens_of(b),
    decreases b.len(),
{
    if b.len() == 0 {
        assert(a + b =~= a);
        assert(tokens_of(b) =~= Seq::<Seq<char>>::empty());
        assert(tokens_of(a) + tokens_of(b) =~= tokens_of(a));
    } else {
        let b0 = b.drop_last();
        let c = b.last();
        assert((a + b).drop_last() =~= a + b0);
        assert((a + b).last() == c);
        if b0.len() == 0 {
            assert(a + b0 =~= a);
            assert(b0 =~= Seq::<char>::empty());
            assert(tokens_of(b0) =~= Seq::<Seq<char>>::empty());
            if is_ws(c) {
                assert(tokens_of(b) =~= Seq::<Seq<char>>::empty());
                assert(tokens_of(a) + tokens_of(b) =~= tokens_of(a));
            } else {
                assert(tokens_of(b) =~= seq![seq![c]]);
                assert(tokens_of(a + b) =~= tokens_of(a).push(seq![c]));
                assert(tokens_of(a) + tokens_of(b) =~= tokens_of(a).push(seq![c]));
            }
        } else {
            assert(b0[0] == b[0]);
            lemma_tokens_of_concat(a, b0);
            let x = tokens_of(a);
            let y = tokens_of(b0);
            assert((a + b0).last() == b0.last());
            if is_ws(c) {
            } else if !is_ws(b0.last()) {
                lemma_tokens_nonempty_when_last_solid(b0);
                assert((x + y).last() == y.last());
                assert((x + y).drop_last() =~= x + y.drop_last());
                assert((x + y).drop_last().push(y.last().push(c)) =~= x + y.drop_last().push(
                    y.last().push(c),
                ));
            } else {
                assert((x + y).push(seq![c]) =~= x + y.push(seq![c]));
            }
        }
    }
}

/// A whitespace-only run has no tokens.
pub proof fn lemma_tokens_of_blank(s: Seq<char>)
    requires
        is_blank(s),
    ensures
        tokens_of(s) == Seq::<Seq<char>>::empty(),
    decreases s.len(),
{
    if s.len() > 0 {
        assert(is_blank(s.drop_last()));
        lemma_tokens_of_blank(s.drop_last());
    }
}

/// A token splits into itself alone.
pub proof fn lemma_tokens_of_token(t: Seq<char>)
    requires
        is_token(t),
    ensures
        tokens_of(t) == seq![t],
    decreases t.len(),
{
    let init = t.drop_last();
    if init.len() == 0 {
        assert(init =~= Seq::<char>::empty());
        assert(tokens_of(init) =~= Seq::<Seq<char>>::empty());
        assert(!is_ws(t[t.len() - 1]));
        assert(seq![t.last()] =~= t);
    } else {
        assert(is_token(init));
        lemma_tokens_of_token(init);
        assert(init.push(t.last()) =~= t);
        assert(tokens_of(t) =~= seq![t]);
    }
}

/// Joining tokens with single spaces and splitting the result gives the
/// same tokens back.
pub proof fn lemma_split_joined(ts: Seq<Seq<char>>)
    requires
        forall|k: int| 0 <= k < ts.len() ==> is_token(#[trigger] ts[k]),
    ensures
        tokens_of(join_spaced(ts)) == ts,
    decreases ts.len(),
{
    if ts.len() == 1 {
        assert(is_token(ts[0]));
        lemma_tokens_of_token(ts[0]);
        assert(seq![ts[0]] =~= ts);
    } else if ts.len() > 1 {
        let rest = ts.drop_last();
        let t = ts.last();
        assert(is_token(ts[ts.len() - 1]));
        lemma_split_joined(rest);
        let j = join_spaced(rest);
        assert(is_ws(' '));
        lemma_tokens_of_concat(j, seq![' ']);
        assert(is_blank(seq![' ']));
        lemma_tokens_of_blank(seq![' ']);
        lemma_tokens_of_concat(j + seq![' '], t);
        lemma_tokens_of_token(t);
        assert(rest + Seq::<Seq<char>>::empty() =~= rest);
        assert(rest + seq![t] =~= ts);
    }
}

/// Rejoining the tokens of any line with single spaces and splitting again
/// yields the same ordered runs of non-whitespace characters as the line itself.
pub proof fn lemma_rejoin_preserves_tokens(line: Seq<char>)
    ensures
        tokens_of(join_spaced(tokens_of(line))) == tokens_of(line),
{
    lemma_tokens_are_tokens(line);
    lemma_split_joined(tokens_of(line));
}

/// Tokens written between whitespace gaps (of any length, and possibly empty
/// at either end of the line) split back into exactly those tokens, in order.
pub proof fn lemma_split_interleaved(words: Seq<Seq<char>>, gaps: Seq<Seq<char>>)
    requires
        gaps.len() == words.len() + 1,
        forall|k: int| 0 <= k < words.len() ==> is_token(#[trigger] words[k]),
        forall|k: int| 0 <= k < gaps.len() ==> is_blank(#[trigger] gaps[k]),
        forall|k: int| 0 < k < words.len() ==> (#[trigger] gaps[k]).len() > 0,
    ensures
        tokens_of(interleave(words, gaps)) == words,
    decreases words.len(),
{
    if words.len() == 0 {
        assert(is_blank(gaps[0]));
        lemma_tokens_of_blank(gaps[0]);
        assert(words =~= Seq::<Seq<char>>::empty());
    } else {
        let ws0 = words.drop_last();
        let gs0 = gaps.drop_last();
        let w = words.last();
        let g = gaps.last();
        assert(is_token(words[words.len() - 1]));
        assert(is_blank(gaps[gaps.len() - 1]));
        assert forall|k: int| 0 <= k < ws0.len() implies is_token(#[trigger] ws0[k]) by {
            assert(ws0[k] == words[k]);
        }
        assert forall|k: int| 0 <= k < gs0.len() implies is_blank(#[trigger] gs0[k]) by {
            assert(gs0[k] == gaps[k]);
        }
        assert forall|k: int| 0 < k < ws0.len() implies (#[trigger] gs0[k]).len() > 0 by {
            assert(gs0[k] == gaps[k]);
        }
        lemma_split_interleaved(ws0, gs0);
        let front = interleave(ws0, gs0);
        lemma_interleave_ends_blank(ws0, gs0);
        lemma_tokens_of_concat(front, w);
        lemma_tokens_of_token(w);
        lemma_tokens_of_concat(front + w, g);
        lemma_tokens_of_blank(g);
        assert(ws0 + seq![w] =~= words);
        assert(words + Seq::<Seq<char>>::empty() =~= words);
    }
}

proof fn lemma_interleave_ends_blank(words: Seq<Seq<char>>, gaps: Seq<Seq<char>>)
    requires
        gaps.len() == words.len() + 1,
        forall|k: int| 0 <= k < gaps.len() ==> is_blank(#[trigger] gaps[k]),
        forall|k: int| 0 < k < gaps.len() ==> (#[trigger] gaps[k]).len() > 0,
    ensures
        ({
            let s = interleave(words, gaps);
            s.len() == 0 || is_ws(s.last())
        }),
{
    let s = interleave(words, gaps);
    if words.len() > 0 {
        let g = gaps.last();
        assert(is_blank(gaps[gaps.len() - 1]));
        assert(gaps[gaps.len() - 1].len() > 0);
        assert(s.last() == g[g.len() - 1]);
    } else {
        assert(is_blank(gaps[0]));
        if s.len() > 0 {
            assert(s.last() == gaps[0][gaps[0].len() - 1]);
        }
    }
}

/// Whether `c` is whitespace (has the Unicode `White_Space` property).
pub fn is_whitespace(c: char) -> (r: bool)
    ensures
        r == is_ws(c),
{
    let u = c as u32;
    (0x09 <= u && u <= 0x0D) || u == 0x20 || u == 0x85 || u == 0xA0 || u == 0x1680 || (0x2000
        <= u && u <= 0x200A) || u == 0x2028 || u == 0x2029 || u == 0x202F || u == 0x205F || u
        == 0x3000
}

/// Splits `line` on runs of whitespace, dropping empty fields: the result
/// holds the maximal runs of non-whitespace characters, in order.
pub fn tokenize(line: &str) -> (r: Vec<String>)
    ensures
        r.deep_view() == tokens_of(line@),
        forall|k: int| 0 <= k < r.deep_view().len() ==> is_token(#[trigger] r.deep_view()[k]),
{
    broadcast use vstd::string::group_string_axioms;


    let ghost s = line@;
    let mut tokens: Vec<String> = Vec::new();
    let mut current = String::new();
    let mut it = line.chars();
    let ghost mut i: int = 0;
    loop
        invariant
            s == line@,
            0 <= i <= s.len(),
            it.remaining() == s.subrange(i, s.len() as int),
            current@.len() > 0 <==> (i > 0 && !is_ws(s[i - 1])),
            tokens_of(s.subrange(0, i)) == if current@.len() > 0 {
                tokens.deep_view().push(current@)
            } else {
                tokens.deep_view()
            },
        decreases s.len() - i,
    {
        match it.next() {
            Some(c) => {
                let ghost before = tokens_of(s.subrange(0, i));
                proof {
                    assert(c == s[i]);
                    let p = s.subrange(0, i + 1);
                    assert(p.drop_last() =~= s.subrange(0, i));
                    assert(p.last() == c);
                    if i > 0 {
                        assert(s.subrange(0, i).last() == s[i - 1]);
                    }
                }
                if is_whitespace(c) {
                    if !current.as_str().is_empty() {
                        let ghost old_tokens = tokens.deep_view();
                        let ghost cur = current@;
                        tokens.push(current);
                        current = String::new();
                        assert(tokens.deep_view() =~= old_tokens.push(cur));
                    }
                } else {
                    let ghost was_empty = current@.len() == 0;
                    let ghost old_current = current@;
                    current.push(c);
                    proof {
                        if was_empty {
                            assert(current@ =~= seq![c]);
                        } else {
                            assert(before.drop_last() =~= tokens.deep_view());
                            assert(before.last() == old_current);
                        }
                    }
                }
                proof {
                    i = i + 1;
                }
            },
            None => {
                assert(s.subrange(i, s.len() as int).len() == 0);
                assert(s.subrange(0, i) =~= s);
                if !current.as_str().is_empty() {
                    let ghost old_tokens = tokens.deep_view();
                    let ghost cur = current@;
                    tokens.push(current);
                    assert(tokens.deep_view() =~= old_tokens.push(cur));
                }
                proof {
                    lemma_tokens_are_tokens(s);
                }
                return tokens;
            },
        }
    }
}

} // verus!
