use vstd::prelude::*;
use vstd::string::StringExecFns;

use crate::number::{all_digits, digits_part, has_sign, i32_of, parse_i32};
use crate::text::{interleave, is_blank, is_token, is_ws, lemma_split_interleaved, tokenize, tokens_of};

verus! {

/// An action on the diagnostic log or the process that the reader asks its
/// caller to carry out, in order, when it cannot go on.
#[derive(Debug, Clone, PartialEq, Eq)]
pub enum Effect {
    /// Write an informational message to the log.
    Log(String),
    /// Flush the log, so that what was written is kept.
    Flush,
    /// End the process with this status.
    Exit(i32),
    /// Report a fatal error with this message; the log then ends the process.
    Panic(String),
}

pub enum EffectView {
    Log(Seq<char>),
    Flush,
    Exit(i32),
    Panic(Seq<char>),
}

impl DeepView for Effect {
    type V = EffectView;

    open spec fn deep_view(&self) -> EffectView {
        match self {
            Effect::Log(m) => EffectView::Log(m@),
            Effect::Flush => EffectView::Flush,
            Effect::Exit(code) => EffectView::Exit(*code),
            Effect::Panic(m) => EffectView::Panic(m@),
        }
    }
}

pub open spec fn closed_message() -> Seq<char> {
    "Input connection from server closed. Exiting..."@
}

pub open spec fn parse_failure_message(token: Seq<char>) -> Seq<char> {
    "Can't parse '"@ + token + "' as i32."@
}

/// What the caller does when the engine has closed the connection: log it
/// once, flush the log, and exit with status 0.
pub open spec fn shutdown_on_close() -> Seq<EffectView> {
    seq![EffectView::Log(closed_message()), EffectView::Flush, EffectView::Exit(0)]
}

/// What the caller does when a token is not an integer: one fatal report
/// that names the token.
pub open spec fn fatal_on_bad_integer(token: Seq<char>) -> Seq<EffectView> {
    seq![EffectView::Panic(parse_failure_message(token))]
}

/// The outcome of one attempt to read a line: `None` when the read failed,
/// otherwise the text read. An empty text means the stream had ended (a line
/// that was read holds at least its terminator).
pub open spec fn line_received(read: Option<String>) -> bool {
    read is Some && read->0@.len() > 0
}

/// Text that denotes an `i32` is a single token.
pub proof fn lemma_integer_literal_is_token(w: Seq<char>)
    requires
        i32_of(w) is Some,
    ensures
        is_token(w),
{
    let d = digits_part(w);
    assert(all_digits(d));
    assert forall|i: int| 0 <= i < w.len() implies !is_ws(#[trigger] w[i]) by {
        if has_sign(w) {
            if i > 0 {
                assert(w[i] == d[i - 1]);
            }
        } else {
            assert(w[i] == d[i]);
        }
    }
}

/// Integer literals written on one line between runs of whitespace (any
/// mix of spaces and tabs, possibly none before the first or after the last)
/// tokenize to exactly those literals, in order, and the k-th token parses to
/// the k-th value. Read by `read_and_parse_line`, such a line therefore leaves
/// the cursor at 0, and by the contract of `next_i32` the k-th extraction
/// returns the k-th value and leaves the cursor at k + 1.
pub proof fn lemma_line_of_integers(
    words: Seq<Seq<char>>,
    gaps: Seq<Seq<char>>,
    values: Seq<i32>,
)
    requires
        gaps.len() == words.len() + 1,
        values.len() == words.len(),
        forall|k: int| 0 <= k < words.len() ==> i32_of(#[trigger] words[k]) == Some(values[k]),
        forall|k: int| 0 <= k < gaps.len() ==> is_blank(#[trigger] gaps[k]),
        forall|k: int| 0 < k < words.len() ==> (#[trigger] gaps[k]).len() > 0,
    ensures
        tokens_of(interleave(words, gaps)).len() == values.len(),
        forall|k: int|
            0 <= k < values.len() ==> i32_of(#[trigger] tokens_of(interleave(words, gaps))[k])
                == Some(values[k]),
{
    assert forall|k: int| 0 <= k < words.len() implies is_token(#[trigger] words[k]) by {
        assert(i32_of(words[k]) == Some(values[k]));
        lemma_integer_literal_is_token(words[k]);
    }
    lemma_split_interleaved(words, gaps);
}

/// The tokens of the line being read and the position of the next one.
pub struct Input {
    tokens: Vec<String>,
    current_token: usize,
}

pub struct InputView {
    pub tokens: Seq<Seq<char>>,
    pub cursor: nat,
}

impl View for Input {
    type V = InputView;

    closed spec fn view(&self) -> InputView {
        InputView { tokens: self.tokens.deep_view(), cursor: self.current_token as nat }
    }
}

impl Input {
    /// The cursor never passes the end of the tokens.
    pub open spec fn wf(&self) -> bool {
        self@.cursor <= self@.tokens.len()
    }

    /// A reader with no line loaded.
    pub fn new() -> (r: Input)
        ensures
            r.wf(),
            r@.tokens == Seq::<Seq<char>>::empty(),
            r@.cursor == 0,
    {
        let r = Input { tokens: Vec::new(), current_token: 0 };
        assert(r@.tokens =~= Seq::<Seq<char>>::empty());
        r
    }

    /// Decides on the outcome of reading one raw line: the line itself, or,
    /// when the stream has closed or failed, the shutdown sequence.
    pub fn read_and_return_line(&self, read: Option<String>) -> (r: Result<String, Vec<Effect>>)
        ensures
            line_received(read) ==> r == Ok::<String, Vec<Effect>>(read->0),
            !line_received(read) ==> r is Err && r->Err_0.deep_view() == shutdown_on_close(),
    {
        match read {
            Some(line) => {
                if !line.as_str().is_empty() {
                    return Ok(line);
                }
            },
            None => {},
        }
        let mut effects: Vec<Effect> = Vec::new();
        effects.push(Effect::Log(String::from_str("Input connection from server closed. Exiting...")));
        effects.push(Effect::Flush);
        effects.push(Effect::Exit(0));
        assert(effects.deep_view() =~= shutdown_on_close());
        Err(effects)
    }

    /// Loads the tokens of the line that was read and moves the cursor to
    /// the first of them. When no line came, the state is left as it was and
    /// the shutdown sequence is returned.
    pub fn read_and_parse_line(&mut self, read: Option<String>) -> (r: Result<(), Vec<Effect>>)
        requires
            old(self).wf(),
        ensures
            final(self).wf(),
            line_received(read) ==> r is Ok && final(self)@.tokens == tokens_of(read->0@)
                && final(self)@.cursor == 0,
            !line_received(read) ==> r is Err && r->Err_0.deep_view() == shutdown_on_close()
                && final(self)@ == old(self)@,
    {
        match self.read_and_return_line(read) {
            Ok(line) => {
                self.tokens = tokenize(line.as_str());
                self.current_token = 0;
                Ok(())
            },
            Err(effects) => Err(effects),
        }
    }

    /// Consumes the next token as an `i32`. The cursor moves past the token
    /// whether or not it parses; a token that is not an integer gives one
    /// fatal report naming it, and no value. The caller knows how many fields
    /// the line holds: asking past the last token is outside the contract.
    pub fn next_i32(&mut self) -> (r: Result<i32, Vec<Effect>>)
        requires
            old(self).wf(),
            old(self)@.cursor < old(self)@.tokens.len(),
        ensures
            final(self).wf(),
            final(self)@.tokens == old(self)@.tokens,
            final(self)@.cursor == old(self)@.cursor + 1,
            ({
                let token = old(self)@.tokens[old(self)@.cursor as int];
                match i32_of(token) {
                    Some(v) => r == Ok::<i32, Vec<Effect>>(v),
                    None => r is Err && r->Err_0.deep_view() == fatal_on_bad_integer(token),
                }
            }),
    {
        let count: usize = self.tokens.len();
        assert(self.tokens.deep_view().len() == count);
        let token = &self.tokens[self.current_token];
        assert(token@ == self@.tokens[self@.cursor as int]);
        self.current_token = self.current_token + 1;
        match parse_i32(token.as_str()) {
            Some(v) => Ok(v),
            None => {
                let mut message = String::from_str("Can't parse '");
                message.append(token.as_str());
                message.append("' as i32.");
                let mut effects: Vec<Effect> = Vec::new();
                effects.push(Effect::Panic(message));
                assert(effects.deep_view() =~= fatal_on_bad_integer(token@));
                Err(effects)
            },
        }
    }

    /// The position of the next token to be consumed.
    pub fn current_token(&self) -> (r: usize)
        ensures
            r == self@.cursor,
    {
        self.current_token
    }

    /// The tokens of the line last read.
    pub fn tokens(&self) -> (r: &Vec<String>)
        ensures
            r.deep_view() == self@.tokens,
    {
        &self.tokens
    }
}

} // verus!
