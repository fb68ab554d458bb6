use crate::chars::{
    alphabetic, alphanumeric, ascii_ws, char_alphabetic, char_alphanumeric, digit, is_ascii_ws,
    is_digit, to_upper, upper_char, upper_seq,
};
use vstd::slice::slice_subrange;
use vstd::prelude::*;

verus! {

// ---------------------------------------------------------------------------
// Specification of the token grammar.
//
// A token is read from position `i` of a character sequence as follows:
// skip a maximal run of ASCII whitespace; then, if a decimal digit starts the
// remainder, take a maximal numeric run (digits, or a dot followed by a
// digit); if an alphabetic character starts it, take a maximal word run
// (alphanumeric or underscore); otherwise take exactly one character.
// ---------------------------------------------------------------------------
/// Length of the maximal run of characters satisfying `p` starting at `i`.
pub open spec fn run_from(s: Seq<char>, i: int, p: spec_fn(Seq<char>, int) -> bool) -> int
    decreases s.len() - i,
{
    if 0 <= i < s.len() && p(s, i) {
        1 + run_from(s, i + 1, p)
    } else {
        0
    }
}

/// Position `i` continues a run of ASCII whitespace.
pub open spec fn ws_pred() -> spec_fn(Seq<char>, int) -> bool {
    |s: Seq<char>, i: int| is_ascii_ws(s[i])
}

/// Position `i` continues a numeric token: a digit, or a dot whose next
/// character exists and is a digit (so `1.` stops after the `1`).
pub open spec fn num_pred() -> spec_fn(Seq<char>, int) -> bool {
    |s: Seq<char>, i: int| is_digit(s[i]) || (s[i] == '.' && i + 1 < s.len() && is_digit(s[i + 1]))
}

/// Position `i` continues a word token: alphanumeric or underscore.
pub open spec fn word_pred() -> spec_fn(Seq<char>, int) -> bool {
    |s: Seq<char>, i: int| char_alphanumeric(s[i]) || s[i] == '_'
}

/// Length of the raw token that starts at position `i` (whitespace already
/// skipped, so `i` is on a token character).
pub open spec fn token_len_at(s: Seq<char>, i: int) -> int
    recommends
        0 <= i < s.len(),
{
    if is_digit(s[i]) {
        run_from(s, i, num_pred())
    } else if char_alphabetic(s[i]) {
        run_from(s, i, word_pred())
    } else {
        1
    }
}

pub proof fn lemma_token_len_at_pos(s: Seq<char>, i: int)
    requires
        0 <= i < s.len(),
    ensures
        1 <= token_len_at(s, i) <= s.len() - i,
    decreases s.len() - i,
{
    lemma_run_from_bound(s, i, num_pred());
    lemma_run_from_bound(s, i, word_pred());
    if is_digit(s[i]) {
        assert(num_pred()(s, i));
        assert(run_from(s, i, num_pred()) == 1 + run_from(s, i + 1, num_pred()));
        lemma_run_from_bound(s, i + 1, num_pred());
    } else if char_alphabetic(s[i]) {
        assert(word_pred()(s, i));
        assert(run_from(s, i, word_pred()) == 1 + run_from(s, i + 1, word_pred()));
        lemma_run_from_bound(s, i + 1, word_pred());
    }
}

pub proof fn lemma_run_from_bound(s: Seq<char>, i: int, p: spec_fn(Seq<char>, int) -> bool)
    requires
        0 <= i <= s.len(),
    ensures
        0 <= run_from(s, i, p) <= s.len() - i,
    decreases s.len() - i,
{
    if i < s.len() && p(s, i) {
        lemma_run_from_bound(s, i + 1, p);
    }
}

/// The sequence of raw (not yet uppercased) tokens read from position `i` on.
pub open spec fn tokenize_from(s: Seq<char>, i: int) -> Seq<Seq<char>>
    recommends
        0 <= i <= s.len(),
    decreases s.len() - i,
    when 0 <= i <= s.len()
    via tokenize_from_decreases
{
    let j = i + run_from(s, i, ws_pred());
    if j >= s.len() {
        Seq::empty()
    } else {
        let n = token_len_at(s, j);
        seq![s.subrange(j, j + n)] + tokenize_from(s, j + n)
    }
}

#[via_fn]
proof fn tokenize_from_decreases(s: Seq<char>, i: int) {
    lemma_run_from_bound(s, i, ws_pred());
    let j = i + run_from(s, i, ws_pred());
    if j < s.len() {
        lemma_token_len_at_pos(s, j);
    }
}

/// The full token stream of a character sequence, uppercased as the lexer
/// hands tokens out.
pub open spec fn tokens_of(s: Seq<char>) -> Seq<Seq<char>> {
    tokenize_from(s, 0).map(|i: int, t: Seq<char>| upper_seq(t))
}

// ---------------------------------------------------------------------------
// The executable lexer.
// ---------------------------------------------------------------------------
/// Reads the token stream of a character slice, left to right.
pub struct Lexer<'a> {
    content: &'a [char],
    pos: usize,
}

impl<'a> Lexer<'a> {
    pub closed spec fn wf(&self) -> bool {
        self.pos <= self.content@.len()
    }

    pub closed spec fn text(&self) -> Seq<char> {
        self.content@
    }

    pub closed spec fn position(&self) -> int {
        self.pos as int
    }

    /// The raw tokens still to be read.
    pub open spec fn raw_tokens(&self) -> Seq<Seq<char>> {
        tokenize_from(self.text(), self.position())
    }

    pub fn new(content: &'a [char]) -> (l: Self)
        ensures
            l.wf(),
            l.text() == content@,
            l.position() == 0,
    {
        Self { content, pos: 0 }
    }

    /// Advance past the maximal whitespace run at the current position.
    fn trim_left(&mut self)
        requires
            old(self).wf(),
        ensures
            final(self).wf(),
            final(self).text() == old(self).text(),
            final(self).position() == old(self).position() + run_from(
                old(self).text(),
                old(self).position(),
                ws_pred(),
            ),
    {
        let ghost s = self.content@;
        let ghost start = self.pos as int;
        proof {
            lemma_run_from_bound(s, start, ws_pred());
        }
        while self.pos < self.content.len() && ascii_ws(self.content[self.pos])
            invariant
                self.content@ == s,
                start <= self.pos as int <= s.len(),
                run_from(s, start, ws_pred()) == (self.pos as int - start) + run_from(
                    s,
                    self.pos as int,
                    ws_pred(),
                ),
            decreases s.len() - self.pos,
        {
            proof {
                assert(ws_pred()(s, self.pos as int));
            }
            self.pos = self.pos + 1;
        }
        proof {
            assert(run_from(s, self.pos as int, ws_pred()) == 0);
        }
    }

    /// Advance past the maximal numeric run at the current position.
    fn scan_number(&mut self)
        requires
            old(self).wf(),
        ensures
            final(self).wf(),
            final(self).text() == old(self).text(),
            final(self).position() == old(self).position() + run_from(
                old(self).text(),
                old(self).position(),
                num_pred(),
            ),
    {
        let ghost s = self.content@;
        let ghost start = self.pos as int;
        proof {
            lemma_run_from_bound(s, start, num_pred());
        }
        loop
            invariant
                self.wf(),
                self.content@ == s,
                s == old(self).text(),
                start == old(self).position(),
                start <= self.pos as int <= s.len(),
                run_from(s, start, num_pred()) == (self.pos as int - start) + run_from(
                    s,
                    self.pos as int,
                    num_pred(),
                ),
            decreases s.len() - self.pos,
        {
            if self.pos >= self.content.len() {
                proof {
                    assert(run_from(s, self.pos as int, num_pred()) == 0);
                }
                return ;
            }
            let c = self.content[self.pos];
            let go = if digit(c) {
                true
            } else if c == '.' && self.pos + 1 < self.content.len() {
                digit(self.content[self.pos + 1])
            } else {
                false
            };
            if !go {
                proof {
                    assert(!num_pred()(s, self.pos as int));
                    assert(run_from(s, self.pos as int, num_pred()) == 0);
                }
                return ;
            }
            proof {
                assert(num_pred()(s, self.pos as int));
            }
            self.pos = self.pos + 1;
        }
    }

    /// Advance past the maximal word run at the current position.
    fn scan_word(&mut self)
        requires
            old(self).wf(),
        ensures
            final(self).wf(),
            final(self).text() == old(self).text(),
            final(self).position() == old(self).position() + run_from(
                old(self).text(),
                old(self).position(),
                word_pred(),
            ),
    {
        let ghost s = self.content@;
        let ghost start = self.pos as int;
        proof {
            lemma_run_from_bound(s, start, word_pred());
        }
        while self.pos < self.content.len() && (alphanumeric(self.content[self.pos])
            || self.content[self.pos] == '_')
            invariant
                self.content@ == s,
                start <= self.pos as int <= s.len(),
                run_from(s, start, word_pred()) == (self.pos as int - start) + run_from(
                    s,
                    self.pos as int,
                    word_pred(),
                ),
            decreases s.len() - self.pos,
        {
            proof {
                assert(word_pred()(s, self.pos as int));
            }
            self.pos = self.pos + 1;
        }
        proof {
            assert(run_from(s, self.pos as int, word_pred()) == 0);
        }
    }

    /// Read the next raw token as the characters it covers, or `None` when
    /// only whitespace is left.
    fn next_token(&mut self) -> (r: Option<&'a [char]>)
        requires
            old(self).wf(),
        ensures
            final(self).wf(),
            final(self).text() == old(self).text(),
            old(self).position() <= final(self).position() <= final(self).text().len(),
            match r {
                None => {
                    &&& old(self).raw_tokens() =~= Seq::<Seq<char>>::empty()
                    &&& final(self).position() == final(self).text().len()
                },
                Some(t) => {
                    &&& old(self).raw_tokens().len() > 0
                    &&& t@ == old(self).raw_tokens()[0]
                    &&& t@.len() > 0
                    &&& final(self).raw_tokens() =~= old(self).raw_tokens().drop_first()
                    &&& final(self).position() > old(self).position()
                },
            },
    {
        let ghost s = self.content@;
        let ghost start = self.pos as int;
        self.trim_left();
        let ghost j = self.pos as int;
        if self.pos >= self.content.len() {
            return None;
        }
        proof {
            lemma_token_len_at_pos(s, j);
        }
        let tok_start = self.pos;
        let c = self.content[self.pos];
        if digit(c) {
            self.scan_number();
            proof {
                assert(num_pred()(s, j));
                assert(self.pos as int == j + token_len_at(s, j));
            }
        } else if alphabetic(c) {
            self.scan_word();
            proof {
                assert(word_pred()(s, j));
                assert(self.pos as int == j + token_len_at(s, j));
            }
        } else {
            self.pos = self.pos + 1;
            proof {
                assert(self.pos as int == j + token_len_at(s, j));
            }
        }
        let tok = slice_subrange(self.content, tok_start, self.pos);
        proof {
            let n = token_len_at(s, j);
            assert(self.pos as int == j + n);
            assert(1 <= n <= s.len() - j);
            assert(j == start + run_from(s, start, ws_pred()));
            lemma_run_from_bound(s, start, ws_pred());
            assert(0 <= start <= s.len());
            assert(tokenize_from(s, start) == seq![s.subrange(j, j + n)] + tokenize_from(
                s,
                j + n,
            ));
            assert(tokenize_from(s, start)[0] == s.subrange(j, j + n));
            assert(tok@ == s.subrange(j, j + n));
            assert(tokenize_from(s, start).len() > 0);
            assert((seq![s.subrange(j, j + n)] + tokenize_from(s, j + n)).drop_first()
                =~= tokenize_from(s, j + n));
            assert(self.raw_tokens() =~= tokenize_from(s, start).drop_first());
        }
        Some(tok)
    }

    /// Read the next token, normalized to uppercase, or `None` when the
    /// input is exhausted. Every emitted token is nonempty.
    pub fn next(&mut self) -> (r: Option<String>)
        requires
            old(self).wf(),
        ensures
            final(self).wf(),
            final(self).text() == old(self).text(),
            old(self).position() <= final(self).position() <= final(self).text().len(),
            match r {
                None => {
                    &&& old(self).raw_tokens() =~= Seq::<Seq<char>>::empty()
                    &&& final(self).position() == final(self).text().len()
                },
                Some(t) => {
                    &&& old(self).raw_tokens().len() > 0
                    &&& t@ == upper_seq(old(self).raw_tokens()[0])
                    &&& t@.len() > 0
                    &&& final(self).raw_tokens() =~= old(self).raw_tokens().drop_first()
                    &&& final(self).position() > old(self).position()
                },
            },
    {
        match self.next_token() {
            None => None,
            Some(tok) => Some(upper_string(tok)),
        }
    }
}

/// Uppercase a character slice into an owned string.
fn upper_string(tok: &[char]) -> (r: String)
    ensures
        r@ == upper_seq(tok@),
{
    let mut out: Vec<char> = Vec::new();
    let mut i: usize = 0;
    while i < tok.len()
        invariant
            i <= tok@.len(),
            out@ == upper_seq(tok@.take(i as int)),
        decreases tok@.len() - i,
    {
        out.push(to_upper(tok[i]));
        proof {
            assert(upper_seq(tok@.take(i as int + 1)) =~= upper_seq(tok@.take(i as int)).push(
                upper_char(tok@[i as int]),
            ));
        }
        i = i + 1;
    }
    proof {
        assert(tok@.take(tok@.len() as int) =~= tok@);
    }
    chars_to_string(&out)
}

/// Relies on `core::iter::Iterator::collect` building a `String` from its
/// characters in order.
#[verifier::external_body]
pub fn chars_to_string(v: &Vec<char>) -> (r: String)
    ensures
        r@ == v@,
{
    v.iter().collect()
}

} // verus!
