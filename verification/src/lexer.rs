use crate::error::Error;
use crate::scan::{
    abs_tokens, heading_run_end, in_alphabet, is_word_byte, lemma_heading_run_end,
    lemma_scan_ok_iff_alphabet, lemma_word_run_end, next_pos, scan_from, token_at, word_chars,
    word_run_end,
};
use crate::text::{lemma_ascii_bytes_decode, string_from_bytes, token_text};
use crate::token::{Token, TokenModel};
use vstd::prelude::*;
use vstd::string::{StrSliceExecFns, StringSliceAdditionalSpecFns};

verus! {

/// The effective scanned buffer: the supplied text's bytes with one
/// newline byte prepended. The prepended byte is the documented
/// leading-newline quirk; it surfaces as the leading `EOL` token.
pub open spec fn effective_buf(input: Seq<u8>) -> Seq<u8> {
    seq!['\n' as u8] + input
}

/// The scanner: an immutable byte buffer (the effective input) and a
/// forward-only cursor over it.
///
/// A fresh scanner holds no buffer and its cursor sits at zero; each
/// [`Lexer::parse`] call loads one input, overwriting all prior state, so
/// one instance can be reused call after call.
pub struct Lexer {
    position: usize,
    read_position: usize,
    ch: u8,
    input: Vec<u8>,
}

/// Executable form of the word class test.
fn word_byte(b: u8) -> (r: bool)
    ensures
        r == is_word_byte(b),
{
    ('a' as u8) <= b && b <= ('z' as u8) || ('A' as u8) <= b && b <= ('Z' as u8) || ('0' as u8)
        <= b && b <= ('9' as u8) || b == (',' as u8) || b == ('"' as u8) || b == ('\'' as u8)
}

impl Lexer {
    /// A fresh scanner: empty buffer, cursor at zero, NUL in the byte
    /// cache.
    pub closed spec fn is_fresh(&self) -> bool {
        &&& self.position == 0
        &&& self.read_position == 0
        &&& self.ch == 0
        &&& self.input@ == Seq::<u8>::empty()
    }

    /// Mid-scan well-formedness: the read position sits one byte past the
    /// current position, and `ch` caches the byte under the current
    /// position, with the NUL sentinel once the cursor is past the end.
    spec fn wf(&self) -> bool {
        &&& self.read_position == self.position + 1
        &&& self.ch == (if self.position < self.input@.len() {
            self.input@[self.position as int]
        } else {
            0u8
        })
    }

    pub fn new() -> (l: Lexer)
        ensures
            l.is_fresh(),
    {
        Lexer { position: 0, read_position: 0, ch: 0, input: Vec::new() }
    }

    /// Advances the cursor by one byte and refreshes the byte cache.
    fn read_char(&mut self)
        requires
            old(self).read_position < usize::MAX,
        ensures
            final(self).input@ == old(self).input@,
            final(self).position == old(self).read_position,
            final(self).read_position == old(self).read_position + 1,
            final(self).ch == (if old(self).read_position < old(self).input@.len() {
                old(self).input@[old(self).read_position as int]
            } else {
                0u8
            }),
    {
        if self.read_position >= self.input.len() {
            self.ch = 0;
        } else {
            self.ch = self.input[self.read_position];
        }
        self.position = self.read_position;
        self.read_position = self.read_position + 1;
    }

    /// Reads the maximal word run starting at the current position and
    /// returns it as an `Indent` token.
    fn read_indent(&mut self) -> (t: Token)
        requires
            old(self).wf(),
            old(self).position < old(self).input@.len(),
            is_word_byte(old(self).input@[old(self).position as int]),
            old(self).input@.len() + 2 <= usize::MAX,
        ensures
            final(self).wf(),
            final(self).input@ == old(self).input@,
            final(self).position == word_run_end(old(self).input@, old(self).position as nat),
            t@ == TokenModel::Indent(
                word_chars(
                    old(self).input@,
                    old(self).position as nat,
                    word_run_end(old(self).input@, old(self).position as nat),
                ),
            ),
    {
        let ghost buf = self.input@;
        let ghost start = self.position as nat;
        let pos = self.position;
        while word_byte(self.ch)
            invariant
                self.wf(),
                self.input@ == buf,
                start <= self.position as nat <= buf.len(),
                buf.len() + 2 <= usize::MAX,
                pos == start,
                word_run_end(buf, self.position as nat) == word_run_end(buf, start),
            decreases buf.len() - self.position,
        {
            self.read_char();
        }
        proof {
            lemma_word_run_end(buf, start);
            assert(self.position as nat == word_run_end(buf, start));
        }
        let mut bytes: Vec<u8> = Vec::new();
        let mut k: usize = pos;
        while k < self.position
            invariant
                pos <= k <= self.position,
                self.position as nat <= buf.len(),
                self.input@ == buf,
                bytes@ == buf.subrange(pos as int, k as int),
            decreases self.position - k,
        {
            let b = self.input[k];
            bytes.push(b);
            k = k + 1;
            proof {
                assert(bytes@ =~= buf.subrange(pos as int, k as int));
            }
        }
        proof {
            assert forall|j: int| 0 <= j < bytes@.len() implies #[trigger] bytes@[j] < 128 by {
                assert(bytes@[j] == buf[pos + j]);
                assert(is_word_byte(buf[pos + j]));
            }
            lemma_ascii_bytes_decode(bytes@);
        }
        let s = string_from_bytes(bytes);
        proof {
            assert(s@ =~= word_chars(buf, start, word_run_end(buf, start)));
        }
        Token::Indent(s)
    }

    /// Reads the maximal run of `#` bytes starting at the current position
    /// and returns its length as a `Heading` token.
    fn read_heading(&mut self) -> (t: Token)
        requires
            old(self).wf(),
            old(self).position < old(self).input@.len(),
            old(self).input@[old(self).position as int] == '#' as u8,
            old(self).input@.len() + 2 <= usize::MAX,
        ensures
            final(self).wf(),
            final(self).input@ == old(self).input@,
            final(self).position == heading_run_end(old(self).input@, old(self).position as nat),
            t@ == TokenModel::Heading(
                (heading_run_end(old(self).input@, old(self).position as nat) - old(
                    self,
                ).position) as nat,
            ),
    {
        let ghost buf = self.input@;
        let ghost start = self.position as nat;
        let pos = self.position;
        while self.ch == ('#' as u8)
            invariant
                self.wf(),
                self.input@ == buf,
                start <= self.position as nat <= buf.len(),
                buf.len() + 2 <= usize::MAX,
                pos == start,
                heading_run_end(buf, self.position as nat) == heading_run_end(buf, start),
            decreases buf.len() - self.position,
        {
            self.read_char();
        }
        proof {
            lemma_heading_run_end(buf, start);
            assert(self.position as nat == heading_run_end(buf, start));
        }
        Token::Heading(self.position - pos)
    }

    /// Classifies the byte under the cursor into one token (advancing past
    /// its whole span), or fails on a byte outside the alphabet without
    /// advancing.
    fn next_token(&mut self) -> (r: Result<Token, Error>)
        requires
            old(self).wf(),
            old(self).position as nat <= old(self).input@.len(),
            old(self).input@.len() + 2 <= usize::MAX,
        ensures
            final(self).input@ == old(self).input@,
            ({
                let buf = old(self).input@;
                let p = old(self).position as nat;
                if p < buf.len() {
                    match r {
                        Ok(t) => {
                            &&& token_at(buf, p) == Some(t@)
                            &&& final(self).wf()
                            &&& final(self).position as nat == next_pos(buf, p)
                            &&& final(self).position as nat <= buf.len()
                        },
                        Err(e) => {
                            &&& token_at(buf, p) is None
                            &&& e matches Error::LexerErr(m) && m@ == token_text(
                                TokenModel::Illegal(buf[p as int]),
                            )
                            &&& final(self).position == old(self).position
                            &&& final(self).read_position == old(self).read_position
                            &&& final(self).ch == old(self).ch
                        },
                    }
                } else {
                    &&& r matches Ok(t) && t@ == TokenModel::EOF
                    &&& final(self).wf()
                    &&& final(self).position as nat == p + 1
                }
            }),
    {
        let ghost buf = self.input@;
        let ghost p = self.position as nat;
        proof {
            lemma_word_run_end(buf, p);
            lemma_heading_run_end(buf, p);
        }
        let ch = self.ch;
        if word_byte(ch) {
            let t = self.read_indent();
            return Ok(t);
        }
        if ch == ('#' as u8) {
            let t = self.read_heading();
            return Ok(t);
        }
        let tk: Token = if ch == (' ' as u8) {
            Token::WhiteSpace
        } else if ch == ('\t' as u8) {
            Token::Tab
        } else if ch == ('\n' as u8) {
            Token::EOL
        } else if ch == 0 {
            Token::EOF
        } else if ch == ('[' as u8) {
            Token::LeftSquare
        } else if ch == (']' as u8) {
            Token::RightSquare
        } else if ch == ('(' as u8) {
            Token::LeftParen
        } else if ch == (')' as u8) {
            Token::RightParen
        } else if ch == ('<' as u8) {
            Token::LeftAngle
        } else if ch == ('>' as u8) {
            Token::RightAngle
        } else if ch == ('.' as u8) {
            Token::Dot
        } else if ch == ('-' as u8) {
            Token::Dash
        } else if ch == ('=' as u8) {
            Token::Equal
        } else if ch == ('+' as u8) {
            Token::Plus
        } else if ch == ('*' as u8) {
            Token::Asterisk
        } else if ch == ('_' as u8) {
            Token::Undersocre
        } else if ch == ('`' as u8) {
            Token::BackTick
        } else if ch == ('\\' as u8) {
            Token::BackSlash
        } else if ch == ('/' as u8) {
            Token::Slash
        } else if ch == (':' as u8) {
            Token::Colon
        } else if ch == (';' as u8) {
            Token::SemiColon
        } else {
            // fail fast: the byte is outside the alphabet and the cursor
            // does not advance
            return Err(Error::LexerErr(Token::Illegal(ch).text()));
        };
        self.read_char();
        Ok(tk)
    }

    /// Tokenizes one input: loads the effective buffer (the input with one
    /// newline byte prepended), then scans it into an ordered token
    /// sequence, or fails on the first byte outside the alphabet.
    ///
    /// On success the result is exactly the token sequence that
    /// [`scan_from`] describes for the effective buffer: it opens with the
    /// `EOL` of the synthetic newline and closes with one `EOF` for the
    /// end-of-input sentinel. On failure the error message is the textual
    /// rendering of the `Illegal` token for the offending byte.
    pub fn parse(&mut self, input: &str) -> (r: Result<Vec<Token>, Error>)
        requires
            input.spec_bytes().len() + 3 <= usize::MAX,
        ensures
            ({
                let buf = effective_buf(input.spec_bytes());
                &&& (r is Ok <==> (forall|k: int|
                    0 <= k < buf.len() ==> in_alphabet(#[trigger] buf[k])))
                &&& match r {
                    Ok(toks) => scan_from(buf, 0) == Ok::<Seq<TokenModel>, u8>(abs_tokens(toks@)),
                    Err(e) => {
                        &&& scan_from(buf, 0) is Err
                        &&& e matches Error::LexerErr(m) && m@ == token_text(
                            TokenModel::Illegal(scan_from(buf, 0)->Err_0),
                        )
                    },
                }
            }),
    {
        let ghost ib = input.spec_bytes();
        let ghost buf = effective_buf(ib);

        // load the effective buffer: one newline byte, then the input
        let mut buffer: Vec<u8> = Vec::new();
        buffer.push('\n' as u8);
        let bytes: Vec<u8> = input.as_bytes_vec();
        let n = bytes.len();
        let mut k: usize = 0;
        while k < n
            invariant
                k <= n,
                n == ib.len(),
                bytes@ == ib,
                buffer@ == buf.subrange(0, k + 1),
                buf == effective_buf(ib),
            decreases n - k,
        {
            let b = bytes[k];
            buffer.push(b);
            k = k + 1;
            proof {
                assert(buffer@ =~= buf.subrange(0, k as int + 1));
            }
        }
        proof {
            assert(buffer@ =~= buf);
        }
        self.input = buffer;
        self.position = 0;
        self.read_position = 0;
        self.ch = 0;

        // warm the cursor: it lands on the synthetic newline
        self.read_char();

        let mut tokens: Vec<Token> = Vec::new();
        while self.position < self.input.len()
            invariant
                self.wf(),
                self.input@ == buf,
                buf == effective_buf(input.spec_bytes()),
                self.position as nat <= buf.len(),
                buf.len() + 2 <= usize::MAX,
                match scan_from(buf, self.position as nat) {
                    Ok(rest) => scan_from(buf, 0) == Ok::<Seq<TokenModel>, u8>(
                        abs_tokens(tokens@) + rest,
                    ),
                    Err(e) => scan_from(buf, 0) == Err::<Seq<TokenModel>, u8>(e),
                },
            decreases buf.len() - self.position,
        {
            let ghost p = self.position as nat;
            let ghost toks0 = tokens@;
            proof {
                lemma_word_run_end(buf, p);
                lemma_heading_run_end(buf, p);
            }
            let t = match self.next_token() {
                Ok(t) => t,
                Err(e) => {
                    proof {
                        assert(scan_from(buf, p) == Err::<Seq<TokenModel>, u8>(buf[p as int]));
                        lemma_scan_ok_iff_alphabet(buf, 0);
                    }
                    return Err(e);
                },
            };
            tokens.push(t);
            proof {
                let rest1 = scan_from(buf, self.position as nat)->Ok_0;
                if scan_from(buf, self.position as nat) is Ok {
                    assert(scan_from(buf, p) == Ok::<Seq<TokenModel>, u8>(seq![t@] + rest1));
                    assert(abs_tokens(tokens@) + rest1 =~= abs_tokens(toks0) + (seq![t@] + rest1))
                        by {
                        assert(abs_tokens(tokens@) =~= abs_tokens(toks0).push(t@));
                    }
                }
            }
        }
        let ghost toks0 = tokens@;
        let t = match self.next_token() {
            Ok(t) => t,
            Err(e) => {
                proof {
                    assert(false);
                }
                return Err(e);
            },
        };
        tokens.push(t);
        proof {
            assert(scan_from(buf, buf.len()) == Ok::<Seq<TokenModel>, u8>(seq![TokenModel::EOF]));
            assert(abs_tokens(tokens@) =~= abs_tokens(toks0) + seq![TokenModel::EOF]) by {
                assert(abs_tokens(tokens@) =~= abs_tokens(toks0).push(t@));
            }
            lemma_scan_ok_iff_alphabet(buf, 0);
        }
        Ok(tokens)
    }
}

/// The leading-newline quirk, in general: every successful tokenization
/// opens with the `EOL` token of the synthetic newline, not with a token
/// for the caller's first character.
pub proof fn lemma_first_token_is_eol(input: Seq<u8>, toks: Seq<TokenModel>)
    requires
        scan_from(effective_buf(input), 0) == Ok::<Seq<TokenModel>, u8>(toks),
    ensures
        toks.len() >= 1,
        toks[0] == TokenModel::EOL,
{
    let buf = effective_buf(input);
    assert(buf[0] == '\n' as u8);
    assert(!is_word_byte(buf[0]));
    assert(token_at(buf, 0) == Some(TokenModel::EOL));
    let rest = scan_from(buf, next_pos(buf, 0))->Ok_0;
    assert(toks == seq![TokenModel::EOL] + rest);
    assert(toks[0] == TokenModel::EOL);
}

} // verus!

