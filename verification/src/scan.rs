use crate::token::TokenModel;
use vstd::prelude::*;

verus! {

/// The word class: ASCII letters, ASCII digits, comma, double quote,
/// single quote. A maximal run of these bytes becomes one `Indent` token.
pub open spec fn is_word_byte(b: u8) -> bool {
    ||| 'a' as u8 <= b <= 'z' as u8
    ||| 'A' as u8 <= b <= 'Z' as u8
    ||| '0' as u8 <= b <= '9' as u8
    ||| b == ',' as u8
    ||| b == '"' as u8
    ||| b == '\'' as u8
}

/// The fixed single-byte table: the token produced by one byte that is
/// neither a word byte nor a heading marker, or `None` when the byte is
/// outside the alphabet. The NUL byte is the end-of-input sentinel and
/// classifies as `EOF`.
pub open spec fn single_token(b: u8) -> Option<TokenModel> {
    if b == ' ' as u8 {
        Some(TokenModel::WhiteSpace)
    } else if b == '\t' as u8 {
        Some(TokenModel::Tab)
    } else if b == '\n' as u8 {
        Some(TokenModel::EOL)
    } else if b == 0 {
        Some(TokenModel::EOF)
    } else if b == '[' as u8 {
        Some(TokenModel::LeftSquare)
    } else if b == ']' as u8 {
        Some(TokenModel::RightSquare)
    } else if b == '(' as u8 {
        Some(TokenModel::LeftParen)
    } else if b == ')' as u8 {
        Some(TokenModel::RightParen)
    } else if b == '<' as u8 {
        Some(TokenModel::LeftAngle)
    } else if b == '>' as u8 {
        Some(TokenModel::RightAngle)
    } else if b == '.' as u8 {
        Some(TokenModel::Dot)
    } else if b == '-' as u8 {
        Some(TokenModel::Dash)
    } else if b == '=' as u8 {
        Some(TokenModel::Equal)
    } else if b == '+' as u8 {
        Some(TokenModel::Plus)
    } else if b == '*' as u8 {
        Some(TokenModel::Asterisk)
    } else if b == '_' as u8 {
        Some(TokenModel::Undersocre)
    } else if b == '`' as u8 {
        Some(TokenModel::BackTick)
    } else if b == '\\' as u8 {
        Some(TokenModel::BackSlash)
    } else if b == '/' as u8 {
        Some(TokenModel::Slash)
    } else if b == ':' as u8 {
        Some(TokenModel::Colon)
    } else if b == ';' as u8 {
        Some(TokenModel::SemiColon)
    } else {
        None
    }
}

/// The scanner's whole alphabet: word bytes, the heading marker, and the
/// single-byte table. Any byte outside it is fatal to the scan.
pub open spec fn in_alphabet(b: u8) -> bool {
    is_word_byte(b) || b == '#' as u8 || single_token(b) is Some
}

/// First position at or after `i` whose byte is not a word byte (the
/// exclusive end of the word run starting at `i`).
pub open spec fn word_run_end(buf: Seq<u8>, i: nat) -> nat
    decreases buf.len() - i
        when i <= buf.len()
{
    if i < buf.len() && is_word_byte(buf[i as int]) {
        word_run_end(buf, i + 1)
    } else {
        i
    }
}

/// First position at or after `i` whose byte is not `#` (the exclusive
/// end of the heading run starting at `i`).
pub open spec fn heading_run_end(buf: Seq<u8>, i: nat) -> nat
    decreases buf.len() - i
        when i <= buf.len()
{
    if i < buf.len() && buf[i as int] == '#' as u8 {
        heading_run_end(buf, i + 1)
    } else {
        i
    }
}

/// A word run is contained in the buffer, consists of word bytes only, and
/// stops right before the first non-word byte.
pub proof fn lemma_word_run_end(buf: Seq<u8>, i: nat)
    requires
        i <= buf.len(),
    ensures
        i <= word_run_end(buf, i) <= buf.len(),
        forall|k: int| i <= k < word_run_end(buf, i) ==> is_word_byte(#[trigger] buf[k]),
        word_run_end(buf, i) < buf.len() ==> !is_word_byte(buf[word_run_end(buf, i) as int]),
        i < buf.len() && is_word_byte(buf[i as int]) ==> word_run_end(buf, i) > i,
    decreases buf.len() - i,
{
    if i < buf.len() && is_word_byte(buf[i as int]) {
        lemma_word_run_end(buf, i + 1);
    }
}

/// The heading-run analogue of [`lemma_word_run_end`].
pub proof fn lemma_heading_run_end(buf: Seq<u8>, i: nat)
    requires
        i <= buf.len(),
    ensures
        i <= heading_run_end(buf, i) <= buf.len(),
        forall|k: int| i <= k < heading_run_end(buf, i) ==> #[trigger] buf[k] == '#' as u8,
        heading_run_end(buf, i) < buf.len() ==> buf[heading_run_end(buf, i) as int] != '#' as u8,
        i < buf.len() && buf[i as int] == '#' as u8 ==> heading_run_end(buf, i) > i,
    decreases buf.len() - i,
{
    if i < buf.len() && buf[i as int] == '#' as u8 {
        lemma_heading_run_end(buf, i + 1);
    }
}

/// The characters of the word run `buf[i..j]`, read as ASCII.
pub open spec fn word_chars(buf: Seq<u8>, i: nat, j: nat) -> Seq<char> {
    buf.subrange(i as int, j as int).map_values(|b: u8| b as char)
}

/// The token whose span starts at position `i` of the buffer, or `None`
/// when the byte there is outside the alphabet. Meaningful for `i` below
/// the buffer length.
pub open spec fn token_at(buf: Seq<u8>, i: nat) -> Option<TokenModel> {
    let b = buf[i as int];
    if is_word_byte(b) {
        Some(TokenModel::Indent(word_chars(buf, i, word_run_end(buf, i))))
    } else if b == '#' as u8 {
        Some(TokenModel::Heading((heading_run_end(buf, i) - i) as nat))
    } else {
        single_token(b)
    }
}

/// The position right after the span of the token starting at `i`.
pub open spec fn next_pos(buf: Seq<u8>, i: nat) -> nat {
    let b = buf[i as int];
    if is_word_byte(b) {
        word_run_end(buf, i)
    } else if b == '#' as u8 {
        heading_run_end(buf, i)
    } else {
        i + 1
    }
}

/// The specification-level scanner: the token sequence produced from
/// position `i` to the end of the buffer, closed by one `EOF` for the
/// end-of-input sentinel, or the first out-of-alphabet byte.
pub open spec fn scan_from(buf: Seq<u8>, i: nat) -> Result<Seq<TokenModel>, u8>
    decreases buf.len() - i
        when i <= buf.len()
        via scan_from_decreases
{
    if i >= buf.len() {
        Ok(seq![TokenModel::EOF])
    } else {
        match token_at(buf, i) {
            Some(t) => match scan_from(buf, next_pos(buf, i)) {
                Ok(rest) => Ok(seq![t] + rest),
                Err(e) => Err(e),
            },
            None => Err(buf[i as int]),
        }
    }
}

#[via_fn]
proof fn scan_from_decreases(buf: Seq<u8>, i: nat) {
    if i < buf.len() {
        lemma_word_run_end(buf, i);
        lemma_heading_run_end(buf, i);
    }
}

/// The models of a sequence of concrete tokens.
pub open spec fn abs_tokens(toks: Seq<crate::token::Token>) -> Seq<TokenModel> {
    toks.map_values(|t: crate::token::Token| t@)
}

/// The bytes a token stands for in the buffer: its span. `EOF` spans the
/// NUL sentinel — a real NUL byte mid-buffer, or the virtual sentinel past
/// the end for the scan's closing token.
pub open spec fn token_span(t: TokenModel) -> Seq<u8> {
    match t {
        TokenModel::Heading(n) => Seq::new(n, |k: int| '#' as u8),
        TokenModel::Indent(s) => s.map_values(|c: char| c as u8),
        TokenModel::WhiteSpace => seq![' ' as u8],
        TokenModel::Tab => seq!['\t' as u8],
        TokenModel::EOL => seq!['\n' as u8],
        TokenModel::EOF => seq![0u8],
        TokenModel::LeftSquare => seq!['[' as u8],
        TokenModel::RightSquare => seq![']' as u8],
        TokenModel::LeftParen => seq!['(' as u8],
        TokenModel::RightParen => seq![')' as u8],
        TokenModel::LeftAngle => seq!['<' as u8],
        TokenModel::RightAngle => seq!['>' as u8],
        TokenModel::Dot => seq!['.' as u8],
        TokenModel::Dash => seq!['-' as u8],
        TokenModel::Equal => seq!['=' as u8],
        TokenModel::Plus => seq!['+' as u8],
        TokenModel::Asterisk => seq!['*' as u8],
        TokenModel::Undersocre => seq!['_' as u8],
        TokenModel::BackTick => seq!['`' as u8],
        TokenModel::BackSlash => seq!['\\' as u8],
        TokenModel::Slash => seq!['/' as u8],
        TokenModel::Colon => seq![':' as u8],
        TokenModel::SemiColon => seq![';' as u8],
        TokenModel::Illegal(b) => seq![b],
    }
}

/// The first byte of a token's span (the NUL sentinel for `EOF` and for
/// the empty word run, which no scan produces).
pub open spec fn first_span_byte(t: TokenModel) -> u8 {
    match t {
        TokenModel::Heading(n) => '#' as u8,
        TokenModel::Indent(s) => if s.len() > 0 {
            s[0] as u8
        } else {
            0u8
        },
        _ => token_span(t)[0],
    }
}

/// The concatenation of the spans of a token sequence.
pub open spec fn concat_spans(toks: Seq<TokenModel>) -> Seq<u8>
    decreases toks.len(),
{
    if toks.len() == 0 {
        Seq::empty()
    } else {
        token_span(toks[0]) + concat_spans(toks.drop_first())
    }
}

proof fn lemma_concat_spans_push(toks: Seq<TokenModel>, t: TokenModel)
    ensures
        concat_spans(toks.push(t)) == concat_spans(toks) + token_span(t),
    decreases toks.len(),
{
    assert(concat_spans(Seq::<TokenModel>::empty()) == Seq::<u8>::empty());
    if toks.len() == 0 {
        assert(toks.push(t).drop_first() =~= Seq::<TokenModel>::empty());
        assert(toks.push(t)[0] == t);
        assert(concat_spans(toks.push(t)) == token_span(t) + concat_spans(
            toks.push(t).drop_first(),
        ));
        assert(concat_spans(toks.push(t)) =~= concat_spans(toks) + token_span(t));
    } else {
        lemma_concat_spans_push(toks.drop_first(), t);
        assert(toks.push(t).drop_first() =~= toks.drop_first().push(t));
        assert(toks.push(t)[0] == toks[0]);
        assert(concat_spans(toks.push(t)) == token_span(toks[0]) + concat_spans(
            toks.drop_first().push(t),
        ));
        assert(concat_spans(toks) == token_span(toks[0]) + concat_spans(toks.drop_first()));
        assert(concat_spans(toks.push(t)) =~= concat_spans(toks) + token_span(t));
    }
}

/// The span of the word-run token over `buf[i..j]` is exactly those bytes.
proof fn lemma_word_span(buf: Seq<u8>, i: nat, j: nat)
    requires
        i <= j <= buf.len(),
        forall|k: int| i <= k < j ==> is_word_byte(#[trigger] buf[k]),
    ensures
        token_span(TokenModel::Indent(word_chars(buf, i, j))) == buf.subrange(i as int, j as int),
{
    let s = word_chars(buf, i, j);
    assert forall|k: int| 0 <= k < s.len() implies #[trigger] token_span(TokenModel::Indent(s))[k]
        == buf[i + k] by {
        assert(s[k] == buf[i + k] as char);
        assert(is_word_byte(buf[i + k]));
    }
    assert(token_span(TokenModel::Indent(s)) =~= buf.subrange(i as int, j as int));
}

/// Every successful scan ends in the closing `EOF` token.
pub proof fn lemma_scan_last_eof(buf: Seq<u8>, i: nat, toks: Seq<TokenModel>)
    requires
        i <= buf.len(),
        scan_from(buf, i) == Ok::<Seq<TokenModel>, u8>(toks),
    ensures
        toks.len() >= 1,
        toks.last() == TokenModel::EOF,
    decreases buf.len() - i,
{
    if i < buf.len() {
        lemma_word_run_end(buf, i);
        lemma_heading_run_end(buf, i);
        let rest = scan_from(buf, next_pos(buf, i))->Ok_0;
        lemma_scan_last_eof(buf, next_pos(buf, i), rest);
        assert(toks.last() == rest.last());
    }
}

/// The first token of a successful scan starts with the byte under the
/// scan position (the NUL sentinel at the end of the buffer).
proof fn lemma_scan_first_byte(buf: Seq<u8>, i: nat, toks: Seq<TokenModel>)
    requires
        i <= buf.len(),
        scan_from(buf, i) == Ok::<Seq<TokenModel>, u8>(toks),
    ensures
        toks.len() >= 1,
        first_span_byte(toks[0]) == if i < buf.len() {
            buf[i as int]
        } else {
            0u8
        },
{
    if i < buf.len() {
        let b = buf[i as int];
        lemma_word_run_end(buf, i);
        lemma_heading_run_end(buf, i);
        if is_word_byte(b) {
            let s = word_chars(buf, i, word_run_end(buf, i));
            assert(s[0] == b as char);
            assert(first_span_byte(toks[0]) == (b as char) as u8);
        }
    }
}

/// Coverage: the spans of the tokens of a successful scan, in order,
/// reconstruct the scanned bytes with no gaps or overlaps, closed by the
/// end-of-input sentinel of the final `EOF`.
pub proof fn lemma_scan_coverage(buf: Seq<u8>, i: nat, toks: Seq<TokenModel>)
    requires
        i <= buf.len(),
        scan_from(buf, i) == Ok::<Seq<TokenModel>, u8>(toks),
    ensures
        concat_spans(toks) == buf.subrange(i as int, buf.len() as int) + seq![0u8],
    decreases buf.len() - i,
{
    if i >= buf.len() {
        assert(toks == seq![TokenModel::EOF]);
        assert(toks.drop_first() =~= Seq::<TokenModel>::empty());
        assert(concat_spans(Seq::<TokenModel>::empty()) == Seq::<u8>::empty());
        assert(concat_spans(toks) == token_span(toks[0]) + concat_spans(toks.drop_first()));
        assert(concat_spans(toks) =~= seq![0u8]);
        assert(buf.subrange(i as int, buf.len() as int) + seq![0u8] =~= seq![0u8]);
    } else {
        let b = buf[i as int];
        let t = token_at(buf, i)->0;
        let j = next_pos(buf, i);
        lemma_word_run_end(buf, i);
        lemma_heading_run_end(buf, i);
        let rest = scan_from(buf, j)->Ok_0;
        lemma_scan_coverage(buf, j, rest);
        assert(toks[0] == t);
        assert(toks.drop_first() =~= rest);
        if is_word_byte(b) {
            lemma_word_span(buf, i, j);
        } else if b == '#' as u8 {
            assert(token_span(t) =~= buf.subrange(i as int, j as int));
        } else {
            assert(token_span(t) =~= buf.subrange(i as int, j as int));
        }
        assert(concat_spans(toks) =~= buf.subrange(i as int, buf.len() as int) + seq![0u8]);
    }
}

/// Coverage of a whole buffer: a successful scan's tokens end in the
/// closing `EOF`, and the spans of the tokens before it concatenate to
/// exactly the scanned buffer — every byte is consumed by exactly one
/// token, with no gaps and no overlaps.
pub proof fn lemma_tokens_cover_input(buf: Seq<u8>, toks: Seq<TokenModel>)
    requires
        scan_from(buf, 0) == Ok::<Seq<TokenModel>, u8>(toks),
    ensures
        toks.len() >= 1,
        toks.last() == TokenModel::EOF,
        concat_spans(toks) == buf + seq![0u8],
        concat_spans(toks.drop_last()) == buf,
{
    lemma_scan_coverage(buf, 0, toks);
    lemma_scan_last_eof(buf, 0, toks);
    assert(buf.subrange(0, buf.len() as int) =~= buf);
    lemma_concat_spans_push(toks.drop_last(), TokenModel::EOF);
    assert(toks.drop_last().push(TokenModel::EOF) =~= toks);
    let front = concat_spans(toks.drop_last());
    assert(front + seq![0u8] == buf + seq![0u8]);
    assert forall|k: int| 0 <= k < front.len() implies front[k] == buf[k] by {
        assert(front[k] == (front + seq![0u8])[k]);
        assert(buf[k] == (buf + seq![0u8])[k]);
    }
    assert(front =~= buf);
}

/// Fail-fast on illegal bytes: the scan succeeds exactly when every byte
/// at or after the scan position lies in the alphabet; any byte outside it
/// turns the whole scan into an error.
pub proof fn lemma_scan_ok_iff_alphabet(buf: Seq<u8>, i: nat)
    requires
        i <= buf.len(),
    ensures
        scan_from(buf, i) is Ok <==> (forall|k: int|
            i <= k < buf.len() ==> in_alphabet(#[trigger] buf[k])),
    decreases buf.len() - i,
{
    if i < buf.len() {
        let b = buf[i as int];
        lemma_word_run_end(buf, i);
        lemma_heading_run_end(buf, i);
        match token_at(buf, i) {
            Some(t) => {
                let j = next_pos(buf, i);
                lemma_scan_ok_iff_alphabet(buf, j);
                assert forall|k: int| i <= k < j implies in_alphabet(#[trigger] buf[k]) by {
                    if is_word_byte(b) {
                        assert(is_word_byte(buf[k]));
                    } else if b == '#' as u8 {
                        assert(buf[k] == '#' as u8);
                    }
                }
                assert(scan_from(buf, i) is Ok <==> scan_from(buf, j) is Ok);
            },
            None => {
                assert(!in_alphabet(b));
            },
        }
    }
}

/// Run maximality: a successful scan never yields an empty run token, a
/// word run is never followed by a token starting with a word byte, and a
/// heading run is never followed by a token starting with `#`.
pub proof fn lemma_run_maximality(buf: Seq<u8>, i: nat, toks: Seq<TokenModel>)
    requires
        i <= buf.len(),
        scan_from(buf, i) == Ok::<Seq<TokenModel>, u8>(toks),
    ensures
        forall|k: int|
            0 <= k < toks.len() ==> ((#[trigger] toks[k]) matches TokenModel::Indent(s)
                ==> s.len() >= 1),
        forall|k: int|
            0 <= k < toks.len() ==> ((#[trigger] toks[k]) matches TokenModel::Heading(n) ==> n
                >= 1),
        forall|k: int|
            0 <= k && k + 1 < toks.len() && (#[trigger] toks[k]) is Indent ==> !is_word_byte(
                first_span_byte(toks[k + 1]),
            ),
        forall|k: int|
            0 <= k && k + 1 < toks.len() && (#[trigger] toks[k]) is Heading ==> first_span_byte(
                toks[k + 1],
            ) != '#' as u8,
    decreases buf.len() - i,
{
    if i < buf.len() {
        let b = buf[i as int];
        let t = token_at(buf, i)->0;
        let j = next_pos(buf, i);
        lemma_word_run_end(buf, i);
        lemma_heading_run_end(buf, i);
        let rest = scan_from(buf, j)->Ok_0;
        lemma_run_maximality(buf, j, rest);
        lemma_scan_first_byte(buf, j, rest);
        assert(toks =~= seq![t] + rest);
        assert(toks[0] == t);
        assert(toks.drop_first() =~= rest);
        assert(toks.len() == rest.len() + 1);
        assert forall|k: int| 1 <= k < toks.len() implies toks[k] == rest[k - 1] by {
            assert(toks[k] == (seq![t] + rest)[k]);
        }
        if t is Indent {
            assert(word_chars(buf, i, j).len() >= 1);
            if j < buf.len() {
                assert(!is_word_byte(buf[j as int]));
            }
            assert(!is_word_byte(first_span_byte(rest[0])));
        }
        if t is Heading {
            if j < buf.len() {
                assert(buf[j as int] != '#' as u8);
            }
            assert(first_span_byte(rest[0]) != '#' as u8);
        }
        assert forall|k: int|
            0 <= k && k + 1 < toks.len() && (#[trigger] toks[k]) is Indent implies !is_word_byte(
            first_span_byte(toks[k + 1]),
        ) by {
            if k == 0 {
                assert(toks[1] == rest[0]);
            } else {
                assert(toks[k] == rest[k - 1]);
                assert(toks[k + 1] == rest[k]);
            }
        }
        assert forall|k: int|
            0 <= k && k + 1 < toks.len() && (#[trigger] toks[k]) is Heading implies first_span_byte(
            toks[k + 1],
        ) != '#' as u8 by {
            if k == 0 {
                assert(toks[1] == rest[0]);
            } else {
                assert(toks[k] == rest[k - 1]);
                assert(toks[k + 1] == rest[k]);
            }
        }
    }
}

/// `Illegal` never appears in a successful scan: an out-of-alphabet byte
/// short-circuits the whole scan into an error instead.
pub proof fn lemma_scan_no_illegal(buf: Seq<u8>, i: nat, toks: Seq<TokenModel>)
    requires
        i <= buf.len(),
        scan_from(buf, i) == Ok::<Seq<TokenModel>, u8>(toks),
    ensures
        forall|k: int| 0 <= k < toks.len() ==> !((#[trigger] toks[k]) is Illegal),
    decreases buf.len() - i,
{
    if i < buf.len() {
        lemma_word_run_end(buf, i);
        lemma_heading_run_end(buf, i);
        let t = token_at(buf, i)->0;
        let rest = scan_from(buf, next_pos(buf, i))->Ok_0;
        lemma_scan_no_illegal(buf, next_pos(buf, i), rest);
        assert(toks =~= seq![t] + rest);
        assert(!(t is Illegal));
        assert forall|k: int| 0 <= k < toks.len() implies !((#[trigger] toks[k]) is Illegal) by {
            if k > 0 {
                assert(toks[k] == (seq![t] + rest)[k]);
                assert(toks[k] == rest[k - 1]);
            }
        }
    }
}

/// Determinism: one buffer has one scan outcome, so two successful scans
/// of the same effective buffer carry the same token sequence.
pub proof fn lemma_scan_deterministic(buf: Seq<u8>, t1: Seq<TokenModel>, t2: Seq<TokenModel>)
    requires
        scan_from(buf, 0) == Ok::<Seq<TokenModel>, u8>(t1),
        scan_from(buf, 0) == Ok::<Seq<TokenModel>, u8>(t2),
    ensures
        t1 == t2,
{
}

} // verus!

