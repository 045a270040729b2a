use crate::token::TokenModel;
use vstd::prelude::*;
use vstd::string::StringExecFns;
use vstd::utf8::{
    decode_utf8, encode_utf8, encode_utf8_decode_utf8, encode_utf8_valid_utf8, is_ascii_chars,
    is_ascii_chars_encode_utf8, valid_utf8,
};

verus! {

/// The ASCII bytes of the decimal form of `n`, most significant digit
/// first, without sign or padding.
pub open spec fn dec_bytes(n: nat) -> Seq<u8>
    decreases n,
{
    if n < 10 {
        seq![(48 + n) as u8]
    } else {
        dec_bytes(n / 10).push((48 + n % 10) as u8)
    }
}

/// The characters of the decimal form of `n`.
pub open spec fn dec_chars(n: nat) -> Seq<char> {
    dec_bytes(n).map_values(|b: u8| b as char)
}

/// The stable textual rendering of a token, used for diagnostics and for
/// the lexer error message: `"Token -> "` followed by the variant's fixed
/// name, with the payload spliced in for the three payload-carrying
/// variants.
pub open spec fn token_text(t: TokenModel) -> Seq<char> {
    match t {
        TokenModel::Heading(n) => "Token -> Heading: #"@ + dec_chars(n),
        TokenModel::Indent(s) => "Token -> Indent: "@ + s + " "@,
        TokenModel::Illegal(b) => "Token -> Illegal: "@ + dec_chars(b as nat) + " "@,
        TokenModel::WhiteSpace => "Token -> WhiteSpace"@,
        TokenModel::Tab => "Token -> Tab"@,
        TokenModel::EOL => "Token -> EOL"@,
        TokenModel::EOF => "Token -> EOF"@,
        TokenModel::LeftSquare => "Token -> LeftSquare"@,
        TokenModel::RightSquare => "Token -> RightSquare"@,
        TokenModel::LeftParen => "Token -> LeftParen"@,
        TokenModel::RightParen => "Token -> RightParen"@,
        TokenModel::LeftAngle => "Token -> LeftAngle"@,
        TokenModel::RightAngle => "Token -> RightAngle"@,
        TokenModel::Dot => "Token -> Dot"@,
        TokenModel::Dash => "Token -> Dash"@,
        TokenModel::Equal => "Token -> Equal"@,
        TokenModel::Plus => "Token -> Plus"@,
        TokenModel::Asterisk => "Token -> Asterisk"@,
        TokenModel::Undersocre => "Token -> Undersocre"@,
        TokenModel::BackTick => "Token -> BackTick"@,
        TokenModel::BackSlash => "Token -> BackSlash"@,
        TokenModel::Slash => "Token -> Slash"@,
        TokenModel::Colon => "Token -> Colon"@,
        TokenModel::SemiColon => "Token -> SemiColon"@,
    }
}

/// Relies on alloc's `String::from_utf8`: on UTF-8-valid bytes it returns
/// `Ok` of a string holding exactly those bytes, so the string's
/// characters are the decoding of the bytes.
#[verifier::external_body]
pub(crate) fn string_from_bytes(bytes: Vec<u8>) -> (r: String)
    requires
        valid_utf8(bytes@),
    ensures
        r@ == decode_utf8(bytes@),
{
    match String::from_utf8(bytes) {
        Ok(s) => s,
        Err(_) => String::new(),
    }
}

/// ASCII bytes are valid UTF-8 and decode to themselves, character for
/// character.
pub(crate) proof fn lemma_ascii_bytes_decode(bytes: Seq<u8>)
    requires
        forall|k: int| 0 <= k < bytes.len() ==> #[trigger] bytes[k] < 128,
    ensures
        valid_utf8(bytes),
        decode_utf8(bytes) == bytes.map_values(|b: u8| b as char),
{
    let cs = bytes.map_values(|b: u8| b as char);
    assert(is_ascii_chars(cs));
    is_ascii_chars_encode_utf8(cs);
    assert(encode_utf8(cs) =~= bytes);
    encode_utf8_valid_utf8(cs);
    encode_utf8_decode_utf8(cs);
}

/// The decimal digits of any count are ASCII.
pub(crate) proof fn lemma_dec_bytes_ascii(n: nat)
    ensures
        forall|k: int| 0 <= k < dec_bytes(n).len() ==> 48 <= #[trigger] dec_bytes(n)[k] <= 57,
    decreases n,
{
    if n >= 10 {
        lemma_dec_bytes_ascii(n / 10);
        assert forall|k: int| 0 <= k < dec_bytes(n).len() implies 48 <= #[trigger] dec_bytes(
            n,
        )[k] <= 57 by {
            if k < dec_bytes(n / 10).len() {
                assert(dec_bytes(n)[k] == dec_bytes(n / 10)[k]);
            }
        }
    } else {
        assert(dec_bytes(n)[0] == (48 + n) as u8);
    }
}

/// Appends the ASCII decimal digits of `n` to `out`.
fn push_dec(n: usize, out: &mut Vec<u8>)
    ensures
        final(out)@ == old(out)@ + dec_bytes(n as nat),
    decreases n,
{
    if n >= 10 {
        push_dec(n / 10, out);
    }
    let d: u8 = (n % 10) as u8;
    out.push(48 + d);
    assert(final(out)@ =~= old(out)@ + dec_bytes(n as nat));
}

/// The decimal form of `n` as a string.
pub(crate) fn dec_string(n: usize) -> (r: String)
    ensures
        r@ == dec_chars(n as nat),
{
    let mut bytes: Vec<u8> = Vec::new();
    push_dec(n, &mut bytes);
    proof {
        lemma_dec_bytes_ascii(n as nat);
        assert(bytes@ =~= dec_bytes(n as nat));
        lemma_ascii_bytes_decode(bytes@);
    }
    string_from_bytes(bytes)
}

} // verus!
