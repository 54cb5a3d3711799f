//! Tokens of a parsed file.  The parser is an outside, error-tolerant Nix
//! parser producing a lossless syntax tree; the library only relies on the
//! tree's tokens carrying exact byte ranges into the original text, in
//! document order and pairwise disjoint.

use vstd::prelude::*;

verus! {

/// A token of a parsed file: its literal text and its half-open byte range
/// `[start, end)` in the original text.
pub struct Token {
    pub text: Vec<u8>,
    pub start: usize,
    pub end: usize,
}

/// Mathematical model of one token: start, end, literal bytes.
pub open spec fn token_model(t: Token) -> (int, int, Seq<u8>) {
    (t.start as int, t.end as int, t.text@)
}

pub open spec fn tokens_model(ts: Seq<Token>) -> Seq<(int, int, Seq<u8>)> {
    ts.map(|i: int, t: Token| token_model(t))
}

/// Whether the bytes decode as text the parser accepts (valid UTF-8).
pub uninterp spec fn utf8_decodes(text: Seq<u8>) -> bool;

/// The byte ranges of the tokens the parser yields for `text`, in document
/// order.
pub uninterp spec fn nix_token_spans(text: Seq<u8>) -> Seq<(int, int)>;

/// The tokens the parser yields for `text`: the named spans, each carrying
/// the bytes of its range.
pub open spec fn spec_token_models(text: Seq<u8>) -> Seq<(int, int, Seq<u8>)> {
    nix_token_spans(text).map(|i: int, sp: (int, int)| (sp.0, sp.1, text.subrange(sp.0, sp.1)))
}

/// Well-formed token list over a text of `n` bytes: every range lies inside
/// the text and the ranges are in document order, pairwise disjoint.
pub open spec fn toks_wf(n: int, ts: Seq<(int, int, Seq<u8>)>) -> bool {
    &&& forall|i: int| 0 <= i < ts.len() ==> 0 <= (#[trigger] ts[i]).0 && ts[i].0 <= ts[i].1
        && ts[i].1 <= n
    &&& forall|i: int| 0 <= i < ts.len() - 1 ==> (#[trigger] ts[i]).1 <= ts[i + 1].0
}

/// Relies on `rnix::Root::parse` (a rowan lossless syntax tree, built even
/// for erroneous input): the tree's tokens, visited in document order, carry
/// exact non-overlapping monotonically increasing byte ranges into the
/// original text, and each token's text is precisely the bytes of its range.
/// Relies on `core::str::from_utf8` returning `Ok` exactly on UTF-8 input
/// (so on all-ASCII input in particular).  The parser tracks offsets in
/// `u32` (`text-size`'s `TextSize`) and panics or wraps on longer input, so
/// texts of 2^32 bytes or more are excluded here.
#[verifier::external_body]
pub(crate) fn parse_tokens(text: &Vec<u8>) -> (r: Option<Vec<Token>>)
    requires
        text@.len() < 0x1_0000_0000,
    ensures
        r.is_some() <==> utf8_decodes(text@),
        (forall|i: int| 0 <= i < text@.len() ==> text@[i] < 128) ==> r.is_some(),
        r.is_some() ==> r.unwrap()@.len() == nix_token_spans(text@).len(),
        r.is_some() ==> tokens_model(r.unwrap()@) == spec_token_models(text@),
        r.is_some() ==> toks_wf(text@.len() as int, tokens_model(r.unwrap()@)),
{
    let s = match core::str::from_utf8(text.as_slice()) {
        Ok(s) => s,
        Err(_) => return None,
    };
    let root = rnix::Root::parse(s).syntax();
    let toks: Vec<Token> = root.descendants_with_tokens().filter_map(|el| el.into_token()).map(
        |t: rnix::SyntaxToken|
            Token {
                text: t.text().as_bytes().to_vec(),
                start: usize::from(t.text_range().start()),
                end: usize::from(t.text_range().end()),
            },
    ).collect();
    Some(toks)
}

} // verus!
