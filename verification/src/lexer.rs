//! The template lexer: a byte cursor over an immutable source string that
//! emits one token per call.

use crate::token::{Delim, Token, TokenKind};
use vstd::prelude::*;
use vstd::utf8::{
    is_char_boundary, is_char_boundary_iff_not_is_continuation_byte,
    is_char_boundary_start_end_of_seq, is_continuation_byte, is_leading_byte_width_1,
    length_of_first_scalar, pop_first_scalar, valid_first_scalar,
    valid_leading_and_continuation_bytes_first_codepoint, valid_utf8, valid_utf8_split,
};

verus! {

/// The byte `{`.
pub const BYTE_OPEN_BRACE: u8 = 123;

/// The byte `}`.
pub const BYTE_CLOSE_BRACE: u8 = 125;

/// The byte `%`.
pub const BYTE_PERCENT: u8 = 37;

/// The byte `#`.
pub const BYTE_HASH: u8 = 35;

/// Looks two bytes ahead at offset `i` of `s`: the delimiter token kind that
/// the bytes `s[i]` and `s[i + 1]` spell, or `None` when they spell no
/// delimiter (also at the last byte and past the end, where fewer than two
/// bytes remain).
pub open spec fn delim_at(s: Seq<u8>, i: int) -> Option<TokenKind> {
    if 0 <= i && i + 2 <= s.len() {
        let a = s[i];
        let b = s[i + 1];
        if a == BYTE_OPEN_BRACE && b == BYTE_OPEN_BRACE {
            Some(TokenKind::OpenDelim(Delim::Expr))
        } else if a == BYTE_OPEN_BRACE && b == BYTE_PERCENT {
            Some(TokenKind::OpenDelim(Delim::Stmt))
        } else if a == BYTE_OPEN_BRACE && b == BYTE_HASH {
            Some(TokenKind::OpenDelim(Delim::Cmnt))
        } else if a == BYTE_CLOSE_BRACE && b == BYTE_CLOSE_BRACE {
            Some(TokenKind::CloseDelim(Delim::Expr))
        } else if a == BYTE_PERCENT && b == BYTE_CLOSE_BRACE {
            Some(TokenKind::CloseDelim(Delim::Stmt))
        } else if a == BYTE_HASH && b == BYTE_CLOSE_BRACE {
            Some(TokenKind::CloseDelim(Delim::Cmnt))
        } else {
            None
        }
    } else {
        None
    }
}

/// Where the raw run that begins at offset `i` of `s` ends: the first offset
/// at or after `i` where a delimiter starts, or the end of `s` when no
/// delimiter follows.
pub open spec fn raw_end(s: Seq<u8>, i: int) -> int
    decreases s.len() - i
        when 0 <= i <= s.len()
{
    if i >= s.len() || delim_at(s, i) is Some {
        i
    } else {
        raw_end(s, i + 1)
    }
}

/// The raw run beginning at `i` ends at the first delimiter start at or
/// after `i` (or at the end of the input), and nowhere earlier: no delimiter
/// starts strictly inside the run.
pub proof fn lemma_raw_end(s: Seq<u8>, i: int)
    requires
        0 <= i <= s.len(),
    ensures
        i <= raw_end(s, i) <= s.len(),
        i < s.len() && delim_at(s, i) is None ==> i < raw_end(s, i),
        raw_end(s, i) < s.len() ==> delim_at(s, raw_end(s, i)) is Some,
        forall|k: int| i <= k < raw_end(s, i) ==> delim_at(s, k) is None,
    decreases s.len() - i,
{
    if i < s.len() && delim_at(s, i) is None {
        lemma_raw_end(s, i + 1);
    }
}

/// A scan that stopped at `e` found the end of the raw run: if no delimiter
/// starts in `[i, e)` and `e` is the end of the input or a delimiter start,
/// then `e` is where the raw run beginning at `i` ends.
pub proof fn lemma_raw_end_agrees(s: Seq<u8>, i: int, e: int)
    requires
        0 <= i <= e <= s.len(),
        forall|k: int| i <= k < e ==> delim_at(s, k) is None,
        e == s.len() || delim_at(s, e) is Some,
    ensures
        raw_end(s, i) == e,
    decreases e - i,
{
    if i < e {
        lemma_raw_end_agrees(s, i + 1, e);
    }
}

/// The offset after an ASCII byte of a valid UTF-8 sequence is a code-point
/// boundary: a continuation byte never follows a one-byte code point.
pub proof fn lemma_boundary_after_ascii(s: Seq<u8>, j: int)
    requires
        valid_utf8(s),
        0 <= j < s.len(),
        s[j] < 0x80,
    ensures
        is_char_boundary(s, j + 1),
{
    assert(!is_continuation_byte(s[j]));
    is_char_boundary_iff_not_is_continuation_byte(s, j);
    if j + 1 == s.len() {
        is_char_boundary_start_end_of_seq(s);
    } else {
        valid_utf8_split(s, j);
        let u = s.subrange(j, s.len() as int);
        assert(valid_utf8(u));
        assert(u[0] == s[j]);
        assert(is_leading_byte_width_1(u[0]));
        assert(valid_first_scalar(u) && valid_utf8(pop_first_scalar(u)));
        assert(length_of_first_scalar(u) == 1);
        let v = pop_first_scalar(u);
        assert(v =~= u.subrange(1, u.len() as int));
        assert(v.len() >= 1);
        assert(valid_first_scalar(v));
        assert(v[0] == s[j + 1]);
        assert(valid_leading_and_continuation_bytes_first_codepoint(v));
        assert(!is_continuation_byte(s[j + 1]));
        is_char_boundary_iff_not_is_continuation_byte(s, j + 1);
    }
}

/// The sequence of tokens that scanning `s` from offset `i` to the end
/// emits: at a delimiter start a two-byte delimiter token, anywhere else a
/// raw token covering the maximal delimiter-free run, until the end of `s`.
pub open spec fn tokens_from(s: Seq<u8>, i: int) -> Seq<Token>
    decreases s.len() - i
        when 0 <= i <= s.len()
        via tokens_from_decreases
{
    if i >= s.len() {
        Seq::empty()
    } else if delim_at(s, i) is Some {
        seq![
            Token { kind: delim_at(s, i)->Some_0, start: i as usize, end: (i + 2) as usize },
        ] + tokens_from(s, i + 2)
    } else {
        seq![
            Token { kind: TokenKind::Raw, start: i as usize, end: raw_end(s, i) as usize },
        ] + tokens_from(s, raw_end(s, i))
    }
}

#[via_fn]
proof fn tokens_from_decreases(s: Seq<u8>, i: int) {
    lemma_raw_end(s, i);
}

/// The bytes that a sequence of tokens covers: the spans of the tokens of
/// `ts`, sliced out of `s` and concatenated in order.
pub open spec fn spans_bytes(s: Seq<u8>, ts: Seq<Token>) -> Seq<u8>
    decreases ts.len(),
{
    if ts.len() == 0 {
        Seq::empty()
    } else {
        s.subrange(ts[0].start as int, ts[0].end as int) + spans_bytes(s, ts.drop_first())
    }
}

/// The offset at which the token emitted at offset `i` ends: two bytes on
/// for a delimiter, the end of the raw run otherwise.
pub open spec fn token_end(s: Seq<u8>, i: int) -> int {
    if delim_at(s, i) is Some {
        i + 2
    } else {
        raw_end(s, i)
    }
}

/// One step of the token stream: before the end of the input it holds one
/// more token than the stream from `token_end(s, i)` on, the head token
/// spans `[i, token_end(s, i))` and is the delimiter found at `i` or raw,
/// and the tokens after the head are exactly that later stream's.
pub proof fn lemma_tokens_from_step(s: Seq<u8>, i: int)
    requires
        0 <= i < s.len() <= usize::MAX,
    ensures
        i < token_end(s, i) <= s.len(),
        tokens_from(s, i).len() == 1 + tokens_from(s, token_end(s, i)).len(),
        tokens_from(s, i)[0].start as int == i,
        tokens_from(s, i)[0].end as int == token_end(s, i),
        delim_at(s, i) is Some ==> tokens_from(s, i)[0].kind == delim_at(s, i)->Some_0,
        delim_at(s, i) is None ==> tokens_from(s, i)[0].kind == TokenKind::Raw,
        forall|k: int|
            1 <= k < tokens_from(s, i).len() ==> #[trigger] tokens_from(s, i)[k] == tokens_from(
                s,
                token_end(s, i),
            )[k - 1],
{
    lemma_raw_end(s, i);
    let e = token_end(s, i);
    let rest = tokens_from(s, e);
    if delim_at(s, i) is Some {
        assert(tokens_from(s, i) == seq![
            Token { kind: delim_at(s, i)->Some_0, start: i as usize, end: (i + 2) as usize },
        ] + rest);
    } else {
        assert(tokens_from(s, i) == seq![
            Token { kind: TokenKind::Raw, start: i as usize, end: raw_end(s, i) as usize },
        ] + rest);
    }
}

/// Coverage, part one: the tokens emitted from offset `i` tile the rest of
/// the source. Every span is non-empty and within bounds, each token starts
/// where the one before it ends, the first starts at `i` and the last ends
/// at the end of the source: no gaps and no overlaps.
#[verifier::rlimit(100)]
pub proof fn lemma_coverage(s: Seq<u8>, i: int)
    requires
        0 <= i <= s.len() <= usize::MAX,
    ensures
        (tokens_from(s, i).len() == 0 <==> i == s.len()),
        tokens_from(s, i).len() > 0 ==> tokens_from(s, i)[0].start as int == i,
        tokens_from(s, i).len() > 0 ==> tokens_from(s, i).last().end as int == s.len(),
        forall|k: int|
            0 <= k < tokens_from(s, i).len() ==> (#[trigger] tokens_from(s, i)[k]).start
                < tokens_from(s, i)[k].end <= s.len(),
        forall|k: int|
            0 <= k < tokens_from(s, i).len() - 1 ==> (#[trigger] tokens_from(s, i)[k]).end
                == tokens_from(s, i)[k + 1].start,
    decreases s.len() - i,
{
    let ts = tokens_from(s, i);
    if i < s.len() {
        lemma_tokens_from_step(s, i);
        let e = token_end(s, i);
        let rest = tokens_from(s, e);
        lemma_coverage(s, e);
        if rest.len() > 0 {
            assert(ts.last() == rest.last());
        }
        assert forall|k: int|
            0 <= k < ts.len() - 1 implies (#[trigger] ts[k]).end == ts[k + 1].start by {
            if k == 0 {
                assert(ts[1] == rest[0]);
            } else {
                assert(ts[k] == rest[k - 1]);
                assert(ts[k + 1] == rest[k]);
            }
        }
        assert forall|k: int|
            0 <= k < ts.len() implies (#[trigger] ts[k]).start < ts[k].end <= s.len() by {
            if k > 0 {
                assert(ts[k] == rest[k - 1]);
            }
        }
    }
}

/// Coverage, part two: concatenating the byte spans of the emitted tokens,
/// sliced out of the source in order, reconstructs the source from offset
/// `i` on exactly.
pub proof fn lemma_coverage_concat(s: Seq<u8>, i: int)
    requires
        0 <= i <= s.len() <= usize::MAX,
    ensures
        spans_bytes(s, tokens_from(s, i)) == s.subrange(i, s.len() as int),
    decreases s.len() - i,
{
    let ts = tokens_from(s, i);
    if i == s.len() {
        assert(spans_bytes(s, ts) =~= s.subrange(i, s.len() as int));
    } else {
        lemma_tokens_from_step(s, i);
        let e = token_end(s, i);
        let rest = tokens_from(s, e);
        lemma_coverage_concat(s, e);
        assert(ts.drop_first() =~= rest);
        assert(spans_bytes(s, ts) == s.subrange(i, e) + spans_bytes(s, rest));
        assert(s.subrange(i, e) + s.subrange(e, s.len() as int) =~= s.subrange(
            i,
            s.len() as int,
        ));
    }
}

/// Raw maximality: the token stream never holds two raw tokens in a row; a
/// raw run is never split across calls when no delimiter intervenes.
pub proof fn lemma_raw_maximal(s: Seq<u8>, i: int)
    requires
        0 <= i <= s.len() <= usize::MAX,
    ensures
        forall|k: int|
            0 <= k < tokens_from(s, i).len() - 1 ==> !((#[trigger] tokens_from(s, i)[k]).kind
                is Raw && tokens_from(s, i)[k + 1].kind is Raw),
    decreases s.len() - i,
{
    let ts = tokens_from(s, i);
    if i < s.len() {
        lemma_tokens_from_step(s, i);
        let e = token_end(s, i);
        let rest = tokens_from(s, e);
        lemma_raw_maximal(s, e);
        if delim_at(s, i) is None && e < s.len() {
            lemma_raw_end(s, i);
            assert(delim_at(s, e) is Some);
            lemma_tokens_from_step(s, e);
        }
        assert forall|k: int|
            0 <= k < ts.len() - 1 implies !((#[trigger] ts[k]).kind is Raw && ts[k + 1].kind
            is Raw) by {
            if k == 0 {
                assert(ts[1] == rest[0]);
            } else {
                assert(ts[k] == rest[k - 1]);
                assert(ts[k + 1] == rest[k]);
            }
        }
    }
}

/// Delimiter atomicity: every delimiter token in the stream spans exactly
/// two bytes, and the two source bytes at its span spell exactly that
/// delimiter.
pub proof fn lemma_delim_atomic(s: Seq<u8>, i: int)
    requires
        0 <= i <= s.len() <= usize::MAX,
    ensures
        forall|k: int|
            0 <= k < tokens_from(s, i).len() && !((#[trigger] tokens_from(s, i)[k]).kind
                is Raw) ==> tokens_from(s, i)[k].end == tokens_from(s, i)[k].start + 2
                && delim_at(s, tokens_from(s, i)[k].start as int) == Some(
                tokens_from(s, i)[k].kind,
            ),
    decreases s.len() - i,
{
    let ts = tokens_from(s, i);
    if i < s.len() {
        lemma_tokens_from_step(s, i);
        let e = token_end(s, i);
        let rest = tokens_from(s, e);
        lemma_delim_atomic(s, e);
        assert forall|k: int|
            0 <= k < ts.len() && !((#[trigger] ts[k]).kind is Raw) implies ts[k].end == ts[k].start
            + 2 && delim_at(s, ts[k].start as int) == Some(ts[k].kind) by {
            if k > 0 {
                assert(ts[k] == rest[k - 1]);
            }
        }
    }
}

/// A slice of valid UTF-8 between two code-point boundaries is itself valid
/// UTF-8.
pub proof fn lemma_valid_slice(s: Seq<u8>, a: int, b: int)
    requires
        valid_utf8(s),
        0 <= a <= b <= s.len(),
        is_char_boundary(s, a),
        is_char_boundary(s, b),
    ensures
        valid_utf8(s.subrange(a, b)),
{
    valid_utf8_split(s, b);
    let p = s.subrange(0, b);
    if a == b {
        assert(s.subrange(a, b) =~= Seq::<u8>::empty());
    } else {
        if a > 0 {
            is_char_boundary_iff_not_is_continuation_byte(s, a);
            assert(p[a] == s[a]);
            is_char_boundary_iff_not_is_continuation_byte(p, a);
        }
        valid_utf8_split(p, a);
        assert(p.subrange(a, b) =~= s.subrange(a, b));
    }
}

/// Unicode safety: when the source is valid UTF-8 and the scan starts on a
/// code-point boundary, no span boundary of any emitted token falls inside
/// a code point, and re-slicing any token's span out of the source yields
/// valid UTF-8 again.
pub proof fn lemma_unicode_safe(s: Seq<u8>, i: int)
    requires
        valid_utf8(s),
        0 <= i <= s.len() <= usize::MAX,
        is_char_boundary(s, i),
    ensures
        forall|k: int|
            0 <= k < tokens_from(s, i).len() ==> is_char_boundary(
                s,
                (#[trigger] tokens_from(s, i)[k]).start as int,
            ) && is_char_boundary(s, tokens_from(s, i)[k].end as int) && valid_utf8(
                s.subrange(
                    tokens_from(s, i)[k].start as int,
                    tokens_from(s, i)[k].end as int,
                ),
            ),
    decreases s.len() - i,
{
    let ts = tokens_from(s, i);
    if i < s.len() {
        lemma_tokens_from_step(s, i);
        lemma_raw_end(s, i);
        let e = token_end(s, i);
        if delim_at(s, i) is Some {
            lemma_boundary_after_ascii(s, i);
            lemma_boundary_after_ascii(s, i + 1);
        } else {
            if e < s.len() {
                assert(delim_at(s, e) is Some);
                is_char_boundary_iff_not_is_continuation_byte(s, e);
            } else {
                is_char_boundary_start_end_of_seq(s);
            }
        }
        assert(is_char_boundary(s, e));
        lemma_valid_slice(s, i, e);
        let rest = tokens_from(s, e);
        lemma_unicode_safe(s, e);
        assert forall|k: int|
            0 <= k < ts.len() implies is_char_boundary(s, (#[trigger] ts[k]).start as int)
            && is_char_boundary(s, ts[k].end as int) && valid_utf8(
            s.subrange(ts[k].start as int, ts[k].end as int),
        ) by {
            if k > 0 {
                assert(ts[k] == rest[k - 1]);
            }
        }
    }
}

/// Template lexer: an immutable borrowed source and a monotonically
/// advancing byte cursor.
pub struct Lexer<'a> {
    src: &'a [u8],
    pos: usize,
}

impl<'a> Lexer<'a> {
    /// The bytes of the source under the lexer.
    pub closed spec fn bytes(self) -> Seq<u8> {
        self.src@
    }

    /// The cursor: the byte offset where the next scan starts.
    pub closed spec fn cursor(self) -> int {
        self.pos as int
    }

    /// Well-formed lexer: the cursor lies within the source, the source is
    /// valid UTF-8, and the cursor sits on a code-point boundary.
    pub open spec fn wf(self) -> bool {
        &&& 0 <= self.cursor() <= self.bytes().len()
        &&& valid_utf8(self.bytes())
        &&& is_char_boundary(self.bytes(), self.cursor())
    }

    /// Creates a new lexer from the given template string slice, with the
    /// cursor at offset 0.
    pub fn new(template: &'a str) -> (l: Lexer<'a>)
        ensures
            l.wf(),
            l.bytes() == vstd::utf8::encode_utf8(template@),
            l.cursor() == 0,
    {
        proof {
            vstd::utf8::encode_utf8_valid_utf8(template@);
        }
        Lexer { src: template.as_bytes(), pos: 0 }
    }

    /// The byte offset the cursor currently sits at.
    pub fn offset(&self) -> (r: usize)
        ensures
            r as int == self.cursor(),
    {
        self.pos
    }

    /// The bytes of the source the lexer was created over.
    pub fn source(&self) -> (r: &'a [u8])
        ensures
            r@ == self.bytes(),
    {
        self.src
    }

    /// The delimiter token kind spelled by the two bytes at offset `i`, if
    /// any.
    fn scan_delim(&self, i: usize) -> (r: Option<TokenKind>)
        ensures
            r == delim_at(self.bytes(), i as int),
    {
        if i < self.src.len() && self.src.len() - i >= 2 {
            let a = self.src[i];
            let b = self.src[i + 1];
            if a == BYTE_OPEN_BRACE && b == BYTE_OPEN_BRACE {
                Some(TokenKind::OpenDelim(Delim::Expr))
            } else if a == BYTE_OPEN_BRACE && b == BYTE_PERCENT {
                Some(TokenKind::OpenDelim(Delim::Stmt))
            } else if a == BYTE_OPEN_BRACE && b == BYTE_HASH {
                Some(TokenKind::OpenDelim(Delim::Cmnt))
            } else if a == BYTE_CLOSE_BRACE && b == BYTE_CLOSE_BRACE {
                Some(TokenKind::CloseDelim(Delim::Expr))
            } else if a == BYTE_PERCENT && b == BYTE_CLOSE_BRACE {
                Some(TokenKind::CloseDelim(Delim::Stmt))
            } else if a == BYTE_HASH && b == BYTE_CLOSE_BRACE {
                Some(TokenKind::CloseDelim(Delim::Cmnt))
            } else {
                None
            }
        } else {
            None
        }
    }

    /// Whether a delimiter starts at offset `i`.
    fn delim_starts_at(&self, i: usize) -> (r: bool)
        ensures
            r == (delim_at(self.bytes(), i as int) is Some),
    {
        self.scan_delim(i).is_some()
    }

    /// Returns the next token and advances the cursor past it; returns
    /// `None` once the cursor stands at the end of the input, leaving the
    /// cursor in place, so that every further call returns `None` again.
    ///
    /// At a delimiter start the token is that delimiter, spanning exactly
    /// its two bytes; anywhere else it is a raw token spanning the maximal
    /// delimiter-free run. Each token starts where the cursor stood and
    /// ends where it stands afterwards, and the token stream emitted from
    /// the old cursor is the returned token followed by the stream emitted
    /// from the new one.
    pub fn next_token(&mut self) -> (r: Option<Token>)
        requires
            old(self).wf(),
        ensures
            final(self).wf(),
            final(self).bytes() == old(self).bytes(),
            old(self).cursor() <= final(self).cursor(),
            (r is None <==> old(self).cursor() == old(self).bytes().len()),
            r is None ==> final(self).cursor() == old(self).cursor(),
            (r matches Some(t) ==> {
                &&& t.start as int == old(self).cursor()
                &&& t.end as int == final(self).cursor()
                &&& t.start < t.end <= old(self).bytes().len()
                &&& (match delim_at(old(self).bytes(), old(self).cursor()) {
                    Some(k) => t.kind == k && t.end == t.start + 2,
                    None => t.kind == TokenKind::Raw && t.end as int == raw_end(
                        old(self).bytes(),
                        old(self).cursor(),
                    ),
                })
            }),
            tokens_from(old(self).bytes(), old(self).cursor()) == (match r {
                None => Seq::<Token>::empty(),
                Some(t) => seq![t] + tokens_from(final(self).bytes(), final(self).cursor()),
            }),
    {
        let ghost s = self.src@;
        let len = self.src.len();
        if self.pos >= len {
            assert(tokens_from(s, self.pos as int) =~= Seq::<Token>::empty());
            return None;
        }
        let start = self.pos;
        match self.scan_delim(start) {
            Some(kind) => {
                self.pos = start + 2;
                proof {
                    lemma_boundary_after_ascii(s, start as int);
                    lemma_boundary_after_ascii(s, start as int + 1);
                    let t = Token { kind, start, end: (start + 2) as usize };
                    assert(tokens_from(s, start as int) == seq![t] + tokens_from(
                        s,
                        start as int + 2,
                    ));
                }
                Some(Token { kind, start, end: start + 2 })
            },
            None => {
                let mut end = start + 1;
                while end < len && !self.delim_starts_at(end)
                    invariant
                        start < end <= len,
                        len == self.src@.len(),
                        self.src@ == s,
                        forall|k: int| start <= k < end ==> delim_at(s, k) is None,
                    decreases len - end,
                {
                    end = end + 1;
                }
                proof {
                    lemma_raw_end_agrees(s, start as int, end as int);
                    if end < len {
                        assert(delim_at(s, end as int) is Some);
                        assert(!is_continuation_byte(s[end as int]));
                        is_char_boundary_iff_not_is_continuation_byte(s, end as int);
                    } else {
                        is_char_boundary_start_end_of_seq(s);
                    }
                    let t = Token { kind: TokenKind::Raw, start, end };
                    assert(tokens_from(s, start as int) == seq![t] + tokens_from(s, end as int));
                }
                self.pos = end;
                Some(Token { kind: TokenKind::Raw, start, end })
            },
        }
    }
}

} // verus!
