//! The lexer of the source syntax: punctuation, comparison operators, signed decimal integers,
//! and words (maximal runs of ASCII letters, digits and `_`). Whitespace separates tokens.
use vstd::prelude::*;
use vstd::utf8::{decode_utf8, encode_utf8, encode_utf8_decode_utf8, encode_utf8_valid_utf8, is_ascii_chars, is_ascii_chars_encode_utf8};

use crate::decode::string_from_utf8;
use crate::print::{int_text, nat_text};

verus! {

/// A token of the source syntax.
#[derive(Debug, PartialEq, Eq)]
pub enum Tok {
    /// `(`
    LParen,
    /// `)`
    RParen,
    /// `[`
    LBracket,
    /// `]`
    RBracket,
    /// `,`
    Comma,
    /// `=`
    Eq,
    /// `:`
    Colon,
    /// `<`
    Lt,
    /// `<=`
    Le,
    /// `>`
    Gt,
    /// `>=`
    Ge,
    /// A word: a run of letters, digits and `_` that is not all digits.
    Word(String),
    /// An integer literal.
    Num(i128),
}

/// The view of a [`Tok`].
pub enum TokV {
    LParen,
    RParen,
    LBracket,
    RBracket,
    Comma,
    Eq,
    Colon,
    Lt,
    Le,
    Gt,
    Ge,
    Word(Seq<char>),
    Num(i128),
}

impl View for Tok {
    type V = TokV;

    open spec fn view(&self) -> TokV {
        match self {
            Tok::LParen => TokV::LParen,
            Tok::RParen => TokV::RParen,
            Tok::LBracket => TokV::LBracket,
            Tok::RBracket => TokV::RBracket,
            Tok::Comma => TokV::Comma,
            Tok::Eq => TokV::Eq,
            Tok::Colon => TokV::Colon,
            Tok::Lt => TokV::Lt,
            Tok::Le => TokV::Le,
            Tok::Gt => TokV::Gt,
            Tok::Ge => TokV::Ge,
            Tok::Word(w) => TokV::Word(w@),
            Tok::Num(n) => TokV::Num(*n),
        }
    }
}

/// The views of a list of tokens.
pub open spec fn toks_view(s: Seq<Tok>) -> Seq<TokV> {
    Seq::new(s.len(), |i: int| s[i]@)
}

/// How a token is shown in error messages: its constructor, and its payload in brackets.
pub open spec fn tok_text(t: TokV) -> Seq<char> {
    match t {
        TokV::LParen => "LParen"@,
        TokV::RParen => "RParen"@,
        TokV::LBracket => "LBracket"@,
        TokV::RBracket => "RBracket"@,
        TokV::Comma => "Comma"@,
        TokV::Eq => "Eq"@,
        TokV::Colon => "Colon"@,
        TokV::Lt => "Lt"@,
        TokV::Le => "Le"@,
        TokV::Gt => "Gt"@,
        TokV::Ge => "Ge"@,
        TokV::Word(w) => "Word(\""@ + w + "\")"@,
        TokV::Num(n) => "Num("@ + int_text(n as int) + ")"@,
    }
}

// ---------------------------------------------------------------------------------------------
// Character classes and integers
// ---------------------------------------------------------------------------------------------

/// The bytes that read as whitespace: ASCII whitespace, and `0x85` and `0xa0`, which read as the
/// Latin-1 characters NEL and NBSP.
pub open spec fn is_space(c: u8) -> bool {
    c == 9 || c == 10 || c == 11 || c == 12 || c == 13 || c == 32 || c == 0x85 || c == 0xa0
}

/// An ASCII decimal digit.
pub open spec fn is_digit(c: u8) -> bool {
    48 <= c <= 57
}

/// A byte that may occur in a word: an ASCII letter or digit, or `_`.
pub open spec fn is_word_byte(c: u8) -> bool {
    is_digit(c) || (65 <= c <= 90) || (97 <= c <= 122) || c == 95
}

/// The end of the run of bytes satisfying `word` (word bytes) or else digits, from `i`.
pub open spec fn run_end(b: Seq<u8>, i: int, word: bool) -> int
    decreases b.len() - i,
{
    if i < 0 || i >= b.len() {
        i
    } else if (word && is_word_byte(b[i])) || (!word && is_digit(b[i])) {
        run_end(b, i + 1, word)
    } else {
        i
    }
}

/// The value of a run of decimal digits.
pub open spec fn digits_value(s: Seq<u8>) -> nat
    decreases s.len(),
{
    if s.len() == 0 {
        0
    } else {
        digits_value(s.drop_last()) * 10 + (s.last() - 48) as nat
    }
}

/// The integer a run of digits denotes, negated when `neg`, if it fits an `i128`.
pub open spec fn integer_of(neg: bool, digits: Seq<u8>) -> Option<i128> {
    let v: int = if neg {
        -(digits_value(digits) as int)
    } else {
        digits_value(digits) as int
    };
    if i128::MIN <= v <= i128::MAX {
        Some(v as i128)
    } else {
        None
    }
}

/// ASCII bytes read as characters.
pub open spec fn ascii_text(b: Seq<u8>) -> Seq<char> {
    Seq::new(b.len(), |i: int| b[i] as char)
}

/// The message for an integer literal that does not fit.
pub open spec fn bad_integer(text: Seq<u8>) -> Seq<char> {
    "bad integer `"@ + ascii_text(text) + "`"@
}

/// The tokens of the bytes from position `i` on, or the message of the first lexical error.
pub open spec fn lex_from(b: Seq<u8>, i: int) -> Result<Seq<TokV>, Seq<char>>
    decreases b.len() - i,
    via lemma_lex_from_decreases
{
    if i < 0 || i >= b.len() {
        Ok(Seq::empty())
    } else {
        let c = b[i];
        if is_space(c) {
            lex_from(b, i + 1)
        } else if c == 40 {
            prepend(TokV::LParen, lex_from(b, i + 1))
        } else if c == 41 {
            prepend(TokV::RParen, lex_from(b, i + 1))
        } else if c == 91 {
            prepend(TokV::LBracket, lex_from(b, i + 1))
        } else if c == 93 {
            prepend(TokV::RBracket, lex_from(b, i + 1))
        } else if c == 44 {
            prepend(TokV::Comma, lex_from(b, i + 1))
        } else if c == 61 {
            prepend(TokV::Eq, lex_from(b, i + 1))
        } else if c == 58 {
            prepend(TokV::Colon, lex_from(b, i + 1))
        } else if c == 45 {
            if i + 1 < b.len() && is_digit(b[i + 1]) {
                let j = run_end(b, i + 1, false);
                match integer_of(true, b.subrange(i + 1, j)) {
                    None => Err(bad_integer(b.subrange(i, j))),
                    Some(n) => prepend(TokV::Num(n), lex_from(b, j)),
                }
            } else {
                Err("unexpected character `-`"@)
            }
        } else if c == 60 {
            if i + 1 < b.len() && b[i + 1] == 61 {
                prepend(TokV::Le, lex_from(b, i + 2))
            } else {
                prepend(TokV::Lt, lex_from(b, i + 1))
            }
        } else if c == 62 {
            if i + 1 < b.len() && b[i + 1] == 61 {
                prepend(TokV::Ge, lex_from(b, i + 2))
            } else {
                prepend(TokV::Gt, lex_from(b, i + 1))
            }
        } else if is_word_byte(c) {
            let j = run_end(b, i, true);
            let text = b.subrange(i, j);
            if forall|k: int| 0 <= k < text.len() ==> is_digit(#[trigger] text[k]) {
                match integer_of(false, text) {
                    None => Err(bad_integer(text)),
                    Some(n) => prepend(TokV::Num(n), lex_from(b, j)),
                }
            } else {
                prepend(TokV::Word(ascii_text(text)), lex_from(b, j))
            }
        } else {
            Err("unexpected character `"@ + seq![c as char] + "`"@)
        }
    }
}

/// A run ends at or after where it starts, and within the bytes.
pub proof fn lemma_run_end(b: Seq<u8>, i: int, word: bool)
    requires
        0 <= i <= b.len(),
    ensures
        i <= run_end(b, i, word) <= b.len(),
        forall|k: int| i <= k < run_end(b, i, word) ==> if word {
            is_word_byte(#[trigger] b[k])
        } else {
            is_digit(b[k])
        },
        run_end(b, i, word) < b.len() ==> !(if word {
            is_word_byte(b[run_end(b, i, word)])
        } else {
            is_digit(b[run_end(b, i, word)])
        }),
    decreases b.len() - i,
{
    if i < b.len() && ((word && is_word_byte(b[i])) || (!word && is_digit(b[i]))) {
        lemma_run_end(b, i + 1, word);
    }
}

#[via_fn]
proof fn lemma_lex_from_decreases(b: Seq<u8>, i: int) {
    if 0 <= i < b.len() {
        lemma_run_end(b, i + 1, false);
        lemma_run_end(b, i, true);
    }
}

/// A token in front of a lexing result.
pub open spec fn prepend(t: TokV, r: Result<Seq<TokV>, Seq<char>>) -> Result<Seq<TokV>, Seq<char>> {
    match r {
        Ok(ts) => Ok(seq![t] + ts),
        Err(e) => Err(e),
    }
}

/// The tokens of a source text, or the message of its first lexical error.
pub open spec fn lex_spec(s: Seq<char>) -> Result<Seq<TokV>, Seq<char>> {
    lex_from(encode_utf8(s), 0)
}


// ---------------------------------------------------------------------------------------------
// The executable lexer
// ---------------------------------------------------------------------------------------------

/// A list of tokens in front of a lexing result.
pub open spec fn glue(pre: Seq<TokV>, r: Result<Seq<TokV>, Seq<char>>) -> Result<Seq<TokV>, Seq<char>> {
    match r {
        Ok(ts) => Ok(pre + ts),
        Err(e) => Err(e),
    }
}

proof fn lemma_glue_prepend(pre: Seq<TokV>, t: TokV, r: Result<Seq<TokV>, Seq<char>>)
    ensures
        glue(pre, prepend(t, r)) == glue(pre.push(t), r),
{
    match r {
        Ok(ts) => {
            assert(pre + (seq![t] + ts) =~= pre.push(t) + ts);
        },
        Err(_) => {},
    }
}

proof fn lemma_digits_step(s: Seq<u8>, k: int)
    requires
        0 <= k < s.len(),
    ensures
        digits_value(s.take(k + 1)) == digits_value(s.take(k)) * 10 + (s[k] - 48) as nat,
{
    assert(s.take(k + 1).drop_last() =~= s.take(k));
}

proof fn lemma_digits_prefix(s: Seq<u8>, k: int)
    requires
        0 <= k <= s.len(),
    ensures
        digits_value(s.take(k)) <= digits_value(s),
    decreases s.len(),
{
    if k < s.len() {
        assert(s.drop_last().take(k) =~= s.take(k));
        lemma_digits_prefix(s.drop_last(), k);
    } else {
        assert(s.take(k) =~= s);
    }
}

/// The integer a run of digits in `b[start..end]` denotes, negated when `neg`, if it fits.
fn parse_digits(b: &[u8], start: usize, end: usize, neg: bool) -> (r: Option<i128>)
    requires
        start <= end <= b@.len(),
        forall|k: int| start <= k < end ==> is_digit(#[trigger] b@[k]),
    ensures
        r == integer_of(neg, b@.subrange(start as int, end as int)),
{
    let ghost s = b@.subrange(start as int, end as int);
    let mut acc: i128 = 0;
    let mut i: usize = start;
    assert(s.take(0) =~= Seq::<u8>::empty());
    while i < end
        invariant
            start <= i <= end <= b@.len(),
            s == b@.subrange(start as int, end as int),
            forall|k: int| start <= k < end ==> is_digit(#[trigger] b@[k]),
            acc as int == if neg {
                -(digits_value(s.take(i - start)) as int)
            } else {
                digits_value(s.take(i - start)) as int
            },
        decreases end - i,
    {
        let ghost k: int = i - start;
        proof {
            lemma_digits_step(s, k);
            lemma_digits_prefix(s, k + 1);
        }
        assert(s[k] == b@[i as int]);
        let d: i128 = (b[i] - 48) as i128;
        let m = match acc.checked_mul(10) {
            Some(m) => m,
            None => {
                return None;
            },
        };
        let n = if neg {
            m.checked_sub(d)
        } else {
            m.checked_add(d)
        };
        match n {
            Some(x) => {
                acc = x;
            },
            None => {
                return None;
            },
        }
        i = i + 1;
    }
    assert(s.take(end - start) =~= s);
    Some(acc)
}

/// The string of the ASCII bytes `b[start..end]`.
fn ascii_string(b: &[u8], start: usize, end: usize) -> (r: String)
    requires
        start <= end <= b@.len(),
        forall|k: int| start <= k < end ==> b@[k] < 128,
    ensures
        r@ == ascii_text(b@.subrange(start as int, end as int)),
{
    let ghost text = b@.subrange(start as int, end as int);
    let ghost chars = ascii_text(text);
    let mut v: Vec<u8> = Vec::new();
    let mut i: usize = start;
    while i < end
        invariant
            start <= i <= end <= b@.len(),
            v@ == b@.subrange(start as int, i as int),
        decreases end - i,
    {
        v.push(b[i]);
        i = i + 1;
        assert(v@ =~= b@.subrange(start as int, i as int));
    }
    proof {
        assert forall|k: int| 0 <= k < chars.len() implies '\0' <= #[trigger] chars[k] <= '\u{7f}' by {
            assert(text[k] < 128);
        }
        assert(is_ascii_chars(chars));
        is_ascii_chars_encode_utf8(chars);
        assert forall|k: int| 0 <= k < chars.len() implies #[trigger] encode_utf8(chars)[k] == text[k] by {
            assert(chars[k] as u8 == encode_utf8(chars)[k]);
            assert(text[k] < 128);
            assert(((text[k] as char) as u8) == text[k]);
        }
        assert(encode_utf8(chars) =~= text);
        encode_utf8_valid_utf8(chars);
        encode_utf8_decode_utf8(chars);
    }
    match string_from_utf8(v) {
        Some(w) => w,
        None => String::new(),
    }
}

/// The text of one byte read as a character.
#[verifier::external_body]
fn byte_char_text(c: u8) -> (r: String)
    ensures
        r@ == seq![c as char],
{
    (c as char).to_string()
}

/// Whether a byte may occur in a word.
fn word_byte(c: u8) -> (r: bool)
    ensures
        r == is_word_byte(c),
{
    (48 <= c && c <= 57) || (65 <= c && c <= 90) || (97 <= c && c <= 122) || c == 95
}

/// Whether a byte continues a run of word bytes (or else digits).
fn run_byte(c: u8, word: bool) -> (r: bool)
    ensures
        r == ((word && is_word_byte(c)) || (!word && is_digit(c))),
{
    if word {
        word_byte(c)
    } else {
        48 <= c && c <= 57
    }
}

/// The end of the run of word bytes (or else digits) from `i`.
fn scan_run(b: &[u8], i: usize, word: bool) -> (r: usize)
    requires
        i <= b@.len(),
    ensures
        r == run_end(b@, i as int, word),
{
    let mut j: usize = i;
    while j < b.len() && run_byte(b[j], word)
        invariant
            i <= j <= b@.len(),
            run_end(b@, i as int, word) == run_end(b@, j as int, word),
        decreases b.len() - j,
    {
        j = j + 1;
    }
    j
}

/// Lex a source text into tokens.
pub fn lex(s: &str) -> (r: Result<Vec<Tok>, String>)
    ensures
        match r {
            Ok(ts) => lex_spec(s@) == Ok::<Seq<TokV>, Seq<char>>(toks_view(ts@)),
            Err(m) => lex_spec(s@) == Err::<Seq<TokV>, Seq<char>>(m@),
        },
{
    let b = s.as_bytes();
    let ghost bs = b@;
    let mut out: Vec<Tok> = Vec::new();
    let mut i: usize = 0;
    assert(toks_view(out@) =~= Seq::<TokV>::empty());
    assert(glue(Seq::<TokV>::empty(), lex_from(bs, 0)) == lex_from(bs, 0)) by {
        match lex_from(bs, 0) {
            Ok(ts) => assert(Seq::<TokV>::empty() + ts =~= ts),
            Err(_) => {},
        }
    }
    while i < b.len()
        invariant
            i <= b@.len(),
            bs == b@,
            bs == encode_utf8(s@),
            lex_from(bs, 0) == glue(toks_view(out@), lex_from(bs, i as int)),
        decreases b.len() - i,
    {
        let c = b[i];
        let ghost before = toks_view(out@);
        let single: Option<Tok> = if c == 40 {
            Some(Tok::LParen)
        } else if c == 41 {
            Some(Tok::RParen)
        } else if c == 91 {
            Some(Tok::LBracket)
        } else if c == 93 {
            Some(Tok::RBracket)
        } else if c == 44 {
            Some(Tok::Comma)
        } else if c == 61 {
            Some(Tok::Eq)
        } else if c == 58 {
            Some(Tok::Colon)
        } else {
            None
        };
        if c == 9 || c == 10 || c == 11 || c == 12 || c == 13 || c == 32 || c == 0x85 || c == 0xa0 {
            i = i + 1;
        } else if single.is_some() {
            let tok = single.unwrap();
            let ghost tv = tok@;
            out.push(tok);
            proof {
                assert(toks_view(out@) =~= before.push(tv));
                lemma_glue_prepend(before, tv, lex_from(bs, i + 1));
            }
            i = i + 1;
        } else if c == 45 {
            if i + 1 < b.len() && 48 <= b[i + 1] && b[i + 1] <= 57 {
                let j = scan_run(b, i + 1, false);
                proof {
                    lemma_run_end(bs, i + 1, false);
                }
                match parse_digits(b, i + 1, j, true) {
                    None => {
                        let mut m = String::new();
                        m.append("bad integer `");
                        let text = ascii_string(b, i, j);
                        m.append(text.as_str());
                        m.append("`");
                        assert(m@ =~= bad_integer(bs.subrange(i as int, j as int)));
                        return Err(m);
                    },
                    Some(n) => {
                        out.push(Tok::Num(n));
                        proof {
                            assert(toks_view(out@) =~= before.push(TokV::Num(n)));
                            lemma_glue_prepend(before, TokV::Num(n), lex_from(bs, j as int));
                        }
                        i = j;
                    },
                }
            } else {
                let mut m = String::new();
                m.append("unexpected character `-`");
                return Err(m);
            }
        } else if c == 60 || c == 62 {
            let two = i + 1 < b.len() && b[i + 1] == 61;
            let tok = if c == 60 {
                if two {
                    Tok::Le
                } else {
                    Tok::Lt
                }
            } else {
                if two {
                    Tok::Ge
                } else {
                    Tok::Gt
                }
            };
            let ghost tv = tok@;
            out.push(tok);
            let step: usize = if two {
                2
            } else {
                1
            };
            proof {
                assert(toks_view(out@) =~= before.push(tv));
                lemma_glue_prepend(before, tv, lex_from(bs, i + step));
            }
            i = i + step;
        } else if word_byte(c) {
            let j = scan_run(b, i, true);
            proof {
                lemma_run_end(bs, i as int, true);
            }
            let ghost text = bs.subrange(i as int, j as int);
            let mut all_digits = true;
            let mut k: usize = i;
            while k < j
                invariant
                    i <= k <= j <= b@.len(),
                    bs == b@,
                    text == bs.subrange(i as int, j as int),
                    all_digits == forall|q: int| 0 <= q < k - i ==> is_digit(#[trigger] text[q]),
                decreases j - k,
            {
                assert(text[k - i] == b@[k as int]);
                if !(48 <= b[k] && b[k] <= 57) {
                    all_digits = false;
                }
                k = k + 1;
            }
            if all_digits {
                assert forall|q: int| i <= q < j implies is_digit(#[trigger] b@[q]) by {
                    assert(text[q - i] == b@[q]);
                }
                match parse_digits(b, i, j, false) {
                    None => {
                        let mut m = String::new();
                        m.append("bad integer `");
                        let w = ascii_string(b, i, j);
                        m.append(w.as_str());
                        m.append("`");
                        assert(m@ =~= bad_integer(text));
                        return Err(m);
                    },
                    Some(n) => {
                        out.push(Tok::Num(n));
                        proof {
                            assert(toks_view(out@) =~= before.push(TokV::Num(n)));
                            lemma_glue_prepend(before, TokV::Num(n), lex_from(bs, j as int));
                        }
                    },
                }
            } else {
                let w = ascii_string(b, i, j);
                let ghost wv = w@;
                out.push(Tok::Word(w));
                proof {
                    assert(toks_view(out@) =~= before.push(TokV::Word(wv)));
                    lemma_glue_prepend(before, TokV::Word(wv), lex_from(bs, j as int));
                }
            }
            i = j;
        } else {
            let mut m = String::new();
            m.append("unexpected character `");
            let ch = byte_char_text(c);
            m.append(ch.as_str());
            m.append("`");
            assert(m@ =~= "unexpected character `"@ + seq![c as char] + "`"@);
            return Err(m);
        }
    }
    assert(toks_view(out@) + Seq::<TokV>::empty() =~= toks_view(out@));
    Ok(out)
}

} // verus!
