//! The source law: the printed form of a descriptor parses back to it, for descriptors whose
//! constants are key literals, integers and lists of those, and whose body is built from `true`,
//! `false`, `and`, `or`, `thresh`, `not`, `if`, `match`, comparisons, state predicates, and the
//! obligations `pk`, `pk_h`, `pk_any` and `multi`, over value terms made of integers, key
//! literals, lists of those, constant references and value functions.
//!
//! The proof follows the text through both stages: the lexer reads the printed bytes as the
//! term's tokens ([`lemma_lex_term`]), and the parser reads those tokens back as the term
//! ([`lemma_parse_term`]).
use vstd::prelude::*;
use vstd::utf8::{encode_utf8, is_ascii_chars, is_ascii_chars_encode_utf8};

use crate::ast::{BTermV, ObligationV, Schema, ValueV, VTermV};
use crate::descriptor::DescriptorV;
use crate::limits::MAX_DEPTH;
use crate::registry::{CmpOp, StatePred, ValueFn};
use crate::parse::{p_comparison, p_schema, p_arms, p_match, p_vterm_pair, hash_fn_named, p_literal_items, bound_names, p_constants, p_literal, p_vterm_items, p_vterm_list, count_of, comparison_named, has_hex_prefix, is_obligation_name, p_hash, p_obligation_body, p_vterm, p_bterm, p_bterm_inner, p_bterm_items, p_bterm_list, p_descriptor, p_expect, p_if, p_next, p_num, p_with_or_bare, p_word, parse_spec, tok_at};
use crate::print::{show_arms, comparison_word, show_constants, show_value, show_values, digit_text, int_text, nat_text, show_vterms, show_descriptor, show_obligation, show_schema, show_vterm, show_tail_terms, show_term, show_terms};
use crate::decode::canonical_name;
use crate::lex::{
    TokV, ascii_text, digits_value, integer_of, is_digit, is_space, is_word_byte, lemma_run_end,
    glue, lex_from, lex_spec, prepend, run_end,
};

verus! {

/// The UTF-8 encoding of a concatenation is the concatenation of the encodings.
pub proof fn lemma_encode_utf8_concat(a: Seq<char>, b: Seq<char>)
    ensures
        encode_utf8(a + b) == encode_utf8(a) + encode_utf8(b),
    decreases a.len(),
{
    if a.len() == 0 {
        assert(a + b =~= b);
        assert(encode_utf8(a) + encode_utf8(b) =~= encode_utf8(b));
    } else {
        assert((a + b).drop_first() =~= a.drop_first() + b);
        assert((a + b)[0] == a[0]);
        lemma_encode_utf8_concat(a.drop_first(), b);
        assert(encode_utf8(a + b) =~= encode_utf8(a) + encode_utf8(b));
    }
}

proof fn lemma_run_end_shift(pre: Seq<u8>, b: Seq<u8>, i: int, word: bool)
    requires
        0 <= i <= b.len(),
    ensures
        run_end(pre + b, pre.len() + i, word) == pre.len() + run_end(b, i, word),
    decreases b.len() - i,
{
    let x = pre + b;
    if i < b.len() {
        assert(x[pre.len() + i] == b[i]);
        if (word && is_word_byte(b[i])) || (!word && is_digit(b[i])) {
            lemma_run_end_shift(pre, b, i + 1, word);
        }
    }
}

/// Lexing from a position depends only on the bytes from there on.
#[verifier::spinoff_prover]
pub proof fn lemma_lex_shift(pre: Seq<u8>, b: Seq<u8>, i: int)
    requires
        0 <= i <= b.len(),
    ensures
        lex_from(pre + b, pre.len() + i) == lex_from(b, i),
    decreases b.len() - i,
{
    let x = pre + b;
    let o = pre.len() as int;
    if i < b.len() {
        let c = b[i];
        assert(x[o + i] == c);
        if is_space(c) || c == 40 || c == 41 || c == 91 || c == 93 || c == 44 || c == 61 || c
            == 58 {
            lemma_lex_shift(pre, b, i + 1);
        } else if c == 45 {
            if i + 1 < b.len() {
                assert(x[o + i + 1] == b[i + 1]);
            }
            if i + 1 < b.len() && is_digit(b[i + 1]) {
                lemma_run_end(b, i + 1, false);
                lemma_run_end_shift(pre, b, i + 1, false);
                let j = run_end(b, i + 1, false);
                assert(x.subrange(o + i + 1, o + j) =~= b.subrange(i + 1, j));
                assert(x.subrange(o + i, o + j) =~= b.subrange(i, j));
                lemma_lex_shift(pre, b, j);
            }
        } else if c == 60 || c == 62 {
            if i + 1 < b.len() {
                assert(x[o + i + 1] == b[i + 1]);
                lemma_lex_shift(pre, b, i + 2);
            }
            lemma_lex_shift(pre, b, i + 1);
        } else if is_word_byte(c) {
            lemma_run_end(b, i, true);
            lemma_run_end_shift(pre, b, i, true);
            let j = run_end(b, i, true);
            assert(x.subrange(o + i, o + j) =~= b.subrange(i, j));
            lemma_lex_shift(pre, b, j);
        }
    }
}

/// Lexing a byte string from its start, after a prefix.
#[verifier::spinoff_prover]
pub proof fn lemma_lex_after(pre: Seq<u8>, b: Seq<u8>)
    ensures
        lex_from(pre + b, pre.len() as int) == lex_from(b, 0),
{
    lemma_lex_shift(pre, b, 0);
}

/// The token a punctuation byte reads as.
pub open spec fn punct_tok(c: u8) -> TokV {
    if c == 40 {
        TokV::LParen
    } else if c == 41 {
        TokV::RParen
    } else if c == 61 {
        TokV::Eq
    } else if c == 91 {
        TokV::LBracket
    } else if c == 93 {
        TokV::RBracket
    } else {
        TokV::Comma
    }
}

/// `(`, `)`, `,` and `=` each read as their token.
#[verifier::spinoff_prover]
pub proof fn lemma_lex_punct(c: u8, b: Seq<u8>)
    requires
        c == 40 || c == 41 || c == 44 || c == 61 || c == 91 || c == 93,
    ensures
        lex_from(seq![c] + b, 0) == prepend(punct_tok(c), lex_from(b, 0)),
{
    let x = seq![c] + b;
    assert(x[0] == c);
    lemma_lex_after(seq![c], b);
}

/// A space is skipped.
#[verifier::spinoff_prover]
pub proof fn lemma_lex_space(b: Seq<u8>)
    ensures
        lex_from(seq![32u8] + b, 0) == lex_from(b, 0),
{
    let x = seq![32u8] + b;
    assert(x[0] == 32u8);
    lemma_lex_after(seq![32u8], b);
}

/// Bytes that cannot continue a word: none, or a first byte outside words.
pub open spec fn word_stop(c: Seq<u8>) -> bool {
    c.len() == 0 || !is_word_byte(c[0])
}

proof fn lemma_run_end_word(w: Seq<u8>, c: Seq<u8>, i: int)
    requires
        0 <= i <= w.len(),
        forall|k: int| 0 <= k < w.len() ==> is_word_byte(#[trigger] w[k]),
        word_stop(c),
    ensures
        run_end(w + c, i, true) == w.len(),
    decreases w.len() - i,
{
    let x = w + c;
    if i < w.len() {
        assert(x[i] == w[i]);
        lemma_run_end_word(w, c, i + 1);
    } else if c.len() > 0 {
        assert(x[i] == c[0]);
    }
}

/// A word whose first byte is not a digit reads as a word token.
#[verifier::spinoff_prover]
pub proof fn lemma_lex_word(w: Seq<u8>, c: Seq<u8>)
    requires
        w.len() > 0,
        forall|k: int| 0 <= k < w.len() ==> is_word_byte(#[trigger] w[k]),
        !is_digit(w[0]),
        word_stop(c),
    ensures
        lex_from(w + c, 0) == prepend(TokV::Word(ascii_text(w)), lex_from(c, 0)),
{
    let x = w + c;
    assert(x[0] == w[0]);
    lemma_run_end_word(w, c, 0);
    assert(x.subrange(0, w.len() as int) =~= w);
    assert(!(forall|k: int| 0 <= k < w.len() ==> is_digit(#[trigger] w[k])));
    lemma_lex_after(w, c);
}

/// A run of digits reads as a number token.
#[verifier::spinoff_prover]
pub proof fn lemma_lex_digits(w: Seq<u8>, c: Seq<u8>)
    requires
        w.len() > 0,
        forall|k: int| 0 <= k < w.len() ==> is_digit(#[trigger] w[k]),
        word_stop(c),
        digits_value(w) <= i128::MAX,
    ensures
        lex_from(w + c, 0) == prepend(TokV::Num(digits_value(w) as i128), lex_from(c, 0)),
{
    let x = w + c;
    assert(x[0] == w[0]);
    lemma_run_end_word(w, c, 0);
    assert(x.subrange(0, w.len() as int) =~= w);
    assert(integer_of(false, w) == Some(digits_value(w) as i128));
    lemma_lex_after(w, c);
}

/// Text of lower-case letters and underscores, at least one character long.
pub open spec fn is_name_text(s: Seq<char>) -> bool {
    s.len() > 0 && forall|i: int| 0 <= i < s.len() ==> ('a' <= #[trigger] s[i] <= 'z' || s[i] == '_')
}

/// The bytes of a name: word bytes, the first not a digit, read back as the name.
pub proof fn lemma_name_bytes(s: Seq<char>)
    requires
        is_name_text(s),
    ensures
        encode_utf8(s).len() == s.len(),
        forall|k: int| 0 <= k < s.len() ==> is_word_byte(#[trigger] encode_utf8(s)[k]),
        !is_digit(encode_utf8(s)[0]),
        ascii_text(encode_utf8(s)) == s,
{
    assert(is_ascii_chars(s));
    is_ascii_chars_encode_utf8(s);
    let e = encode_utf8(s);
    assert forall|k: int| 0 <= k < s.len() implies is_word_byte(#[trigger] e[k]) by {
        assert(s[k] as u8 == e[k]);
    }
    assert(s[0] as u8 == e[0]);
    assert forall|k: int| 0 <= k < s.len() implies #[trigger] ascii_text(e)[k] == s[k] by {
        assert(s[k] as u8 == e[k]);
    }
    assert(ascii_text(e) =~= s);
}

proof fn lemma_digit_text(d: int)
    requires
        0 <= d < 10,
    ensures
        digit_text(d) == seq![(48 + d) as char],
{
    reveal_strlit("0");
    reveal_strlit("1");
    reveal_strlit("2");
    reveal_strlit("3");
    reveal_strlit("4");
    reveal_strlit("5");
    reveal_strlit("6");
    reveal_strlit("7");
    reveal_strlit("8");
    reveal_strlit("9");
    assert(digit_text(d) =~= seq![(48 + d) as char]);
}

/// The bytes of a printed natural number are its decimal digits, which read back as it.
pub proof fn lemma_nat_text_bytes(n: nat)
    ensures
        encode_utf8(nat_text(n)).len() > 0,
        forall|k: int|
            0 <= k < encode_utf8(nat_text(n)).len() ==> is_digit(#[trigger] encode_utf8(nat_text(n))[k]),
        digits_value(encode_utf8(nat_text(n))) == n,
    decreases n,
{
    let d = (n % 10) as int;
    lemma_digit_text(d);
    let dc = seq![(48 + d) as char];
    assert(is_ascii_chars(dc));
    is_ascii_chars_encode_utf8(dc);
    let db = encode_utf8(dc);
    assert(db.len() == 1);
    assert(db[0] == 48 + d);
    if n < 10 {
        assert(nat_text(n) == digit_text(n as int));
        assert(db.drop_last() =~= Seq::<u8>::empty());
        assert(digits_value(db.drop_last()) == 0);
        assert(db.last() == 48 + d);
        assert(d == n);
        assert(digits_value(db) == n);
    } else {
        lemma_nat_text_bytes(n / 10);
        let a = encode_utf8(nat_text(n / 10));
        lemma_encode_utf8_concat(nat_text(n / 10), digit_text(d));
        let e = encode_utf8(nat_text(n));
        assert(e == a + db);
        assert(e.drop_last() =~= a);
        assert(e.last() == 48 + d);
        assert forall|k: int| 0 <= k < e.len() implies is_digit(#[trigger] e[k]) by {
            if k < a.len() {
                assert(e[k] == a[k]);
            }
        }
        assert(digits_value(e) == digits_value(a) * 10 + d);
        assert(n == (n / 10) * 10 + n % 10);
    }
}

// ---------------------------------------------------------------------------------------------
// The boolean skeleton and its tokens
// ---------------------------------------------------------------------------------------------

/// A term of the boolean skeleton whose readers, started at nesting depth `d`, stay within
/// [`MAX_DEPTH`]: `true`, `false`, `and`, `or`, `thresh` over at least one term, `not`, `if`,
/// `match` whose tags are words other than `else`, comparisons, state predicates, and the
/// obligations, all over value terms [`vterm_ok`] accepts.
pub open spec fn skeleton(t: BTermV, d: nat) -> bool
    decreases t,
{
    d < MAX_DEPTH && match t {
        BTermV::Const(_) => true,
        BTermV::And(bs) => skeletons(bs, d + 1),
        BTermV::Or(bs) => skeletons(bs, d + 1),
        BTermV::Thresh(_, bs) => bs.len() > 0 && skeletons(bs, d + 1),
        BTermV::Not(b) => skeleton(*b, d + 1),
        BTermV::If(c, t1, e) => skeleton(*c, d + 1) && skeleton(*t1, d + 1) && skeleton(*e, d + 1),
        BTermV::Prove(o) => d + 1 < MAX_DEPTH && ob_ok(o, d + 1),
        BTermV::State(_, args) => d + 1 < MAX_DEPTH && vterms_ok(args, d + 1),
        BTermV::Cmp(_, a, b) => d + 1 < MAX_DEPTH && vterm_ok(a, d + 1) && vterm_ok(b, d + 1),
        BTermV::Match(sc, arms, dflt) => vterm_ok(sc, d + 1) && arms_ok(arms, d + 1) && skeleton(*dflt, d + 1),
        _ => false,
    }
}

/// An obligation the readers read back at depth `e`: any of them, of a value term.
pub open spec fn ob_ok(o: ObligationV, e: nat) -> bool {
    match o {
        ObligationV::Pk(v) => vterm_ok(v, e),
        ObligationV::PkH(v) => vterm_ok(v, e),
        ObligationV::PkAny(v) => vterm_ok(v, e),
        ObligationV::Multi(_, v) => vterm_ok(v, e),
        ObligationV::Attest(v, _) => vterm_ok(v, e),
        ObligationV::Hashlock(v) => vterm_ok(v, e),
    }
}

/// The value term an obligation reads.
pub open spec fn ob_arg(o: ObligationV) -> VTermV {
    match o {
        ObligationV::Pk(v) => v,
        ObligationV::PkH(v) => v,
        ObligationV::PkAny(v) => v,
        ObligationV::Multi(_, v) => v,
        ObligationV::Hashlock(v) => v,
        ObligationV::Attest(v, _) => v,
    }
}

/// The name an obligation prints with.
pub open spec fn ob_name(o: ObligationV) -> Seq<char> {
    match o {
        ObligationV::Pk(_) => "pk"@,
        ObligationV::PkH(_) => "pk_h"@,
        ObligationV::PkAny(_) => "pk_any"@,
        ObligationV::Multi(_, _) => "multi"@,
        ObligationV::Hashlock(_) => "hashlock"@,
        ObligationV::Attest(_, _) => "attest"@,
    }
}

/// The words of a skeleton term read back as what they were: key literals are not names a
/// `with(...)` binds, and constant references are.
pub open spec fn names_ok(t: BTermV, bound: Set<Seq<char>>) -> bool
    decreases t,
{
    match t {
        BTermV::And(bs) => names_oks(bs, bound),
        BTermV::Or(bs) => names_oks(bs, bound),
        BTermV::Thresh(_, bs) => names_oks(bs, bound),
        BTermV::Not(b) => names_ok(*b, bound),
        BTermV::If(c, t1, e) => names_ok(*c, bound) && names_ok(*t1, bound) && names_ok(*e, bound),
        BTermV::Prove(o) => names_okv(ob_arg(o), bound),
        BTermV::State(_, args) => names_oksv(args, bound),
        BTermV::Cmp(_, a, b) => names_okv(a, bound) && names_okv(b, bound),
        BTermV::Match(sc, arms, dflt) => names_okv(sc, bound) && arms_names_ok(arms, bound) && names_ok(
            *dflt,
            bound,
        ),
        _ => true,
    }
}

/// [`names_ok`] for each arm body.
pub open spec fn arms_names_ok(arms: Seq<(Seq<char>, BTermV)>, bound: Set<Seq<char>>) -> bool
    decreases arms,
{
    if arms.len() == 0 {
        true
    } else {
        names_ok(arms[0].1, bound) && arms_names_ok(arms.drop_first(), bound)
    }
}

/// [`names_ok`] for each term of a list.
pub open spec fn names_oks(s: Seq<BTermV>, bound: Set<Seq<char>>) -> bool
    decreases s,
{
    if s.len() == 0 {
        true
    } else {
        names_ok(s[0], bound) && names_oks(s.drop_first(), bound)
    }
}

/// Text a key literal may print as and read back from: an ASCII letter, then ASCII letters,
/// digits and underscores.
pub open spec fn is_key_text(k: Seq<char>) -> bool {
    &&& k.len() > 0
    &&& ('a' <= k[0] <= 'z' || 'A' <= k[0] <= 'Z')
    &&& forall|i: int|
        0 <= i < k.len() ==> ('a' <= #[trigger] k[i] <= 'z' || 'A' <= k[i] <= 'Z' || '0' <= k[i]
            <= '9' || k[i] == '_')
}

/// Tagged arms of a `match`: tags that print as words other than `else`, bodies that are
/// skeleton terms.
pub open spec fn arms_ok(arms: Seq<(Seq<char>, BTermV)>, d: nat) -> bool
    decreases arms,
{
    if arms.len() == 0 {
        true
    } else {
        &&& is_key_text(arms[0].0)
        &&& arms[0].0 != "else"@
        &&& skeleton(arms[0].1, d)
        &&& arms_ok(arms.drop_first(), d)
    }
}

/// [`skeleton`] for each term of a list.
pub open spec fn skeletons(s: Seq<BTermV>, d: nat) -> bool
    decreases s,
{
    if s.len() == 0 {
        true
    } else {
        skeleton(s[0], d) && skeletons(s.drop_first(), d)
    }
}

/// The tokens a printed skeleton term reads as.
pub open spec fn term_toks(t: BTermV) -> Seq<TokV>
    decreases t,
{
    match t {
        BTermV::Const(b) => seq![TokV::Word(if b { "true"@ } else { "false"@ })],
        BTermV::And(bs) => seq![TokV::Word("and"@), TokV::LParen] + list_toks(bs) + seq![TokV::RParen],
        BTermV::Or(bs) => seq![TokV::Word("or"@), TokV::LParen] + list_toks(bs) + seq![TokV::RParen],
        BTermV::Thresh(k, bs) => seq![TokV::Word("thresh"@), TokV::LParen, TokV::Num(k as i128), TokV::Comma]
            + list_toks(bs) + seq![TokV::RParen],
        BTermV::Not(b) => seq![TokV::Word("not"@), TokV::LParen] + term_toks(*b) + seq![TokV::RParen],
        BTermV::If(c, t1, e) => seq![TokV::Word("if"@), TokV::LParen] + term_toks(*c) + seq![TokV::Comma]
            + term_toks(*t1) + seq![TokV::Comma] + term_toks(*e) + seq![TokV::RParen],
        BTermV::State(pr, args) => seq![TokV::Word(pr.spec_name()), TokV::LParen] + vterms_toks(args)
            + seq![TokV::RParen],
        BTermV::Prove(o) => match o {
            ObligationV::Multi(k, v) => seq![TokV::Word("multi"@), TokV::LParen, TokV::Num(k as i128), TokV::Comma]
                + vterm_toks(v) + seq![TokV::RParen],
            ObligationV::Attest(v, sc) => seq![TokV::Word("attest"@), TokV::LParen] + vterm_toks(v)
                + schema_toks(sc) + seq![TokV::RParen],
            _ => seq![TokV::Word(ob_name(o)), TokV::LParen] + vterm_toks(ob_arg(o)) + seq![TokV::RParen],
        },
        BTermV::Cmp(o, a, b) => seq![TokV::Word(comparison_word(o)), TokV::LParen] + vterm_toks(a) + seq![
            TokV::Comma,
        ] + vterm_toks(b) + seq![TokV::RParen],
        BTermV::Match(sc, arms, dflt) => seq![TokV::Word("match"@), TokV::LParen] + vterm_toks(sc) + seq![
            TokV::Comma,
        ] + arms_toks(arms) + arm_toks_of("else"@, term_toks(*dflt)) + seq![TokV::RParen],
        _ => Seq::empty(),
    }
}

/// The tokens of an attestation's schema, after the `,` that precedes it.
pub open spec fn schema_toks(sc: Schema) -> Seq<TokV> {
    match sc {
        Schema::PriceWithinBps { tolerance_bps } => seq![
            TokV::Comma,
            TokV::Word("price_schema"@),
            TokV::LParen,
            TokV::Num(tolerance_bps as i128),
            TokV::RParen,
        ],
    }
}

/// The tokens of one printed `branch(tag, body)`, given the body's tokens.
pub open spec fn arm_toks_of(tag: Seq<char>, tb: Seq<TokV>) -> Seq<TokV> {
    seq![TokV::Word("branch"@), TokV::LParen, TokV::Word(tag), TokV::Comma] + tb + seq![TokV::RParen]
}

/// The tokens of one printed `branch(tag, body)`.
pub open spec fn arm_toks(tag: Seq<char>, body: BTermV) -> Seq<TokV> {
    arm_toks_of(tag, term_toks(body))
}

/// The tokens of printed tagged arms, each followed by a comma.
pub open spec fn arms_toks(arms: Seq<(Seq<char>, BTermV)>) -> Seq<TokV>
    decreases arms,
{
    if arms.len() == 0 {
        Seq::empty()
    } else {
        arm_toks_of(arms[0].0, term_toks(arms[0].1)) + seq![TokV::Comma] + arms_toks(arms.drop_first())
    }
}

/// The tokens of printed skeleton terms separated by commas.
pub open spec fn list_toks(s: Seq<BTermV>) -> Seq<TokV>
    decreases s,
{
    if s.len() == 0 {
        Seq::empty()
    } else if s.len() == 1 {
        term_toks(s[0])
    } else {
        term_toks(s[0]) + seq![TokV::Comma] + list_toks(s.drop_first())
    }
}

proof fn lemma_glue_glue(a: Seq<TokV>, b: Seq<TokV>, r: Result<Seq<TokV>, Seq<char>>)
    ensures
        glue(a, glue(b, r)) == glue(a + b, r),
{
    match r {
        Ok(ts) => {
            assert(a + (b + ts) =~= (a + b) + ts);
        },
        Err(_) => {},
    }
}

proof fn lemma_prepend_glue(t: TokV, r: Result<Seq<TokV>, Seq<char>>)
    ensures
        prepend(t, r) == glue(seq![t], r),
{
}

proof fn lemma_glue_empty(r: Result<Seq<TokV>, Seq<char>>)
    ensures
        glue(Seq::empty(), r) == r,
{
    match r {
        Ok(ts) => {
            assert(Seq::<TokV>::empty() + ts =~= ts);
        },
        Err(_) => {},
    }
}

proof fn lemma_keywords()
    ensures
        is_name_text("true"@),
        is_name_text("false"@),
        is_name_text("and"@),
        is_name_text("or"@),
        is_name_text("thresh"@),
        is_name_text("not"@),
        is_name_text("if"@),
{
    reveal_strlit("true");
    reveal_strlit("false");
    reveal_strlit("and");
    reveal_strlit("or");
    reveal_strlit("thresh");
    reveal_strlit("not");
    reveal_strlit("if");
}

proof fn lemma_punct_bytes()
    ensures
        encode_utf8("("@) == seq![40u8],
        encode_utf8(")"@) == seq![41u8],
        encode_utf8(", "@) == seq![44u8, 32u8],
{
    reveal_strlit("(");
    reveal_strlit(")");
    reveal_strlit(", ");
    is_ascii_chars_encode_utf8("("@);
    is_ascii_chars_encode_utf8(")"@);
    is_ascii_chars_encode_utf8(", "@);
    assert(encode_utf8("("@) =~= seq![40u8]);
    assert(encode_utf8(")"@) =~= seq![41u8]);
    assert(encode_utf8(", "@) =~= seq![44u8, 32u8]);
}

proof fn lemma_show_terms_cons(s: Seq<BTermV>)
    requires
        s.len() >= 2,
    ensures
        show_terms(s) == show_term(s[0]) + ", "@ + show_terms(s.drop_first()),
    decreases s.len(),
{
    let init = s.drop_last();
    let tail = s.drop_first();
    if s.len() == 2 {
        assert(init.len() == 1 && init[0] == s[0]);
        assert(tail.len() == 1 && tail[0] == s[1]);
        assert(show_terms(init) == show_term(s[0]));
        assert(show_terms(tail) == show_term(s[1]));
    } else {
        lemma_show_terms_cons(init);
        assert(init.drop_first() =~= tail.drop_last());
        assert(init[0] == s[0]);
        assert(tail.last() == s.last());
        assert(show_terms(tail) == show_terms(tail.drop_last()) + ", "@ + show_term(tail.last()));
        assert(show_terms(s) =~= show_term(s[0]) + ", "@ + show_terms(tail));
    }
}

proof fn lemma_show_tail_terms(s: Seq<BTermV>)
    requires
        s.len() >= 1,
    ensures
        show_tail_terms(s) == ", "@ + show_terms(s),
    decreases s.len(),
{
    let init = s.drop_last();
    if s.len() == 1 {
        assert(init =~= Seq::<BTermV>::empty());
        assert(show_tail_terms(init) == Seq::<char>::empty());
        assert(s.last() == s[0]);
        assert(show_terms(s) == show_term(s[0]));
        assert(show_tail_terms(s) =~= ", "@ + show_terms(s));
    } else {
        lemma_show_tail_terms(init);
        assert(show_tail_terms(s) =~= ", "@ + show_terms(s));
    }
}

// ---------------------------------------------------------------------------------------------
// Lexing printed skeleton terms
// ---------------------------------------------------------------------------------------------

/// The bytes of `w(`: a name, then `(`.
#[verifier::spinoff_prover]
proof fn lemma_lex_open(w: Seq<char>, rest: Seq<u8>)
    requires
        is_name_text(w),
    ensures
        lex_from(encode_utf8(w + "("@) + rest, 0) == glue(
            seq![TokV::Word(w), TokV::LParen],
            lex_from(rest, 0),
        ),
{
    lemma_encode_utf8_concat(w, "("@);
    lemma_punct_bytes();
    lemma_name_bytes(w);
    let n = encode_utf8(w);
    assert(encode_utf8(w + "("@) + rest =~= n + (seq![40u8] + rest));
    lemma_lex_word(n, seq![40u8] + rest);
    lemma_lex_punct(40, rest);
    lemma_prepend_glue(TokV::LParen, lex_from(rest, 0));
    lemma_prepend_glue(TokV::Word(w), glue(seq![TokV::LParen], lex_from(rest, 0)));
    lemma_glue_glue(seq![TokV::Word(w)], seq![TokV::LParen], lex_from(rest, 0));
    assert(seq![TokV::Word(w)] + seq![TokV::LParen] =~= seq![TokV::Word(w), TokV::LParen]);
}

/// The bytes of `, ` then more.
#[verifier::spinoff_prover]
proof fn lemma_lex_sep(rest: Seq<u8>)
    ensures
        lex_from(encode_utf8(", "@) + rest, 0) == prepend(TokV::Comma, lex_from(rest, 0)),
{
    lemma_punct_bytes();
    assert(encode_utf8(", "@) + rest =~= seq![44u8] + (seq![32u8] + rest));
    lemma_lex_punct(44, seq![32u8] + rest);
    lemma_lex_space(rest);
}

/// The bytes of `)` then more.
#[verifier::spinoff_prover]
proof fn lemma_lex_close(rest: Seq<u8>)
    ensures
        lex_from(encode_utf8(")"@) + rest, 0) == prepend(TokV::RParen, lex_from(rest, 0)),
{
    lemma_punct_bytes();
    assert(encode_utf8(")"@) + rest =~= seq![41u8] + rest);
    lemma_lex_punct(41, rest);
}

proof fn lemma_open_literals()
    ensures
        "and("@ == "and"@ + "("@,
        "or("@ == "or"@ + "("@,
        "thresh("@ == "thresh"@ + "("@,
        "not("@ == "not"@ + "("@,
        "if("@ == "if"@ + "("@,
{
    reveal_strlit("and(");
    reveal_strlit("or(");
    reveal_strlit("thresh(");
    reveal_strlit("not(");
    reveal_strlit("if(");
    reveal_strlit("and");
    reveal_strlit("or");
    reveal_strlit("thresh");
    reveal_strlit("not");
    reveal_strlit("if");
    reveal_strlit("(");
    assert("and("@ =~= "and"@ + "("@);
    assert("or("@ =~= "or"@ + "("@);
    assert("thresh("@ =~= "thresh"@ + "("@);
    assert("not("@ =~= "not"@ + "("@);
    assert("if("@ =~= "if"@ + "("@);
}

/// `w(` then a list of terms then `)`, as `and(...)` and `or(...)` print.
#[verifier::spinoff_prover]
proof fn lemma_lex_list_term(w: Seq<char>, bs: Seq<BTermV>, d: nat, rest: Seq<u8>)
    requires
        is_name_text(w),
        skeletons(bs, d),
        word_stop(rest),
    ensures
        lex_from(encode_utf8(w + "("@ + show_terms(bs) + ")"@) + rest, 0) == glue(
            seq![TokV::Word(w), TokV::LParen] + list_toks(bs) + seq![TokV::RParen],
            lex_from(rest, 0),
        ),
    decreases bs, 2nat,
{
    let o = w + "("@;
    let y = show_terms(bs);
    lemma_encode_utf8_concat(o + y, ")"@);
    lemma_encode_utf8_concat(o, y);
    let r1 = encode_utf8(")"@) + rest;
    lemma_punct_bytes();
    assert(encode_utf8(o + y + ")"@) + rest =~= encode_utf8(o) + (encode_utf8(y) + r1));
    lemma_lex_open(w, encode_utf8(y) + r1);
    lemma_lex_terms(bs, d, r1);
    lemma_lex_close(rest);
    lemma_prepend_glue(TokV::RParen, lex_from(rest, 0));
    lemma_glue_glue(list_toks(bs), seq![TokV::RParen], lex_from(rest, 0));
    lemma_glue_glue(
        seq![TokV::Word(w), TokV::LParen],
        list_toks(bs) + seq![TokV::RParen],
        lex_from(rest, 0),
    );
    assert(seq![TokV::Word(w), TokV::LParen] + (list_toks(bs) + seq![TokV::RParen]) =~= seq![
        TokV::Word(w),
        TokV::LParen,
    ] + list_toks(bs) + seq![TokV::RParen]);
}

/// The printed form of a skeleton term, followed by bytes that cannot continue a word, reads as
/// the term's tokens followed by the tokens of those bytes.
#[verifier::spinoff_prover]
pub proof fn lemma_lex_term(t: BTermV, d: nat, rest: Seq<u8>)
    requires
        skeleton(t, d),
        word_stop(rest),
    ensures
        lex_from(encode_utf8(show_term(t)) + rest, 0) == glue(term_toks(t), lex_from(rest, 0)),
    decreases t, 1nat,
{
    lemma_keywords();
    lemma_open_literals();
    lemma_punct_bytes();
    match t {
        BTermV::Const(b) => {
            let w = if b { "true"@ } else { "false"@ };
            lemma_name_bytes(w);
            lemma_lex_word(encode_utf8(w), rest);
            lemma_prepend_glue(TokV::Word(w), lex_from(rest, 0));
        },
        BTermV::And(bs) => {
            lemma_lex_list_term("and"@, bs, d + 1, rest);
        },
        BTermV::Or(bs) => {
            lemma_lex_list_term("or"@, bs, d + 1, rest);
        },
        BTermV::Thresh(_, _) => {
            lemma_lex_thresh(t, d, rest);
        },
        BTermV::Not(_) => {
            lemma_lex_not(t, d, rest);
        },
        BTermV::If(_, _, _) => {
            lemma_lex_if(t, d, rest);
        },
        BTermV::Prove(_) => {
            lemma_lex_prove(t, d, rest);
        },
        BTermV::State(_, _) => {
            lemma_lex_state(t, d, rest);
        },
        BTermV::Cmp(_, _, _) => {
            lemma_lex_cmp(t, d, rest);
        },
        BTermV::Match(_, _, _) => {
            lemma_lex_match(t, d, rest);
        },
        _ => {},
    }
}

#[verifier::spinoff_prover]
#[verifier::rlimit(40)]
proof fn lemma_lex_thresh(t: BTermV, d: nat, rest: Seq<u8>)
    requires
        t is Thresh,
        skeleton(t, d),
        word_stop(rest),
    ensures
        lex_from(encode_utf8(show_term(t)) + rest, 0) == glue(term_toks(t), lex_from(rest, 0)),
    decreases t, 0nat,
{
    lemma_keywords();
    lemma_open_literals();
    lemma_punct_bytes();
    match t {
        BTermV::Thresh(k, bs) => {
            lemma_show_tail_terms(bs);
            let o = "thresh"@ + "("@;
            let dt = nat_text(k as nat);
            let y = show_terms(bs);
            lemma_encode_utf8_concat(o + dt + (", "@ + y), ")"@);
            lemma_encode_utf8_concat(o + dt, ", "@ + y);
            lemma_encode_utf8_concat(o, dt);
            lemma_encode_utf8_concat(", "@, y);
            lemma_nat_text_bytes(k as nat);
            let db = encode_utf8(dt);
            let r1 = encode_utf8(")"@) + rest;
            let r2 = encode_utf8(", "@) + (encode_utf8(y) + r1);
            assert(show_term(t) == o + dt + (", "@ + y) + ")"@);
            assert(encode_utf8(show_term(t)) + rest =~= encode_utf8(o) + (db + r2));
            lemma_lex_open("thresh"@, db + r2);
            assert(r2[0] == 44u8);
            lemma_lex_digits(db, r2);
            lemma_lex_sep(encode_utf8(y) + r1);
            lemma_lex_terms(bs, d + 1, r1);
            lemma_lex_close(rest);
            let rr = lex_from(rest, 0);
            lemma_prepend_glue(TokV::RParen, rr);
            lemma_glue_glue(list_toks(bs), seq![TokV::RParen], rr);
            lemma_prepend_glue(TokV::Comma, glue(list_toks(bs) + seq![TokV::RParen], rr));
            lemma_glue_glue(seq![TokV::Comma], list_toks(bs) + seq![TokV::RParen], rr);
            let n = TokV::Num(digits_value(db) as i128);
            lemma_prepend_glue(n, glue(seq![TokV::Comma] + (list_toks(bs) + seq![TokV::RParen]), rr));
            lemma_glue_glue(seq![n], seq![TokV::Comma] + (list_toks(bs) + seq![TokV::RParen]), rr);
            lemma_glue_glue(
                seq![TokV::Word("thresh"@), TokV::LParen],
                seq![n] + (seq![TokV::Comma] + (list_toks(bs) + seq![TokV::RParen])),
                rr,
            );
            assert(seq![TokV::Word("thresh"@), TokV::LParen] + (seq![n] + (seq![TokV::Comma] + (
            list_toks(bs) + seq![TokV::RParen]))) =~= term_toks(t));
                },
        _ => {},
    }
}

#[verifier::spinoff_prover]
proof fn lemma_lex_not(t: BTermV, d: nat, rest: Seq<u8>)
    requires
        t is Not,
        skeleton(t, d),
        word_stop(rest),
    ensures
        lex_from(encode_utf8(show_term(t)) + rest, 0) == glue(term_toks(t), lex_from(rest, 0)),
    decreases t, 0nat,
{
    lemma_keywords();
    lemma_open_literals();
    lemma_punct_bytes();
    match t {
        BTermV::Not(b) => {
            let o = "not"@ + "("@;
            let y = show_term(*b);
            lemma_encode_utf8_concat(o + y, ")"@);
            lemma_encode_utf8_concat(o, y);
            let r1 = encode_utf8(")"@) + rest;
            assert(encode_utf8(show_term(t)) + rest =~= encode_utf8(o) + (encode_utf8(y) + r1));
            lemma_lex_open("not"@, encode_utf8(y) + r1);
            lemma_lex_term(*b, d + 1, r1);
            lemma_lex_close(rest);
            let rr = lex_from(rest, 0);
            lemma_prepend_glue(TokV::RParen, rr);
            lemma_glue_glue(term_toks(*b), seq![TokV::RParen], rr);
            lemma_glue_glue(seq![TokV::Word("not"@), TokV::LParen], term_toks(*b) + seq![TokV::RParen], rr);
            assert(seq![TokV::Word("not"@), TokV::LParen] + (term_toks(*b) + seq![TokV::RParen])
                =~= term_toks(t));
                },
        _ => {},
    }
}

#[verifier::spinoff_prover]
#[verifier::rlimit(40)]
proof fn lemma_lex_if(t: BTermV, d: nat, rest: Seq<u8>)
    requires
        t is If,
        skeleton(t, d),
        word_stop(rest),
    ensures
        lex_from(encode_utf8(show_term(t)) + rest, 0) == glue(term_toks(t), lex_from(rest, 0)),
    decreases t, 0nat,
{
    lemma_keywords();
    lemma_open_literals();
    lemma_punct_bytes();
    match t {
        BTermV::If(c, t1, e) => {
            let o = "if"@ + "("@;
            let (yc, yt, ye) = (show_term(*c), show_term(*t1), show_term(*e));
            let sep = ", "@;
            assert(show_term(t) == o + yc + sep + yt + sep + ye + ")"@);
            lemma_encode_utf8_concat(o + yc + sep + yt + sep + ye, ")"@);
            lemma_encode_utf8_concat(o + yc + sep + yt + sep, ye);
            lemma_encode_utf8_concat(o + yc + sep + yt, sep);
            lemma_encode_utf8_concat(o + yc + sep, yt);
            lemma_encode_utf8_concat(o + yc, sep);
            lemma_encode_utf8_concat(o, yc);
            let r1 = encode_utf8(")"@) + rest;
            let r2 = encode_utf8(ye) + r1;
            let r3 = encode_utf8(sep) + r2;
            let r4 = encode_utf8(yt) + r3;
            let r5 = encode_utf8(sep) + r4;
            assert(encode_utf8(show_term(t)) + rest =~= encode_utf8(o) + (encode_utf8(yc) + r5));
            lemma_lex_open("if"@, encode_utf8(yc) + r5);
            lemma_lex_term(*c, d + 1, r5);
            lemma_lex_sep(r4);
            lemma_lex_term(*t1, d + 1, r3);
            lemma_lex_sep(r2);
            lemma_lex_term(*e, d + 1, r1);
            lemma_lex_close(rest);
            let rr = lex_from(rest, 0);
            let tc = term_toks(*c);
            let tt = term_toks(*t1);
            let te = term_toks(*e);
            let cm = seq![TokV::Comma];
            let rp = seq![TokV::RParen];
            lemma_prepend_glue(TokV::RParen, rr);
            lemma_glue_glue(te, rp, rr);
            lemma_prepend_glue(TokV::Comma, glue(te + rp, rr));
            lemma_glue_glue(cm, te + rp, rr);
            lemma_glue_glue(tt, cm + (te + rp), rr);
            lemma_prepend_glue(TokV::Comma, glue(tt + (cm + (te + rp)), rr));
            lemma_glue_glue(cm, tt + (cm + (te + rp)), rr);
            lemma_glue_glue(tc, cm + (tt + (cm + (te + rp))), rr);
            lemma_glue_glue(
                seq![TokV::Word("if"@), TokV::LParen],
                tc + (cm + (tt + (cm + (te + rp)))),
                rr,
            );
            assert(seq![TokV::Word("if"@), TokV::LParen] + (tc + (cm + (tt + (cm + (te + rp)))))
                =~= term_toks(t));
                },
        _ => {},
    }
}

/// Printed skeleton terms separated by `, `, followed by bytes that cannot continue a word,
/// read as their tokens separated by commas.
#[verifier::spinoff_prover]
pub proof fn lemma_lex_terms(s: Seq<BTermV>, d: nat, rest: Seq<u8>)
    requires
        skeletons(s, d),
        word_stop(rest),
    ensures
        lex_from(encode_utf8(show_terms(s)) + rest, 0) == glue(list_toks(s), lex_from(rest, 0)),
    decreases s, 1nat,
{
    if s.len() == 0 {
        assert(encode_utf8(show_terms(s)) + rest =~= rest);
        lemma_glue_empty(lex_from(rest, 0));
    } else if s.len() == 1 {
        lemma_lex_term(s[0], d, rest);
    } else {
        lemma_show_terms_cons(s);
        lemma_punct_bytes();
        let y0 = show_term(s[0]);
        let yt = show_terms(s.drop_first());
        lemma_encode_utf8_concat(y0 + ", "@, yt);
        lemma_encode_utf8_concat(y0, ", "@);
        let r1 = encode_utf8(yt) + rest;
        let r2 = encode_utf8(", "@) + r1;
        assert(encode_utf8(show_terms(s)) + rest =~= encode_utf8(y0) + r2);
        lemma_lex_term(s[0], d, r2);
        lemma_lex_sep(r1);
        lemma_lex_terms(s.drop_first(), d, rest);
        let rr = lex_from(rest, 0);
        lemma_prepend_glue(TokV::Comma, glue(list_toks(s.drop_first()), rr));
        lemma_glue_glue(seq![TokV::Comma], list_toks(s.drop_first()), rr);
        lemma_glue_glue(term_toks(s[0]), seq![TokV::Comma] + list_toks(s.drop_first()), rr);
        assert(term_toks(s[0]) + (seq![TokV::Comma] + list_toks(s.drop_first())) =~= list_toks(s));
    }
}

// ---------------------------------------------------------------------------------------------
// Parsing the tokens of skeleton terms
// ---------------------------------------------------------------------------------------------

/// `x` stands in `ts` at position `p`.
pub open spec fn toks_at(ts: Seq<TokV>, p: int, x: Seq<TokV>) -> bool {
    0 <= p && p + x.len() <= ts.len() && ts.subrange(p, p + x.len()) == x
}

proof fn lemma_toks_at_split(ts: Seq<TokV>, p: int, a: Seq<TokV>, b: Seq<TokV>)
    requires
        toks_at(ts, p, a + b),
    ensures
        toks_at(ts, p, a),
        toks_at(ts, p + a.len(), b),
{
    let w = ts.subrange(p, p + (a + b).len());
    assert(w == a + b);
    assert(ts.subrange(p, p + a.len()) =~= w.subrange(0, a.len() as int));
    assert(w.subrange(0, a.len() as int) =~= a);
    assert(ts.subrange(p + a.len(), p + a.len() + b.len()) =~= w.subrange(a.len() as int, w.len() as int));
    assert(w.subrange(a.len() as int, w.len() as int) =~= b);
}

proof fn lemma_toks_at_one(ts: Seq<TokV>, p: int, x: TokV)
    requires
        toks_at(ts, p, seq![x]),
    ensures
        tok_at(ts, p) == Some(x),
        p_next(ts, p) == Ok::<(TokV, int), Seq<char>>((x, p + 1)),
        p_expect(ts, p, x) == Ok::<int, Seq<char>>(p + 1),
{
    assert(ts.subrange(p, p + 1)[0] == ts[p]);
}

proof fn lemma_keywords_distinct()
    ensures
        "false"@ != "true"@,
        "and"@ != "true"@,
        "and"@ != "false"@,
        "or"@ != "true"@,
        "or"@ != "false"@,
        "or"@ != "and"@,
        "thresh"@ != "true"@,
        "thresh"@ != "false"@,
        "thresh"@ != "and"@,
        "thresh"@ != "or"@,
        "not"@ != "true"@,
        "not"@ != "false"@,
        "not"@ != "and"@,
        "not"@ != "or"@,
        "not"@ != "thresh"@,
        "if"@ != "true"@,
        "if"@ != "false"@,
        "if"@ != "and"@,
        "if"@ != "or"@,
        "if"@ != "thresh"@,
        "if"@ != "not"@,
        "wsh"@ != "true"@,
        "wsh"@ != "false"@,
        "wsh"@ != "and"@,
        "wsh"@ != "or"@,
        "wsh"@ != "thresh"@,
        "wsh"@ != "not"@,
        "wsh"@ != "if"@,
        "with"@ != "true"@,
        "with"@ != "false"@,
        "with"@ != "and"@,
        "with"@ != "or"@,
        "with"@ != "thresh"@,
        "with"@ != "not"@,
        "with"@ != "if"@,
        "with"@ != "wsh"@,
        "with"@ != "pk"@,
        "with"@ != "pk_h"@,
        "with"@ != "pk_any"@,
        "wsh"@ != "pk"@,
        "wsh"@ != "pk_h"@,
        "wsh"@ != "pk_any"@,
{
    reveal_strlit("true");
    reveal_strlit("false");
    reveal_strlit("and");
    reveal_strlit("or");
    reveal_strlit("thresh");
    reveal_strlit("not");
    reveal_strlit("if");
    reveal_strlit("wsh");
    reveal_strlit("with");
    reveal_strlit("pk");
    reveal_strlit("pk_h");
    reveal_strlit("pk_any");
    assert("pk"@.len() == 2);
    assert("pk_h"@.len() == 4);
    assert("pk_any"@.len() == 6);
    assert("wsh"@[0] != "pk"@[0]);
    assert("true"@.len() == 4);
    assert("false"@.len() == 5);
    assert("and"@.len() == 3);
    assert("or"@.len() == 2);
    assert("thresh"@.len() == 6);
    assert("not"@.len() == 3);
    assert("if"@.len() == 2);
    assert("wsh"@.len() == 3);
    assert("with"@.len() == 4);
    assert("and"@[0] != "not"@[0]);
    assert("or"@[0] != "if"@[0]);
    assert("wsh"@[0] != "and"@[0]);
    assert("wsh"@[0] != "not"@[0]);
    assert("with"@[0] != "true"@[0]);
}

/// The tokens of a skeleton term start with a word that is not `wsh` or `with`.
proof fn lemma_term_toks_head(t: BTermV, d: nat)
    requires
        skeleton(t, d),
    ensures
        term_toks(t).len() >= 1,
        term_toks(t)[0] is Word,
        term_toks(t)[0] != TokV::Word("wsh"@),
        term_toks(t)[0] != TokV::Word("with"@),
{
    lemma_keywords_distinct();
    match t {
        BTermV::State(pr, _) => {
            lemma_state_pred_facts(pr);
        },
        BTermV::Prove(o) => {
            lemma_ob_name_facts(o);
        },
        BTermV::Cmp(o, _, _) => {
            lemma_cmp_word_facts(o);
        },
        BTermV::Match(_, _, _) => {
            lemma_match_words();
        },
        _ => {},
    }
}

proof fn lemma_list_toks_head(s: Seq<BTermV>, d: nat)
    requires
        skeletons(s, d),
        s.len() >= 1,
    ensures
        list_toks(s).len() >= 1,
        list_toks(s)[0] is Word,
{
    lemma_term_toks_head(s[0], d);
    if s.len() >= 2 {
        assert(list_toks(s)[0] == term_toks(s[0])[0]);
    }
}

/// A skeleton term's tokens parse back to the term.
#[verifier::spinoff_prover]
pub proof fn lemma_parse_term(t: BTermV, d: nat, ts: Seq<TokV>, p: int, bound: Set<Seq<char>>)
    requires
        skeleton(t, d),
        names_ok(t, bound),
        toks_at(ts, p, term_toks(t)),
    ensures
        p_bterm(ts, p, d, bound) == Ok::<(BTermV, int), Seq<char>>((t, p + term_toks(t).len())),
    decreases t, 1nat,
{
    lemma_keywords_distinct();
    match t {
        BTermV::Const(b) => {
            let w = if b { "true"@ } else { "false"@ };
            assert(term_toks(t) == seq![TokV::Word(w)]);
            lemma_toks_at_one(ts, p, TokV::Word(w));
            assert(p_word(ts, p) == Ok::<(Seq<char>, int), Seq<char>>((w, p + 1)));
        },
        BTermV::And(_) => {
            lemma_parse_and(t, d, ts, p, bound);
        },
        BTermV::Or(_) => {
            lemma_parse_or(t, d, ts, p, bound);
        },
        BTermV::Thresh(_, _) => {
            lemma_parse_thresh(t, d, ts, p, bound);
        },
        BTermV::Not(_) => {
            lemma_parse_not(t, d, ts, p, bound);
        },
        BTermV::If(_, _, _) => {
            lemma_parse_if(t, d, ts, p, bound);
        },
        BTermV::Prove(_) => {
            lemma_parse_prove(t, d, ts, p, bound);
        },
        BTermV::State(_, _) => {
            lemma_parse_state(t, d, ts, p, bound);
        },
        BTermV::Cmp(_, _, _) => {
            lemma_parse_cmp(t, d, ts, p, bound);
        },
        BTermV::Match(_, _, _) => {
            lemma_parse_match(t, d, ts, p, bound);
        },
        _ => {},
    }
}

/// The opening `w(` of a term's tokens.
#[verifier::spinoff_prover]
proof fn lemma_parse_open(ts: Seq<TokV>, p: int, w: Seq<char>, x: Seq<TokV>)
    requires
        toks_at(ts, p, seq![TokV::Word(w), TokV::LParen] + x),
    ensures
        p_word(ts, p) == Ok::<(Seq<char>, int), Seq<char>>((w, p + 1)),
        p_expect(ts, p + 1, TokV::LParen) == Ok::<int, Seq<char>>(p + 2),
        toks_at(ts, p + 2, x),
{
    lemma_toks_at_split(ts, p, seq![TokV::Word(w), TokV::LParen], x);
    assert(seq![TokV::Word(w)] + seq![TokV::LParen] =~= seq![TokV::Word(w), TokV::LParen]);
    lemma_toks_at_split(ts, p, seq![TokV::Word(w)], seq![TokV::LParen]);
    lemma_toks_at_one(ts, p, TokV::Word(w));
    lemma_toks_at_one(ts, p + 1, TokV::LParen);
}

#[verifier::spinoff_prover]
#[verifier::rlimit(100)]
proof fn lemma_parse_and(t: BTermV, d: nat, ts: Seq<TokV>, p: int, bound: Set<Seq<char>>)
    requires
        t is And,
        skeleton(t, d),
        names_ok(t, bound),
        toks_at(ts, p, term_toks(t)),
    ensures
        p_bterm(ts, p, d, bound) == Ok::<(BTermV, int), Seq<char>>((t, p + term_toks(t).len())),
    decreases t, 0nat,
{
    lemma_keywords_distinct();
    let bs = t->And_0;
    let lt = list_toks(bs);
    assert(term_toks(t) =~= seq![TokV::Word("and"@), TokV::LParen] + (lt + seq![TokV::RParen]));
    lemma_parse_open(ts, p, "and"@, lt + seq![TokV::RParen]);
    lemma_parse_list(bs, d + 1, ts, p + 2, bound);
    let end = p + 2 + lt.len() + 1;
    assert(p_word(ts, p) == Ok::<(Seq<char>, int), Seq<char>>(("and"@, p + 1)));
    assert(p_bterm_inner(ts, p, d + 1, bound) == Ok::<(BTermV, int), Seq<char>>(
        (BTermV::And(bs), end),
    ));
}

#[verifier::spinoff_prover]
#[verifier::rlimit(100)]
proof fn lemma_parse_or(t: BTermV, d: nat, ts: Seq<TokV>, p: int, bound: Set<Seq<char>>)
    requires
        t is Or,
        skeleton(t, d),
        names_ok(t, bound),
        toks_at(ts, p, term_toks(t)),
    ensures
        p_bterm(ts, p, d, bound) == Ok::<(BTermV, int), Seq<char>>((t, p + term_toks(t).len())),
    decreases t, 0nat,
{
    lemma_keywords_distinct();
    let bs = t->Or_0;
    let lt = list_toks(bs);
    assert(term_toks(t) =~= seq![TokV::Word("or"@), TokV::LParen] + (lt + seq![TokV::RParen]));
    lemma_parse_open(ts, p, "or"@, lt + seq![TokV::RParen]);
    lemma_parse_list(bs, d + 1, ts, p + 2, bound);
    let end = p + 2 + lt.len() + 1;
    assert(p_word(ts, p) == Ok::<(Seq<char>, int), Seq<char>>(("or"@, p + 1)));
    assert(p_bterm_inner(ts, p, d + 1, bound) == Ok::<(BTermV, int), Seq<char>>(
        (BTermV::Or(bs), end),
    ));
}

#[verifier::spinoff_prover]
proof fn lemma_inner_thresh(ts: Seq<TokV>, p: int, e: nat, bound: Set<Seq<char>>, k: i128)
    requires
        p_word(ts, p) == Ok::<(Seq<char>, int), Seq<char>>(("thresh"@, p + 1)),
        p_expect(ts, p + 1, TokV::LParen) == Ok::<int, Seq<char>>(p + 2),
        p_num(ts, p + 2) == Ok::<(i128, int), Seq<char>>((k, p + 3)),
        p_expect(ts, p + 3, TokV::Comma) == Ok::<int, Seq<char>>(p + 4),
    ensures
        p_bterm_inner(ts, p, e, bound) == match p_bterm_list(ts, p + 4, e, bound) {
            Err(m) => Err(m),
            Ok((bs, q)) => Ok::<(BTermV, int), Seq<char>>((BTermV::Thresh(count_of(k), bs), q)),
        },
{
    lemma_keywords_distinct();
}

#[verifier::spinoff_prover]
proof fn lemma_inner_if(ts: Seq<TokV>, p: int, e: nat, bound: Set<Seq<char>>)
    requires
        p_word(ts, p) == Ok::<(Seq<char>, int), Seq<char>>(("if"@, p + 1)),
        p_expect(ts, p + 1, TokV::LParen) == Ok::<int, Seq<char>>(p + 2),
    ensures
        p_bterm_inner(ts, p, e, bound) == p_if(ts, p + 2, e, bound),
{
    lemma_keywords_distinct();
}

#[verifier::spinoff_prover]
#[verifier::rlimit(100)]
proof fn lemma_parse_thresh(t: BTermV, d: nat, ts: Seq<TokV>, p: int, bound: Set<Seq<char>>)
    requires
        t is Thresh,
        skeleton(t, d),
        names_ok(t, bound),
        toks_at(ts, p, term_toks(t)),
    ensures
        p_bterm(ts, p, d, bound) == Ok::<(BTermV, int), Seq<char>>((t, p + term_toks(t).len())),
    decreases t, 0nat,
{
    lemma_keywords_distinct();
    match t {
        BTermV::Thresh(k, bs) => {
            let lt = list_toks(bs);
            let x = seq![TokV::Num(k as i128), TokV::Comma] + (lt + seq![TokV::RParen]);
            assert(term_toks(t) =~= seq![TokV::Word("thresh"@), TokV::LParen] + x);
            lemma_parse_open(ts, p, "thresh"@, x);
            lemma_toks_at_split(ts, p + 2, seq![TokV::Num(k as i128), TokV::Comma], lt + seq![TokV::RParen]);
            assert(seq![TokV::Num(k as i128)] + seq![TokV::Comma] =~= seq![TokV::Num(k as i128), TokV::Comma]);
            lemma_toks_at_split(ts, p + 2, seq![TokV::Num(k as i128)], seq![TokV::Comma]);
            lemma_toks_at_one(ts, p + 2, TokV::Num(k as i128));
            lemma_toks_at_one(ts, p + 3, TokV::Comma);
            lemma_parse_list(bs, d + 1, ts, p + 4, bound);
            let end = p + 4 + lt.len() + 1;
            assert(((k as i128) as usize) == k);
            assert(p_num(ts, p + 2) == Ok::<(i128, int), Seq<char>>((k as i128, p + 3)));
            lemma_inner_thresh(ts, p, d + 1, bound, k as i128);
            assert(count_of(k as i128) == k);
            assert(p_bterm_inner(ts, p, d + 1, bound) == Ok::<(BTermV, int), Seq<char>>(
                (BTermV::Thresh(k, bs), end),
            ));
        },
        _ => {},
    }
}

#[verifier::spinoff_prover]
#[verifier::rlimit(50)]
proof fn lemma_parse_not(t: BTermV, d: nat, ts: Seq<TokV>, p: int, bound: Set<Seq<char>>)
    requires
        t is Not,
        skeleton(t, d),
        names_ok(t, bound),
        toks_at(ts, p, term_toks(t)),
    ensures
        p_bterm(ts, p, d, bound) == Ok::<(BTermV, int), Seq<char>>((t, p + term_toks(t).len())),
    decreases t, 0nat,
{
    lemma_keywords_distinct();
    match t {
        BTermV::Not(b) => {
            let tb = term_toks(*b);
            assert(term_toks(t) =~= seq![TokV::Word("not"@), TokV::LParen] + (tb + seq![TokV::RParen]));
            lemma_parse_open(ts, p, "not"@, tb + seq![TokV::RParen]);
            lemma_toks_at_split(ts, p + 2, tb, seq![TokV::RParen]);
            lemma_parse_term(*b, d + 1, ts, p + 2, bound);
            lemma_toks_at_one(ts, p + 2 + tb.len(), TokV::RParen);
        },
        _ => {},
    }
}

#[verifier::spinoff_prover]
#[verifier::rlimit(100)]
proof fn lemma_parse_if(t: BTermV, d: nat, ts: Seq<TokV>, p: int, bound: Set<Seq<char>>)
    requires
        t is If,
        skeleton(t, d),
        names_ok(t, bound),
        toks_at(ts, p, term_toks(t)),
    ensures
        p_bterm(ts, p, d, bound) == Ok::<(BTermV, int), Seq<char>>((t, p + term_toks(t).len())),
    decreases t, 0nat,
{
    let c = *t->If_0;
    let t1 = *t->If_1;
    let e = *t->If_2;
    assert(skeleton(c, d + 1) && skeleton(t1, d + 1) && skeleton(e, d + 1));
    assert(names_ok(c, bound) && names_ok(t1, bound) && names_ok(e, bound));
    let tc = term_toks(c);
    let tt = term_toks(t1);
    let te = term_toks(e);
    let cm = seq![TokV::Comma];
    let rp = seq![TokV::RParen];
    let x = tc + (cm + (tt + (cm + (te + rp))));
    assert(term_toks(t) =~= seq![TokV::Word("if"@), TokV::LParen] + x);
    lemma_parse_open(ts, p, "if"@, x);
    let p1 = p + 2;
    lemma_toks_at_split(ts, p1, tc, cm + (tt + (cm + (te + rp))));
    let p2 = p1 + tc.len();
    lemma_toks_at_split(ts, p2, cm, tt + (cm + (te + rp)));
    lemma_toks_at_split(ts, p2 + 1, tt, cm + (te + rp));
    let p3 = p2 + 1 + tt.len();
    lemma_toks_at_split(ts, p3, cm, te + rp);
    lemma_toks_at_split(ts, p3 + 1, te, rp);
    let p4 = p3 + 1 + te.len();
    assert(parses(ts, p1, d + 1, bound, c, p2)) by {
        reveal(parses);
        lemma_parse_term(c, d + 1, ts, p1, bound);
    }
    lemma_toks_at_one(ts, p2, TokV::Comma);
    assert(parses(ts, p2 + 1, d + 1, bound, t1, p3)) by {
        reveal(parses);
        lemma_parse_term(t1, d + 1, ts, p2 + 1, bound);
    }
    lemma_toks_at_one(ts, p3, TokV::Comma);
    assert(parses(ts, p3 + 1, d + 1, bound, e, p4)) by {
        reveal(parses);
        lemma_parse_term(e, d + 1, ts, p3 + 1, bound);
    }
    lemma_toks_at_one(ts, p4, TokV::RParen);
    lemma_if_reads(ts, p1, d + 1, bound, c, t1, e, p2, p3, p4);
    assert(t == BTermV::If(Box::new(c), Box::new(t1), Box::new(e)));
    lemma_inner_if(ts, p, d + 1, bound);
}

proof fn lemma_if_reads(
    ts: Seq<TokV>,
    p1: int,
    e: nat,
    bound: Set<Seq<char>>,
    c: BTermV,
    t1: BTermV,
    f: BTermV,
    p2: int,
    p3: int,
    p4: int,
)
    requires
        parses(ts, p1, e, bound, c, p2),
        p_expect(ts, p2, TokV::Comma) == Ok::<int, Seq<char>>(p2 + 1),
        parses(ts, p2 + 1, e, bound, t1, p3),
        p_expect(ts, p3, TokV::Comma) == Ok::<int, Seq<char>>(p3 + 1),
        parses(ts, p3 + 1, e, bound, f, p4),
        p_expect(ts, p4, TokV::RParen) == Ok::<int, Seq<char>>(p4 + 1),
    ensures
        p_if(ts, p1, e, bound) == Ok::<(BTermV, int), Seq<char>>(
            (BTermV::If(Box::new(c), Box::new(t1), Box::new(f)), p4 + 1),
        ),
{
    reveal(parses);
}

/// The term reader, at depth `e`, reads `t` from position `p` and stops at `q`.
#[verifier::opaque]
pub open spec fn parses(ts: Seq<TokV>, p: int, e: nat, bound: Set<Seq<char>>, t: BTermV, q: int) -> bool {
    p_bterm(ts, p, e, bound) == Ok::<(BTermV, int), Seq<char>>((t, q))
}

/// A parenthesized list of skeleton terms, after its `(`, parses back to the list.
#[verifier::spinoff_prover]
proof fn lemma_parse_list(bs: Seq<BTermV>, e: nat, ts: Seq<TokV>, p: int, bound: Set<Seq<char>>)
    requires
        skeletons(bs, e),
        names_oks(bs, bound),
        toks_at(ts, p, list_toks(bs) + seq![TokV::RParen]),
    ensures
        p_bterm_list(ts, p, e, bound) == Ok::<(Seq<BTermV>, int), Seq<char>>(
            (bs, p + list_toks(bs).len() + 1),
        ),
    decreases bs, 2nat,
{
    if bs.len() == 0 {
        assert(list_toks(bs) + seq![TokV::RParen] =~= seq![TokV::RParen]);
        lemma_toks_at_one(ts, p, TokV::RParen);
        assert(list_toks(bs).len() == 0);
        assert(p_bterm_list(ts, p, e, bound) == Ok::<(Seq<BTermV>, int), Seq<char>>(
            (Seq::empty(), p + 1),
        ));
        assert(bs =~= Seq::<BTermV>::empty());
    } else {
        lemma_list_toks_head(bs, e);
        let x = list_toks(bs) + seq![TokV::RParen];
        assert(x[0] == list_toks(bs)[0]);
        assert(ts.subrange(p, p + x.len())[0] == ts[p]);
        assert(ts[p] is Word);
        assert(tok_at(ts, p) != Some(TokV::RParen));
        lemma_parse_items(bs, e, ts, p, bound);
        assert(p_bterm_list(ts, p, e, bound) == p_bterm_items(ts, p, e, bound));
    }
}

#[verifier::spinoff_prover]
proof fn lemma_parse_items(bs: Seq<BTermV>, e: nat, ts: Seq<TokV>, p: int, bound: Set<Seq<char>>)
    requires
        skeletons(bs, e),
        names_oks(bs, bound),
        bs.len() >= 1,
        toks_at(ts, p, list_toks(bs) + seq![TokV::RParen]),
    ensures
        p_bterm_items(ts, p, e, bound) == Ok::<(Seq<BTermV>, int), Seq<char>>(
            (bs, p + list_toks(bs).len() + 1),
        ),
    decreases bs, 1nat,
{
    let t0 = term_toks(bs[0]);
    lemma_term_toks_head(bs[0], e);
    if bs.len() == 1 {
        lemma_toks_at_split(ts, p, t0, seq![TokV::RParen]);
        lemma_parse_term(bs[0], e, ts, p, bound);
        lemma_toks_at_one(ts, p + t0.len(), TokV::RParen);
        assert(seq![bs[0]] =~= bs);
    } else {
        let rest = bs.drop_first();
        let lr = list_toks(rest);
        assert(list_toks(bs) + seq![TokV::RParen] =~= t0 + (seq![TokV::Comma] + (lr + seq![TokV::RParen])));
        lemma_toks_at_split(ts, p, t0, seq![TokV::Comma] + (lr + seq![TokV::RParen]));
        lemma_toks_at_split(ts, p + t0.len(), seq![TokV::Comma], lr + seq![TokV::RParen]);
        lemma_parse_term(bs[0], e, ts, p, bound);
        lemma_toks_at_one(ts, p + t0.len(), TokV::Comma);
        lemma_parse_items(rest, e, ts, p + t0.len() + 1, bound);
        assert(seq![bs[0]] + rest =~= bs);
    }
}

// ---------------------------------------------------------------------------------------------
// The law
// ---------------------------------------------------------------------------------------------

/// Source round trip without constants: the printed form of a descriptor without constants whose
/// body is a [`skeleton`] term within the nesting limit, with key literals only (a letter, then
/// letters, digits and underscores) where a value term names a key, parses back to that
/// descriptor.
pub proof fn lemma_skeleton_source_round_trip(t: BTermV)
    requires
        skeleton(t, 0),
        names_ok(t, Set::empty()),
    ensures
        parse_spec(show_descriptor(DescriptorV { constants: Seq::empty(), body: t })) == Ok::<
            (Seq<(Seq<char>, ValueV)>, BTermV),
            Seq<char>,
        >((Seq::empty(), t)),
{
    let d = DescriptorV { constants: Seq::empty(), body: t };
    let src = show_descriptor(d);
    assert(src == show_term(t));
    let b = encode_utf8(show_term(t));
    assert(b + Seq::<u8>::empty() =~= b);
    lemma_lex_term(t, 0, Seq::empty());
    let ts = term_toks(t);
    assert(ts + Seq::<TokV>::empty() =~= ts);
    assert(lex_spec(src) == Ok::<Seq<TokV>, Seq<char>>(ts));
    lemma_term_toks_head(t, 0);
    assert(toks_at(ts, 0, ts)) by {
        assert(ts.subrange(0, ts.len() as int) =~= ts);
    }
    lemma_parse_term(t, 0, ts, 0, Set::empty());
    assert(tok_at(ts, 0) == Some(ts[0]));
    assert(p_with_or_bare(ts, 0) == Ok::<((Seq<(Seq<char>, ValueV)>, BTermV), int), Seq<char>>(
        ((Seq::empty(), t), ts.len() as int),
    ));
}

/// The bytes of a key: word bytes, the first a letter, read back as the key.
proof fn lemma_key_bytes(k: Seq<char>)
    requires
        is_key_text(k),
    ensures
        encode_utf8(k).len() == k.len(),
        forall|i: int| 0 <= i < k.len() ==> is_word_byte(#[trigger] encode_utf8(k)[i]),
        !is_digit(encode_utf8(k)[0]),
        ascii_text(encode_utf8(k)) == k,
{
    assert(is_ascii_chars(k));
    is_ascii_chars_encode_utf8(k);
    let e = encode_utf8(k);
    assert forall|i: int| 0 <= i < k.len() implies is_word_byte(#[trigger] e[i]) by {
        assert(k[i] as u8 == e[i]);
    }
    assert(k[0] as u8 == e[0]);
    assert forall|i: int| 0 <= i < k.len() implies #[trigger] ascii_text(e)[i] == k[i] by {
        assert(k[i] as u8 == e[i]);
    }
    assert(ascii_text(e) =~= k);
}

// ---------------------------------------------------------------------------------------------
// State predicates over integer literals
// ---------------------------------------------------------------------------------------------

/// What the reader needs of a state predicate's name: a name token, distinct from every other
/// word the term reader dispatches on, that looks the predicate up.
pub proof fn lemma_state_pred_facts(pr: StatePred)
    ensures
        is_name_text(pr.spec_name()),
        StatePred::spec_from_name(pr.spec_name()) == Some(pr),
        comparison_named(pr.spec_name()) is None,
        !is_obligation_name(pr.spec_name()),
        pr.spec_name() != "true"@ && pr.spec_name() != "false"@ && pr.spec_name() != "and"@,
        pr.spec_name() != "or"@ && pr.spec_name() != "thresh"@ && pr.spec_name() != "not"@,
        pr.spec_name() != "if"@ && pr.spec_name() != "match"@ && pr.spec_name() != "cmp"@,
        pr.spec_name() != "prove"@ && pr.spec_name() != "wsh"@ && pr.spec_name() != "with"@,
{
    reveal_strlit("older");
    reveal_strlit("after");
    reveal_strlit("amount_at_most");
    reveal_strlit("amount_in_range");
    reveal_strlit("amount_at_most_pct");
    reveal_strlit("destination_is");
    reveal_strlit("destination_in");
    reveal_strlit("balance_at_least");
    reveal_strlit("balance_at_most");
    reveal_strlit("blocks_since_activity_at_least");
    reveal_strlit("blocks_since_open_below");
    reveal_strlit("rolling_amount_below");
    reveal_strlit("rolling_amount_below_pct");
    reveal_strlit("subtree_at");
    reveal_strlit("blocks_since_open_at_least");
    reveal_strlit("blocks_since_received_at_least");
    reveal_strlit("true");
    reveal_strlit("false");
    reveal_strlit("and");
    reveal_strlit("or");
    reveal_strlit("thresh");
    reveal_strlit("not");
    reveal_strlit("if");
    reveal_strlit("match");
    reveal_strlit("cmp");
    reveal_strlit("prove");
    reveal_strlit("eq");
    reveal_strlit("lt");
    reveal_strlit("le");
    reveal_strlit("gt");
    reveal_strlit("ge");
    reveal_strlit("pk");
    reveal_strlit("pk_h");
    reveal_strlit("pk_any");
    reveal_strlit("multi");
    reveal_strlit("pk_threshold");
    reveal_strlit("hashlock");
    reveal_strlit("attest");
    reveal_strlit("wsh");
    reveal_strlit("with");
    assert("older"@.len() == 5);
    assert("after"@.len() == 5);
    assert("amount_at_most"@.len() == 14);
    assert("amount_in_range"@.len() == 15);
    assert("amount_at_most_pct"@.len() == 18);
    assert("destination_is"@.len() == 14);
    assert("destination_in"@.len() == 14);
    assert("balance_at_least"@.len() == 16);
    assert("balance_at_most"@.len() == 15);
    assert("blocks_since_activity_at_least"@.len() == 30);
    assert("blocks_since_open_below"@.len() == 23);
    assert("rolling_amount_below"@.len() == 20);
    assert("rolling_amount_below_pct"@.len() == 24);
    assert("subtree_at"@.len() == 10);
    assert("blocks_since_open_at_least"@.len() == 26);
    assert("blocks_since_received_at_least"@.len() == 30);
    assert("true"@.len() == 4);
    assert("false"@.len() == 5);
    assert("and"@.len() == 3);
    assert("or"@.len() == 2);
    assert("thresh"@.len() == 6);
    assert("not"@.len() == 3);
    assert("if"@.len() == 2);
    assert("match"@.len() == 5);
    assert("cmp"@.len() == 3);
    assert("prove"@.len() == 5);
    assert("eq"@.len() == 2);
    assert("lt"@.len() == 2);
    assert("le"@.len() == 2);
    assert("gt"@.len() == 2);
    assert("ge"@.len() == 2);
    assert("pk"@.len() == 2);
    assert("pk_h"@.len() == 4);
    assert("pk_any"@.len() == 6);
    assert("multi"@.len() == 5);
    assert("pk_threshold"@.len() == 12);
    assert("hashlock"@.len() == 8);
    assert("attest"@.len() == 6);
    assert("wsh"@.len() == 3);
    assert("with"@.len() == 4);
    assert("older"@[0] != "after"@[0]);
    assert("older"@[0] != "false"@[0]);
    assert("older"@[0] != "match"@[0]);
    assert("older"@[0] != "prove"@[0]);
    assert("older"@[0] != "multi"@[0]);
    assert("after"@[0] != "false"@[0]);
    assert("after"@[0] != "match"@[0]);
    assert("after"@[0] != "prove"@[0]);
    assert("after"@[0] != "multi"@[0]);
    assert("amount_at_most"@[0] != "destination_is"@[0]);
    assert("amount_at_most"@[0] != "destination_in"@[0]);
    assert("amount_in_range"@[0] != "balance_at_most"@[0]);
    assert("destination_is"@[13] != "destination_in"@[13]);
    assert("blocks_since_activity_at_least"@[13] != "blocks_since_received_at_least"@[13]);
}

/// The printed form of an integer reads as its number token.
#[verifier::spinoff_prover]
proof fn lemma_lex_int(n: i128, rest: Seq<u8>)
    requires
        word_stop(rest),
    ensures
        lex_from(encode_utf8(int_text(n as int)) + rest, 0) == prepend(TokV::Num(n), lex_from(rest, 0)),
{
    if n >= 0 {
        lemma_nat_text_bytes(n as nat);
        lemma_lex_digits(encode_utf8(nat_text(n as nat)), rest);
    } else {
        let m: nat = (-n) as nat;
        lemma_nat_text_bytes(m);
        let db = encode_utf8(nat_text(m));
        reveal_strlit("-");
        is_ascii_chars_encode_utf8("-"@);
        assert(encode_utf8("-"@) =~= seq![45u8]);
        lemma_encode_utf8_concat("-"@, nat_text(m));
        let b = seq![45u8] + (db + rest);
        assert(encode_utf8(int_text(n as int)) + rest =~= b);
        assert(b[0] == 45u8);
        assert(b[1] == db[0]);
        lemma_run_end_digits(db, rest, 0);
        lemma_run_end_shift(seq![45u8], db + rest, 0, false);
        let j: int = 1 + db.len() as int;
        assert(run_end(b, 1, false) == j);
        assert(b.subrange(1, j) =~= db);
        assert(integer_of(true, db) == Some(n));
        lemma_lex_after(seq![45u8] + db, rest);
        assert(b =~= (seq![45u8] + db) + rest);
    }
}

proof fn lemma_run_end_digits(w: Seq<u8>, c: Seq<u8>, i: int)
    requires
        0 <= i <= w.len(),
        forall|k: int| 0 <= k < w.len() ==> is_digit(#[trigger] w[k]),
        word_stop(c),
    ensures
        run_end(w + c, i, false) == w.len(),
    decreases w.len() - i,
{
    let x = w + c;
    if i < w.len() {
        assert(x[i] == w[i]);
        lemma_run_end_digits(w, c, i + 1);
    } else if c.len() > 0 {
        assert(x[i] == c[0]);
    }
}

proof fn lemma_show_vterms_cons(s: Seq<VTermV>)
    requires
        s.len() >= 2,
    ensures
        show_vterms(s) == show_vterm(s[0]) + ", "@ + show_vterms(s.drop_first()),
    decreases s.len(),
{
    let init = s.drop_last();
    let tail = s.drop_first();
    if s.len() == 2 {
        assert(init.len() == 1 && init[0] == s[0]);
        assert(tail.len() == 1 && tail[0] == s[1]);
        assert(show_vterms(init) == show_vterm(s[0]));
        assert(show_vterms(tail) == show_vterm(s[1]));
    } else {
        lemma_show_vterms_cons(init);
        assert(init.drop_first() =~= tail.drop_last());
        assert(init[0] == s[0]);
        assert(tail.last() == s.last());
        assert(show_vterms(tail) == show_vterms(tail.drop_last()) + ", "@ + show_vterm(tail.last()));
        assert(show_vterms(s) =~= show_vterm(s[0]) + ", "@ + show_vterms(tail));
    }
}

#[verifier::spinoff_prover]
proof fn lemma_lex_state(t: BTermV, d: nat, rest: Seq<u8>)
    requires
        t is State,
        skeleton(t, d),
        word_stop(rest),
    ensures
        lex_from(encode_utf8(show_term(t)) + rest, 0) == glue(term_toks(t), lex_from(rest, 0)),
    decreases t, 0nat,
{
    lemma_punct_bytes();
    match t {
        BTermV::State(pr, args) => {
            let w = pr.spec_name();
            lemma_state_pred_facts(pr);
            let open = w + "("@;
            let y = show_vterms(args);
            assert(show_term(t) == open + y + ")"@);
            lemma_encode_utf8_concat(open + y, ")"@);
            lemma_encode_utf8_concat(open, y);
            let r1 = encode_utf8(")"@) + rest;
            assert(encode_utf8(show_term(t)) + rest =~= encode_utf8(open) + (encode_utf8(y) + r1));
            lemma_lex_open(w, encode_utf8(y) + r1);
            lemma_lex_vterms(args, d + 1, r1);
            lemma_lex_close(rest);
            let rr = lex_from(rest, 0);
            lemma_prepend_glue(TokV::RParen, rr);
            lemma_glue_glue(vterms_toks(args), seq![TokV::RParen], rr);
            lemma_glue_glue(seq![TokV::Word(w), TokV::LParen], vterms_toks(args) + seq![TokV::RParen], rr);
            assert(seq![TokV::Word(w), TokV::LParen] + (vterms_toks(args) + seq![TokV::RParen]) =~= term_toks(t));
        },
        _ => {},
    }
}

#[verifier::spinoff_prover]
proof fn lemma_inner_state(ts: Seq<TokV>, p: int, e: nat, bound: Set<Seq<char>>, pr: StatePred)
    requires
        p_word(ts, p) == Ok::<(Seq<char>, int), Seq<char>>((pr.spec_name(), p + 1)),
        p_expect(ts, p + 1, TokV::LParen) == Ok::<int, Seq<char>>(p + 2),
    ensures
        p_bterm_inner(ts, p, e, bound) == match p_vterm_list(ts, p + 2, e, bound) {
            Err(m) => Err(m),
            Ok((args, q)) => Ok::<(BTermV, int), Seq<char>>((BTermV::State(pr, args), q)),
        },
{
    lemma_state_pred_facts(pr);
}

#[verifier::spinoff_prover]
proof fn lemma_parse_state(t: BTermV, d: nat, ts: Seq<TokV>, p: int, bound: Set<Seq<char>>)
    requires
        t is State,
        skeleton(t, d),
        names_ok(t, bound),
        toks_at(ts, p, term_toks(t)),
    ensures
        p_bterm(ts, p, d, bound) == Ok::<(BTermV, int), Seq<char>>((t, p + term_toks(t).len())),
    decreases t, 0nat,
{
    match t {
        BTermV::State(pr, args) => {
            let w = pr.spec_name();
            let lt = vterms_toks(args);
            assert(term_toks(t) =~= seq![TokV::Word(w), TokV::LParen] + (lt + seq![TokV::RParen]));
            lemma_parse_open(ts, p, w, lt + seq![TokV::RParen]);
            lemma_parse_vterms(args, d + 1, ts, p + 2, bound);
            lemma_inner_state(ts, p, d + 1, bound, pr);
        },
        _ => {},
    }
}

// ---------------------------------------------------------------------------------------------
// Constants
// ---------------------------------------------------------------------------------------------

/// A constant name the printer writes and the reader reads back: a lower-case letter, then
/// lower-case letters, digits and underscores, and not `in`.
pub open spec fn is_const_name(n: Seq<char>) -> bool {
    &&& n.len() > 0
    &&& 'a' <= n[0] <= 'z'
    &&& forall|i: int| 0 <= i < n.len() ==> ('a' <= #[trigger] n[i] <= 'z' || '0' <= n[i] <= '9' || n[i] == '_')
    &&& n != "in"@
}

/// A constant value the printer writes and the reader reads back: a key literal, an integer,
/// or a list of those.
pub open spec fn const_value(v: ValueV) -> bool {
    match v {
        ValueV::Key(k) => is_key_text(k),
        ValueV::Int(_) => true,
        ValueV::List(items) => atoms(items),
        _ => false,
    }
}

/// The tokens a printed constant value reads as.
pub open spec fn const_val_toks(v: ValueV) -> Seq<TokV> {
    match v {
        ValueV::List(items) => seq![TokV::LBracket] + atom_toks(items) + seq![TokV::RBracket],
        _ => seq![value_tok(v)],
    }
}

/// Constants of printable names and values.
pub open spec fn consts_ok(c: Seq<(Seq<char>, ValueV)>) -> bool {
    forall|i: int| 0 <= i < c.len() ==> is_const_name(#[trigger] c[i].0) && const_value(c[i].1)
}

/// The token a one-token literal reads as.
pub open spec fn value_tok(v: ValueV) -> TokV {
    match v {
        ValueV::Key(k) => TokV::Word(k),
        ValueV::Int(n) => TokV::Num(n),
        _ => TokV::Comma,
    }
}

/// The tokens of printed constants: each `name = value,`.
pub open spec fn const_toks(c: Seq<(Seq<char>, ValueV)>) -> Seq<TokV>
    decreases c.len(),
{
    if c.len() == 0 {
        Seq::empty()
    } else {
        seq![TokV::Word(c[0].0), TokV::Eq] + const_val_toks(c[0].1) + seq![TokV::Comma] + const_toks(
            c.drop_first(),
        )
    }
}

proof fn lemma_show_constants_cons(c: Seq<(Seq<char>, ValueV)>)
    requires
        c.len() >= 1,
    ensures
        show_constants(c) == c[0].0 + " = "@ + show_value(c[0].1) + ", "@ + show_constants(c.drop_first()),
    decreases c.len(),
{
    let init = c.drop_last();
    if c.len() == 1 {
        assert(init =~= Seq::<(Seq<char>, ValueV)>::empty());
        assert(c.drop_first() =~= Seq::<(Seq<char>, ValueV)>::empty());
        assert(show_constants(init) == Seq::<char>::empty());
        assert(show_constants(c.drop_first()) == Seq::<char>::empty());
        assert(c.last() == c[0]);
        assert(show_constants(c) =~= c[0].0 + " = "@ + show_value(c[0].1) + ", "@ + show_constants(
            c.drop_first(),
        ));
    } else {
        lemma_show_constants_cons(init);
        assert(init.drop_first() =~= c.drop_first().drop_last());
        assert(init[0] == c[0]);
        assert(c.drop_first().last() == c.last());
        assert(show_constants(c) =~= c[0].0 + " = "@ + show_value(c[0].1) + ", "@ + show_constants(
            c.drop_first(),
        ));
    }
}

proof fn lemma_const_name_key(n: Seq<char>)
    requires
        is_const_name(n),
    ensures
        is_key_text(n),
        canonical_name(encode_utf8(n)),
{
    assert(is_ascii_chars(n));
    is_ascii_chars_encode_utf8(n);
    let e = encode_utf8(n);
    assert(n[0] as u8 == e[0]);
    assert forall|i: int| 1 <= i < e.len() implies (#[trigger] e[i] == 95 || (97 <= e[i] <= 122) || (48
        <= e[i] <= 57)) by {
        assert(n[i] as u8 == e[i]);
    }
}

/// A one-token literal's printed form reads as its token.
#[verifier::spinoff_prover]
proof fn lemma_lex_value(v: ValueV, rest: Seq<u8>)
    requires
        atom_value(v),
        word_stop(rest),
    ensures
        lex_from(encode_utf8(show_value(v)) + rest, 0) == prepend(value_tok(v), lex_from(rest, 0)),
{
    match v {
        ValueV::Key(k) => {
            lemma_key_bytes(k);
            lemma_lex_word(encode_utf8(k), rest);
        },
        ValueV::Int(n) => {
            lemma_lex_int(n, rest);
        },
        _ => {},
    }
}

/// A constant value's printed form reads as its tokens.
#[verifier::spinoff_prover]
proof fn lemma_lex_const_value(v: ValueV, rest: Seq<u8>)
    requires
        const_value(v),
        word_stop(rest),
    ensures
        lex_from(encode_utf8(show_value(v)) + rest, 0) == glue(const_val_toks(v), lex_from(rest, 0)),
{
    let rr = lex_from(rest, 0);
    match v {
        ValueV::List(items) => {
            lemma_bracket_bytes();
            let y = show_values(items);
            lemma_encode_utf8_concat("["@ + y, "]"@);
            lemma_encode_utf8_concat("["@, y);
            let r1 = seq![93u8] + rest;
            assert(encode_utf8(show_value(v)) + rest =~= seq![91u8] + (encode_utf8(y) + r1));
            lemma_lex_punct(91, encode_utf8(y) + r1);
            lemma_lex_atoms(items, r1);
            lemma_lex_punct(93, rest);
            let at = atom_toks(items);
            lemma_prepend_glue(TokV::RBracket, rr);
            lemma_glue_glue(at, seq![TokV::RBracket], rr);
            lemma_prepend_glue(TokV::LBracket, glue(at + seq![TokV::RBracket], rr));
            lemma_glue_glue(seq![TokV::LBracket], at + seq![TokV::RBracket], rr);
            assert(seq![TokV::LBracket] + (at + seq![TokV::RBracket]) =~= const_val_toks(v));
        },
        _ => {
            lemma_lex_value(v, rest);
            lemma_prepend_glue(value_tok(v), rr);
        },
    }
}

proof fn lemma_eq_bytes()
    ensures
        encode_utf8(" = "@) == seq![32u8, 61u8, 32u8],
        encode_utf8("in "@) == encode_utf8("in"@) + seq![32u8],
        is_name_text("in"@),
        is_name_text("with"@),
        "with("@ == "with"@ + "("@,
{
    reveal_strlit(" = ");
    reveal_strlit("in ");
    reveal_strlit("in");
    reveal_strlit("with");
    reveal_strlit("with(");
    reveal_strlit("(");
    is_ascii_chars_encode_utf8(" = "@);
    assert(encode_utf8(" = "@) =~= seq![32u8, 61u8, 32u8]);
    assert("in "@ =~= "in"@ + seq![' ']);
    lemma_encode_utf8_concat("in"@, seq![' ']);
    is_ascii_chars_encode_utf8(seq![' ']);
    assert(encode_utf8(seq![' ']) =~= seq![32u8]);
    assert("with("@ =~= "with"@ + "("@);
}

/// Printed constants read as their tokens.
#[verifier::spinoff_prover]
proof fn lemma_lex_constants(c: Seq<(Seq<char>, ValueV)>, rest: Seq<u8>)
    requires
        consts_ok(c),
    ensures
        lex_from(encode_utf8(show_constants(c)) + rest, 0) == glue(const_toks(c), lex_from(rest, 0)),
    decreases c.len(),
{
    if c.len() == 0 {
        assert(encode_utf8(show_constants(c)) + rest =~= rest);
        lemma_glue_empty(lex_from(rest, 0));
    } else {
        lemma_show_constants_cons(c);
        lemma_eq_bytes();
        lemma_punct_bytes();
        let (n, v) = c[0];
        assert(is_const_name(c[0].0) && const_value(c[0].1));
        lemma_const_name_key(n);
        lemma_key_bytes(n);
        let tail = c.drop_first();
        assert(consts_ok(tail)) by {
            assert forall|i: int| 0 <= i < tail.len() implies is_const_name(#[trigger] tail[i].0)
                && const_value(tail[i].1) by {
                assert(tail[i] == c[i + 1]);
            }
        }
        let sv = show_value(v);
        let sc = show_constants(tail);
        lemma_encode_utf8_concat(n + " = "@ + sv + ", "@, sc);
        lemma_encode_utf8_concat(n + " = "@ + sv, ", "@);
        lemma_encode_utf8_concat(n + " = "@, sv);
        lemma_encode_utf8_concat(n, " = "@);
        let r1 = encode_utf8(sc) + rest;
        let r2 = encode_utf8(", "@) + r1;
        let r3 = encode_utf8(sv) + r2;
        let nb = encode_utf8(n);
        assert(encode_utf8(show_constants(c)) + rest =~= nb + (seq![32u8] + (seq![61u8] + (seq![32u8]
            + r3))));
        lemma_lex_word(nb, seq![32u8] + (seq![61u8] + (seq![32u8] + r3)));
        lemma_lex_space(seq![61u8] + (seq![32u8] + r3));
        lemma_lex_punct(61, seq![32u8] + r3);
        lemma_lex_space(r3);
        lemma_lex_const_value(v, r2);
        lemma_lex_sep(r1);
        lemma_lex_constants(tail, rest);
        let rr = lex_from(rest, 0);
        let ct = const_toks(tail);
        let cv = const_val_toks(v);
        lemma_prepend_glue(TokV::Comma, glue(ct, rr));
        lemma_glue_glue(seq![TokV::Comma], ct, rr);
        lemma_glue_glue(cv, seq![TokV::Comma] + ct, rr);
        lemma_prepend_glue(TokV::Eq, glue(cv + (seq![TokV::Comma] + ct), rr));
        lemma_glue_glue(seq![TokV::Eq], cv + (seq![TokV::Comma] + ct), rr);
        lemma_prepend_glue(TokV::Word(n), glue(seq![TokV::Eq] + (cv + (seq![TokV::Comma] + ct)), rr));
        lemma_glue_glue(seq![TokV::Word(n)], seq![TokV::Eq] + (cv + (seq![TokV::Comma] + ct)), rr);
        assert(seq![TokV::Word(n)] + (seq![TokV::Eq] + (cv + (seq![TokV::Comma] + ct))) =~= const_toks(c));
    }
}

/// Printed constants, through the `in`, read back as the constants.
#[verifier::spinoff_prover]
proof fn lemma_parse_constants(c: Seq<(Seq<char>, ValueV)>, ts: Seq<TokV>, p: int, acc: Seq<(Seq<char>, ValueV)>)
    requires
        consts_ok(c),
        toks_at(ts, p, const_toks(c) + seq![TokV::Word("in"@)]),
    ensures
        p_constants(ts, p, acc) == Ok::<(Seq<(Seq<char>, ValueV)>, int), Seq<char>>(
            (acc + c, p + const_toks(c).len() + 1),
        ),
    decreases c.len(),
{
    if c.len() == 0 {
        assert(const_toks(c) + seq![TokV::Word("in"@)] =~= seq![TokV::Word("in"@)]);
        lemma_toks_at_one(ts, p, TokV::Word("in"@));
        assert(acc + c =~= acc);
    } else {
        let (n, v) = c[0];
        assert(is_const_name(c[0].0) && const_value(c[0].1));
        lemma_const_name_key(n);
        let tail = c.drop_first();
        assert(consts_ok(tail)) by {
            assert forall|i: int| 0 <= i < tail.len() implies is_const_name(#[trigger] tail[i].0)
                && const_value(tail[i].1) by {
                assert(tail[i] == c[i + 1]);
            }
        }
        let cv = const_val_toks(v);
        let l = cv.len() as int;
        let rest = const_toks(tail) + seq![TokV::Word("in"@)];
        assert(const_toks(c) + seq![TokV::Word("in"@)] =~= seq![TokV::Word(n)] + (seq![TokV::Eq] + (cv + (
        seq![TokV::Comma] + rest))));
        lemma_toks_at_split(ts, p, seq![TokV::Word(n)], seq![TokV::Eq] + (cv + (seq![TokV::Comma] + rest)));
        lemma_toks_at_split(ts, p + 1, seq![TokV::Eq], cv + (seq![TokV::Comma] + rest));
        lemma_toks_at_split(ts, p + 2, cv, seq![TokV::Comma] + rest);
        lemma_toks_at_split(ts, p + 2 + l, seq![TokV::Comma], rest);
        lemma_toks_at_one(ts, p, TokV::Word(n));
        lemma_toks_at_one(ts, p + 1, TokV::Eq);
        lemma_toks_at_one(ts, p + 2 + l, TokV::Comma);
        assert(TokV::Word(n) != TokV::Word("in"@));
        match v {
            ValueV::Key(k) => {
                lemma_toks_at_one(ts, p + 2, TokV::Word(k));
                assert(!has_hex_prefix(k));
                assert(p_hash(ts, p + 2, k) is None);
            },
            ValueV::List(items) => {
                lemma_parse_list_lit(items, 0, ts, p + 2);
            },
            _ => {
                lemma_toks_at_one(ts, p + 2, value_tok(v));
            },
        }
        assert(p_literal(ts, p + 2, 0) == Ok::<(ValueV, int), Seq<char>>((v, p + 2 + l)));
        lemma_parse_constants(tail, ts, p + 3 + l, acc.push((n, v)));
        assert(acc.push((n, v)) + tail =~= acc + c);
    }
}

/// The tokens of a printed `with(...)` descriptor.
pub open spec fn with_toks(c: Seq<(Seq<char>, ValueV)>, t: BTermV) -> Seq<TokV> {
    seq![TokV::Word("with"@), TokV::LParen] + (const_toks(c) + (seq![TokV::Word("in"@)] + (term_toks(t)
        + seq![TokV::RParen])))
}

#[verifier::spinoff_prover]
#[verifier::rlimit(60)]
proof fn lemma_lex_with(d: DescriptorV)
    requires
        d.constants.len() > 0,
        consts_ok(d.constants),
        skeleton(d.body, 0),
    ensures
        lex_spec(show_descriptor(d)) == Ok::<Seq<TokV>, Seq<char>>(with_toks(d.constants, d.body)),
{
    let c = d.constants;
    let t = d.body;
    lemma_eq_bytes();
    lemma_punct_bytes();
    lemma_name_bytes("in"@);
    let sc = show_constants(c);
    let st = show_term(t);
    let src = show_descriptor(d);
    assert(src == "with("@ + sc + "in "@ + st + ")"@);
    lemma_encode_utf8_concat("with("@ + sc + "in "@ + st, ")"@);
    lemma_encode_utf8_concat("with("@ + sc + "in "@, st);
    lemma_encode_utf8_concat("with("@ + sc, "in "@);
    lemma_encode_utf8_concat("with("@, sc);
    let ib = encode_utf8("in"@);
    let r4 = seq![41u8];
    let r3 = encode_utf8(st) + r4;
    let r2 = ib + (seq![32u8] + r3);
    let r1 = encode_utf8(sc) + r2;
    assert(encode_utf8(src) =~= encode_utf8("with"@ + "("@) + r1);
    lemma_lex_open("with"@, r1);
    lemma_lex_constants(c, r2);
    lemma_lex_word(ib, seq![32u8] + r3);
    lemma_lex_space(r3);
    lemma_lex_term(t, 0, r4);
    assert(r4 =~= seq![41u8] + Seq::<u8>::empty());
    lemma_lex_punct(41, Seq::<u8>::empty());
    let ct = const_toks(c);
    let tt = term_toks(t);
    let e: Result<Seq<TokV>, Seq<char>> = Ok(Seq::empty());
    assert(lex_from(Seq::<u8>::empty(), 0) == e);
    lemma_prepend_glue(TokV::RParen, e);
    lemma_glue_glue(tt, seq![TokV::RParen], e);
    lemma_prepend_glue(TokV::Word("in"@), glue(tt + seq![TokV::RParen], e));
    lemma_glue_glue(seq![TokV::Word("in"@)], tt + seq![TokV::RParen], e);
    lemma_glue_glue(ct, seq![TokV::Word("in"@)] + (tt + seq![TokV::RParen]), e);
    lemma_glue_glue(
        seq![TokV::Word("with"@), TokV::LParen],
        ct + (seq![TokV::Word("in"@)] + (tt + seq![TokV::RParen])),
        e,
    );
    let ts = with_toks(c, t);
    assert(ts + Seq::<TokV>::empty() =~= ts);
}

#[verifier::spinoff_prover]
proof fn lemma_with_frame(ts: Seq<TokV>, c: Seq<(Seq<char>, ValueV)>, t: BTermV, q: int, q2: int)
    requires
        tok_at(ts, 0) == Some(TokV::Word("with"@)),
        p_expect(ts, 1, TokV::LParen) == Ok::<int, Seq<char>>(2),
        p_constants(ts, 2, Seq::empty()) == Ok::<(Seq<(Seq<char>, ValueV)>, int), Seq<char>>((c, q)),
        p_bterm(ts, q, 0, bound_names(c)) == Ok::<(BTermV, int), Seq<char>>((t, q2)),
        p_expect(ts, q2, TokV::RParen) == Ok::<int, Seq<char>>(q2 + 1),
        q2 + 1 == ts.len(),
    ensures
        p_descriptor(ts) == Ok::<(Seq<(Seq<char>, ValueV)>, BTermV), Seq<char>>((c, t)),
{
    lemma_keywords_distinct();
    assert(p_with_or_bare(ts, 0) == Ok::<((Seq<(Seq<char>, ValueV)>, BTermV), int), Seq<char>>(
        ((c, t), ts.len() as int),
    ));
}

#[verifier::spinoff_prover]
#[verifier::rlimit(100)]
proof fn lemma_parse_with(c: Seq<(Seq<char>, ValueV)>, t: BTermV)
    requires
        consts_ok(c),
        skeleton(t, 0),
        names_ok(t, bound_names(c)),
    ensures
        p_descriptor(with_toks(c, t)) == Ok::<(Seq<(Seq<char>, ValueV)>, BTermV), Seq<char>>((c, t)),
{
    lemma_keywords_distinct();
    let ts = with_toks(c, t);
    let ct = const_toks(c);
    let tt = term_toks(t);
    assert(toks_at(ts, 0, ts)) by {
        assert(ts.subrange(0, ts.len() as int) =~= ts);
    }
    lemma_toks_at_split(ts, 0, seq![TokV::Word("with"@), TokV::LParen], ct + (seq![TokV::Word("in"@)] + (tt
        + seq![TokV::RParen])));
    assert(seq![TokV::Word("with"@)] + seq![TokV::LParen] =~= seq![TokV::Word("with"@), TokV::LParen]);
    lemma_toks_at_split(ts, 0, seq![TokV::Word("with"@)], seq![TokV::LParen]);
    lemma_toks_at_one(ts, 0, TokV::Word("with"@));
    lemma_toks_at_one(ts, 1, TokV::LParen);
    assert(ct + (seq![TokV::Word("in"@)] + (tt + seq![TokV::RParen])) =~= (ct + seq![TokV::Word("in"@)])
        + (tt + seq![TokV::RParen]));
    lemma_toks_at_split(ts, 2, ct + seq![TokV::Word("in"@)], tt + seq![TokV::RParen]);
    lemma_parse_constants(c, ts, 2, Seq::empty());
    assert(Seq::<(Seq<char>, ValueV)>::empty() + c =~= c);
    let q: int = 2 + ct.len() as int + 1;
    lemma_toks_at_split(ts, q, tt, seq![TokV::RParen]);
    lemma_parse_term(t, 0, ts, q, bound_names(c));
    lemma_toks_at_one(ts, q + tt.len(), TokV::RParen);
    assert(ts.len() == q + tt.len() + 1);
    lemma_with_frame(ts, c, t, q, q + tt.len());
}

/// Source round trip: the printed form of a descriptor whose constants are key literals, integers
/// and lists of those under lower-case names other than `in`, and whose body is a [`skeleton`]
/// term within the nesting limit that refers to the constants by name and to no key literal of a
/// constant's name, parses back to the descriptor: its constants, in order, and its body.
pub proof fn lemma_source_round_trip(d: DescriptorV)
    requires
        consts_ok(d.constants),
        skeleton(d.body, 0),
        names_ok(d.body, bound_names(d.constants)),
    ensures
        parse_spec(show_descriptor(d)) == Ok::<(Seq<(Seq<char>, ValueV)>, BTermV), Seq<char>>(
            (d.constants, d.body),
        ),
{
    let c = d.constants;
    let t = d.body;
    if c.len() == 0 {
        assert(bound_names(c) =~= Set::<Seq<char>>::empty());
        assert(c =~= Seq::<(Seq<char>, ValueV)>::empty());
        lemma_skeleton_source_round_trip(t);
        assert(d == DescriptorV { constants: Seq::empty(), body: t });
    } else {
        lemma_lex_with(d);
        lemma_parse_with(c, t);
    }
}

// ---------------------------------------------------------------------------------------------
// Value terms
// ---------------------------------------------------------------------------------------------

/// A literal that prints as one token: an integer or a key literal.
pub open spec fn atom_value(v: ValueV) -> bool {
    match v {
        ValueV::Int(_) => true,
        ValueV::Key(k) => is_key_text(k),
        _ => false,
    }
}

/// Literals that each print as one token.
pub open spec fn atoms(items: Seq<ValueV>) -> bool {
    forall|i: int| 0 <= i < items.len() ==> atom_value(#[trigger] items[i])
}

/// A value term whose printed form the value-term reader, started at depth `d`, reads back:
/// integers, key literals, lists of those, constant references, and value functions over such
/// terms (`operation_arg` over a symbol).
pub open spec fn vterm_ok(v: VTermV, d: nat) -> bool
    decreases v,
{
    d < MAX_DEPTH && match v {
        VTermV::Lit(ValueV::Int(_)) => true,
        VTermV::Lit(ValueV::Key(k)) => is_key_text(k),
        VTermV::Lit(ValueV::List(items)) => d + 2 < MAX_DEPTH && atoms(items),
        VTermV::Lit(_) => false,
        VTermV::Var(n) => is_key_text(n),
        VTermV::Op(f, args) => if f == ValueFn::OperationArg {
            args.len() == 1 && (args[0] matches VTermV::Lit(ValueV::Symbol(s)) && is_key_text(s))
        } else {
            vterms_ok(args, d + 1)
        },
    }
}

/// [`vterm_ok`] for each value term of a list.
pub open spec fn vterms_ok(s: Seq<VTermV>, d: nat) -> bool
    decreases s,
{
    if s.len() == 0 {
        true
    } else {
        vterm_ok(s[0], d) && vterms_ok(s.drop_first(), d)
    }
}

/// The words of a value term read back as what they were: key literals are not bound names,
/// and constant references are.
pub open spec fn names_okv(v: VTermV, bound: Set<Seq<char>>) -> bool
    decreases v,
{
    match v {
        VTermV::Lit(ValueV::Key(k)) => !bound.contains(k),
        VTermV::Var(n) => bound.contains(n),
        VTermV::Op(f, args) => f == ValueFn::OperationArg || names_oksv(args, bound),
        _ => true,
    }
}

/// [`names_okv`] for each value term of a list.
pub open spec fn names_oksv(s: Seq<VTermV>, bound: Set<Seq<char>>) -> bool
    decreases s,
{
    if s.len() == 0 {
        true
    } else {
        names_okv(s[0], bound) && names_oksv(s.drop_first(), bound)
    }
}

/// The tokens of literals separated by commas.
pub open spec fn atom_toks(items: Seq<ValueV>) -> Seq<TokV>
    decreases items.len(),
{
    if items.len() == 0 {
        Seq::empty()
    } else if items.len() == 1 {
        seq![value_tok(items[0])]
    } else {
        seq![value_tok(items[0]), TokV::Comma] + atom_toks(items.drop_first())
    }
}

/// The tokens a printed value term reads as.
pub open spec fn vterm_toks(v: VTermV) -> Seq<TokV>
    decreases v,
{
    match v {
        VTermV::Lit(ValueV::Int(n)) => seq![TokV::Num(n)],
        VTermV::Lit(ValueV::Key(k)) => seq![TokV::Word(k)],
        VTermV::Lit(ValueV::Symbol(s)) => seq![TokV::Word(s)],
        VTermV::Lit(ValueV::List(items)) => seq![TokV::LBracket] + atom_toks(items) + seq![TokV::RBracket],
        VTermV::Var(n) => seq![TokV::Word(n)],
        VTermV::Op(f, args) => seq![TokV::Word(f.spec_name()), TokV::LParen] + vterms_toks(args) + seq![
            TokV::RParen,
        ],
        _ => Seq::empty(),
    }
}

/// The tokens of printed value terms separated by commas.
pub open spec fn vterms_toks(s: Seq<VTermV>) -> Seq<TokV>
    decreases s,
{
    if s.len() == 0 {
        Seq::empty()
    } else if s.len() == 1 {
        vterm_toks(s[0])
    } else {
        vterm_toks(s[0]) + seq![TokV::Comma] + vterms_toks(s.drop_first())
    }
}

/// What the readers need of a value function's name: a name token that looks the function up and
/// starts no hash or byte literal.
pub proof fn lemma_value_fn_facts(f: ValueFn)
    ensures
        is_name_text(f.spec_name()),
        ValueFn::spec_from_name(f.spec_name()) == Some(f),
        hash_fn_named(f.spec_name()) is None,
        !has_hex_prefix(f.spec_name()),
{
    reveal_strlit("add");
    reveal_strlit("sub");
    reveal_strlit("mul");
    reveal_strlit("div");
    reveal_strlit("min");
    reveal_strlit("max");
    reveal_strlit("pct");
    reveal_strlit("bps");
    reveal_strlit("operation_type");
    reveal_strlit("operation_arg");
    reveal_strlit("operation_path");
    reveal_strlit("operation_subtree");
    reveal_strlit("blocks_since_activity");
    reveal_strlit("blocks_since_open");
    reveal_strlit("deposit_balance");
    reveal_strlit("rolling_window");
    reveal_strlit("cumulative_spent_via");
    reveal_strlit("ast_ref");
    reveal_strlit("ast_shape_at");
    reveal_strlit("path");
    reveal_strlit("blocks_since_received");
    reveal_strlit("sha256");
    reveal_strlit("hash256");
    reveal_strlit("ripemd160");
    reveal_strlit("hash160");
    assert("add"@.len() == 3);
    assert("sub"@.len() == 3);
    assert("mul"@.len() == 3);
    assert("div"@.len() == 3);
    assert("min"@.len() == 3);
    assert("max"@.len() == 3);
    assert("pct"@.len() == 3);
    assert("bps"@.len() == 3);
    assert("operation_type"@.len() == 14);
    assert("operation_arg"@.len() == 13);
    assert("operation_path"@.len() == 14);
    assert("operation_subtree"@.len() == 17);
    assert("blocks_since_activity"@.len() == 21);
    assert("blocks_since_open"@.len() == 17);
    assert("deposit_balance"@.len() == 15);
    assert("rolling_window"@.len() == 14);
    assert("cumulative_spent_via"@.len() == 20);
    assert("ast_ref"@.len() == 7);
    assert("ast_shape_at"@.len() == 12);
    assert("path"@.len() == 4);
    assert("blocks_since_received"@.len() == 21);
    assert("sha256"@.len() == 6);
    assert("hash256"@.len() == 7);
    assert("ripemd160"@.len() == 9);
    assert("hash160"@.len() == 7);
    assert("add"@[0] != "sub"@[0]);
    assert("add"@[0] != "mul"@[0]);
    assert("add"@[0] != "div"@[0]);
    assert("add"@[0] != "min"@[0]);
    assert("add"@[0] != "max"@[0]);
    assert("add"@[0] != "pct"@[0]);
    assert("add"@[0] != "bps"@[0]);
    assert("sub"@[0] != "mul"@[0]);
    assert("sub"@[0] != "div"@[0]);
    assert("sub"@[0] != "min"@[0]);
    assert("sub"@[0] != "max"@[0]);
    assert("sub"@[0] != "pct"@[0]);
    assert("sub"@[0] != "bps"@[0]);
    assert("mul"@[0] != "div"@[0]);
    assert("mul"@[1] != "min"@[1]);
    assert("mul"@[1] != "max"@[1]);
    assert("mul"@[0] != "pct"@[0]);
    assert("mul"@[0] != "bps"@[0]);
    assert("div"@[0] != "min"@[0]);
    assert("div"@[0] != "max"@[0]);
    assert("div"@[0] != "pct"@[0]);
    assert("div"@[0] != "bps"@[0]);
    assert("min"@[1] != "max"@[1]);
    assert("min"@[0] != "pct"@[0]);
    assert("min"@[0] != "bps"@[0]);
    assert("max"@[0] != "pct"@[0]);
    assert("max"@[0] != "bps"@[0]);
    assert("pct"@[0] != "bps"@[0]);
    assert("operation_type"@[10] != "operation_path"@[10]);
    assert("operation_type"@[0] != "rolling_window"@[0]);
    assert("operation_path"@[0] != "rolling_window"@[0]);
    assert("operation_subtree"@[0] != "blocks_since_open"@[0]);
    assert("blocks_since_activity"@[13] != "blocks_since_received"@[13]);
    assert("ast_ref"@[0] != "hash256"@[0]);
    assert("ast_ref"@[0] != "hash160"@[0]);
    assert("add"@[0] != '0');
    assert("sub"@[0] != '0');
    assert("mul"@[0] != '0');
    assert("div"@[0] != '0');
    assert("min"@[0] != '0');
    assert("max"@[0] != '0');
    assert("pct"@[0] != '0');
    assert("bps"@[0] != '0');
    assert("operation_type"@[0] != '0');
    assert("operation_arg"@[0] != '0');
    assert("operation_path"@[0] != '0');
    assert("operation_subtree"@[0] != '0');
    assert("blocks_since_activity"@[0] != '0');
    assert("blocks_since_open"@[0] != '0');
    assert("deposit_balance"@[0] != '0');
    assert("rolling_window"@[0] != '0');
    assert("cumulative_spent_via"@[0] != '0');
    assert("ast_ref"@[0] != '0');
    assert("ast_shape_at"@[0] != '0');
    assert("path"@[0] != '0');
    assert("blocks_since_received"@[0] != '0');
}

proof fn lemma_bracket_bytes()
    ensures
        encode_utf8("["@) == seq![91u8],
        encode_utf8("]"@) == seq![93u8],
{
    reveal_strlit("[");
    reveal_strlit("]");
    is_ascii_chars_encode_utf8("["@);
    is_ascii_chars_encode_utf8("]"@);
    assert(encode_utf8("["@) =~= seq![91u8]);
    assert(encode_utf8("]"@) =~= seq![93u8]);
}

proof fn lemma_show_values_cons(s: Seq<ValueV>)
    requires
        s.len() >= 2,
    ensures
        show_values(s) == show_value(s[0]) + ", "@ + show_values(s.drop_first()),
    decreases s.len(),
{
    let init = s.drop_last();
    let tail = s.drop_first();
    if s.len() == 2 {
        assert(init.len() == 1 && init[0] == s[0]);
        assert(tail.len() == 1 && tail[0] == s[1]);
        assert(show_values(init) == show_value(s[0]));
        assert(show_values(tail) == show_value(s[1]));
    } else {
        lemma_show_values_cons(init);
        assert(init.drop_first() =~= tail.drop_last());
        assert(init[0] == s[0]);
        assert(tail.last() == s.last());
        assert(show_values(tail) == show_values(tail.drop_last()) + ", "@ + show_value(tail.last()));
        assert(show_values(s) =~= show_value(s[0]) + ", "@ + show_values(tail));
    }
}

/// Printed one-token literals separated by `, ` read as their tokens separated by commas.
#[verifier::spinoff_prover]
proof fn lemma_lex_atoms(items: Seq<ValueV>, rest: Seq<u8>)
    requires
        atoms(items),
        word_stop(rest),
    ensures
        lex_from(encode_utf8(show_values(items)) + rest, 0) == glue(atom_toks(items), lex_from(rest, 0)),
    decreases items.len(),
{
    if items.len() == 0 {
        assert(encode_utf8(show_values(items)) + rest =~= rest);
        lemma_glue_empty(lex_from(rest, 0));
    } else {
        assert(atom_value(items[0]));
        if items.len() == 1 {
            assert(show_values(items) == show_value(items[0]));
            lemma_lex_value(items[0], rest);
            lemma_prepend_glue(value_tok(items[0]), lex_from(rest, 0));
        } else {
            lemma_show_values_cons(items);
            lemma_punct_bytes();
            let tail = items.drop_first();
            assert(atoms(tail)) by {
                assert forall|i: int| 0 <= i < tail.len() implies atom_value(#[trigger] tail[i]) by {
                    assert(tail[i] == items[i + 1]);
                }
            }
            let y0 = show_value(items[0]);
            let yt = show_values(tail);
            lemma_encode_utf8_concat(y0 + ", "@, yt);
            lemma_encode_utf8_concat(y0, ", "@);
            let r1 = encode_utf8(yt) + rest;
            let r2 = encode_utf8(", "@) + r1;
            assert(encode_utf8(show_values(items)) + rest =~= encode_utf8(y0) + r2);
            lemma_lex_value(items[0], r2);
            lemma_lex_sep(r1);
            lemma_lex_atoms(tail, rest);
            let rr = lex_from(rest, 0);
            let vt = value_tok(items[0]);
            lemma_prepend_glue(TokV::Comma, glue(atom_toks(tail), rr));
            lemma_glue_glue(seq![TokV::Comma], atom_toks(tail), rr);
            lemma_prepend_glue(vt, glue(seq![TokV::Comma] + atom_toks(tail), rr));
            lemma_glue_glue(seq![vt], seq![TokV::Comma] + atom_toks(tail), rr);
            assert(seq![vt] + (seq![TokV::Comma] + atom_toks(tail)) =~= atom_toks(items));
        }
    }
}

/// A printed value term, followed by bytes that cannot continue a word, reads as its tokens.
#[verifier::spinoff_prover]
pub proof fn lemma_lex_vterm(v: VTermV, d: nat, rest: Seq<u8>)
    requires
        vterm_ok(v, d),
        word_stop(rest),
    ensures
        lex_from(encode_utf8(show_vterm(v)) + rest, 0) == glue(vterm_toks(v), lex_from(rest, 0)),
    decreases v, 1nat,
{
    let rr = lex_from(rest, 0);
    match v {
        VTermV::Lit(ValueV::Int(n)) => {
            assert(show_vterm(v) == int_text(n as int));
            lemma_lex_int(n, rest);
            lemma_prepend_glue(TokV::Num(n), rr);
        },
        VTermV::Lit(ValueV::Key(k)) => {
            assert(show_vterm(v) == k);
            lemma_key_bytes(k);
            lemma_lex_word(encode_utf8(k), rest);
            lemma_prepend_glue(TokV::Word(k), rr);
        },
        VTermV::Var(n) => {
            assert(show_vterm(v) == n);
            lemma_key_bytes(n);
            lemma_lex_word(encode_utf8(n), rest);
            lemma_prepend_glue(TokV::Word(n), rr);
        },
        VTermV::Lit(ValueV::List(items)) => {
            lemma_bracket_bytes();
            let y = show_values(items);
            assert(show_vterm(v) == "["@ + y + "]"@);
            lemma_encode_utf8_concat("["@ + y, "]"@);
            lemma_encode_utf8_concat("["@, y);
            let r1 = seq![93u8] + rest;
            assert(encode_utf8(show_vterm(v)) + rest =~= seq![91u8] + (encode_utf8(y) + r1));
            lemma_lex_punct(91, encode_utf8(y) + r1);
            lemma_lex_atoms(items, r1);
            lemma_lex_punct(93, rest);
            let at = atom_toks(items);
            lemma_prepend_glue(TokV::RBracket, rr);
            lemma_glue_glue(at, seq![TokV::RBracket], rr);
            lemma_prepend_glue(TokV::LBracket, glue(at + seq![TokV::RBracket], rr));
            lemma_glue_glue(seq![TokV::LBracket], at + seq![TokV::RBracket], rr);
            assert(seq![TokV::LBracket] + (at + seq![TokV::RBracket]) =~= vterm_toks(v));
        },
        VTermV::Op(f, args) => {
            lemma_lex_op(v, d, rest);
        },
        _ => {},
    }
}

#[verifier::spinoff_prover]
proof fn lemma_lex_op(v: VTermV, d: nat, rest: Seq<u8>)
    requires
        v is Op,
        vterm_ok(v, d),
        word_stop(rest),
    ensures
        lex_from(encode_utf8(show_vterm(v)) + rest, 0) == glue(vterm_toks(v), lex_from(rest, 0)),
    decreases v, 0nat,
{
    lemma_punct_bytes();
    match v {
        VTermV::Op(f, args) => {
            let w = f.spec_name();
            lemma_value_fn_facts(f);
            let y = show_vterms(args);
            assert(show_vterm(v) == w + "("@ + y + ")"@);
            lemma_encode_utf8_concat(w + "("@ + y, ")"@);
            lemma_encode_utf8_concat(w + "("@, y);
            let r1 = encode_utf8(")"@) + rest;
            assert(encode_utf8(show_vterm(v)) + rest =~= encode_utf8(w + "("@) + (encode_utf8(y) + r1));
            lemma_lex_open(w, encode_utf8(y) + r1);
            if f == ValueFn::OperationArg {
                let a0 = args[0];
                let s0 = a0->Lit_0->Symbol_0;
                assert(args.len() == 1);
                assert(y == show_vterm(a0));
                assert(show_vterm(a0) == s0);
                lemma_key_bytes(s0);
                lemma_lex_word(encode_utf8(s0), r1);
                lemma_prepend_glue(TokV::Word(s0), lex_from(r1, 0));
                assert(vterms_toks(args) == vterm_toks(a0));
                assert(vterm_toks(a0) == seq![TokV::Word(s0)]);
            } else {
                lemma_lex_vterms(args, d + 1, r1);
            }
            lemma_lex_close(rest);
            let rr = lex_from(rest, 0);
            let at = vterms_toks(args);
            lemma_prepend_glue(TokV::RParen, rr);
            lemma_glue_glue(at, seq![TokV::RParen], rr);
            lemma_glue_glue(seq![TokV::Word(w), TokV::LParen], at + seq![TokV::RParen], rr);
            assert(seq![TokV::Word(w), TokV::LParen] + (at + seq![TokV::RParen]) =~= vterm_toks(v));
        },
        _ => {},
    }
}

/// Printed value terms separated by `, ` read as their tokens separated by commas.
#[verifier::spinoff_prover]
pub proof fn lemma_lex_vterms(s: Seq<VTermV>, d: nat, rest: Seq<u8>)
    requires
        vterms_ok(s, d),
        word_stop(rest),
    ensures
        lex_from(encode_utf8(show_vterms(s)) + rest, 0) == glue(vterms_toks(s), lex_from(rest, 0)),
    decreases s, 1nat,
{
    if s.len() == 0 {
        assert(encode_utf8(show_vterms(s)) + rest =~= rest);
        lemma_glue_empty(lex_from(rest, 0));
    } else if s.len() == 1 {
        lemma_lex_vterm(s[0], d, rest);
    } else {
        lemma_show_vterms_cons(s);
        lemma_punct_bytes();
        let y0 = show_vterm(s[0]);
        let yt = show_vterms(s.drop_first());
        lemma_encode_utf8_concat(y0 + ", "@, yt);
        lemma_encode_utf8_concat(y0, ", "@);
        let r1 = encode_utf8(yt) + rest;
        let r2 = encode_utf8(", "@) + r1;
        assert(encode_utf8(show_vterms(s)) + rest =~= encode_utf8(y0) + r2);
        lemma_lex_vterm(s[0], d, r2);
        lemma_lex_sep(r1);
        lemma_lex_vterms(s.drop_first(), d, rest);
        let rr = lex_from(rest, 0);
        lemma_prepend_glue(TokV::Comma, glue(vterms_toks(s.drop_first()), rr));
        lemma_glue_glue(seq![TokV::Comma], vterms_toks(s.drop_first()), rr);
        lemma_glue_glue(vterm_toks(s[0]), seq![TokV::Comma] + vterms_toks(s.drop_first()), rr);
        assert(vterm_toks(s[0]) + (seq![TokV::Comma] + vterms_toks(s.drop_first())) =~= vterms_toks(s));
    }
}

/// The token after a value term: `,` or `)`.
pub open spec fn follows(ts: Seq<TokV>, q: int) -> bool {
    tok_at(ts, q) == Some(TokV::Comma) || tok_at(ts, q) == Some(TokV::RParen)
}

/// A key literal or constant reference: its word token is read as a key or a reference.
#[verifier::spinoff_prover]
proof fn lemma_parse_word_vterm(v: VTermV, d: nat, ts: Seq<TokV>, p: int, bound: Set<Seq<char>>)
    requires
        v is Var || (v is Lit && v->Lit_0 is Key),
        vterm_ok(v, d),
        names_okv(v, bound),
        toks_at(ts, p, vterm_toks(v)),
        follows(ts, p + 1),
    ensures
        vterm_toks(v).len() == 1,
        p_vterm(ts, p, d, bound) == Ok::<(VTermV, int), Seq<char>>((v, p + 1)),
{
    let k = match v {
        VTermV::Var(n) => n,
        VTermV::Lit(ValueV::Key(k)) => k,
        _ => Seq::empty(),
    };
    assert(vterm_toks(v) == seq![TokV::Word(k)]);
    lemma_toks_at_one(ts, p, TokV::Word(k));
    assert(!has_hex_prefix(k));
    assert(p_hash(ts, p, k) is None);
    assert(tok_at(ts, p + 1) != Some(TokV::LParen));
}

/// One-token literals separated by commas, then `]`, read back as the literals.
#[verifier::spinoff_prover]
proof fn lemma_parse_atom_items(items: Seq<ValueV>, e: nat, ts: Seq<TokV>, p: int)
    requires
        e < MAX_DEPTH,
        items.len() >= 1,
        atoms(items),
        toks_at(ts, p, atom_toks(items) + seq![TokV::RBracket]),
    ensures
        p_literal_items(ts, p, e) == Ok::<(Seq<ValueV>, int), Seq<char>>(
            (items, p + atom_toks(items).len() + 1),
        ),
    decreases items.len(),
{
    let a = items[0];
    assert(atom_value(a));
    let vt = value_tok(a);
    let rest = if items.len() == 1 {
        seq![TokV::RBracket]
    } else {
        seq![TokV::Comma] + (atom_toks(items.drop_first()) + seq![TokV::RBracket])
    };
    assert(atom_toks(items) + seq![TokV::RBracket] =~= seq![vt] + rest);
    lemma_toks_at_split(ts, p, seq![vt], rest);
    lemma_toks_at_one(ts, p, vt);
    assert(rest[0] == TokV::RBracket || rest[0] == TokV::Comma);
    assert(ts.subrange(p + 1, p + 1 + rest.len())[0] == ts[p + 1]);
    match a {
        ValueV::Key(k) => {
            assert(!has_hex_prefix(k));
            assert(p_hash(ts, p, k) is None);
        },
        _ => {},
    }
    assert(p_literal(ts, p, e) == Ok::<(ValueV, int), Seq<char>>((a, p + 1)));
    if items.len() == 1 {
        lemma_toks_at_one(ts, p + 1, TokV::RBracket);
        assert(seq![a] =~= items);
    } else {
        let tail = items.drop_first();
        assert(atoms(tail)) by {
            assert forall|i: int| 0 <= i < tail.len() implies atom_value(#[trigger] tail[i]) by {
                assert(tail[i] == items[i + 1]);
            }
        }
        lemma_toks_at_split(ts, p + 1, seq![TokV::Comma], atom_toks(tail) + seq![TokV::RBracket]);
        lemma_toks_at_one(ts, p + 1, TokV::Comma);
        lemma_parse_atom_items(tail, e, ts, p + 2);
        assert(seq![a] + tail =~= items);
    }
}

/// A list of one-token literals reads back as the list.
#[verifier::spinoff_prover]
proof fn lemma_parse_list_lit(items: Seq<ValueV>, e: nat, ts: Seq<TokV>, p: int)
    requires
        e + 1 < MAX_DEPTH,
        atoms(items),
        toks_at(ts, p, seq![TokV::LBracket] + atom_toks(items) + seq![TokV::RBracket]),
    ensures
        p_literal(ts, p, e) == Ok::<(ValueV, int), Seq<char>>(
            (ValueV::List(items), p + atom_toks(items).len() + 2),
        ),
{
    let at = atom_toks(items);
    assert(seq![TokV::LBracket] + at + seq![TokV::RBracket] =~= seq![TokV::LBracket] + (at + seq![
        TokV::RBracket,
    ]));
    lemma_toks_at_split(ts, p, seq![TokV::LBracket], at + seq![TokV::RBracket]);
    lemma_toks_at_one(ts, p, TokV::LBracket);
    if items.len() == 0 {
        assert(at + seq![TokV::RBracket] =~= seq![TokV::RBracket]);
        lemma_toks_at_one(ts, p + 1, TokV::RBracket);
        assert(items =~= Seq::<ValueV>::empty());
    } else {
        assert(at[0] == value_tok(items[0]));
        assert(ts.subrange(p + 1, p + 1 + (at + seq![TokV::RBracket]).len())[0] == ts[p + 1]);
        assert((at + seq![TokV::RBracket])[0] == at[0]);
        assert(tok_at(ts, p + 1) != Some(TokV::RBracket));
        lemma_parse_atom_items(items, e + 1, ts, p + 1);
    }
}

/// A printed value term's tokens, followed by `,` or `)`, read back as the value term.
#[verifier::spinoff_prover]
pub proof fn lemma_parse_vterm(v: VTermV, d: nat, ts: Seq<TokV>, p: int, bound: Set<Seq<char>>)
    requires
        vterm_ok(v, d),
        names_okv(v, bound),
        toks_at(ts, p, vterm_toks(v)),
        follows(ts, p + vterm_toks(v).len()),
    ensures
        p_vterm(ts, p, d, bound) == Ok::<(VTermV, int), Seq<char>>((v, p + vterm_toks(v).len())),
    decreases v, 1nat,
{
    match v {
        VTermV::Lit(ValueV::Int(n)) => {
            lemma_toks_at_one(ts, p, TokV::Num(n));
        },
        VTermV::Lit(ValueV::Key(_)) => {
            lemma_parse_word_vterm(v, d, ts, p, bound);
        },
        VTermV::Var(_) => {
            lemma_parse_word_vterm(v, d, ts, p, bound);
        },
        VTermV::Lit(ValueV::List(items)) => {
            lemma_parse_list_lit(items, d + 1, ts, p);
            let x = seq![TokV::LBracket] + atom_toks(items) + seq![TokV::RBracket];
            assert(ts.subrange(p, p + x.len())[0] == ts[p]);
            assert(tok_at(ts, p) == Some(TokV::LBracket));
        },
        VTermV::Op(_, _) => {
            lemma_parse_op(v, d, ts, p, bound);
        },
        _ => {},
    }
}

#[verifier::spinoff_prover]
#[verifier::rlimit(60)]
proof fn lemma_parse_op(v: VTermV, d: nat, ts: Seq<TokV>, p: int, bound: Set<Seq<char>>)
    requires
        v is Op,
        vterm_ok(v, d),
        names_okv(v, bound),
        toks_at(ts, p, vterm_toks(v)),
    ensures
        p_vterm(ts, p, d, bound) == Ok::<(VTermV, int), Seq<char>>((v, p + vterm_toks(v).len())),
    decreases v, 0nat,
{
    match v {
        VTermV::Op(f, args) => {
            let w = f.spec_name();
            lemma_value_fn_facts(f);
            let at = vterms_toks(args);
            assert(vterm_toks(v) =~= seq![TokV::Word(w), TokV::LParen] + (at + seq![TokV::RParen]));
            lemma_parse_open(ts, p, w, at + seq![TokV::RParen]);
            assert(tok_at(ts, p) == Some(TokV::Word(w)));
            assert(tok_at(ts, p + 1) == Some(TokV::LParen)) by {
                lemma_toks_at_split(ts, p, seq![TokV::Word(w), TokV::LParen], at + seq![TokV::RParen]);
                assert(seq![TokV::Word(w), TokV::LParen][1] == TokV::LParen);
            }
            assert(p_hash(ts, p, w) is None);
            if f == ValueFn::OperationArg {
                let a0 = args[0];
                let s0 = a0->Lit_0->Symbol_0;
                assert(args.len() == 1);
                assert(a0 == VTermV::Lit(ValueV::Symbol(s0)));
                assert(at == vterm_toks(a0));
                assert(at == seq![TokV::Word(s0)]);
                lemma_toks_at_split(ts, p + 2, seq![TokV::Word(s0)], seq![TokV::RParen]);
                lemma_toks_at_one(ts, p + 2, TokV::Word(s0));
                lemma_toks_at_one(ts, p + 3, TokV::RParen);
                assert(seq![VTermV::Lit(ValueV::Symbol(s0))] =~= args);
            } else {
                lemma_parse_vterms(args, d + 1, ts, p + 2, bound);
            }
        },
        _ => {},
    }
}

/// Printed value terms separated by commas, then `)`, read back as the value terms.
#[verifier::spinoff_prover]
pub proof fn lemma_parse_vterms(args: Seq<VTermV>, e: nat, ts: Seq<TokV>, p: int, bound: Set<Seq<char>>)
    requires
        vterms_ok(args, e),
        names_oksv(args, bound),
        toks_at(ts, p, vterms_toks(args) + seq![TokV::RParen]),
    ensures
        p_vterm_list(ts, p, e, bound) == Ok::<(Seq<VTermV>, int), Seq<char>>(
            (args, p + vterms_toks(args).len() + 1),
        ),
    decreases args, 2nat,
{
    if args.len() == 0 {
        assert(vterms_toks(args) + seq![TokV::RParen] =~= seq![TokV::RParen]);
        lemma_toks_at_one(ts, p, TokV::RParen);
        assert(args =~= Seq::<VTermV>::empty());
    } else {
        lemma_vterm_toks_head(args[0], e);
        let x = vterms_toks(args) + seq![TokV::RParen];
        assert(x[0] == vterm_toks(args[0])[0]);
        assert(ts.subrange(p, p + x.len())[0] == ts[p]);
        assert(tok_at(ts, p) != Some(TokV::RParen));
        lemma_parse_vitems(args, e, ts, p, bound);
    }
}

proof fn lemma_vterm_toks_head(v: VTermV, d: nat)
    requires
        vterm_ok(v, d),
    ensures
        vterm_toks(v).len() >= 1,
        vterm_toks(v)[0] != TokV::RParen,
{
}

#[verifier::spinoff_prover]
proof fn lemma_parse_vitems(args: Seq<VTermV>, e: nat, ts: Seq<TokV>, p: int, bound: Set<Seq<char>>)
    requires
        args.len() >= 1,
        vterms_ok(args, e),
        names_oksv(args, bound),
        toks_at(ts, p, vterms_toks(args) + seq![TokV::RParen]),
    ensures
        p_vterm_items(ts, p, e, bound) == Ok::<(Seq<VTermV>, int), Seq<char>>(
            (args, p + vterms_toks(args).len() + 1),
        ),
    decreases args, 1nat,
{
    let t0 = vterm_toks(args[0]);
    lemma_vterm_toks_head(args[0], e);
    if args.len() == 1 {
        lemma_toks_at_split(ts, p, t0, seq![TokV::RParen]);
        lemma_toks_at_one(ts, p + t0.len(), TokV::RParen);
        lemma_parse_vterm(args[0], e, ts, p, bound);
        assert(seq![args[0]] =~= args);
    } else {
        let rest = args.drop_first();
        let lr = vterms_toks(rest);
        assert(vterms_toks(args) + seq![TokV::RParen] =~= t0 + (seq![TokV::Comma] + (lr + seq![TokV::RParen])));
        lemma_toks_at_split(ts, p, t0, seq![TokV::Comma] + (lr + seq![TokV::RParen]));
        lemma_toks_at_split(ts, p + t0.len(), seq![TokV::Comma], lr + seq![TokV::RParen]);
        lemma_toks_at_one(ts, p + t0.len(), TokV::Comma);
        lemma_parse_vterm(args[0], e, ts, p, bound);
        lemma_parse_vitems(rest, e, ts, p + t0.len() + 1, bound);
        assert(seq![args[0]] + rest =~= args);
    }
}

// ---------------------------------------------------------------------------------------------
// Obligations and comparisons over value terms
// ---------------------------------------------------------------------------------------------

/// What the term reader needs of an obligation's name.
proof fn lemma_ob_name_facts(o: ObligationV)
    requires
        o is Pk || o is PkH || o is PkAny || o is Multi || o is Attest || o is Hashlock,
    ensures
        is_name_text(ob_name(o)),
        ob_name(o) != "true"@ && ob_name(o) != "false"@ && ob_name(o) != "and"@ && ob_name(o) != "or"@,
        ob_name(o) != "thresh"@ && ob_name(o) != "not"@ && ob_name(o) != "if"@ && ob_name(o) != "match"@,
        ob_name(o) != "cmp"@ && ob_name(o) != "prove"@ && ob_name(o) != "wsh"@ && ob_name(o) != "with"@,
        comparison_named(ob_name(o)) is None,
        is_obligation_name(ob_name(o)),
        ob_name(o) + "("@ == match o {
            ObligationV::Pk(_) => "pk("@,
            ObligationV::PkH(_) => "pk_h("@,
            ObligationV::PkAny(_) => "pk_any("@,
            ObligationV::Attest(..) => "attest("@,
            ObligationV::Hashlock(..) => "hashlock("@,
            _ => "multi("@,
        },
        "pk"@ != "pk_h"@ && "pk"@ != "pk_any"@ && "pk_h"@ != "pk_any"@,
        "multi"@ != "pk"@ && "multi"@ != "pk_h"@ && "multi"@ != "pk_any"@ && "multi"@ != "hashlock"@,
{
    reveal_strlit("pk");
    reveal_strlit("pk_h");
    reveal_strlit("pk_any");
    reveal_strlit("multi");
    reveal_strlit("true");
    reveal_strlit("false");
    reveal_strlit("and");
    reveal_strlit("or");
    reveal_strlit("thresh");
    reveal_strlit("not");
    reveal_strlit("if");
    reveal_strlit("match");
    reveal_strlit("cmp");
    reveal_strlit("prove");
    reveal_strlit("wsh");
    reveal_strlit("with");
    reveal_strlit("eq");
    reveal_strlit("lt");
    reveal_strlit("le");
    reveal_strlit("gt");
    reveal_strlit("ge");
    reveal_strlit("hashlock");
    reveal_strlit("attest");
    reveal_strlit("pk_threshold");
    assert("pk"@.len() == 2);
    assert("pk_h"@.len() == 4);
    assert("pk_any"@.len() == 6);
    assert("multi"@.len() == 5);
    assert("true"@.len() == 4);
    assert("false"@.len() == 5);
    assert("and"@.len() == 3);
    assert("or"@.len() == 2);
    assert("thresh"@.len() == 6);
    assert("not"@.len() == 3);
    assert("if"@.len() == 2);
    assert("match"@.len() == 5);
    assert("cmp"@.len() == 3);
    assert("prove"@.len() == 5);
    assert("wsh"@.len() == 3);
    assert("with"@.len() == 4);
    assert("eq"@.len() == 2);
    assert("lt"@.len() == 2);
    assert("le"@.len() == 2);
    assert("gt"@.len() == 2);
    assert("ge"@.len() == 2);
    assert("hashlock"@.len() == 8);
    assert("attest"@.len() == 6);
    assert("pk_threshold"@.len() == 12);
    assert("pk"@[0] != "or"@[0]);
    assert("pk"@[0] != "if"@[0]);
    assert("pk"@[0] != "eq"@[0]);
    assert("pk"@[0] != "lt"@[0]);
    assert("pk"@[0] != "le"@[0]);
    assert("pk"@[0] != "gt"@[0]);
    assert("pk"@[0] != "ge"@[0]);
    assert("pk_h"@[0] != "true"@[0]);
    assert("pk_h"@[0] != "with"@[0]);
    assert("pk_any"@[0] != "thresh"@[0]);
    assert("pk_any"@[0] != "attest"@[0]);
    assert("multi"@[0] != "false"@[0]);
    assert("multi"@[1] != "match"@[1]);
    assert("multi"@[0] != "prove"@[0]);
    assert("attest"@[1] != "and"@[1]);
    assert("attest"@[0] != "or"@[0]);
    assert("attest"@[0] != "if"@[0]);
    assert("attest"@[0] != "eq"@[0]);
    assert("attest"@[0] != "lt"@[0]);
    assert("attest"@[0] != "le"@[0]);
    assert("attest"@[0] != "gt"@[0]);
    assert("attest"@[0] != "ge"@[0]);
    assert("attest"@[0] != "pk"@[0]);
    assert("attest"@[0] != "pk_h"@[0]);
    assert("attest"@[0] != "multi"@[0]);
    assert("attest"@[0] != "hashlock"@[0]);
    assert("attest"@[0] != "pk_threshold"@[0]);
    reveal_strlit("pk(");
    reveal_strlit("pk_h(");
    reveal_strlit("pk_any(");
    reveal_strlit("multi(");
    reveal_strlit("(");
    assert("pk("@ =~= "pk"@ + "("@);
    assert("pk_h("@ =~= "pk_h"@ + "("@);
    assert("pk_any("@ =~= "pk_any"@ + "("@);
    assert("multi("@ =~= "multi"@ + "("@);
    reveal_strlit("attest(");
    assert("attest("@ =~= "attest"@ + "("@);
    reveal_strlit("hashlock(");
    assert("hashlock("@ =~= "hashlock"@ + "("@);
    assert("hashlock"@[0] != "pk"@[0]);
    assert("hashlock"@[0] != "pk_h"@[0]);
    assert("hashlock"@[0] != "pk_any"@[0]);
    assert("hashlock"@[0] != "true"@[0]);
    assert("hashlock"@[0] != "false"@[0]);
    assert("hashlock"@[0] != "and"@[0]);
    assert("hashlock"@[0] != "or"@[0]);
    assert("hashlock"@[0] != "thresh"@[0]);
    assert("hashlock"@[0] != "not"@[0]);
    assert("hashlock"@[0] != "if"@[0]);
    assert("hashlock"@[0] != "match"@[0]);
    assert("hashlock"@[0] != "cmp"@[0]);
    assert("hashlock"@[0] != "prove"@[0]);
    assert("hashlock"@[0] != "wsh"@[0]);
    assert("hashlock"@[0] != "with"@[0]);
    assert("hashlock"@[0] != "eq"@[0]);
    assert("hashlock"@[0] != "lt"@[0]);
    assert("hashlock"@[0] != "le"@[0]);
    assert("hashlock"@[0] != "gt"@[0]);
    assert("hashlock"@[0] != "ge"@[0]);
}

/// What the term reader needs of a comparison's name.
proof fn lemma_cmp_word_facts(o: CmpOp)
    ensures
        is_name_text(comparison_word(o)),
        comparison_named(comparison_word(o)) == Some(o),
        comparison_word(o) != "true"@ && comparison_word(o) != "false"@ && comparison_word(o) != "and"@,
        comparison_word(o) != "or"@ && comparison_word(o) != "thresh"@ && comparison_word(o) != "not"@,
        comparison_word(o) != "if"@ && comparison_word(o) != "match"@ && comparison_word(o) != "cmp"@,
        comparison_word(o) != "prove"@ && comparison_word(o) != "wsh"@ && comparison_word(o) != "with"@,
{
    reveal_strlit("eq");
    reveal_strlit("lt");
    reveal_strlit("le");
    reveal_strlit("gt");
    reveal_strlit("ge");
    reveal_strlit("true");
    reveal_strlit("false");
    reveal_strlit("and");
    reveal_strlit("or");
    reveal_strlit("thresh");
    reveal_strlit("not");
    reveal_strlit("if");
    reveal_strlit("match");
    reveal_strlit("cmp");
    reveal_strlit("prove");
    reveal_strlit("wsh");
    reveal_strlit("with");
    reveal_strlit("pk");
    reveal_strlit("pk_h");
    reveal_strlit("pk_any");
    reveal_strlit("multi");
    reveal_strlit("hashlock");
    reveal_strlit("attest");
    reveal_strlit("pk_threshold");
    assert("eq"@.len() == 2);
    assert("lt"@.len() == 2);
    assert("le"@.len() == 2);
    assert("gt"@.len() == 2);
    assert("ge"@.len() == 2);
    assert("true"@.len() == 4);
    assert("false"@.len() == 5);
    assert("and"@.len() == 3);
    assert("or"@.len() == 2);
    assert("thresh"@.len() == 6);
    assert("not"@.len() == 3);
    assert("if"@.len() == 2);
    assert("match"@.len() == 5);
    assert("cmp"@.len() == 3);
    assert("prove"@.len() == 5);
    assert("wsh"@.len() == 3);
    assert("with"@.len() == 4);
    assert("pk"@.len() == 2);
    assert("pk_h"@.len() == 4);
    assert("pk_any"@.len() == 6);
    assert("multi"@.len() == 5);
    assert("hashlock"@.len() == 8);
    assert("attest"@.len() == 6);
    assert("pk_threshold"@.len() == 12);
    assert("eq"@[0] != "lt"@[0]);
    assert("eq"@[0] != "le"@[0]);
    assert("eq"@[0] != "gt"@[0]);
    assert("eq"@[0] != "ge"@[0]);
    assert("eq"@[0] != "or"@[0]);
    assert("eq"@[0] != "if"@[0]);
    assert("eq"@[0] != "pk"@[0]);
    assert("lt"@[0] != "eq"@[0]);
    assert("lt"@[1] != "le"@[1]);
    assert("lt"@[0] != "gt"@[0]);
    assert("lt"@[0] != "ge"@[0]);
    assert("lt"@[0] != "or"@[0]);
    assert("lt"@[0] != "if"@[0]);
    assert("lt"@[0] != "pk"@[0]);
    assert("le"@[0] != "eq"@[0]);
    assert("le"@[1] != "lt"@[1]);
    assert("le"@[0] != "gt"@[0]);
    assert("le"@[0] != "ge"@[0]);
    assert("le"@[0] != "or"@[0]);
    assert("le"@[0] != "if"@[0]);
    assert("le"@[0] != "pk"@[0]);
    assert("gt"@[0] != "eq"@[0]);
    assert("gt"@[0] != "lt"@[0]);
    assert("gt"@[0] != "le"@[0]);
    assert("gt"@[1] != "ge"@[1]);
    assert("gt"@[0] != "or"@[0]);
    assert("gt"@[0] != "if"@[0]);
    assert("gt"@[0] != "pk"@[0]);
    assert("ge"@[0] != "eq"@[0]);
    assert("ge"@[0] != "lt"@[0]);
    assert("ge"@[0] != "le"@[0]);
    assert("ge"@[1] != "gt"@[1]);
    assert("ge"@[0] != "or"@[0]);
    assert("ge"@[0] != "if"@[0]);
    assert("ge"@[0] != "pk"@[0]);
}

#[verifier::spinoff_prover]
proof fn lemma_lex_prove(t: BTermV, d: nat, rest: Seq<u8>)
    requires
        t is Prove,
        skeleton(t, d),
        word_stop(rest),
    ensures
        lex_from(encode_utf8(show_term(t)) + rest, 0) == glue(term_toks(t), lex_from(rest, 0)),
    decreases t, 0nat,
{
    if t->Prove_0 is Multi {
        lemma_lex_multi(t, d, rest);
    } else if t->Prove_0 is Attest {
        lemma_lex_attest(t, d, rest);
    } else {
        lemma_lex_key_ob(t, d, rest);
    }
}

#[verifier::spinoff_prover]
#[verifier::rlimit(60)]
proof fn lemma_lex_multi(t: BTermV, d: nat, rest: Seq<u8>)
    requires
        t is Prove,
        t->Prove_0 is Multi,
        skeleton(t, d),
        word_stop(rest),
    ensures
        lex_from(encode_utf8(show_term(t)) + rest, 0) == glue(term_toks(t), lex_from(rest, 0)),
    decreases t, 0nat,
{
    lemma_punct_bytes();
    let o = t->Prove_0;
    lemma_ob_name_facts(o);
    let w = ob_name(o);
    let v = ob_arg(o);
    let y = show_vterm(v);
    let r1 = encode_utf8(")"@) + rest;
    let rr = lex_from(rest, 0);
    let vt = vterm_toks(v);
    let k = o->Multi_0;
    let dt = nat_text(k as nat);
    assert(t == BTermV::Prove(o));
    assert(show_term(t) == show_obligation(o));
    assert(show_term(t) == w + "("@ + dt + ", "@ + y + ")"@);
    lemma_encode_utf8_concat(w + "("@ + dt + ", "@ + y, ")"@);
    lemma_encode_utf8_concat(w + "("@ + dt + ", "@, y);
    lemma_encode_utf8_concat(w + "("@ + dt, ", "@);
    lemma_encode_utf8_concat(w + "("@, dt);
    lemma_nat_text_bytes(k as nat);
    let db = encode_utf8(dt);
    let r2 = encode_utf8(", "@) + (encode_utf8(y) + r1);
    assert(encode_utf8(show_term(t)) + rest =~= encode_utf8(w + "("@) + (db + r2));
    lemma_lex_open(w, db + r2);
    assert(r2[0] == 44u8);
    lemma_lex_digits(db, r2);
    lemma_lex_sep(encode_utf8(y) + r1);
    lemma_lex_vterm(v, d + 1, r1);
    lemma_lex_close(rest);
    let n = TokV::Num(digits_value(db) as i128);
    lemma_prepend_glue(TokV::RParen, rr);
    lemma_glue_glue(vt, seq![TokV::RParen], rr);
    lemma_prepend_glue(TokV::Comma, glue(vt + seq![TokV::RParen], rr));
    lemma_glue_glue(seq![TokV::Comma], vt + seq![TokV::RParen], rr);
    lemma_prepend_glue(n, glue(seq![TokV::Comma] + (vt + seq![TokV::RParen]), rr));
    lemma_glue_glue(seq![n], seq![TokV::Comma] + (vt + seq![TokV::RParen]), rr);
    lemma_glue_glue(seq![TokV::Word(w), TokV::LParen], seq![n] + (seq![TokV::Comma] + (vt + seq![
        TokV::RParen,
    ])), rr);
    assert(seq![TokV::Word(w), TokV::LParen] + (seq![n] + (seq![TokV::Comma] + (vt + seq![
        TokV::RParen,
    ]))) =~= term_toks(t));
}

#[verifier::spinoff_prover]
#[verifier::rlimit(60)]
proof fn lemma_lex_key_ob(t: BTermV, d: nat, rest: Seq<u8>)
    requires
        t is Prove,
        !(t->Prove_0 is Multi),
        !(t->Prove_0 is Attest),
        skeleton(t, d),
        word_stop(rest),
    ensures
        lex_from(encode_utf8(show_term(t)) + rest, 0) == glue(term_toks(t), lex_from(rest, 0)),
    decreases t, 0nat,
{
    lemma_punct_bytes();
    let o = t->Prove_0;
    lemma_ob_name_facts(o);
    let w = ob_name(o);
    let v = ob_arg(o);
    let y = show_vterm(v);
    let r1 = encode_utf8(")"@) + rest;
    let rr = lex_from(rest, 0);
    let vt = vterm_toks(v);
    assert(t == BTermV::Prove(o));
    assert(show_term(t) == show_obligation(o));
    assert(show_term(t) == w + "("@ + y + ")"@);
    lemma_encode_utf8_concat(w + "("@ + y, ")"@);
    lemma_encode_utf8_concat(w + "("@, y);
    assert(encode_utf8(show_term(t)) + rest =~= encode_utf8(w + "("@) + (encode_utf8(y) + r1));
    lemma_lex_open(w, encode_utf8(y) + r1);
    lemma_lex_vterm(v, d + 1, r1);
    lemma_lex_close(rest);
    lemma_prepend_glue(TokV::RParen, rr);
    lemma_glue_glue(vt, seq![TokV::RParen], rr);
    lemma_glue_glue(seq![TokV::Word(w), TokV::LParen], vt + seq![TokV::RParen], rr);
    assert(seq![TokV::Word(w), TokV::LParen] + (vt + seq![TokV::RParen]) =~= term_toks(t));
}

#[verifier::spinoff_prover]
#[verifier::rlimit(40)]
proof fn lemma_lex_cmp(t: BTermV, d: nat, rest: Seq<u8>)
    requires
        t is Cmp,
        skeleton(t, d),
        word_stop(rest),
    ensures
        lex_from(encode_utf8(show_term(t)) + rest, 0) == glue(term_toks(t), lex_from(rest, 0)),
    decreases t, 0nat,
{
    lemma_punct_bytes();
    match t {
        BTermV::Cmp(o, a, b) => {
            lemma_cmp_word_facts(o);
            let w = comparison_word(o);
            let (ya, yb) = (show_vterm(a), show_vterm(b));
            assert(show_term(t) == w + "("@ + ya + ", "@ + yb + ")"@);
            lemma_encode_utf8_concat(w + "("@ + ya + ", "@ + yb, ")"@);
            lemma_encode_utf8_concat(w + "("@ + ya + ", "@, yb);
            lemma_encode_utf8_concat(w + "("@ + ya, ", "@);
            lemma_encode_utf8_concat(w + "("@, ya);
            let r1 = encode_utf8(")"@) + rest;
            let r2 = encode_utf8(yb) + r1;
            let r3 = encode_utf8(", "@) + r2;
            assert(encode_utf8(show_term(t)) + rest =~= encode_utf8(w + "("@) + (encode_utf8(ya) + r3));
            lemma_lex_open(w, encode_utf8(ya) + r3);
            lemma_lex_vterm(a, d + 1, r3);
            lemma_lex_sep(r2);
            lemma_lex_vterm(b, d + 1, r1);
            lemma_lex_close(rest);
            let rr = lex_from(rest, 0);
            let (ta, tb) = (vterm_toks(a), vterm_toks(b));
            lemma_prepend_glue(TokV::RParen, rr);
            lemma_glue_glue(tb, seq![TokV::RParen], rr);
            lemma_prepend_glue(TokV::Comma, glue(tb + seq![TokV::RParen], rr));
            lemma_glue_glue(seq![TokV::Comma], tb + seq![TokV::RParen], rr);
            lemma_glue_glue(ta, seq![TokV::Comma] + (tb + seq![TokV::RParen]), rr);
            lemma_glue_glue(seq![TokV::Word(w), TokV::LParen], ta + (seq![TokV::Comma] + (tb + seq![
                TokV::RParen,
            ])), rr);
            assert(seq![TokV::Word(w), TokV::LParen] + (ta + (seq![TokV::Comma] + (tb + seq![TokV::RParen])))
                =~= term_toks(t));
        },
        _ => {},
    }
}

#[verifier::spinoff_prover]
proof fn lemma_inner_ob(ts: Seq<TokV>, p: int, e: nat, bound: Set<Seq<char>>, o: ObligationV)
    requires
        o is Pk || o is PkH || o is PkAny || o is Multi || o is Attest || o is Hashlock,
        p_word(ts, p) == Ok::<(Seq<char>, int), Seq<char>>((ob_name(o), p + 1)),
        p_expect(ts, p + 1, TokV::LParen) == Ok::<int, Seq<char>>(p + 2),
    ensures
        p_bterm_inner(ts, p, e, bound) == match p_obligation_body(ts, p + 2, e, bound, ob_name(o)) {
            Err(m) => Err(m),
            Ok((ob, q)) => Ok::<(BTermV, int), Seq<char>>((BTermV::Prove(ob), q)),
        },
{
    lemma_ob_name_facts(o);
}

#[verifier::spinoff_prover]
proof fn lemma_parse_prove(t: BTermV, d: nat, ts: Seq<TokV>, p: int, bound: Set<Seq<char>>)
    requires
        t is Prove,
        skeleton(t, d),
        names_ok(t, bound),
        toks_at(ts, p, term_toks(t)),
    ensures
        p_bterm(ts, p, d, bound) == Ok::<(BTermV, int), Seq<char>>((t, p + term_toks(t).len())),
    decreases t, 0nat,
{
    let o = t->Prove_0;
    lemma_ob_name_facts(o);
    let w = ob_name(o);
    let q = if o is Multi {
        lemma_parse_multi_body(t, d, ts, p, bound)
    } else if o is Attest {
        lemma_parse_attest_body(t, d, ts, p, bound)
    } else {
        lemma_parse_key_ob_body(t, d, ts, p, bound)
    };
    lemma_inner_ob(ts, p, d + 1, bound, o);
}

#[verifier::spinoff_prover]
#[verifier::rlimit(100)]
proof fn lemma_parse_multi_body(t: BTermV, d: nat, ts: Seq<TokV>, p: int, bound: Set<Seq<char>>) -> (q: int)
    requires
        t is Prove,
        t->Prove_0 is Multi,
        skeleton(t, d),
        names_ok(t, bound),
        toks_at(ts, p, term_toks(t)),
    ensures
        p_word(ts, p) == Ok::<(Seq<char>, int), Seq<char>>((ob_name(t->Prove_0), p + 1)),
        p_expect(ts, p + 1, TokV::LParen) == Ok::<int, Seq<char>>(p + 2),
        p_obligation_body(ts, p + 2, d + 1, bound, ob_name(t->Prove_0)) == Ok::<(ObligationV, int), Seq<char>>(
            (t->Prove_0, p + term_toks(t).len()),
        ),
{
    let o = t->Prove_0;
    lemma_ob_name_facts(o);
    let w = ob_name(o);
    let v = ob_arg(o);
    let vt = vterm_toks(v);
    let k = o->Multi_0;
    let x = seq![TokV::Num(k as i128), TokV::Comma] + (vt + seq![TokV::RParen]);
    assert(term_toks(t) =~= seq![TokV::Word(w), TokV::LParen] + x);
    lemma_parse_open(ts, p, w, x);
    assert(seq![TokV::Num(k as i128)] + seq![TokV::Comma] =~= seq![TokV::Num(k as i128), TokV::Comma]);
    lemma_toks_at_split(ts, p + 2, seq![TokV::Num(k as i128), TokV::Comma], vt + seq![TokV::RParen]);
    lemma_toks_at_split(ts, p + 2, seq![TokV::Num(k as i128)], seq![TokV::Comma]);
    lemma_toks_at_one(ts, p + 2, TokV::Num(k as i128));
    lemma_toks_at_one(ts, p + 3, TokV::Comma);
    lemma_toks_at_split(ts, p + 4, vt, seq![TokV::RParen]);
    lemma_toks_at_one(ts, p + 4 + vt.len(), TokV::RParen);
    lemma_parse_vterm(v, d + 1, ts, p + 4, bound);
    assert(((k as i128) as usize) == k);
    assert(count_of(k as i128) == k);
    assert(o == ObligationV::Multi(k, v));
    p + term_toks(t).len()
}

#[verifier::spinoff_prover]
#[verifier::rlimit(60)]
proof fn lemma_parse_key_ob_body(t: BTermV, d: nat, ts: Seq<TokV>, p: int, bound: Set<Seq<char>>) -> (q: int)
    requires
        t is Prove,
        !(t->Prove_0 is Multi),
        !(t->Prove_0 is Attest),
        skeleton(t, d),
        names_ok(t, bound),
        toks_at(ts, p, term_toks(t)),
    ensures
        p_word(ts, p) == Ok::<(Seq<char>, int), Seq<char>>((ob_name(t->Prove_0), p + 1)),
        p_expect(ts, p + 1, TokV::LParen) == Ok::<int, Seq<char>>(p + 2),
        p_obligation_body(ts, p + 2, d + 1, bound, ob_name(t->Prove_0)) == Ok::<(ObligationV, int), Seq<char>>(
            (t->Prove_0, p + term_toks(t).len()),
        ),
{
    let o = t->Prove_0;
    lemma_ob_name_facts(o);
    let w = ob_name(o);
    let v = ob_arg(o);
    let vt = vterm_toks(v);
    let x = vt + seq![TokV::RParen];
    assert(term_toks(t) =~= seq![TokV::Word(w), TokV::LParen] + x);
    lemma_parse_open(ts, p, w, x);
    lemma_toks_at_split(ts, p + 2, vt, seq![TokV::RParen]);
    lemma_toks_at_one(ts, p + 2 + vt.len(), TokV::RParen);
    lemma_parse_vterm(v, d + 1, ts, p + 2, bound);
    reveal_strlit("hashlock");
    reveal_strlit("pk");
    reveal_strlit("pk_h");
    reveal_strlit("pk_any");
    assert("hashlock"@[0] != "pk"@[0] && "hashlock"@[0] != "pk_h"@[0] && "hashlock"@[0] != "pk_any"@[0]);
    p + term_toks(t).len()
}

#[verifier::spinoff_prover]
#[verifier::rlimit(80)]
proof fn lemma_lex_attest(t: BTermV, d: nat, rest: Seq<u8>)
    requires
        t is Prove,
        t->Prove_0 is Attest,
        skeleton(t, d),
        word_stop(rest),
    ensures
        lex_from(encode_utf8(show_term(t)) + rest, 0) == glue(term_toks(t), lex_from(rest, 0)),
    decreases t, 0nat,
{
    lemma_punct_bytes();
    let o = t->Prove_0;
    lemma_ob_name_facts(o);
    let v = o->Attest_0;
    let sc = o->Attest_1;
    let n = match sc {
        Schema::PriceWithinBps { tolerance_bps } => tolerance_bps,
    };
    let w = "attest"@;
    let ps = "price_schema"@;
    reveal_strlit("price_schema");
    reveal_strlit("price_schema(");
    reveal_strlit("(");
    assert(is_name_text(ps));
    assert("price_schema("@ =~= ps + "("@);
    let y = show_vterm(v);
    let dt = nat_text(n as nat);
    assert(t == BTermV::Prove(o));
    assert(show_term(t) == show_obligation(o));
    assert(show_schema(sc) == ps + "("@ + dt + ")"@);
    assert(show_term(t) == w + "("@ + y + ", "@ + (ps + "("@ + dt + ")"@) + ")"@);
    let rr = lex_from(rest, 0);
    let r1 = encode_utf8(")"@) + rest;
    let r2 = encode_utf8(")"@) + r1;
    lemma_nat_text_bytes(n as nat);
    let db = encode_utf8(dt);
    let r3 = db + r2;
    let r4 = encode_utf8(ps + "("@) + r3;
    let r5 = encode_utf8(", "@) + r4;
    lemma_encode_utf8_concat(w + "("@ + y + ", "@ + (ps + "("@ + dt + ")"@), ")"@);
    lemma_encode_utf8_concat(w + "("@ + y + ", "@, ps + "("@ + dt + ")"@);
    lemma_encode_utf8_concat(ps + "("@ + dt, ")"@);
    lemma_encode_utf8_concat(ps + "("@, dt);
    lemma_encode_utf8_concat(w + "("@ + y, ", "@);
    lemma_encode_utf8_concat(w + "("@, y);
    assert(encode_utf8(show_term(t)) + rest =~= encode_utf8(w + "("@) + (encode_utf8(y) + r5));
    lemma_lex_open(w, encode_utf8(y) + r5);
    lemma_lex_vterm(v, d + 1, r5);
    lemma_lex_sep(r4);
    lemma_lex_open(ps, r3);
    assert(r2[0] == 41u8);
    assert(n as nat <= i128::MAX);
    lemma_lex_digits(db, r2);
    lemma_lex_close(r1);
    lemma_lex_close(rest);
    let vt = vterm_toks(v);
    let num = TokV::Num(digits_value(db) as i128);
    assert(num == TokV::Num(n as i128));
    let tail = seq![TokV::Comma, TokV::Word(ps), TokV::LParen, num, TokV::RParen, TokV::RParen];
    lemma_prepend_glue(TokV::RParen, rr);
    lemma_prepend_glue(TokV::RParen, glue(seq![TokV::RParen], rr));
    lemma_glue_glue(seq![TokV::RParen], seq![TokV::RParen], rr);
    lemma_prepend_glue(num, glue(seq![TokV::RParen] + seq![TokV::RParen], rr));
    lemma_glue_glue(seq![num], seq![TokV::RParen] + seq![TokV::RParen], rr);
    lemma_glue_glue(seq![TokV::Word(ps), TokV::LParen], seq![num] + (seq![TokV::RParen] + seq![TokV::RParen]), rr);
    lemma_prepend_glue(TokV::Comma, glue(seq![TokV::Word(ps), TokV::LParen] + (seq![num] + (seq![TokV::RParen] + seq![TokV::RParen])), rr));
    lemma_glue_glue(seq![TokV::Comma], seq![TokV::Word(ps), TokV::LParen] + (seq![num] + (seq![TokV::RParen] + seq![TokV::RParen])), rr);
    assert(seq![TokV::Comma] + (seq![TokV::Word(ps), TokV::LParen] + (seq![num] + (seq![TokV::RParen] + seq![TokV::RParen]))) =~= tail);
    lemma_glue_glue(vt, tail, rr);
    lemma_glue_glue(seq![TokV::Word(w), TokV::LParen], vt + tail, rr);
    assert(seq![TokV::Word(w), TokV::LParen] + (vt + tail) =~= term_toks(t));
}

#[verifier::spinoff_prover]
#[verifier::rlimit(100)]
proof fn lemma_parse_attest_body(t: BTermV, d: nat, ts: Seq<TokV>, p: int, bound: Set<Seq<char>>) -> (q: int)
    requires
        t is Prove,
        t->Prove_0 is Attest,
        skeleton(t, d),
        names_ok(t, bound),
        toks_at(ts, p, term_toks(t)),
    ensures
        p_word(ts, p) == Ok::<(Seq<char>, int), Seq<char>>((ob_name(t->Prove_0), p + 1)),
        p_expect(ts, p + 1, TokV::LParen) == Ok::<int, Seq<char>>(p + 2),
        p_obligation_body(ts, p + 2, d + 1, bound, ob_name(t->Prove_0)) == Ok::<(ObligationV, int), Seq<char>>(
            (t->Prove_0, p + term_toks(t).len()),
        ),
{
    let o = t->Prove_0;
    lemma_ob_name_facts(o);
    let w = ob_name(o);
    let v = o->Attest_0;
    let sc = o->Attest_1;
    let n = match sc {
        Schema::PriceWithinBps { tolerance_bps } => tolerance_bps,
    };
    let vt = vterm_toks(v);
    let ps = "price_schema"@;
    let tail = seq![TokV::Comma, TokV::Word(ps), TokV::LParen, TokV::Num(n as i128), TokV::RParen, TokV::RParen];
    let x = vt + tail;
    assert(term_toks(t) =~= seq![TokV::Word(w), TokV::LParen] + x);
    lemma_parse_open(ts, p, w, x);
    lemma_toks_at_split(ts, p + 2, vt, tail);
    let q = p + 2 + vt.len();
    assert(tail =~= seq![TokV::Comma] + (seq![TokV::Word(ps), TokV::LParen] + (seq![TokV::Num(n as i128)] + (seq![TokV::RParen] + seq![TokV::RParen]))));
    lemma_toks_at_split(ts, q, seq![TokV::Comma], seq![TokV::Word(ps), TokV::LParen] + (seq![TokV::Num(n as i128)] + (seq![TokV::RParen] + seq![TokV::RParen])));
    lemma_toks_at_one(ts, q, TokV::Comma);
    lemma_parse_open(ts, q + 1, ps, seq![TokV::Num(n as i128)] + (seq![TokV::RParen] + seq![TokV::RParen]));
    lemma_toks_at_split(ts, q + 3, seq![TokV::Num(n as i128)], seq![TokV::RParen] + seq![TokV::RParen]);
    lemma_toks_at_one(ts, q + 3, TokV::Num(n as i128));
    lemma_toks_at_split(ts, q + 4, seq![TokV::RParen], seq![TokV::RParen]);
    lemma_toks_at_one(ts, q + 4, TokV::RParen);
    lemma_toks_at_one(ts, q + 5, TokV::RParen);
    lemma_parse_vterm(v, d + 1, ts, p + 2, bound);
    reveal_strlit("price_schema");
    assert(((n as i128) as u32) == n);
    assert(p_word(ts, q + 1) == Ok::<(Seq<char>, int), Seq<char>>((ps, q + 2)));
    assert(p_num(ts, q + 3) == Ok::<(i128, int), Seq<char>>((n as i128, q + 4)));
    assert(p_schema(ts, q + 1) == Ok::<(Schema, int), Seq<char>>((sc, q + 5)));
    assert(p_vterm(ts, p + 2, d + 1, bound) == Ok::<(VTermV, int), Seq<char>>((v, q)));
    assert(p_expect(ts, q, TokV::Comma) == Ok::<int, Seq<char>>(q + 1));
    assert(p_expect(ts, q + 5, TokV::RParen) == Ok::<int, Seq<char>>(q + 6));
    assert(w == "attest"@);
    reveal_strlit("attest");
    reveal_strlit("pk");
    reveal_strlit("pk_h");
    reveal_strlit("pk_any");
    reveal_strlit("hashlock");
    reveal_strlit("multi");
    reveal_strlit("pk_threshold");
    assert(w[0] != "pk"@[0] && w[0] != "pk_h"@[0] && w[0] != "pk_any"@[0] && w[0] != "hashlock"@[0]);
    assert(w[0] != "multi"@[0] && w[0] != "pk_threshold"@[0]);
    assert(!(w == "pk"@ || w == "pk_h"@ || w == "pk_any"@ || w == "hashlock"@));
    assert(!(w == "multi"@ || w == "pk_threshold"@));
    assert(o == ObligationV::Attest(v, sc));
    p + term_toks(t).len()
}

#[verifier::spinoff_prover]
#[verifier::rlimit(100)]
proof fn lemma_parse_cmp(t: BTermV, d: nat, ts: Seq<TokV>, p: int, bound: Set<Seq<char>>)
    requires
        t is Cmp,
        skeleton(t, d),
        names_ok(t, bound),
        toks_at(ts, p, term_toks(t)),
    ensures
        p_bterm(ts, p, d, bound) == Ok::<(BTermV, int), Seq<char>>((t, p + term_toks(t).len())),
    decreases t, 0nat,
{
    match t {
        BTermV::Cmp(o, a, b) => {
            lemma_cmp_word_facts(o);
            let w = comparison_word(o);
            let ta = vterm_toks(a);
            let tb = vterm_toks(b);
            let x = ta + (seq![TokV::Comma] + (tb + seq![TokV::RParen]));
            assert(term_toks(t) =~= seq![TokV::Word(w), TokV::LParen] + x);
            lemma_parse_open(ts, p, w, x);
            lemma_toks_at_split(ts, p + 2, ta, seq![TokV::Comma] + (tb + seq![TokV::RParen]));
            let q = p + 2 + ta.len();
            lemma_toks_at_split(ts, q, seq![TokV::Comma], tb + seq![TokV::RParen]);
            lemma_toks_at_split(ts, q + 1, tb, seq![TokV::RParen]);
            lemma_toks_at_one(ts, q, TokV::Comma);
            lemma_toks_at_one(ts, q + 1 + tb.len(), TokV::RParen);
            lemma_parse_vterm(a, d + 1, ts, p + 2, bound);
            lemma_parse_vterm(b, d + 1, ts, q + 1, bound);
            assert(p_vterm_pair(ts, p + 2, d + 1, bound) == Ok::<((VTermV, VTermV), int), Seq<char>>(
                ((a, b), q + 1 + tb.len() + 1),
            ));
            assert(p_bterm_inner(ts, p, d + 1, bound) == Ok::<(BTermV, int), Seq<char>>(
                (t, p + term_toks(t).len()),
            ));
        },
        _ => {},
    }
}

// ---------------------------------------------------------------------------------------------
// Match
// ---------------------------------------------------------------------------------------------

proof fn lemma_match_words()
    ensures
        is_name_text("match"@),
        is_name_text("branch"@),
        is_name_text("else"@),
        is_key_text("else"@),
        "match"@ != "true"@ && "match"@ != "false"@ && "match"@ != "and"@ && "match"@ != "or"@,
        "match"@ != "thresh"@ && "match"@ != "not"@ && "match"@ != "if"@,
        "match"@ != "wsh"@ && "match"@ != "with"@,
        "match("@ == "match"@ + "("@,
        ", branch("@ == ", "@ + ("branch"@ + "("@),
        ", branch(else, "@ == ", "@ + ("branch"@ + "("@) + "else"@ + ", "@,
        "))"@ == ")"@ + ")"@,
{
    reveal_strlit("match");
    reveal_strlit("branch");
    reveal_strlit("else");
    reveal_strlit("true");
    reveal_strlit("false");
    reveal_strlit("and");
    reveal_strlit("or");
    reveal_strlit("thresh");
    reveal_strlit("not");
    reveal_strlit("if");
    reveal_strlit("wsh");
    reveal_strlit("with");
    reveal_strlit("match(");
    reveal_strlit(", branch(");
    reveal_strlit(", branch(else, ");
    reveal_strlit("))");
    reveal_strlit(")");
    reveal_strlit("(");
    reveal_strlit(", ");
    assert("match"@.len() == 5 && "false"@.len() == 5 && "match"@[0] != "false"@[0]);
    assert("true"@.len() == 4 && "with"@.len() == 4 && "and"@.len() == 3 && "or"@.len() == 2);
    assert("thresh"@.len() == 6 && "not"@.len() == 3 && "if"@.len() == 2 && "wsh"@.len() == 3);
    assert("match("@ =~= "match"@ + "("@);
    assert(", branch("@ =~= ", "@ + ("branch"@ + "("@));
    assert(", branch(else, "@ =~= ", "@ + ("branch"@ + "("@) + "else"@ + ", "@);
    assert("))"@ =~= ")"@ + ")"@);
}

proof fn lemma_show_arms_cons(s: Seq<(Seq<char>, BTermV)>)
    requires
        s.len() >= 1,
    ensures
        show_arms(s) == ", branch("@ + s[0].0 + ", "@ + show_term(s[0].1) + ")"@ + show_arms(s.drop_first()),
    decreases s.len(),
{
    let init = s.drop_last();
    if s.len() == 1 {
        assert(init =~= Seq::<(Seq<char>, BTermV)>::empty());
        assert(s.drop_first() =~= Seq::<(Seq<char>, BTermV)>::empty());
        assert(show_arms(init) == Seq::<char>::empty());
        assert(show_arms(s.drop_first()) == Seq::<char>::empty());
        assert(s.last() == s[0]);
        assert(show_arms(s) =~= ", branch("@ + s[0].0 + ", "@ + show_term(s[0].1) + ")"@ + show_arms(
            s.drop_first(),
        ));
    } else {
        lemma_show_arms_cons(init);
        assert(init.drop_first() =~= s.drop_first().drop_last());
        assert(init[0] == s[0]);
        assert(s.drop_first().last() == s.last());
        assert(show_arms(s) =~= ", branch("@ + s[0].0 + ", "@ + show_term(s[0].1) + ")"@ + show_arms(
            s.drop_first(),
        ));
    }
}

/// The bytes of `branch(tag, body)`, followed by bytes that cannot continue a word.
#[verifier::spinoff_prover]
#[verifier::rlimit(40)]
proof fn lemma_lex_arm(tag: Seq<char>, body: BTermV, d: nat, rest: Seq<u8>)
    requires
        is_key_text(tag),
        skeleton(body, d),
        word_stop(rest),
    ensures
        lex_from(encode_utf8("branch"@ + "("@ + tag + ", "@ + show_term(body) + ")"@) + rest, 0) == glue(
            arm_toks(tag, body),
            lex_from(rest, 0),
        ),
    decreases body, 2nat,
{
    lemma_match_words();
    lemma_punct_bytes();
    let st = show_term(body);
    lemma_encode_utf8_concat("branch"@ + "("@ + tag + ", "@ + st, ")"@);
    lemma_encode_utf8_concat("branch"@ + "("@ + tag + ", "@, st);
    lemma_encode_utf8_concat("branch"@ + "("@ + tag, ", "@);
    lemma_encode_utf8_concat("branch"@ + "("@, tag);
    let r1 = encode_utf8(")"@) + rest;
    let r2 = encode_utf8(st) + r1;
    let r3 = encode_utf8(", "@) + r2;
    let kb = encode_utf8(tag);
    assert(encode_utf8("branch"@ + "("@ + tag + ", "@ + st + ")"@) + rest =~= encode_utf8("branch"@ + "("@) + (
    kb + r3));
    lemma_lex_open("branch"@, kb + r3);
    lemma_key_bytes(tag);
    assert(r3[0] == 44u8);
    lemma_lex_word(kb, r3);
    lemma_lex_sep(r2);
    lemma_lex_term(body, d, r1);
    lemma_lex_close(rest);
    let rr = lex_from(rest, 0);
    let tb = term_toks(body);
    lemma_prepend_glue(TokV::RParen, rr);
    lemma_glue_glue(tb, seq![TokV::RParen], rr);
    lemma_prepend_glue(TokV::Comma, glue(tb + seq![TokV::RParen], rr));
    lemma_glue_glue(seq![TokV::Comma], tb + seq![TokV::RParen], rr);
    lemma_prepend_glue(TokV::Word(tag), glue(seq![TokV::Comma] + (tb + seq![TokV::RParen]), rr));
    lemma_glue_glue(seq![TokV::Word(tag)], seq![TokV::Comma] + (tb + seq![TokV::RParen]), rr);
    lemma_glue_glue(seq![TokV::Word("branch"@), TokV::LParen], seq![TokV::Word(tag)] + (seq![TokV::Comma] + (
    tb + seq![TokV::RParen])), rr);
    assert(seq![TokV::Word("branch"@), TokV::LParen] + (seq![TokV::Word(tag)] + (seq![TokV::Comma] + (tb
        + seq![TokV::RParen]))) =~= arm_toks(tag, body));
}

/// Printed tagged arms, then `, ` and more, read as a comma, then each arm's tokens followed by a
/// comma.
#[verifier::spinoff_prover]
proof fn lemma_lex_arms(arms: Seq<(Seq<char>, BTermV)>, d: nat, rest: Seq<u8>)
    requires
        arms_ok(arms, d),
    ensures
        lex_from(encode_utf8(show_arms(arms)) + (encode_utf8(", "@) + rest), 0) == glue(
            seq![TokV::Comma] + arms_toks(arms),
            lex_from(rest, 0),
        ),
    decreases arms, 2nat,
{
    lemma_match_words();
    lemma_punct_bytes();
    let rr = lex_from(rest, 0);
    if arms.len() == 0 {
        assert(encode_utf8(show_arms(arms)) + (encode_utf8(", "@) + rest) =~= encode_utf8(", "@) + rest);
        lemma_lex_sep(rest);
        lemma_prepend_glue(TokV::Comma, rr);
        assert(seq![TokV::Comma] + arms_toks(arms) =~= seq![TokV::Comma]);
    } else {
        lemma_show_arms_cons(arms);
        let (tag, body) = arms[0];
        assert(is_key_text(arms[0].0) && arms[0].0 != "else"@ && skeleton(arms[0].1, d));
        let tail = arms.drop_first();
        let xt = "branch"@ + "("@ + tag + ", "@ + show_term(body) + ")"@;
        assert(", branch("@ + tag + ", "@ + show_term(body) + ")"@ == ", "@ + xt);
        let sa = show_arms(tail);
        lemma_encode_utf8_concat(", "@ + xt, sa);
        lemma_encode_utf8_concat(", "@, xt);
        let r1 = encode_utf8(sa) + (encode_utf8(", "@) + rest);
        assert(encode_utf8(show_arms(arms)) + (encode_utf8(", "@) + rest) =~= encode_utf8(", "@) + (encode_utf8(
            xt,
        ) + r1));
        lemma_lex_sep(encode_utf8(xt) + r1);
        let r1b = encode_utf8(sa) + (encode_utf8(", "@) + rest);
        assert(word_stop(r1)) by {
            if sa.len() > 0 {
                lemma_show_arms_cons(tail);
                lemma_encode_utf8_concat(", "@, "branch"@ + "("@ + tail[0].0 + ", "@ + show_term(tail[0].1)
                    + ")"@);
            }
            assert(encode_utf8(sa).len() == 0 ==> r1 =~= encode_utf8(", "@) + rest);
        }
        lemma_lex_arm(tag, body, d, r1);
        lemma_lex_arms(tail, d, rest);
        let at = arm_toks(tag, body);
        let tt = arms_toks(tail);
        lemma_glue_glue(at, seq![TokV::Comma] + tt, rr);
        lemma_prepend_glue(TokV::Comma, glue(at + (seq![TokV::Comma] + tt), rr));
        lemma_glue_glue(seq![TokV::Comma], at + (seq![TokV::Comma] + tt), rr);
        assert(seq![TokV::Comma] + (at + (seq![TokV::Comma] + tt)) =~= seq![TokV::Comma] + arms_toks(arms));
    }
}

proof fn lemma_arms_bytes_head(arms: Seq<(Seq<char>, BTermV)>, rest: Seq<u8>)
    ensures
        word_stop(encode_utf8(show_arms(arms)) + (encode_utf8(", "@) + rest)),
{
    lemma_punct_bytes();
    lemma_match_words();
    if arms.len() > 0 {
        lemma_show_arms_cons(arms);
        let x = "branch"@ + "("@ + arms[0].0 + ", "@ + show_term(arms[0].1) + ")"@;
        assert(", branch("@ + arms[0].0 + ", "@ + show_term(arms[0].1) + ")"@ == ", "@ + x);
        lemma_encode_utf8_concat(", "@ + x, show_arms(arms.drop_first()));
        lemma_encode_utf8_concat(", "@, x);
    } else {
        assert(encode_utf8(show_arms(arms)) + (encode_utf8(", "@) + rest) =~= encode_utf8(", "@) + rest);
    }
}

#[verifier::spinoff_prover]
#[verifier::rlimit(60)]
proof fn lemma_lex_match(t: BTermV, d: nat, rest: Seq<u8>)
    requires
        t is Match,
        skeleton(t, d),
        word_stop(rest),
    ensures
        lex_from(encode_utf8(show_term(t)) + rest, 0) == glue(term_toks(t), lex_from(rest, 0)),
    decreases t, 0nat,
{
    lemma_match_words();
    lemma_punct_bytes();
    match t {
        BTermV::Match(sc, arms, dflt) => {
            let sv = show_vterm(sc);
            let sa = show_arms(arms);
            let sd = show_term(*dflt);
            let xe = "branch"@ + "("@ + "else"@ + ", "@ + sd + ")"@;
            assert(show_term(t) == "match"@ + "("@ + sv + sa + ", "@ + xe + ")"@);
            lemma_encode_utf8_concat("match"@ + "("@ + sv + sa + ", "@ + xe, ")"@);
            lemma_encode_utf8_concat("match"@ + "("@ + sv + sa + ", "@, xe);
            lemma_encode_utf8_concat("match"@ + "("@ + sv + sa, ", "@);
            lemma_encode_utf8_concat("match"@ + "("@ + sv, sa);
            lemma_encode_utf8_concat("match"@ + "("@, sv);
            let r1 = encode_utf8(")"@) + rest;
            let r2 = encode_utf8(xe) + r1;
            let r3 = encode_utf8(sa) + (encode_utf8(", "@) + r2);
            assert(encode_utf8(show_term(t)) + rest =~= encode_utf8("match"@ + "("@) + (encode_utf8(sv) + r3));
            lemma_lex_open("match"@, encode_utf8(sv) + r3);
            lemma_arms_bytes_head(arms, r2);
            lemma_lex_vterm(sc, d + 1, r3);
            lemma_lex_arms(arms, d + 1, r2);
            lemma_lex_arm("else"@, *dflt, d + 1, r1);
            lemma_lex_close(rest);
            let rr = lex_from(rest, 0);
            let vt = vterm_toks(sc);
            let ca = seq![TokV::Comma] + arms_toks(arms);
            let ae = arm_toks("else"@, *dflt);
            lemma_prepend_glue(TokV::RParen, rr);
            lemma_glue_glue(ae, seq![TokV::RParen], rr);
            lemma_glue_glue(ca, ae + seq![TokV::RParen], rr);
            lemma_glue_glue(vt, ca + (ae + seq![TokV::RParen]), rr);
            lemma_glue_glue(seq![TokV::Word("match"@), TokV::LParen], vt + (ca + (ae + seq![TokV::RParen])), rr);
            assert(seq![TokV::Word("match"@), TokV::LParen] + (vt + (ca + (ae + seq![TokV::RParen])))
                =~= term_toks(t));
        },
        _ => {},
    }
}

/// The reads of one `branch(tag, body)`, given that its body reads back.
#[verifier::spinoff_prover]
proof fn lemma_parse_one_arm(tag: Seq<char>, body: BTermV, e: nat, ts: Seq<TokV>, p: int, bound: Set<Seq<char>>)
    requires
        toks_at(ts, p, arm_toks(tag, body)),
        p_bterm(ts, p + 4, e, bound) == Ok::<(BTermV, int), Seq<char>>(
            (body, p + 4 + term_toks(body).len()),
        ),
    ensures
        p_word(ts, p) == Ok::<(Seq<char>, int), Seq<char>>(("branch"@, p + 1)),
        p_expect(ts, p + 1, TokV::LParen) == Ok::<int, Seq<char>>(p + 2),
        p_word(ts, p + 2) == Ok::<(Seq<char>, int), Seq<char>>((tag, p + 3)),
        p_expect(ts, p + 3, TokV::Comma) == Ok::<int, Seq<char>>(p + 4),
        p_expect(ts, p + 4 + term_toks(body).len(), TokV::RParen) == Ok::<int, Seq<char>>(
            p + arm_toks(tag, body).len(),
        ),
{
    let tb = term_toks(body);
    let x = seq![TokV::Word(tag), TokV::Comma] + (tb + seq![TokV::RParen]);
    assert(arm_toks(tag, body) =~= seq![TokV::Word("branch"@), TokV::LParen] + x);
    lemma_parse_open(ts, p, "branch"@, x);
    assert(seq![TokV::Word(tag)] + seq![TokV::Comma] =~= seq![TokV::Word(tag), TokV::Comma]);
    lemma_toks_at_split(ts, p + 2, seq![TokV::Word(tag), TokV::Comma], tb + seq![TokV::RParen]);
    lemma_toks_at_split(ts, p + 2, seq![TokV::Word(tag)], seq![TokV::Comma]);
    lemma_toks_at_one(ts, p + 2, TokV::Word(tag));
    lemma_toks_at_one(ts, p + 3, TokV::Comma);
    lemma_toks_at_split(ts, p + 4, tb, seq![TokV::RParen]);
    lemma_toks_at_one(ts, p + 4 + tb.len(), TokV::RParen);
}

/// The body of an arm at position `p` of the tokens.
proof fn lemma_arm_body_at(tag: Seq<char>, body: BTermV, ts: Seq<TokV>, p: int)
    requires
        toks_at(ts, p, arm_toks(tag, body)),
    ensures
        toks_at(ts, p + 4, term_toks(body)),
{
    let tb = term_toks(body);
    assert(arm_toks(tag, body) =~= seq![TokV::Word("branch"@), TokV::LParen, TokV::Word(tag), TokV::Comma]
        + (tb + seq![TokV::RParen]));
    lemma_toks_at_split(ts, p, seq![TokV::Word("branch"@), TokV::LParen, TokV::Word(tag), TokV::Comma], tb
        + seq![TokV::RParen]);
    lemma_toks_at_split(ts, p + 4, tb, seq![TokV::RParen]);
}

/// The branches of a printed `match`, through its `)`, read back as its arms and `else` body,
/// given that the `else` body reads back.
#[verifier::spinoff_prover]
#[verifier::rlimit(60)]
proof fn lemma_parse_arms(
    arms: Seq<(Seq<char>, BTermV)>,
    dflt: BTermV,
    e: nat,
    ts: Seq<TokV>,
    p: int,
    bound: Set<Seq<char>>,
)
    requires
        arms_ok(arms, e),
        arms_names_ok(arms, bound),
        toks_at(ts, p, arms_toks(arms) + (arm_toks("else"@, dflt) + seq![TokV::RParen])),
        p_bterm(ts, p + arms_toks(arms).len() + 4, e, bound) == Ok::<(BTermV, int), Seq<char>>(
            (dflt, p + arms_toks(arms).len() + 4 + term_toks(dflt).len()),
        ),
    ensures
        p_arms(ts, p, e, bound) == Ok::<((Seq<(Seq<char>, BTermV)>, Option<BTermV>), int), Seq<char>>(
            ((arms, Some(dflt)), p + arms_toks(arms).len() + arm_toks("else"@, dflt).len() + 1),
        ),
    decreases arms, 2nat,
{
    lemma_match_words();
    if arms.len() == 0 {
        let ae = arm_toks("else"@, dflt);
        assert(arms_toks(arms) + (ae + seq![TokV::RParen]) =~= ae + seq![TokV::RParen]);
        lemma_toks_at_split(ts, p, ae, seq![TokV::RParen]);
        lemma_parse_one_arm("else"@, dflt, e, ts, p, bound);
        lemma_toks_at_one(ts, p + ae.len(), TokV::RParen);
        assert(arms =~= Seq::<(Seq<char>, BTermV)>::empty());
    } else {
        let tag = arms[0].0;
        let body = arms[0].1;
        assert(is_key_text(tag) && tag != "else"@ && skeleton(body, e));
        assert(names_ok(body, bound));
        let tail = arms.drop_first();
        let a0 = arm_toks(tag, body);
        let rest = arms_toks(tail) + (arm_toks("else"@, dflt) + seq![TokV::RParen]);
        assert(arms_toks(arms) + (arm_toks("else"@, dflt) + seq![TokV::RParen]) =~= a0 + (seq![TokV::Comma]
            + rest));
        lemma_toks_at_split(ts, p, a0, seq![TokV::Comma] + rest);
        lemma_toks_at_split(ts, p + a0.len(), seq![TokV::Comma], rest);
        lemma_arm_body_at(tag, body, ts, p);
        lemma_parse_term(body, e, ts, p + 4, bound);
        lemma_parse_one_arm(tag, body, e, ts, p, bound);
        lemma_toks_at_one(ts, p + a0.len(), TokV::Comma);
        assert(arms_toks(arms).len() == a0.len() + 1 + arms_toks(tail).len());
        lemma_parse_arms(tail, dflt, e, ts, p + a0.len() + 1, bound);
        assert(seq![(tag, body)] + tail =~= arms);
    }
}

#[verifier::spinoff_prover]
proof fn lemma_inner_match(ts: Seq<TokV>, p: int, e: nat, bound: Set<Seq<char>>)
    requires
        p_word(ts, p) == Ok::<(Seq<char>, int), Seq<char>>(("match"@, p + 1)),
        p_expect(ts, p + 1, TokV::LParen) == Ok::<int, Seq<char>>(p + 2),
    ensures
        p_bterm_inner(ts, p, e, bound) == p_match(ts, p + 2, e, bound),
{
    lemma_match_words();
}

#[verifier::spinoff_prover]
#[verifier::rlimit(60)]
proof fn lemma_parse_match(t: BTermV, d: nat, ts: Seq<TokV>, p: int, bound: Set<Seq<char>>)
    requires
        t is Match,
        skeleton(t, d),
        names_ok(t, bound),
        toks_at(ts, p, term_toks(t)),
    ensures
        p_bterm(ts, p, d, bound) == Ok::<(BTermV, int), Seq<char>>((t, p + term_toks(t).len())),
    decreases t, 0nat,
{
    match t {
        BTermV::Match(sc, arms, dflt) => {
            let vt = vterm_toks(sc);
            let ae = arm_toks("else"@, *dflt);
            let rest = arms_toks(arms) + (ae + seq![TokV::RParen]);
            let x = vt + (seq![TokV::Comma] + rest);
            assert(term_toks(t) =~= seq![TokV::Word("match"@), TokV::LParen] + x);
            lemma_parse_open(ts, p, "match"@, x);
            lemma_toks_at_split(ts, p + 2, vt, seq![TokV::Comma] + rest);
            let q = p + 2 + vt.len();
            lemma_toks_at_split(ts, q, seq![TokV::Comma], rest);
            lemma_toks_at_one(ts, q, TokV::Comma);
            lemma_parse_vterm(sc, d + 1, ts, p + 2, bound);
            let pe = q + 1 + arms_toks(arms).len();
            lemma_toks_at_split(ts, q + 1, arms_toks(arms), ae + seq![TokV::RParen]);
            lemma_toks_at_split(ts, pe, ae, seq![TokV::RParen]);
            lemma_arm_body_at("else"@, *dflt, ts, pe);
            lemma_parse_term(*dflt, d + 1, ts, pe + 4, bound);
            lemma_parse_arms(arms, *dflt, d + 1, ts, q + 1, bound);
            assert(p_match(ts, p + 2, d + 1, bound) == Ok::<(BTermV, int), Seq<char>>(
                (t, p + term_toks(t).len()),
            ));
            lemma_inner_match(ts, p, d + 1, bound);
        },
        _ => {},
    }
}


/// Reading a comparison operator's written symbol, by the lexer and then by the parser's
/// operator reader, gives back that operator: `cmp(>, a, b)` is a greater-than comparison,
/// `cmp(<=, a, b)` a less-or-equal one, and so for each of the five.
pub proof fn lemma_comparison_symbols(o: CmpOp)
    ensures
        lex_spec(o.spec_name()) matches Ok(ts) && ts.len() == 1 && p_comparison(ts, 0) == Ok::<
            (CmpOp, int),
            Seq<char>,
        >((o, 1)),
{
    reveal_with_fuel(lex_from, 3);
    match o {
        CmpOp::Eq => {
            reveal_strlit("=");
            is_ascii_chars_encode_utf8("="@);
            let b = encode_utf8("="@);
            assert(b =~= seq![61u8]);
            assert(lex_from(b, 1) == Ok::<Seq<TokV>, Seq<char>>(Seq::empty()));
            assert(lex_from(b, 0) == Ok::<Seq<TokV>, Seq<char>>(seq![TokV::Eq]));
        },
        CmpOp::Lt => {
            reveal_strlit("<");
            is_ascii_chars_encode_utf8("<"@);
            let b = encode_utf8("<"@);
            assert(b =~= seq![60u8]);
            assert(lex_from(b, 1) == Ok::<Seq<TokV>, Seq<char>>(Seq::empty()));
            assert(lex_from(b, 0) == Ok::<Seq<TokV>, Seq<char>>(seq![TokV::Lt]));
        },
        CmpOp::Le => {
            reveal_strlit("<=");
            is_ascii_chars_encode_utf8("<="@);
            let b = encode_utf8("<="@);
            assert(b =~= seq![60u8, 61u8]);
            assert(lex_from(b, 2) == Ok::<Seq<TokV>, Seq<char>>(Seq::empty()));
            assert(lex_from(b, 0) == Ok::<Seq<TokV>, Seq<char>>(seq![TokV::Le]));
        },
        CmpOp::Gt => {
            reveal_strlit(">");
            is_ascii_chars_encode_utf8(">"@);
            let b = encode_utf8(">"@);
            assert(b =~= seq![62u8]);
            assert(lex_from(b, 1) == Ok::<Seq<TokV>, Seq<char>>(Seq::empty()));
            assert(lex_from(b, 0) == Ok::<Seq<TokV>, Seq<char>>(seq![TokV::Gt]));
        },
        CmpOp::Ge => {
            reveal_strlit(">=");
            is_ascii_chars_encode_utf8(">="@);
            let b = encode_utf8(">="@);
            assert(b =~= seq![62u8, 61u8]);
            assert(lex_from(b, 2) == Ok::<Seq<TokV>, Seq<char>>(Seq::empty()));
            assert(lex_from(b, 0) == Ok::<Seq<TokV>, Seq<char>>(seq![TokV::Ge]));
        },
    }
}

} // verus!
