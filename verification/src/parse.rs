//! The parser of the source syntax: a recursive descent over the lexer's tokens.
//!
//! The surface is `combinator(arg, ...)`, extended with the `with(name = literal, ..., in body)`
//! constant-binding form, `[..]` list literals, and comparison operators as `cmp` arguments. A
//! name is dispatched into the boolean combinators, the comparison predicates, the proof
//! obligations and the state predicates, in that order; in value position a word followed by `(`
//! applies a value function, and a bare word is a constant reference when a `with(...)` binds it
//! and a key otherwise. Nesting is bounded by [`MAX_DEPTH`].
//!
//! Each parser is specified by a function over the token sequence that returns the value read and
//! the position after it, or the error message. Positions only move forward; the list readers
//! state that as a guard.
use vstd::prelude::*;
use vstd::utf8::encode_utf8;

use crate::ast::{
    BTerm, BTermV, HashFn, HashV, HashValue, Obligation, ObligationV, Schema, Value, ValueV, VTerm,
    VTermV, group_views, lemma_terms_view, lemma_values_view, lemma_vterms_view, lemma_arms_view,
    terms_view, values_view, vterms_view, arms_view,
};
use crate::decode::{array20, array32, is_canonical_name};
use crate::descriptor::Descriptor;
use crate::decode::canonical_name;
use crate::bytes::str_equal;
use crate::lex::{Tok, TokV, lex, lex_spec, tok_text, toks_view};
use crate::maps::{NameMap, SortedMap, keys_sorted, lookup};
use crate::limits::MAX_DEPTH;
use crate::print::{nat_text, push_count, push_int};
use crate::registry::{CmpOp, StatePred, Symbol, ValueFn};

verus! {

/// What a reader returns: the value read and the position after it, or the error message.
pub type PRes<T> = Result<(T, int), Seq<char>>;

// ---------------------------------------------------------------------------------------------
// Tokens
// ---------------------------------------------------------------------------------------------

/// The token at position `p`, if any.
pub open spec fn tok_at(ts: Seq<TokV>, p: int) -> Option<TokV> {
    if 0 <= p < ts.len() {
        Some(ts[p])
    } else {
        None
    }
}

/// How an optional token is shown in error messages.
pub open spec fn opt_tok_text(t: Option<TokV>) -> Seq<char> {
    match t {
        None => "None"@,
        Some(x) => "Some("@ + tok_text(x) + ")"@,
    }
}

/// The next token.
pub open spec fn p_next(ts: Seq<TokV>, p: int) -> PRes<TokV> {
    if 0 <= p < ts.len() {
        Ok((ts[p], p + 1))
    } else {
        Err("unexpected end of input"@)
    }
}

/// The next token, which must be `want`.
pub open spec fn p_expect(ts: Seq<TokV>, p: int, want: TokV) -> Result<int, Seq<char>> {
    match p_next(ts, p) {
        Err(e) => Err(e),
        Ok((t, q)) => if t == want {
            Ok(q)
        } else {
            Err("expected "@ + tok_text(want) + ", found "@ + tok_text(t))
        },
    }
}

/// The next token, which must be a word.
pub open spec fn p_word(ts: Seq<TokV>, p: int) -> PRes<Seq<char>> {
    match p_next(ts, p) {
        Err(e) => Err(e),
        Ok((TokV::Word(w), q)) => Ok((w, q)),
        Ok((t, _)) => Err("expected an identifier, found "@ + tok_text(t)),
    }
}

/// The next token, which must be an integer.
pub open spec fn p_num(ts: Seq<TokV>, p: int) -> PRes<i128> {
    match p_next(ts, p) {
        Err(e) => Err(e),
        Ok((TokV::Num(n), q)) => Ok((n, q)),
        Ok((t, _)) => Err("expected an integer, found "@ + tok_text(t)),
    }
}

/// The next token, which must be a comparison operator.
pub open spec fn p_comparison(ts: Seq<TokV>, p: int) -> PRes<CmpOp> {
    match p_next(ts, p) {
        Err(e) => Err(e),
        Ok((TokV::Eq, q)) => Ok((CmpOp::Eq, q)),
        Ok((TokV::Lt, q)) => Ok((CmpOp::Lt, q)),
        Ok((TokV::Le, q)) => Ok((CmpOp::Le, q)),
        Ok((TokV::Gt, q)) => Ok((CmpOp::Gt, q)),
        Ok((TokV::Ge, q)) => Ok((CmpOp::Ge, q)),
        Ok((t, _)) => Err("expected a comparison operator, found "@ + tok_text(t)),
    }
}

/// A count read as an integer literal, converted as `as usize` converts.
pub open spec fn count_of(k: i128) -> usize {
    k as usize
}

/// The message for nesting deeper than [`MAX_DEPTH`].
pub open spec fn too_deep() -> Seq<char> {
    "nesting too deep (> "@ + nat_text(MAX_DEPTH as nat) + ")"@
}

// ---------------------------------------------------------------------------------------------
// Hex and hash literals
// ---------------------------------------------------------------------------------------------

/// The value of a hexadecimal digit, either case.
pub open spec fn hex_value(c: char) -> Option<u8> {
    if '0' <= c <= '9' {
        Some((c as u32 - 48) as u8)
    } else if 'a' <= c <= 'f' {
        Some((c as u32 - 87) as u8)
    } else if 'A' <= c <= 'F' {
        Some((c as u32 - 55) as u8)
    } else {
        None
    }
}

/// The bytes of an even-length hex string, or the message rejecting it.
pub open spec fn hex_bytes(s: Seq<char>) -> Result<Seq<u8>, Seq<char>> {
    if s.len() % 2 != 0 {
        Err("hex literal has an odd number of digits"@)
    } else if exists|i: int| 0 <= i < s.len() && (#[trigger] hex_value(s[i])) is None {
        Err("invalid hex in `"@ + s + "`"@)
    } else {
        Ok(
            Seq::new(
                s.len() / 2,
                |i: int| (hex_value(s[2 * i])->Some_0 * 16 + hex_value(s[2 * i + 1])->Some_0) as u8,
            ),
        )
    }
}

/// Whether a word starts with `0x`.
pub open spec fn has_hex_prefix(w: Seq<char>) -> bool {
    w.len() >= 2 && w[0] == '0' && w[1] == 'x'
}

/// The hash functions literals may name.
pub open spec fn hash_fn_named(w: Seq<char>) -> Option<HashFn> {
    if w == "sha256"@ {
        Some(HashFn::Sha256)
    } else if w == "hash256"@ {
        Some(HashFn::Hash256)
    } else if w == "ripemd160"@ {
        Some(HashFn::Ripemd160)
    } else if w == "hash160"@ {
        Some(HashFn::Hash160)
    } else {
        None
    }
}

/// A hash literal: the function's name and a `0x`-prefixed digest of its length.
pub open spec fn hash_literal(f: HashFn, name: Seq<char>, hexword: Seq<char>) -> Result<HashV, Seq<char>> {
    if !has_hex_prefix(hexword) {
        Err("hash literal digest must be 0x-prefixed"@)
    } else {
        match hex_bytes(hexword.subrange(2, hexword.len() as int)) {
            Err(e) => Err(e),
            Ok(b) => {
                let want: nat = match f {
                    HashFn::Sha256 | HashFn::Hash256 => 32,
                    HashFn::Ripemd160 | HashFn::Hash160 => 20,
                };
                if b.len() == want {
                    Ok(HashV { func: f, digest: b })
                } else if want == 32 {
                    Err(name + " digest must be 32 bytes"@)
                } else {
                    Err(name + " digest must be 20 bytes"@)
                }
            },
        }
    }
}

/// A hash literal starting at the word `w` at position `p`, written `f(0x..)` or `f:0x..`; `None`
/// when `w` does not start one.
pub open spec fn p_hash(ts: Seq<TokV>, p: int, w: Seq<char>) -> Option<PRes<HashV>> {
    match hash_fn_named(w) {
        None => None,
        Some(f) => if tok_at(ts, p + 1) == Some(TokV::LParen) {
            Some(
                match p_word(ts, p + 2) {
                    Err(e) => Err(e),
                    Ok((hexword, q)) => match p_expect(ts, q, TokV::RParen) {
                        Err(e) => Err(e),
                        Ok(q2) => match hash_literal(f, w, hexword) {
                            Err(e) => Err(e),
                            Ok(h) => Ok((h, q2)),
                        },
                    },
                },
            )
        } else if tok_at(ts, p + 1) == Some(TokV::Colon) {
            Some(
                match p_word(ts, p + 2) {
                    Err(e) => Err(e),
                    Ok((hexword, q)) => match hash_literal(f, w, hexword) {
                        Err(e) => Err(e),
                        Ok(h) => Ok((h, q)),
                    },
                },
            )
        } else {
            None
        },
    }
}

/// A `0x..` byte literal, non-empty.
pub open spec fn bytes_literal(w: Seq<char>) -> Result<Seq<u8>, Seq<char>> {
    let hex = w.subrange(2, w.len() as int);
    if hex.len() == 0 {
        Err("empty hex literal `0x`"@)
    } else {
        hex_bytes(hex)
    }
}

// ---------------------------------------------------------------------------------------------
// Literals, value terms and terms
// ---------------------------------------------------------------------------------------------

/// The measure that bounds the depth of nested readers.
pub open spec fn room(d: nat) -> nat {
    if d <= MAX_DEPTH + 1 {
        (MAX_DEPTH + 1 - d) as nat
    } else {
        0
    }
}

/// A literal value read at nesting depth `d`.
pub open spec fn p_literal(ts: Seq<TokV>, p: int, d: nat) -> PRes<ValueV>
    decreases room(d), 0nat, 0nat,
{
    if d >= MAX_DEPTH {
        Err(too_deep())
    } else {
        p_literal_inner(ts, p, d + 1)
    }
}

/// A literal value, one level in.
pub open spec fn p_literal_inner(ts: Seq<TokV>, p: int, e: nat) -> PRes<ValueV>
    decreases room(e), 3nat, 0nat,
{
    match tok_at(ts, p) {
        Some(TokV::LBracket) => if tok_at(ts, p + 1) == Some(TokV::RBracket) {
            Ok((ValueV::List(Seq::empty()), p + 2))
        } else {
            match p_literal_items(ts, p + 1, e) {
                Err(m) => Err(m),
                Ok((items, q)) => Ok((ValueV::List(items), q)),
            }
        },
        Some(TokV::Num(n)) => Ok((ValueV::Int(n), p + 1)),
        Some(TokV::Word(w)) => match p_hash(ts, p, w) {
            Some(Err(m)) => Err(m),
            Some(Ok((h, q))) => Ok((ValueV::Hash(h), q)),
            None => if has_hex_prefix(w) {
                match bytes_literal(w) {
                    Err(m) => Err(m),
                    Ok(b) => Ok((ValueV::Bytes(b), p + 1)),
                }
            } else {
                Ok((ValueV::Key(w), p + 1))
            },
        },
        t => Err("expected a literal, found "@ + opt_tok_text(t)),
    }
}

/// The items of a non-empty list literal, through its closing `]`.
pub open spec fn p_literal_items(ts: Seq<TokV>, p: int, e: nat) -> PRes<Seq<ValueV>>
    decreases room(e), 1nat, ts.len() - p,
{
    match p_literal(ts, p, e) {
        Err(m) => Err(m),
        Ok((v, q)) => match p_next(ts, q) {
            Err(m) => Err(m),
            Ok((TokV::Comma, q1)) => if q1 > p {
                match p_literal_items(ts, q1, e) {
                    Err(m) => Err(m),
                    Ok((rest, r)) => Ok((seq![v] + rest, r)),
                }
            } else {
                Err("unexpected end of input"@)
            },
            Ok((TokV::RBracket, q1)) => Ok((seq![v], q1)),
            Ok((t, _)) => Err("expected `,` or `]`, found "@ + tok_text(t)),
        },
    }
}

/// A value term read at nesting depth `d`; `bound` holds the names a `with(...)` binds.
pub open spec fn p_vterm(ts: Seq<TokV>, p: int, d: nat, bound: Set<Seq<char>>) -> PRes<VTermV>
    decreases room(d), 0nat, 0nat,
{
    if d >= MAX_DEPTH {
        Err(too_deep())
    } else {
        p_vterm_inner(ts, p, d + 1, bound)
    }
}

/// A value term, one level in.
pub open spec fn p_vterm_inner(ts: Seq<TokV>, p: int, e: nat, bound: Set<Seq<char>>) -> PRes<VTermV>
    decreases room(e), 3nat, 0nat,
{
    match tok_at(ts, p) {
        Some(TokV::Num(n)) => Ok((VTermV::Lit(ValueV::Int(n)), p + 1)),
        Some(TokV::LBracket) => match p_literal(ts, p, e) {
            Err(m) => Err(m),
            Ok((v, q)) => Ok((VTermV::Lit(v), q)),
        },
        Some(TokV::Word(w)) => match p_hash(ts, p, w) {
            Some(Err(m)) => Err(m),
            Some(Ok((h, q))) => Ok((VTermV::Lit(ValueV::Hash(h)), q)),
            None => if has_hex_prefix(w) {
                match bytes_literal(w) {
                    Err(m) => Err(m),
                    Ok(b) => Ok((VTermV::Lit(ValueV::Bytes(b)), p + 1)),
                }
            } else if tok_at(ts, p + 1) == Some(TokV::LParen) {
                match ValueFn::spec_from_name(w) {
                    None => Err("unknown value function `"@ + w + "`"@),
                    Some(f) => if f == ValueFn::OperationArg {
                        match p_word(ts, p + 2) {
                            Err(m) => Err(m),
                            Ok((sym, q)) => match p_expect(ts, q, TokV::RParen) {
                                Err(m) => Err(m),
                                Ok(q2) => Ok(
                                    (VTermV::Op(f, seq![VTermV::Lit(ValueV::Symbol(sym))]), q2),
                                ),
                            },
                        }
                    } else {
                        match p_vterm_list(ts, p + 2, e, bound) {
                            Err(m) => Err(m),
                            Ok((args, q)) => Ok((VTermV::Op(f, args), q)),
                        }
                    },
                }
            } else if bound.contains(w) {
                Ok((VTermV::Var(w), p + 1))
            } else {
                Ok((VTermV::Lit(ValueV::Key(w)), p + 1))
            },
        },
        t => Err("expected a value, found "@ + opt_tok_text(t)),
    }
}

/// A parenthesized list of value terms whose `(` has been read, through its `)`.
pub open spec fn p_vterm_list(ts: Seq<TokV>, p: int, e: nat, bound: Set<Seq<char>>) -> PRes<
    Seq<VTermV>,
>
    decreases room(e), 2nat, 0nat,
{
    if tok_at(ts, p) == Some(TokV::RParen) {
        Ok((Seq::empty(), p + 1))
    } else {
        p_vterm_items(ts, p, e, bound)
    }
}

/// The items of a non-empty list of value terms, through its `)`.
pub open spec fn p_vterm_items(ts: Seq<TokV>, p: int, e: nat, bound: Set<Seq<char>>) -> PRes<
    Seq<VTermV>,
>
    decreases room(e), 1nat, ts.len() - p,
{
    match p_vterm(ts, p, e, bound) {
        Err(m) => Err(m),
        Ok((v, q)) => match p_next(ts, q) {
            Err(m) => Err(m),
            Ok((TokV::Comma, q1)) => if q1 > p {
                match p_vterm_items(ts, q1, e, bound) {
                    Err(m) => Err(m),
                    Ok((rest, r)) => Ok((seq![v] + rest, r)),
                }
            } else {
                Err("unexpected end of input"@)
            },
            Ok((TokV::RParen, q1)) => Ok((seq![v], q1)),
            Ok((t, _)) => Err("expected `,` or `)`, found "@ + tok_text(t)),
        },
    }
}

/// An attestation schema, `price_schema(n)`.
pub open spec fn p_schema(ts: Seq<TokV>, p: int) -> PRes<Schema> {
    match p_word(ts, p) {
        Err(m) => Err(m),
        Ok((name, p1)) => match p_expect(ts, p1, TokV::LParen) {
            Err(m) => Err(m),
            Ok(p2) => if name == "price_schema"@ {
                match p_num(ts, p2) {
                    Err(m) => Err(m),
                    Ok((n, p3)) => match p_expect(ts, p3, TokV::RParen) {
                        Err(m) => Err(m),
                        Ok(p4) => Ok((Schema::PriceWithinBps { tolerance_bps: n as u32 }, p4)),
                    },
                }
            } else {
                Err("unknown schema `"@ + name + "`"@)
            },
        },
    }
}

/// The names of the proof obligations, which may stand directly in term position.
pub open spec fn is_obligation_name(n: Seq<char>) -> bool {
    n == "pk"@ || n == "pk_h"@ || n == "pk_any"@ || n == "multi"@ || n == "pk_threshold"@
        || n == "hashlock"@ || n == "attest"@
}

/// The arguments of the obligation `name`, whose `(` has been read, through its `)`.
pub open spec fn p_obligation_body(
    ts: Seq<TokV>,
    p: int,
    e: nat,
    bound: Set<Seq<char>>,
    name: Seq<char>,
) -> PRes<ObligationV>
    decreases room(e), 2nat, 0nat,
{
    if name == "pk"@ || name == "pk_h"@ || name == "pk_any"@ || name == "hashlock"@ {
        match p_vterm(ts, p, e, bound) {
            Err(m) => Err(m),
            Ok((v, q)) => match p_expect(ts, q, TokV::RParen) {
                Err(m) => Err(m),
                Ok(q2) => Ok(
                    (
                        if name == "pk"@ {
                            ObligationV::Pk(v)
                        } else if name == "pk_h"@ {
                            ObligationV::PkH(v)
                        } else if name == "pk_any"@ {
                            ObligationV::PkAny(v)
                        } else {
                            ObligationV::Hashlock(v)
                        },
                        q2,
                    ),
                ),
            },
        }
    } else if name == "multi"@ || name == "pk_threshold"@ {
        match p_num(ts, p) {
            Err(m) => Err(m),
            Ok((k, q)) => match p_expect(ts, q, TokV::Comma) {
                Err(m) => Err(m),
                Ok(q1) => match p_vterm(ts, q1, e, bound) {
                    Err(m) => Err(m),
                    Ok((v, q2)) => match p_expect(ts, q2, TokV::RParen) {
                        Err(m) => Err(m),
                        Ok(q3) => Ok((ObligationV::Multi(count_of(k), v), q3)),
                    },
                },
            },
        }
    } else if name == "attest"@ {
        match p_vterm(ts, p, e, bound) {
            Err(m) => Err(m),
            Ok((v, q)) => match p_expect(ts, q, TokV::Comma) {
                Err(m) => Err(m),
                Ok(q1) => match p_schema(ts, q1) {
                    Err(m) => Err(m),
                    Ok((s, q2)) => match p_expect(ts, q2, TokV::RParen) {
                        Err(m) => Err(m),
                        Ok(q3) => Ok((ObligationV::Attest(v, s), q3)),
                    },
                },
            },
        }
    } else {
        Err("unknown proof obligation `"@ + name + "`"@)
    }
}

/// A term read at nesting depth `d`.
pub open spec fn p_bterm(ts: Seq<TokV>, p: int, d: nat, bound: Set<Seq<char>>) -> PRes<BTermV>
    decreases room(d), 0nat, 0nat,
{
    if d >= MAX_DEPTH {
        Err(too_deep())
    } else {
        p_bterm_inner(ts, p, d + 1, bound)
    }
}

/// The comparison a predicate name denotes.
pub open spec fn comparison_named(n: Seq<char>) -> Option<CmpOp> {
    if n == "eq"@ {
        Some(CmpOp::Eq)
    } else if n == "lt"@ {
        Some(CmpOp::Lt)
    } else if n == "le"@ {
        Some(CmpOp::Le)
    } else if n == "gt"@ {
        Some(CmpOp::Gt)
    } else if n == "ge"@ {
        Some(CmpOp::Ge)
    } else {
        None
    }
}

/// Two value terms separated by `,`, then `)`.
pub open spec fn p_vterm_pair(ts: Seq<TokV>, p: int, e: nat, bound: Set<Seq<char>>) -> PRes<
    (VTermV, VTermV),
>
    decreases room(e), 2nat, 0nat,
{
    match p_vterm(ts, p, e, bound) {
        Err(m) => Err(m),
        Ok((a, q)) => match p_expect(ts, q, TokV::Comma) {
            Err(m) => Err(m),
            Ok(q1) => match p_vterm(ts, q1, e, bound) {
                Err(m) => Err(m),
                Ok((b, q2)) => match p_expect(ts, q2, TokV::RParen) {
                    Err(m) => Err(m),
                    Ok(q3) => Ok(((a, b), q3)),
                },
            },
        },
    }
}

/// A term, one level in.
pub open spec fn p_bterm_inner(ts: Seq<TokV>, p: int, e: nat, bound: Set<Seq<char>>) -> PRes<BTermV>
    decreases room(e), 3nat, 0nat,
{
    match p_word(ts, p) {
        Err(m) => Err(m),
        Ok((name, p1)) => if name == "true"@ {
            Ok((BTermV::Const(true), p1))
        } else if name == "false"@ {
            Ok((BTermV::Const(false), p1))
        } else {
            match p_expect(ts, p1, TokV::LParen) {
                Err(m) => Err(m),
                Ok(p2) => if name == "and"@ || name == "or"@ {
                    match p_bterm_list(ts, p2, e, bound) {
                        Err(m) => Err(m),
                        Ok((bs, q)) => Ok(
                            (
                                if name == "and"@ {
                                    BTermV::And(bs)
                                } else {
                                    BTermV::Or(bs)
                                },
                                q,
                            ),
                        ),
                    }
                } else if name == "thresh"@ {
                    match p_num(ts, p2) {
                        Err(m) => Err(m),
                        Ok((k, q)) => match p_expect(ts, q, TokV::Comma) {
                            Err(m) => Err(m),
                            Ok(q1) => match p_bterm_list(ts, q1, e, bound) {
                                Err(m) => Err(m),
                                Ok((bs, q2)) => Ok((BTermV::Thresh(count_of(k), bs), q2)),
                            },
                        },
                    }
                } else if name == "not"@ {
                    match p_bterm(ts, p2, e, bound) {
                        Err(m) => Err(m),
                        Ok((b, q)) => match p_expect(ts, q, TokV::RParen) {
                            Err(m) => Err(m),
                            Ok(q1) => Ok((BTermV::Not(Box::new(b)), q1)),
                        },
                    }
                } else if name == "if"@ {
                    p_if(ts, p2, e, bound)
                } else if name == "match"@ {
                    p_match(ts, p2, e, bound)
                } else if name == "cmp"@ {
                    match p_comparison(ts, p2) {
                        Err(m) => Err(m),
                        Ok((o, q)) => match p_expect(ts, q, TokV::Comma) {
                            Err(m) => Err(m),
                            Ok(q1) => match p_vterm_pair(ts, q1, e, bound) {
                                Err(m) => Err(m),
                                Ok(((a, b), q2)) => Ok((BTermV::Cmp(o, a, b), q2)),
                            },
                        },
                    }
                } else if name == "prove"@ {
                    match p_word(ts, p2) {
                        Err(m) => Err(m),
                        Ok((oname, q)) => match p_expect(ts, q, TokV::LParen) {
                            Err(m) => Err(m),
                            Ok(q1) => match p_obligation_body(ts, q1, e, bound, oname) {
                                Err(m) => Err(m),
                                Ok((o, q2)) => match p_expect(ts, q2, TokV::RParen) {
                                    Err(m) => Err(m),
                                    Ok(q3) => Ok((BTermV::Prove(o), q3)),
                                },
                            },
                        },
                    }
                } else if comparison_named(name) is Some {
                    match p_vterm_pair(ts, p2, e, bound) {
                        Err(m) => Err(m),
                        Ok(((a, b), q)) => Ok((BTermV::Cmp(comparison_named(name)->Some_0, a, b), q)),
                    }
                } else if is_obligation_name(name) {
                    match p_obligation_body(ts, p2, e, bound, name) {
                        Err(m) => Err(m),
                        Ok((o, q)) => Ok((BTermV::Prove(o), q)),
                    }
                } else {
                    match StatePred::spec_from_name(name) {
                        Some(pred) => match p_vterm_list(ts, p2, e, bound) {
                            Err(m) => Err(m),
                            Ok((args, q)) => Ok((BTermV::State(pred, args), q)),
                        },
                        None => Err("unknown boolean combinator `"@ + name + "`"@),
                    }
                },
            }
        },
    }
}

/// The arguments of `if(c, t, e)`, whose `(` has been read, through its `)`.
pub open spec fn p_if(ts: Seq<TokV>, p: int, e: nat, bound: Set<Seq<char>>) -> PRes<BTermV>
    decreases room(e), 2nat, 0nat,
{
    match p_bterm(ts, p, e, bound) {
        Err(m) => Err(m),
        Ok((c, q)) => match p_expect(ts, q, TokV::Comma) {
            Err(m) => Err(m),
            Ok(q1) => match p_bterm(ts, q1, e, bound) {
                Err(m) => Err(m),
                Ok((t, q2)) => match p_expect(ts, q2, TokV::Comma) {
                    Err(m) => Err(m),
                    Ok(q3) => match p_bterm(ts, q3, e, bound) {
                        Err(m) => Err(m),
                        Ok((f, q4)) => match p_expect(ts, q4, TokV::RParen) {
                            Err(m) => Err(m),
                            Ok(q5) => Ok((BTermV::If(Box::new(c), Box::new(t), Box::new(f)), q5)),
                        },
                    },
                },
            },
        },
    }
}

/// A parenthesized list of terms whose `(` has been read, through its `)`.
pub open spec fn p_bterm_list(ts: Seq<TokV>, p: int, e: nat, bound: Set<Seq<char>>) -> PRes<
    Seq<BTermV>,
>
    decreases room(e), 2nat, 0nat,
{
    if tok_at(ts, p) == Some(TokV::RParen) {
        Ok((Seq::empty(), p + 1))
    } else {
        p_bterm_items(ts, p, e, bound)
    }
}

/// The items of a non-empty list of terms, through its `)`.
pub open spec fn p_bterm_items(ts: Seq<TokV>, p: int, e: nat, bound: Set<Seq<char>>) -> PRes<
    Seq<BTermV>,
>
    decreases room(e), 1nat, ts.len() - p,
{
    match p_bterm(ts, p, e, bound) {
        Err(m) => Err(m),
        Ok((b, q)) => match p_next(ts, q) {
            Err(m) => Err(m),
            Ok((TokV::Comma, q1)) => if q1 > p {
                match p_bterm_items(ts, q1, e, bound) {
                    Err(m) => Err(m),
                    Ok((rest, r)) => Ok((seq![b] + rest, r)),
                }
            } else {
                Err("unexpected end of input"@)
            },
            Ok((TokV::RParen, q1)) => Ok((seq![b], q1)),
            Ok((t, _)) => Err("expected `,` or `)`, found "@ + tok_text(t)),
        },
    }
}

/// The branches of a `match`, through its `)`: the tagged arms in order and the last `else`
/// branch, if any.
pub open spec fn p_arms(ts: Seq<TokV>, p: int, e: nat, bound: Set<Seq<char>>) -> PRes<
    (Seq<(Seq<char>, BTermV)>, Option<BTermV>),
>
    decreases room(e), 1nat, ts.len() - p,
{
    match p_word(ts, p) {
        Err(m) => Err(m),
        Ok((kw, p1)) => if kw != "branch"@ {
            Err("expected `branch`, found `"@ + kw + "`"@)
        } else {
            match p_expect(ts, p1, TokV::LParen) {
                Err(m) => Err(m),
                Ok(p2) => match p_word(ts, p2) {
                    Err(m) => Err(m),
                    Ok((tag, p3)) => match p_expect(ts, p3, TokV::Comma) {
                        Err(m) => Err(m),
                        Ok(p4) => match p_bterm(ts, p4, e, bound) {
                            Err(m) => Err(m),
                            Ok((body, p5)) => match p_expect(ts, p5, TokV::RParen) {
                                Err(m) => Err(m),
                                Ok(p6) => {
                                    let here: Seq<(Seq<char>, BTermV)> = if tag == "else"@ {
                                        Seq::empty()
                                    } else {
                                        seq![(tag, body)]
                                    };
                                    let dflt: Option<BTermV> = if tag == "else"@ {
                                        Some(body)
                                    } else {
                                        None
                                    };
                                    match p_next(ts, p6) {
                                        Err(m) => Err(m),
                                        Ok((TokV::Comma, p7)) => if p7 > p {
                                            match p_arms(ts, p7, e, bound) {
                                                Err(m) => Err(m),
                                                Ok(((rest, d2), q)) => Ok(
                                                    (
                                                        (
                                                            here + rest,
                                                            if d2 is Some {
                                                                d2
                                                            } else {
                                                                dflt
                                                            },
                                                        ),
                                                        q,
                                                    ),
                                                ),
                                            }
                                        } else {
                                            Err("unexpected end of input"@)
                                        },
                                        Ok((TokV::RParen, p7)) => Ok(((here, dflt), p7)),
                                        Ok((t, _)) => Err(
                                            "expected `,` or `)`, found "@ + tok_text(t),
                                        ),
                                    }
                                },
                            },
                        },
                    },
                },
            }
        },
    }
}

/// The arguments of `match(v, branch(tag, body), ..., branch(else, body))`, whose `(` has been
/// read, through its `)`. The `else` branch is required.
pub open spec fn p_match(ts: Seq<TokV>, p: int, e: nat, bound: Set<Seq<char>>) -> PRes<BTermV>
    decreases room(e), 2nat, 0nat,
{
    match p_vterm(ts, p, e, bound) {
        Err(m) => Err(m),
        Ok((s, q)) => match p_expect(ts, q, TokV::Comma) {
            Err(m) => Err(m),
            Ok(q1) => match p_arms(ts, q1, e, bound) {
                Err(m) => Err(m),
                Ok(((arms, dflt), q2)) => match dflt {
                    None => Err("match is missing an `else` branch"@),
                    Some(d) => Ok((BTermV::Match(s, arms, Box::new(d)), q2)),
                },
            },
        },
    }
}

// ---------------------------------------------------------------------------------------------
// Descriptors
// ---------------------------------------------------------------------------------------------

/// The value last bound to `name` in a list of bindings.
pub open spec fn binding_of(bs: Seq<(Seq<char>, ValueV)>, name: Seq<char>) -> Option<ValueV>
    decreases bs.len(),
{
    if bs.len() == 0 {
        None
    } else if bs.last().0 == name {
        Some(bs.last().1)
    } else {
        binding_of(bs.drop_last(), name)
    }
}

/// The names a list of bindings binds.
pub open spec fn bound_names(bs: Seq<(Seq<char>, ValueV)>) -> Set<Seq<char>> {
    Set::new(|n: Seq<char>| binding_of(bs, n) is Some)
}

/// The bindings of a `with(...)`, after `acc`, through its `in`.
pub open spec fn p_constants(ts: Seq<TokV>, p: int, acc: Seq<(Seq<char>, ValueV)>) -> PRes<
    Seq<(Seq<char>, ValueV)>,
>
    decreases ts.len() - p,
{
    if tok_at(ts, p) == Some(TokV::Word("in"@)) {
        Ok((acc, p + 1))
    } else {
        match p_word(ts, p) {
            Err(m) => Err(m),
            Ok((name, p1)) => if !canonical_name(encode_utf8(name)) {
                Err("invalid constant name `"@ + name + "`"@)
            } else {
                match p_expect(ts, p1, TokV::Eq) {
                    Err(m) => Err(m),
                    Ok(p2) => match p_literal(ts, p2, 0) {
                        Err(m) => Err(m),
                        Ok((v, p3)) => match p_expect(ts, p3, TokV::Comma) {
                            Err(m) => Err(m),
                            Ok(p4) => if p4 > p {
                                p_constants(ts, p4, acc.push((name, v)))
                            } else {
                                Err("unexpected end of input"@)
                            },
                        },
                    },
                }
            },
        }
    }
}

/// `with(name = literal, ..., in body)` or a bare body: the bindings and the body.
pub open spec fn p_with_or_bare(ts: Seq<TokV>, p: int) -> PRes<(Seq<(Seq<char>, ValueV)>, BTermV)> {
    if tok_at(ts, p) == Some(TokV::Word("with"@)) {
        match p_expect(ts, p + 1, TokV::LParen) {
            Err(m) => Err(m),
            Ok(p2) => match p_constants(ts, p2, Seq::empty()) {
                Err(m) => Err(m),
                Ok((bs, q)) => match p_bterm(ts, q, 0, bound_names(bs)) {
                    Err(m) => Err(m),
                    Ok((body, q2)) => match p_expect(ts, q2, TokV::RParen) {
                        Err(m) => Err(m),
                        Ok(q3) => Ok(((bs, body), q3)),
                    },
                },
            },
        }
    } else {
        match p_bterm(ts, p, 0, Set::empty()) {
            Err(m) => Err(m),
            Ok((body, q)) => Ok(((Seq::empty(), body), q)),
        }
    }
}

/// A descriptor's tokens: `wsh(<with or bare body>)` or a bare `<with or bare body>`, with no
/// tokens after it.
pub open spec fn p_descriptor(ts: Seq<TokV>) -> Result<(Seq<(Seq<char>, ValueV)>, BTermV), Seq<char>> {
    let r: PRes<(Seq<(Seq<char>, ValueV)>, BTermV)> = if tok_at(ts, 0) == Some(TokV::Word("wsh"@)) {
        match p_expect(ts, 1, TokV::LParen) {
            Err(m) => Err(m),
            Ok(p) => match p_with_or_bare(ts, p) {
                Err(m) => Err(m),
                Ok((x, q)) => match p_expect(ts, q, TokV::RParen) {
                    Err(m) => Err(m),
                    Ok(q2) => Ok((x, q2)),
                },
            },
        }
    } else {
        p_with_or_bare(ts, 0)
    };
    match r {
        Err(m) => Err(m),
        Ok((x, q)) => if q == ts.len() {
            Ok(x)
        } else {
            Err("trailing tokens after descriptor at position "@ + nat_text(q as nat))
        },
    }
}

/// What a source text parses to: the bindings of its `with(...)` in source order and its body,
/// or the error message.
pub open spec fn parse_spec(s: Seq<char>) -> Result<(Seq<(Seq<char>, ValueV)>, BTermV), Seq<char>> {
    match lex_spec(s) {
        Err(m) => Err(m),
        Ok(ts) => p_descriptor(ts),
    }
}


// ---------------------------------------------------------------------------------------------
// The executable parser: tokens
// ---------------------------------------------------------------------------------------------

/// An error produced while parsing a descriptor.
#[derive(Clone, PartialEq, Eq, Debug)]
pub struct ParseError {
    /// A human-readable description of the failure.
    pub message: String,
}

impl View for ParseError {
    type V = Seq<char>;

    open spec fn view(&self) -> Seq<char> {
        self.message@
    }
}

/// The view of a reader's result.
pub open spec fn pres<T: View>(r: Result<(T, usize), ParseError>) -> PRes<T::V> {
    match r {
        Ok((v, p)) => Ok((v@, p as int)),
        Err(e) => Err(e@),
    }
}

/// The names bound in an environment.
pub open spec fn env_names(env: Seq<(Seq<char>, ValueV)>) -> Set<Seq<char>> {
    Set::new(|n: Seq<char>| lookup(env, n) is Some)
}

/// The error with message `a`.
fn fail1(a: &str) -> (r: ParseError)
    ensures
        r@ == a@,
{
    let mut m = String::new();
    m.append(a);
    assert(m@ =~= a@);
    ParseError { message: m }
}

/// The error with message `a + b`.
fn fail2(a: &str, b: &str) -> (r: ParseError)
    ensures
        r@ == a@ + b@,
{
    let mut m = String::new();
    m.append(a);
    m.append(b);
    assert(m@ =~= a@ + b@);
    ParseError { message: m }
}

/// The error with message `a + b + c`.
fn fail3(a: &str, b: &str, c: &str) -> (r: ParseError)
    ensures
        r@ == a@ + b@ + c@,
{
    let mut m = String::new();
    m.append(a);
    m.append(b);
    m.append(c);
    assert(m@ =~= a@ + b@ + c@);
    ParseError { message: m }
}

/// How a token is shown in error messages.
fn tok_string(t: &Tok) -> (r: String)
    ensures
        r@ == tok_text(t@),
{
    let mut m = String::new();
    match t {
        Tok::LParen => m.append("LParen"),
        Tok::RParen => m.append("RParen"),
        Tok::LBracket => m.append("LBracket"),
        Tok::RBracket => m.append("RBracket"),
        Tok::Comma => m.append("Comma"),
        Tok::Eq => m.append("Eq"),
        Tok::Colon => m.append("Colon"),
        Tok::Lt => m.append("Lt"),
        Tok::Le => m.append("Le"),
        Tok::Gt => m.append("Gt"),
        Tok::Ge => m.append("Ge"),
        Tok::Word(w) => {
            m.append("Word(\"");
            m.append(w.as_str());
            m.append("\")");
        },
        Tok::Num(n) => {
            m.append("Num(");
            push_int(&mut m, *n);
            m.append(")");
        },
    }
    assert(m@ =~= tok_text(t@));
    m
}

/// The error "`prefix` found `t`".
fn fail_found(prefix: &str, t: &Tok) -> (r: ParseError)
    ensures
        r@ == prefix@ + tok_text(t@),
{
    let s = tok_string(t);
    fail2(prefix, s.as_str())
}

/// The error "`prefix` found `t`", for an optional token.
fn fail_found_opt(prefix: &str, ts: &Vec<Tok>, p: usize) -> (r: ParseError)
    ensures
        r@ == prefix@ + opt_tok_text(tok_at(toks_view(ts@), p as int)),
{
    if p < ts.len() {
        let s = tok_string(&ts[p]);
        fail3(prefix, "Some(", s.as_str()).with_suffix(")")
    } else {
        fail2(prefix, "None")
    }
}

impl ParseError {
    /// This error with `s` appended to its message.
    fn with_suffix(self, s: &str) -> (r: ParseError)
        ensures
            r@ == self@ + s@,
    {
        let mut m = self.message;
        m.append(s);
        ParseError { message: m }
    }
}

/// Whether two tokens are the same.
fn same_tok(a: &Tok, b: &Tok) -> (r: bool)
    ensures
        r == (a@ == b@),
{
    match (a, b) {
        (Tok::LParen, Tok::LParen) => true,
        (Tok::RParen, Tok::RParen) => true,
        (Tok::LBracket, Tok::LBracket) => true,
        (Tok::RBracket, Tok::RBracket) => true,
        (Tok::Comma, Tok::Comma) => true,
        (Tok::Eq, Tok::Eq) => true,
        (Tok::Colon, Tok::Colon) => true,
        (Tok::Lt, Tok::Lt) => true,
        (Tok::Le, Tok::Le) => true,
        (Tok::Gt, Tok::Gt) => true,
        (Tok::Ge, Tok::Ge) => true,
        (Tok::Word(x), Tok::Word(y)) => str_equal(x.as_str(), y.as_str()),
        (Tok::Num(x), Tok::Num(y)) => *x == *y,
        _ => false,
    }
}

/// Whether the token at `p` is `want`.
fn tok_is(ts: &Vec<Tok>, p: usize, want: &Tok) -> (r: bool)
    ensures
        r == (tok_at(toks_view(ts@), p as int) == Some(want@)),
{
    p < ts.len() && same_tok(&ts[p], want)
}

/// Whether the token at `p` is the word `w`.
fn word_is(ts: &Vec<Tok>, p: usize, w: &str) -> (r: bool)
    ensures
        r == (tok_at(toks_view(ts@), p as int) == Some(TokV::Word(w@))),
{
    if p < ts.len() {
        match &ts[p] {
            Tok::Word(x) => str_equal(x.as_str(), w),
            _ => false,
        }
    } else {
        false
    }
}

/// The next token.
fn next_tok(ts: &Vec<Tok>, p: usize) -> (r: Result<(&Tok, usize), ParseError>)
    ensures
        match r {
            Ok((t, q)) => p_next(toks_view(ts@), p as int) == Ok::<(TokV, int), Seq<char>>((t@, q as int)),
            Err(e) => p_next(toks_view(ts@), p as int) == Err::<(TokV, int), Seq<char>>(e@),
        },
{
    if p < ts.len() {
        Ok((&ts[p], p + 1))
    } else {
        Err(fail1("unexpected end of input"))
    }
}

/// The next token, which must be `want`.
fn expect(ts: &Vec<Tok>, p: usize, want: &Tok) -> (r: Result<usize, ParseError>)
    ensures
        match r {
            Ok(q) => p_expect(toks_view(ts@), p as int, want@) == Ok::<int, Seq<char>>(q as int),
            Err(e) => p_expect(toks_view(ts@), p as int, want@) == Err::<int, Seq<char>>(e@),
        },
{
    let (t, q) = next_tok(ts, p)?;
    if same_tok(t, want) {
        Ok(q)
    } else {
        let a = tok_string(want);
        let b = tok_string(t);
        Err(fail3("expected ", a.as_str(), ", found ").with_suffix(b.as_str()))
    }
}

/// The next token, which must be a word.
fn word(ts: &Vec<Tok>, p: usize) -> (r: Result<(String, usize), ParseError>)
    ensures
        pres(r) == p_word(toks_view(ts@), p as int),
{
    let (t, q) = next_tok(ts, p)?;
    match t {
        Tok::Word(w) => Ok((w.clone(), q)),
        _ => Err(fail_found("expected an identifier, found ", t)),
    }
}

/// The next token, which must be an integer.
fn num(ts: &Vec<Tok>, p: usize) -> (r: Result<(i128, usize), ParseError>)
    ensures
        pres(r) == p_num(toks_view(ts@), p as int),
{
    let (t, q) = next_tok(ts, p)?;
    match t {
        Tok::Num(n) => Ok((*n, q)),
        _ => Err(fail_found("expected an integer, found ", t)),
    }
}

/// The next token, which must be a comparison operator.
fn comparison(ts: &Vec<Tok>, p: usize) -> (r: Result<(CmpOp, usize), ParseError>)
    ensures
        match r {
            Ok((o, q)) => p_comparison(toks_view(ts@), p as int) == Ok::<(CmpOp, int), Seq<char>>((o, q as int)),
            Err(e) => p_comparison(toks_view(ts@), p as int) == Err::<(CmpOp, int), Seq<char>>(e@),
        },
{
    let (t, q) = next_tok(ts, p)?;
    match t {
        Tok::Eq => Ok((CmpOp::Eq, q)),
        Tok::Lt => Ok((CmpOp::Lt, q)),
        Tok::Le => Ok((CmpOp::Le, q)),
        Tok::Gt => Ok((CmpOp::Gt, q)),
        Tok::Ge => Ok((CmpOp::Ge, q)),
        _ => Err(fail_found("expected a comparison operator, found ", t)),
    }
}

/// The nesting error.
fn too_deep_error() -> (r: ParseError)
    ensures
        r@ == too_deep(),
{
    let mut m = String::new();
    m.append("nesting too deep (> ");
    push_count(&mut m, MAX_DEPTH);
    m.append(")");
    assert(m@ =~= too_deep());
    ParseError { message: m }
}

// ---------------------------------------------------------------------------------------------
// The executable parser: hex and hash literals
// ---------------------------------------------------------------------------------------------

/// The value of a hexadecimal digit.
fn hex_digit(c: char) -> (r: Option<u8>)
    ensures
        r == hex_value(c),
{
    if '0' <= c && c <= '9' {
        Some((c as u32 - 48) as u8)
    } else if 'a' <= c && c <= 'f' {
        Some((c as u32 - 87) as u8)
    } else if 'A' <= c && c <= 'F' {
        Some((c as u32 - 55) as u8)
    } else {
        None
    }
}

/// The bytes of a hex string.
fn decode_hex(s: &str) -> (r: Result<Vec<u8>, ParseError>)
    ensures
        match hex_bytes(s@) {
            Ok(b) => r matches Ok(v) && v@ == b,
            Err(m) => r matches Err(e) && e@ == m,
        },
{
    let n = s.unicode_len();
    if n % 2 != 0 {
        return Err(fail1("hex literal has an odd number of digits"));
    }
    let ghost sv = s@;
    let mut out: Vec<u8> = Vec::new();
    let mut i: usize = 0;
    while i < n
        invariant
            n == sv.len(),
            sv == s@,
            n % 2 == 0,
            i % 2 == 0,
            i <= n,
            out@.len() == i / 2,
            forall|k: int| 0 <= k < i ==> (#[trigger] hex_value(sv[k])) is Some,
            forall|k: int|
                0 <= k < i / 2 ==> #[trigger] out@[k] == (hex_value(sv[2 * k])->Some_0 * 16
                    + hex_value(sv[2 * k + 1])->Some_0) as u8,
        decreases n - i,
    {
        let hi = hex_digit(s.get_char(i));
        let lo = hex_digit(s.get_char(i + 1));
        match (hi, lo) {
            (Some(h), Some(l)) => {
                assert(h < 16 && l < 16);
                out.push(h * 16 + l);
            },
            _ => {
                return Err(fail3("invalid hex in `", s, "`"));
            },
        }
        i = i + 2;
    }
    proof {
        assert(!exists|k: int| 0 <= k < sv.len() && (#[trigger] hex_value(sv[k])) is None);
        let want = Seq::new(
            sv.len() / 2,
            |k: int| (hex_value(sv[2 * k])->Some_0 * 16 + hex_value(sv[2 * k + 1])->Some_0) as u8,
        );
        assert(out@ =~= want);
    }
    Ok(out)
}

/// Whether a word starts with `0x`.
fn hex_prefixed(w: &str) -> (r: bool)
    ensures
        r == has_hex_prefix(w@),
{
    w.unicode_len() >= 2 && w.get_char(0) == '0' && w.get_char(1) == 'x'
}

/// The hash function a word names.
fn hash_fn_of(w: &str) -> (r: Option<HashFn>)
    ensures
        r == hash_fn_named(w@),
{
    if str_equal(w, "sha256") {
        Some(HashFn::Sha256)
    } else if str_equal(w, "hash256") {
        Some(HashFn::Hash256)
    } else if str_equal(w, "ripemd160") {
        Some(HashFn::Ripemd160)
    } else if str_equal(w, "hash160") {
        Some(HashFn::Hash160)
    } else {
        None
    }
}

/// A hash literal from its function, the function's name and the digest word.
fn hash_literal_of(f: HashFn, name: &str, hexword: &str) -> (r: Result<HashValue, ParseError>)
    ensures
        match hash_literal(f, name@, hexword@) {
            Ok(h) => r matches Ok(x) && x@ == h,
            Err(m) => r matches Err(e) && e@ == m,
        },
{
    if !hex_prefixed(hexword) {
        return Err(fail1("hash literal digest must be 0x-prefixed"));
    }
    let hex = hexword.substring_char(2, hexword.unicode_len());
    let b = decode_hex(hex)?;
    let wide = match f {
        HashFn::Sha256 | HashFn::Hash256 => true,
        HashFn::Ripemd160 | HashFn::Hash160 => false,
    };
    if wide {
        if b.len() != 32 {
            return Err(fail2(name, " digest must be 32 bytes"));
        }
        let a = array32(&b);
        match f {
            HashFn::Sha256 => Ok(HashValue::Sha256(a)),
            _ => Ok(HashValue::Hash256(a)),
        }
    } else {
        if b.len() != 20 {
            return Err(fail2(name, " digest must be 20 bytes"));
        }
        let a = array20(&b);
        match f {
            HashFn::Ripemd160 => Ok(HashValue::Ripemd160(a)),
            _ => Ok(HashValue::Hash160(a)),
        }
    }
}

/// A hash literal starting at the word `w` at position `p`, if `w` starts one.
fn parse_hash(ts: &Vec<Tok>, p: usize, w: &str) -> (r: Option<Result<(HashValue, usize), ParseError>>)
    requires
        p < ts@.len(),
    ensures
        match r {
            None => p_hash(toks_view(ts@), p as int, w@) is None,
            Some(x) => p_hash(toks_view(ts@), p as int, w@) == Some(pres(x)),
        },
        r matches Some(Ok((_, q))) ==> q > p,
{
    let f = match hash_fn_of(w) {
        None => return None,
        Some(f) => f,
    };
    let n = ts.len();
    if tok_is(ts, p + 1, &Tok::LParen) {
        let (hexword, q) = match word(ts, p + 2) {
            Err(e) => return Some(Err(e)),
            Ok(x) => x,
        };
        let q2 = match expect(ts, q, &Tok::RParen) {
            Err(e) => return Some(Err(e)),
            Ok(x) => x,
        };
        match hash_literal_of(f, w, hexword.as_str()) {
            Err(e) => Some(Err(e)),
            Ok(h) => Some(Ok((h, q2))),
        }
    } else if tok_is(ts, p + 1, &Tok::Colon) {
        let (hexword, q) = match word(ts, p + 2) {
            Err(e) => return Some(Err(e)),
            Ok(x) => x,
        };
        match hash_literal_of(f, w, hexword.as_str()) {
            Err(e) => Some(Err(e)),
            Ok(h) => Some(Ok((h, q))),
        }
    } else {
        None
    }
}

/// A `0x..` byte literal.
fn bytes_literal_of(w: &str) -> (r: Result<Vec<u8>, ParseError>)
    requires
        has_hex_prefix(w@),
    ensures
        match bytes_literal(w@) {
            Ok(b) => r matches Ok(v) && v@ == b,
            Err(m) => r matches Err(e) && e@ == m,
        },
{
    let hex = w.substring_char(2, w.unicode_len());
    if hex.unicode_len() == 0 {
        return Err(fail1("empty hex literal `0x`"));
    }
    decode_hex(hex)
}

// ---------------------------------------------------------------------------------------------
// The executable parser: literals, value terms and terms
// ---------------------------------------------------------------------------------------------

/// Items in front of a list reader's result.
pub open spec fn glue_items<A>(acc: Seq<A>, r: PRes<Seq<A>>) -> PRes<Seq<A>> {
    match r {
        Ok((rest, q)) => Ok((acc + rest, q)),
        Err(m) => Err(m),
    }
}

/// Arms and a default in front of an arms reader's result.
pub open spec fn glue_arms(
    acc: Seq<(Seq<char>, BTermV)>,
    dflt: Option<BTermV>,
    r: PRes<(Seq<(Seq<char>, BTermV)>, Option<BTermV>)>,
) -> PRes<(Seq<(Seq<char>, BTermV)>, Option<BTermV>)> {
    match r {
        Ok(((rest, d2), q)) => Ok(
            (
                (
                    acc + rest,
                    if d2 is Some {
                        d2
                    } else {
                        dflt
                    },
                ),
                q,
            ),
        ),
        Err(m) => Err(m),
    }
}

/// A count read as an integer literal.
fn to_count(k: i128) -> (r: usize)
    ensures
        r == count_of(k),
{
    k as usize
}

/// A literal value at nesting depth `d`.
fn literal(ts: &Vec<Tok>, p: usize, d: usize) -> (r: Result<(Value, usize), ParseError>)
    ensures
        pres(r) == p_literal(toks_view(ts@), p as int, d as nat),
        r matches Ok((_, q)) ==> p < q <= ts@.len(),
    decreases room(d as nat), 0nat, 0nat,
{
    if d >= MAX_DEPTH {
        return Err(too_deep_error());
    }
    literal_inner(ts, p, d + 1)
}

/// A literal value, one level in.
fn literal_inner(ts: &Vec<Tok>, p: usize, e: usize) -> (r: Result<(Value, usize), ParseError>)
    requires
        e <= MAX_DEPTH,
    ensures
        pres(r) == p_literal_inner(toks_view(ts@), p as int, e as nat),
        r matches Ok((_, q)) ==> p < q <= ts@.len(),
    decreases room(e as nat), 3nat, 0nat,
{
    let n = ts.len();
    if p >= n {
        return Err(fail_found_opt("expected a literal, found ", ts, p));
    }
    match &ts[p] {
        Tok::LBracket => {
            if tok_is(ts, p + 1, &Tok::RBracket) {
                return Ok((Value::List(Vec::new()), p + 2));
            }
            let (items, q) = literal_items(ts, p + 1, e)?;
            proof {
                lemma_values_view(items@);
            }
            Ok((Value::List(items), q))
        },
        Tok::Num(k) => Ok((Value::Int(*k), p + 1)),
        Tok::Word(w) => {
            match parse_hash(ts, p, w.as_str()) {
                Some(Err(x)) => return Err(x),
                Some(Ok((h, q))) => return Ok((Value::Hash(h), q)),
                None => {},
            }
            if hex_prefixed(w.as_str()) {
                let b = bytes_literal_of(w.as_str())?;
                Ok((Value::Bytes(b), p + 1))
            } else {
                Ok((Value::Key(w.clone()), p + 1))
            }
        },
        _ => Err(fail_found_opt("expected a literal, found ", ts, p)),
    }
}

/// The items of a non-empty list literal, through its `]`.
fn literal_items(ts: &Vec<Tok>, p: usize, e: usize) -> (r: Result<(Vec<Value>, usize), ParseError>)
    requires
        e <= MAX_DEPTH,
    ensures
        match r {
            Ok((v, q)) => p_literal_items(toks_view(ts@), p as int, e as nat) == Ok::<
                (Seq<ValueV>, int),
                Seq<char>,
            >((values_view(v@), q as int)) && p < q <= ts@.len(),
            Err(x) => p_literal_items(toks_view(ts@), p as int, e as nat) == Err::<
                (Seq<ValueV>, int),
                Seq<char>,
            >(x@),
        },
    decreases room(e as nat), 1nat, 0nat,
{
    if p > ts.len() {
        return match literal(ts, p, e) {
            Err(x) => Err(x),
            Ok(_) => Err(fail1("unexpected end of input")),
        };
    }
    let ghost tv = toks_view(ts@);
    let mut out: Vec<Value> = Vec::new();
    let mut pos: usize = p;
    proof {
        lemma_values_view(out@);
        assert(values_view(out@) =~= Seq::<ValueV>::empty());
        match p_literal_items(tv, p as int, e as nat) {
            Ok((rest, q)) => assert(Seq::<ValueV>::empty() + rest =~= rest),
            Err(_) => {},
        }
    }
    loop
        invariant
            p <= pos <= ts@.len(),
            e <= MAX_DEPTH,
            tv == toks_view(ts@),
            p_literal_items(tv, p as int, e as nat) == glue_items(
                values_view(out@),
                p_literal_items(tv, pos as int, e as nat),
            ),
        decreases ts@.len() - pos,
    {
        let (v, q) = literal(ts, pos, e)?;
        let (t, q1) = next_tok(ts, q)?;
        let ghost before = values_view(out@);
        let ghost vv = v@;
        match t {
            Tok::Comma => {
                let ghost old_out = out@;
                out.push(v);
                proof {
                    assert(out@.drop_last() =~= old_out);
                    assert(values_view(out@) =~= before.push(vv));
                    assert forall|rest: Seq<ValueV>| #![auto]
                        before + (seq![vv] + rest) == before.push(vv) + rest by {
                        assert(before + (seq![vv] + rest) =~= before.push(vv) + rest);
                    }
                }
                pos = q1;
            },
            Tok::RBracket => {
                let ghost old_out = out@;
                out.push(v);
                proof {
                    assert(out@.drop_last() =~= old_out);
                    assert(values_view(out@) =~= before + seq![vv]);
                }
                return Ok((out, q1));
            },
            _ => {
                return Err(fail_found("expected `,` or `]`, found ", t));
            },
        }
    }
}

/// A value term at nesting depth `d`.
fn vterm(ts: &Vec<Tok>, p: usize, d: usize, env: &NameMap<Value>) -> (r: Result<
    (VTerm, usize),
    ParseError,
>)
    ensures
        pres(r) == p_vterm(toks_view(ts@), p as int, d as nat, env_names(env@)),
        r matches Ok((_, q)) ==> p < q <= ts@.len(),
    decreases room(d as nat), 0nat, 0nat,
{
    if d >= MAX_DEPTH {
        return Err(too_deep_error());
    }
    vterm_inner(ts, p, d + 1, env)
}

/// A value term, one level in.
fn vterm_inner(ts: &Vec<Tok>, p: usize, e: usize, env: &NameMap<Value>) -> (r: Result<
    (VTerm, usize),
    ParseError,
>)
    requires
        e <= MAX_DEPTH,
    ensures
        pres(r) == p_vterm_inner(toks_view(ts@), p as int, e as nat, env_names(env@)),
        r matches Ok((_, q)) ==> p < q <= ts@.len(),
    decreases room(e as nat), 3nat, 0nat,
{
    let n = ts.len();
    if p >= n {
        return Err(fail_found_opt("expected a value, found ", ts, p));
    }
    match &ts[p] {
        Tok::Num(k) => Ok((VTerm::Lit(Value::Int(*k)), p + 1)),
        Tok::LBracket => {
            let (v, q) = literal(ts, p, e)?;
            Ok((VTerm::Lit(v), q))
        },
        Tok::Word(w) => {
            match parse_hash(ts, p, w.as_str()) {
                Some(Err(x)) => return Err(x),
                Some(Ok((h, q))) => return Ok((VTerm::Lit(Value::Hash(h)), q)),
                None => {},
            }
            if hex_prefixed(w.as_str()) {
                let b = bytes_literal_of(w.as_str())?;
                Ok((VTerm::Lit(Value::Bytes(b)), p + 1))
            } else if tok_is(ts, p + 1, &Tok::LParen) {
                let f = match ValueFn::from_name(w.as_str()) {
                    None => return Err(fail3("unknown value function `", w.as_str(), "`")),
                    Some(f) => f,
                };
                if f == ValueFn::OperationArg {
                    let (sym, q) = word(ts, p + 2)?;
                    let q2 = expect(ts, q, &Tok::RParen)?;
                    let args = vec![VTerm::Lit(Value::Symbol(Symbol(sym)))];
                    proof {
                        lemma_vterms_view(args@);
                        assert(vterms_view(args@) =~= seq![VTermV::Lit(ValueV::Symbol(sym@))]);
                    }
                    Ok((VTerm::Op(f, args), q2))
                } else {
                    let (args, q) = vterm_list(ts, p + 2, e, env)?;
                    Ok((VTerm::Op(f, args), q))
                }
            } else if env.contains_key(w.as_str()) {
                Ok((VTerm::Var(w.clone()), p + 1))
            } else {
                Ok((VTerm::Lit(Value::Key(w.clone())), p + 1))
            }
        },
        _ => Err(fail_found_opt("expected a value, found ", ts, p)),
    }
}

/// A parenthesized list of value terms whose `(` has been read, through its `)`.
fn vterm_list(ts: &Vec<Tok>, p: usize, e: usize, env: &NameMap<Value>) -> (r: Result<
    (Vec<VTerm>, usize),
    ParseError,
>)
    requires
        e <= MAX_DEPTH,
    ensures
        match r {
            Ok((v, q)) => p_vterm_list(toks_view(ts@), p as int, e as nat, env_names(env@)) == Ok::<
                (Seq<VTermV>, int),
                Seq<char>,
            >((vterms_view(v@), q as int)) && p < q <= ts@.len(),
            Err(x) => p_vterm_list(toks_view(ts@), p as int, e as nat, env_names(env@)) == Err::<
                (Seq<VTermV>, int),
                Seq<char>,
            >(x@),
        },
    decreases room(e as nat), 2nat, 0nat,
{
    let n = ts.len();
    if tok_is(ts, p, &Tok::RParen) {
        let v: Vec<VTerm> = Vec::new();
        proof {
            lemma_vterms_view(v@);
            assert(vterms_view(v@) =~= Seq::<VTermV>::empty());
        }
        return Ok((v, p + 1));
    }
    vterm_items(ts, p, e, env)
}

/// The items of a non-empty list of value terms, through its `)`.
fn vterm_items(ts: &Vec<Tok>, p: usize, e: usize, env: &NameMap<Value>) -> (r: Result<
    (Vec<VTerm>, usize),
    ParseError,
>)
    requires
        e <= MAX_DEPTH,
    ensures
        match r {
            Ok((v, q)) => p_vterm_items(toks_view(ts@), p as int, e as nat, env_names(env@)) == Ok::<
                (Seq<VTermV>, int),
                Seq<char>,
            >((vterms_view(v@), q as int)) && p < q <= ts@.len(),
            Err(x) => p_vterm_items(toks_view(ts@), p as int, e as nat, env_names(env@)) == Err::<
                (Seq<VTermV>, int),
                Seq<char>,
            >(x@),
        },
    decreases room(e as nat), 1nat, 0nat,
{
    if p > ts.len() {
        return match vterm(ts, p, e, env) {
            Err(x) => Err(x),
            Ok(_) => Err(fail1("unexpected end of input")),
        };
    }
    let ghost tv = toks_view(ts@);
    let ghost bound = env_names(env@);
    let mut out: Vec<VTerm> = Vec::new();
    let mut pos: usize = p;
    proof {
        lemma_vterms_view(out@);
        assert(vterms_view(out@) =~= Seq::<VTermV>::empty());
        match p_vterm_items(tv, p as int, e as nat, bound) {
            Ok((rest, q)) => assert(Seq::<VTermV>::empty() + rest =~= rest),
            Err(_) => {},
        }
    }
    loop
        invariant
            p <= pos <= ts@.len(),
            e <= MAX_DEPTH,
            tv == toks_view(ts@),
            bound == env_names(env@),
            p_vterm_items(tv, p as int, e as nat, bound) == glue_items(
                vterms_view(out@),
                p_vterm_items(tv, pos as int, e as nat, bound),
            ),
        decreases ts@.len() - pos,
    {
        let (v, q) = vterm(ts, pos, e, env)?;
        let (t, q1) = next_tok(ts, q)?;
        let ghost before = vterms_view(out@);
        let ghost vv = v@;
        match t {
            Tok::Comma => {
                let ghost old_out = out@;
                out.push(v);
                proof {
                    assert(out@.drop_last() =~= old_out);
                    assert(vterms_view(out@) =~= before.push(vv));
                    assert forall|rest: Seq<VTermV>| #![auto]
                        before + (seq![vv] + rest) == before.push(vv) + rest by {
                        assert(before + (seq![vv] + rest) =~= before.push(vv) + rest);
                    }
                }
                pos = q1;
            },
            Tok::RParen => {
                let ghost old_out = out@;
                out.push(v);
                proof {
                    assert(out@.drop_last() =~= old_out);
                    assert(vterms_view(out@) =~= before + seq![vv]);
                }
                return Ok((out, q1));
            },
            _ => {
                return Err(fail_found("expected `,` or `)`, found ", t));
            },
        }
    }
}

/// An attestation schema.
fn schema(ts: &Vec<Tok>, p: usize) -> (r: Result<(Schema, usize), ParseError>)
    ensures
        pres(r) == p_schema(toks_view(ts@), p as int),
        r matches Ok((_, q)) ==> p < q <= ts@.len(),
{
    let (name, p1) = word(ts, p)?;
    let p2 = expect(ts, p1, &Tok::LParen)?;
    if str_equal(name.as_str(), "price_schema") {
        let (k, p3) = num(ts, p2)?;
        let p4 = expect(ts, p3, &Tok::RParen)?;
        Ok((Schema::PriceWithinBps { tolerance_bps: k as u32 }, p4))
    } else {
        Err(fail3("unknown schema `", name.as_str(), "`"))
    }
}

/// The arguments of the obligation `name`, whose `(` has been read, through its `)`.
fn obligation_body(ts: &Vec<Tok>, p: usize, e: usize, env: &NameMap<Value>, name: &str) -> (r:
    Result<(Obligation, usize), ParseError>)
    requires
        e <= MAX_DEPTH,
    ensures
        pres(r) == p_obligation_body(toks_view(ts@), p as int, e as nat, env_names(env@), name@),
        r matches Ok((_, q)) ==> p < q <= ts@.len(),
    decreases room(e as nat), 2nat, 0nat,
{
    if str_equal(name, "pk") || str_equal(name, "pk_h") || str_equal(name, "pk_any") || str_equal(
        name,
        "hashlock",
    ) {
        let (v, q) = vterm(ts, p, e, env)?;
        let q2 = expect(ts, q, &Tok::RParen)?;
        let o = if str_equal(name, "pk") {
            Obligation::Pk(v)
        } else if str_equal(name, "pk_h") {
            Obligation::PkH(v)
        } else if str_equal(name, "pk_any") {
            Obligation::PkAny(v)
        } else {
            Obligation::Hashlock(v)
        };
        Ok((o, q2))
    } else if str_equal(name, "multi") || str_equal(name, "pk_threshold") {
        let (k, q) = num(ts, p)?;
        let q1 = expect(ts, q, &Tok::Comma)?;
        let (v, q2) = vterm(ts, q1, e, env)?;
        let q3 = expect(ts, q2, &Tok::RParen)?;
        Ok((Obligation::Multi(to_count(k), v), q3))
    } else if str_equal(name, "attest") {
        let (v, q) = vterm(ts, p, e, env)?;
        let q1 = expect(ts, q, &Tok::Comma)?;
        let (s, q2) = schema(ts, q1)?;
        let q3 = expect(ts, q2, &Tok::RParen)?;
        Ok((Obligation::Attest(v, s), q3))
    } else {
        Err(fail3("unknown proof obligation `", name, "`"))
    }
}

/// A term at nesting depth `d`.
fn bterm(ts: &Vec<Tok>, p: usize, d: usize, env: &NameMap<Value>) -> (r: Result<
    (BTerm, usize),
    ParseError,
>)
    ensures
        pres(r) == p_bterm(toks_view(ts@), p as int, d as nat, env_names(env@)),
        r matches Ok((_, q)) ==> p < q <= ts@.len(),
    decreases room(d as nat), 0nat, 0nat,
{
    if d >= MAX_DEPTH {
        return Err(too_deep_error());
    }
    bterm_inner(ts, p, d + 1, env)
}

/// Two value terms separated by `,`, then `)`.
fn vterm_pair(ts: &Vec<Tok>, p: usize, e: usize, env: &NameMap<Value>) -> (r: Result<
    (VTerm, VTerm, usize),
    ParseError,
>)
    requires
        e <= MAX_DEPTH,
    ensures
        match r {
            Ok((a, b, q)) => p_vterm_pair(toks_view(ts@), p as int, e as nat, env_names(env@)) == Ok::<
                ((VTermV, VTermV), int),
                Seq<char>,
            >(((a@, b@), q as int)) && p < q <= ts@.len(),
            Err(x) => p_vterm_pair(toks_view(ts@), p as int, e as nat, env_names(env@)) == Err::<
                ((VTermV, VTermV), int),
                Seq<char>,
            >(x@),
        },
    decreases room(e as nat), 2nat, 0nat,
{
    let (a, q) = vterm(ts, p, e, env)?;
    let q1 = expect(ts, q, &Tok::Comma)?;
    let (b, q2) = vterm(ts, q1, e, env)?;
    let q3 = expect(ts, q2, &Tok::RParen)?;
    Ok((a, b, q3))
}

/// The comparison a predicate name denotes.
fn comparison_of_name(n: &str) -> (r: Option<CmpOp>)
    ensures
        r == comparison_named(n@),
{
    if str_equal(n, "eq") {
        Some(CmpOp::Eq)
    } else if str_equal(n, "lt") {
        Some(CmpOp::Lt)
    } else if str_equal(n, "le") {
        Some(CmpOp::Le)
    } else if str_equal(n, "gt") {
        Some(CmpOp::Gt)
    } else if str_equal(n, "ge") {
        Some(CmpOp::Ge)
    } else {
        None
    }
}

/// Whether a name is a proof obligation's.
fn obligation_name(n: &str) -> (r: bool)
    ensures
        r == is_obligation_name(n@),
{
    str_equal(n, "pk") || str_equal(n, "pk_h") || str_equal(n, "pk_any") || str_equal(n, "multi")
        || str_equal(n, "pk_threshold") || str_equal(n, "hashlock") || str_equal(n, "attest")
}

/// A term, one level in.
fn bterm_inner(ts: &Vec<Tok>, p: usize, e: usize, env: &NameMap<Value>) -> (r: Result<
    (BTerm, usize),
    ParseError,
>)
    requires
        e <= MAX_DEPTH,
    ensures
        pres(r) == p_bterm_inner(toks_view(ts@), p as int, e as nat, env_names(env@)),
        r matches Ok((_, q)) ==> p < q <= ts@.len(),
    decreases room(e as nat), 3nat, 0nat,
{
    let (name, p1) = word(ts, p)?;
    let nm = name.as_str();
    if str_equal(nm, "true") {
        return Ok((BTerm::Const(true), p1));
    }
    if str_equal(nm, "false") {
        return Ok((BTerm::Const(false), p1));
    }
    let p2 = expect(ts, p1, &Tok::LParen)?;
    if str_equal(nm, "and") || str_equal(nm, "or") {
        let (bs, q) = bterm_list(ts, p2, e, env)?;
        if str_equal(nm, "and") {
            Ok((BTerm::And(bs), q))
        } else {
            Ok((BTerm::Or(bs), q))
        }
    } else if str_equal(nm, "thresh") {
        let (k, q) = num(ts, p2)?;
        let q1 = expect(ts, q, &Tok::Comma)?;
        let (bs, q2) = bterm_list(ts, q1, e, env)?;
        Ok((BTerm::Thresh(to_count(k), bs), q2))
    } else if str_equal(nm, "not") {
        let (b, q) = bterm(ts, p2, e, env)?;
        let q1 = expect(ts, q, &Tok::RParen)?;
        Ok((BTerm::Not(Box::new(b)), q1))
    } else if str_equal(nm, "if") {
        if_args(ts, p2, e, env)
    } else if str_equal(nm, "match") {
        match_args(ts, p2, e, env)
    } else if str_equal(nm, "cmp") {
        let (o, q) = comparison(ts, p2)?;
        let q1 = expect(ts, q, &Tok::Comma)?;
        let (a, b, q2) = vterm_pair(ts, q1, e, env)?;
        Ok((BTerm::Cmp(o, a, b), q2))
    } else if str_equal(nm, "prove") {
        let (oname, q) = word(ts, p2)?;
        let q1 = expect(ts, q, &Tok::LParen)?;
        let (o, q2) = obligation_body(ts, q1, e, env, oname.as_str())?;
        let q3 = expect(ts, q2, &Tok::RParen)?;
        Ok((BTerm::Prove(o), q3))
    } else {
        match comparison_of_name(nm) {
            Some(o) => {
                let (a, b, q) = vterm_pair(ts, p2, e, env)?;
                Ok((BTerm::Cmp(o, a, b), q))
            },
            None => {
                if obligation_name(nm) {
                    let (o, q) = obligation_body(ts, p2, e, env, nm)?;
                    Ok((BTerm::Prove(o), q))
                } else {
                    match StatePred::from_name(nm) {
                        Some(pred) => {
                            let (args, q) = vterm_list(ts, p2, e, env)?;
                            Ok((BTerm::State(pred, args), q))
                        },
                        None => Err(fail3("unknown boolean combinator `", nm, "`")),
                    }
                }
            },
        }
    }
}

/// The arguments of `if(c, t, e)`, through its `)`.
fn if_args(ts: &Vec<Tok>, p: usize, e: usize, env: &NameMap<Value>) -> (r: Result<
    (BTerm, usize),
    ParseError,
>)
    requires
        e <= MAX_DEPTH,
    ensures
        pres(r) == p_if(toks_view(ts@), p as int, e as nat, env_names(env@)),
        r matches Ok((_, q)) ==> p < q <= ts@.len(),
    decreases room(e as nat), 2nat, 0nat,
{
    let (c, q) = bterm(ts, p, e, env)?;
    let q1 = expect(ts, q, &Tok::Comma)?;
    let (t, q2) = bterm(ts, q1, e, env)?;
    let q3 = expect(ts, q2, &Tok::Comma)?;
    let (f, q4) = bterm(ts, q3, e, env)?;
    let q5 = expect(ts, q4, &Tok::RParen)?;
    Ok((BTerm::If(Box::new(c), Box::new(t), Box::new(f)), q5))
}

/// A parenthesized list of terms whose `(` has been read, through its `)`.
fn bterm_list(ts: &Vec<Tok>, p: usize, e: usize, env: &NameMap<Value>) -> (r: Result<
    (Vec<BTerm>, usize),
    ParseError,
>)
    requires
        e <= MAX_DEPTH,
    ensures
        match r {
            Ok((v, q)) => p_bterm_list(toks_view(ts@), p as int, e as nat, env_names(env@)) == Ok::<
                (Seq<BTermV>, int),
                Seq<char>,
            >((terms_view(v@), q as int)) && p < q <= ts@.len(),
            Err(x) => p_bterm_list(toks_view(ts@), p as int, e as nat, env_names(env@)) == Err::<
                (Seq<BTermV>, int),
                Seq<char>,
            >(x@),
        },
    decreases room(e as nat), 2nat, 0nat,
{
    let n = ts.len();
    if tok_is(ts, p, &Tok::RParen) {
        let v: Vec<BTerm> = Vec::new();
        proof {
            lemma_terms_view(v@);
            assert(terms_view(v@) =~= Seq::<BTermV>::empty());
        }
        return Ok((v, p + 1));
    }
    bterm_items(ts, p, e, env)
}

/// The items of a non-empty list of terms, through its `)`.
fn bterm_items(ts: &Vec<Tok>, p: usize, e: usize, env: &NameMap<Value>) -> (r: Result<
    (Vec<BTerm>, usize),
    ParseError,
>)
    requires
        e <= MAX_DEPTH,
    ensures
        match r {
            Ok((v, q)) => p_bterm_items(toks_view(ts@), p as int, e as nat, env_names(env@)) == Ok::<
                (Seq<BTermV>, int),
                Seq<char>,
            >((terms_view(v@), q as int)) && p < q <= ts@.len(),
            Err(x) => p_bterm_items(toks_view(ts@), p as int, e as nat, env_names(env@)) == Err::<
                (Seq<BTermV>, int),
                Seq<char>,
            >(x@),
        },
    decreases room(e as nat), 1nat, 0nat,
{
    if p > ts.len() {
        return match bterm(ts, p, e, env) {
            Err(x) => Err(x),
            Ok(_) => Err(fail1("unexpected end of input")),
        };
    }
    let ghost tv = toks_view(ts@);
    let ghost bound = env_names(env@);
    let mut out: Vec<BTerm> = Vec::new();
    let mut pos: usize = p;
    proof {
        lemma_terms_view(out@);
        assert(terms_view(out@) =~= Seq::<BTermV>::empty());
        match p_bterm_items(tv, p as int, e as nat, bound) {
            Ok((rest, q)) => assert(Seq::<BTermV>::empty() + rest =~= rest),
            Err(_) => {},
        }
    }
    loop
        invariant
            p <= pos <= ts@.len(),
            e <= MAX_DEPTH,
            tv == toks_view(ts@),
            bound == env_names(env@),
            p_bterm_items(tv, p as int, e as nat, bound) == glue_items(
                terms_view(out@),
                p_bterm_items(tv, pos as int, e as nat, bound),
            ),
        decreases ts@.len() - pos,
    {
        let (b, q) = bterm(ts, pos, e, env)?;
        let (t, q1) = next_tok(ts, q)?;
        let ghost before = terms_view(out@);
        let ghost bv = b@;
        match t {
            Tok::Comma => {
                let ghost old_out = out@;
                out.push(b);
                proof {
                    assert(out@.drop_last() =~= old_out);
                    assert(terms_view(out@) =~= before.push(bv));
                    assert forall|rest: Seq<BTermV>| #![auto]
                        before + (seq![bv] + rest) == before.push(bv) + rest by {
                        assert(before + (seq![bv] + rest) =~= before.push(bv) + rest);
                    }
                }
                pos = q1;
            },
            Tok::RParen => {
                let ghost old_out = out@;
                out.push(b);
                proof {
                    assert(out@.drop_last() =~= old_out);
                    assert(terms_view(out@) =~= before + seq![bv]);
                }
                return Ok((out, q1));
            },
            _ => {
                return Err(fail_found("expected `,` or `)`, found ", t));
            },
        }
    }
}

/// The view of an optional default branch.
pub open spec fn default_view(d: Option<BTerm>) -> Option<BTermV> {
    match d {
        Some(b) => Some(b@),
        None => None,
    }
}

/// The branches of a `match`, through its `)`.
#[verifier::rlimit(50)]
fn arms(ts: &Vec<Tok>, p: usize, e: usize, env: &NameMap<Value>) -> (r: Result<
    (Vec<(Symbol, BTerm)>, Option<BTerm>, usize),
    ParseError,
>)
    requires
        e <= MAX_DEPTH,
    ensures
        match r {
            Ok((v, d, q)) => p_arms(toks_view(ts@), p as int, e as nat, env_names(env@)) == Ok::<
                ((Seq<(Seq<char>, BTermV)>, Option<BTermV>), int),
                Seq<char>,
            >(((arms_view(v@), default_view(d)), q as int)) && p < q <= ts@.len(),
            Err(x) => p_arms(toks_view(ts@), p as int, e as nat, env_names(env@)) == Err::<
                ((Seq<(Seq<char>, BTermV)>, Option<BTermV>), int),
                Seq<char>,
            >(x@),
        },
    decreases room(e as nat), 1nat, 0nat,
{
    if p > ts.len() {
        return match word(ts, p) {
            Err(x) => Err(x),
            Ok(_) => Err(fail1("unexpected end of input")),
        };
    }
    let ghost tv = toks_view(ts@);
    let ghost bound = env_names(env@);
    let mut out: Vec<(Symbol, BTerm)> = Vec::new();
    let mut dflt: Option<BTerm> = None;
    let mut pos: usize = p;
    proof {
        lemma_arms_view(out@);
        assert(arms_view(out@) =~= Seq::<(Seq<char>, BTermV)>::empty());
        match p_arms(tv, p as int, e as nat, bound) {
            Ok(((rest, d2), q)) => assert(Seq::<(Seq<char>, BTermV)>::empty() + rest =~= rest),
            Err(_) => {},
        }
    }
    loop
        invariant
            p <= pos <= ts@.len(),
            e <= MAX_DEPTH,
            tv == toks_view(ts@),
            bound == env_names(env@),
            p_arms(tv, p as int, e as nat, bound) == glue_arms(
                arms_view(out@),
                default_view(dflt),
                p_arms(tv, pos as int, e as nat, bound),
            ),
        decreases ts@.len() - pos,
    {
        let (kw, p1) = word(ts, pos)?;
        if !str_equal(kw.as_str(), "branch") {
            return Err(fail3("expected `branch`, found `", kw.as_str(), "`"));
        }
        let p2 = expect(ts, p1, &Tok::LParen)?;
        let (tag, p3) = word(ts, p2)?;
        let p4 = expect(ts, p3, &Tok::Comma)?;
        let (body, p5) = bterm(ts, p4, e, env)?;
        let p6 = expect(ts, p5, &Tok::RParen)?;
        let (t, p7) = next_tok(ts, p6)?;
        let is_else = str_equal(tag.as_str(), "else");
        let ghost before = arms_view(out@);
        let ghost before_d = default_view(dflt);
        let ghost tagv = tag@;
        let ghost bodyv = body@;
        let ghost here: Seq<(Seq<char>, BTermV)> = if is_else {
            Seq::empty()
        } else {
            seq![(tagv, bodyv)]
        };
        let ghost here_d: Option<BTermV> = if is_else {
            Some(bodyv)
        } else {
            None
        };
        match t {
            Tok::Comma => {},
            Tok::RParen => {},
            _ => {
                return Err(fail_found("expected `,` or `)`, found ", t));
            },
        }
        let more = match t {
            Tok::Comma => true,
            _ => false,
        };
        let ghost old_out = out@;
        if is_else {
            dflt = Some(body);
        } else {
            out.push((Symbol(tag), body));
            assert(out@.drop_last() =~= old_out);
        }
        proof {
            assert(arms_view(out@) =~= before + here);
            if !is_else {
                assert(default_view(dflt) == before_d);
            }
            assert forall|rest: Seq<(Seq<char>, BTermV)>| #![auto]
                before + (here + rest) == (before + here) + rest by {
                assert(before + (here + rest) =~= (before + here) + rest);
            }
        }
        if more {
            pos = p7;
        } else {
            return Ok((out, dflt, p7));
        }
    }
}

/// The arguments of `match(v, branch(..), ...)`, through its `)`.
fn match_args(ts: &Vec<Tok>, p: usize, e: usize, env: &NameMap<Value>) -> (r: Result<
    (BTerm, usize),
    ParseError,
>)
    requires
        e <= MAX_DEPTH,
    ensures
        pres(r) == p_match(toks_view(ts@), p as int, e as nat, env_names(env@)),
        r matches Ok((_, q)) ==> p < q <= ts@.len(),
    decreases room(e as nat), 2nat, 0nat,
{
    let (s, q) = vterm(ts, p, e, env)?;
    let q1 = expect(ts, q, &Tok::Comma)?;
    let (a, d, q2) = arms(ts, q1, e, env)?;
    match d {
        None => Err(fail1("match is missing an `else` branch")),
        Some(dv) => {
            proof {
                lemma_arms_view(a@);
            }
            Ok((BTerm::Match { scrutinee: s, arms: a, default: Box::new(dv) }, q2))
        },
    }
}

// ---------------------------------------------------------------------------------------------
// The executable parser: descriptors
// ---------------------------------------------------------------------------------------------

/// An environment holds, for each name, the value last bound to it in `bs`.
pub open spec fn env_of(env: Seq<(Seq<char>, ValueV)>, bs: Seq<(Seq<char>, ValueV)>) -> bool {
    forall|k: Seq<char>| #[trigger] lookup(env, k) == binding_of(bs, k)
}

/// The bindings of a `with(...)`, through its `in`.
fn constants(ts: &Vec<Tok>, p: usize) -> (r: Result<(NameMap<Value>, usize), ParseError>)
    ensures
        match p_constants(toks_view(ts@), p as int, Seq::empty()) {
            Ok((bs, q)) => r matches Ok((m, q2)) && q2 == q && env_of(m@, bs),
            Err(msg) => r matches Err(x) && x@ == msg,
        },
{
    let ghost tv = toks_view(ts@);
    let mut m: NameMap<Value> = SortedMap::new();
    let ghost mut acc: Seq<(Seq<char>, ValueV)> = Seq::empty();
    let mut pos: usize = p;
    let n = ts.len();
    if p > n {
        return match word(ts, p) {
            Err(x) => Err(x),
            Ok(_) => Err(fail1("unexpected end of input")),
        };
    }
    loop
        invariant
            p <= pos <= ts@.len(),
            n == ts@.len(),
            tv == toks_view(ts@),
            p_constants(tv, p as int, Seq::empty()) == p_constants(tv, pos as int, acc),
            env_of(m@, acc),
        decreases ts@.len() - pos,
    {
        if word_is(ts, pos, "in") {
            return Ok((m, pos + 1));
        }
        let (name, p1) = word(ts, pos)?;
        if !is_canonical_name(name.as_str()) {
            return Err(fail3("invalid constant name `", name.as_str(), "`"));
        }
        let p2 = expect(ts, p1, &Tok::Eq)?;
        let (v, p3) = literal(ts, p2, 0)?;
        let p4 = expect(ts, p3, &Tok::Comma)?;
        let ghost entry = (name@, v@);
        m.insert(name, v);
        proof {
            let old_acc = acc;
            acc = acc.push(entry);
            assert(acc.drop_last() =~= old_acc);
            assert forall|k: Seq<char>| #[trigger] lookup(m@, k) == binding_of(acc, k) by {
                assert(binding_of(acc, k) == if k == entry.0 {
                    Some(entry.1)
                } else {
                    binding_of(old_acc, k)
                });
            }
        }
        pos = p4;
    }
}

/// `with(name = literal, ..., in body)` or a bare body.
fn with_or_bare(ts: &Vec<Tok>, p: usize) -> (r: Result<(NameMap<Value>, BTerm, usize), ParseError>)
    ensures
        match p_with_or_bare(toks_view(ts@), p as int) {
            Ok(((bs, body), q)) => r matches Ok((m, b, q2)) && q2 == q && b@ == body && env_of(
                m@,
                bs,
            ),
            Err(msg) => r matches Err(x) && x@ == msg,
        },
{
    let ghost tv = toks_view(ts@);
    let n = ts.len();
    if word_is(ts, p, "with") {
        let p2 = expect(ts, p + 1, &Tok::LParen)?;
        let (m, q) = constants(ts, p2)?;
        let ghost bs = match p_constants(tv, p2 as int, Seq::empty()) {
            Ok((bs, _)) => bs,
            Err(_) => Seq::empty(),
        };
        proof {
            assert(env_names(m@) =~= bound_names(bs));
        }
        let (body, q2) = bterm(ts, q, 0, &m)?;
        let q3 = expect(ts, q2, &Tok::RParen)?;
        Ok((m, body, q3))
    } else {
        let m: NameMap<Value> = SortedMap::new();
        proof {
            assert(env_names(m@) =~= Set::<Seq<char>>::empty());
            assert forall|k: Seq<char>| #[trigger] lookup(m@, k) == binding_of(Seq::empty(), k) by {
            }
        }
        let (body, q) = bterm(ts, p, 0, &m)?;
        Ok((m, body, q))
    }
}

/// Parse a descriptor from its source representation.
pub fn parse(s: &str) -> (r: Result<Descriptor, ParseError>)
    ensures
        match parse_spec(s@) {
            Ok((bs, body)) => r matches Ok(d) && d@.body == body && keys_sorted::<String, ValueV>(
                d@.constants,
            ) && env_of(d@.constants, bs),
            Err(msg) => r matches Err(x) && x@ == msg,
        },
{
    let ts = match lex(s) {
        Ok(ts) => ts,
        Err(m) => return Err(ParseError { message: m }),
    };
    let ghost tv = toks_view(ts@);
    let wrapped = word_is(&ts, 0, "wsh");
    let (constants, body, q) = if wrapped {
        let p = expect(&ts, 1, &Tok::LParen)?;
        let (m, b, q) = with_or_bare(&ts, p)?;
        let q2 = expect(&ts, q, &Tok::RParen)?;
        (m, b, q2)
    } else {
        with_or_bare(&ts, 0)?
    };
    if q != ts.len() {
        let mut msg = String::new();
        msg.append("trailing tokens after descriptor at position ");
        push_count(&mut msg, q);
        return Err(ParseError { message: msg });
    }
    let _ = constants.entries();
    Ok(Descriptor { constants, body })
}

} // verus!
