//! Decoding the canonical byte encodings, rejecting every non-canonical input.
//!
//! The decoders are specified by reader functions over byte sequences that return the value
//! read and the position after it, or the reason the input is rejected. The laws at the end
//! relate them to the encoders: decoding an encoding gives the value back, and whatever decodes
//! is the encoding of what it decodes to.
use vstd::prelude::*;
use vstd::utf8::{decode_utf8, encode_utf8, valid_utf8};

use crate::ast::{
    BTerm, BTermV, HashFn, HashV, HashValue, Obligation, ObligationV, Schema, Value, ValueV, VTerm,
    VTermV, arms_view, group_views, terms_view, values_view, vterms_view,
};
use crate::bytes::{be_decode, be_value, bytes_less, bytes_lt, lemma_be_bytes_of_value};
use crate::registry::Symbol;
use crate::descriptor::Descriptor;
use crate::host::{OperationData, OperationV};
use crate::maps::{NameMap, SortedMap, SortKey, keys_sorted};
use crate::limits::MAX_DEPTH;
use crate::registry::{CmpOp, StatePred, ValueFn};

verus! {

/// A reason a byte string is not a canonical encoding.
#[derive(Clone, PartialEq, Eq, Debug)]
pub enum DecodeError {
    /// The input ended before the structure was complete.
    UnexpectedEof,
    /// Bytes remained after the structure was complete.
    TrailingBytes,
    /// An unsupported version byte.
    BadVersion(u8),
    /// An unknown type tag or primitive id: which axis, which id.
    UnknownTag(&'static str, u32),
    /// A boolean byte other than 0 or 1.
    NonCanonicalBool(u8),
    /// Names or keys not strictly increasing (unsorted or repeated).
    NonCanonicalOrder,
    /// A constant or argument name that does not match `[a-z_][a-z0-9_]*`.
    InvalidName,
    /// A key that is not valid UTF-8.
    BadKey,
    /// A symbol or name that is not valid UTF-8.
    BadUtf8,
    /// Nesting deeper than [`MAX_DEPTH`].
    TooDeep,
    /// A list count larger than the bytes that remain.
    OversizedList,
}

/// The view of a [`DecodeError`].
pub enum DecodeErrorV {
    UnexpectedEof,
    TrailingBytes,
    BadVersion(u8),
    UnknownTag(Seq<char>, u32),
    NonCanonicalBool(u8),
    NonCanonicalOrder,
    InvalidName,
    BadKey,
    BadUtf8,
    TooDeep,
    OversizedList,
}

impl View for DecodeError {
    type V = DecodeErrorV;

    open spec fn view(&self) -> DecodeErrorV {
        match self {
            DecodeError::UnexpectedEof => DecodeErrorV::UnexpectedEof,
            DecodeError::TrailingBytes => DecodeErrorV::TrailingBytes,
            DecodeError::BadVersion(v) => DecodeErrorV::BadVersion(*v),
            DecodeError::UnknownTag(axis, id) => DecodeErrorV::UnknownTag(axis@, *id),
            DecodeError::NonCanonicalBool(b) => DecodeErrorV::NonCanonicalBool(*b),
            DecodeError::NonCanonicalOrder => DecodeErrorV::NonCanonicalOrder,
            DecodeError::InvalidName => DecodeErrorV::InvalidName,
            DecodeError::BadKey => DecodeErrorV::BadKey,
            DecodeError::BadUtf8 => DecodeErrorV::BadUtf8,
            DecodeError::TooDeep => DecodeErrorV::TooDeep,
            DecodeError::OversizedList => DecodeErrorV::OversizedList,
        }
    }
}

/// What a reader returns: the value read and the position after it, or the rejection.
pub type Read<T> = Result<(T, int), DecodeErrorV>;

// ---------------------------------------------------------------------------------------------
// Fields
// ---------------------------------------------------------------------------------------------

/// One byte.
pub open spec fn rd_u8(s: Seq<u8>, p: int) -> Read<u8> {
    if 0 <= p < s.len() {
        Ok((s[p], p + 1))
    } else {
        Err(DecodeErrorV::UnexpectedEof)
    }
}

/// `n` bytes.
pub open spec fn rd_n(s: Seq<u8>, p: int, n: int) -> Read<Seq<u8>> {
    if 0 <= p && 0 <= n && p + n <= s.len() {
        Ok((s.subrange(p, p + n), p + n))
    } else {
        Err(DecodeErrorV::UnexpectedEof)
    }
}

/// A big-endian `u16`.
pub open spec fn rd_u16(s: Seq<u8>, p: int) -> Read<u16> {
    match rd_n(s, p, 2) {
        Ok((b, q)) => Ok((be_value(b) as u16, q)),
        Err(e) => Err(e),
    }
}

/// A big-endian `u32`.
pub open spec fn rd_u32(s: Seq<u8>, p: int) -> Read<u32> {
    match rd_n(s, p, 4) {
        Ok((b, q)) => Ok((be_value(b) as u32, q)),
        Err(e) => Err(e),
    }
}

/// A big-endian `u64`.
pub open spec fn rd_u64(s: Seq<u8>, p: int) -> Read<u64> {
    match rd_n(s, p, 8) {
        Ok((b, q)) => Ok((be_value(b) as u64, q)),
        Err(e) => Err(e),
    }
}

/// A ledger integer: 16 bytes of big-endian two's complement.
pub open spec fn rd_int(s: Seq<u8>, p: int) -> Read<i128> {
    match rd_n(s, p, 16) {
        Ok((b, q)) => Ok(((be_value(b) as u128) as i128, q)),
        Err(e) => Err(e),
    }
}

/// A list count, rejected when more elements are announced than bytes remain.
pub open spec fn rd_count(s: Seq<u8>, p: int) -> Read<nat> {
    match rd_u32(s, p) {
        Ok((n, q)) => if n > s.len() - q {
            Err(DecodeErrorV::OversizedList)
        } else {
            Ok((n as nat, q))
        },
        Err(e) => Err(e),
    }
}

/// A length-prefixed byte string.
pub open spec fn rd_bytes(s: Seq<u8>, p: int) -> Read<Seq<u8>> {
    match rd_u32(s, p) {
        Ok((n, q)) => rd_n(s, q, n as int),
        Err(e) => Err(e),
    }
}

/// A length-prefixed UTF-8 text; `bad` is the rejection when it is not valid UTF-8.
pub open spec fn rd_text(s: Seq<u8>, p: int, bad: DecodeErrorV) -> Read<Seq<char>> {
    match rd_bytes(s, p) {
        Ok((b, q)) => if valid_utf8(b) {
            Ok((decode_utf8(b), q))
        } else {
            Err(bad)
        },
        Err(e) => Err(e),
    }
}

/// A boolean byte.
pub open spec fn rd_bool(s: Seq<u8>, p: int) -> Read<bool> {
    match rd_u8(s, p) {
        Ok((b, q)) => if b == 0 {
            Ok((false, q))
        } else if b == 1 {
            Ok((true, q))
        } else {
            Err(DecodeErrorV::NonCanonicalBool(b))
        },
        Err(e) => Err(e),
    }
}

/// A hash value: its tag, then its digest.
pub open spec fn rd_hash(s: Seq<u8>, p: int) -> Read<HashV> {
    match rd_u8(s, p) {
        Ok((t, q)) => if t == 0 || t == 1 {
            match rd_n(s, q, 32) {
                Ok((d, r)) => Ok(
                    (HashV { func: if t == 0 { HashFn::Sha256 } else { HashFn::Hash256 }, digest: d }, r),
                ),
                Err(e) => Err(e),
            }
        } else if t == 2 || t == 3 {
            match rd_n(s, q, 20) {
                Ok((d, r)) => Ok(
                    (
                        HashV {
                            func: if t == 2 { HashFn::Ripemd160 } else { HashFn::Hash160 },
                            digest: d,
                        },
                        r,
                    ),
                ),
                Err(e) => Err(e),
            }
        } else {
            Err(DecodeErrorV::UnknownTag("hashfn"@, t as u32))
        },
        Err(e) => Err(e),
    }
}

/// The comparison operator with an id.
pub open spec fn comparison_of_id(id: u8) -> Option<CmpOp> {
    if id == 0 {
        Some(CmpOp::Eq)
    } else if id == 1 {
        Some(CmpOp::Lt)
    } else if id == 2 {
        Some(CmpOp::Le)
    } else if id == 3 {
        Some(CmpOp::Gt)
    } else if id == 4 {
        Some(CmpOp::Ge)
    } else {
        None
    }
}

/// The value function with an id.
pub open spec fn value_fn_of_id(id: u16) -> Option<ValueFn> {
    if exists|f: ValueFn| crate::encode::value_fn_id(f) == id {
        Some(choose|f: ValueFn| crate::encode::value_fn_id(f) == id)
    } else {
        None
    }
}

/// The state predicate with an id.
pub open spec fn state_pred_of_id(id: u16) -> Option<StatePred> {
    if exists|p: StatePred| crate::encode::state_pred_id(p) == id {
        Some(choose|p: StatePred| crate::encode::state_pred_id(p) == id)
    } else {
        None
    }
}

// ---------------------------------------------------------------------------------------------
// Values and terms
// ---------------------------------------------------------------------------------------------

/// The measure that bounds the depth of nested readers.
pub open spec fn room(d: nat) -> nat {
    if d <= MAX_DEPTH + 2 {
        (MAX_DEPTH + 2 - d) as nat
    } else {
        0
    }
}

/// `n` path indices.
pub open spec fn rd_indices(s: Seq<u8>, p: int, n: nat) -> Read<Seq<usize>>
    decreases n,
{
    if n == 0 {
        Ok((Seq::empty(), p))
    } else {
        match rd_u32(s, p) {
            Ok((x, q)) => match rd_indices(s, q, (n - 1) as nat) {
                Ok((rest, r)) => Ok((seq![x as usize] + rest, r)),
                Err(e) => Err(e),
            },
            Err(e) => Err(e),
        }
    }
}

/// A value nested `d` deep.
pub open spec fn rd_value(s: Seq<u8>, p: int, d: nat) -> Read<ValueV>
    decreases room(d), 1nat,
{
    if d > MAX_DEPTH {
        Err(DecodeErrorV::TooDeep)
    } else {
        match rd_u8(s, p) {
            Err(e) => Err(e),
            Ok((t, q)) => if t == 0 {
                match rd_int(s, q) {
                    Ok((n, r)) => Ok((ValueV::Int(n), r)),
                    Err(e) => Err(e),
                }
            } else if t == 1 {
                match rd_text(s, q, DecodeErrorV::BadKey) {
                    Ok((k, r)) => Ok((ValueV::Key(k), r)),
                    Err(e) => Err(e),
                }
            } else if t == 2 {
                match rd_hash(s, q) {
                    Ok((h, r)) => Ok((ValueV::Hash(h), r)),
                    Err(e) => Err(e),
                }
            } else if t == 3 {
                match rd_bytes(s, q) {
                    Ok((b, r)) => Ok((ValueV::Bytes(b), r)),
                    Err(e) => Err(e),
                }
            } else if t == 4 {
                match rd_count(s, q) {
                    Ok((n, r)) => match rd_indices(s, r, n) {
                        Ok((idx, r2)) => Ok((ValueV::Path(idx), r2)),
                        Err(e) => Err(e),
                    },
                    Err(e) => Err(e),
                }
            } else if t == 5 {
                match rd_count(s, q) {
                    Ok((n, r)) => match rd_values(s, r, n, d + 1) {
                        Ok((items, r2)) => Ok((ValueV::List(items), r2)),
                        Err(e) => Err(e),
                    },
                    Err(e) => Err(e),
                }
            } else if t == 6 {
                match rd_text(s, q, DecodeErrorV::BadUtf8) {
                    Ok((sym, r)) => Ok((ValueV::Symbol(sym), r)),
                    Err(e) => Err(e),
                }
            } else if t == 7 {
                match rd_term(s, q, d + 1) {
                    Ok((b, r)) => Ok((ValueV::Subtree(Box::new(b)), r)),
                    Err(e) => Err(e),
                }
            } else {
                Err(DecodeErrorV::UnknownTag("value"@, t as u32))
            },
        }
    }
}

/// `n` values, each nested `d` deep.
pub open spec fn rd_values(s: Seq<u8>, p: int, n: nat, d: nat) -> Read<Seq<ValueV>>
    decreases room(d), n + 2,
{
    if n == 0 {
        Ok((Seq::empty(), p))
    } else {
        match rd_value(s, p, d) {
            Ok((v, q)) => match rd_values(s, q, (n - 1) as nat, d) {
                Ok((rest, r)) => Ok((seq![v] + rest, r)),
                Err(e) => Err(e),
            },
            Err(e) => Err(e),
        }
    }
}

/// A term nested `d` deep.
pub open spec fn rd_term(s: Seq<u8>, p: int, d: nat) -> Read<BTermV>
    decreases room(d), 1nat,
{
    if d > MAX_DEPTH {
        Err(DecodeErrorV::TooDeep)
    } else {
        match rd_u8(s, p) {
            Err(e) => Err(e),
            Ok((t, q)) => if t == 0 {
                match rd_bool(s, q) {
                    Ok((b, r)) => Ok((BTermV::Const(b), r)),
                    Err(e) => Err(e),
                }
            } else if t == 1 || t == 2 {
                match rd_count(s, q) {
                    Ok((n, r)) => match rd_terms(s, r, n, d + 1) {
                        Ok((bs, r2)) => Ok(
                            (if t == 1 { BTermV::And(bs) } else { BTermV::Or(bs) }, r2),
                        ),
                        Err(e) => Err(e),
                    },
                    Err(e) => Err(e),
                }
            } else if t == 3 {
                match rd_u32(s, q) {
                    Ok((k, r)) => match rd_count(s, r) {
                        Ok((n, r2)) => match rd_terms(s, r2, n, d + 1) {
                            Ok((bs, r3)) => Ok((BTermV::Thresh(k as usize, bs), r3)),
                            Err(e) => Err(e),
                        },
                        Err(e) => Err(e),
                    },
                    Err(e) => Err(e),
                }
            } else if t == 4 {
                match rd_term(s, q, d + 1) {
                    Ok((b, r)) => Ok((BTermV::Not(Box::new(b)), r)),
                    Err(e) => Err(e),
                }
            } else if t == 5 {
                match rd_term(s, q, d + 1) {
                    Ok((c, r)) => match rd_term(s, r, d + 1) {
                        Ok((t1, r2)) => match rd_term(s, r2, d + 1) {
                            Ok((e1, r3)) => Ok(
                                (BTermV::If(Box::new(c), Box::new(t1), Box::new(e1)), r3),
                            ),
                            Err(e) => Err(e),
                        },
                        Err(e) => Err(e),
                    },
                    Err(e) => Err(e),
                }
            } else if t == 6 {
                match rd_vterm(s, q, d + 1) {
                    Ok((sc, r)) => match rd_count(s, r) {
                        Ok((n, r2)) => match rd_arms(s, r2, n, d + 1) {
                            Ok((arms, r3)) => match rd_term(s, r3, d + 1) {
                                Ok((df, r4)) => Ok((BTermV::Match(sc, arms, Box::new(df)), r4)),
                                Err(e) => Err(e),
                            },
                            Err(e) => Err(e),
                        },
                        Err(e) => Err(e),
                    },
                    Err(e) => Err(e),
                }
            } else if t == 7 {
                match rd_u8(s, q) {
                    Ok((id, r)) => match comparison_of_id(id) {
                        Some(o) => match rd_vterm(s, r, d + 1) {
                            Ok((a, r2)) => match rd_vterm(s, r2, d + 1) {
                                Ok((b, r3)) => Ok((BTermV::Cmp(o, a, b), r3)),
                                Err(e) => Err(e),
                            },
                            Err(e) => Err(e),
                        },
                        None => Err(DecodeErrorV::UnknownTag("cmpop"@, id as u32)),
                    },
                    Err(e) => Err(e),
                }
            } else if t == 8 {
                match rd_u16(s, q) {
                    Ok((id, r)) => match state_pred_of_id(id) {
                        Some(pr) => match rd_count(s, r) {
                            Ok((n, r2)) => match rd_vterms(s, r2, n, d + 1) {
                                Ok((args, r3)) => Ok((BTermV::State(pr, args), r3)),
                                Err(e) => Err(e),
                            },
                            Err(e) => Err(e),
                        },
                        None => Err(DecodeErrorV::UnknownTag("statepred"@, id as u32)),
                    },
                    Err(e) => Err(e),
                }
            } else if t == 9 {
                match rd_obligation(s, q, d) {
                    Ok((o, r)) => Ok((BTermV::Prove(o), r)),
                    Err(e) => Err(e),
                }
            } else {
                Err(DecodeErrorV::UnknownTag("node"@, t as u32))
            },
        }
    }
}

/// `n` terms, each nested `d` deep.
pub open spec fn rd_terms(s: Seq<u8>, p: int, n: nat, d: nat) -> Read<Seq<BTermV>>
    decreases room(d), n + 2,
{
    if n == 0 {
        Ok((Seq::empty(), p))
    } else {
        match rd_term(s, p, d) {
            Ok((t, q)) => match rd_terms(s, q, (n - 1) as nat, d) {
                Ok((rest, r)) => Ok((seq![t] + rest, r)),
                Err(e) => Err(e),
            },
            Err(e) => Err(e),
        }
    }
}

/// `n` `match` arms: each tag, then its body nested `d` deep.
pub open spec fn rd_arms(s: Seq<u8>, p: int, n: nat, d: nat) -> Read<Seq<(Seq<char>, BTermV)>>
    decreases room(d), n + 2,
{
    if n == 0 {
        Ok((Seq::empty(), p))
    } else {
        match rd_text(s, p, DecodeErrorV::BadUtf8) {
            Ok((tag, q)) => match rd_term(s, q, d) {
                Ok((t, q2)) => match rd_arms(s, q2, (n - 1) as nat, d) {
                    Ok((rest, r)) => Ok((seq![(tag, t)] + rest, r)),
                    Err(e) => Err(e),
                },
                Err(e) => Err(e),
            },
            Err(e) => Err(e),
        }
    }
}

/// A value term nested `d` deep.
pub open spec fn rd_vterm(s: Seq<u8>, p: int, d: nat) -> Read<VTermV>
    decreases room(d), 1nat,
{
    if d > MAX_DEPTH {
        Err(DecodeErrorV::TooDeep)
    } else {
        match rd_u8(s, p) {
            Err(e) => Err(e),
            Ok((t, q)) => if t == 0 {
                match rd_value(s, q, d + 1) {
                    Ok((v, r)) => Ok((VTermV::Lit(v), r)),
                    Err(e) => Err(e),
                }
            } else if t == 1 {
                match rd_text(s, q, DecodeErrorV::BadUtf8) {
                    Ok((n, r)) => Ok((VTermV::Var(n), r)),
                    Err(e) => Err(e),
                }
            } else if t == 2 {
                match rd_u16(s, q) {
                    Ok((id, r)) => match value_fn_of_id(id) {
                        Some(f) => match rd_count(s, r) {
                            Ok((n, r2)) => match rd_vterms(s, r2, n, d + 1) {
                                Ok((args, r3)) => Ok((VTermV::Op(f, args), r3)),
                                Err(e) => Err(e),
                            },
                            Err(e) => Err(e),
                        },
                        None => Err(DecodeErrorV::UnknownTag("valuefn"@, id as u32)),
                    },
                    Err(e) => Err(e),
                }
            } else {
                Err(DecodeErrorV::UnknownTag("vterm"@, t as u32))
            },
        }
    }
}

/// `n` value terms, each nested `d` deep.
pub open spec fn rd_vterms(s: Seq<u8>, p: int, n: nat, d: nat) -> Read<Seq<VTermV>>
    decreases room(d), n + 2,
{
    if n == 0 {
        Ok((Seq::empty(), p))
    } else {
        match rd_vterm(s, p, d) {
            Ok((t, q)) => match rd_vterms(s, q, (n - 1) as nat, d) {
                Ok((rest, r)) => Ok((seq![t] + rest, r)),
                Err(e) => Err(e),
            },
            Err(e) => Err(e),
        }
    }
}

/// An obligation of a term nested `d` deep.
pub open spec fn rd_obligation(s: Seq<u8>, p: int, d: nat) -> Read<ObligationV>
    decreases room(d), 0nat,
{
    if d > MAX_DEPTH {
        Err(DecodeErrorV::TooDeep)
    } else {
    match rd_u16(s, p) {
        Err(e) => Err(e),
        Ok((t, q)) => if t == 0 || t == 1 || t == 2 || t == 4 {
            match rd_vterm(s, q, d + 1) {
                Ok((v, r)) => Ok(
                    (
                        if t == 0 {
                            ObligationV::Pk(v)
                        } else if t == 1 {
                            ObligationV::PkH(v)
                        } else if t == 2 {
                            ObligationV::PkAny(v)
                        } else {
                            ObligationV::Hashlock(v)
                        },
                        r,
                    ),
                ),
                Err(e) => Err(e),
            }
        } else if t == 3 {
            match rd_u32(s, q) {
                Ok((k, r)) => match rd_vterm(s, r, d + 1) {
                    Ok((v, r2)) => Ok((ObligationV::Multi(k as usize, v), r2)),
                    Err(e) => Err(e),
                },
                Err(e) => Err(e),
            }
        } else if t == 5 {
            match rd_vterm(s, q, d + 1) {
                Ok((v, r)) => match rd_schema(s, r) {
                    Ok((sc, r2)) => Ok((ObligationV::Attest(v, sc), r2)),
                    Err(e) => Err(e),
                },
                Err(e) => Err(e),
            }
        } else {
            Err(DecodeErrorV::UnknownTag("obligation"@, t as u32))
        },
    }
    }
}

/// An attestation schema.
pub open spec fn rd_schema(s: Seq<u8>, p: int) -> Read<Schema> {
    match rd_u16(s, p) {
        Ok((t, q)) => if t == 0 {
            match rd_u32(s, q) {
                Ok((bps, r)) => Ok((Schema::PriceWithinBps { tolerance_bps: bps }, r)),
                Err(e) => Err(e),
            }
        } else {
            Err(DecodeErrorV::UnknownTag("schema"@, t as u32))
        },
        Err(e) => Err(e),
    }
}

// ---------------------------------------------------------------------------------------------
// Named entries and descriptors
// ---------------------------------------------------------------------------------------------

/// Whether a name's bytes match `[a-z_][a-z0-9_]*`.
pub open spec fn canonical_name(b: Seq<u8>) -> bool {
    &&& b.len() > 0
    &&& (b[0] == 95 || (97 <= b[0] <= 122))
    &&& forall|i: int| 1 <= i < b.len() ==> (#[trigger] b[i] == 95 || (97 <= b[i] <= 122) || (48 <= b[i] <= 57))
}

/// `n` named entries, each name canonical and greater than the one before; `prev` is the name
/// of the entry read before them, if any.
pub open spec fn rd_named(s: Seq<u8>, p: int, n: nat, prev: Option<Seq<u8>>) -> Read<
    Seq<(Seq<char>, ValueV)>,
>
    decreases n,
{
    if n == 0 {
        Ok((Seq::empty(), p))
    } else {
        match rd_text(s, p, DecodeErrorV::BadUtf8) {
            Err(e) => Err(e),
            Ok((name, q)) => {
                let nb = encode_utf8(name);
                if !canonical_name(nb) {
                    Err(DecodeErrorV::InvalidName)
                } else if prev matches Some(pb) && !bytes_lt(pb, nb) {
                    Err(DecodeErrorV::NonCanonicalOrder)
                } else {
                    match rd_value(s, q, 0) {
                        Err(e) => Err(e),
                        Ok((v, r)) => match rd_named(s, r, (n - 1) as nat, Some(nb)) {
                            Ok((rest, r2)) => Ok((seq![(name, v)] + rest, r2)),
                            Err(e) => Err(e),
                        },
                    }
                }
            },
        }
    }
}

/// The end of an input: no bytes may remain.
pub open spec fn rd_end(s: Seq<u8>, p: int) -> Result<(), DecodeErrorV> {
    if p == s.len() {
        Ok(())
    } else {
        Err(DecodeErrorV::TrailingBytes)
    }
}

/// The version byte.
pub open spec fn rd_version(s: Seq<u8>) -> Read<()> {
    match rd_u8(s, 0) {
        Ok((v, q)) => if v == 1 {
            Ok(((), q))
        } else {
            Err(DecodeErrorV::BadVersion(v))
        },
        Err(e) => Err(e),
    }
}

/// The descriptor a byte string encodes: its constants and body.
pub open spec fn rd_descriptor(s: Seq<u8>) -> Result<
    (Seq<(Seq<char>, ValueV)>, BTermV),
    DecodeErrorV,
> {
    match rd_version(s) {
        Err(e) => Err(e),
        Ok((_, p)) => match rd_count(s, p) {
            Err(e) => Err(e),
            Ok((n, q)) => match rd_named(s, q, n, None) {
                Err(e) => Err(e),
                Ok((constants, r)) => match rd_term(s, r, 0) {
                    Err(e) => Err(e),
                    Ok((body, r2)) => match rd_end(s, r2) {
                        Err(e) => Err(e),
                        Ok(()) => Ok((constants, body)),
                    },
                },
            },
        },
    }
}

// ---------------------------------------------------------------------------------------------
// Executable readers
// ---------------------------------------------------------------------------------------------

/// The view of a reader's result.
pub open spec fn got<T: View>(r: Result<(T, usize), DecodeError>) -> Read<T::V> {
    match r {
        Ok((v, p)) => Ok((v@, p as int)),
        Err(e) => Err(e@),
    }
}

/// The string whose UTF-8 encoding is `bytes`: `String::from_utf8`, which accepts exactly the
/// valid UTF-8 byte strings. Trusted to agree with vstd's `valid_utf8` and `decode_utf8`.
#[verifier::external_body]
pub(crate) fn string_from_utf8(bytes: Vec<u8>) -> (r: Option<String>)
    ensures
        r is Some <==> valid_utf8(bytes@),
        r is Some ==> r->Some_0@ == decode_utf8(bytes@),
{
    match String::from_utf8(bytes) {
        Ok(s) => Some(s),
        Err(_) => None,
    }
}

/// Big-endian values of up to sixteen bytes fit their width.
proof fn lemma_be_bound(s: Seq<u8>)
    ensures
        s.len() == 2 ==> 0 <= be_value(s) < 0x1_0000,
        s.len() == 4 ==> 0 <= be_value(s) < 0x1_0000_0000,
        s.len() == 8 ==> 0 <= be_value(s) < 0x1_0000_0000_0000_0000,
        s.len() == 16 ==> 0 <= be_value(s) < 0x1_0000_0000_0000_0000_0000_0000_0000_0000,
{
    lemma_be_bytes_of_value(s);
    assert(vstd::arithmetic::power::pow(256, 2) == 0x1_0000) by {
        reveal_with_fuel(vstd::arithmetic::power::pow, 3);
    }
    assert(vstd::arithmetic::power::pow(256, 4) == 0x1_0000_0000) by {
        reveal_with_fuel(vstd::arithmetic::power::pow, 5);
    }
    assert(vstd::arithmetic::power::pow(256, 8) == 0x1_0000_0000_0000_0000) by {
        reveal_with_fuel(vstd::arithmetic::power::pow, 9);
    }
    assert(vstd::arithmetic::power::pow(256, 16) == 0x1_0000_0000_0000_0000_0000_0000_0000_0000)
        by {
        reveal_with_fuel(vstd::arithmetic::power::pow, 17);
    }
}

/// One byte.
pub fn read_u8(buf: &[u8], pos: usize) -> (r: Result<(u8, usize), DecodeError>)
    ensures
        got(r) == rd_u8(buf@, pos as int),
{
    if pos < buf.len() {
        Ok((buf[pos], pos + 1))
    } else {
        Err(DecodeError::UnexpectedEof)
    }
}

/// `n` bytes.
pub fn read_n(buf: &[u8], pos: usize, n: usize) -> (r: Result<(Vec<u8>, usize), DecodeError>)
    ensures
        got(r) == rd_n(buf@, pos as int, n as int),
{
    if pos > buf.len() || n > buf.len() - pos {
        return Err(DecodeError::UnexpectedEof);
    }
    let mut out: Vec<u8> = Vec::new();
    let mut i: usize = 0;
    while i < n
        invariant
            i <= n,
            pos + n <= buf.len(),
            out@ == buf@.subrange(pos as int, pos + i),
        decreases n - i,
    {
        out.push(buf[pos + i]);
        i = i + 1;
        assert(out@ =~= buf@.subrange(pos as int, pos + i));
    }
    Ok((out, pos + n))
}

/// A big-endian `u16`.
pub fn read_u16(buf: &[u8], pos: usize) -> (r: Result<(u16, usize), DecodeError>)
    ensures
        got(r) == rd_u16(buf@, pos as int),
{
    match read_n(buf, pos, 2) {
        Err(e) => Err(e),
        Ok((b, q)) => {
            let x = be_decode(b.as_slice());
            proof {
                lemma_be_bound(b@);
            }
            Ok((x as u16, q))
        },
    }
}

/// A big-endian `u32`.
pub fn read_u32(buf: &[u8], pos: usize) -> (r: Result<(u32, usize), DecodeError>)
    ensures
        got(r) == rd_u32(buf@, pos as int),
{
    match read_n(buf, pos, 4) {
        Err(e) => Err(e),
        Ok((b, q)) => {
            let x = be_decode(b.as_slice());
            proof {
                lemma_be_bound(b@);
            }
            Ok((x as u32, q))
        },
    }
}

/// A big-endian `u64`.
pub fn read_u64(buf: &[u8], pos: usize) -> (r: Result<(u64, usize), DecodeError>)
    ensures
        got(r) == rd_u64(buf@, pos as int),
{
    match read_n(buf, pos, 8) {
        Err(e) => Err(e),
        Ok((b, q)) => {
            let x = be_decode(b.as_slice());
            proof {
                lemma_be_bound(b@);
            }
            Ok((x as u64, q))
        },
    }
}

/// A ledger integer.
pub fn read_int(buf: &[u8], pos: usize) -> (r: Result<(i128, usize), DecodeError>)
    ensures
        got(r) == rd_int(buf@, pos as int),
{
    match read_n(buf, pos, 16) {
        Err(e) => Err(e),
        Ok((b, q)) => {
            let x = be_decode(b.as_slice());
            Ok((x as i128, q))
        },
    }
}

/// A list count.
pub fn read_count(buf: &[u8], pos: usize) -> (r: Result<(usize, usize), DecodeError>)
    ensures
        match r {
            Ok((n, q)) => rd_count(buf@, pos as int) == Ok::<(nat, int), DecodeErrorV>((n as nat, q as int)),
            Err(e) => rd_count(buf@, pos as int) == Err::<(nat, int), DecodeErrorV>(e@),
        },
{
    match read_u32(buf, pos) {
        Err(e) => Err(e),
        Ok((n, q)) => if n as usize > buf.len() - q {
            Err(DecodeError::OversizedList)
        } else {
            Ok((n as usize, q))
        },
    }
}

/// A length-prefixed byte string.
pub fn read_bytes(buf: &[u8], pos: usize) -> (r: Result<(Vec<u8>, usize), DecodeError>)
    ensures
        got(r) == rd_bytes(buf@, pos as int),
{
    match read_u32(buf, pos) {
        Err(e) => Err(e),
        Ok((n, q)) => read_n(buf, q, n as usize),
    }
}

/// A length-prefixed UTF-8 text, rejected with `bad` when it is not valid UTF-8.
pub fn read_text(buf: &[u8], pos: usize, bad: DecodeError) -> (r: Result<(String, usize), DecodeError>)
    ensures
        got(r) == rd_text(buf@, pos as int, bad@),
{
    match read_bytes(buf, pos) {
        Err(e) => Err(e),
        Ok((b, q)) => match string_from_utf8(b) {
            Some(s) => Ok((s, q)),
            None => Err(bad),
        },
    }
}

/// A boolean byte.
pub fn read_bool(buf: &[u8], pos: usize) -> (r: Result<(bool, usize), DecodeError>)
    ensures
        got(r) == rd_bool(buf@, pos as int),
{
    match read_u8(buf, pos) {
        Err(e) => Err(e),
        Ok((b, q)) => if b == 0 {
            Ok((false, q))
        } else if b == 1 {
            Ok((true, q))
        } else {
            Err(DecodeError::NonCanonicalBool(b))
        },
    }
}

/// The array holding the bytes of a 32-byte vector.
pub fn array32(b: &Vec<u8>) -> (r: [u8; 32])
    requires
        b@.len() == 32,
    ensures
        r@ == b@,
{
    let mut a = [0u8; 32];
    let mut i: usize = 0;
    while i < 32
        invariant
            i <= 32,
            b@.len() == 32,
            forall|j: int| 0 <= j < i ==> a@[j] == b@[j],
        decreases 32 - i,
    {
        a[i] = b[i];
        i = i + 1;
    }
    assert(a@ =~= b@);
    a
}

/// The array holding the bytes of a 20-byte vector.
pub fn array20(b: &Vec<u8>) -> (r: [u8; 20])
    requires
        b@.len() == 20,
    ensures
        r@ == b@,
{
    let mut a = [0u8; 20];
    let mut i: usize = 0;
    while i < 20
        invariant
            i <= 20,
            b@.len() == 20,
            forall|j: int| 0 <= j < i ==> a@[j] == b@[j],
        decreases 20 - i,
    {
        a[i] = b[i];
        i = i + 1;
    }
    assert(a@ =~= b@);
    a
}

/// A hash value.
pub fn read_hash(buf: &[u8], pos: usize) -> (r: Result<(HashValue, usize), DecodeError>)
    ensures
        got(r) == rd_hash(buf@, pos as int),
{
    match read_u8(buf, pos) {
        Err(e) => Err(e),
        Ok((t, q)) => if t == 0 || t == 1 {
            match read_n(buf, q, 32) {
                Err(e) => Err(e),
                Ok((d, r)) => {
                    let a = array32(&d);
                    if t == 0 {
                        Ok((HashValue::Sha256(a), r))
                    } else {
                        Ok((HashValue::Hash256(a), r))
                    }
                },
            }
        } else if t == 2 || t == 3 {
            match read_n(buf, q, 20) {
                Err(e) => Err(e),
                Ok((d, r)) => {
                    let a = array20(&d);
                    if t == 2 {
                        Ok((HashValue::Ripemd160(a), r))
                    } else {
                        Ok((HashValue::Hash160(a), r))
                    }
                },
            }
        } else {
            Err(DecodeError::UnknownTag("hashfn", t as u32))
        },
    }
}

/// The comparison operator with an id.
pub fn comparison_from_code(id: u8) -> (r: Option<CmpOp>)
    ensures
        r == comparison_of_id(id),
{
    if id == 0 {
        Some(CmpOp::Eq)
    } else if id == 1 {
        Some(CmpOp::Lt)
    } else if id == 2 {
        Some(CmpOp::Le)
    } else if id == 3 {
        Some(CmpOp::Gt)
    } else if id == 4 {
        Some(CmpOp::Ge)
    } else {
        None
    }
}

/// The value function with an id.
pub fn valuefn_from_id(id: u16) -> (r: Option<ValueFn>)
    ensures
        r == value_fn_of_id(id),
{
    let r = if id == 0 {
        Some(ValueFn::Add)
    } else if id == 1 {
        Some(ValueFn::Sub)
    } else if id == 2 {
        Some(ValueFn::Mul)
    } else if id == 3 {
        Some(ValueFn::Div)
    } else if id == 4 {
        Some(ValueFn::Min)
    } else if id == 5 {
        Some(ValueFn::Max)
    } else if id == 6 {
        Some(ValueFn::Pct)
    } else if id == 7 {
        Some(ValueFn::Bps)
    } else if id == 8 {
        Some(ValueFn::OperationType)
    } else if id == 9 {
        Some(ValueFn::OperationArg)
    } else if id == 10 {
        Some(ValueFn::OperationPath)
    } else if id == 11 {
        Some(ValueFn::OperationSubtree)
    } else if id == 12 {
        Some(ValueFn::BlocksSinceActivity)
    } else if id == 13 {
        Some(ValueFn::BlocksSinceOpen)
    } else if id == 14 {
        Some(ValueFn::DepositBalance)
    } else if id == 15 {
        Some(ValueFn::RollingWindow)
    } else if id == 16 {
        Some(ValueFn::CumulativeSpentVia)
    } else if id == 17 {
        Some(ValueFn::AstRef)
    } else if id == 18 {
        Some(ValueFn::AstShapeAt)
    } else if id == 19 {
        Some(ValueFn::Path)
    } else if id == 20 {
        Some(ValueFn::BlocksSinceReceived)
    } else {
        None
    };
    proof {
        match r {
            Some(f) => {
                assert(crate::encode::value_fn_id(f) == id);
                let g = choose|g: ValueFn| crate::encode::value_fn_id(g) == id;
                assert(crate::encode::value_fn_id(g) == id);
            },
            None => {
                assert forall|f: ValueFn| crate::encode::value_fn_id(f) != id by {}
            },
        }
    }
    r
}

/// The state predicate with an id.
pub fn statepred_from_id(id: u16) -> (r: Option<StatePred>)
    ensures
        r == state_pred_of_id(id),
{
    let r = if id == 0 {
        Some(StatePred::Older)
    } else if id == 1 {
        Some(StatePred::After)
    } else if id == 2 {
        Some(StatePred::AmountAtMost)
    } else if id == 3 {
        Some(StatePred::AmountInRange)
    } else if id == 4 {
        Some(StatePred::AmountAtMostPct)
    } else if id == 5 {
        Some(StatePred::DestinationIs)
    } else if id == 6 {
        Some(StatePred::DestinationIn)
    } else if id == 7 {
        Some(StatePred::BalanceAtLeast)
    } else if id == 8 {
        Some(StatePred::BalanceAtMost)
    } else if id == 9 {
        Some(StatePred::BlocksSinceActivityAtLeast)
    } else if id == 10 {
        Some(StatePred::BlocksSinceOpenBelow)
    } else if id == 11 {
        Some(StatePred::RollingAmountBelow)
    } else if id == 12 {
        Some(StatePred::RollingAmountBelowPct)
    } else if id == 13 {
        Some(StatePred::SubtreeAt)
    } else if id == 14 {
        Some(StatePred::BlocksSinceOpenAtLeast)
    } else if id == 15 {
        Some(StatePred::BlocksSinceReceivedAtLeast)
    } else {
        None
    };
    proof {
        match r {
            Some(p) => {
                assert(crate::encode::state_pred_id(p) == id);
                let g = choose|g: StatePred| crate::encode::state_pred_id(g) == id;
                assert(crate::encode::state_pred_id(g) == id);
            },
            None => {
                assert forall|p: StatePred| crate::encode::state_pred_id(p) != id by {}
            },
        }
    }
    r
}


/// `n` path indices.
pub(crate) fn dec_indices(buf: &[u8], pos: usize, n: usize) -> (r: Result<(Vec<usize>, usize), DecodeError>)
    ensures
        match r {
            Ok((xs, q)) => rd_indices(buf@, pos as int, n as nat) == Ok::<(Seq<usize>, int), DecodeErrorV>((xs@, q as int)),
            Err(e) => rd_indices(buf@, pos as int, n as nat) == Err::<(Seq<usize>, int), DecodeErrorV>(e@),
        },
{
    let ghost s = buf@;
    let mut out: Vec<usize> = Vec::new();
    let mut p: usize = pos;
    let mut i: usize = 0;
    assert(out@ =~= Seq::empty());
    while i < n
        invariant
            i <= n,
            s == buf@,
            rd_indices(s, pos as int, n as nat) == match rd_indices(s, p as int, (n - i) as nat) {
                Ok((rest, q)) => Ok((out@ + rest, q)),
                Err(e) => Err(e),
            },
        decreases n - i,
    {
        let (x, q) = match read_u32(buf, p) {
            Err(e) => {
                assert(rd_indices(s, p as int, (n - i) as nat) == Err::<(Seq<usize>, int), DecodeErrorV>(e@));
                return Err(e);
            },
            Ok(xq) => xq,
        };
        let ghost xv = x as usize;
        assert(rd_indices(s, p as int, (n - i) as nat) == match rd_indices(s, q as int, (n - i - 1) as nat) {
            Ok((rest, r)) => Ok((seq![xv] + rest, r)),
            Err(e) => Err(e),
        });
        let ghost before = out@;
        out.push(x as usize);
        proof {
            assert(out@.drop_last() =~= before);
            assert forall|rest: Seq<usize>| #![auto] before + (seq![xv] + rest) == out@ + rest by {
                assert(before + (seq![xv] + rest) =~= out@ + rest);
            }
        }
        p = q;
        i = i + 1;
    }
    Ok((out, p))
}

/// `n` values, each nested `d` deep.
fn dec_values(buf: &[u8], pos: usize, n: usize, d: usize) -> (r: Result<(Vec<Value>, usize), DecodeError>)
    ensures
        match r {
            Ok((xs, q)) => rd_values(buf@, pos as int, n as nat, d as nat) == Ok::<(Seq<ValueV>, int), DecodeErrorV>((values_view(xs@), q as int)),
            Err(e) => rd_values(buf@, pos as int, n as nat, d as nat) == Err::<(Seq<ValueV>, int), DecodeErrorV>(e@),
        },
    decreases room(d as nat), n + 2,
{
    let ghost s = buf@;
    let mut out: Vec<Value> = Vec::new();
    let mut p: usize = pos;
    let mut i: usize = 0;
    assert(values_view(out@) =~= Seq::empty());
    while i < n
        invariant
            i <= n,
            s == buf@,
            rd_values(s, pos as int, n as nat, d as nat) == match rd_values(s, p as int, (n - i) as nat, d as nat) {
                Ok((rest, q)) => Ok((values_view(out@) + rest, q)),
                Err(e) => Err(e),
            },
        decreases n - i,
    {
        let (x, q) = match dec_value(buf, p, d) {
            Err(e) => {
                assert(rd_values(s, p as int, (n - i) as nat, d as nat) == Err::<(Seq<ValueV>, int), DecodeErrorV>(e@));
                return Err(e);
            },
            Ok(xq) => xq,
        };
        let ghost xv = x@;
        assert(rd_values(s, p as int, (n - i) as nat, d as nat) == match rd_values(s, q as int, (n - i - 1) as nat, d as nat) {
            Ok((rest, r)) => Ok((seq![xv] + rest, r)),
            Err(e) => Err(e),
        });
        let ghost before = out@;
        out.push(x);
        proof {
            assert(out@.drop_last() =~= before);
            assert forall|rest: Seq<ValueV>| #![auto] values_view(before) + (seq![xv] + rest) == values_view(out@) + rest by {
                assert(values_view(before) + (seq![xv] + rest) =~= values_view(out@) + rest);
            }
        }
        p = q;
        i = i + 1;
    }
    Ok((out, p))
}

/// `n` terms, each nested `d` deep.
fn dec_terms(buf: &[u8], pos: usize, n: usize, d: usize) -> (r: Result<(Vec<BTerm>, usize), DecodeError>)
    ensures
        match r {
            Ok((xs, q)) => rd_terms(buf@, pos as int, n as nat, d as nat) == Ok::<(Seq<BTermV>, int), DecodeErrorV>((terms_view(xs@), q as int)),
            Err(e) => rd_terms(buf@, pos as int, n as nat, d as nat) == Err::<(Seq<BTermV>, int), DecodeErrorV>(e@),
        },
    decreases room(d as nat), n + 2,
{
    let ghost s = buf@;
    let mut out: Vec<BTerm> = Vec::new();
    let mut p: usize = pos;
    let mut i: usize = 0;
    assert(terms_view(out@) =~= Seq::empty());
    while i < n
        invariant
            i <= n,
            s == buf@,
            rd_terms(s, pos as int, n as nat, d as nat) == match rd_terms(s, p as int, (n - i) as nat, d as nat) {
                Ok((rest, q)) => Ok((terms_view(out@) + rest, q)),
                Err(e) => Err(e),
            },
        decreases n - i,
    {
        let (x, q) = match dec_term(buf, p, d) {
            Err(e) => {
                assert(rd_terms(s, p as int, (n - i) as nat, d as nat) == Err::<(Seq<BTermV>, int), DecodeErrorV>(e@));
                return Err(e);
            },
            Ok(xq) => xq,
        };
        let ghost xv = x@;
        assert(rd_terms(s, p as int, (n - i) as nat, d as nat) == match rd_terms(s, q as int, (n - i - 1) as nat, d as nat) {
            Ok((rest, r)) => Ok((seq![xv] + rest, r)),
            Err(e) => Err(e),
        });
        let ghost before = out@;
        out.push(x);
        proof {
            assert(out@.drop_last() =~= before);
            assert forall|rest: Seq<BTermV>| #![auto] terms_view(before) + (seq![xv] + rest) == terms_view(out@) + rest by {
                assert(terms_view(before) + (seq![xv] + rest) =~= terms_view(out@) + rest);
            }
        }
        p = q;
        i = i + 1;
    }
    Ok((out, p))
}

/// `n` value terms, each nested `d` deep.
fn dec_vterms(buf: &[u8], pos: usize, n: usize, d: usize) -> (r: Result<(Vec<VTerm>, usize), DecodeError>)
    ensures
        match r {
            Ok((xs, q)) => rd_vterms(buf@, pos as int, n as nat, d as nat) == Ok::<(Seq<VTermV>, int), DecodeErrorV>((vterms_view(xs@), q as int)),
            Err(e) => rd_vterms(buf@, pos as int, n as nat, d as nat) == Err::<(Seq<VTermV>, int), DecodeErrorV>(e@),
        },
    decreases room(d as nat), n + 2,
{
    let ghost s = buf@;
    let mut out: Vec<VTerm> = Vec::new();
    let mut p: usize = pos;
    let mut i: usize = 0;
    assert(vterms_view(out@) =~= Seq::empty());
    while i < n
        invariant
            i <= n,
            s == buf@,
            rd_vterms(s, pos as int, n as nat, d as nat) == match rd_vterms(s, p as int, (n - i) as nat, d as nat) {
                Ok((rest, q)) => Ok((vterms_view(out@) + rest, q)),
                Err(e) => Err(e),
            },
        decreases n - i,
    {
        let (x, q) = match dec_vterm(buf, p, d) {
            Err(e) => {
                assert(rd_vterms(s, p as int, (n - i) as nat, d as nat) == Err::<(Seq<VTermV>, int), DecodeErrorV>(e@));
                return Err(e);
            },
            Ok(xq) => xq,
        };
        let ghost xv = x@;
        assert(rd_vterms(s, p as int, (n - i) as nat, d as nat) == match rd_vterms(s, q as int, (n - i - 1) as nat, d as nat) {
            Ok((rest, r)) => Ok((seq![xv] + rest, r)),
            Err(e) => Err(e),
        });
        let ghost before = out@;
        out.push(x);
        proof {
            assert(out@.drop_last() =~= before);
            assert forall|rest: Seq<VTermV>| #![auto] vterms_view(before) + (seq![xv] + rest) == vterms_view(out@) + rest by {
                assert(vterms_view(before) + (seq![xv] + rest) =~= vterms_view(out@) + rest);
            }
        }
        p = q;
        i = i + 1;
    }
    Ok((out, p))
}

/// `n` `match` arms, each body nested `d` deep.
fn dec_arms(buf: &[u8], pos: usize, n: usize, d: usize) -> (r: Result<(Vec<(Symbol, BTerm)>, usize), DecodeError>)
    ensures
        match r {
            Ok((xs, q)) => rd_arms(buf@, pos as int, n as nat, d as nat) == Ok::<(Seq<(Seq<char>, BTermV)>, int), DecodeErrorV>((arms_view(xs@), q as int)),
            Err(e) => rd_arms(buf@, pos as int, n as nat, d as nat) == Err::<(Seq<(Seq<char>, BTermV)>, int), DecodeErrorV>(e@),
        },
    decreases room(d as nat), n + 2,
{
    let ghost s = buf@;
    let mut out: Vec<(Symbol, BTerm)> = Vec::new();
    let mut p: usize = pos;
    let mut i: usize = 0;
    assert(arms_view(out@) =~= Seq::empty());
    while i < n
        invariant
            i <= n,
            s == buf@,
            rd_arms(s, pos as int, n as nat, d as nat) == match rd_arms(s, p as int, (n - i) as nat, d as nat) {
                Ok((rest, q)) => Ok((arms_view(out@) + rest, q)),
                Err(e) => Err(e),
            },
        decreases n - i,
    {
        let (tag, q0) = match read_text(buf, p, DecodeError::BadUtf8) {
            Err(e) => {
                assert(rd_arms(s, p as int, (n - i) as nat, d as nat) == Err::<(Seq<(Seq<char>, BTermV)>, int), DecodeErrorV>(e@));
                return Err(e);
            },
            Ok(x) => x,
        };
        let (body, q) = match dec_term(buf, q0, d) {
            Err(e) => {
                assert(rd_arms(s, p as int, (n - i) as nat, d as nat) == Err::<(Seq<(Seq<char>, BTermV)>, int), DecodeErrorV>(e@));
                return Err(e);
            },
            Ok(x) => x,
        };
        let ghost xv = (tag@, body@);
        assert(rd_arms(s, p as int, (n - i) as nat, d as nat) == match rd_arms(s, q as int, (n - i - 1) as nat, d as nat) {
            Ok((rest, r)) => Ok((seq![xv] + rest, r)),
            Err(e) => Err(e),
        });
        let ghost before = out@;
        out.push((Symbol(tag), body));
        proof {
            assert(out@.drop_last() =~= before);
            assert forall|rest: Seq<(Seq<char>, BTermV)>| #![auto] arms_view(before) + (seq![xv] + rest) == arms_view(out@) + rest by {
                assert(arms_view(before) + (seq![xv] + rest) =~= arms_view(out@) + rest);
            }
        }
        p = q;
        i = i + 1;
    }
    Ok((out, p))
}


/// A value nested `d` deep.
pub fn dec_value(buf: &[u8], pos: usize, d: usize) -> (r: Result<(Value, usize), DecodeError>)
    ensures
        got(r) == rd_value(buf@, pos as int, d as nat),
    decreases room(d as nat), 1nat,
{
    if d > MAX_DEPTH {
        return Err(DecodeError::TooDeep);
    }
    let (t, q) = match read_u8(buf, pos) {
        Err(e) => return Err(e),
        Ok(x) => x,
    };
    if t == 0 {
        match read_int(buf, q) {
            Ok((n, r)) => Ok((Value::Int(n), r)),
            Err(e) => Err(e),
        }
    } else if t == 1 {
        match read_text(buf, q, DecodeError::BadKey) {
            Ok((k, r)) => Ok((Value::Key(k), r)),
            Err(e) => Err(e),
        }
    } else if t == 2 {
        match read_hash(buf, q) {
            Ok((h, r)) => Ok((Value::Hash(h), r)),
            Err(e) => Err(e),
        }
    } else if t == 3 {
        match read_bytes(buf, q) {
            Ok((b, r)) => Ok((Value::Bytes(b), r)),
            Err(e) => Err(e),
        }
    } else if t == 4 {
        match read_count(buf, q) {
            Ok((n, r)) => match dec_indices(buf, r, n) {
                Ok((idx, r2)) => Ok((Value::Path(idx), r2)),
                Err(e) => Err(e),
            },
            Err(e) => Err(e),
        }
    } else if t == 5 {
        match read_count(buf, q) {
            Ok((n, r)) => match dec_values(buf, r, n, d + 1) {
                Ok((items, r2)) => Ok((Value::List(items), r2)),
                Err(e) => Err(e),
            },
            Err(e) => Err(e),
        }
    } else if t == 6 {
        match read_text(buf, q, DecodeError::BadUtf8) {
            Ok((sym, r)) => Ok((Value::Symbol(Symbol(sym)), r)),
            Err(e) => Err(e),
        }
    } else if t == 7 {
        match dec_term(buf, q, d + 1) {
            Ok((b, r)) => Ok((Value::Subtree(Box::new(b)), r)),
            Err(e) => Err(e),
        }
    } else {
        Err(DecodeError::UnknownTag("value", t as u32))
    }
}

/// A term nested `d` deep.
pub fn dec_term(buf: &[u8], pos: usize, d: usize) -> (r: Result<(BTerm, usize), DecodeError>)
    ensures
        got(r) == rd_term(buf@, pos as int, d as nat),
    decreases room(d as nat), 1nat,
{
    if d > MAX_DEPTH {
        return Err(DecodeError::TooDeep);
    }
    let (t, q) = match read_u8(buf, pos) {
        Err(e) => return Err(e),
        Ok(x) => x,
    };
    if t == 0 {
        match read_bool(buf, q) {
            Ok((b, r)) => Ok((BTerm::Const(b), r)),
            Err(e) => Err(e),
        }
    } else if t == 1 || t == 2 {
        match read_count(buf, q) {
            Ok((n, r)) => match dec_terms(buf, r, n, d + 1) {
                Ok((bs, r2)) => Ok(
                    (if t == 1 { BTerm::And(bs) } else { BTerm::Or(bs) }, r2),
                ),
                Err(e) => Err(e),
            },
            Err(e) => Err(e),
        }
    } else if t == 3 {
        match read_u32(buf, q) {
            Ok((k, r)) => match read_count(buf, r) {
                Ok((n, r2)) => match dec_terms(buf, r2, n, d + 1) {
                    Ok((bs, r3)) => Ok((BTerm::Thresh(k as usize, bs), r3)),
                    Err(e) => Err(e),
                },
                Err(e) => Err(e),
            },
            Err(e) => Err(e),
        }
    } else if t == 4 {
        match dec_term(buf, q, d + 1) {
            Ok((b, r)) => Ok((BTerm::Not(Box::new(b)), r)),
            Err(e) => Err(e),
        }
    } else if t == 5 {
        match dec_term(buf, q, d + 1) {
            Ok((c, r)) => match dec_term(buf, r, d + 1) {
                Ok((t1, r2)) => match dec_term(buf, r2, d + 1) {
                    Ok((e1, r3)) => Ok(
                        (BTerm::If(Box::new(c), Box::new(t1), Box::new(e1)), r3),
                    ),
                    Err(e) => Err(e),
                },
                Err(e) => Err(e),
            },
            Err(e) => Err(e),
        }
    } else if t == 6 {
        match dec_vterm(buf, q, d + 1) {
            Ok((sc, r)) => match read_count(buf, r) {
                Ok((n, r2)) => match dec_arms(buf, r2, n, d + 1) {
                    Ok((arms, r3)) => match dec_term(buf, r3, d + 1) {
                        Ok((df, r4)) => Ok(
                            (BTerm::Match { scrutinee: sc, arms, default: Box::new(df) }, r4),
                        ),
                        Err(e) => Err(e),
                    },
                    Err(e) => Err(e),
                },
                Err(e) => Err(e),
            },
            Err(e) => Err(e),
        }
    } else if t == 7 {
        match read_u8(buf, q) {
            Ok((id, r)) => match comparison_from_code(id) {
                Some(o) => match dec_vterm(buf, r, d + 1) {
                    Ok((a, r2)) => match dec_vterm(buf, r2, d + 1) {
                        Ok((b, r3)) => Ok((BTerm::Cmp(o, a, b), r3)),
                        Err(e) => Err(e),
                    },
                    Err(e) => Err(e),
                },
                None => Err(DecodeError::UnknownTag("cmpop", id as u32)),
            },
            Err(e) => Err(e),
        }
    } else if t == 8 {
        match read_u16(buf, q) {
            Ok((id, r)) => match statepred_from_id(id) {
                Some(pr) => match read_count(buf, r) {
                    Ok((n, r2)) => match dec_vterms(buf, r2, n, d + 1) {
                        Ok((args, r3)) => Ok((BTerm::State(pr, args), r3)),
                        Err(e) => Err(e),
                    },
                    Err(e) => Err(e),
                },
                None => Err(DecodeError::UnknownTag("statepred", id as u32)),
            },
            Err(e) => Err(e),
        }
    } else if t == 9 {
        match dec_obligation(buf, q, d) {
            Ok((o, r)) => Ok((BTerm::Prove(o), r)),
            Err(e) => Err(e),
        }
    } else {
        Err(DecodeError::UnknownTag("node", t as u32))
    }
}

/// A value term nested `d` deep.
pub fn dec_vterm(buf: &[u8], pos: usize, d: usize) -> (r: Result<(VTerm, usize), DecodeError>)
    ensures
        got(r) == rd_vterm(buf@, pos as int, d as nat),
    decreases room(d as nat), 1nat,
{
    if d > MAX_DEPTH {
        return Err(DecodeError::TooDeep);
    }
    let (t, q) = match read_u8(buf, pos) {
        Err(e) => return Err(e),
        Ok(x) => x,
    };
    if t == 0 {
        match dec_value(buf, q, d + 1) {
            Ok((v, r)) => Ok((VTerm::Lit(v), r)),
            Err(e) => Err(e),
        }
    } else if t == 1 {
        match read_text(buf, q, DecodeError::BadUtf8) {
            Ok((n, r)) => Ok((VTerm::Var(n), r)),
            Err(e) => Err(e),
        }
    } else if t == 2 {
        match read_u16(buf, q) {
            Ok((id, r)) => match valuefn_from_id(id) {
                Some(f) => match read_count(buf, r) {
                    Ok((n, r2)) => match dec_vterms(buf, r2, n, d + 1) {
                        Ok((args, r3)) => Ok((VTerm::Op(f, args), r3)),
                        Err(e) => Err(e),
                    },
                    Err(e) => Err(e),
                },
                None => Err(DecodeError::UnknownTag("valuefn", id as u32)),
            },
            Err(e) => Err(e),
        }
    } else {
        Err(DecodeError::UnknownTag("vterm", t as u32))
    }
}

/// An obligation of a term nested `d` deep.
pub fn dec_obligation(buf: &[u8], pos: usize, d: usize) -> (r: Result<(Obligation, usize), DecodeError>)
    ensures
        got(r) == rd_obligation(buf@, pos as int, d as nat),
    decreases room(d as nat), 0nat,
{
    if d > MAX_DEPTH {
        return Err(DecodeError::TooDeep);
    }
    let (t, q) = match read_u16(buf, pos) {
        Err(e) => return Err(e),
        Ok(x) => x,
    };
    if t == 0 || t == 1 || t == 2 || t == 4 {
        match dec_vterm(buf, q, d + 1) {
            Ok((v, r)) => Ok(
                (
                    if t == 0 {
                        Obligation::Pk(v)
                    } else if t == 1 {
                        Obligation::PkH(v)
                    } else if t == 2 {
                        Obligation::PkAny(v)
                    } else {
                        Obligation::Hashlock(v)
                    },
                    r,
                ),
            ),
            Err(e) => Err(e),
        }
    } else if t == 3 {
        match read_u32(buf, q) {
            Ok((k, r)) => match dec_vterm(buf, r, d + 1) {
                Ok((v, r2)) => Ok((Obligation::Multi(k as usize, v), r2)),
                Err(e) => Err(e),
            },
            Err(e) => Err(e),
        }
    } else if t == 5 {
        match dec_vterm(buf, q, d + 1) {
            Ok((v, r)) => match dec_schema(buf, r) {
                Ok((sc, r2)) => Ok((Obligation::Attest(v, sc), r2)),
                Err(e) => Err(e),
            },
            Err(e) => Err(e),
        }
    } else {
        Err(DecodeError::UnknownTag("obligation", t as u32))
    }
}

/// An attestation schema.
pub fn dec_schema(buf: &[u8], pos: usize) -> (r: Result<(Schema, usize), DecodeError>)
    ensures
        got(r) == rd_schema(buf@, pos as int),
{
    match read_u16(buf, pos) {
        Ok((t, q)) => if t == 0 {
            match read_u32(buf, q) {
                Ok((bps, r)) => Ok((Schema::PriceWithinBps { tolerance_bps: bps }, r)),
                Err(e) => Err(e),
            }
        } else {
            Err(DecodeError::UnknownTag("schema", t as u32))
        },
        Err(e) => Err(e),
    }
}


/// Whether `name` matches `[a-z_][a-z0-9_]*`: the names the canonical encodings and the source
/// syntax accept for constants and operation arguments.
pub fn is_canonical_name(name: &str) -> (r: bool)
    ensures
        r == canonical_name(encode_utf8(name@)),
{
    let b = name.as_bytes();
    if b.len() == 0 {
        return false;
    }
    if !(b[0] == 95 || (97 <= b[0] && b[0] <= 122)) {
        return false;
    }
    let mut i: usize = 1;
    while i < b.len()
        invariant
            1 <= i <= b@.len(),
            b@ == encode_utf8(name@),
            b@[0] == 95 || (97 <= b@[0] <= 122),
            forall|j: int| 1 <= j < i ==> (#[trigger] b@[j] == 95 || (97 <= b@[j] <= 122) || (48 <= b@[j] <= 57)),
        decreases b@.len() - i,
    {
        let c = b[i];
        if !(c == 95 || (97 <= c && c <= 122) || (48 <= c && c <= 57)) {
            assert(!(b@[i as int] == 95 || (97 <= b@[i as int] <= 122) || (48 <= b@[i as int] <= 57)));
            return false;
        }
        i = i + 1;
    }
    true
}

/// `n` named entries, in strictly increasing name order.
fn dec_named(buf: &[u8], pos: usize, n: usize) -> (r: Result<(NameMap<Value>, usize), DecodeError>)
    ensures
        match r {
            Ok((m, q)) => rd_named(buf@, pos as int, n as nat, None) == Ok::<(Seq<(Seq<char>, ValueV)>, int), DecodeErrorV>((m@, q as int)),
            Err(e) => rd_named(buf@, pos as int, n as nat, None) == Err::<(Seq<(Seq<char>, ValueV)>, int), DecodeErrorV>(e@),
        },
{
    let ghost s = buf@;
    let mut out: NameMap<Value> = SortedMap::new();
    let mut prev: Option<Vec<u8>> = None;
    let mut p: usize = pos;
    let mut i: usize = 0;
    assert(out@ =~= Seq::<(Seq<char>, ValueV)>::empty());
    while i < n
        invariant
            i <= n,
            s == buf@,
            out@.len() == i,
            i == 0 <==> prev is None,
            prev matches Some(pb) ==> pb@ == encode_utf8(out@.last().0),
            keys_sorted::<String, ValueV>(out@),
            rd_named(s, pos as int, n as nat, None) == match rd_named(
                s,
                p as int,
                (n - i) as nat,
                match &prev {
                    Some(pb) => Some(pb@),
                    None => None,
                },
            ) {
                Ok((rest, q)) => Ok((out@ + rest, q)),
                Err(e) => Err(e),
            },
        decreases n - i,
    {
        let ghost prev_spec = match &prev {
            Some(pb) => Some(pb@),
            None => None::<Seq<u8>>,
        };
        let (name, q0) = match read_text(buf, p, DecodeError::BadUtf8) {
            Err(e) => {
                assert(rd_named(s, p as int, (n - i) as nat, prev_spec) == Err::<(Seq<(Seq<char>, ValueV)>, int), DecodeErrorV>(e@));
                return Err(e);
            },
            Ok(x) => x,
        };
        let nb = name.as_str().as_bytes();
        if !is_canonical_name(name.as_str()) {
            return Err(DecodeError::InvalidName);
        }
        match &prev {
            Some(pb) => {
                if !bytes_less(pb.as_slice(), nb) {
                    return Err(DecodeError::NonCanonicalOrder);
                }
            },
            None => {},
        }
        let (v, q) = match dec_value(buf, q0, 0) {
            Err(e) => {
                assert(rd_named(s, p as int, (n - i) as nat, prev_spec) == Err::<(Seq<(Seq<char>, ValueV)>, int), DecodeErrorV>(e@));
                return Err(e);
            },
            Ok(x) => x,
        };
        let ghost xv = (name@, v@);
        assert(rd_named(s, p as int, (n - i) as nat, prev_spec) == match rd_named(s, q as int, (n - i - 1) as nat, Some(encode_utf8(name@))) {
            Ok((rest, r)) => Ok((seq![xv] + rest, r)),
            Err(e) => Err(e),
        });
        let new_prev = crate::bytes::slice_to_vec(nb);
        let ghost before = out@;
        proof {
            assert forall|j: int| 0 <= j < out@.len() implies crate::bytes::bytes_lt(
                #[trigger] <String as SortKey>::sort_bytes(out@[j].0),
                <String as SortKey>::sort_bytes(name@),
            ) by {
                let last = out@.len() - 1;
                if j < last {
                    assert(crate::bytes::bytes_lt(
                        <String as SortKey>::sort_bytes(out@[j].0),
                        <String as SortKey>::sort_bytes(out@[last].0),
                    ));
                    crate::bytes::lemma_bytes_lt_transitive(
                        encode_utf8(out@[j].0),
                        encode_utf8(out@[last].0),
                        encode_utf8(name@),
                    );
                }
            }
        }
        out.push_last(name, v);
        proof {
            assert forall|a: int, b: int| 0 <= a < b < out@.len() implies crate::bytes::bytes_lt(
                #[trigger] <String as SortKey>::sort_bytes(out@[a].0),
                #[trigger] <String as SortKey>::sort_bytes(out@[b].0),
            ) by {
                if b < out@.len() - 1 {
                    assert(out@[a] == before[a]);
                    assert(out@[b] == before[b]);
                }
            }
            assert forall|rest: Seq<(Seq<char>, ValueV)>| #![auto] before + (seq![xv] + rest) == out@ + rest by {
                assert(before + (seq![xv] + rest) =~= out@ + rest);
            }
        }
        prev = Some(new_prev);
        p = q;
        i = i + 1;
    }
    assert(out@ + Seq::<(Seq<char>, ValueV)>::empty() =~= out@);
    Ok((out, p))
}

/// Decode a descriptor from its canonical encoding, rejecting any non-canonical input.
pub fn decode_descriptor(buf: &[u8]) -> (r: Result<Descriptor, DecodeError>)
    ensures
        match r {
            Ok(d) => rd_descriptor(buf@) == Ok::<(Seq<(Seq<char>, ValueV)>, BTermV), DecodeErrorV>((d@.constants, d@.body)),
            Err(e) => rd_descriptor(buf@) == Err::<(Seq<(Seq<char>, ValueV)>, BTermV), DecodeErrorV>(e@),
        },
{
    let (v, p) = match read_u8(buf, 0) {
        Err(e) => return Err(e),
        Ok(x) => x,
    };
    if v != 1 {
        return Err(DecodeError::BadVersion(v));
    }
    let (n, q) = match read_count(buf, p) {
        Err(e) => return Err(e),
        Ok(x) => x,
    };
    let (constants, r) = match dec_named(buf, q, n) {
        Err(e) => return Err(e),
        Ok(x) => x,
    };
    let (body, r2) = match dec_term(buf, r, 0) {
        Err(e) => return Err(e),
        Ok(x) => x,
    };
    if r2 != buf.len() {
        return Err(DecodeError::TrailingBytes);
    }
    Ok(Descriptor { constants, body })
}


/// The operation a byte string encodes as its signing preimage: version, deposit id, type,
/// arguments in strictly increasing name order, nonce and expiry.
pub open spec fn rd_operation(s: Seq<u8>) -> Result<OperationV, DecodeErrorV> {
    match rd_version(s) {
        Err(e) => Err(e),
        Ok((_, p)) => match rd_n(s, p, 32) {
            Err(e) => Err(e),
            Ok((deposit_id, p1)) => match rd_text(s, p1, DecodeErrorV::BadUtf8) {
                Err(e) => Err(e),
                Ok((op_type, p2)) => match rd_count(s, p2) {
                    Err(e) => Err(e),
                    Ok((n, p3)) => match rd_named(s, p3, n, None) {
                        Err(e) => Err(e),
                        Ok((args, p4)) => match rd_u64(s, p4) {
                            Err(e) => Err(e),
                            Ok((nonce, p5)) => match rd_u32(s, p5) {
                                Err(e) => Err(e),
                                Ok((expiry, p6)) => match rd_end(s, p6) {
                                    Err(e) => Err(e),
                                    Ok(()) => Ok(
                                        OperationV { op_type, args, deposit_id, nonce, expiry },
                                    ),
                                },
                            },
                        },
                    },
                },
            },
        },
    }
}

/// Decode an operation from its canonical preimage encoding, rejecting non-canonical input.
pub fn decode_operation(buf: &[u8]) -> (r: Result<OperationData, DecodeError>)
    ensures
        match r {
            Ok(o) => rd_operation(buf@) == Ok::<OperationV, DecodeErrorV>(o@),
            Err(e) => rd_operation(buf@) == Err::<OperationV, DecodeErrorV>(e@),
        },
{
    let (v, p) = match read_u8(buf, 0) {
        Err(e) => return Err(e),
        Ok(x) => x,
    };
    if v != 1 {
        return Err(DecodeError::BadVersion(v));
    }
    let (id, p1) = match read_n(buf, p, 32) {
        Err(e) => return Err(e),
        Ok(x) => x,
    };
    let deposit_id = array32(&id);
    let (op_type, p2) = match read_text(buf, p1, DecodeError::BadUtf8) {
        Err(e) => return Err(e),
        Ok(x) => x,
    };
    let (n, p3) = match read_count(buf, p2) {
        Err(e) => return Err(e),
        Ok(x) => x,
    };
    let (args, p4) = match dec_named(buf, p3, n) {
        Err(e) => return Err(e),
        Ok(x) => x,
    };
    let (nonce, p5) = match read_u64(buf, p4) {
        Err(e) => return Err(e),
        Ok(x) => x,
    };
    let (expiry, p6) = match read_u32(buf, p5) {
        Err(e) => return Err(e),
        Ok(x) => x,
    };
    if p6 != buf.len() {
        return Err(DecodeError::TrailingBytes);
    }
    Ok(OperationData { op_type: Symbol(op_type), args, deposit_id, nonce, expiry })
}

} // verus!
