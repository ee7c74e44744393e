//! The canonical source form of a descriptor: the text the parser reads back.
//!
//! Combinators print as `name(arg, ...)`, comparisons by their predicate name (`eq`, `lt`, `le`,
//! `gt`, `ge`), hashes as `sha256(0x..)`, byte strings as `0x..` in lower-case hex, paths as
//! `path(i, ...)`, lists as `[a, ...]`, and a descriptor with constants as
//! `with(name = value, ..., in body)`.
use vstd::prelude::*;

use crate::ast::{
    BTerm, BTermV, HashFn, HashV, HashValue, Obligation, ObligationV, Schema, Value, ValueV, VTerm,
    VTermV, arms_view, group_views, lemma_arms_view, lemma_terms_view, lemma_values_view,
    lemma_vterms_view, terms_view, values_view, vterms_view,
};
use crate::descriptor::{Descriptor, DescriptorV};
use crate::registry::{CmpOp, Symbol};

verus! {

broadcast use group_views;

// ---------------------------------------------------------------------------------------------
// Numbers and bytes
// ---------------------------------------------------------------------------------------------

/// The decimal digit `d`.
pub open spec fn digit_text(d: int) -> Seq<char> {
    if d == 0 {
        "0"@
    } else if d == 1 {
        "1"@
    } else if d == 2 {
        "2"@
    } else if d == 3 {
        "3"@
    } else if d == 4 {
        "4"@
    } else if d == 5 {
        "5"@
    } else if d == 6 {
        "6"@
    } else if d == 7 {
        "7"@
    } else if d == 8 {
        "8"@
    } else {
        "9"@
    }
}

/// The lower-case hexadecimal digit `d`.
pub open spec fn hex_digit_text(d: int) -> Seq<char> {
    if d < 10 {
        digit_text(d)
    } else if d == 10 {
        "a"@
    } else if d == 11 {
        "b"@
    } else if d == 12 {
        "c"@
    } else if d == 13 {
        "d"@
    } else if d == 14 {
        "e"@
    } else {
        "f"@
    }
}

/// The decimal form of a natural number.
pub open spec fn nat_text(n: nat) -> Seq<char>
    decreases n,
{
    if n < 10 {
        digit_text(n as int)
    } else {
        nat_text(n / 10) + digit_text((n % 10) as int)
    }
}

/// The decimal form of an integer, with a leading `-` when negative.
pub open spec fn int_text(n: int) -> Seq<char> {
    if n < 0 {
        "-"@ + nat_text((-n) as nat)
    } else {
        nat_text(n as nat)
    }
}

/// Bytes as lower-case hexadecimal, two digits each.
pub open spec fn hex_text(b: Seq<u8>) -> Seq<char>
    decreases b.len(),
{
    if b.len() == 0 {
        Seq::empty()
    } else {
        hex_text(b.drop_last()) + hex_digit_text((b.last() / 16) as int) + hex_digit_text(
            (b.last() % 16) as int,
        )
    }
}

/// Append a digit.
fn push_digit(out: &mut String, d: u8)
    requires
        d < 16,
    ensures
        final(out)@ == old(out)@ + hex_digit_text(d as int),
{
    let s: &str = match d {
        0 => "0",
        1 => "1",
        2 => "2",
        3 => "3",
        4 => "4",
        5 => "5",
        6 => "6",
        7 => "7",
        8 => "8",
        9 => "9",
        10 => "a",
        11 => "b",
        12 => "c",
        13 => "d",
        14 => "e",
        _ => "f",
    };
    out.append(s);
}

/// Append the decimal form of a natural number.
pub(crate) fn push_nat(out: &mut String, n: u128)
    ensures
        final(out)@ == old(out)@ + nat_text(n as nat),
    decreases n,
{
    if n >= 10 {
        push_nat(out, n / 10);
    }
    push_digit(out, (n % 10) as u8);
    assert(out@ =~= old(out)@ + nat_text(n as nat));
}

/// Append the decimal form of a count.
pub(crate) fn push_count(out: &mut String, n: usize)
    ensures
        final(out)@ == old(out)@ + nat_text(n as nat),
{
    push_nat(out, n as u128);
}

/// Append the decimal form of an integer.
pub(crate) fn push_int(out: &mut String, n: i128)
    ensures
        final(out)@ == old(out)@ + int_text(n as int),
{
    if n < 0 {
        out.append("-");
        let m: u128 = if n == i128::MIN {
            0x8000_0000_0000_0000_0000_0000_0000_0000u128
        } else {
            (-n) as u128
        };
        push_nat(out, m);
    } else {
        push_nat(out, n as u128);
    }
    assert(out@ =~= old(out)@ + int_text(n as int));
}

/// Append bytes as lower-case hexadecimal.
fn push_hex(out: &mut String, b: &[u8])
    ensures
        final(out)@ == old(out)@ + hex_text(b@),
{
    let ghost start = out@;
    let mut i: usize = 0;
    while i < b.len()
        invariant
            i <= b.len(),
            out@ == start + hex_text(b@.take(i as int)),
        decreases b.len() - i,
    {
        push_digit(out, b[i] / 16);
        push_digit(out, b[i] % 16);
        proof {
            assert(b@.take(i + 1).drop_last() =~= b@.take(i as int));
        }
        i = i + 1;
        assert(out@ =~= start + hex_text(b@.take(i as int)));
    }
    assert(b@.take(b.len() as int) =~= b@);
}


// ---------------------------------------------------------------------------------------------
// Terms
// ---------------------------------------------------------------------------------------------

/// The name of a hash function.
pub open spec fn hash_fn_text(f: HashFn) -> Seq<char> {
    match f {
        HashFn::Sha256 => "sha256"@,
        HashFn::Hash256 => "hash256"@,
        HashFn::Ripemd160 => "ripemd160"@,
        HashFn::Hash160 => "hash160"@,
    }
}

/// A hash literal: `sha256(0x..)` and the like.
pub open spec fn show_hash(h: HashV) -> Seq<char> {
    hash_fn_text(h.func) + "(0x"@ + hex_text(h.digest) + ")"@
}

/// The predicate name a comparison prints as.
pub open spec fn comparison_word(o: CmpOp) -> Seq<char> {
    match o {
        CmpOp::Eq => "eq"@,
        CmpOp::Lt => "lt"@,
        CmpOp::Le => "le"@,
        CmpOp::Gt => "gt"@,
        CmpOp::Ge => "ge"@,
    }
}

/// The indices of a path, separated by `, `.
pub open spec fn show_indices(p: Seq<usize>) -> Seq<char>
    decreases p.len(),
{
    if p.len() == 0 {
        Seq::empty()
    } else if p.len() == 1 {
        nat_text(p[0] as nat)
    } else {
        show_indices(p.drop_last()) + ", "@ + nat_text(p.last() as nat)
    }
}

/// The source form of a value.
pub open spec fn show_value(v: ValueV) -> Seq<char>
    decreases v,
{
    match v {
        ValueV::Int(n) => int_text(n as int),
        ValueV::Key(k) => k,
        ValueV::Hash(h) => show_hash(h),
        ValueV::Bytes(b) => "0x"@ + hex_text(b),
        ValueV::Path(p) => "path("@ + show_indices(p) + ")"@,
        ValueV::List(items) => "["@ + show_values(items) + "]"@,
        ValueV::Symbol(s) => s,
        ValueV::Subtree(t) => show_term(*t),
    }
}

/// Values separated by `, `.
pub open spec fn show_values(s: Seq<ValueV>) -> Seq<char>
    decreases s,
{
    if s.len() == 0 {
        Seq::empty()
    } else if s.len() == 1 {
        show_value(s[0])
    } else {
        show_values(s.drop_last()) + ", "@ + show_value(s.last())
    }
}

/// The source form of a term.
pub open spec fn show_term(t: BTermV) -> Seq<char>
    decreases t,
{
    match t {
        BTermV::Const(b) => if b {
            "true"@
        } else {
            "false"@
        },
        BTermV::And(bs) => "and("@ + show_terms(bs) + ")"@,
        BTermV::Or(bs) => "or("@ + show_terms(bs) + ")"@,
        BTermV::Thresh(k, bs) => "thresh("@ + nat_text(k as nat) + show_tail_terms(bs) + ")"@,
        BTermV::Not(b) => "not("@ + show_term(*b) + ")"@,
        BTermV::If(c, t1, e) => "if("@ + show_term(*c) + ", "@ + show_term(*t1) + ", "@ + show_term(
            *e,
        ) + ")"@,
        BTermV::Match(s, arms, d) => "match("@ + show_vterm(s) + show_arms(arms) + ", branch(else, "@
            + show_term(*d) + "))"@,
        BTermV::Cmp(o, a, b) => comparison_word(o) + "("@ + show_vterm(a) + ", "@ + show_vterm(b)
            + ")"@,
        BTermV::State(p, args) => p.spec_name() + "("@ + show_vterms(args) + ")"@,
        BTermV::Prove(o) => show_obligation(o),
    }
}

/// Terms separated by `, `.
pub open spec fn show_terms(s: Seq<BTermV>) -> Seq<char>
    decreases s,
{
    if s.len() == 0 {
        Seq::empty()
    } else if s.len() == 1 {
        show_term(s[0])
    } else {
        show_terms(s.drop_last()) + ", "@ + show_term(s.last())
    }
}

/// Terms, each preceded by `, `.
pub open spec fn show_tail_terms(s: Seq<BTermV>) -> Seq<char>
    decreases s,
{
    if s.len() == 0 {
        Seq::empty()
    } else {
        show_tail_terms(s.drop_last()) + ", "@ + show_term(s.last())
    }
}

/// `match` arms, each as `, branch(tag, body)`.
pub open spec fn show_arms(s: Seq<(Seq<char>, BTermV)>) -> Seq<char>
    decreases s,
{
    if s.len() == 0 {
        Seq::empty()
    } else {
        show_arms(s.drop_last()) + ", branch("@ + s.last().0 + ", "@ + show_term(s.last().1) + ")"@
    }
}

/// The source form of a value term.
pub open spec fn show_vterm(t: VTermV) -> Seq<char>
    decreases t,
{
    match t {
        VTermV::Lit(v) => show_value(v),
        VTermV::Var(n) => n,
        VTermV::Op(f, args) => f.spec_name() + "("@ + show_vterms(args) + ")"@,
    }
}

/// Value terms separated by `, `.
pub open spec fn show_vterms(s: Seq<VTermV>) -> Seq<char>
    decreases s,
{
    if s.len() == 0 {
        Seq::empty()
    } else if s.len() == 1 {
        show_vterm(s[0])
    } else {
        show_vterms(s.drop_last()) + ", "@ + show_vterm(s.last())
    }
}

/// The source form of an attestation schema.
pub open spec fn show_schema(s: Schema) -> Seq<char> {
    match s {
        Schema::PriceWithinBps { tolerance_bps } => "price_schema("@ + nat_text(tolerance_bps as nat)
            + ")"@,
    }
}

/// The source form of an obligation.
pub open spec fn show_obligation(o: ObligationV) -> Seq<char>
    decreases o,
{
    match o {
        ObligationV::Pk(v) => "pk("@ + show_vterm(v) + ")"@,
        ObligationV::PkH(v) => "pk_h("@ + show_vterm(v) + ")"@,
        ObligationV::PkAny(v) => "pk_any("@ + show_vterm(v) + ")"@,
        ObligationV::Multi(k, v) => "multi("@ + nat_text(k as nat) + ", "@ + show_vterm(v) + ")"@,
        ObligationV::Hashlock(v) => "hashlock("@ + show_vterm(v) + ")"@,
        ObligationV::Attest(v, s) => "attest("@ + show_vterm(v) + ", "@ + show_schema(s) + ")"@,
    }
}

/// The constants of a `with(...)`, each as `name = value, `.
pub open spec fn show_constants(c: Seq<(Seq<char>, ValueV)>) -> Seq<char>
    decreases c.len(),
{
    if c.len() == 0 {
        Seq::empty()
    } else {
        show_constants(c.drop_last()) + c.last().0 + " = "@ + show_value(c.last().1) + ", "@
    }
}

/// The canonical source form of a descriptor.
pub open spec fn show_descriptor(d: DescriptorV) -> Seq<char> {
    if d.constants.len() == 0 {
        show_term(d.body)
    } else {
        "with("@ + show_constants(d.constants) + "in "@ + show_term(d.body) + ")"@
    }
}

// ---------------------------------------------------------------------------------------------
// Writers
// ---------------------------------------------------------------------------------------------

/// Append a hash literal.
fn write_hash(out: &mut String, h: &HashValue)
    ensures
        final(out)@ == old(out)@ + show_hash(h@),
{
    match h {
        HashValue::Sha256(d) => {
            out.append("sha256");
            out.append("(0x");
            push_hex(out, d.as_slice());
        },
        HashValue::Hash256(d) => {
            out.append("hash256");
            out.append("(0x");
            push_hex(out, d.as_slice());
        },
        HashValue::Ripemd160(d) => {
            out.append("ripemd160");
            out.append("(0x");
            push_hex(out, d.as_slice());
        },
        HashValue::Hash160(d) => {
            out.append("hash160");
            out.append("(0x");
            push_hex(out, d.as_slice());
        },
    }
    out.append(")");
    assert(out@ =~= old(out)@ + show_hash(h@));
}

/// Append the indices of a path.
fn write_indices(out: &mut String, p: &Vec<usize>)
    ensures
        final(out)@ == old(out)@ + show_indices(p@),
{
    let ghost start = out@;
    let mut i: usize = 0;
    while i < p.len()
        invariant
            i <= p.len(),
            out@ == start + show_indices(p@.take(i as int)),
        decreases p.len() - i,
    {
        if i > 0 {
            out.append(", ");
        }
        push_nat(out, p[i] as u128);
        proof {
            assert(p@.take(i + 1).drop_last() =~= p@.take(i as int));
        }
        i = i + 1;
        assert(out@ =~= start + show_indices(p@.take(i as int)));
    }
    assert(p@.take(p.len() as int) =~= p@);
}

/// Append the source form of a value.
pub fn write_value(out: &mut String, v: &Value)
    ensures
        final(out)@ == old(out)@ + show_value(v@),
    decreases v,
{
    match v {
        Value::Int(n) => push_int(out, *n),
        Value::Key(k) => out.append(k.as_str()),
        Value::Hash(h) => write_hash(out, h),
        Value::Bytes(b) => {
            out.append("0x");
            push_hex(out, b.as_slice());
        },
        Value::Path(p) => {
            out.append("path(");
            write_indices(out, p);
            out.append(")");
        },
        Value::List(items) => {
            out.append("[");
            proof {
                lemma_values_view(items@);
            }
            write_values(out, items);
            out.append("]");
        },
        Value::Symbol(s) => out.append(s.0.as_str()),
        Value::Subtree(t) => write_term(out, t),
    }
    assert(out@ =~= old(out)@ + show_value(v@));
}

/// Append values separated by `, `.
fn write_values(out: &mut String, s: &Vec<Value>)
    ensures
        final(out)@ == old(out)@ + show_values(values_view(s@)),
    decreases s,
{
    let ghost start = out@;
    let ghost vs = values_view(s@);
    proof {
        lemma_values_view(s@);
    }
    let mut i: usize = 0;
    while i < s.len()
        invariant
            i <= s.len(),
            vs == values_view(s@),
            vs.len() == s@.len(),
            forall|j: int| 0 <= j < s@.len() ==> #[trigger] vs[j] == s@[j]@,
            out@ == start + show_values(vs.take(i as int)),
        decreases s.len() - i,
    {
        if i > 0 {
            out.append(", ");
        }
        write_value(out, &s[i]);
        proof {
            assert(vs.take(i + 1).drop_last() =~= vs.take(i as int));
        }
        i = i + 1;
        assert(out@ =~= start + show_values(vs.take(i as int)));
    }
    assert(vs.take(s.len() as int) =~= vs);
}

/// Append the source form of a term.
pub fn write_term(out: &mut String, t: &BTerm)
    ensures
        final(out)@ == old(out)@ + show_term(t@),
    decreases t,
{
    match t {
        BTerm::Const(b) => {
            if *b {
                out.append("true");
            } else {
                out.append("false");
            }
        },
        BTerm::And(bs) => {
            out.append("and(");
            write_terms(out, bs);
            out.append(")");
        },
        BTerm::Or(bs) => {
            out.append("or(");
            write_terms(out, bs);
            out.append(")");
        },
        BTerm::Thresh(k, bs) => {
            out.append("thresh(");
            push_count(out, *k);
            write_tail_terms(out, bs);
            out.append(")");
        },
        BTerm::Not(b) => {
            out.append("not(");
            write_term(out, b);
            out.append(")");
        },
        BTerm::If(c, t1, e) => {
            out.append("if(");
            write_term(out, c);
            out.append(", ");
            write_term(out, t1);
            out.append(", ");
            write_term(out, e);
            out.append(")");
        },
        BTerm::Match { scrutinee, arms, default } => {
            out.append("match(");
            write_vterm(out, scrutinee);
            write_arms(out, arms);
            out.append(", branch(else, ");
            write_term(out, default);
            out.append("))");
        },
        BTerm::Cmp(o, a, b) => {
            let name: &str = match o {
                CmpOp::Eq => "eq",
                CmpOp::Lt => "lt",
                CmpOp::Le => "le",
                CmpOp::Gt => "gt",
                CmpOp::Ge => "ge",
            };
            out.append(name);
            out.append("(");
            write_vterm(out, a);
            out.append(", ");
            write_vterm(out, b);
            out.append(")");
        },
        BTerm::State(p, args) => {
            out.append(p.name());
            out.append("(");
            write_vterms(out, args);
            out.append(")");
        },
        BTerm::Prove(o) => write_obligation(out, o),
    }
    assert(out@ =~= old(out)@ + show_term(t@));
}

/// Append terms separated by `, `.
fn write_terms(out: &mut String, s: &Vec<BTerm>)
    ensures
        final(out)@ == old(out)@ + show_terms(terms_view(s@)),
    decreases s,
{
    let ghost start = out@;
    let ghost vs = terms_view(s@);
    proof {
        lemma_terms_view(s@);
    }
    let mut i: usize = 0;
    while i < s.len()
        invariant
            i <= s.len(),
            vs == terms_view(s@),
            vs.len() == s@.len(),
            forall|j: int| 0 <= j < s@.len() ==> #[trigger] vs[j] == s@[j]@,
            out@ == start + show_terms(vs.take(i as int)),
        decreases s.len() - i,
    {
        if i > 0 {
            out.append(", ");
        }
        write_term(out, &s[i]);
        proof {
            assert(vs.take(i + 1).drop_last() =~= vs.take(i as int));
        }
        i = i + 1;
        assert(out@ =~= start + show_terms(vs.take(i as int)));
    }
    assert(vs.take(s.len() as int) =~= vs);
}

/// Append terms, each preceded by `, `.
fn write_tail_terms(out: &mut String, s: &Vec<BTerm>)
    ensures
        final(out)@ == old(out)@ + show_tail_terms(terms_view(s@)),
    decreases s,
{
    let ghost start = out@;
    let ghost vs = terms_view(s@);
    proof {
        lemma_terms_view(s@);
    }
    let mut i: usize = 0;
    while i < s.len()
        invariant
            i <= s.len(),
            vs == terms_view(s@),
            vs.len() == s@.len(),
            forall|j: int| 0 <= j < s@.len() ==> #[trigger] vs[j] == s@[j]@,
            out@ == start + show_tail_terms(vs.take(i as int)),
        decreases s.len() - i,
    {
        out.append(", ");
        write_term(out, &s[i]);
        proof {
            assert(vs.take(i + 1).drop_last() =~= vs.take(i as int));
        }
        i = i + 1;
        assert(out@ =~= start + show_tail_terms(vs.take(i as int)));
    }
    assert(vs.take(s.len() as int) =~= vs);
}

/// Append `match` arms, each as `, branch(tag, body)`.
fn write_arms(out: &mut String, s: &Vec<(Symbol, BTerm)>)
    ensures
        final(out)@ == old(out)@ + show_arms(arms_view(s@)),
    decreases s,
{
    let ghost start = out@;
    let ghost vs = arms_view(s@);
    proof {
        lemma_arms_view(s@);
    }
    let mut i: usize = 0;
    while i < s.len()
        invariant
            i <= s.len(),
            vs == arms_view(s@),
            vs.len() == s@.len(),
            forall|j: int| 0 <= j < s@.len() ==> #[trigger] vs[j] == (s@[j].0@, s@[j].1@),
            out@ == start + show_arms(vs.take(i as int)),
        decreases s.len() - i,
    {
        out.append(", branch(");
        out.append(s[i].0.0.as_str());
        out.append(", ");
        write_term(out, &s[i].1);
        out.append(")");
        proof {
            assert(vs.take(i + 1).drop_last() =~= vs.take(i as int));
        }
        i = i + 1;
        assert(out@ =~= start + show_arms(vs.take(i as int)));
    }
    assert(vs.take(s.len() as int) =~= vs);
}

/// Append the source form of a value term.
pub fn write_vterm(out: &mut String, t: &VTerm)
    ensures
        final(out)@ == old(out)@ + show_vterm(t@),
    decreases t,
{
    match t {
        VTerm::Lit(v) => write_value(out, v),
        VTerm::Var(n) => out.append(n.as_str()),
        VTerm::Op(f, args) => {
            out.append(f.name());
            out.append("(");
            write_vterms(out, args);
            out.append(")");
        },
    }
    assert(out@ =~= old(out)@ + show_vterm(t@));
}

/// Append value terms separated by `, `.
fn write_vterms(out: &mut String, s: &Vec<VTerm>)
    ensures
        final(out)@ == old(out)@ + show_vterms(vterms_view(s@)),
    decreases s,
{
    let ghost start = out@;
    let ghost vs = vterms_view(s@);
    proof {
        lemma_vterms_view(s@);
    }
    let mut i: usize = 0;
    while i < s.len()
        invariant
            i <= s.len(),
            vs == vterms_view(s@),
            vs.len() == s@.len(),
            forall|j: int| 0 <= j < s@.len() ==> #[trigger] vs[j] == s@[j]@,
            out@ == start + show_vterms(vs.take(i as int)),
        decreases s.len() - i,
    {
        if i > 0 {
            out.append(", ");
        }
        write_vterm(out, &s[i]);
        proof {
            assert(vs.take(i + 1).drop_last() =~= vs.take(i as int));
        }
        i = i + 1;
        assert(out@ =~= start + show_vterms(vs.take(i as int)));
    }
    assert(vs.take(s.len() as int) =~= vs);
}

/// Append the source form of an obligation.
fn write_obligation(out: &mut String, o: &Obligation)
    ensures
        final(out)@ == old(out)@ + show_obligation(o@),
    decreases o,
{
    match o {
        Obligation::Pk(v) => {
            out.append("pk(");
            write_vterm(out, v);
        },
        Obligation::PkH(v) => {
            out.append("pk_h(");
            write_vterm(out, v);
        },
        Obligation::PkAny(v) => {
            out.append("pk_any(");
            write_vterm(out, v);
        },
        Obligation::Multi(k, v) => {
            out.append("multi(");
            push_nat(out, *k as u128);
            out.append(", ");
            write_vterm(out, v);
        },
        Obligation::Hashlock(v) => {
            out.append("hashlock(");
            write_vterm(out, v);
        },
        Obligation::Attest(v, s) => {
            out.append("attest(");
            write_vterm(out, v);
            out.append(", ");
            match s {
                Schema::PriceWithinBps { tolerance_bps } => {
                    out.append("price_schema(");
                    push_nat(out, *tolerance_bps as u128);
                    out.append(")");
                },
            }
        },
    }
    out.append(")");
    assert(out@ =~= old(out)@ + show_obligation(o@));
}

/// The canonical source form of a descriptor, which the parser reads back.
pub fn to_string(d: &Descriptor) -> (r: String)
    ensures
        r@ == show_descriptor(d@),
{
    let mut out = String::new();
    if d.constants.len() == 0 {
        write_term(&mut out, &d.body);
    } else {
        out.append("with(");
        let entries = d.constants.entries();
        proof {
            d.constants.lemma_view_entries();
        }
        let ghost start = out@;
        let mut i: usize = 0;
        while i < entries.len()
            invariant
                i <= entries.len(),
                entries@ == d.constants.entries_spec(),
                d.constants@.len() == entries@.len(),
                forall|j: int|
                    0 <= j < d.constants@.len() ==> #[trigger] d.constants@[j] == (
                        entries@[j].0@,
                        entries@[j].1@,
                    ),
                out@ == start + show_constants(d.constants@.take(i as int)),
            decreases entries.len() - i,
        {
            out.append(entries[i].0.as_str());
            out.append(" = ");
            write_value(&mut out, &entries[i].1);
            out.append(", ");
            proof {
                assert(d.constants@.take(i + 1).drop_last() =~= d.constants@.take(i as int));
            }
            i = i + 1;
            assert(out@ =~= start + show_constants(d.constants@.take(i as int)));
        }
        assert(d.constants@.take(entries.len() as int) =~= d.constants@);
        out.append("in ");
        write_term(&mut out, &d.body);
        out.append(")");
    }
    assert(out@ =~= show_descriptor(d@));
    out
}

} // verus!
