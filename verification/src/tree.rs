//! Structural inspection of terms: head constructors, boolean children, paths and depth.
use vstd::prelude::*;

use crate::ast::{BTerm, BTermV, Obligation, ObligationV, group_views, term_view};

verus! {

broadcast use group_views;

/// The head constructor name of an obligation.
pub open spec fn obligation_shape(o: ObligationV) -> Seq<char> {
    match o {
        ObligationV::Pk(_) => "pk"@,
        ObligationV::PkH(_) => "pk_h"@,
        ObligationV::PkAny(_) => "pk_any"@,
        ObligationV::Multi(_, _) => "multi"@,
        ObligationV::Hashlock(_) => "hashlock"@,
        ObligationV::Attest(_, _) => "attest"@,
    }
}

/// The head constructor of a term, as a symbol: the connective's name, the state predicate's or
/// obligation's name, `cmp`, or `true` / `false`.
pub open spec fn term_shape(t: BTermV) -> Seq<char> {
    match t {
        BTermV::Const(b) => if b {
            "true"@
        } else {
            "false"@
        },
        BTermV::And(_) => "and"@,
        BTermV::Or(_) => "or"@,
        BTermV::Thresh(_, _) => "thresh"@,
        BTermV::Not(_) => "not"@,
        BTermV::If(_, _, _) => "if"@,
        BTermV::Match(_, _, _) => "match"@,
        BTermV::Cmp(_, _, _) => "cmp"@,
        BTermV::State(p, _) => p.spec_name(),
        BTermV::Prove(o) => obligation_shape(o),
    }
}

/// The bodies of a list of `match` arms.
pub open spec fn arm_bodies(arms: Seq<(Seq<char>, BTermV)>) -> Seq<BTermV> {
    Seq::new(arms.len(), |i: int| arms[i].1)
}

/// The `B`-sorted children of a term, in path-index order. Value-sorted children are not
/// addressable by path.
pub open spec fn term_children(t: BTermV) -> Seq<BTermV> {
    match t {
        BTermV::And(bs) => bs,
        BTermV::Or(bs) => bs,
        BTermV::Thresh(_, bs) => bs,
        BTermV::Not(b) => seq![*b],
        BTermV::If(c, t1, e) => seq![*c, *t1, *e],
        BTermV::Match(_, arms, default) => arm_bodies(arms).push(*default),
        _ => Seq::empty(),
    }
}

/// The subterm at `path`, navigating by child index; the empty path addresses the term itself.
pub open spec fn subterm_at(t: BTermV, path: Seq<usize>) -> Option<BTermV>
    decreases path.len(),
{
    if path.len() == 0 {
        Some(t)
    } else if path[0] < term_children(t).len() {
        subterm_at(term_children(t)[path[0] as int], path.drop_first())
    } else {
        None
    }
}

/// The largest depth among a list of terms (0 for none).
pub open spec fn max_depth(s: Seq<BTermV>) -> nat
    decreases s,
{
    if s.len() == 0 {
        0
    } else {
        let a = max_depth(s.drop_last());
        let b = term_depth(s.last());
        if a >= b {
            a
        } else {
            b
        }
    }
}

/// The largest depth among the bodies of `match` arms (0 for none).
pub open spec fn max_arm_depth(s: Seq<(Seq<char>, BTermV)>) -> nat
    decreases s,
{
    if s.len() == 0 {
        0
    } else {
        let a = max_arm_depth(s.drop_last());
        let b = term_depth(s.last().1);
        if a >= b {
            a
        } else {
            b
        }
    }
}

/// The depth of a term's tree of boolean children; a leaf has depth 1.
pub open spec fn term_depth(t: BTermV) -> nat
    decreases t,
{
    match t {
        BTermV::And(bs) => 1 + max_depth(bs),
        BTermV::Or(bs) => 1 + max_depth(bs),
        BTermV::Thresh(_, bs) => 1 + max_depth(bs),
        BTermV::Not(b) => 1 + term_depth(*b),
        BTermV::If(c, t1, e) => {
            let a = term_depth(*c);
            let b = term_depth(*t1);
            let d = term_depth(*e);
            1 + if a >= b && a >= d {
                a
            } else if b >= d {
                b
            } else {
                d
            }
        },
        BTermV::Match(_, arms, default) => {
            let a = max_arm_depth(arms);
            let b = term_depth(*default);
            1 + if a >= b {
                a
            } else {
                b
            }
        },
        _ => 1,
    }
}

/// `max_depth` is the maximum over the list.
pub proof fn lemma_max_depth(s: Seq<BTermV>, n: nat)
    ensures
        (max_depth(s) <= n) == (forall|i: int| 0 <= i < s.len() ==> term_depth(#[trigger] s[i]) <= n),
    decreases s.len(),
{
    if s.len() > 0 {
        let d = s.drop_last();
        lemma_max_depth(d, n);
        assert(s.last() == s[s.len() - 1]);
        if forall|i: int| 0 <= i < s.len() ==> term_depth(#[trigger] s[i]) <= n {
            assert forall|i: int| 0 <= i < d.len() implies term_depth(#[trigger] d[i]) <= n by {
                assert(d[i] == s[i]);
            }
        }
        if max_depth(s) <= n {
            assert forall|i: int| 0 <= i < s.len() implies term_depth(#[trigger] s[i]) <= n by {
                if i < s.len() - 1 {
                    assert(d[i] == s[i]);
                }
            }
        }
    }
}

/// `max_arm_depth` is the maximum over the arm bodies.
pub proof fn lemma_max_arm_depth(s: Seq<(Seq<char>, BTermV)>, n: nat)
    ensures
        (max_arm_depth(s) <= n) == (forall|i: int| 0 <= i < s.len() ==> term_depth((#[trigger] s[i]).1) <= n),
    decreases s.len(),
{
    if s.len() > 0 {
        let d = s.drop_last();
        lemma_max_arm_depth(d, n);
        assert(s.last() == s[s.len() - 1]);
        if forall|i: int| 0 <= i < s.len() ==> term_depth((#[trigger] s[i]).1) <= n {
            assert forall|i: int| 0 <= i < d.len() implies term_depth((#[trigger] d[i]).1) <= n by {
                assert(d[i] == s[i]);
            }
        }
        if max_arm_depth(s) <= n {
            assert forall|i: int| 0 <= i < s.len() implies term_depth((#[trigger] s[i]).1) <= n by {
                if i < s.len() - 1 {
                    assert(d[i] == s[i]);
                }
            }
        }
    }
}

/// A term's depth is at most `n` exactly when `n` is positive and every child's depth is at most
/// `n - 1`.
pub proof fn lemma_depth_children(t: BTermV, n: nat)
    ensures
        (term_depth(t) <= n) == (n >= 1 && forall|i: int|
            0 <= i < term_children(t).len() ==> term_depth(#[trigger] term_children(t)[i]) <= n - 1),
{
    match t {
        BTermV::And(bs) => {
            if n >= 1 {
                lemma_max_depth(bs, (n - 1) as nat);
            }
        },
        BTermV::Or(bs) => {
            if n >= 1 {
                lemma_max_depth(bs, (n - 1) as nat);
            }
        },
        BTermV::Thresh(_, bs) => {
            if n >= 1 {
                lemma_max_depth(bs, (n - 1) as nat);
            }
        },
        BTermV::Not(b) => {
            assert(term_children(t)[0] == *b);
        },
        BTermV::If(c, t1, e) => {
            assert(term_children(t)[0] == *c);
            assert(term_children(t)[1] == *t1);
            assert(term_children(t)[2] == *e);
        },
        BTermV::Match(_, arms, default) => {
            let ch = term_children(t);
            assert(ch[arms.len() as int] == *default);
            if n >= 1 {
                lemma_max_arm_depth(arms, (n - 1) as nat);
                assert forall|i: int| 0 <= i < arms.len() implies #[trigger] ch[i] == arms[i].1 by {}
                if forall|i: int| 0 <= i < ch.len() ==> term_depth(#[trigger] ch[i]) <= n - 1 {
                    assert forall|i: int| 0 <= i < arms.len() implies term_depth((#[trigger] arms[i]).1) <= n - 1 by {
                        assert(ch[i] == arms[i].1);
                    }
                }
            }
        },
        _ => {},
    }
}

impl Obligation {
    /// The head constructor name of this obligation.
    pub fn shape(&self) -> (r: &'static str)
        ensures
            r@ == obligation_shape(self@),
    {
        match self {
            Obligation::Pk(_) => "pk",
            Obligation::PkH(_) => "pk_h",
            Obligation::PkAny(_) => "pk_any",
            Obligation::Multi(_, _) => "multi",
            Obligation::Hashlock(_) => "hashlock",
            Obligation::Attest(_, _) => "attest",
        }
    }
}

impl BTerm {
    /// The head constructor of this term, as a symbol (`and`, `or`, `pk`, ...).
    pub fn shape(&self) -> (r: &'static str)
        ensures
            r@ == term_shape(self@),
    {
        match self {
            BTerm::Const(b) => if *b {
                "true"
            } else {
                "false"
            },
            BTerm::And(_) => "and",
            BTerm::Or(_) => "or",
            BTerm::Thresh(_, _) => "thresh",
            BTerm::Not(_) => "not",
            BTerm::If(_, _, _) => "if",
            BTerm::Match { .. } => "match",
            BTerm::Cmp(_, _, _) => "cmp",
            BTerm::State(p, _) => p.name(),
            BTerm::Prove(o) => o.shape(),
        }
    }

    /// The `B`-sorted children of this term, in path-index order.
    pub fn children(&self) -> (r: Vec<&BTerm>)
        ensures
            r@.len() == term_children(self@).len(),
            forall|i: int| 0 <= i < r@.len() ==> r@[i]@ == #[trigger] term_children(self@)[i],
    {
        let mut out: Vec<&BTerm> = Vec::new();
        match self {
            BTerm::And(bs) | BTerm::Or(bs) | BTerm::Thresh(_, bs) => {
                let mut i: usize = 0;
                while i < bs.len()
                    invariant
                        i <= bs@.len(),
                        out@.len() == i,
                        forall|j: int| 0 <= j < i ==> #[trigger] out@[j]@ == term_view(bs@[j]),
                    decreases bs@.len() - i,
                {
                    out.push(&bs[i]);
                    i = i + 1;
                }
                assert(term_children(self@) == crate::ast::terms_view(bs@));
            },
            BTerm::Not(b) => {
                out.push(&**b);
            },
            BTerm::If(c, t1, e) => {
                out.push(&**c);
                out.push(&**t1);
                out.push(&**e);
            },
            BTerm::Match { arms, default, .. } => {
                let mut i: usize = 0;
                while i < arms.len()
                    invariant
                        i <= arms@.len(),
                        out@.len() == i,
                        forall|j: int| 0 <= j < i ==> #[trigger] out@[j]@ == term_view(arms@[j].1),
                    decreases arms@.len() - i,
                {
                    out.push(&arms[i].1);
                    i = i + 1;
                }
                out.push(&**default);
                proof {
                    let ch = term_children(self@);
                    assert(crate::ast::arms_view(arms@).len() == arms@.len());
                    assert(ch.len() == arms@.len() + 1);
                    assert forall|j: int| 0 <= j < arms@.len() implies #[trigger] ch[j] == term_view(arms@[j].1) by {
                        assert(crate::ast::arms_view(arms@)[j] == (arms@[j].0@, term_view(arms@[j].1)));
                    }
                }
            },
            _ => {},
        }
        out
    }

    /// The subterm at `path`, navigating by child index; `[]` is this term.
    pub fn subterm_at(&self, path: &[usize]) -> (r: Option<&BTerm>)
        ensures
            match subterm_at(self@, path@) {
                Some(s) => r matches Some(x) && x@ == s,
                None => r is None,
            },
    {
        let mut cur: &BTerm = self;
        let mut i: usize = 0;
        assert(path@.skip(0) =~= path@);
        while i < path.len()
            invariant
                i <= path@.len(),
                subterm_at(self@, path@) == subterm_at(cur@, path@.skip(i as int)),
            decreases path@.len() - i,
        {
            assert(path@.skip(i as int).drop_first() =~= path@.skip(i + 1));
            let ch = cur.children();
            if path[i] >= ch.len() {
                return None;
            }
            cur = ch[path[i]];
            i = i + 1;
        }
        Some(cur)
    }

    /// The depth of this term (a leaf has depth 1), saturating at `usize::MAX`.
    pub fn depth(&self) -> (r: usize)
        ensures
            r == cap(term_depth(self@)),
        decreases self,
    {
        match self {
            BTerm::And(bs) | BTerm::Or(bs) | BTerm::Thresh(_, bs) => succ(max_list_depth(bs)),
            BTerm::Not(b) => succ(b.depth()),
            BTerm::If(c, t1, e) => {
                let a = c.depth();
                let b = t1.depth();
                let d = e.depth();
                succ(if a >= b && a >= d {
                    a
                } else if b >= d {
                    b
                } else {
                    d
                })
            },
            BTerm::Match { arms, default, .. } => {
                let a = max_arm_list_depth(arms);
                let b = default.depth();
                succ(if a >= b {
                    a
                } else {
                    b
                })
            },
            _ => 1,
        }
    }

    /// Whether this term's depth is at most `limit`. Descends at most `limit` levels, so it is safe
    /// on terms whose depth is not yet bounded.
    pub fn has_depth_at_most(&self, limit: usize) -> (r: bool)
        ensures
            r == (term_depth(self@) <= limit),
        decreases self,
    {
        proof {
            lemma_depth_children(self@, limit as nat);
        }
        if limit == 0 {
            return false;
        }
        match self {
            BTerm::And(bs) | BTerm::Or(bs) | BTerm::Thresh(_, bs) => {
                let r = all_depth_at_most(bs, limit - 1);
                proof {
                    let ch = term_children(self@);
                    assert(ch == crate::ast::terms_view(bs@));
                    assert forall|j: int| 0 <= j < ch.len() implies #[trigger] ch[j] == term_view(bs@[j]) by {}
                    if !r {
                        let j = choose|j: int| 0 <= j < bs@.len() && !(term_depth(term_view(#[trigger] bs@[j])) <= limit - 1);
                        assert(ch[j] == term_view(bs@[j]));
                    }
                }
                r
            },
            BTerm::Not(b) => {
                assert(term_children(self@)[0] == b@);
                b.has_depth_at_most(limit - 1)
            },
            BTerm::If(c, t1, e) => {
                assert(term_children(self@)[0] == c@);
                assert(term_children(self@)[1] == t1@);
                assert(term_children(self@)[2] == e@);
                c.has_depth_at_most(limit - 1) && t1.has_depth_at_most(limit - 1)
                    && e.has_depth_at_most(limit - 1)
            },
            BTerm::Match { arms, default, .. } => {
                let ghost ch = term_children(self@);
                proof {
                    assert(crate::ast::arms_view(arms@).len() == arms@.len());
                    assert(ch.len() == arms@.len() + 1);
                    assert(ch[arms@.len() as int] == default@);
                    assert forall|j: int| 0 <= j < arms@.len() implies #[trigger] ch[j] == term_view(arms@[j].1) by {
                        assert(crate::ast::arms_view(arms@)[j] == (arms@[j].0@, term_view(arms@[j].1)));
                    }
                }
                let a = arms_depth_at_most(arms, limit - 1);
                let b = default.has_depth_at_most(limit - 1);
                proof {
                    if a && b {
                        assert forall|j: int| 0 <= j < ch.len() implies term_depth(#[trigger] ch[j]) <= limit - 1 by {
                            if j < arms@.len() {
                                assert(ch[j] == term_view(arms@[j].1));
                            }
                        }
                    }
                    if !a {
                        let j = choose|j: int| 0 <= j < arms@.len() && !(term_depth(term_view(#[trigger] arms@[j].1)) <= limit - 1);
                        assert(ch[j] == term_view(arms@[j].1));
                    }
                }
                a && b
            },
            _ => true,
        }
    }
}

fn all_depth_at_most(bs: &Vec<BTerm>, limit: usize) -> (r: bool)
    ensures
        r == forall|j: int| 0 <= j < bs@.len() ==> term_depth(term_view(#[trigger] bs@[j])) <= limit,
    decreases bs,
{
    let mut i: usize = 0;
    while i < bs.len()
        invariant
            i <= bs@.len(),
            forall|j: int| 0 <= j < i ==> term_depth(term_view(#[trigger] bs@[j])) <= limit,
        decreases bs@.len() - i,
    {
        if !bs[i].has_depth_at_most(limit) {
            return false;
        }
        i = i + 1;
    }
    true
}

fn arms_depth_at_most(arms: &Vec<(crate::registry::Symbol, BTerm)>, limit: usize) -> (r: bool)
    ensures
        r == forall|j: int| 0 <= j < arms@.len() ==> term_depth(term_view(#[trigger] arms@[j].1)) <= limit,
    decreases arms,
{
    let mut i: usize = 0;
    while i < arms.len()
        invariant
            i <= arms@.len(),
            forall|j: int| 0 <= j < i ==> term_depth(term_view(#[trigger] arms@[j].1)) <= limit,
        decreases arms@.len() - i,
    {
        if !arms[i].1.has_depth_at_most(limit) {
            return false;
        }
        i = i + 1;
    }
    true
}

/// A depth clamped into `usize`.
pub open spec fn cap(n: nat) -> usize {
    if n <= usize::MAX {
        n as usize
    } else {
        usize::MAX
    }
}

fn succ(n: usize) -> (r: usize)
    ensures
        r == if n == usize::MAX {
            usize::MAX
        } else {
            (n + 1) as usize
        },
{
    if n == usize::MAX {
        n
    } else {
        n + 1
    }
}

fn max_list_depth(bs: &Vec<BTerm>) -> (r: usize)
    ensures
        r == cap(max_depth(crate::ast::terms_view(bs@))),
    decreases bs,
{
    let mut best: usize = 0;
    let mut i: usize = 0;
    while i < bs.len()
        invariant
            i <= bs@.len(),
            best == cap(max_depth(crate::ast::terms_view(bs@.take(i as int)))),
        decreases bs@.len() - i,
    {
        let d = bs[i].depth();
        proof {
            let s0 = bs@.take(i as int);
            let s1 = bs@.take(i + 1);
            assert(s1.drop_last() =~= s0);
            assert(crate::ast::terms_view(s1) == crate::ast::terms_view(s0).push(term_view(bs@[i as int])));
            assert(crate::ast::terms_view(s1).drop_last() =~= crate::ast::terms_view(s0));
        }
        if d > best {
            best = d;
        }
        i = i + 1;
    }
    assert(bs@.take(bs@.len() as int) =~= bs@);
    best
}

fn max_arm_list_depth(arms: &Vec<(crate::registry::Symbol, BTerm)>) -> (r: usize)
    ensures
        r == cap(max_arm_depth(crate::ast::arms_view(arms@))),
    decreases arms,
{
    let mut best: usize = 0;
    let mut i: usize = 0;
    while i < arms.len()
        invariant
            i <= arms@.len(),
            best == cap(max_arm_depth(crate::ast::arms_view(arms@.take(i as int)))),
        decreases arms@.len() - i,
    {
        let d = arms[i].1.depth();
        proof {
            let s0 = arms@.take(i as int);
            let s1 = arms@.take(i + 1);
            assert(s1.drop_last() =~= s0);
            assert(crate::ast::arms_view(s1) == crate::ast::arms_view(s0).push((arms@[i as int].0@, term_view(arms@[i as int].1))));
            assert(crate::ast::arms_view(s1).drop_last() =~= crate::ast::arms_view(s0));
        }
        if d > best {
            best = d;
        }
        i = i + 1;
    }
    assert(arms@.take(arms@.len() as int) =~= arms@);
    best
}

} // verus!
