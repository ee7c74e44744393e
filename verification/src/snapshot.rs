//! The ledger state an operation is authorized against.
//!
//! [`LedgerState`] is the interface a host implements; [`Snapshot`] is the concrete, committable
//! state a fraud proof carries. Reads of absent rolling-window or cumulative-spend entries yield
//! zero, so a snapshot need only carry the referenced non-zero values.
use vstd::prelude::*;
use vstd::utf8::encode_utf8;

use crate::bytes::{
    be_bytes, be_encode, be_value, lemma_be_bytes_len, lemma_be_value_of_bytes,
    lemma_encode_utf8_injective, slice_to_vec, str_equal,
};
use crate::maps::{SortKey, SortedMap, lookup};

verus! {

/// A snapshot of a deposit's ledger state, as a host exposes it.
pub trait LedgerState {
    /// Blocks since the deposit's last authorized operation.
    fn blocks_since_activity(&self) -> i128;

    /// Blocks since the deposit was opened.
    fn blocks_since_open(&self) -> i128;

    /// Blocks since the deposit last received a payment.
    fn blocks_since_received(&self) -> i128;

    /// The deposit's current balance.
    fn balance(&self) -> i128;

    /// Cumulative value of `field` over the last `period` blocks.
    fn rolling_window(&self, field: &str, period: i128) -> i128;

    /// Lifetime spend authorized via the descriptor path `path`.
    fn cumulative_spent_via(&self, path: &[usize]) -> i128;

    /// The current block height.
    fn current_height(&self) -> i128;
}

/// The id of a registered rolling-window field: `amount_out`, `amount_in`, `transfer_count`.
pub open spec fn rw_field_id(field: Seq<char>) -> Option<u8> {
    if field == "amount_out"@ {
        Some(0)
    } else if field == "amount_in"@ {
        Some(1)
    } else if field == "transfer_count"@ {
        Some(2)
    } else {
        None
    }
}

/// The id of a registered rolling-window field.
pub fn rwfield_id(field: &str) -> (r: Option<u8>)
    ensures
        r == rw_field_id(field@),
{
    if str_equal(field, "amount_out") {
        Some(0)
    } else if str_equal(field, "amount_in") {
        Some(1)
    } else if str_equal(field, "transfer_count") {
        Some(2)
    } else {
        None
    }
}

/// The bytes a rolling-window key sorts by: registered fields first, by id and then period.
pub open spec fn rolling_sort_bytes(k: (Seq<char>, u32)) -> Seq<u8> {
    match rw_field_id(k.0) {
        Some(id) => seq![id] + be_bytes(k.1 as int, 4),
        None => seq![3u8] + encode_utf8(k.0) + be_bytes(k.1 as int, 4),
    }
}

proof fn lemma_be4(p: u32)
    ensures
        be_bytes(p as int, 4).len() == 4,
        be_value(be_bytes(p as int, 4)) == p,
{
    lemma_be_bytes_len(p as int, 4);
    assert(vstd::arithmetic::power::pow(256, 4) == 0x1_0000_0000) by {
        reveal_with_fuel(vstd::arithmetic::power::pow, 5);
    }
    lemma_be_value_of_bytes(p as int, 4);
}

impl SortKey for (String, u32) {
    open spec fn sort_bytes(k: (Seq<char>, u32)) -> Seq<u8> {
        rolling_sort_bytes(k)
    }

    proof fn lemma_sort_bytes_injective(a: (Seq<char>, u32), b: (Seq<char>, u32)) {
        lemma_be4(a.1);
        lemma_be4(b.1);
        let sa = rolling_sort_bytes(a);
        let sb = rolling_sort_bytes(b);
        assert(sa[0] == sb[0]);
        let ta = sa.skip(sa.len() - 4);
        let tb = sb.skip(sb.len() - 4);
        assert(ta =~= be_bytes(a.1 as int, 4));
        assert(tb =~= be_bytes(b.1 as int, 4));
        match (rw_field_id(a.0), rw_field_id(b.0)) {
            (None, None) => {
                assert(encode_utf8(a.0) =~= sa.subrange(1, sa.len() - 4));
                assert(encode_utf8(b.0) =~= sb.subrange(1, sb.len() - 4));
                lemma_encode_utf8_injective(a.0, b.0);
            },
            _ => {},
        }
    }

    fn sort_bytes_of(&self) -> (r: Vec<u8>) {
        let mut out: Vec<u8> = match rwfield_id(self.0.as_str()) {
            Some(id) => vec![id],
            None => {
                let mut v = vec![3u8];
                let b = self.0.as_str().as_bytes();
                let mut i: usize = 0;
                while i < b.len()
                    invariant
                        i <= b.len(),
                        v@ == seq![3u8] + b@.take(i as int),
                    decreases b.len() - i,
                {
                    v.push(b[i]);
                    i = i + 1;
                    assert(v@ =~= seq![3u8] + b@.take(i as int));
                }
                assert(b@.take(b.len() as int) =~= b@);
                v
            },
        };
        let tail = be_encode(self.1 as u128, 4);
        let ghost head = out@;
        let mut i: usize = 0;
        while i < tail.len()
            invariant
                i <= tail.len(),
                out@ == head + tail@.take(i as int),
            decreases tail.len() - i,
        {
            out.push(tail[i]);
            i = i + 1;
            assert(out@ =~= head + tail@.take(i as int));
        }
        assert(tail@.take(tail.len() as int) =~= tail@);
        out
    }
}

/// The bytes a path sorts by: each index as eight big-endian bytes.
pub open spec fn path_sort_bytes(p: Seq<usize>) -> Seq<u8>
    decreases p.len(),
{
    if p.len() == 0 {
        Seq::empty()
    } else {
        path_sort_bytes(p.drop_last()) + be_bytes(p.last() as int, 8)
    }
}

proof fn lemma_be8(x: usize)
    ensures
        be_bytes(x as int, 8).len() == 8,
        be_value(be_bytes(x as int, 8)) == x,
{
    lemma_be_bytes_len(x as int, 8);
    assert(vstd::arithmetic::power::pow(256, 8) == 0x1_0000_0000_0000_0000) by {
        reveal_with_fuel(vstd::arithmetic::power::pow, 9);
    }
    lemma_be_value_of_bytes(x as int, 8);
}

proof fn lemma_path_sort_bytes_len(p: Seq<usize>)
    ensures
        path_sort_bytes(p).len() == 8 * p.len(),
    decreases p.len(),
{
    if p.len() > 0 {
        lemma_path_sort_bytes_len(p.drop_last());
        lemma_be8(p.last());
    }
}

impl SortKey for Vec<usize> {
    open spec fn sort_bytes(k: Seq<usize>) -> Seq<u8> {
        path_sort_bytes(k)
    }

    proof fn lemma_sort_bytes_injective(a: Seq<usize>, b: Seq<usize>)
        decreases a.len(),
    {
        lemma_path_sort_bytes_len(a);
        lemma_path_sort_bytes_len(b);
        if a.len() > 0 {
            let sa = path_sort_bytes(a);
            lemma_path_sort_bytes_len(a.drop_last());
            lemma_path_sort_bytes_len(b.drop_last());
            lemma_be8(a.last());
            lemma_be8(b.last());
            let n = sa.len() - 8;
            assert(path_sort_bytes(a.drop_last()) =~= sa.take(n));
            assert(path_sort_bytes(b.drop_last()) =~= sa.take(n));
            assert(be_bytes(a.last() as int, 8) =~= sa.skip(n));
            assert(be_bytes(b.last() as int, 8) =~= sa.skip(n));
            Self::lemma_sort_bytes_injective(a.drop_last(), b.drop_last());
            assert(a =~= a.drop_last().push(a.last()));
            assert(b =~= b.drop_last().push(b.last()));
        } else {
            assert(a =~= b);
        }
    }

    fn sort_bytes_of(&self) -> (r: Vec<u8>) {
        let mut out: Vec<u8> = Vec::new();
        let mut i: usize = 0;
        while i < self.len()
            invariant
                i <= self@.len(),
                out@ == path_sort_bytes(self@.take(i as int)),
            decreases self@.len() - i,
        {
            let b = be_encode(self[i] as u128, 8);
            let ghost head = out@;
            let mut j: usize = 0;
            while j < b.len()
                invariant
                    j <= b.len(),
                    out@ == head + b@.take(j as int),
                decreases b.len() - j,
            {
                out.push(b[j]);
                j = j + 1;
                assert(out@ =~= head + b@.take(j as int));
            }
            assert(b@.take(b.len() as int) =~= b@);
            assert(self@.take(i + 1).drop_last() =~= self@.take(i as int));
            i = i + 1;
        }
        assert(self@.take(self@.len() as int) =~= self@);
        out
    }
}

/// A snapshot of a deposit's ledger state at the time of authorization.
#[derive(Debug, PartialEq, Eq)]
pub struct Snapshot {
    /// The deposit's current balance.
    pub balance: i128,
    /// Blocks since the deposit's last authorized operation.
    pub blocks_since_activity: u32,
    /// Blocks since the deposit was opened.
    pub blocks_since_open: u32,
    /// Blocks since the deposit last received a payment.
    pub blocks_since_received: u32,
    /// The current block height.
    pub height: u32,
    /// Rolling-window totals, keyed by `(field, period)`.
    pub rolling: SortedMap<(String, u32), i128>,
    /// Lifetime spend authorized via descriptor paths, keyed by path.
    pub cumulative_spent: SortedMap<Vec<usize>, i128>,
}

/// The view of a [`Snapshot`].
pub struct SnapshotV {
    pub balance: i128,
    pub blocks_since_activity: u32,
    pub blocks_since_open: u32,
    pub blocks_since_received: u32,
    pub height: u32,
    pub rolling: Seq<((Seq<char>, u32), i128)>,
    pub cumulative_spent: Seq<(Seq<usize>, i128)>,
}

impl View for Snapshot {
    type V = SnapshotV;

    open spec fn view(&self) -> SnapshotV {
        SnapshotV {
            balance: self.balance,
            blocks_since_activity: self.blocks_since_activity,
            blocks_since_open: self.blocks_since_open,
            blocks_since_received: self.blocks_since_received,
            height: self.height,
            rolling: self.rolling@,
            cumulative_spent: self.cumulative_spent@,
        }
    }
}

/// The rolling-window total a snapshot reports for `field` over `period` (zero if absent).
pub open spec fn rolling_total(s: SnapshotV, field: Seq<char>, period: i128) -> i128 {
    if 0 <= period <= u32::MAX {
        match lookup(s.rolling, (field, period as u32)) {
            Some(v) => v,
            None => 0,
        }
    } else {
        0
    }
}

/// The cumulative spend a snapshot reports for `path` (zero if absent).
pub open spec fn cumulative_total(s: SnapshotV, path: Seq<usize>) -> i128 {
    match lookup(s.cumulative_spent, path) {
        Some(v) => v,
        None => 0,
    }
}

impl Default for Snapshot {
    fn default() -> (r: Snapshot)
        ensures
            r@.balance == 0,
            r@.blocks_since_activity == 0,
            r@.blocks_since_open == 0,
            r@.blocks_since_received == 0,
            r@.height == 0,
            r@.rolling.len() == 0,
            r@.cumulative_spent.len() == 0,
    {
        Snapshot {
            balance: 0,
            blocks_since_activity: 0,
            blocks_since_open: 0,
            blocks_since_received: 0,
            height: 0,
            rolling: SortedMap::new(),
            cumulative_spent: SortedMap::new(),
        }
    }
}

impl Snapshot {
    /// The rolling-window total for `field` over `period`.
    pub fn rolling_total(&self, field: &str, period: i128) -> (r: i128)
        ensures
            r == rolling_total(self@, field@, period),
    {
        if period < 0 || period > u32::MAX as i128 {
            return 0;
        }
        let key = (field.to_owned(), period as u32);
        match self.rolling.find(&key) {
            Some(v) => *v,
            None => 0,
        }
    }

    /// The cumulative spend via `path`.
    pub fn cumulative_total(&self, path: &[usize]) -> (r: i128)
        ensures
            r == cumulative_total(self@, path@),
    {
        let mut key: Vec<usize> = Vec::new();
        let mut i: usize = 0;
        while i < path.len()
            invariant
                i <= path.len(),
                key@ == path@.take(i as int),
            decreases path.len() - i,
        {
            key.push(path[i]);
            i = i + 1;
            assert(key@ =~= path@.take(i as int));
        }
        assert(path@.take(path.len() as int) =~= path@);
        match self.cumulative_spent.find(&key) {
            Some(v) => *v,
            None => 0,
        }
    }
}

impl LedgerState for Snapshot {
    fn blocks_since_activity(&self) -> (r: i128)
        ensures
            r == self.blocks_since_activity,
    {
        self.blocks_since_activity as i128
    }

    fn blocks_since_open(&self) -> (r: i128)
        ensures
            r == self.blocks_since_open,
    {
        self.blocks_since_open as i128
    }

    fn blocks_since_received(&self) -> (r: i128)
        ensures
            r == self.blocks_since_received,
    {
        self.blocks_since_received as i128
    }

    fn balance(&self) -> (r: i128)
        ensures
            r == self.balance,
    {
        self.balance
    }

    fn rolling_window(&self, field: &str, period: i128) -> (r: i128)
        ensures
            r == rolling_total(self@, field@, period),
    {
        self.rolling_total(field, period)
    }

    fn cumulative_spent_via(&self, path: &[usize]) -> (r: i128)
        ensures
            r == cumulative_total(self@, path@),
    {
        self.cumulative_total(path)
    }

    fn current_height(&self) -> (r: i128)
        ensures
            r == self.height,
    {
        self.height as i128
    }
}

} // verus!
