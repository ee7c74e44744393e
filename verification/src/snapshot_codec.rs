//! The canonical byte encoding of a ledger snapshot, and the snapshot commitment.
//!
//! A snapshot encodes as its version, balance and block counters, then its rolling-window
//! entries of registered fields in `(field id, period)` order, then its cumulative-spend entries
//! in path order. Rolling-window entries of unregistered fields are left out: no value function
//! reads them and they have no canonical id.
use vstd::prelude::*;

use crate::bytes::{
    be_bytes, bytes_lt, lemma_be_bytes_len, lemma_be_bytes_lt, lemma_bytes_lt_concat,
    lemma_bytes_lt_single, lemma_bytes_lt_transitive,
};
use crate::decode::{
    DecodeError, DecodeErrorV, Read, dec_indices, read_count, read_int, read_u32, read_u8, rd_count, rd_end, rd_indices, rd_int, rd_u32, rd_u8, rd_version,
};
use crate::encode::{count_be, enc_indices, int_be, put_count, put_indices, put_int, put_slice, put_u32, u32_be};
use crate::hashes::{tagged_hash, tagged_hash_of};
use crate::maps::{SortKey, SortedMap, keys_sorted, lemma_keys_sorted_at};
use crate::snapshot::{Snapshot, SnapshotV, path_sort_bytes, rolling_sort_bytes, rw_field_id, rwfield_id};

verus! {

/// The registered rolling-window entries, as `(field id, period, amount)`, in key order.
pub open spec fn registered_rolling(r: Seq<((Seq<char>, u32), i128)>) -> Seq<(u8, u32, i128)>
    decreases r.len(),
{
    if r.len() == 0 {
        Seq::empty()
    } else {
        let rest = registered_rolling(r.drop_last());
        match rw_field_id(r.last().0.0) {
            Some(id) => rest.push((id, r.last().0.1, r.last().1)),
            None => rest,
        }
    }
}

/// Rolling-window entries: field id, period, amount.
pub open spec fn enc_rolling(e: Seq<(u8, u32, i128)>) -> Seq<u8>
    decreases e.len(),
{
    if e.len() == 0 {
        Seq::empty()
    } else {
        enc_rolling(e.drop_last()) + seq![e.last().0] + u32_be(e.last().1) + int_be(e.last().2)
    }
}

/// Cumulative-spend entries: path length, path indices, amount.
pub open spec fn enc_cumulative(e: Seq<(Seq<usize>, i128)>) -> Seq<u8>
    decreases e.len(),
{
    if e.len() == 0 {
        Seq::empty()
    } else {
        enc_cumulative(e.drop_last()) + count_be(e.last().0.len()) + enc_indices(e.last().0)
            + int_be(e.last().1)
    }
}

/// The canonical encoding of a snapshot.
pub open spec fn enc_snapshot(s: SnapshotV) -> Seq<u8> {
    let reg = registered_rolling(s.rolling);
    seq![1u8] + int_be(s.balance) + u32_be(s.blocks_since_activity) + u32_be(s.blocks_since_open)
        + u32_be(s.blocks_since_received) + u32_be(s.height) + count_be(reg.len()) + enc_rolling(reg)
        + count_be(s.cumulative_spent.len()) + enc_cumulative(s.cumulative_spent)
}

/// The canonical byte encoding of a ledger snapshot.
pub fn encode_snapshot(s: &Snapshot) -> (r: Vec<u8>)
    ensures
        r@ == enc_snapshot(s@),
{
    let mut out: Vec<u8> = vec![1u8];
    put_int(&mut out, s.balance);
    put_u32(&mut out, s.blocks_since_activity);
    put_u32(&mut out, s.blocks_since_open);
    put_u32(&mut out, s.blocks_since_received);
    put_u32(&mut out, s.height);
    let ghost head = out@;

    let entries = s.rolling.entries();
    proof {
        s.rolling.lemma_view_entries();
    }
    let mut body: Vec<u8> = Vec::new();
    let mut count: usize = 0;
    let mut i: usize = 0;
    while i < entries.len()
        invariant
            i <= entries.len(),
            entries@ == s.rolling.entries_spec(),
            s.rolling@.len() == entries@.len(),
            forall|j: int|
                0 <= j < s.rolling@.len() ==> #[trigger] s.rolling@[j] == (
                    entries@[j].0@,
                    entries@[j].1@,
                ),
            count as int == registered_rolling(s.rolling@.take(i as int)).len(),
            count <= i,
            body@ == enc_rolling(registered_rolling(s.rolling@.take(i as int))),
        decreases entries.len() - i,
    {
        let ghost before = s.rolling@.take(i as int);
        proof {
            assert(s.rolling@.take(i + 1).drop_last() =~= before);
            assert(s.rolling@.take(i + 1).last() == s.rolling@[i as int]);
        }
        let entry = &entries[i];
        match rwfield_id(entry.0.0.as_str()) {
            Some(id) => {
                body.push(id);
                put_u32(&mut body, entry.0.1);
                put_int(&mut body, entry.1);
                count = count + 1;
                proof {
                    let reg = registered_rolling(before);
                    assert(registered_rolling(s.rolling@.take(i + 1)) == reg.push(
                        (id, entry.0.1, entry.1),
                    ));
                    assert(reg.push((id, entry.0.1, entry.1)).drop_last() =~= reg);
                }
            },
            None => {},
        }
        i = i + 1;
        assert(body@ =~= enc_rolling(registered_rolling(s.rolling@.take(i as int))));
    }
    assert(s.rolling@.take(entries.len() as int) =~= s.rolling@);
    put_count(&mut out, count);
    put_slice(&mut out, body.as_slice());

    let cum = s.cumulative_spent.entries();
    proof {
        s.cumulative_spent.lemma_view_entries();
    }
    put_count(&mut out, cum.len());
    let ghost mid = out@;
    let mut k: usize = 0;
    while k < cum.len()
        invariant
            k <= cum.len(),
            cum@ == s.cumulative_spent.entries_spec(),
            s.cumulative_spent@.len() == cum@.len(),
            forall|j: int|
                0 <= j < s.cumulative_spent@.len() ==> #[trigger] s.cumulative_spent@[j] == (
                    cum@[j].0@,
                    cum@[j].1@,
                ),
            out@ == mid + enc_cumulative(s.cumulative_spent@.take(k as int)),
        decreases cum.len() - k,
    {
        put_count(&mut out, cum[k].0.len());
        put_indices(&mut out, cum[k].0.as_slice());
        put_int(&mut out, cum[k].1);
        proof {
            assert(s.cumulative_spent@.take(k + 1).drop_last() =~= s.cumulative_spent@.take(
                k as int,
            ));
        }
        k = k + 1;
        assert(out@ =~= mid + enc_cumulative(s.cumulative_spent@.take(k as int)));
    }
    assert(s.cumulative_spent@.take(cum.len() as int) =~= s.cumulative_spent@);
    assert(out@ =~= enc_snapshot(s@));
    out
}

/// The snapshot commitment: the tagged hash of its canonical encoding under `dep17/snapshot`.
pub fn snapshot_id(s: &Snapshot) -> (r: [u8; 32])
    ensures
        r@ == tagged_hash_of("dep17/snapshot"@, enc_snapshot(s@)),
{
    let bytes = encode_snapshot(s);
    tagged_hash("dep17/snapshot", bytes.as_slice())
}


// ---------------------------------------------------------------------------------------------
// Decoding
// ---------------------------------------------------------------------------------------------

/// The field a registered rolling-window id names.
pub open spec fn rw_field_name(id: u8) -> Option<Seq<char>> {
    if id == 0 {
        Some("amount_out"@)
    } else if id == 1 {
        Some("amount_in"@)
    } else if id == 2 {
        Some("transfer_count"@)
    } else {
        None
    }
}

/// The order of rolling-window keys `(field id, period)`.
pub open spec fn key_lt(a: (u8, u32), b: (u8, u32)) -> bool {
    a.0 < b.0 || (a.0 == b.0 && a.1 < b.1)
}

/// Lexicographic order on paths (the order `Vec<usize>` sorts by).
pub open spec fn path_lt(a: Seq<usize>, b: Seq<usize>) -> bool
    decreases a.len(),
{
    if a.len() == 0 {
        b.len() > 0
    } else if b.len() == 0 {
        false
    } else if a[0] != b[0] {
        a[0] < b[0]
    } else {
        path_lt(a.drop_first(), b.drop_first())
    }
}

/// `n` rolling-window entries with registered field ids, each key after the one before;
/// `prev` is the key read before them, if any.
pub open spec fn rd_rolling(s: Seq<u8>, p: int, n: nat, prev: Option<(u8, u32)>) -> Read<
    Seq<((Seq<char>, u32), i128)>,
>
    decreases n,
{
    if n == 0 {
        Ok((Seq::empty(), p))
    } else {
        match rd_u8(s, p) {
            Err(e) => Err(e),
            Ok((id, p1)) => match rd_u32(s, p1) {
                Err(e) => Err(e),
                Ok((period, p2)) => match rd_int(s, p2) {
                    Err(e) => Err(e),
                    Ok((amount, p3)) => if prev matches Some(k) && !key_lt(k, (id, period)) {
                        Err(DecodeErrorV::NonCanonicalOrder)
                    } else {
                        match rw_field_name(id) {
                            None => Err(DecodeErrorV::UnknownTag("rwfield"@, id as u32)),
                            Some(name) => match rd_rolling(s, p3, (n - 1) as nat, Some((id, period))) {
                                Err(e) => Err(e),
                                Ok((rest, q)) => Ok((seq![((name, period), amount)] + rest, q)),
                            },
                        }
                    },
                },
            },
        }
    }
}

/// `n` cumulative-spend entries, each path after the one before; `prev` is the path read
/// before them, if any.
pub open spec fn rd_cumulative(s: Seq<u8>, p: int, n: nat, prev: Option<Seq<usize>>) -> Read<
    Seq<(Seq<usize>, i128)>,
>
    decreases n,
{
    if n == 0 {
        Ok((Seq::empty(), p))
    } else {
        match rd_count(s, p) {
            Err(e) => Err(e),
            Ok((len, p1)) => match rd_indices(s, p1, len) {
                Err(e) => Err(e),
                Ok((path, p2)) => match rd_int(s, p2) {
                    Err(e) => Err(e),
                    Ok((amount, p3)) => if prev matches Some(pp) && !path_lt(pp, path) {
                        Err(DecodeErrorV::NonCanonicalOrder)
                    } else {
                        match rd_cumulative(s, p3, (n - 1) as nat, Some(path)) {
                            Err(e) => Err(e),
                            Ok((rest, q)) => Ok((seq![(path, amount)] + rest, q)),
                        }
                    },
                },
            },
        }
    }
}

/// The snapshot a byte string encodes.
pub open spec fn rd_snapshot(s: Seq<u8>) -> Result<SnapshotV, DecodeErrorV> {
    match rd_version(s) {
        Err(e) => Err(e),
        Ok((_, p)) => match rd_int(s, p) {
            Err(e) => Err(e),
            Ok((balance, p1)) => match rd_u32(s, p1) {
                Err(e) => Err(e),
                Ok((blocks_since_activity, p2)) => match rd_u32(s, p2) {
                    Err(e) => Err(e),
                    Ok((blocks_since_open, p3)) => match rd_u32(s, p3) {
                        Err(e) => Err(e),
                        Ok((blocks_since_received, p4)) => match rd_u32(s, p4) {
                            Err(e) => Err(e),
                            Ok((height, p5)) => match rd_count(s, p5) {
                                Err(e) => Err(e),
                                Ok((n, p6)) => match rd_rolling(s, p6, n, None) {
                                    Err(e) => Err(e),
                                    Ok((rolling, p7)) => match rd_count(s, p7) {
                                        Err(e) => Err(e),
                                        Ok((m, p8)) => match rd_cumulative(s, p8, m, None) {
                                            Err(e) => Err(e),
                                            Ok((cumulative_spent, p9)) => match rd_end(s, p9) {
                                                Err(e) => Err(e),
                                                Ok(()) => Ok(
                                                    SnapshotV {
                                                        balance,
                                                        blocks_since_activity,
                                                        blocks_since_open,
                                                        blocks_since_received,
                                                        height,
                                                        rolling,
                                                        cumulative_spent,
                                                    },
                                                ),
                                            },
                                        },
                                    },
                                },
                            },
                        },
                    },
                },
            },
        },
    }
}

/// The registered field names and ids correspond.
pub proof fn lemma_rw_field_name(id: u8)
    ensures
        rw_field_name(id) matches Some(name) ==> rw_field_id(name) == Some(id),
{
    reveal_strlit("amount_out");
    reveal_strlit("amount_in");
    reveal_strlit("transfer_count");
    assert("amount_out"@.len() == 10);
    assert("amount_in"@.len() == 9);
    assert("transfer_count"@.len() == 14);
}

/// The key order is the byte order of the keys' sort bytes.
pub proof fn lemma_key_bytes(a: (u8, u32), b: (u8, u32))
    ensures
        key_lt(a, b) == bytes_lt(
            seq![a.0] + be_bytes(a.1 as int, 4),
            seq![b.0] + be_bytes(b.1 as int, 4),
        ),
{
    assert(vstd::arithmetic::power::pow(256, 4) == 0x1_0000_0000) by {
        reveal_with_fuel(vstd::arithmetic::power::pow, 5);
    }
    lemma_bytes_lt_concat(seq![a.0], seq![b.0], be_bytes(a.1 as int, 4), be_bytes(b.1 as int, 4));
    lemma_bytes_lt_single(a.0, b.0);
    lemma_be_bytes_lt(a.1 as int, b.1 as int, 4);
    if seq![a.0] == seq![b.0] {
        assert(seq![a.0][0] == seq![b.0][0]);
    }
}

/// A path's sort bytes start with its first index.
proof fn lemma_path_sort_bytes_front(a: Seq<usize>)
    requires
        a.len() > 0,
    ensures
        path_sort_bytes(a) == be_bytes(a[0] as int, 8) + path_sort_bytes(a.drop_first()),
    decreases a.len(),
{
    if a.len() == 1 {
        assert(a.drop_last() =~= Seq::<usize>::empty());
        assert(a.drop_first() =~= Seq::<usize>::empty());
        assert(path_sort_bytes(a) =~= be_bytes(a[0] as int, 8) + path_sort_bytes(a.drop_first()));
    } else {
        lemma_path_sort_bytes_front(a.drop_last());
        assert(a.drop_last().drop_first() =~= a.drop_first().drop_last());
        assert(path_sort_bytes(a) =~= be_bytes(a[0] as int, 8) + path_sort_bytes(a.drop_first()));
    }
}

/// The path order is the byte order of the paths' sort bytes.
pub proof fn lemma_path_bytes(a: Seq<usize>, b: Seq<usize>)
    ensures
        path_lt(a, b) == bytes_lt(path_sort_bytes(a), path_sort_bytes(b)),
    decreases a.len(),
{
    if a.len() > 0 && b.len() > 0 {
        lemma_path_sort_bytes_front(a);
        lemma_path_sort_bytes_front(b);
        assert(vstd::arithmetic::power::pow(256, 8) == 0x1_0000_0000_0000_0000) by {
            reveal_with_fuel(vstd::arithmetic::power::pow, 9);
        }
        lemma_be_bytes_len(a[0] as int, 8);
        lemma_be_bytes_len(b[0] as int, 8);
        lemma_bytes_lt_concat(
            be_bytes(a[0] as int, 8),
            be_bytes(b[0] as int, 8),
            path_sort_bytes(a.drop_first()),
            path_sort_bytes(b.drop_first()),
        );
        lemma_be_bytes_lt(a[0] as int, b[0] as int, 8);
        lemma_path_bytes(a.drop_first(), b.drop_first());
        if be_bytes(a[0] as int, 8) == be_bytes(b[0] as int, 8) {
            crate::bytes::lemma_be_value_of_bytes(a[0] as int, 8);
            crate::bytes::lemma_be_value_of_bytes(b[0] as int, 8);
        }
    } else if a.len() > 0 {
        lemma_path_sort_bytes_front(a);
        lemma_be_bytes_len(a[0] as int, 8);
    } else if b.len() > 0 {
        lemma_path_sort_bytes_front(b);
        lemma_be_bytes_len(b[0] as int, 8);
    }
}

/// A sorted rolling-window map orders its keys by [`rolling_sort_bytes`].
pub proof fn lemma_rolling_sorted(r: Seq<((Seq<char>, u32), i128)>)
    requires
        keys_sorted::<(String, u32), i128>(r),
    ensures
        forall|i: int, j: int|
            0 <= i < j < r.len() ==> bytes_lt(
                #[trigger] rolling_sort_bytes(r[i].0),
                #[trigger] rolling_sort_bytes(r[j].0),
            ),
{
    assert forall|i: int, j: int| 0 <= i < j < r.len() implies bytes_lt(
        #[trigger] rolling_sort_bytes(r[i].0),
        #[trigger] rolling_sort_bytes(r[j].0),
    ) by {
        lemma_keys_sorted_at::<(String, u32), i128>(r, i, j);
    }
}

/// A sorted cumulative-spend map orders its paths by [`path_sort_bytes`].
pub proof fn lemma_paths_sorted(c: Seq<(Seq<usize>, i128)>)
    requires
        keys_sorted::<Vec<usize>, i128>(c),
    ensures
        forall|i: int, j: int|
            0 <= i < j < c.len() ==> bytes_lt(
                #[trigger] path_sort_bytes(c[i].0),
                #[trigger] path_sort_bytes(c[j].0),
            ),
{
    assert forall|i: int, j: int| 0 <= i < j < c.len() implies bytes_lt(
        #[trigger] path_sort_bytes(c[i].0),
        #[trigger] path_sort_bytes(c[j].0),
    ) by {
        lemma_keys_sorted_at::<Vec<usize>, i128>(c, i, j);
    }
}

/// Whether path `a` sorts strictly before path `b`.
pub fn path_less(a: &[usize], b: &[usize]) -> (r: bool)
    ensures
        r == path_lt(a@, b@),
{
    let mut i: usize = 0;
    assert(a@.skip(0) =~= a@);
    assert(b@.skip(0) =~= b@);
    while i < a.len() && i < b.len()
        invariant
            i <= a.len(),
            i <= b.len(),
            path_lt(a@, b@) == path_lt(a@.skip(i as int), b@.skip(i as int)),
        decreases a.len() - i,
    {
        if a[i] != b[i] {
            return a[i] < b[i];
        }
        assert(a@.skip(i as int).drop_first() =~= a@.skip(i + 1));
        assert(b@.skip(i as int).drop_first() =~= b@.skip(i + 1));
        i = i + 1;
    }
    i < b.len()
}

/// The name of a registered rolling-window field id.
fn rwfield_name(id: u8) -> (r: Option<String>)
    ensures
        match rw_field_name(id) {
            Some(n) => r matches Some(x) && x@ == n,
            None => r is None,
        },
{
    if id == 0 {
        Some("amount_out".to_owned())
    } else if id == 1 {
        Some("amount_in".to_owned())
    } else if id == 2 {
        Some("transfer_count".to_owned())
    } else {
        None
    }
}

/// `n` rolling-window entries, in strictly increasing key order.
fn dec_rolling(buf: &[u8], pos: usize, n: usize) -> (r: Result<
    (SortedMap<(String, u32), i128>, usize),
    DecodeError,
>)
    ensures
        match r {
            Ok((m, q)) => rd_rolling(buf@, pos as int, n as nat, None) == Ok::<
                (Seq<((Seq<char>, u32), i128)>, int),
                DecodeErrorV,
            >((m@, q as int)),
            Err(e) => rd_rolling(buf@, pos as int, n as nat, None) == Err::<
                (Seq<((Seq<char>, u32), i128)>, int),
                DecodeErrorV,
            >(e@),
        },
{
    let ghost s = buf@;
    let mut out: SortedMap<(String, u32), i128> = SortedMap::new();
    let mut prev: Option<(u8, u32)> = None;
    let mut p: usize = pos;
    let mut i: usize = 0;
    assert(out@ + Seq::<((Seq<char>, u32), i128)>::empty() =~= Seq::<((Seq<char>, u32), i128)>::empty());
    while i < n
        invariant
            i <= n,
            s == buf@,
            out@.len() == i,
            i == 0 <==> prev is None,
            prev matches Some(k) ==> rolling_sort_bytes(out@.last().0) == seq![k.0] + be_bytes(
                k.1 as int,
                4,
            ),
            keys_sorted::<(String, u32), i128>(out@),
            rd_rolling(s, pos as int, n as nat, None) == match rd_rolling(
                s,
                p as int,
                (n - i) as nat,
                prev,
            ) {
                Ok((rest, q)) => Ok((out@ + rest, q)),
                Err(e) => Err(e),
            },
        decreases n - i,
    {
        let (id, p1) = match read_u8(buf, p) {
            Err(e) => return Err(e),
            Ok(x) => x,
        };
        let (period, p2) = match read_u32(buf, p1) {
            Err(e) => return Err(e),
            Ok(x) => x,
        };
        let (amount, p3) = match read_int(buf, p2) {
            Err(e) => return Err(e),
            Ok(x) => x,
        };
        match prev {
            Some(k) => {
                if !(k.0 < id || (k.0 == id && k.1 < period)) {
                    return Err(DecodeError::NonCanonicalOrder);
                }
            },
            None => {},
        }
        let name = match rwfield_name(id) {
            None => return Err(DecodeError::UnknownTag("rwfield", id as u32)),
            Some(x) => x,
        };
        let ghost key = (name@, period);
        let ghost kb = seq![id] + be_bytes(period as int, 4);
        let ghost xv = (key, amount);
        let ghost before = out@;
        proof {
            lemma_rw_field_name(id);
            assert(rolling_sort_bytes(key) == kb);
            assert forall|j: int| 0 <= j < before.len() implies bytes_lt(
                #[trigger] <(String, u32) as SortKey>::sort_bytes(before[j].0),
                kb,
            ) by {
                let k = prev->Some_0;
                lemma_key_bytes(k, (id, period));
                let last = before.len() - 1;
                if j < last {
                    assert(bytes_lt(<(String, u32) as SortKey>::sort_bytes(before[j].0), <(String, u32) as SortKey>::sort_bytes(before[last].0)));
                    lemma_bytes_lt_transitive(
                        <(String, u32) as SortKey>::sort_bytes(before[j].0),
                        <(String, u32) as SortKey>::sort_bytes(before[last].0),
                        kb,
                    );
                }
            }
            assert(rd_rolling(s, p as int, (n - i) as nat, prev) == match rd_rolling(
                s,
                p3 as int,
                (n - i - 1) as nat,
                Some((id, period)),
            ) {
                Ok((rest, q)) => Ok((seq![xv] + rest, q)),
                Err(e) => Err(e),
            });
        }
        out.push_last((name, period), amount);
        proof {
            assert forall|a: int, b: int| 0 <= a < b < out@.len() implies bytes_lt(
                #[trigger] <(String, u32) as SortKey>::sort_bytes(out@[a].0),
                #[trigger] <(String, u32) as SortKey>::sort_bytes(out@[b].0),
            ) by {
                if b < out@.len() - 1 {
                    assert(out@[a] == before[a]);
                    assert(out@[b] == before[b]);
                }
            }
            assert forall|rest: Seq<((Seq<char>, u32), i128)>| #![auto]
                before + (seq![xv] + rest) == out@ + rest by {
                assert(before + (seq![xv] + rest) =~= out@ + rest);
            }
        }
        prev = Some((id, period));
        p = p3;
        i = i + 1;
    }
    assert(out@ + Seq::<((Seq<char>, u32), i128)>::empty() =~= out@);
    Ok((out, p))
}

/// `n` cumulative-spend entries, in strictly increasing path order.
fn dec_cumulative(buf: &[u8], pos: usize, n: usize) -> (r: Result<
    (SortedMap<Vec<usize>, i128>, usize),
    DecodeError,
>)
    ensures
        match r {
            Ok((m, q)) => rd_cumulative(buf@, pos as int, n as nat, None) == Ok::<
                (Seq<(Seq<usize>, i128)>, int),
                DecodeErrorV,
            >((m@, q as int)),
            Err(e) => rd_cumulative(buf@, pos as int, n as nat, None) == Err::<
                (Seq<(Seq<usize>, i128)>, int),
                DecodeErrorV,
            >(e@),
        },
{
    let ghost s = buf@;
    let mut out: SortedMap<Vec<usize>, i128> = SortedMap::new();
    let mut prev: Option<Vec<usize>> = None;
    let mut p: usize = pos;
    let mut i: usize = 0;
    assert(out@ + Seq::<(Seq<usize>, i128)>::empty() =~= Seq::<(Seq<usize>, i128)>::empty());
    while i < n
        invariant
            i <= n,
            s == buf@,
            out@.len() == i,
            i == 0 <==> prev is None,
            prev matches Some(pp) ==> pp@ == out@.last().0,
            keys_sorted::<Vec<usize>, i128>(out@),
            rd_cumulative(s, pos as int, n as nat, None) == match rd_cumulative(
                s,
                p as int,
                (n - i) as nat,
                match &prev {
                    Some(pp) => Some(pp@),
                    None => None,
                },
            ) {
                Ok((rest, q)) => Ok((out@ + rest, q)),
                Err(e) => Err(e),
            },
        decreases n - i,
    {
        let ghost prev_spec = match &prev {
            Some(pp) => Some(pp@),
            None => None::<Seq<usize>>,
        };
        let (len, p1) = match read_count(buf, p) {
            Err(e) => return Err(e),
            Ok(x) => x,
        };
        let (path, p2) = match dec_indices(buf, p1, len) {
            Err(e) => {
                assert(rd_cumulative(s, p as int, (n - i) as nat, prev_spec) == Err::<
                    (Seq<(Seq<usize>, i128)>, int),
                    DecodeErrorV,
                >(e@));
                return Err(e);
            },
            Ok(x) => x,
        };
        let (amount, p3) = match read_int(buf, p2) {
            Err(e) => {
                assert(rd_cumulative(s, p as int, (n - i) as nat, prev_spec) == Err::<
                    (Seq<(Seq<usize>, i128)>, int),
                    DecodeErrorV,
                >(e@));
                return Err(e);
            },
            Ok(x) => x,
        };
        match &prev {
            Some(pp) => {
                if !path_less(pp.as_slice(), path.as_slice()) {
                    return Err(DecodeError::NonCanonicalOrder);
                }
            },
            None => {},
        }
        let ghost xv = (path@, amount);
        let ghost before = out@;
        proof {
            assert forall|j: int| 0 <= j < before.len() implies bytes_lt(
                #[trigger] <Vec<usize> as SortKey>::sort_bytes(before[j].0),
                path_sort_bytes(path@),
            ) by {
                let last = before.len() - 1;
                lemma_path_bytes(before[last].0, path@);
                if j < last {
                    assert(bytes_lt(<Vec<usize> as SortKey>::sort_bytes(before[j].0), <Vec<usize> as SortKey>::sort_bytes(before[last].0)));
                    lemma_bytes_lt_transitive(
                        <Vec<usize> as SortKey>::sort_bytes(before[j].0),
                        <Vec<usize> as SortKey>::sort_bytes(before[last].0),
                        path_sort_bytes(path@),
                    );
                }
            }
            assert(rd_cumulative(s, p as int, (n - i) as nat, prev_spec) == match rd_cumulative(
                s,
                p3 as int,
                (n - i - 1) as nat,
                Some(path@),
            ) {
                Ok((rest, q)) => Ok((seq![xv] + rest, q)),
                Err(e) => Err(e),
            });
        }
        let key = crate::ast::copy_path(&path);
        out.push_last(key, amount);
        proof {
            assert forall|a: int, b: int| 0 <= a < b < out@.len() implies bytes_lt(
                #[trigger] <Vec<usize> as SortKey>::sort_bytes(out@[a].0),
                #[trigger] <Vec<usize> as SortKey>::sort_bytes(out@[b].0),
            ) by {
                if b < out@.len() - 1 {
                    assert(out@[a] == before[a]);
                    assert(out@[b] == before[b]);
                }
            }
            assert forall|rest: Seq<(Seq<usize>, i128)>| #![auto]
                before + (seq![xv] + rest) == out@ + rest by {
                assert(before + (seq![xv] + rest) =~= out@ + rest);
            }
        }
        prev = Some(path);
        p = p3;
        i = i + 1;
    }
    assert(out@ + Seq::<(Seq<usize>, i128)>::empty() =~= out@);
    Ok((out, p))
}

/// Decode a snapshot from its canonical encoding, rejecting non-canonical input.
pub fn decode_snapshot(buf: &[u8]) -> (r: Result<Snapshot, DecodeError>)
    ensures
        match r {
            Ok(x) => rd_snapshot(buf@) == Ok::<SnapshotV, DecodeErrorV>(x@),
            Err(e) => rd_snapshot(buf@) == Err::<SnapshotV, DecodeErrorV>(e@),
        },
{
    let (v, p) = match read_u8(buf, 0) {
        Err(e) => return Err(e),
        Ok(x) => x,
    };
    if v != 1 {
        return Err(DecodeError::BadVersion(v));
    }
    let (balance, p1) = match read_int(buf, p) {
        Err(e) => return Err(e),
        Ok(x) => x,
    };
    let (blocks_since_activity, p2) = match read_u32(buf, p1) {
        Err(e) => return Err(e),
        Ok(x) => x,
    };
    let (blocks_since_open, p3) = match read_u32(buf, p2) {
        Err(e) => return Err(e),
        Ok(x) => x,
    };
    let (blocks_since_received, p4) = match read_u32(buf, p3) {
        Err(e) => return Err(e),
        Ok(x) => x,
    };
    let (height, p5) = match read_u32(buf, p4) {
        Err(e) => return Err(e),
        Ok(x) => x,
    };
    let (n, p6) = match read_count(buf, p5) {
        Err(e) => return Err(e),
        Ok(x) => x,
    };
    let (rolling, p7) = match dec_rolling(buf, p6, n) {
        Err(e) => return Err(e),
        Ok(x) => x,
    };
    let (m, p8) = match read_count(buf, p7) {
        Err(e) => return Err(e),
        Ok(x) => x,
    };
    let (cumulative_spent, p9) = match dec_cumulative(buf, p8, m) {
        Err(e) => return Err(e),
        Ok(x) => x,
    };
    if p9 != buf.len() {
        return Err(DecodeError::TrailingBytes);
    }
    Ok(
        Snapshot {
            balance,
            blocks_since_activity,
            blocks_since_open,
            blocks_since_received,
            height,
            rolling,
            cumulative_spent,
        },
    )
}

} // verus!
