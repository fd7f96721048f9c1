//! The run-length codec: the byte-stream transform at the heart of the
//! archive format.
//!
//! A run record stands for `count` consecutive repetitions of `symbol` and
//! is serialized as exactly five bytes: the symbol, then the count as a
//! little-endian 32-bit integer.  Encoding coalesces every maximal run of
//! equal bytes into one record; only a change of byte value or the end of
//! the stream closes a run.  The count field is 32 bits wide, so a run
//! longer than `u32::MAX` wraps its stored count; that legacy limit is kept
//! deliberately, and the laws below therefore ask for runs that fit.

use vstd::prelude::*;

verus! {

use vstd::bytes::spec_u32_from_le_bytes;
use vstd::bytes::spec_u32_to_le_bytes;
use vstd::bytes::lemma_auto_spec_u32_to_from_le_bytes;
use vstd::bytes::u32_from_le_bytes;
use vstd::bytes::u32_to_le_bytes;
use vstd::slice::slice_index_get;
use vstd::slice::slice_subrange;
use crate::models::ArchiveError;

/// One run: `count` consecutive repetitions of `symbol` in the raw stream.
pub struct RunRecord {
    pub symbol: u8,
    pub count: u32,
}

/// `n` repetitions of the byte `b`.
pub open spec fn repeat_byte(b: u8, n: nat) -> Seq<u8> {
    Seq::new(n, |i: int| b)
}

/// Length of the initial maximal run of `s`: the largest prefix of `s`
/// whose bytes all equal `s[0]` (zero only for the empty sequence).
pub open spec fn run_len(s: Seq<u8>) -> int
    decreases s.len(),
{
    if s.len() == 0 {
        0
    } else if s.len() == 1 || s[1] != s[0] {
        1
    } else {
        1 + run_len(s.drop_first())
    }
}

/// The characterizing properties of [`run_len`].
proof fn lemma_run_len(s: Seq<u8>)
    ensures
        0 <= run_len(s) <= s.len(),
        s.len() > 0 ==> run_len(s) >= 1,
        forall|k: int| 0 <= k < run_len(s) ==> #[trigger] s[k] == s[0],
        run_len(s) < s.len() ==> s[run_len(s)] != s[0],
    decreases s.len(),
{
    if s.len() == 0 {
    } else if s.len() == 1 || s[1] != s[0] {
    } else {
        lemma_run_len(s.drop_first());
        let t = s.drop_first();
        assert forall|k: int| 0 <= k < run_len(s) implies #[trigger] s[k] == s[0] by {
            if k >= 1 {
                assert(t[k - 1] == s[k]);
                assert(t[k - 1] == t[0]);
            }
        }
        if run_len(s) < s.len() {
            assert(s[run_len(s)] == t[run_len(t)]);
        }
    }
}

/// A run length reduced to the 32-bit count field (the legacy wraparound).
pub open spec fn wrap32(n: int) -> u32 {
    (n % 0x1_0000_0000) as u32
}

/// The run records of `s`: one record per maximal run, in stream order.
pub open spec fn rle_records(s: Seq<u8>) -> Seq<RunRecord>
    decreases s.len(),
    via rle_records_decreases
{
    if s.len() == 0 {
        Seq::empty()
    } else {
        seq![RunRecord { symbol: s[0], count: wrap32(run_len(s)) }] + rle_records(
            s.skip(run_len(s)),
        )
    }
}

#[via_fn]
proof fn rle_records_decreases(s: Seq<u8>) {
    lemma_run_len(s);
}

/// The five serialized bytes of one run record.
pub open spec fn record_bytes(r: RunRecord) -> Seq<u8> {
    seq![r.symbol] + spec_u32_to_le_bytes(r.count)
}

/// The serialized bytes of a record sequence, in order.
pub open spec fn records_bytes(rs: Seq<RunRecord>) -> Seq<u8>
    decreases rs.len(),
{
    if rs.len() == 0 {
        Seq::empty()
    } else {
        record_bytes(rs[0]) + records_bytes(rs.drop_first())
    }
}

/// The full encoding of a raw byte stream: its records, serialized.
pub open spec fn rle_bytes(s: Seq<u8>) -> Seq<u8> {
    records_bytes(rle_records(s))
}

/// The records read back from encoded bytes, five bytes per record
/// (meaningful when the length is a multiple of five).
pub open spec fn parse_records(data: Seq<u8>) -> Seq<RunRecord>
    recommends
        data.len() % 5 == 0,
    decreases data.len(),
{
    if data.len() < 5 {
        Seq::empty()
    } else {
        seq![
            RunRecord { symbol: data[0], count: spec_u32_from_le_bytes(data.subrange(1, 5)) },
        ] + parse_records(data.skip(5))
    }
}

/// The raw bytes a record sequence stands for: each record's symbol,
/// repeated `count` times, in record order.
pub open spec fn decoded_bytes(rs: Seq<RunRecord>) -> Seq<u8>
    decreases rs.len(),
{
    if rs.len() == 0 {
        Seq::empty()
    } else {
        repeat_byte(rs[0].symbol, rs[0].count as nat) + decoded_bytes(rs.drop_first())
    }
}

/// Every maximal run of `s` fits the 32-bit count field, so no stored
/// count wraps.
pub open spec fn runs_bounded(s: Seq<u8>) -> bool {
    forall|i: int| 0 <= i <= s.len() ==> #[trigger] run_len(s.skip(i)) <= u32::MAX
}

/// [`run_len`] is the unique index with its properties.
proof fn lemma_run_len_is(t: Seq<u8>, j: int)
    requires
        1 <= j <= t.len(),
        forall|k: int| 0 <= k < j ==> #[trigger] t[k] == t[0],
        j < t.len() ==> t[j] != t[0],
    ensures
        run_len(t) == j,
{
    lemma_run_len(t);
    if run_len(t) < j {
        assert(t[run_len(t)] == t[0]);
    }
    if run_len(t) > j {
        assert(t[j] == t[0]);
    }
}

/// A non-empty all-equal sequence is exactly one run.
proof fn lemma_rle_constant(s: Seq<u8>)
    requires
        s.len() > 0,
        forall|k: int| 0 <= k < s.len() ==> #[trigger] s[k] == s[0],
    ensures
        run_len(s) == s.len(),
        rle_records(s) =~= seq![RunRecord { symbol: s[0], count: wrap32(s.len() as int) }],
{
    lemma_run_len_is(s, s.len() as int);
    assert(s.skip(s.len() as int) =~= Seq::<u8>::empty());
    assert(rle_records(Seq::<u8>::empty()) =~= Seq::<RunRecord>::empty());
    assert(rle_records(s) == seq![RunRecord { symbol: s[0], count: wrap32(run_len(s)) }]
        + rle_records(s.skip(run_len(s))));
    assert(seq![RunRecord { symbol: s[0], count: wrap32(s.len() as int) }] + Seq::<
        RunRecord,
    >::empty() =~= seq![RunRecord { symbol: s[0], count: wrap32(s.len() as int) }]);
}

/// Record sequences serialize independently: serialization distributes
/// over concatenation.
proof fn lemma_records_bytes_concat(a: Seq<RunRecord>, b: Seq<RunRecord>)
    ensures
        records_bytes(a + b) == records_bytes(a) + records_bytes(b),
    decreases a.len(),
{
    if a.len() == 0 {
        assert(a + b =~= b);
        assert(records_bytes(a) + records_bytes(b) =~= records_bytes(b));
    } else {
        assert((a + b).drop_first() =~= a.drop_first() + b);
        lemma_records_bytes_concat(a.drop_first(), b);
        assert(record_bytes(a[0]) + (records_bytes(a.drop_first()) + records_bytes(b)) =~= (
        record_bytes(a[0]) + records_bytes(a.drop_first())) + records_bytes(b));
    }
}

/// Serialized records take exactly five bytes each.
proof fn lemma_records_bytes_len(rs: Seq<RunRecord>)
    ensures
        records_bytes(rs).len() == 5 * rs.len(),
    decreases rs.len(),
{
    lemma_auto_spec_u32_to_from_le_bytes();
    if rs.len() > 0 {
        lemma_records_bytes_len(rs.drop_first());
    }
}

/// The encoding has one record per maximal run, so at most one per byte.
pub(crate) proof fn lemma_rle_records_count(s: Seq<u8>)
    ensures
        rle_records(s).len() <= s.len(),
        rle_bytes(s).len() == 5 * rle_records(s).len(),
        rle_bytes(s).len() <= 5 * s.len(),
        rle_bytes(s).len() % 5 == 0,
    decreases s.len(),
{
    lemma_records_bytes_len(rle_records(s));
    if s.len() > 0 {
        lemma_run_len(s);
        lemma_rle_records_count(s.skip(run_len(s)));
    }
}

/// A run boundary splits the encoding: if nothing runs across index `b`,
/// the records of `s` are the records of the two sides, concatenated.
proof fn lemma_rle_boundary(s: Seq<u8>, b: int)
    requires
        0 <= b <= s.len(),
        b == 0 || b == s.len() || s[b] != s[b - 1],
    ensures
        rle_records(s) == rle_records(s.take(b)) + rle_records(s.skip(b)),
    decreases s.len(),
{
    if b == 0 {
        assert(s.take(0) =~= Seq::<u8>::empty());
        assert(s.skip(0) =~= s);
        assert(rle_records(s.take(0)) + rle_records(s) =~= rle_records(s));
    } else if b == s.len() {
        assert(s.take(b) =~= s);
        assert(s.skip(b) =~= Seq::<u8>::empty());
        assert(rle_records(s) + rle_records(s.skip(b)) =~= rle_records(s));
    } else {
        let r = run_len(s);
        lemma_run_len(s);
        // The first run cannot cross the boundary.
        if r > b {
            assert(s[b] == s[0]);
            assert(s[b - 1] == s[0]);
        }
        assert(r <= b);
        let t = s.take(b);
        assert(t[0] == s[0]);
        assert forall|k: int| 0 <= k < r implies #[trigger] t[k] == t[0] by {
            assert(s[k] == s[0]);
        }
        if r < b {
            assert(t[r] == s[r]);
        }
        lemma_run_len_is(t, r);
        assert(t.skip(r) =~= s.skip(r).take(b - r));
        assert(s.skip(b) =~= s.skip(r).skip(b - r));
        if b - r == 0 {
            assert(rle_records(t) =~= seq![
                RunRecord { symbol: s[0], count: wrap32(r) },
            ] + rle_records(t.skip(r)));
            assert(t.skip(r) =~= Seq::<u8>::empty());
            assert(rle_records(t) + rle_records(s.skip(b)) =~= seq![
                RunRecord { symbol: s[0], count: wrap32(r) },
            ] + rle_records(s.skip(b)));
        } else {
            let u = s.skip(r);
            assert(u[b - r] == s[b]);
            assert(u[b - r - 1] == s[b - 1]);
            lemma_rle_boundary(u, b - r);
            assert(seq![RunRecord { symbol: s[0], count: wrap32(r) }] + (rle_records(u.take(b - r))
                + rle_records(u.skip(b - r))) =~= (seq![
                RunRecord { symbol: s[0], count: wrap32(r) },
            ] + rle_records(u.take(b - r))) + rle_records(u.skip(b - r)));
        }
    }
}

/// Decoding distributes over concatenation of record sequences.
proof fn lemma_decoded_concat(a: Seq<RunRecord>, b: Seq<RunRecord>)
    ensures
        decoded_bytes(a + b) == decoded_bytes(a) + decoded_bytes(b),
    decreases a.len(),
{
    if a.len() == 0 {
        assert(a + b =~= b);
        assert(decoded_bytes(a) + decoded_bytes(b) =~= decoded_bytes(b));
    } else {
        assert((a + b).drop_first() =~= a.drop_first() + b);
        lemma_decoded_concat(a.drop_first(), b);
        assert(repeat_byte(a[0].symbol, a[0].count as nat) + (decoded_bytes(a.drop_first())
            + decoded_bytes(b)) =~= (repeat_byte(a[0].symbol, a[0].count as nat) + decoded_bytes(
            a.drop_first(),
        )) + decoded_bytes(b));
    }
}

/// Parsing distributes over concatenation at a five-byte-aligned split.
proof fn lemma_parse_records_concat(a: Seq<u8>, b: Seq<u8>)
    requires
        a.len() % 5 == 0,
    ensures
        parse_records(a + b) == parse_records(a) + parse_records(b),
    decreases a.len(),
{
    if a.len() == 0 {
        assert(a + b =~= b);
        assert(parse_records(a) + parse_records(b) =~= parse_records(b));
    } else {
        let ab = a + b;
        assert(ab.len() >= 5);
        assert(ab.subrange(1, 5) =~= a.subrange(1, 5));
        assert(ab.skip(5) =~= a.skip(5) + b);
        lemma_parse_records_concat(a.skip(5), b);
        assert(seq![
            RunRecord { symbol: a[0], count: spec_u32_from_le_bytes(a.subrange(1, 5)) },
        ] + (parse_records(a.skip(5)) + parse_records(b)) =~= (seq![
            RunRecord { symbol: a[0], count: spec_u32_from_le_bytes(a.subrange(1, 5)) },
        ] + parse_records(a.skip(5))) + parse_records(b));
    }
}

/// Serialization loses nothing: parsing the serialized bytes gives back
/// the records.
proof fn lemma_parse_records_bytes(rs: Seq<RunRecord>)
    ensures
        parse_records(records_bytes(rs)) == rs,
    decreases rs.len(),
{
    lemma_auto_spec_u32_to_from_le_bytes();
    if rs.len() == 0 {
    } else {
        let bytes = records_bytes(rs);
        lemma_records_bytes_len(rs);
        lemma_records_bytes_len(rs.drop_first());
        assert(bytes.len() >= 5);
        assert(bytes[0] == rs[0].symbol);
        assert(bytes.subrange(1, 5) =~= spec_u32_to_le_bytes(rs[0].count));
        assert(bytes.skip(5) =~= records_bytes(rs.drop_first()));
        lemma_parse_records_bytes(rs.drop_first());
        assert(seq![rs[0]] + rs.drop_first() =~= rs);
    }
}

/// Encode a raw byte stream as serialized run records.
///
/// Scans the input once; every maximal run of equal bytes becomes one
/// five-byte record.  The encoded size is the returned vector's length,
/// always a multiple of five.  A run longer than `u32::MAX` keeps the
/// legacy behaviour: its stored count wraps at 32 bits.
pub fn rle_encode(data: &[u8]) -> (out: Vec<u8>)
    ensures
        out@ == rle_bytes(data@),
        out@.len() % 5 == 0,
{
    let ghost s = data@;
    let mut out: Vec<u8> = Vec::new();
    let mut i: usize = 0;
    proof {
        assert(s.take(0) =~= Seq::<u8>::empty());
    }
    while i < data.len()
        invariant
            0 <= i <= s.len(),
            s == data@,
            i == 0 || i == s.len() || s[i as int] != s[i as int - 1],
            out@ == records_bytes(rle_records(s.take(i as int))),
        decreases s.len() - i,
    {
        let sym: u8 = *slice_index_get(data, i);
        let mut j: usize = i + 1;
        let mut count: u32 = 1;
        while j < data.len() && *slice_index_get(data, j) == sym
            invariant
                s == data@,
                i < j <= s.len(),
                forall|k: int| i <= k < j ==> #[trigger] s[k] == sym,
                sym == s[i as int],
                count == wrap32(j - i),
            decreases s.len() - j,
        {
            proof {
                lemma_wrap32_step(j - i);
            }
            count = if count == u32::MAX {
                0
            } else {
                count + 1
            };
            j = j + 1;
        }
        out.push(sym);
        let mut count_bytes: Vec<u8> = u32_to_le_bytes(count);
        out.append(&mut count_bytes);
        proof {
            let run = s.subrange(i as int, j as int);
            assert(run[0] == sym);
            lemma_rle_constant(run);
            let t = s.take(j as int);
            lemma_rle_boundary(t, i as int);
            assert(t.take(i as int) =~= s.take(i as int));
            assert(t.skip(i as int) =~= run);
            lemma_records_bytes_concat(rle_records(s.take(i as int)), rle_records(run));
            let rec = RunRecord { symbol: sym, count: count };
            assert(rle_records(run) =~= seq![rec]);
            assert(seq![rec].drop_first() =~= Seq::<RunRecord>::empty());
            assert(record_bytes(rec) + records_bytes(Seq::<RunRecord>::empty()) =~= record_bytes(
                rec,
            ));
            assert(records_bytes(seq![rec]) =~= record_bytes(rec));
            assert(out@ =~= records_bytes(rle_records(s.take(i as int))) + record_bytes(rec));
        }
        i = j;
    }
    proof {
        assert(s.take(s.len() as int) =~= s);
        lemma_rle_records_count(s);
    }
    out
}

/// The 32-bit wraparound advances one step at a time.
proof fn lemma_wrap32_step(n: int)
    requires
        n >= 0,
    ensures
        wrap32(n) < u32::MAX ==> wrap32(n + 1) == wrap32(n) + 1,
        wrap32(n) == u32::MAX ==> wrap32(n + 1) == 0,
{
    let m = 0x1_0000_0000int;
    vstd::arithmetic::div_mod::lemma_add_mod_noop(n, 1, m);
    vstd::arithmetic::div_mod::lemma_small_mod(1nat, m as nat);
}

/// Decode serialized run records back to the raw byte stream.
///
/// `data` must hold exactly the records of one encoded stream: the caller
/// supplies the record-byte budget by slicing, and decoding consumes all
/// of it.  A length that is not a multiple of five means a truncated run
/// record, a structural violation reported as `CorruptArchive`.
pub fn rle_decode(data: &[u8]) -> (r: Result<Vec<u8>, ArchiveError>)
    ensures
        match r {
            Ok(out) => data@.len() % 5 == 0 && out@ == decoded_bytes(parse_records(data@)),
            Err(e) => data@.len() % 5 != 0 && e == ArchiveError::CorruptArchive,
        },
{
    let ghost s = data@;
    if data.len() % 5 != 0 {
        return Err(ArchiveError::CorruptArchive);
    }
    let mut out: Vec<u8> = Vec::new();
    let mut pos: usize = 0;
    proof {
        assert(s.take(0) =~= Seq::<u8>::empty());
    }
    while pos < data.len()
        invariant
            s == data@,
            0 <= pos <= s.len(),
            pos % 5 == 0,
            s.len() % 5 == 0,
            out@ == decoded_bytes(parse_records(s.take(pos as int))),
        decreases s.len() - pos,
    {
        let sym: u8 = *slice_index_get(data, pos);
        let count: u32 = u32_from_le_bytes(slice_subrange(data, pos + 1, pos + 5));
        let ghost before = out@;
        let mut k: u32 = 0;
        while k < count
            invariant
                out@ == before + repeat_byte(sym, k as nat),
                k <= count,
            decreases count - k,
        {
            out.push(sym);
            proof {
                assert(before + repeat_byte(sym, k as nat + 1) =~= (before + repeat_byte(
                    sym,
                    k as nat,
                )).push(sym));
            }
            k = k + 1;
        }
        proof {
            let chunk = s.subrange(pos as int, pos as int + 5);
            assert(s.take(pos as int + 5) =~= s.take(pos as int) + chunk);
            lemma_parse_records_concat(s.take(pos as int), chunk);
            assert(chunk.subrange(1, 5) =~= s.subrange(pos as int + 1, pos as int + 5));
            assert(chunk.skip(5) =~= Seq::<u8>::empty());
            let rec = RunRecord { symbol: sym, count: count };
            assert(chunk[0] == sym);
            assert(seq![rec] + parse_records(Seq::<u8>::empty()) =~= seq![rec]);
            assert(parse_records(chunk) =~= seq![rec]);
            lemma_decoded_concat(parse_records(s.take(pos as int)), seq![rec]);
            assert(seq![rec].drop_first() =~= Seq::<RunRecord>::empty());
            assert(repeat_byte(sym, count as nat) + decoded_bytes(Seq::<RunRecord>::empty())
                =~= repeat_byte(sym, count as nat));
            assert(decoded_bytes(seq![rec]) =~= repeat_byte(sym, count as nat));
            assert(out@ =~= decoded_bytes(parse_records(s.take(pos as int + 5))));
        }
        pos = pos + 5;
    }
    proof {
        assert(s.take(s.len() as int) =~= s);
    }
    Ok(out)
}

/// Bounded runs never wrap their stored count.
proof fn lemma_wrap32_small(n: int)
    requires
        0 <= n <= u32::MAX,
    ensures
        wrap32(n) == n,
{
    vstd::arithmetic::div_mod::lemma_small_mod(n as nat, 0x1_0000_0000nat);
}

/// A suffix of a stream with bounded runs has bounded runs.
proof fn lemma_runs_bounded_skip(s: Seq<u8>, r: int)
    requires
        runs_bounded(s),
        0 <= r <= s.len(),
    ensures
        runs_bounded(s.skip(r)),
{
    let rest = s.skip(r);
    assert forall|i: int| 0 <= i <= rest.len() implies #[trigger] run_len(rest.skip(i))
        <= u32::MAX by {
        assert(rest.skip(i) =~= s.skip(r + i));
        assert(run_len(s.skip(r + i)) <= u32::MAX);
    }
}

/// Decoding the records of a stream gives the stream back, as long as no
/// run wrapped its 32-bit count.
proof fn lemma_decoded_rle(s: Seq<u8>)
    requires
        runs_bounded(s),
    ensures
        decoded_bytes(rle_records(s)) == s,
    decreases s.len(),
{
    if s.len() == 0 {
    } else {
        let r = run_len(s);
        lemma_run_len(s);
        assert(s.skip(0) =~= s);
        assert(run_len(s.skip(0)) <= u32::MAX);
        lemma_wrap32_small(r);
        let rest = s.skip(r);
        lemma_runs_bounded_skip(s, r);
        lemma_decoded_rle(rest);
        let rec = RunRecord { symbol: s[0], count: wrap32(r) };
        let rs = rle_records(s);
        assert(rs == seq![rec] + rle_records(rest));
        assert(rs.drop_first() =~= rle_records(rest));
        assert(repeat_byte(s[0], r as nat) =~= s.take(r));
        assert(s.take(r) + rest =~= s);
    }
}

/// Round-trip identity: decoding what [`rle_encode`] produced gives back
/// the original byte stream exactly, for any stream whose maximal runs
/// fit the 32-bit count field (a longer run wraps its stored count, the
/// deliberate legacy limit, and cannot round-trip).
pub proof fn lemma_rle_round_trip(s: Seq<u8>)
    requires
        runs_bounded(s),
    ensures
        rle_bytes(s).len() % 5 == 0,
        parse_records(rle_bytes(s)) == rle_records(s),
        decoded_bytes(parse_records(rle_bytes(s))) == s,
{
    lemma_rle_records_count(s);
    lemma_parse_records_bytes(rle_records(s));
    lemma_decoded_rle(s);
}

/// Record minimality: no two adjacent records carry the same symbol, on
/// any stream, so every maximal run became exactly one record; and no
/// record is empty as long as no run wrapped the 32-bit count field (a
/// run of exactly `u32::MAX + 1` equal bytes stores count zero).
pub proof fn lemma_rle_minimality(s: Seq<u8>)
    ensures
        forall|i: int|
            #![trigger rle_records(s)[i]]
            0 <= i < rle_records(s).len() - 1 ==> rle_records(s)[i].symbol != rle_records(
                s,
            )[i + 1].symbol,
        runs_bounded(s) ==> forall|i: int| 0 <= i < rle_records(s).len() ==> (
        #[trigger] rle_records(s)[i]).count >= 1,
    decreases s.len(),
{
    if s.len() == 0 {
    } else {
        let r = run_len(s);
        lemma_run_len(s);
        let rest = s.skip(r);
        lemma_rle_minimality(rest);
        let rs = rle_records(s);
        assert(rs == seq![RunRecord { symbol: s[0], count: wrap32(r) }] + rle_records(rest));
        if rest.len() > 0 {
            lemma_run_len(rest);
            assert(rle_records(rest)[0].symbol == rest[0]);
            assert(rest[0] == s[r]);
        }
        assert forall|i: int|
            #![trigger rs[i]]
            0 <= i < rs.len() - 1 implies rs[i].symbol != rs[i + 1].symbol by {
            if i == 0 {
                assert(rs[1] == rle_records(rest)[0]);
            } else {
                assert(rs[i] == rle_records(rest)[i - 1]);
                assert(rs[i + 1] == rle_records(rest)[i]);
            }
        }
        if runs_bounded(s) {
            assert(s.skip(0) =~= s);
            assert(run_len(s.skip(0)) <= u32::MAX);
            lemma_wrap32_small(r);
            lemma_runs_bounded_skip(s, r);
            assert forall|i: int| 0 <= i < rs.len() implies (#[trigger] rs[i]).count >= 1 by {
                if i >= 1 {
                    assert(rs[i] == rle_records(rest)[i - 1]);
                }
            }
        }
    }
}

/// Boundary run: a stream of exactly one repeated byte encodes to exactly
/// one five-byte record carrying the full length, and that record decodes
/// back to the same stream.
pub proof fn lemma_single_run(b: u8, n: int)
    requires
        1 <= n <= u32::MAX,
    ensures
        rle_records(repeat_byte(b, n as nat)) == seq![RunRecord { symbol: b, count: n as u32 }],
        rle_bytes(repeat_byte(b, n as nat)).len() == 5,
        decoded_bytes(rle_records(repeat_byte(b, n as nat))) == repeat_byte(b, n as nat),
{
    let s = repeat_byte(b, n as nat);
    lemma_rle_constant(s);
    lemma_wrap32_small(n);
    lemma_records_bytes_len(rle_records(s));
    let rec = RunRecord { symbol: b, count: n as u32 };
    assert(rle_records(s) == seq![rec]);
    assert(seq![rec].drop_first() =~= Seq::<RunRecord>::empty());
    assert(decoded_bytes(seq![rec]) =~= repeat_byte(b, n as nat) + decoded_bytes(
        Seq::<RunRecord>::empty(),
    ));
    assert(repeat_byte(b, n as nat) + Seq::<u8>::empty() =~= s);
}

} // verus!
