//! Ingestion: turn records of integer tokens into labeled elements.
//!
//! Each record becomes one element: its label is the tokens joined with a
//! comma, and its set holds the bit index of each token value under a
//! stable, first-seen assignment of value to index. Ingestion fails fast
//! with a parse error on the first token that is not a number, and with a
//! capacity error on the first token that would require more distinct
//! values than the configured bit-vector capacity — in both cases before
//! any cover computation can start.

use vstd::prelude::*;
use crate::bitset::BitSet;
use crate::graph::{Graph, GraphData, Node, NodeV, insert_level};
use vstd::string::StrSliceExecFns;
use vstd::string::StringExecFns;

verus! {

/// A reason ingestion stopped.
#[derive(Clone, Copy, PartialEq, Eq, Structural, Debug)]
pub enum IngestError {
    /// A token could not be read as a universe item identifier.
    Parse,
    /// The distinct universe items exceed the configured capacity.
    Capacity,
}

pub open spec fn is_digit(c: char) -> bool {
    ('0' as u32) <= (c as u32) && (c as u32) <= ('9' as u32)
}

pub open spec fn digit_val(c: char) -> int {
    (c as u32) as int - ('0' as u32) as int
}

/// A non-empty run of decimal digits.
pub open spec fn is_numeral(s: Seq<char>) -> bool {
    s.len() > 0 && forall|i: int| 0 <= i < s.len() ==> is_digit(#[trigger] s[i])
}

/// The number a run of digits denotes.
pub open spec fn numeral_val(s: Seq<char>) -> int
    decreases s.len(),
{
    if s.len() == 0 {
        0
    } else {
        numeral_val(s.drop_last()) * 10 + digit_val(s.last())
    }
}

/// A token that ingestion accepts: a numeral whose value fits the machine.
pub open spec fn tok_valid(t: Seq<char>) -> bool {
    is_numeral(t) && numeral_val(t) <= u64::MAX
}

proof fn lemma_numeral_nonneg(s: Seq<char>)
    requires
        forall|i: int| 0 <= i < s.len() ==> is_digit(#[trigger] s[i]),
    ensures
        numeral_val(s) >= 0,
    decreases s.len(),
{
    if s.len() > 0 {
        lemma_numeral_nonneg(s.drop_last());
    }
}

proof fn lemma_numeral_take_le(s: Seq<char>, i: int)
    requires
        0 <= i <= s.len(),
        forall|j: int| 0 <= j < s.len() ==> is_digit(#[trigger] s[j]),
    ensures
        numeral_val(s.take(i)) <= numeral_val(s),
    decreases s.len() - i,
{
    if i < s.len() {
        assert(s.take(i + 1).drop_last() =~= s.take(i));
        assert(s.take(i + 1).last() == s[i]);
        assert(forall|j: int| 0 <= j < s.take(i).len() ==> is_digit(#[trigger] s.take(i)[j]));
        lemma_numeral_nonneg(s.take(i));
        assert(numeral_val(s.take(i + 1)) == numeral_val(s.take(i)) * 10 + digit_val(s[i]));
        assert(numeral_val(s.take(i)) * 10 >= numeral_val(s.take(i)));
        lemma_numeral_take_le(s, i + 1);
    } else {
        assert(s.take(i) =~= s);
    }
}

/// Read a token as a number: `Some` exactly on non-empty digit runs whose
/// value fits a `u64`, returning that value.
pub fn parse_token(s: &str) -> (r: Option<u64>)
    ensures
        r is Some <==> tok_valid(s@),
        r matches Some(v) ==> v as int == numeral_val(s@),
{
    let n = s.unicode_len();
    if n == 0 {
        return None;
    }
    let mut acc: u64 = 0;
    let mut i: usize = 0;
    while i < n
        invariant
            n == s@.len(),
            i <= n,
            forall|j: int| 0 <= j < i ==> is_digit(#[trigger] s@[j]),
            acc as int == numeral_val(s@.take(i as int)),
        decreases n - i,
    {
        let c = s.get_char(i);
        let cu = c as u32;
        if cu < '0' as u32 || cu > '9' as u32 {
            assert(!is_digit(s@[i as int]));
            return None;
        }
        let d = (cu - '0' as u32) as u64;
        proof {
            assert(d as int == digit_val(s@[i as int]));
            assert(s@.take(i as int + 1).drop_last() =~= s@.take(i as int));
            assert(s@.take(i as int + 1).last() == s@[i as int]);
        }
        if acc > (u64::MAX - d) / 10 {
            proof {
                let q = ((u64::MAX - d) / 10) as int;
                vstd::arithmetic::div_mod::lemma_fundamental_div_mod((u64::MAX - d) as int, 10);
                assert(acc as int * 10 >= (q + 1) * 10) by (nonlinear_arith)
                    requires
                        acc as int >= q + 1,
                ;
                assert(numeral_val(s@.take(i as int + 1)) > u64::MAX);
                if tok_valid(s@) {
                    lemma_numeral_take_le(s@, i as int + 1);
                    assert(false);
                }
            }
            return None;
        }
        proof {
            let q = ((u64::MAX - d) / 10) as int;
            vstd::arithmetic::div_mod::lemma_fundamental_div_mod((u64::MAX - d) as int, 10);
            assert(acc as int * 10 <= q * 10) by (nonlinear_arith)
                requires
                    acc as int <= q,
            ;
        }
        acc = acc * 10 + d;
        i = i + 1;
    }
    proof {
        assert(s@.take(n as int) =~= s@);
        lemma_numeral_nonneg(s@);
    }
    Some(acc)
}

/// First occurrence of `x` in `seen`, if any.
fn index_of(seen: &Vec<u64>, x: u64) -> (r: Option<usize>)
    ensures
        r matches Some(i) ==> i < seen@.len() && seen@[i as int] == x,
        r is None ==> !seen@.contains(x),
{
    let mut i: usize = 0;
    while i < seen.len()
        invariant
            i <= seen@.len(),
            forall|j: int| 0 <= j < i ==> seen@[j] != x,
        decreases seen@.len() - i,
    {
        if seen[i] == x {
            return Some(i);
        }
        i = i + 1;
    }
    None
}

/// The distinct values of a sequence, in first-seen order.
pub open spec fn first_seen(vals: Seq<u64>) -> Seq<u64>
    decreases vals.len(),
{
    if vals.len() == 0 {
        Seq::empty()
    } else {
        let p = first_seen(vals.drop_last());
        if p.contains(vals.last()) {
            p
        } else {
            p.push(vals.last())
        }
    }
}

proof fn lemma_fs_contains(s: Seq<u64>, x: u64)
    ensures
        first_seen(s).contains(x) <==> s.contains(x),
    decreases s.len(),
{
    if s.len() > 0 {
        lemma_fs_contains(s.drop_last(), x);
        let p = first_seen(s.drop_last());
        if s.contains(x) {
            let i = choose|i: int| 0 <= i < s.len() && s[i] == x;
            if i < s.len() - 1 {
                assert(s.drop_last()[i] == x);
                if p.contains(s.last()) {
                } else {
                    let j = choose|j: int| 0 <= j < p.len() && p[j] == x;
                    assert(first_seen(s)[j] == x);
                }
            } else {
                if p.contains(s.last()) {
                } else {
                    assert(first_seen(s)[p.len() as int] == x);
                }
            }
        }
        if first_seen(s).contains(x) {
            let j = choose|j: int| 0 <= j < first_seen(s).len() && first_seen(s)[j] == x;
            if p.contains(s.last()) {
                assert(p[j] == x);
                assert(s.drop_last().contains(x));
                let i = choose|i: int| 0 <= i < s.drop_last().len() && s.drop_last()[i] == x;
                assert(s[i] == x);
            } else {
                if j < p.len() {
                    assert(p[j] == x);
                    assert(s.drop_last().contains(x));
                    let i = choose|i: int| 0 <= i < s.drop_last().len() && s.drop_last()[i] == x;
                    assert(s[i] == x);
                } else {
                    assert(x == s.last());
                    assert(s[s.len() - 1] == x);
                }
            }
        }
    }
}

proof fn lemma_fs_distinct(s: Seq<u64>)
    ensures
        forall|i: int, j: int|
            0 <= i < j < first_seen(s).len() ==> first_seen(s)[i] != first_seen(s)[j],
    decreases s.len(),
{
    if s.len() > 0 {
        lemma_fs_distinct(s.drop_last());
        let p = first_seen(s.drop_last());
        if !p.contains(s.last()) {
            assert forall|i: int, j: int|
                0 <= i < j < first_seen(s).len() implies first_seen(s)[i] != first_seen(s)[j] by {
                if j == p.len() {
                    assert(first_seen(s)[i] == p[i]);
                    if p[i] == s.last() {
                        assert(p.contains(s.last()));
                    }
                }
            }
        }
    }
}

/// Appending one value either leaves the first-seen sequence unchanged or
/// extends it by that value.
proof fn lemma_fs_push(s: Seq<u64>, v: u64)
    ensures
        s.contains(v) ==> first_seen(s.push(v)) == first_seen(s),
        !s.contains(v) ==> first_seen(s.push(v)) == first_seen(s).push(v),
{
    assert(s.push(v).drop_last() =~= s);
    assert(s.push(v).last() == v);
    lemma_fs_contains(s, v);
}

proof fn lemma_fs_len_concat(s: Seq<u64>, ext: Seq<u64>)
    ensures
        first_seen(s + ext).len() >= first_seen(s).len(),
    decreases ext.len(),
{
    if ext.len() == 0 {
        assert(s + ext =~= s);
    } else {
        lemma_fs_len_concat(s, ext.drop_last());
        assert(s + ext =~= (s + ext.drop_last()).push(ext.last()));
        lemma_fs_push(s + ext.drop_last(), ext.last());
    }
}

/// The token values of one record.
pub open spec fn rec_vals(r: Seq<Seq<char>>) -> Seq<u64> {
    r.map_values(|t: Seq<char>| numeral_val(t) as u64)
}

/// The token values of the first `k` records, in reading order.
pub open spec fn vals_upto(rv: Seq<Seq<Seq<char>>>, k: int) -> Seq<u64>
    decreases k,
{
    if k <= 0 {
        Seq::empty()
    } else {
        vals_upto(rv, k - 1) + rec_vals(rv[k - 1])
    }
}

/// The token values strictly before token `t` of record `k`.
pub open spec fn prefix_vals(rv: Seq<Seq<Seq<char>>>, k: int, t: int) -> Seq<u64> {
    vals_upto(rv, k) + rec_vals(rv[k]).take(t)
}

/// All token values of the input.
pub open spec fn all_vals(rv: Seq<Seq<Seq<char>>>) -> Seq<u64> {
    vals_upto(rv, rv.len() as int)
}

pub open spec fn all_valid(rv: Seq<Seq<Seq<char>>>) -> bool {
    forall|k: int, t: int|
        0 <= k < rv.len() && 0 <= t < rv[k].len() ==> tok_valid(#[trigger] rv[k][t])
}

/// How many distinct universe items the input mentions.
pub open spec fn distinct_count(rv: Seq<Seq<Seq<char>>>) -> int {
    first_seen(all_vals(rv)).len() as int
}

pub open spec fn lex_before(k1: int, t1: int, k2: int, t2: int) -> bool {
    k1 < k2 || (k1 == k2 && t1 < t2)
}

/// Every token read before token `t` of record `k` is valid.
pub open spec fn valid_before(rv: Seq<Seq<Seq<char>>>, k: int, t: int) -> bool {
    forall|k2: int, t2: int|
        0 <= k2 < rv.len() && 0 <= t2 < rv[k2].len() && lex_before(k2, t2, k, t) ==> tok_valid(
            #[trigger] rv[k2][t2],
        )
}

/// Ingestion stops with a parse error: some token is invalid, everything
/// before it is valid, and the capacity was not yet exhausted there.
pub open spec fn parse_failure(rv: Seq<Seq<Seq<char>>>, capacity: int) -> bool {
    exists|k: int, t: int|
        0 <= k < rv.len() && 0 <= t < rv[k].len() && !tok_valid(#[trigger] rv[k][t]) && valid_before(
            rv,
            k,
            t,
        ) && first_seen(prefix_vals(rv, k, t)).len() <= capacity
}

/// Ingestion stops with a capacity error: some valid token introduces a
/// distinct value beyond the capacity, and everything before it was valid
/// and within capacity.
pub open spec fn capacity_failure(rv: Seq<Seq<Seq<char>>>, capacity: int) -> bool {
    exists|k: int, t: int|
        0 <= k < rv.len() && 0 <= t < rv[k].len() && tok_valid(#[trigger] rv[k][t]) && valid_before(
            rv,
            k,
            t,
        ) && first_seen(prefix_vals(rv, k, t)).len() <= capacity && first_seen(
            prefix_vals(rv, k, t + 1),
        ).len() > capacity
}

/// The record's label: its original tokens joined with a comma.
pub open spec fn label_of(toks: Seq<Seq<char>>) -> Seq<char>
    decreases toks.len(),
{
    if toks.len() == 0 {
        Seq::empty()
    } else if toks.len() == 1 {
        toks[0]
    } else {
        label_of(toks.drop_last()) + ", "@ + toks.last()
    }
}

/// The bit indices a record's values occupy under the first-seen
/// assignment `fs`.
pub open spec fn record_bits(fs: Seq<u64>, vals: Seq<u64>) -> Set<int> {
    Set::new(|i: int| 0 <= i < fs.len() && vals.contains(fs[i]))
}

/// The first `k` elements, with bit indices drawn from the assignment `fs`.
pub open spec fn elems_pfx(rv: Seq<Seq<Seq<char>>>, k: int, fs: Seq<u64>) -> Seq<NodeV> {
    Seq::new(
        k as nat,
        |j: int| NodeV { name: label_of(rv[j]), set: record_bits(fs, rec_vals(rv[j])) },
    )
}

/// The elements the input describes, one per record, in reading order.
pub open spec fn elems(rv: Seq<Seq<Seq<char>>>) -> Seq<NodeV> {
    elems_pfx(rv, rv.len() as int, first_seen(all_vals(rv)))
}

/// The level buckets that inserting the elements in order produces.
pub open spec fn build_levels(es: Seq<NodeV>) -> Seq<Seq<NodeV>>
    decreases es.len(),
{
    if es.len() == 0 {
        Seq::empty()
    } else {
        insert_level(build_levels(es.drop_last()), es.last())
    }
}

/// A new value extends the assignment without moving any record's bits.
proof fn lemma_record_bits_grow(fs: Seq<u64>, v: u64, vals: Seq<u64>)
    requires
        forall|x: u64| vals.contains(x) ==> fs.contains(x),
        !fs.contains(v),
    ensures
        record_bits(fs.push(v), vals) == record_bits(fs, vals),
{
    assert forall|i: int| record_bits(fs.push(v), vals).contains(i) implies record_bits(
        fs,
        vals,
    ).contains(i) by {
        if i == fs.len() {
            assert(fs.contains(v));
            assert(false);
        }
    }
    assert(record_bits(fs.push(v), vals) =~= record_bits(fs, vals));
}

/// The abstract view of the records handed in.
pub open spec fn records_view(records: Seq<Vec<String>>) -> Seq<Seq<Seq<char>>> {
    records.map_values(|r: Vec<String>| r@.map_values(|t: String| t@))
}

/// The record's tokens joined with a comma.
pub fn join_label(tokens: &Vec<String>) -> (r: String)
    ensures
        r@ == label_of(tokens@.map_values(|t: String| t@)),
{
    let ghost tv = tokens@.map_values(|t: String| t@);
    let mut r = String::new();
    let mut i: usize = 0;
    while i < tokens.len()
        invariant
            tv == tokens@.map_values(|t: String| t@),
            i <= tokens@.len(),
            r@ == label_of(tv.take(i as int)),
        decreases tokens@.len() - i,
    {
        if i > 0 {
            r.append(", ");
        }
        r.append(tokens[i].as_str());
        proof {
            if i == 0 {
                assert(tv.take(1).len() == 1);
                assert(label_of(tv.take(1)) == tv.take(1)[0]);
                assert(r@ =~= tv[0]);
                assert(tv.take(1)[0] == tv[0]);
            } else {
                assert(tv.take(i as int + 1).drop_last() =~= tv.take(i as int));
                assert(tv.take(i as int + 1).last() == tv[i as int]);
                assert(label_of(tv.take(i as int + 1)) == label_of(tv.take(i as int)) + ", "@
                    + tv[i as int]);
            }
        }
        i = i + 1;
    }
    proof {
        assert(tv.take(tokens@.len() as int) =~= tv);
    }
    r
}

/// Build the level index from records of integer tokens.
///
/// Succeeds exactly when every token is a number that fits the machine and
/// the distinct values do not exceed `capacity`; the resulting buckets are
/// the records' elements inserted in reading order. Fails fast otherwise,
/// before any cover computation: a parse error at the first unreadable
/// token, a capacity error at the first token that would need one bit too
/// many.
#[verifier::rlimit(100)]
pub fn ingest(records: &Vec<Vec<String>>, capacity: usize) -> (r: Result<Graph, IngestError>)
    requires
        capacity <= usize::MAX - 128,
    ensures
        r is Ok <==> all_valid(records_view(records@)) && distinct_count(records_view(records@))
            <= capacity,
        r matches Ok(g) ==> g.wf() && g.levels() == build_levels(elems(records_view(records@))),
        r == Err::<Graph, IngestError>(IngestError::Parse) <==> parse_failure(
            records_view(records@),
            capacity as int,
        ),
        r == Err::<Graph, IngestError>(IngestError::Capacity) <==> capacity_failure(
            records_view(records@),
            capacity as int,
        ),
{
    let ghost rv = records_view(records@);
    let data = GraphData::new();
    let mut graph = Graph::new(data);
    let mut seen: Vec<u64> = Vec::new();
    let mut k: usize = 0;
    proof {
        assert(elems_pfx(rv, 0, seen@) =~= Seq::<NodeV>::empty());
    }
    while k < records.len()
        invariant
            rv == records_view(records@),
            capacity <= usize::MAX - 128,
            k <= records@.len(),
            rv.len() == records@.len(),
            graph.wf(),
            seen@ == first_seen(vals_upto(rv, k as int)),
            seen@.len() <= capacity,
            forall|k2: int, t2: int|
                0 <= k2 < k && 0 <= t2 < rv[k2].len() ==> tok_valid(#[trigger] rv[k2][t2]),
            forall|k2: int, t2: int|
                0 <= k2 < k && 0 <= t2 < rv[k2].len() ==> seen@.contains(
                    rec_vals(rv[k2])[t2],
                ),
            graph.levels() == build_levels(elems_pfx(rv, k as int, seen@)),
        decreases records@.len() - k,
    {
        let tokens = &records[k];
        let ghost kk = k as int;
        proof {
            assert(rv[kk] == tokens@.map_values(|t: String| t@));
            assert(prefix_vals(rv, kk, 0) =~= vals_upto(rv, kk));
        }
        let mut bs = BitSet::new(capacity);
        let mut t: usize = 0;
        proof {
            assert(record_bits(seen@, rec_vals(rv[kk]).take(0)) =~= Set::<int>::empty());
        }
        while t < tokens.len()
            invariant
                rv == records_view(records@),
                capacity <= usize::MAX - 128,
                k < records@.len(),
                kk == k as int,
                rv.len() == records@.len(),
                tokens@ == records@[kk]@,
                rv[kk] == tokens@.map_values(|t: String| t@),
                t <= tokens@.len(),
                rv[kk].len() == tokens@.len(),
                graph.wf(),
                seen@ == first_seen(prefix_vals(rv, kk, t as int)),
                seen@.len() <= capacity,
                forall|k2: int, t2: int|
                    0 <= k2 < k && 0 <= t2 < rv[k2].len() ==> tok_valid(#[trigger] rv[k2][t2]),
                forall|k2: int, t2: int|
                    0 <= k2 < k && 0 <= t2 < rv[k2].len() ==> seen@.contains(
                        rec_vals(rv[k2])[t2],
                    ),
                forall|t2: int| 0 <= t2 < t ==> tok_valid(#[trigger] rv[kk][t2]),
                forall|t2: int| 0 <= t2 < t ==> seen@.contains(rec_vals(rv[kk])[t2]),
                bs.wf(),
                bs.spec_capacity() >= capacity,
                bs@ == record_bits(seen@, rec_vals(rv[kk]).take(t as int)),
                graph.levels() == build_levels(elems_pfx(rv, kk, seen@)),
            decreases tokens@.len() - t,
        {
            let ghost tt = t as int;
            proof {
                assert(rv[kk][tt] == tokens@[tt]@);
            }
            let parsed = parse_token(tokens[t].as_str());
            if parsed.is_none() {
                proof {
                    assert(!tok_valid(rv[kk][tt]));
                    assert(valid_before(rv, kk, tt)) by {
                        assert forall|k2: int, t2: int|
                            0 <= k2 < rv.len() && 0 <= t2 < rv[k2].len() && lex_before(
                                k2,
                                t2,
                                kk,
                                tt,
                            ) implies tok_valid(#[trigger] rv[k2][t2]) by {}
                    }
                    assert(parse_failure(rv, capacity as int));
                    assert(!capacity_failure(rv, capacity as int)) by {
                        if capacity_failure(rv, capacity as int) {
                            let (k2, t2) = choose|k2: int, t2: int|
                                0 <= k2 < rv.len() && 0 <= t2 < rv[k2].len() && tok_valid(
                                    #[trigger] rv[k2][t2],
                                ) && valid_before(rv, k2, t2) && first_seen(
                                    prefix_vals(rv, k2, t2),
                                ).len() <= capacity as int && first_seen(
                                    prefix_vals(rv, k2, t2 + 1),
                                ).len() > capacity as int;
                            if k2 == kk && t2 == tt {
                                assert(false);
                            } else if lex_before(k2, t2, kk, tt) {
                                lemma_prefix_fs_le(rv, k2, t2 + 1, kk, tt);
                                assert(false);
                            } else {
                                assert(lex_before(kk, tt, k2, t2));
                                assert(tok_valid(rv[kk][tt]));
                                assert(false);
                            }
                        }
                    }
                }
                return Err(IngestError::Parse);
            }
            let v = parsed.unwrap();
            proof {
                assert(tok_valid(rv[kk][tt]));
                assert(v as int == numeral_val(rv[kk][tt]));
                assert(rec_vals(rv[kk])[tt] == v);
                assert(rec_vals(rv[kk]).take(tt + 1) =~= rec_vals(rv[kk]).take(tt).push(v));
                assert(prefix_vals(rv, kk, tt + 1) =~= prefix_vals(rv, kk, tt).push(v));
                lemma_fs_distinct(prefix_vals(rv, kk, tt));
                lemma_fs_contains(prefix_vals(rv, kk, tt), v);
                lemma_fs_push(prefix_vals(rv, kk, tt), v);
            }
            let found = index_of(&seen, v);
            match found {
                Some(idx) => {
                    proof {
                        bs.lemma_view_bounds();
                        assert(idx < capacity);
                    }
                    bs.mark(idx);
                    proof {
                        // the assignment is unchanged: the value was seen before
                        assert(seen@.contains(v)) by {
                            assert(seen@[idx as int] == v);
                        }
                        assert(seen@ == first_seen(prefix_vals(rv, kk, tt + 1)));
                        let tk1 = rec_vals(rv[kk]).take(tt + 1);
                        let tk0 = rec_vals(rv[kk]).take(tt);
                        let tgt = record_bits(seen@, tk1);
                        assert forall|i: int| bs@.contains(i) implies tgt.contains(i) by {
                            if i == idx {
                                assert(tk1[tt] == v);
                            } else {
                                let j = choose|j: int| 0 <= j < tk0.len() && tk0[j] == seen@[i];
                                assert(tk1[j] == seen@[i]);
                            }
                        }
                        assert forall|i: int| tgt.contains(i) implies bs@.contains(i) by {
                            let j = choose|j: int| 0 <= j < tk1.len() && tk1[j] == seen@[i];
                            if j < tt {
                                assert(tk0[j] == seen@[i]);
                            } else {
                                assert(seen@[i] == v);
                                if i != idx {
                                    assert(seen@[i] != seen@[idx as int]);
                                    assert(false);
                                }
                            }
                        }
                        assert(bs@ =~= tgt);
                    }
                },
                None => {
                    let idx = seen.len();
                    if idx >= capacity {
                        proof {
                            assert(seen@.len() == capacity);
                            assert(first_seen(prefix_vals(rv, kk, tt + 1)).len() == capacity
                                + 1);
                            assert(valid_before(rv, kk, tt)) by {
                                assert forall|k2: int, t2: int|
                                    0 <= k2 < rv.len() && 0 <= t2 < rv[k2].len() && lex_before(
                                        k2,
                                        t2,
                                        kk,
                                        tt,
                                    ) implies tok_valid(#[trigger] rv[k2][t2]) by {}
                            }
                            assert(capacity_failure(rv, capacity as int));
                            // the whole input then holds too many distinct values
                            lemma_capacity_exceeded(rv, kk, tt, capacity as int);
                            assert(!parse_failure(rv, capacity as int)) by {
                                if parse_failure(rv, capacity as int) {
                                    let (k2, t2) = choose|k2: int, t2: int|
                                        0 <= k2 < rv.len() && 0 <= t2 < rv[k2].len()
                                            && !tok_valid(#[trigger] rv[k2][t2]) && valid_before(
                                            rv,
                                            k2,
                                            t2,
                                        ) && first_seen(prefix_vals(rv, k2, t2)).len()
                                            <= capacity as int;
                                    if lex_before(k2, t2, kk, tt) || (k2 == kk && t2 == tt) {
                                        assert(tok_valid(rv[k2][t2]));
                                        assert(false);
                                    } else {
                                        assert(lex_before(kk, tt, k2, t2));
                                        lemma_prefix_fs_le(rv, kk, tt + 1, k2, t2);
                                        assert(false);
                                    }
                                }
                            }
                        }
                        return Err(IngestError::Capacity);
                    }
                    let ghost seen0 = seen@;
                    seen.push(v);
                    bs.mark(idx);
                    proof {
                        assert(seen@ == first_seen(prefix_vals(rv, kk, tt + 1)));
                        assert forall|x: u64| seen0.contains(x) implies seen@.contains(x) by {
                            let i = choose|i: int| 0 <= i < seen0.len() && seen0[i] == x;
                            assert(seen@[i] == x);
                        }
                        assert(seen@.contains(v)) by {
                            assert(seen@[seen0.len() as int] == v);
                        }
                        let tk1 = rec_vals(rv[kk]).take(tt + 1);
                        let tk0 = rec_vals(rv[kk]).take(tt);
                        let tgt = record_bits(seen@, tk1);
                        assert forall|i: int| bs@.contains(i) implies tgt.contains(i) by {
                            if i == idx {
                                assert(seen@[i] == v);
                                assert(tk1[tt] == v);
                            } else {
                                let j = choose|j: int| 0 <= j < tk0.len() && tk0[j] == seen0[i];
                                assert(tk1[j] == seen0[i]);
                                assert(seen@[i] == seen0[i]);
                            }
                        }
                        assert forall|i: int| tgt.contains(i) implies bs@.contains(i) by {
                            if i == idx {
                            } else {
                                assert(seen@[i] == seen0[i]);
                                let j = choose|j: int| 0 <= j < tk1.len() && tk1[j] == seen@[i];
                                if j < tt {
                                    assert(tk0[j] == seen0[i]);
                                } else {
                                    assert(seen0[i] == v);
                                    assert(seen0.contains(v));
                                    assert(false);
                                }
                            }
                        }
                        assert(bs@ =~= tgt);
                        // earlier elements keep their bits under the longer assignment
                        assert forall|j: int| 0 <= j < kk implies elems_pfx(rv, kk, seen@)[j]
                            == elems_pfx(rv, kk, seen0)[j] by {
                            assert forall|x: u64| rec_vals(rv[j]).contains(x) implies
                                seen0.contains(x) by {
                                let t2 = choose|t2: int|
                                    0 <= t2 < rec_vals(rv[j]).len() && rec_vals(rv[j])[t2] == x;
                            }
                            lemma_record_bits_grow(seen0, v, rec_vals(rv[j]));
                        }
                        assert(elems_pfx(rv, kk, seen@) =~= elems_pfx(rv, kk, seen0));
                    }
                },
            }
            t = t + 1;
        }
        proof {
            assert(rec_vals(rv[kk]).take(rv[kk].len() as int) =~= rec_vals(rv[kk]));
            assert(prefix_vals(rv, kk, rv[kk].len() as int) =~= vals_upto(rv, kk + 1));
        }
        let label = join_label(tokens);
        let node = Node::new(label, bs);
        proof {
            bs.lemma_card_lt_max();
        }
        graph.insert_node(node);
        proof {
            let e = elems_pfx(rv, kk + 1, seen@);
            assert(e.drop_last() =~= elems_pfx(rv, kk, seen@));
            assert(e.last() == node@);
            assert(build_levels(e) == insert_level(build_levels(e.drop_last()), e.last()));
        }
        k = k + 1;
    }
    proof {
        assert(all_valid(rv));
        assert(distinct_count(rv) <= capacity);
        assert(elems_pfx(rv, rv.len() as int, seen@) == elems(rv));
        assert(!parse_failure(rv, capacity as int)) by {
            if parse_failure(rv, capacity as int) {
                let (k2, t2) = choose|k2: int, t2: int|
                    0 <= k2 < rv.len() && 0 <= t2 < rv[k2].len() && !tok_valid(
                        #[trigger] rv[k2][t2],
                    ) && valid_before(rv, k2, t2) && first_seen(prefix_vals(rv, k2, t2)).len()
                        <= capacity as int;
                assert(tok_valid(rv[k2][t2]));
                assert(false);
            }
        }
        assert(!capacity_failure(rv, capacity as int)) by {
            if capacity_failure(rv, capacity as int) {
                let (k2, t2) = choose|k2: int, t2: int|
                    0 <= k2 < rv.len() && 0 <= t2 < rv[k2].len() && tok_valid(
                        #[trigger] rv[k2][t2],
                    ) && valid_before(rv, k2, t2) && first_seen(prefix_vals(rv, k2, t2)).len()
                        <= capacity as int && first_seen(prefix_vals(rv, k2, t2 + 1)).len()
                        > capacity as int;
                lemma_capacity_exceeded(rv, k2, t2, capacity as int);
                assert(false);
            }
        }
    }
    Ok(graph)
}

/// A capacity overrun at one token means the whole input holds more
/// distinct values than the capacity.
proof fn lemma_capacity_exceeded(rv: Seq<Seq<Seq<char>>>, k: int, t: int, capacity: int)
    requires
        0 <= k < rv.len(),
        0 <= t < rv[k].len(),
        first_seen(prefix_vals(rv, k, t + 1)).len() > capacity,
    ensures
        distinct_count(rv) > capacity,
{
    assert(vals_upto(rv, k + 1) =~= prefix_vals(rv, k, t + 1) + rec_vals(rv[k]).skip(t + 1)) by {
        assert(rec_vals(rv[k]).take(t + 1) + rec_vals(rv[k]).skip(t + 1) =~= rec_vals(rv[k]));
        assert(vals_upto(rv, k + 1) == vals_upto(rv, k) + rec_vals(rv[k]));
    }
    lemma_fs_len_concat(prefix_vals(rv, k, t + 1), rec_vals(rv[k]).skip(t + 1));
    lemma_upto_le(rv, k + 1, rv.len() as int);
}

/// Reading order is monotone for the count of distinct values: a token
/// position reached earlier has seen no more distinct values.
proof fn lemma_prefix_fs_le(rv: Seq<Seq<Seq<char>>>, k1: int, t1: int, k2: int, t2: int)
    requires
        0 <= k1 <= k2 < rv.len(),
        0 <= t1 <= rv[k1].len(),
        0 <= t2 <= rv[k2].len(),
        k1 < k2 || t1 <= t2,
    ensures
        first_seen(prefix_vals(rv, k1, t1)).len() <= first_seen(prefix_vals(rv, k2, t2)).len(),
{
    if k1 == k2 {
        assert(prefix_vals(rv, k2, t2) =~= prefix_vals(rv, k1, t1) + rec_vals(rv[k1]).take(
            t2,
        ).skip(t1)) by {
            assert(rec_vals(rv[k1]).take(t1) + rec_vals(rv[k1]).take(t2).skip(t1) =~= rec_vals(
                rv[k1],
            ).take(t2));
        }
        lemma_fs_len_concat(prefix_vals(rv, k1, t1), rec_vals(rv[k1]).take(t2).skip(t1));
    } else {
        assert(vals_upto(rv, k1 + 1) =~= prefix_vals(rv, k1, t1) + rec_vals(rv[k1]).skip(t1)) by {
            assert(rec_vals(rv[k1]).take(t1) + rec_vals(rv[k1]).skip(t1) =~= rec_vals(rv[k1]));
        }
        lemma_fs_len_concat(prefix_vals(rv, k1, t1), rec_vals(rv[k1]).skip(t1));
        lemma_upto_le(rv, k1 + 1, k2);
        assert(prefix_vals(rv, k2, 0) =~= vals_upto(rv, k2));
        lemma_fs_len_concat(vals_upto(rv, k2), rec_vals(rv[k2]).take(t2));
    }
}

proof fn lemma_upto_le(rv: Seq<Seq<Seq<char>>>, k1: int, k2: int)
    requires
        0 <= k1 <= k2 <= rv.len(),
    ensures
        first_seen(vals_upto(rv, k1)).len() <= first_seen(vals_upto(rv, k2)).len(),
    decreases k2 - k1,
{
    if k1 < k2 {
        lemma_upto_le(rv, k1, k2 - 1);
        lemma_fs_len_concat(vals_upto(rv, k2 - 1), rec_vals(rv[k2 - 1]));
    }
}

} // verus!
