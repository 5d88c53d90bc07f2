//! The diff pass over two byte sequences and the replay of its records.

use vstd::prelude::*;
use crate::difference::{
    copy_bytes, push_range, view_diffs, DiffRecord, Difference, DifferenceAction, Range,
};

verus! {

/// `data` after the single change `d`. An Insert whose start lies inside
/// `data` puts its whole value at that position; one at or past the end
/// appends it.
pub open spec fn apply_record(data: Seq<u8>, d: DiffRecord) -> Seq<u8> {
    match d.action {
        DifferenceAction::Replace => data.subrange(0, d.start as int) + d.value + data.subrange(
            (d.start + d.length) as int,
            data.len() as int,
        ),
        DifferenceAction::Insert => if d.start < data.len() {
            data.subrange(0, d.start as int) + d.value + data.subrange(
                d.start as int,
                data.len() as int,
            )
        } else {
            data + d.value
        },
        DifferenceAction::Delete => data.subrange(0, d.start as int) + data.subrange(
            (d.start + d.length) as int,
            data.len() as int,
        ),
    }
}

/// The length of a buffer of length `len` after the change `d`.
pub open spec fn applied_len(len: nat, d: DiffRecord) -> int {
    match d.action {
        DifferenceAction::Replace => len as int,
        DifferenceAction::Insert => (len + d.value.len()) as int,
        DifferenceAction::Delete => len - d.length,
    }
}

/// Whether `d` can be replayed on a buffer of length `len`: a Replace
/// overwrites bytes that exist with exactly as many, a Delete removes bytes
/// that exist, and the result's length fits in `usize`.
pub open spec fn record_applicable(len: nat, d: DiffRecord) -> bool {
    &&& match d.action {
        DifferenceAction::Replace => d.start + d.length <= len && d.value.len() == d.length,
        DifferenceAction::Insert => true,
        DifferenceAction::Delete => d.start + d.length <= len,
    }
    &&& applied_len(len, d) <= usize::MAX
}

/// The length of a buffer of length `len` after the changes `recs`.
pub open spec fn records_len(len: nat, recs: Seq<DiffRecord>) -> nat
    decreases recs.len(),
{
    if recs.len() == 0 {
        len
    } else {
        let l = records_len(len, recs.drop_last());
        if applied_len(l, recs.last()) < 0 {
            0
        } else {
            applied_len(l, recs.last()) as nat
        }
    }
}

/// Whether every change of `recs`, in order, can be replayed on a buffer
/// that starts with length `len`.
pub open spec fn records_applicable(len: nat, recs: Seq<DiffRecord>) -> bool
    decreases recs.len(),
{
    recs.len() == 0 || (records_applicable(len, recs.drop_last()) && record_applicable(
        records_len(len, recs.drop_last()),
        recs.last(),
    ))
}

/// `data` after the changes `recs`, in order.
pub open spec fn apply_records(data: Seq<u8>, recs: Seq<DiffRecord>) -> Seq<u8>
    decreases recs.len(),
{
    if recs.len() == 0 {
        data
    } else {
        apply_record(apply_records(data, recs.drop_last()), recs.last())
    }
}

/// The state of the diff pass between two positions.
pub struct DiffScan {
    /// The records so far; only the last may still be open.
    pub recs: Seq<DiffRecord>,
    /// How many equal bytes in a row follow the open record.
    pub same: nat,
    /// Those equal bytes.
    pub buf: Seq<u8>,
}

pub open spec fn has_open(recs: Seq<DiffRecord>) -> bool {
    recs.len() > 0 && recs.last().open
}

pub open spec fn closed(d: DiffRecord) -> DiffRecord {
    DiffRecord { action: d.action, start: d.start, length: d.length, value: d.value, open: false }
}

pub open spec fn close_last(recs: Seq<DiffRecord>) -> Seq<DiffRecord> {
    if recs.len() == 0 {
        recs
    } else {
        recs.update(recs.len() - 1, closed(recs.last()))
    }
}

pub open spec fn opened(action: DifferenceAction, i: int, b: u8) -> DiffRecord {
    DiffRecord { action, start: i as nat, length: 1, value: seq![b], open: true }
}

pub open spec fn extended(d: DiffRecord, extra: Seq<u8>) -> DiffRecord {
    DiffRecord {
        action: d.action,
        start: d.start,
        length: d.length + extra.len(),
        value: d.value + extra,
        open: d.open,
    }
}

/// One position `i` of the diff pass. A mismatch inside `old` extends the
/// open record, first taking in the equal bytes held back, or opens a
/// Replace. A match inside `old` is held back while a record is open, and the
/// third in a row closes it. Past the end of `old`, bytes extend the open
/// Insert or open one, closing any other record.
pub open spec fn diff_step(old: Seq<u8>, new: Seq<u8>, st: DiffScan, i: int) -> DiffScan {
    let b = new[i];
    let recs = st.recs;
    if i < old.len() {
        if old[i] != b {
            if has_open(recs) {
                DiffScan {
                    recs: recs.update(recs.len() - 1, extended(recs.last(), st.buf.push(b))),
                    same: 0,
                    buf: Seq::empty(),
                }
            } else {
                DiffScan {
                    recs: recs.push(opened(DifferenceAction::Replace, i, b)),
                    same: st.same,
                    buf: st.buf,
                }
            }
        } else if has_open(recs) {
            if st.same <= 1 {
                DiffScan { recs, same: st.same + 1, buf: st.buf.push(b) }
            } else {
                DiffScan { recs: close_last(recs), same: 0, buf: Seq::empty() }
            }
        } else {
            st
        }
    } else if has_open(recs) && recs.last().action == DifferenceAction::Insert {
        DiffScan {
            recs: recs.update(recs.len() - 1, extended(recs.last(), seq![b])),
            same: st.same,
            buf: st.buf,
        }
    } else if has_open(recs) {
        DiffScan {
            recs: close_last(recs).push(opened(DifferenceAction::Insert, i, b)),
            same: 0,
            buf: Seq::empty(),
        }
    } else {
        DiffScan {
            recs: recs.push(opened(DifferenceAction::Insert, i, b)),
            same: st.same,
            buf: st.buf,
        }
    }
}

/// The state of the diff pass after the first `n` positions of `new`.
pub open spec fn diff_scan(old: Seq<u8>, new: Seq<u8>, n: nat) -> DiffScan
    decreases n,
{
    if n == 0 {
        DiffScan { recs: Seq::empty(), same: 0, buf: Seq::empty() }
    } else {
        diff_step(old, new, diff_scan(old, new, (n - 1) as nat), n - 1)
    }
}

/// The records that the diff of `old` and `new` yields: those of the pass,
/// all closed, then one Delete of the tail where `old` is longer.
pub open spec fn diff_records(old: Seq<u8>, new: Seq<u8>) -> Seq<DiffRecord> {
    let recs = close_last(diff_scan(old, new, new.len()).recs);
    if old.len() > new.len() {
        recs.push(
            DiffRecord {
                action: DifferenceAction::Delete,
                start: new.len(),
                length: (old.len() - new.len()) as nat,
                value: Seq::empty(),
                open: false,
            },
        )
    } else {
        recs
    }
}

pub open spec fn min(a: int, b: int) -> int {
    if a < b {
        a
    } else {
        b
    }
}

/// What holds of the pass after position `i`.
pub open spec fn scan_inv(old: Seq<u8>, new: Seq<u8>, i: int, st: DiffScan) -> bool {
    let recs = st.recs;
    let l = old.len() as int;
    &&& 0 <= i <= new.len()
    &&& st.same <= 2
    &&& st.buf.len() == st.same
    &&& !has_open(recs) ==> st.same == 0
    &&& st.same > 0 ==> i <= l && st.buf == new.subrange(i - st.same, i)
    &&& forall|k: int| 0 <= k < recs.len() - 1 ==> !(#[trigger] recs[k]).open
    &&& forall|k: int|
        0 <= k < recs.len() ==> {
            let r = #[trigger] recs[k];
            &&& r.action != DifferenceAction::Delete
            &&& r.value.len() == r.length
            &&& r.length >= 1
            &&& r.start + r.length <= i
            &&& r.action == DifferenceAction::Insert ==> k == recs.len() - 1 && r.open && r.start
                == l && r.start + r.length == i
        }
    &&& has_open(recs) && recs.last().action == DifferenceAction::Replace ==> recs.last().start
        + recs.last().length + st.same == i && i <= l
    &&& i > l ==> has_open(recs) && recs.last().action == DifferenceAction::Insert
    &&& recs.len() > 0 ==> apply_records(old, recs.drop_last()).len() == l
    &&& records_applicable(l as nat, recs)
    &&& apply_records(old, recs) == new.subrange(0, i) + old.subrange(min(i, l), l)
}

proof fn lemma_records_len(data: Seq<u8>, recs: Seq<DiffRecord>)
    requires
        records_applicable(data.len(), recs),
    ensures
        apply_records(data, recs).len() == records_len(data.len(), recs),
    decreases recs.len(),
{
    if recs.len() > 0 {
        lemma_records_len(data, recs.drop_last());
    }
}

proof fn lemma_push(data: Seq<u8>, recs: Seq<DiffRecord>, x: DiffRecord)
    ensures
        apply_records(data, recs.push(x)) == apply_record(apply_records(data, recs), x),
        records_applicable(data.len(), recs.push(x)) == (records_applicable(data.len(), recs)
            && record_applicable(records_len(data.len(), recs), x)),
{
    assert(recs.push(x).drop_last() =~= recs);
}

proof fn lemma_update_last(data: Seq<u8>, recs: Seq<DiffRecord>, x: DiffRecord)
    requires
        recs.len() > 0,
    ensures
        apply_records(data, recs.update(recs.len() - 1, x)) == apply_record(
            apply_records(data, recs.drop_last()),
            x,
        ),
        records_applicable(data.len(), recs.update(recs.len() - 1, x)) == (records_applicable(
            data.len(),
            recs.drop_last(),
        ) && record_applicable(records_len(data.len(), recs.drop_last()), x)),
        records_len(data.len(), recs.update(recs.len() - 1, x)) == records_len(
            data.len(),
            recs.push(x).drop_last().drop_last().push(x),
        ),
{
    let u = recs.update(recs.len() - 1, x);
    assert(u.drop_last() =~= recs.drop_last());
    assert(recs.push(x).drop_last().drop_last().push(x) =~= u);
}

proof fn lemma_close_last(data: Seq<u8>, recs: Seq<DiffRecord>)
    ensures
        apply_records(data, close_last(recs)) == apply_records(data, recs),
        records_applicable(data.len(), close_last(recs)) == records_applicable(data.len(), recs),
        close_last(recs).len() == recs.len(),
        recs.len() > 0 ==> close_last(recs).drop_last() == recs.drop_last(),
{
    if recs.len() > 0 {
        lemma_update_last(data, recs, closed(recs.last()));
        assert(close_last(recs).drop_last() =~= recs.drop_last());
    }
}

proof fn lemma_scan_start(old: Seq<u8>, new: Seq<u8>)
    ensures
        scan_inv(old, new, 0, diff_scan(old, new, 0)),
{
    assert(old.subrange(0, old.len() as int) =~= old);
    assert(new.subrange(0, 0) + old.subrange(0, old.len() as int) =~= old);
}

#[verifier::rlimit(60)]
proof fn lemma_scan_step(old: Seq<u8>, new: Seq<u8>, i: int)
    requires
        0 <= i < new.len(),
        old.len() <= usize::MAX,
        new.len() <= usize::MAX,
        scan_inv(old, new, i, diff_scan(old, new, i as nat)),
    ensures
        scan_inv(old, new, i + 1, diff_scan(old, new, (i + 1) as nat)),
{
    let st = diff_scan(old, new, i as nat);
    let st2 = diff_scan(old, new, (i + 1) as nat);
    assert(st2 == diff_step(old, new, st, i));
    let recs = st.recs;
    let l = old.len() as int;
    let b = new[i];
    let p = apply_records(old, recs);
    let target = new.subrange(0, i + 1) + old.subrange(min(i + 1, l), l);
    if i < l {
        assert(p.len() == l);
        if old[i] != b {
            if has_open(recs) {
                let last = recs.last();
                let x = extended(last, st.buf.push(b));
                let q = apply_records(old, recs.drop_last());
                lemma_update_last(old, recs, x);
                lemma_records_len(old, recs.drop_last());
                assert(last.action == DifferenceAction::Replace);
                let s = last.start as int;
                let e = s + last.length;
                assert(p == q.subrange(0, s) + last.value + q.subrange(e, l));
                assert(p.subrange(0, s) =~= q.subrange(0, s));
                assert(p.subrange(s, e) =~= last.value);
                assert(p.subrange(i + 1, l) =~= q.subrange(i + 1, l));
                assert(p.subrange(0, s) =~= new.subrange(0, s));
                assert(p.subrange(s, e) =~= new.subrange(s, e));
                assert(p.subrange(i + 1, l) =~= old.subrange(i + 1, l));
                assert(st.same > 0 ==> st.buf =~= new.subrange(e, i));
                assert(st.same == 0 ==> st.buf =~= new.subrange(e, i));
                let patched = apply_record(q, x);
                assert(patched =~= q.subrange(0, s) + (last.value + st.buf.push(b)) + q.subrange(
                    i + 1,
                    l,
                ));
                assert(patched =~= target);
                assert(st2.recs.drop_last() =~= recs.drop_last());
            } else {
                let x = opened(DifferenceAction::Replace, i, b);
                lemma_push(old, recs, x);
                lemma_records_len(old, recs);
                assert(apply_record(p, x) =~= target);
                assert(st2.recs.drop_last() =~= recs);
            }
        } else {
            assert(target =~= p);
            if has_open(recs) {
                if st.same <= 1 {
                    assert(st2.buf =~= new.subrange(i + 1 - st2.same, i + 1));
                } else {
                    lemma_close_last(old, recs);
                }
            }
        }
    } else {
        assert(p =~= new.subrange(0, i));
        if has_open(recs) && recs.last().action == DifferenceAction::Insert {
            let last = recs.last();
            let x = extended(last, seq![b]);
            let q = apply_records(old, recs.drop_last());
            lemma_update_last(old, recs, x);
            lemma_records_len(old, recs.drop_last());
            assert(p == q + last.value);
            assert(apply_record(q, x) =~= target);
            assert(st2.recs.drop_last() =~= recs.drop_last());
        } else {
            assert(i == l);
            let x = opened(DifferenceAction::Insert, i, b);
            let c = close_last(recs);
            lemma_close_last(old, recs);
            lemma_push(old, c, x);
            lemma_records_len(old, c);
            assert(apply_record(p, x) =~= target);
            assert(st2.recs.drop_last() =~= c);
        }
    }
}

proof fn lemma_scan_inv(old: Seq<u8>, new: Seq<u8>, n: nat)
    requires
        n <= new.len(),
        old.len() <= usize::MAX,
        new.len() <= usize::MAX,
    ensures
        scan_inv(old, new, n as int, diff_scan(old, new, n)),
    decreases n,
{
    if n == 0 {
        lemma_scan_start(old, new);
    } else {
        lemma_scan_inv(old, new, (n - 1) as nat);
        lemma_scan_step(old, new, n - 1);
    }
}

/// Replaying the diff of `old` and `new` on `old` is possible and gives
/// `new` back.
pub proof fn lemma_diff_round_trip(old: Seq<u8>, new: Seq<u8>)
    requires
        old.len() <= usize::MAX,
        new.len() <= usize::MAX,
    ensures
        records_applicable(old.len(), diff_records(old, new)),
        apply_records(old, diff_records(old, new)) == new,
{
    lemma_scan_inv(old, new, new.len());
    let recs = diff_scan(old, new, new.len()).recs;
    let c = close_last(recs);
    lemma_close_last(old, recs);
    let p = apply_records(old, c);
    if old.len() > new.len() {
        let x = diff_records(old, new).last();
        lemma_push(old, c, x);
        lemma_records_len(old, c);
        assert(diff_records(old, new) == c.push(x));
        assert(apply_record(p, x) =~= new);
    } else {
        assert(p =~= new);
    }
}

/// Every record of a diff is closed, carries as many bytes as its range
/// covers (none for a Delete), and has a start and length that fit in
/// `usize`.
pub proof fn lemma_diff_records_shape(old: Seq<u8>, new: Seq<u8>)
    requires
        old.len() <= usize::MAX,
        new.len() <= usize::MAX,
    ensures
        forall|k: int|
            0 <= k < diff_records(old, new).len() ==> {
                let r = #[trigger] diff_records(old, new)[k];
                &&& !r.open
                &&& r.start <= usize::MAX
                &&& r.length <= usize::MAX
                &&& if r.action == DifferenceAction::Delete {
                    r.value.len() == 0
                } else {
                    r.value.len() == r.length
                }
            },
{
    lemma_scan_inv(old, new, new.len());
    let recs = diff_scan(old, new, new.len()).recs;
    let c = close_last(recs);
    assert forall|k: int| 0 <= k < c.len() implies {
        let r = #[trigger] c[k];
        &&& !r.open
        &&& r.start <= usize::MAX
        &&& r.length <= usize::MAX
        &&& r.action != DifferenceAction::Delete
        &&& r.value.len() == r.length
    } by {
        assert(recs[k].start + recs[k].length <= new.len());
    }
}

proof fn lemma_scan_identical(x: Seq<u8>, n: nat)
    requires
        n <= x.len(),
    ensures
        diff_scan(x, x, n) == (DiffScan { recs: Seq::empty(), same: 0, buf: Seq::empty() }),
    decreases n,
{
    if n > 0 {
        lemma_scan_identical(x, (n - 1) as nat);
    }
}

/// The diff of a sequence with itself has no records.
pub proof fn lemma_diff_identical(x: Seq<u8>)
    ensures
        diff_records(x, x).len() == 0,
{
    lemma_scan_identical(x, x.len());
}

proof fn lemma_applicable_prefix(len: nat, recs: Seq<DiffRecord>, j: int)
    requires
        records_applicable(len, recs),
        0 <= j <= recs.len(),
    ensures
        records_applicable(len, recs.take(j)),
    decreases recs.len(),
{
    if j == recs.len() {
        assert(recs.take(j) =~= recs);
    } else {
        lemma_applicable_prefix(len, recs.drop_last(), j);
        assert(recs.drop_last().take(j) =~= recs.take(j));
    }
}

/// `src[.. start] + insert + src[start + removed ..]`.
fn splice(src: &Vec<u8>, start: usize, removed: usize, insert: &[u8]) -> (r: Vec<u8>)
    requires
        start + removed <= src@.len(),
        src@.len() - removed + insert@.len() <= usize::MAX,
    ensures
        r@ == src@.subrange(0, start as int) + insert@ + src@.subrange(
            start + removed,
            src@.len() as int,
        ),
{
    let len = src.len();
    let mut out: Vec<u8> = Vec::new();
    push_range(&mut out, src.as_slice(), 0, start);
    push_range(&mut out, insert, 0, insert.len());
    push_range(&mut out, src.as_slice(), start + removed, src.len());
    assert(insert@.subrange(0, insert@.len() as int) =~= insert@);
    out
}

/// Replays one change on `data`.
fn apply_one(data: &Vec<u8>, d: &Difference) -> (r: Vec<u8>)
    requires
        record_applicable(data@.len(), d@),
    ensures
        r@ == apply_record(data@, d@),
{
    match d.action {
        DifferenceAction::Replace => splice(data, d.range.start, d.range.length, d.value.as_slice()),
        DifferenceAction::Insert => {
            if d.range.start < data.len() {
                splice(data, d.range.start, 0, d.value.as_slice())
            } else {
                let r = splice(data, data.len(), 0, d.value.as_slice());
                assert(r@ =~= data@ + d.value@);
                r
            }
        },
        DifferenceAction::Delete => {
            let empty: Vec<u8> = Vec::new();
            let r = splice(data, d.range.start, d.range.length, empty.as_slice());
            assert(r@ =~= apply_record(data@, d@));
            r
        },
    }
}

/// Whether `diffs` can be replayed, in order, on a buffer of length `len`.
pub fn diffs_applicable(len: usize, diffs: &[Difference]) -> (r: bool)
    ensures
        r == records_applicable(len as nat, view_diffs(diffs@)),
{
    let ghost recs = view_diffs(diffs@);
    let mut cur: usize = len;
    let mut k: usize = 0;
    while k < diffs.len()
        invariant
            recs == view_diffs(diffs@),
            k <= diffs@.len(),
            records_applicable(len as nat, recs.take(k as int)),
            cur as nat == records_len(len as nat, recs.take(k as int)),
        decreases diffs@.len() - k,
    {
        let d = &diffs[k];
        proof {
            assert(recs.take(k + 1).drop_last() =~= recs.take(k as int));
            assert(recs.take(k + 1).last() == d@);
        }
        let ok = match d.action {
            DifferenceAction::Replace => d.range.start <= cur && d.range.length <= cur
                - d.range.start && d.value.len() == d.range.length,
            DifferenceAction::Insert => d.value.len() <= usize::MAX - cur,
            DifferenceAction::Delete => d.range.start <= cur && d.range.length <= cur
                - d.range.start,
        };
        if !ok {
            proof {
                if k + 1 < recs.len() {
                    if records_applicable(len as nat, recs) {
                        lemma_applicable_prefix(len as nat, recs, k + 1);
                    }
                } else {
                    assert(recs.take(k + 1) =~= recs);
                }
            }
            return false;
        }
        cur = match d.action {
            DifferenceAction::Replace => cur,
            DifferenceAction::Insert => cur + d.value.len(),
            DifferenceAction::Delete => cur - d.range.length,
        };
        k = k + 1;
    }
    assert(recs.take(k as int) =~= recs);
    true
}

fn single(b: u8) -> (r: Vec<u8>)
    ensures
        r@ == seq![b],
{
    let mut v: Vec<u8> = Vec::new();
    v.push(b);
    assert(v@ =~= seq![b]);
    v
}

/// The diff pass, over plain values.
pub struct DataDifference {}

impl DataDifference {
    /// The records that turn `old_data` into `new_data`: one left-to-right
    /// pass that aligns positions, not a shortest edit script.
    pub fn diff(old_data: &[u8], new_data: &[u8]) -> (r: Vec<Difference>)
        ensures
            view_diffs(r@) == diff_records(old_data@, new_data@),
    {
        let ghost old = old_data@;
        let ghost new = new_data@;
        let old_len = old_data.len();
        let new_len = new_data.len();
        let mut differences: Vec<Difference> = Vec::new();
        let mut same_count: usize = 0;
        let mut same_byte_buffer: Vec<u8> = Vec::new();
        let mut i: usize = 0;
        proof {
            lemma_scan_inv(old, new, 0);
            assert(view_diffs(differences@) =~= diff_scan(old, new, 0).recs);
        }
        while i < new_len
            invariant
                old == old_data@,
                new == new_data@,
                old_len == old.len(),
                new_len == new.len(),
                i <= new_len,
                scan_inv(old, new, i as int, diff_scan(old, new, i as nat)),
                view_diffs(differences@) == diff_scan(old, new, i as nat).recs,
                same_count == diff_scan(old, new, i as nat).same,
                same_byte_buffer@ == diff_scan(old, new, i as nat).buf,
            decreases new_len - i,
        {
            proof {
                lemma_scan_inv(old, new, (i + 1) as nat);
            }
            let ghost st = diff_scan(old, new, i as nat);
            let ghost recs = st.recs;
            let b = new_data[i];
            let n = differences.len();
            let open = n > 0 && differences[n - 1].is_open;
            assert(open == has_open(recs));
            if i < old_len {
                if old_data[i] != b {
                    if open {
                        let mut d = differences.pop().unwrap();
                        push_range(&mut d.value, same_byte_buffer.as_slice(), 0, same_count);
                        d.value.push(b);
                        d.range.length = d.range.length + same_count + 1;
                        differences.push(d);
                        same_byte_buffer = Vec::new();
                        same_count = 0;
                        proof {
                            assert(st.buf.subrange(0, st.buf.len() as int) =~= st.buf);
                            assert(view_diffs(differences@) =~= recs.update(
                                recs.len() - 1,
                                extended(recs.last(), st.buf.push(b)),
                            ));
                        }
                    } else {
                        differences.push(
                            Difference {
                                action: DifferenceAction::Replace,
                                range: Range::new(i, 1),
                                value: single(b),
                                is_open: true,
                            },
                        );
                        proof {
                            assert(view_diffs(differences@) =~= recs.push(
                                opened(DifferenceAction::Replace, i as int, b),
                            ));
                        }
                    }
                } else if open {
                    if same_count <= 1 {
                        same_count = same_count + 1;
                        same_byte_buffer.push(b);
                    } else {
                        let mut d = differences.pop().unwrap();
                        d.is_open = false;
                        differences.push(d);
                        same_count = 0;
                        same_byte_buffer = Vec::new();
                        proof {
                            assert(view_diffs(differences@) =~= close_last(recs));
                        }
                    }
                }
            } else if open && differences[n - 1].action == DifferenceAction::Insert {
                let mut d = differences.pop().unwrap();
                d.value.push(b);
                d.range.length = d.range.length + 1;
                differences.push(d);
                proof {
                    assert(recs.last().value + seq![b] =~= recs.last().value.push(b));
                    assert(view_diffs(differences@) =~= recs.update(
                        recs.len() - 1,
                        extended(recs.last(), seq![b]),
                    ));
                }
            } else {
                if open {
                    let mut d = differences.pop().unwrap();
                    d.is_open = false;
                    differences.push(d);
                    same_count = 0;
                    same_byte_buffer = Vec::new();
                    proof {
                        assert(view_diffs(differences@) =~= close_last(recs));
                    }
                }
                let ghost before = view_diffs(differences@);
                differences.push(
                    Difference {
                        action: DifferenceAction::Insert,
                        range: Range::new(i, 1),
                        value: single(b),
                        is_open: true,
                    },
                );
                proof {
                    assert(view_diffs(differences@) =~= before.push(
                        opened(DifferenceAction::Insert, i as int, b),
                    ));
                }
            }
            i = i + 1;
        }
        let n = differences.len();
        if n > 0 {
            let mut d = differences.pop().unwrap();
            d.is_open = false;
            differences.push(d);
        }
        proof {
            assert(view_diffs(differences@) =~= close_last(diff_scan(old, new, new.len()).recs));
        }
        if old_len > new_len {
            let ghost before = view_diffs(differences@);
            differences.push(
                Difference {
                    action: DifferenceAction::Delete,
                    range: Range::new(new_len, old_len - new_len),
                    value: Vec::new(),
                    is_open: false,
                },
            );
            proof {
                assert(view_diffs(differences@) =~= diff_records(old, new));
            }
        }
        differences
    }

    /// Replays `diff`, in order, on a copy of `data`.
    pub fn apply_diff(data: &[u8], diff: &[Difference]) -> (r: Vec<u8>)
        requires
            records_applicable(data@.len(), view_diffs(diff@)),
        ensures
            r@ == apply_records(data@, view_diffs(diff@)),
    {
        let ghost recs = view_diffs(diff@);
        let mut cur = copy_bytes(data);
        let mut k: usize = 0;
        assert(recs.take(0) =~= Seq::<DiffRecord>::empty());
        while k < diff.len()
            invariant
                recs == view_diffs(diff@),
                k <= diff@.len(),
                records_applicable(data@.len(), recs),
                cur@ == apply_records(data@, recs.take(k as int)),
            decreases diff@.len() - k,
        {
            proof {
                lemma_applicable_prefix(data@.len(), recs, k + 1);
                assert(recs.take(k + 1).drop_last() =~= recs.take(k as int));
                lemma_records_len(data@, recs.take(k as int));
            }
            cur = apply_one(&cur, &diff[k]);
            k = k + 1;
        }
        assert(recs.take(k as int) =~= recs);
        cur
    }
}

} // verus!
