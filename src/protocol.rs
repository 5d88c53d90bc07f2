//! Why a patch brings a peer that holds the sender's previous state to the
//! sender's new state.

use vstd::prelude::*;
use crate::difference::{lemma_record_round_trip, parse_record, record_bytes, DiffRecord};
use crate::data_difference::{diff_records, lemma_diff_round_trip, records_applicable, apply_records};
use crate::engine::{
    apply_ok_with, embedded_crc, header_ok, history_name, is_removed, patch_bytes,
    patched_fields, patched_histories, removal_segment, removals_upto, rename_segment,
    renamed_all, renames_upto, slot_bytes, stream_of, value_segment, values_upto,
    entry_applicable, patched_field, patched_history, renamed, all_applicable,
};
use crate::entry::{EntryModel, HistoryModel};
use crate::stream::{
    empty_entry, framable, framed_record, framed_records, frame_at, lemma_framed_round_trip,
    no_entries, parse_from, parse_records, parse_stream, touch, with_diff, with_rename,
    TOKEN_INDEX, TOKEN_REMOVE, TOKEN_RENAME,
};
use crate::varint::{is_tag_literal, lemma_varint_round_trip, varint_bytes};

verus! {

/// A record whose framed form cannot be mistaken for a control token.
pub open spec fn stream_safe(d: DiffRecord) -> bool {
    &&& framable(d)
    &&& record_bytes(d).len() != TOKEN_INDEX as nat
    &&& record_bytes(d).len() != TOKEN_REMOVE as nat
    &&& record_bytes(d).len() != TOKEN_RENAME as nat
}

/// `t` after the records `recs` are appended, in order, to slot `k`.
pub open spec fn with_diffs(t: Seq<Option<EntryModel>>, k: u8, recs: Seq<DiffRecord>) -> Seq<
    Option<EntryModel>,
>
    decreases recs.len(),
{
    if recs.len() == 0 {
        t
    } else {
        with_diffs(with_diff(t, k, recs[0]), k, recs.subrange(1, recs.len() as int))
    }
}

/// The parse of `x` from its start.
pub open spec fn pstream(x: Seq<u8>, index: u8, t: Seq<Option<EntryModel>>) -> Option<
    Seq<Option<EntryModel>>,
> {
    parse_from(x, 0, index, t)
}

/// Where the selected index does not matter: at the end or at a header.
pub open spec fn at_boundary(x: Seq<u8>) -> bool {
    x.len() == 0 || x[0] == TOKEN_INDEX
}

#[verifier::spinoff_prover]
proof fn lemma_frame_shift(s: Seq<u8>, i: int)
    requires
        0 <= i < s.len(),
    ensures
        ({
            let x = s.subrange(i, s.len() as int);
            match frame_at(s, i) {
                Some(f) => frame_at(x, 0) == Some((f.0 - i, f.1 - i)) && s.subrange(f.0, f.1)
                    == x.subrange(f.0 - i, f.1 - i) && s.subrange(f.1, s.len() as int)
                    == x.subrange(f.1 - i, x.len() as int),
                None => frame_at(x, 0) is None,
            }
        }),
{
    let x = s.subrange(i, s.len() as int);
    assert(x.subrange(0, x.len() as int) =~= s.subrange(i, s.len() as int));
    match frame_at(s, i) {
        Some(f) => {
            assert(s.subrange(f.0, f.1) =~= x.subrange(f.0 - i, f.1 - i));
            assert(s.subrange(f.1, s.len() as int) =~= x.subrange(f.1 - i, x.len() as int));
        },
        None => {},
    }
}

/// Parsing from position `i` is parsing what follows `i`.
#[verifier::spinoff_prover]
#[verifier::rlimit(100)]
proof fn lemma_shift(s: Seq<u8>, i: int, index: u8, t: Seq<Option<EntryModel>>)
    requires
        0 <= i <= s.len(),
    ensures
        parse_from(s, i, index, t) == pstream(s.subrange(i, s.len() as int), index, t),
    decreases s.len() - i,
{
    let x = s.subrange(i, s.len() as int);
    if i < s.len() {
        assert(x[0] == s[i]);
        if s[i] == TOKEN_INDEX {
            if i + 1 < s.len() {
                assert(x[1] == s[i + 1]);
                lemma_shift(s, i + 2, s[i + 1], touch(t, s[i + 1]));
                lemma_shift(x, 2, s[i + 1], touch(t, s[i + 1]));
                assert(s.subrange(i + 2, s.len() as int) =~= x.subrange(2, x.len() as int));
            }
        } else if s[i] == TOKEN_REMOVE {
            let t2 = t.update(
                index as int,
                Some(EntryModel { remove: true, diffs: Seq::empty(), rename: None }),
            );
            lemma_shift(s, i + 1, index, t2);
            lemma_shift(x, 1, index, t2);
            assert(s.subrange(i + 1, s.len() as int) =~= x.subrange(1, x.len() as int));
        } else if s[i] == TOKEN_RENAME {
            if i + 1 < s.len() {
                lemma_frame_shift(s, i + 1);
                let y = s.subrange(i + 1, s.len() as int);
                lemma_frame_shift(x, 1);
                assert(x.subrange(1, x.len() as int) =~= y);
                match frame_at(s, i + 1) {
                    Some(f) => {
                        match parse_records(s.subrange(f.0, f.1)) {
                            Some(recs) => {
                                let t2 = with_rename(t, index, recs);
                                lemma_shift(s, f.1, index, t2);
                                lemma_shift(x, f.1 - i, index, t2);
                                assert(s.subrange(f.0, f.1) =~= x.subrange(f.0 - i, f.1 - i));
                                assert(s.subrange(f.1, s.len() as int) =~= x.subrange(
                                    f.1 - i,
                                    x.len() as int,
                                ));
                            },
                            None => {
                                assert(s.subrange(f.0, f.1) =~= x.subrange(f.0 - i, f.1 - i));
                            },
                        }
                    },
                    None => {},
                }
            } else {
                assert(s.subrange(i + 1, s.len() as int) =~= x.subrange(1, x.len() as int));
            }
        } else {
            lemma_frame_shift(s, i);
            match frame_at(s, i) {
                Some(f) => {
                    if f.1 > i {
                        match parse_record(s.subrange(f.0, f.1)) {
                            Some(r) => {
                                let t2 = with_diff(t, index, r);
                                lemma_shift(s, f.1, index, t2);
                                lemma_shift(x, f.1 - i, index, t2);
                            },
                            None => {},
                        }
                    }
                },
                None => {},
            }
        }
    }
}

#[verifier::spinoff_prover]
proof fn lemma_boundary(x: Seq<u8>, a: u8, b: u8, t: Seq<Option<EntryModel>>)
    requires
        at_boundary(x),
    ensures
        pstream(x, a, t) == pstream(x, b, t),
{
}

#[verifier::spinoff_prover]
#[verifier::rlimit(100)]
proof fn lemma_one_record(r: DiffRecord, after: Seq<u8>, k: u8, t: Seq<Option<EntryModel>>)
    requires
        stream_safe(r),
        framed_record(r).len() + after.len() <= usize::MAX,
    ensures
        pstream(framed_record(r) + after, k, t) == pstream(after, k, with_diff(t, k, r)),
{
    let rb = record_bytes(r);
    let n = rb.len();
    let x = framed_record(r) + after;
    assert(x =~= varint_bytes(n) + (rb + after));
    lemma_varint_round_trip(n, rb + after);
    let w = varint_bytes(n).len();
    assert(x[0] == varint_bytes(n)[0]);
    assert(x.subrange(0, x.len() as int) =~= x);
    assert(frame_at(x, 0) == Some((w as int, (w + n) as int)));
    assert(x.subrange(w as int, (w + n) as int) =~= rb);
    lemma_record_round_trip(r);
    let t2 = with_diff(t, k, r);
    lemma_shift(x, (w + n) as int, k, t2);
    assert(x.subrange((w + n) as int, x.len() as int) =~= after);
}

/// A run of framed stream-safe records adds them, in order, to the selected
/// field.
#[verifier::spinoff_prover]
proof fn lemma_records_run(
    recs: Seq<DiffRecord>,
    rest: Seq<u8>,
    k: u8,
    t: Seq<Option<EntryModel>>,
)
    requires
        forall|j: int| 0 <= j < recs.len() ==> stream_safe(#[trigger] recs[j]),
        framed_records(recs).len() + rest.len() <= usize::MAX,
    ensures
        pstream(framed_records(recs) + rest, k, t) == pstream(rest, k, with_diffs(t, k, recs)),
    decreases recs.len(),
{
    if recs.len() == 0 {
        assert(framed_records(recs) + rest =~= rest);
    } else {
        crate::stream::lemma_framed_split(recs);
        let r = recs[0];
        let tail = recs.subrange(1, recs.len() as int);
        let after = framed_records(tail) + rest;
        assert(framed_records(recs) + rest =~= framed_record(r) + after);
        assert(stream_safe(r));
        lemma_one_record(r, after, k, t);
        assert forall|j: int| 0 <= j < tail.len() implies stream_safe(#[trigger] tail[j]) by {
            assert(tail[j] == recs[j + 1]);
        }
        lemma_records_run(tail, rest, k, with_diff(t, k, r));
    }
}

#[verifier::spinoff_prover]
proof fn lemma_with_diffs(t: Seq<Option<EntryModel>>, k: u8, recs: Seq<DiffRecord>)
    requires
        t.len() == 256,
        t[k as int] is Some,
    ensures
        with_diffs(t, k, recs) == t.update(
            k as int,
            Some(
                EntryModel {
                    remove: t[k as int].unwrap().remove,
                    diffs: t[k as int].unwrap().diffs + recs,
                    rename: t[k as int].unwrap().rename,
                },
            ),
        ),
    decreases recs.len(),
{
    let e = t[k as int].unwrap();
    if recs.len() == 0 {
        assert(e.diffs + recs =~= e.diffs);
        assert(t.update(
            k as int,
            Some(EntryModel { remove: e.remove, diffs: e.diffs + recs, rename: e.rename }),
        ) =~= t);
    } else {
        let t1 = with_diff(t, k, recs[0]);
        let tail = recs.subrange(1, recs.len() as int);
        lemma_with_diffs(t1, k, tail);
        assert(e.diffs.push(recs[0]) + tail =~= e.diffs + recs);
        assert(t1.update(
            k as int,
            Some(
                EntryModel { remove: e.remove, diffs: e.diffs.push(recs[0]) + tail, rename: e.rename },
            ),
        ) =~= t.update(
            k as int,
            Some(EntryModel { remove: e.remove, diffs: e.diffs + recs, rename: e.rename }),
        ));
    }
}

#[verifier::spinoff_prover]
proof fn lemma_framed_empty(recs: Seq<DiffRecord>)
    ensures
        framed_records(recs).len() == 0 ==> recs.len() == 0,
{
    if recs.len() > 0 {
        let r = recs.last();
        assert(varint_bytes(record_bytes(r).len()).len() >= 1);
    }
}

/// The records of a field's value segment.
pub open spec fn value_recs(old: Option<Seq<u8>>, new: Option<Seq<u8>>) -> Seq<DiffRecord> {
    diff_records(slot_bytes(old), slot_bytes(new))
}

/// The records of a field's name segment.
pub open spec fn rename_recs(key: Option<Seq<u8>>, h: Option<HistoryModel>) -> Seq<DiffRecord> {
    diff_records(history_name(h), slot_bytes(key))
}

pub open spec fn removal_entry() -> EntryModel {
    EntryModel { remove: true, diffs: Seq::empty(), rename: None }
}

/// The decoded entries after the value segments of the first `n` slots.
pub open spec fn after_values(f: Seq<Option<Seq<u8>>>, n_: Seq<Option<Seq<u8>>>, n: int) -> Seq<
    Option<EntryModel>,
> {
    Seq::new(
        256,
        |k: int|
            if k < n && value_segment(f[k], n_[k], k as u8).len() > 0 {
                Some(EntryModel { remove: false, diffs: value_recs(f[k], n_[k]), rename: None })
            } else {
                None
            },
    )
}

/// The decoded entries after the removal segments of the first `n` slots.
pub open spec fn after_removals(f: Seq<Option<Seq<u8>>>, n_: Seq<Option<Seq<u8>>>, n: int) -> Seq<
    Option<EntryModel>,
> {
    Seq::new(
        256,
        |k: int|
            if k < n && is_removed(f[k], n_[k]) {
                Some(removal_entry())
            } else {
                after_values(f, n_, 256)[k]
            },
    )
}

/// The decoded entries after the name segments of the first `n` slots.
pub open spec fn after_renames(
    f: Seq<Option<Seq<u8>>>,
    n_: Seq<Option<Seq<u8>>>,
    p: Seq<Option<Seq<u8>>>,
    h: Seq<Option<HistoryModel>>,
    n: int,
) -> Seq<Option<EntryModel>> {
    Seq::new(
        256,
        |k: int|
            if k < n && rename_segment(is_removed(f[k], n_[k]), p[k], h[k], k as u8).len() > 0 {
                let e = match after_removals(f, n_, 256)[k] {
                    Some(e) => e,
                    None => empty_entry(),
                };
                Some(EntryModel { remove: e.remove, diffs: e.diffs, rename: Some(rename_recs(p[k], h[k])) })
            } else {
                after_removals(f, n_, 256)[k]
            },
    )
}

#[verifier::spinoff_prover]
proof fn lemma_value_segment(
    old: Option<Seq<u8>>,
    new: Option<Seq<u8>>,
    k: u8,
    rest: Seq<u8>,
    index: u8,
    t: Seq<Option<EntryModel>>,
)
    requires
        value_segment(old, new, k).len() > 0,
        forall|j: int| 0 <= j < value_recs(old, new).len() ==> stream_safe(#[trigger] value_recs(old, new)[j]),
        value_segment(old, new, k).len() + rest.len() <= usize::MAX,
    ensures
        pstream(value_segment(old, new, k) + rest, index, t) == pstream(
            rest,
            k,
            with_diffs(touch(t, k), k, value_recs(old, new)),
        ),
{
    let recs = value_recs(old, new);
    let x = value_segment(old, new, k) + rest;
    assert(value_segment(old, new, k) == seq![TOKEN_INDEX, k] + framed_records(recs));
    assert(x[0] == TOKEN_INDEX);
    assert(x[1] == k);
    lemma_shift(x, 2, k, touch(t, k));
    assert(x.subrange(2, x.len() as int) =~= framed_records(recs) + rest);
    lemma_records_run(recs, rest, k, touch(t, k));
}

#[verifier::spinoff_prover]
proof fn lemma_removal_segment(
    old: Option<Seq<u8>>,
    new: Option<Seq<u8>>,
    k: u8,
    rest: Seq<u8>,
    index: u8,
    t: Seq<Option<EntryModel>>,
)
    requires
        is_removed(old, new),
    ensures
        pstream(removal_segment(old, new, k) + rest, index, t) == pstream(
            rest,
            k,
            touch(t, k).update(k as int, Some(removal_entry())),
        ),
{
    let x = removal_segment(old, new, k) + rest;
    assert(x[0] == TOKEN_INDEX);
    assert(x[1] == k);
    assert(x[2] == TOKEN_REMOVE);
    let t2 = touch(t, k).update(k as int, Some(removal_entry()));
    assert(pstream(x, index, t) == parse_from(x, 2, k, touch(t, k)));
    assert(parse_from(x, 2, k, touch(t, k)) == parse_from(x, 3, k, t2));
    lemma_shift(x, 3, k, t2);
    assert(x.subrange(3, x.len() as int) =~= rest);
}

#[verifier::spinoff_prover]
proof fn lemma_rename_frame(x: Seq<u8>, recs: Seq<DiffRecord>, rest: Seq<u8>)
    requires
        x.len() >= 3,
        x.subrange(3, x.len() as int) == varint_bytes(framed_records(recs).len()) + (framed_records(
            recs,
        ) + rest),
        forall|j: int| 0 <= j < recs.len() ==> framable(#[trigger] recs[j]),
        !is_tag_literal(framed_records(recs).len()),
        x.len() <= usize::MAX,
    ensures
        ({
            let w = varint_bytes(framed_records(recs).len()).len();
            let e = 3 + w + framed_records(recs).len();
            &&& frame_at(x, 3) == Some((3 + w as int, e as int))
            &&& parse_records(x.subrange(3 + w as int, e as int)) == Some(recs)
            &&& x.subrange(e as int, x.len() as int) == rest
        }),
{
    let body = framed_records(recs);
    let n = body.len();
    lemma_varint_round_trip(n, body + rest);
    let w = varint_bytes(n).len();
    let y = x.subrange(3, x.len() as int);
    assert(x.subrange(3 + w as int, 3 + w + n as int) =~= y.subrange(w as int, w + n as int));
    assert(y.subrange(w as int, w + n as int) =~= body);
    lemma_framed_round_trip(recs);
    assert(x.subrange(3 + w + n as int, x.len() as int) =~= y.subrange(w + n as int, y.len() as int));
    assert(y.subrange(w + n as int, y.len() as int) =~= rest);
}

#[verifier::spinoff_prover]
#[verifier::rlimit(50)]
proof fn lemma_rename_segment(
    removed: bool,
    key: Option<Seq<u8>>,
    h: Option<HistoryModel>,
    k: u8,
    rest: Seq<u8>,
    index: u8,
    t: Seq<Option<EntryModel>>,
)
    requires
        rename_segment(removed, key, h, k).len() > 0,
        forall|j: int| 0 <= j < rename_recs(key, h).len() ==> framable(#[trigger] rename_recs(key, h)[j]),
        !is_tag_literal(framed_records(rename_recs(key, h)).len()),
        rename_segment(removed, key, h, k).len() + rest.len() <= usize::MAX,
    ensures
        pstream(rename_segment(removed, key, h, k) + rest, index, t) == pstream(
            rest,
            k,
            with_rename(touch(t, k), k, rename_recs(key, h)),
        ),
{
    let recs = rename_recs(key, h);
    let body = framed_records(recs);
    let n = body.len();
    let x = rename_segment(removed, key, h, k) + rest;
    assert(rename_segment(removed, key, h, k) == seq![TOKEN_INDEX, k, TOKEN_RENAME] + varint_bytes(n) + body);
    assert(x[0] == TOKEN_INDEX);
    assert(x[1] == k);
    assert(x[2] == TOKEN_RENAME);
    assert(x.subrange(3, x.len() as int) =~= varint_bytes(n) + (body + rest));
    lemma_rename_frame(x, recs, rest);
    let w = varint_bytes(n).len();
    let e = 3 + w + n;
    let t2 = with_rename(touch(t, k), k, recs);
    assert(pstream(x, index, t) == parse_from(x, 2, k, touch(t, k)));
    assert(parse_from(x, 2, k, touch(t, k)) == parse_from(x, e as int, k, t2));
    lemma_shift(x, e as int, k, t2);
}

/// Every field's value records are stream-safe where the field is kept.
pub open spec fn values_safe(f: Seq<Option<Seq<u8>>>, n_: Seq<Option<Seq<u8>>>) -> bool {
    forall|k: int, j: int|
        0 <= k < 256 && n_[k] is Some && 0 <= j < value_recs(f[k], n_[k]).len() ==> stream_safe(
            #[trigger] value_recs(f[k], n_[k])[j],
        )
}

/// Every name segment that `patch` writes can be framed unambiguously.
pub open spec fn renames_safe(
    f: Seq<Option<Seq<u8>>>,
    n_: Seq<Option<Seq<u8>>>,
    p: Seq<Option<Seq<u8>>>,
    h: Seq<Option<HistoryModel>>,
) -> bool {
    forall|k: int|
        0 <= k < 256 && #[trigger] p[k] is Some && !is_removed(f[k], n_[k]) ==> {
            &&& forall|j: int|
                0 <= j < rename_recs(p[k], h[k]).len() ==> framable(
                    #[trigger] rename_recs(p[k], h[k])[j],
                )
            &&& !is_tag_literal(framed_records(rename_recs(p[k], h[k])).len())
        }
}

#[verifier::spinoff_prover]
proof fn lemma_values_safe_slot(f: Seq<Option<Seq<u8>>>, n_: Seq<Option<Seq<u8>>>, k: int)
    requires
        values_safe(f, n_),
        0 <= k < 256,
        n_[k] is Some,
    ensures
        forall|j: int| 0 <= j < value_recs(f[k], n_[k]).len() ==> stream_safe(
            #[trigger] value_recs(f[k], n_[k])[j],
        ),
{
}

#[verifier::spinoff_prover]
proof fn lemma_after_values_next(f: Seq<Option<Seq<u8>>>, n_: Seq<Option<Seq<u8>>>, n: int)
    requires
        1 <= n <= 256,
        f.len() == 256,
        n_.len() == 256,
    ensures
        value_segment(f[n - 1], n_[n - 1], (n - 1) as u8).len() > 0 ==> with_diffs(
            touch(after_values(f, n_, n - 1), (n - 1) as u8),
            (n - 1) as u8,
            value_recs(f[n - 1], n_[n - 1]),
        ) == after_values(f, n_, n),
        value_segment(f[n - 1], n_[n - 1], (n - 1) as u8).len() == 0 ==> after_values(f, n_, n - 1)
            == after_values(f, n_, n),
{
    let k = n - 1;
    let av = after_values(f, n_, n - 1);
    let recs = value_recs(f[k], n_[k]);
    if value_segment(f[k], n_[k], k as u8).len() > 0 {
        let t1 = touch(av, k as u8);
        assert(av[k] is None);
        assert(t1[k] == Some(empty_entry()));
        lemma_with_diffs(t1, k as u8, recs);
        assert(Seq::<DiffRecord>::empty() + recs =~= recs);
        assert(with_diffs(t1, k as u8, recs) =~= after_values(f, n_, n));
    } else {
        assert(av =~= after_values(f, n_, n));
    }
}

#[verifier::spinoff_prover]
proof fn lemma_values_step(f: Seq<Option<Seq<u8>>>, n_: Seq<Option<Seq<u8>>>, n: int, rest: Seq<u8>)
    requires
        1 <= n <= 256,
        f.len() == 256,
        n_.len() == 256,
        at_boundary(rest),
        values_safe(f, n_),
        value_segment(f[n - 1], n_[n - 1], (n - 1) as u8).len() + rest.len() <= usize::MAX,
    ensures
        at_boundary(value_segment(f[n - 1], n_[n - 1], (n - 1) as u8) + rest),
        pstream(value_segment(f[n - 1], n_[n - 1], (n - 1) as u8) + rest, 0, after_values(f, n_, n - 1))
            == pstream(rest, 0, after_values(f, n_, n)),
{
    let k = n - 1;
    let seg = value_segment(f[k], n_[k], k as u8);
    let av = after_values(f, n_, n - 1);
    lemma_after_values_next(f, n_, n);
    if seg.len() > 0 {
        assert((seg + rest)[0] == TOKEN_INDEX);
        lemma_values_safe_slot(f, n_, k);
        lemma_value_segment(f[k], n_[k], k as u8, rest, 0, av);
        lemma_boundary(rest, k as u8, 0, after_values(f, n_, n));
    } else {
        assert(seg + rest =~= rest);
    }
}

#[verifier::spinoff_prover]
proof fn lemma_values_section(
    f: Seq<Option<Seq<u8>>>,
    n_: Seq<Option<Seq<u8>>>,
    n: int,
    rest: Seq<u8>,
)
    requires
        0 <= n <= 256,
        f.len() == 256,
        n_.len() == 256,
        at_boundary(rest),
        values_safe(f, n_),
        values_upto(f, n_, n).len() + rest.len() <= usize::MAX,
    ensures
        pstream(values_upto(f, n_, n) + rest, 0, no_entries()) == pstream(
            rest,
            0,
            after_values(f, n_, n),
        ),
    decreases n,
{
    if n == 0 {
        assert(values_upto(f, n_, 0) + rest =~= rest);
        assert(after_values(f, n_, 0) =~= no_entries());
    } else {
        let seg = value_segment(f[n - 1], n_[n - 1], (n - 1) as u8);
        assert(values_upto(f, n_, n) + rest =~= values_upto(f, n_, n - 1) + (seg + rest));
        lemma_values_step(f, n_, n, rest);
        lemma_values_section(f, n_, n - 1, seg + rest);
    }
}

#[verifier::spinoff_prover]
proof fn lemma_removals_step(f: Seq<Option<Seq<u8>>>, n_: Seq<Option<Seq<u8>>>, n: int, rest: Seq<u8>)
    requires
        1 <= n <= 256,
        f.len() == 256,
        n_.len() == 256,
        at_boundary(rest),
    ensures
        at_boundary(removal_segment(f[n - 1], n_[n - 1], (n - 1) as u8) + rest),
        pstream(
            removal_segment(f[n - 1], n_[n - 1], (n - 1) as u8) + rest,
            0,
            after_removals(f, n_, n - 1),
        ) == pstream(rest, 0, after_removals(f, n_, n)),
{
    let k = n - 1;
    let seg = removal_segment(f[k], n_[k], k as u8);
    let ar = after_removals(f, n_, n - 1);
    if is_removed(f[k], n_[k]) {
        assert((seg + rest)[0] == TOKEN_INDEX);
        lemma_removal_segment(f[k], n_[k], k as u8, rest, 0, ar);
        assert(touch(ar, k as u8).update(k, Some(removal_entry())) =~= after_removals(f, n_, n));
        lemma_boundary(rest, k as u8, 0, after_removals(f, n_, n));
    } else {
        assert(seg + rest =~= rest);
        assert(ar =~= after_removals(f, n_, n));
    }
}

#[verifier::spinoff_prover]
proof fn lemma_removals_section(
    f: Seq<Option<Seq<u8>>>,
    n_: Seq<Option<Seq<u8>>>,
    n: int,
    rest: Seq<u8>,
)
    requires
        0 <= n <= 256,
        f.len() == 256,
        n_.len() == 256,
        at_boundary(rest),
    ensures
        pstream(removals_upto(f, n_, n) + rest, 0, after_values(f, n_, 256)) == pstream(
            rest,
            0,
            after_removals(f, n_, n),
        ),
    decreases n,
{
    if n == 0 {
        assert(removals_upto(f, n_, 0) + rest =~= rest);
        assert(after_removals(f, n_, 0) =~= after_values(f, n_, 256));
    } else {
        let seg = removal_segment(f[n - 1], n_[n - 1], (n - 1) as u8);
        assert(removals_upto(f, n_, n) + rest =~= removals_upto(f, n_, n - 1) + (seg + rest));
        lemma_removals_step(f, n_, n, rest);
        lemma_removals_section(f, n_, n - 1, seg + rest);
    }
}

#[verifier::spinoff_prover]
proof fn lemma_renames_safe_slot(
    f: Seq<Option<Seq<u8>>>,
    n_: Seq<Option<Seq<u8>>>,
    p: Seq<Option<Seq<u8>>>,
    h: Seq<Option<HistoryModel>>,
    k: int,
)
    requires
        renames_safe(f, n_, p, h),
        0 <= k < 256,
        p[k] is Some,
        !is_removed(f[k], n_[k]),
    ensures
        forall|j: int| 0 <= j < rename_recs(p[k], h[k]).len() ==> framable(
            #[trigger] rename_recs(p[k], h[k])[j],
        ),
        !is_tag_literal(framed_records(rename_recs(p[k], h[k])).len()),
{
}

#[verifier::spinoff_prover]
proof fn lemma_after_renames_next(
    f: Seq<Option<Seq<u8>>>,
    n_: Seq<Option<Seq<u8>>>,
    p: Seq<Option<Seq<u8>>>,
    h: Seq<Option<HistoryModel>>,
    n: int,
)
    requires
        1 <= n <= 256,
        f.len() == 256,
        n_.len() == 256,
        p.len() == 256,
        h.len() == 256,
    ensures
        rename_segment(is_removed(f[n - 1], n_[n - 1]), p[n - 1], h[n - 1], (n - 1) as u8).len()
            > 0 ==> p[n - 1] is Some && !is_removed(f[n - 1], n_[n - 1]) && with_rename(
            touch(after_renames(f, n_, p, h, n - 1), (n - 1) as u8),
            (n - 1) as u8,
            rename_recs(p[n - 1], h[n - 1]),
        ) == after_renames(f, n_, p, h, n),
        rename_segment(is_removed(f[n - 1], n_[n - 1]), p[n - 1], h[n - 1], (n - 1) as u8).len()
            == 0 ==> after_renames(f, n_, p, h, n - 1) == after_renames(f, n_, p, h, n),
{
    let k = n - 1;
    let am = after_renames(f, n_, p, h, n - 1);
    if rename_segment(is_removed(f[k], n_[k]), p[k], h[k], k as u8).len() > 0 {
        assert(with_rename(touch(am, k as u8), k as u8, rename_recs(p[k], h[k]))
            =~= after_renames(f, n_, p, h, n));
    } else {
        assert(am =~= after_renames(f, n_, p, h, n));
    }
}

#[verifier::spinoff_prover]
proof fn lemma_renames_step(
    f: Seq<Option<Seq<u8>>>,
    n_: Seq<Option<Seq<u8>>>,
    p: Seq<Option<Seq<u8>>>,
    h: Seq<Option<HistoryModel>>,
    n: int,
    rest: Seq<u8>,
)
    requires
        1 <= n <= 256,
        f.len() == 256,
        n_.len() == 256,
        p.len() == 256,
        h.len() == 256,
        at_boundary(rest),
        renames_safe(f, n_, p, h),
        rename_segment(is_removed(f[n - 1], n_[n - 1]), p[n - 1], h[n - 1], (n - 1) as u8).len()
            + rest.len() <= usize::MAX,
    ensures
        at_boundary(
            rename_segment(is_removed(f[n - 1], n_[n - 1]), p[n - 1], h[n - 1], (n - 1) as u8)
                + rest,
        ),
        pstream(
            rename_segment(is_removed(f[n - 1], n_[n - 1]), p[n - 1], h[n - 1], (n - 1) as u8)
                + rest,
            0,
            after_renames(f, n_, p, h, n - 1),
        ) == pstream(rest, 0, after_renames(f, n_, p, h, n)),
{
    let k = n - 1;
    let seg = rename_segment(is_removed(f[k], n_[k]), p[k], h[k], k as u8);
    let am = after_renames(f, n_, p, h, n - 1);
    lemma_after_renames_next(f, n_, p, h, n);
    if seg.len() > 0 {
        assert((seg + rest)[0] == TOKEN_INDEX);
        lemma_renames_safe_slot(f, n_, p, h, k);
        lemma_rename_segment(is_removed(f[k], n_[k]), p[k], h[k], k as u8, rest, 0, am);
        lemma_boundary(rest, k as u8, 0, after_renames(f, n_, p, h, n));
    } else {
        assert(seg + rest =~= rest);
    }
}

#[verifier::spinoff_prover]
proof fn lemma_renames_section(
    f: Seq<Option<Seq<u8>>>,
    n_: Seq<Option<Seq<u8>>>,
    p: Seq<Option<Seq<u8>>>,
    h: Seq<Option<HistoryModel>>,
    n: int,
    rest: Seq<u8>,
)
    requires
        0 <= n <= 256,
        f.len() == 256,
        n_.len() == 256,
        p.len() == 256,
        h.len() == 256,
        at_boundary(rest),
        renames_safe(f, n_, p, h),
        renames_upto(f, n_, p, h, n).len() + rest.len() <= usize::MAX,
    ensures
        pstream(renames_upto(f, n_, p, h, n) + rest, 0, after_removals(f, n_, 256)) == pstream(
            rest,
            0,
            after_renames(f, n_, p, h, n),
        ),
    decreases n,
{
    if n == 0 {
        assert(renames_upto(f, n_, p, h, 0) + rest =~= rest);
        assert(after_renames(f, n_, p, h, 0) =~= after_removals(f, n_, 256));
    } else {
        let seg = rename_segment(is_removed(f[n - 1], n_[n - 1]), p[n - 1], h[n - 1], (n - 1) as u8);
        assert(renames_upto(f, n_, p, h, n) + rest =~= renames_upto(f, n_, p, h, n - 1) + (seg
            + rest));
        lemma_renames_step(f, n_, p, h, n, rest);
        lemma_renames_section(f, n_, p, h, n - 1, seg + rest);
    }
}

#[verifier::spinoff_prover]
proof fn lemma_removals_boundary(f: Seq<Option<Seq<u8>>>, n_: Seq<Option<Seq<u8>>>, n: int, x: Seq<u8>)
    requires
        0 <= n <= 256,
        f.len() == 256,
        n_.len() == 256,
        at_boundary(x),
    ensures
        at_boundary(removals_upto(f, n_, n) + x),
    decreases n,
{
    if n == 0 {
        assert(removals_upto(f, n_, 0) + x =~= x);
    } else {
        let seg = removal_segment(f[n - 1], n_[n - 1], (n - 1) as u8);
        if seg.len() > 0 {
            assert((seg + x)[0] == TOKEN_INDEX);
        } else {
            assert(seg + x =~= x);
        }
        assert(removals_upto(f, n_, n) + x =~= removals_upto(f, n_, n - 1) + (seg + x));
        lemma_removals_boundary(f, n_, n - 1, seg + x);
    }
}

#[verifier::spinoff_prover]
proof fn lemma_renames_boundary(
    f: Seq<Option<Seq<u8>>>,
    n_: Seq<Option<Seq<u8>>>,
    p: Seq<Option<Seq<u8>>>,
    h: Seq<Option<HistoryModel>>,
    n: int,
    x: Seq<u8>,
)
    requires
        0 <= n <= 256,
        f.len() == 256,
        n_.len() == 256,
        p.len() == 256,
        h.len() == 256,
        at_boundary(x),
    ensures
        at_boundary(renames_upto(f, n_, p, h, n) + x),
    decreases n,
{
    if n == 0 {
        assert(renames_upto(f, n_, p, h, 0) + x =~= x);
    } else {
        let seg = rename_segment(is_removed(f[n - 1], n_[n - 1]), p[n - 1], h[n - 1], (n - 1) as u8);
        if seg.len() > 0 {
            assert((seg + x)[0] == TOKEN_INDEX);
        } else {
            assert(seg + x =~= x);
        }
        assert(renames_upto(f, n_, p, h, n) + x =~= renames_upto(f, n_, p, h, n - 1) + (seg + x));
        lemma_renames_boundary(f, n_, p, h, n - 1, seg + x);
    }
}

/// Byte lengths of every slot fit in `usize`.
pub open spec fn slots_fit(
    f: Seq<Option<Seq<u8>>>,
    n_: Seq<Option<Seq<u8>>>,
    p: Seq<Option<Seq<u8>>>,
    h: Seq<Option<HistoryModel>>,
) -> bool {
    forall|k: int|
        0 <= k < 256 ==> {
            &&& slot_bytes(#[trigger] f[k]).len() <= usize::MAX
            &&& slot_bytes(n_[k]).len() <= usize::MAX
            &&& slot_bytes(p[k]).len() <= usize::MAX
            &&& history_name(h[k]).len() <= usize::MAX
        }
}

#[verifier::spinoff_prover]
#[verifier::rlimit(50)]
proof fn lemma_slot_outcome(
    f: Seq<Option<Seq<u8>>>,
    n_: Seq<Option<Seq<u8>>>,
    p: Seq<Option<Seq<u8>>>,
    h: Seq<Option<HistoryModel>>,
    k: int,
)
    requires
        0 <= k < 256,
        f.len() == 256,
        n_.len() == 256,
        p.len() == 256,
        h.len() == 256,
        slots_fit(f, n_, p, h),
        p[k] is Some ==> f[k] is Some || n_[k] is Some,
    ensures
        ({
            let e = after_renames(f, n_, p, h, 256)[k];
            &&& entry_applicable(f[k], h[k], e)
            &&& patched_field(f[k], e) == n_[k]
            &&& history_name(renamed(h[k], e)) == history_name(
                patched_history(is_removed(f[k], n_[k]), p[k], h[k]),
            )
        }),
{
    assert(slot_bytes(f[k]).len() <= usize::MAX);
    let vr = value_recs(f[k], n_[k]);
    let rr = rename_recs(p[k], h[k]);
    lemma_diff_round_trip(slot_bytes(f[k]), slot_bytes(n_[k]));
    lemma_diff_round_trip(history_name(h[k]), slot_bytes(p[k]));
    lemma_framed_empty(vr);
    lemma_framed_empty(rr);
    let e = after_renames(f, n_, p, h, 256)[k];
    let removed = is_removed(f[k], n_[k]);
    let has_value = value_segment(f[k], n_[k], k as u8).len() > 0;
    let has_rename = rename_segment(removed, p[k], h[k], k as u8).len() > 0;
    if !has_value && n_[k] is Some {
        assert(f[k] is Some);
        assert(vr.len() == 0);
        assert(apply_records(slot_bytes(f[k]), vr) == slot_bytes(f[k]));
        assert(f[k] == n_[k]);
    }
    if p[k] is Some && !removed && !has_rename {
        assert(rr.len() == 0);
        assert(apply_records(history_name(h[k]), rr) == history_name(h[k]));
    }
    assert(records_applicable(0, Seq::<DiffRecord>::empty()));
    assert(records_applicable(slot_bytes(f[k]).len(), Seq::<DiffRecord>::empty()));
}

proof fn lemma_parse_patch(
    crc: Seq<u8>,
    f: Seq<Option<Seq<u8>>>,
    n_: Seq<Option<Seq<u8>>>,
    p: Seq<Option<Seq<u8>>>,
    h: Seq<Option<HistoryModel>>,
)
    requires
        crc.len() <= 255,
        f.len() == 256,
        n_.len() == 256,
        p.len() == 256,
        h.len() == 256,
        values_safe(f, n_),
        renames_safe(f, n_, p, h),
        patch_bytes(crc, f, n_, p, h).len() <= usize::MAX,
    ensures
        header_ok(patch_bytes(crc, f, n_, p, h)),
        embedded_crc(patch_bytes(crc, f, n_, p, h)) == crc,
        parse_stream(stream_of(patch_bytes(crc, f, n_, p, h))) == Some(
            after_renames(f, n_, p, h, 256),
        ),
{
    let s = patch_bytes(crc, f, n_, p, h);
    let v = values_upto(f, n_, 256);
    let r = removals_upto(f, n_, 256);
    let m = renames_upto(f, n_, p, h, 256);
    let u = v + r + m;
    assert(s[0] == crc.len());
    assert(embedded_crc(s) =~= crc);
    assert(stream_of(s) =~= u);
    let empty = Seq::<u8>::empty();
    lemma_renames_boundary(f, n_, p, h, 256, empty);
    assert(m + empty =~= m);
    lemma_removals_boundary(f, n_, 256, m);
    assert(v + (r + m) =~= u);
    assert(r + m + empty =~= r + m);
    lemma_values_section(f, n_, 256, r + m);
    lemma_removals_section(f, n_, 256, m);
    lemma_renames_section(f, n_, p, h, 256, empty);
}

/// A patch that `patch` makes on an engine with the fields `f`, staged names
/// `p`, history `h` and CRC `crc`, towards the fields `n_`, is accepted by
/// `apply_patch_with_crc` on a peer that holds the same fields and history
/// under the same CRC. The peer then holds `n_`, and every field's current
/// name agrees with the sender's. Left out: records whose integers or
/// framed lengths would read as width tags or control tokens, names staged
/// for a field that neither side has, and patches that outgrow `usize`.
#[verifier::spinoff_prover]
pub proof fn lemma_patch_round_trip(
    crc: Seq<u8>,
    f: Seq<Option<Seq<u8>>>,
    n_: Seq<Option<Seq<u8>>>,
    p: Seq<Option<Seq<u8>>>,
    h: Seq<Option<HistoryModel>>,
)
    requires
        crc.len() <= 255,
        f.len() == 256,
        n_.len() == 256,
        p.len() == 256,
        h.len() == 256,
        slots_fit(f, n_, p, h),
        values_safe(f, n_),
        renames_safe(f, n_, p, h),
        forall|k: int| 0 <= k < 256 && #[trigger] p[k] is Some ==> f[k] is Some || n_[k] is Some,
        patch_bytes(crc, f, n_, p, h).len() <= usize::MAX,
    ensures
        ({
            let s = patch_bytes(crc, f, n_, p, h);
            let t = parse_stream(stream_of(s)).unwrap();
            &&& apply_ok_with(crc, f, h, s)
            &&& patched_fields(f, t) == n_
            &&& forall|k: int|
                0 <= k < 256 ==> history_name(#[trigger] renamed_all(h, t)[k]) == history_name(
                    patched_histories(f, n_, p, h)[k],
                )
        }),
{
    let s = patch_bytes(crc, f, n_, p, h);
    lemma_parse_patch(crc, f, n_, p, h);
    let t = after_renames(f, n_, p, h, 256);
    assert forall|k: int| 0 <= k < 256 implies #[trigger] entry_applicable(f[k], h[k], t[k]) by {
        lemma_slot_outcome(f, n_, p, h, k);
    }
    assert forall|k: int| 0 <= k < 256 implies #[trigger] patched_fields(f, t)[k] == n_[k] by {
        lemma_slot_outcome(f, n_, p, h, k);
    }
    assert forall|k: int| 0 <= k < 256 implies history_name(#[trigger] renamed_all(h, t)[k])
        == history_name(patched_histories(f, n_, p, h)[k]) by {
        lemma_slot_outcome(f, n_, p, h, k);
    }
    assert(all_applicable(f, h, t));
    assert(patched_fields(f, t) =~= n_);
}

} // verus!
