//! The patch stream after the CRC header: per-field tokens, each optionally
//! preceded by a header `'v' index` that selects the field.
//!
//! | token | meaning |
//! |---|---|
//! | `'r'` | remove the field |
//! | `'m'` varint(n) + n bytes | framed records that change the field's name |
//! | varint(n) + n bytes | one record that changes the field's bytes |
//!
//! The control bytes share their values with one-byte lengths: a record
//! whose form is 109, 114 or 118 bytes long reads as a token, and one of
//! 105, 108 or 115 bytes as a wider length. The format keeps this for
//! compatibility with existing peers; inside a name change only framed
//! records are read, so no token can be mistaken there.

use vstd::prelude::*;
use crate::difference::{
    lemma_record_round_trip, parse_record, record_bytes, record_well_formed, view_diffs, DiffRecord,
    Difference,
};
use crate::entry::{EntryDifference, EntryModel};
use crate::varint::{
    decode_varint, is_tag_literal, lemma_varint_round_trip, read_varint_at, varint_bytes,
    write_varint,
};

verus! {

/// Header byte that selects a field.
pub const TOKEN_INDEX: u8 = 0x76;

/// Token that removes the selected field.
pub const TOKEN_REMOVE: u8 = 0x72;

/// Token that changes the selected field's name.
pub const TOKEN_RENAME: u8 = 0x6D;

/// Number of field indices.
pub const SLOTS: usize = 256;

/// One record, prefixed with the length of its form.
pub open spec fn framed_record(d: DiffRecord) -> Seq<u8> {
    varint_bytes(record_bytes(d).len()) + record_bytes(d)
}

/// The framed forms of `recs`, in order.
pub open spec fn framed_records(recs: Seq<DiffRecord>) -> Seq<u8>
    decreases recs.len(),
{
    if recs.len() == 0 {
        Seq::empty()
    } else {
        framed_records(recs.drop_last()) + framed_record(recs.last())
    }
}

/// The bounds `(start, end)` of the frame whose length prefix starts at `i`,
/// or `None` where the prefix or the frame runs past the end of `s`.
pub open spec fn frame_at(s: Seq<u8>, i: int) -> Option<(int, int)> {
    match decode_varint(s.subrange(i, s.len() as int)) {
        None => None,
        Some(p) => if p.0 > usize::MAX || i + p.1 + p.0 > s.len() {
            None
        } else {
            Some((i + p.1, i + p.1 + p.0))
        },
    }
}

/// Parses framed records from position `i` on, after those in `acc`.
pub open spec fn parse_records_from(s: Seq<u8>, i: int, acc: Seq<DiffRecord>) -> Option<
    Seq<DiffRecord>,
>
    decreases s.len() - i,
{
    if i < 0 || i >= s.len() {
        Some(acc)
    } else {
        match frame_at(s, i) {
            None => None,
            Some(f) => if f.1 <= i {
                None
            } else {
                match parse_record(s.subrange(f.0, f.1)) {
                    None => None,
                    Some(r) => parse_records_from(s, f.1, acc.push(r)),
                }
            },
        }
    }
}

/// Parses a sequence of framed records.
pub open spec fn parse_records(s: Seq<u8>) -> Option<Seq<DiffRecord>> {
    parse_records_from(s, 0, Seq::empty())
}

/// A record that its framed form carries back unchanged: well formed, and
/// with a form whose length does not read as a width tag.
pub open spec fn framable(d: DiffRecord) -> bool {
    record_well_formed(d) && !is_tag_literal(record_bytes(d).len())
}

pub(crate) proof fn lemma_framed_split(recs: Seq<DiffRecord>)
    requires
        recs.len() > 0,
    ensures
        framed_records(recs) == framed_record(recs[0]) + framed_records(
            recs.subrange(1, recs.len() as int),
        ),
    decreases recs.len(),
{
    if recs.len() == 1 {
        assert(recs.drop_last() =~= Seq::<DiffRecord>::empty());
        assert(recs.subrange(1, 1) =~= Seq::<DiffRecord>::empty());
        assert(framed_records(recs.drop_last()) == Seq::<u8>::empty());
        assert(framed_records(Seq::<DiffRecord>::empty()) == Seq::<u8>::empty());
        assert(recs.last() == recs[0]);
        assert(framed_records(recs) =~= framed_record(recs[0]) + Seq::<u8>::empty());
    } else {
        let d = recs.drop_last();
        lemma_framed_split(d);
        let tail = recs.subrange(1, recs.len() as int);
        assert(tail.drop_last() =~= d.subrange(1, d.len() as int));
        assert(tail.last() == recs.last());
        assert(d[0] == recs[0]);
        assert(framed_records(recs) =~= framed_record(recs[0]) + framed_records(tail));
    }
}

proof fn lemma_subrange_of_concat(s: Seq<u8>, i: int, a: Seq<u8>, b: Seq<u8>, c: Seq<u8>)
    requires
        0 <= i <= s.len(),
        s.subrange(i, s.len() as int) == a + b + c,
    ensures
        s.subrange(i + a.len(), i + a.len() + b.len()) == b,
        s.subrange(i + a.len() + b.len(), s.len() as int) == c,
{
    let here = s.subrange(i, s.len() as int);
    assert(s.subrange(i + a.len(), i + a.len() + b.len()) =~= here.subrange(
        a.len() as int,
        (a.len() + b.len()) as int,
    ));
    assert(here.subrange(a.len() as int, (a.len() + b.len()) as int) =~= b);
    assert(s.subrange(i + a.len() + b.len(), s.len() as int) =~= here.subrange(
        (a.len() + b.len()) as int,
        here.len() as int,
    ));
    assert(here.subrange((a.len() + b.len()) as int, here.len() as int) =~= c);
}

proof fn lemma_parse_framed(s: Seq<u8>, i: int, acc: Seq<DiffRecord>, recs: Seq<DiffRecord>)
    requires
        0 <= i <= s.len(),
        s.len() <= usize::MAX,
        s.subrange(i, s.len() as int) == framed_records(recs),
        forall|k: int| 0 <= k < recs.len() ==> framable(#[trigger] recs[k]),
    ensures
        parse_records_from(s, i, acc) == Some(acc + recs),
    decreases recs.len(),
{
    if recs.len() == 0 {
        assert(acc + recs =~= acc);
    } else {
        let r = recs[0];
        let rb = record_bytes(r);
        let n = rb.len();
        let tail = recs.subrange(1, recs.len() as int);
        lemma_framed_split(recs);
        let rest = framed_records(tail);
        let here = s.subrange(i, s.len() as int);
        assert(framable(r));
        assert(here =~= varint_bytes(n) + (rb + rest));
        lemma_varint_round_trip(n, rb + rest);
        let w = varint_bytes(n).len();
        let f0 = i + w;
        let f1 = i + w + n;
        assert(frame_at(s, i) == Some((f0, f1)));
        assert(here =~= varint_bytes(n) + rb + rest);
        lemma_subrange_of_concat(s, i, varint_bytes(n), rb, rest);
        lemma_record_round_trip(r);
        assert forall|k: int| 0 <= k < tail.len() implies framable(#[trigger] tail[k]) by {
            assert(tail[k] == recs[k + 1]);
        }
        lemma_parse_framed(s, f1, acc.push(r), tail);
        assert(acc.push(r) + tail =~= acc + recs);
    }
}

/// The framed forms of framable records parse back to those records.
pub proof fn lemma_framed_round_trip(recs: Seq<DiffRecord>)
    requires
        forall|k: int| 0 <= k < recs.len() ==> framable(#[trigger] recs[k]),
        framed_records(recs).len() <= usize::MAX,
    ensures
        parse_records(framed_records(recs)) == Some(recs),
{
    let s = framed_records(recs);
    assert(s.subrange(0, s.len() as int) =~= s);
    lemma_parse_framed(s, 0, Seq::empty(), recs);
    assert(Seq::<DiffRecord>::empty() + recs =~= recs);
}

pub open spec fn empty_entry() -> EntryModel {
    EntryModel { remove: false, diffs: Seq::empty(), rename: None }
}

pub open spec fn touch(t: Seq<Option<EntryModel>>, k: u8) -> Seq<Option<EntryModel>> {
    if t[k as int] is None {
        t.update(k as int, Some(empty_entry()))
    } else {
        t
    }
}

pub open spec fn with_diff(t: Seq<Option<EntryModel>>, k: u8, r: DiffRecord) -> Seq<
    Option<EntryModel>,
> {
    let e = match t[k as int] {
        Some(e) => e,
        None => empty_entry(),
    };
    t.update(k as int, Some(EntryModel { remove: e.remove, diffs: e.diffs.push(r), rename: e.rename }))
}

pub open spec fn with_rename(t: Seq<Option<EntryModel>>, k: u8, recs: Seq<DiffRecord>) -> Seq<
    Option<EntryModel>,
> {
    let e = match t[k as int] {
        Some(e) => e,
        None => empty_entry(),
    };
    t.update(k as int, Some(EntryModel { remove: e.remove, diffs: e.diffs, rename: Some(recs) }))
}

/// Parses the stream from position `i` on, with `index` selected and the
/// entries decoded so far in `t` (one slot per index). A header registers
/// its field; `'r'` replaces the field's entry with a removal; a name change
/// replaces any earlier one; records accumulate in order.
pub open spec fn parse_from(s: Seq<u8>, i: int, index: u8, t: Seq<Option<EntryModel>>) -> Option<
    Seq<Option<EntryModel>>,
>
    decreases s.len() - i,
{
    if i < 0 || i >= s.len() {
        Some(t)
    } else if s[i] == TOKEN_INDEX {
        if i + 1 >= s.len() {
            None
        } else {
            parse_from(s, i + 2, s[i + 1], touch(t, s[i + 1]))
        }
    } else if s[i] == TOKEN_REMOVE {
        parse_from(
            s,
            i + 1,
            index,
            t.update(
                index as int,
                Some(EntryModel { remove: true, diffs: Seq::empty(), rename: None }),
            ),
        )
    } else if s[i] == TOKEN_RENAME {
        match frame_at(s, i + 1) {
            None => None,
            Some(f) => match parse_records(s.subrange(f.0, f.1)) {
                None => None,
                Some(recs) => parse_from(s, f.1, index, with_rename(t, index, recs)),
            },
        }
    } else {
        match frame_at(s, i) {
            None => None,
            Some(f) => if f.1 <= i {
                None
            } else {
                match parse_record(s.subrange(f.0, f.1)) {
                    None => None,
                    Some(r) => parse_from(s, f.1, index, with_diff(t, index, r)),
                }
            },
        }
    }
}

pub open spec fn no_entries() -> Seq<Option<EntryModel>> {
    Seq::new(256, |k: int| None)
}

/// The entries of a patch stream, one slot per index, or `None` where the
/// stream is malformed. Records before any header belong to index 0.
pub open spec fn parse_stream(s: Seq<u8>) -> Option<Seq<Option<EntryModel>>> {
    parse_from(s, 0, 0, no_entries())
}

pub open spec fn view_entries(t: Seq<Option<EntryDifference>>) -> Seq<Option<EntryModel>> {
    t.map_values(
        |o: Option<EntryDifference>|
            match o {
                Some(e) => Some(e@),
                None => None,
            },
    )
}

/// Appends the framed forms of `diffs` to `out`.
pub fn write_framed(out: &mut Vec<u8>, diffs: &[Difference])
    ensures
        final(out)@ == old(out)@ + framed_records(view_diffs(diffs@)),
{
    let ghost recs = view_diffs(diffs@);
    let mut k: usize = 0;
    assert(recs.take(0) =~= Seq::<DiffRecord>::empty());
    assert(old(out)@ + framed_records(recs.take(0)) =~= old(out)@);
    while k < diffs.len()
        invariant
            recs == view_diffs(diffs@),
            k <= diffs@.len(),
            out@ == old(out)@ + framed_records(recs.take(k as int)),
        decreases diffs@.len() - k,
    {
        let bytes = diffs[k].to_bytes();
        write_varint(out, bytes.len());
        crate::difference::push_range(out, bytes.as_slice(), 0, bytes.len());
        proof {
            assert(recs.take(k + 1).drop_last() =~= recs.take(k as int));
            assert(bytes@.subrange(0, bytes@.len() as int) =~= bytes@);
            assert(out@ =~= old(out)@ + framed_records(recs.take(k + 1)));
        }
        k = k + 1;
    }
    assert(recs.take(k as int) =~= recs);
}

fn frame_at_exec(s: &[u8], i: usize) -> (r: Option<(usize, usize)>)
    requires
        i <= s@.len(),
    ensures
        match r {
            Some(f) => frame_at(s@, i as int) == Some((f.0 as int, f.1 as int)),
            None => frame_at(s@, i as int) is None,
        },
{
    match read_varint_at(s, i) {
        None => None,
        Some((n, w)) => {
            let len = s.len();
            if w > len - i || n > len - i - w {
                None
            } else {
                Some((i + w, i + w + n))
            }
        },
    }
}

/// Parses a sequence of framed records, or `None` where it is malformed.
pub fn read_framed(s: &[u8]) -> (r: Option<Vec<Difference>>)
    ensures
        match r {
            Some(v) => parse_records(s@) == Some(view_diffs(v@)),
            None => parse_records(s@) is None,
        },
{
    let mut acc: Vec<Difference> = Vec::new();
    let mut i: usize = 0;
    let len = s.len();
    assert(view_diffs(acc@) =~= Seq::<DiffRecord>::empty());
    while i < len
        invariant
            len == s@.len(),
            i <= len,
            parse_records(s@) == parse_records_from(s@, i as int, view_diffs(acc@)),
        decreases len - i,
    {
        let f = frame_at_exec(s, i);
        match f {
            None => {
                return None;
            },
            Some((a, b)) => {
                if b <= i {
                    return None;
                }
                let sub = vstd::slice::slice_subrange(s, a, b);
                match Difference::validate_from_bytes(sub) {
                    Err(_) => {
                        return None;
                    },
                    Ok(d) => {
                        let ghost before = view_diffs(acc@);
                        acc.push(d);
                        assert(view_diffs(acc@) =~= before.push(d@));
                        i = b;
                    },
                }
            },
        }
    }
    Some(acc)
}

fn empty_table() -> (r: Vec<Option<EntryDifference>>)
    ensures
        r@.len() == 256,
        view_entries(r@) == no_entries(),
{
    let mut t: Vec<Option<EntryDifference>> = Vec::new();
    let mut k: usize = 0;
    while k < SLOTS
        invariant
            k <= SLOTS,
            t@.len() == k,
            forall|j: int| 0 <= j < k ==> t@[j] is None,
        decreases SLOTS - k,
    {
        t.push(None);
        k = k + 1;
    }
    assert(view_entries(t@) =~= no_entries());
    t
}

fn set_rename_slot(t: &mut Vec<Option<EntryDifference>>, index: u8, recs: Vec<Difference>)
    requires
        old(t)@.len() == 256,
    ensures
        final(t)@.len() == 256,
        view_entries(final(t)@) == with_rename(view_entries(old(t)@), index, view_diffs(recs@)),
{
    let ghost tv = view_entries(t@);
    let ghost rv = view_diffs(recs@);
    let slot = t.remove(index as usize);
    let e = match slot {
        Some(mut e) => {
            e.map_name_changed = Some(recs);
            e
        },
        None => {
            let mut e = EntryDifference::new(Vec::new());
            assert(view_diffs(Seq::<Difference>::empty()) =~= Seq::<DiffRecord>::empty());
            e.map_name_changed = Some(recs);
            e
        },
    };
    t.insert(index as usize, Some(e));
    assert(view_entries(t@) =~= with_rename(tv, index, rv));
}

fn push_diff_slot(t: &mut Vec<Option<EntryDifference>>, index: u8, d: Difference)
    requires
        old(t)@.len() == 256,
    ensures
        final(t)@.len() == 256,
        view_entries(final(t)@) == with_diff(view_entries(old(t)@), index, d@),
{
    let ghost tv = view_entries(t@);
    let ghost dv = d@;
    let slot = t.remove(index as usize);
    let e = match slot {
        Some(mut e) => {
            let ghost before = view_diffs(e.diffs@);
            e.diffs.push(d);
            assert(view_diffs(e.diffs@) =~= before.push(dv));
            e
        },
        None => {
            let mut v: Vec<Difference> = Vec::new();
            v.push(d);
            assert(view_diffs(v@) =~= Seq::<DiffRecord>::empty().push(dv));
            EntryDifference::new(v)
        },
    };
    t.insert(index as usize, Some(e));
    assert(view_entries(t@) =~= with_diff(tv, index, dv));
}

/// Reads the token at `i`: the position after it, or `None` where it is
/// malformed.
fn read_token(s: &[u8], i: usize, index: &mut u8, t: &mut Vec<Option<EntryDifference>>) -> (r:
    Option<usize>)
    requires
        i < s@.len(),
        old(t)@.len() == 256,
    ensures
        final(t)@.len() == 256,
        match r {
            Some(j) => i < j <= s@.len() && parse_from(
                s@,
                i as int,
                *old(index),
                view_entries(old(t)@),
            ) == parse_from(s@, j as int, *final(index), view_entries(final(t)@)),
            None => parse_from(s@, i as int, *old(index), view_entries(old(t)@)) is None,
        },
{
    let ghost tv = view_entries(t@);
    let len = s.len();
    let c = s[i];
    if c == TOKEN_INDEX {
        if i + 1 >= len {
            return None;
        }
        *index = s[i + 1];
        if t[*index as usize].is_none() {
            t.set(*index as usize, Some(EntryDifference::new(Vec::new())));
            assert(view_diffs(Seq::<Difference>::empty()) =~= Seq::<DiffRecord>::empty());
        }
        assert(view_entries(t@) =~= touch(tv, *index));
        Some(i + 2)
    } else if c == TOKEN_REMOVE {
        t.set(*index as usize, Some(EntryDifference::remove_entry()));
        assert(view_entries(t@) =~= tv.update(
            *index as int,
            Some(EntryModel { remove: true, diffs: Seq::empty(), rename: None }),
        ));
        Some(i + 1)
    } else if c == TOKEN_RENAME {
        match frame_at_exec(s, i + 1) {
            None => None,
            Some((a, b)) => {
                let sub = vstd::slice::slice_subrange(s, a, b);
                match read_framed(sub) {
                    None => None,
                    Some(recs) => {
                        set_rename_slot(t, *index, recs);
                        Some(b)
                    },
                }
            },
        }
    } else {
        match frame_at_exec(s, i) {
            None => None,
            Some((a, b)) => {
                if b <= i {
                    return None;
                }
                let sub = vstd::slice::slice_subrange(s, a, b);
                match Difference::validate_from_bytes(sub) {
                    Err(_) => None,
                    Ok(d) => {
                        push_diff_slot(t, *index, d);
                        Some(b)
                    },
                }
            },
        }
    }
}

/// Parses the patch stream `s` (after the CRC header) into one slot per
/// index, or `None` where it is malformed.
pub fn read_stream(s: &[u8]) -> (r: Option<Vec<Option<EntryDifference>>>)
    ensures
        match r {
            Some(t) => t@.len() == 256 && parse_stream(s@) == Some(view_entries(t@)),
            None => parse_stream(s@) is None,
        },
{
    let mut t = empty_table();
    let mut i: usize = 0;
    let mut index: u8 = 0;
    let len = s.len();
    while i < len
        invariant
            len == s@.len(),
            i <= len,
            t@.len() == 256,
            parse_stream(s@) == parse_from(s@, i as int, index, view_entries(t@)),
        decreases len - i,
    {
        match read_token(s, i, &mut index, &mut t) {
            None => {
                return None;
            },
            Some(j) => {
                i = j;
            },
        }
    }
    Some(t)
}

} // verus!
