//! The multi-field engine: a collection of indexed fields, a fingerprint of
//! it, pending field names and their history; `patch` turns a new state into
//! wire bytes, `apply_patch` replays such bytes on a peer.

use vstd::prelude::*;
use crate::crc::{crc_digest, crc_of};
use crate::data_difference::{
    apply_records, diff_records, diffs_applicable, records_applicable, DataDifference,
};
use crate::difference::{copy_bytes, push_range};
use crate::entry::{
    EntryDifference, EntryModel, HistoryModel, HistoryValue, IndexedData, IndexedDataResult,
};
use crate::error::{crc_mismatch, invalid_difference, SDDEError};
use crate::stream::{
    framed_records, parse_stream, read_stream, view_entries, write_framed, SLOTS, TOKEN_INDEX,
    TOKEN_REMOVE, TOKEN_RENAME,
};
use crate::varint::{varint_bytes, write_varint};

verus! {

/// The bytes of an optional field, empty where it is absent.
pub open spec fn slot_bytes(o: Option<Seq<u8>>) -> Seq<u8> {
    match o {
        Some(v) => v,
        None => Seq::empty(),
    }
}

pub open spec fn view_slot(o: Option<Vec<u8>>) -> Option<Seq<u8>> {
    match o {
        Some(v) => Some(v@),
        None => None,
    }
}

pub open spec fn view_slots(t: Seq<Option<Vec<u8>>>) -> Seq<Option<Seq<u8>>> {
    t.map_values(|o: Option<Vec<u8>>| view_slot(o))
}

pub open spec fn view_hist_slot(o: Option<HistoryValue>) -> Option<HistoryModel> {
    match o {
        Some(h) => Some(h@),
        None => None,
    }
}

pub open spec fn view_history(t: Seq<Option<HistoryValue>>) -> Seq<Option<HistoryModel>> {
    t.map_values(|o: Option<HistoryValue>| view_hist_slot(o))
}

pub open spec fn no_slots() -> Seq<Option<Seq<u8>>> {
    Seq::new(256, |k: int| None)
}

/// The fields given by `data`, one slot per index; where an index occurs
/// twice the later entry wins.
pub open spec fn slots_of(data: Seq<IndexedData>) -> Seq<Option<Seq<u8>>>
    decreases data.len(),
{
    if data.len() == 0 {
        no_slots()
    } else {
        slots_of(data.drop_last()).update(data.last().index as int, Some(data.last().data@))
    }
}

/// The bytes of the first `n` slots, concatenated in index order.
pub open spec fn fold_slots(t: Seq<Option<Seq<u8>>>, n: int) -> Seq<u8>
    decreases n,
{
    if n <= 0 {
        Seq::empty()
    } else {
        fold_slots(t, n - 1) + slot_bytes(t[n - 1])
    }
}

/// The folded bytes of a collection: all fields in ascending index order.
pub open spec fn fold_all(t: Seq<Option<Seq<u8>>>) -> Seq<u8> {
    fold_slots(t, 256)
}

/// The current name in a history entry, empty where there is none.
pub open spec fn history_name(h: Option<HistoryModel>) -> Seq<u8> {
    match h {
        Some(h) => h.current,
        None => Seq::empty(),
    }
}

/// A history entry after committing `name`.
pub open spec fn committed(h: Option<HistoryModel>, name: Seq<u8>) -> HistoryModel {
    HistoryModel { current: name, last: history_name(h) }
}

/// The wire segment of field `k`'s bytes: its records under a header, left
/// out where an existing field did not change; a new field always gets one.
pub open spec fn value_segment(old: Option<Seq<u8>>, new: Option<Seq<u8>>, k: u8) -> Seq<u8> {
    match new {
        None => Seq::empty(),
        Some(nv) => match old {
            Some(ov) => {
                let body = framed_records(diff_records(ov, nv));
                if body.len() > 0 {
                    seq![TOKEN_INDEX, k] + body
                } else {
                    Seq::empty()
                }
            },
            None => seq![TOKEN_INDEX, k] + framed_records(diff_records(Seq::empty(), nv)),
        },
    }
}

pub open spec fn is_removed(old: Option<Seq<u8>>, new: Option<Seq<u8>>) -> bool {
    old is Some && new is None
}

/// The wire segment that removes field `k`, where the new state drops it.
pub open spec fn removal_segment(old: Option<Seq<u8>>, new: Option<Seq<u8>>, k: u8) -> Seq<u8> {
    if is_removed(old, new) {
        seq![TOKEN_INDEX, k, TOKEN_REMOVE]
    } else {
        Seq::empty()
    }
}

/// The wire segment of a pending name `key` of field `k`: the framed diff
/// against the current name, left out where the name does not change.
pub open spec fn rename_segment(
    removed: bool,
    key: Option<Seq<u8>>,
    h: Option<HistoryModel>,
    k: u8,
) -> Seq<u8> {
    match key {
        None => Seq::empty(),
        Some(key) => if removed {
            Seq::empty()
        } else {
            let body = framed_records(diff_records(history_name(h), key));
            if body.len() == 0 {
                Seq::empty()
            } else {
                seq![TOKEN_INDEX, k, TOKEN_RENAME] + varint_bytes(body.len()) + body
            }
        },
    }
}

/// A history entry after `patch` with the pending name `key`.
pub open spec fn patched_history(removed: bool, key: Option<Seq<u8>>, h: Option<HistoryModel>) -> Option<
    HistoryModel,
> {
    match key {
        Some(key) => if removed {
            h
        } else {
            Some(committed(h, key))
        },
        None => h,
    }
}

pub open spec fn values_upto(old: Seq<Option<Seq<u8>>>, new: Seq<Option<Seq<u8>>>, n: int) -> Seq<
    u8,
>
    decreases n,
{
    if n <= 0 {
        Seq::empty()
    } else {
        values_upto(old, new, n - 1) + value_segment(old[n - 1], new[n - 1], (n - 1) as u8)
    }
}

pub open spec fn removals_upto(old: Seq<Option<Seq<u8>>>, new: Seq<Option<Seq<u8>>>, n: int) -> Seq<
    u8,
>
    decreases n,
{
    if n <= 0 {
        Seq::empty()
    } else {
        removals_upto(old, new, n - 1) + removal_segment(old[n - 1], new[n - 1], (n - 1) as u8)
    }
}

pub open spec fn renames_upto(
    old: Seq<Option<Seq<u8>>>,
    new: Seq<Option<Seq<u8>>>,
    pending: Seq<Option<Seq<u8>>>,
    hist: Seq<Option<HistoryModel>>,
    n: int,
) -> Seq<u8>
    decreases n,
{
    if n <= 0 {
        Seq::empty()
    } else {
        renames_upto(old, new, pending, hist, n - 1) + rename_segment(
            is_removed(old[n - 1], new[n - 1]),
            pending[n - 1],
            hist[n - 1],
            (n - 1) as u8,
        )
    }
}

/// The wire bytes of a patch: the CRC header, then the segments of all
/// field values, of all removals and of all pending names, each in
/// ascending index order.
pub open spec fn patch_bytes(
    crc: Seq<u8>,
    old: Seq<Option<Seq<u8>>>,
    new: Seq<Option<Seq<u8>>>,
    pending: Seq<Option<Seq<u8>>>,
    hist: Seq<Option<HistoryModel>>,
) -> Seq<u8> {
    seq![crc.len() as u8] + crc + values_upto(old, new, 256) + removals_upto(old, new, 256)
        + renames_upto(old, new, pending, hist, 256)
}

/// The rename history after `patch` commits the staged names of the fields
/// it keeps.
pub open spec fn patched_histories(
    old: Seq<Option<Seq<u8>>>,
    new: Seq<Option<Seq<u8>>>,
    pending: Seq<Option<Seq<u8>>>,
    hist: Seq<Option<HistoryModel>>,
) -> Seq<Option<HistoryModel>> {
    Seq::new(256, |k: int| patched_history(is_removed(old[k], new[k]), pending[k], hist[k]))
}

/// Whether `s` starts with a complete CRC header.
pub open spec fn header_ok(s: Seq<u8>) -> bool {
    s.len() >= 1 && s.len() >= 1 + s[0]
}

/// The CRC embedded in a patch.
pub open spec fn embedded_crc(s: Seq<u8>) -> Seq<u8> {
    s.subrange(1, 1 + s[0])
}

/// The patch stream after the CRC header.
pub open spec fn stream_of(s: Seq<u8>) -> Seq<u8> {
    s.subrange(1 + s[0], s.len() as int)
}

/// Whether the decoded entry `e` can be replayed on a field and its name.
pub open spec fn entry_applicable(
    field: Option<Seq<u8>>,
    h: Option<HistoryModel>,
    e: Option<EntryModel>,
) -> bool {
    match e {
        None => true,
        Some(e) => e.remove || (records_applicable(slot_bytes(field).len(), e.diffs) && match e.rename {
            Some(r) => records_applicable(history_name(h).len(), r),
            None => true,
        }),
    }
}

/// A field after its decoded entry is replayed.
pub open spec fn patched_field(field: Option<Seq<u8>>, e: Option<EntryModel>) -> Option<Seq<u8>> {
    match e {
        None => field,
        Some(e) => if e.remove {
            None
        } else {
            Some(apply_records(slot_bytes(field), e.diffs))
        },
    }
}

/// The name a decoded entry gives its field, if it changes it.
pub open spec fn new_name(h: Option<HistoryModel>, e: EntryModel) -> Option<Seq<u8>> {
    match e.rename {
        Some(r) => Some(apply_records(history_name(h), r)),
        None => None,
    }
}

/// A history entry after its field's decoded entry is replayed.
pub open spec fn renamed(h: Option<HistoryModel>, e: Option<EntryModel>) -> Option<HistoryModel> {
    match e {
        Some(e) => if !e.remove && e.rename is Some {
            Some(committed(h, new_name(h, e).unwrap()))
        } else {
            h
        },
        None => h,
    }
}

/// The content of an `IndexedDataResult`.
pub struct ResultModel {
    pub index: u8,
    pub data: Seq<u8>,
    pub name: Option<Seq<u8>>,
}

pub open spec fn view_result(r: IndexedDataResult) -> ResultModel {
    ResultModel { index: r.index, data: r.data@, name: view_slot(r.map_name_changed) }
}

pub open spec fn view_results(s: Seq<IndexedDataResult>) -> Seq<ResultModel> {
    s.map_values(|r: IndexedDataResult| view_result(r))
}

/// What `apply_patch` reports of field `k`: its new bytes and new name,
/// where the patch changes it and does not remove it.
pub open spec fn result_of(
    field: Option<Seq<u8>>,
    h: Option<HistoryModel>,
    e: Option<EntryModel>,
    k: u8,
) -> Seq<ResultModel> {
    match e {
        Some(e) => if e.remove {
            Seq::empty()
        } else {
            seq![
                ResultModel {
                    index: k,
                    data: apply_records(slot_bytes(field), e.diffs),
                    name: new_name(h, e),
                },
            ]
        },
        None => Seq::empty(),
    }
}

pub open spec fn results_upto(
    fields: Seq<Option<Seq<u8>>>,
    hist: Seq<Option<HistoryModel>>,
    entries: Seq<Option<EntryModel>>,
    n: int,
) -> Seq<ResultModel>
    decreases n,
{
    if n <= 0 {
        Seq::empty()
    } else {
        results_upto(fields, hist, entries, n - 1) + result_of(
            fields[n - 1],
            hist[n - 1],
            entries[n - 1],
            (n - 1) as u8,
        )
    }
}

pub open spec fn all_applicable(
    fields: Seq<Option<Seq<u8>>>,
    hist: Seq<Option<HistoryModel>>,
    entries: Seq<Option<EntryModel>>,
) -> bool {
    forall|k: int| 0 <= k < 256 ==> #[trigger] entry_applicable(fields[k], hist[k], entries[k])
}

/// The rename history after the staged names `pending` are committed as
/// current names with no previous one.
pub open spec fn baseline(pending: Seq<Option<Seq<u8>>>, hist: Seq<Option<HistoryModel>>) -> Seq<
    Option<HistoryModel>,
> {
    Seq::new(
        256,
        |k: int|
            match pending[k] {
                Some(key) => Some(HistoryModel { current: key, last: Seq::empty() }),
                None => hist[k],
            },
    )
}

/// The fields after every decoded entry is replayed.
pub open spec fn patched_fields(fields: Seq<Option<Seq<u8>>>, t: Seq<Option<EntryModel>>) -> Seq<
    Option<Seq<u8>>,
> {
    Seq::new(256, |k: int| patched_field(fields[k], t[k]))
}

/// The rename history after every decoded entry is replayed.
pub open spec fn renamed_all(hist: Seq<Option<HistoryModel>>, t: Seq<Option<EntryModel>>) -> Seq<
    Option<HistoryModel>,
> {
    Seq::new(256, |k: int| renamed(hist[k], t[k]))
}

/// Whether `apply_patch` accepts the patch `s` on an engine with these
/// fields and this history: the header is complete, the embedded CRC is the
/// CRC of the folded fields, the stream parses, and every entry replays.
pub open spec fn apply_ok(
    fields: Seq<Option<Seq<u8>>>,
    hist: Seq<Option<HistoryModel>>,
    s: Seq<u8>,
) -> bool {
    &&& header_ok(s)
    &&& crc_digest(fold_all(fields)) == embedded_crc(s)
    &&& parse_stream(stream_of(s)) is Some
    &&& all_applicable(fields, hist, parse_stream(stream_of(s)).unwrap())
}

/// `apply_ok`, with `current_crc` standing for the CRC of the folded fields.
pub open spec fn apply_ok_with(
    current_crc: Seq<u8>,
    fields: Seq<Option<Seq<u8>>>,
    hist: Seq<Option<HistoryModel>>,
    s: Seq<u8>,
) -> bool {
    &&& header_ok(s)
    &&& current_crc == embedded_crc(s)
    &&& parse_stream(stream_of(s)) is Some
    &&& all_applicable(fields, hist, parse_stream(stream_of(s)).unwrap())
}

/// The concatenation of `s`'s byte vectors.
pub open spec fn fold_vecs(s: Seq<Vec<u8>>) -> Seq<u8>
    decreases s.len(),
{
    if s.len() == 0 {
        Seq::empty()
    } else {
        fold_vecs(s.drop_last()) + s.last()@
    }
}

/// The concatenation of the reported fields' bytes.
pub open spec fn fold_results(s: Seq<ResultModel>) -> Seq<u8>
    decreases s.len(),
{
    if s.len() == 0 {
        Seq::empty()
    } else {
        fold_results(s.drop_last()) + s.last().data
    }
}

/// The engine: one side of a synchronised field collection.
pub struct SimpleDirectDeltaEncoding {
    /// The fields, one slot per index.
    pub data_collection: Vec<Option<Vec<u8>>>,
    /// The fingerprint of the collection as of the last `new`, `load` or
    /// `apply_patch`.
    pub crc: Vec<u8>,
    /// Names staged for the next `patch`, one slot per index.
    pub index_mapping: Vec<Option<Vec<u8>>>,
    /// The rename history, one slot per index.
    pub last_index_mapping: Vec<Option<HistoryValue>>,
}

impl SimpleDirectDeltaEncoding {
    /// The invariant: one slot per index in each table, and a CRC that fits
    /// its one-byte length prefix.
    pub open spec fn wf(&self) -> bool {
        &&& self.data_collection@.len() == 256
        &&& self.index_mapping@.len() == 256
        &&& self.last_index_mapping@.len() == 256
        &&& self.crc@.len() <= 255
    }

    /// The fields, one slot per index.
    pub open spec fn fields(&self) -> Seq<Option<Seq<u8>>> {
        view_slots(self.data_collection@)
    }

    /// The staged names, one slot per index.
    pub open spec fn pending(&self) -> Seq<Option<Seq<u8>>> {
        view_slots(self.index_mapping@)
    }

    /// The rename history, one slot per index.
    pub open spec fn history(&self) -> Seq<Option<HistoryModel>> {
        view_history(self.last_index_mapping@)
    }

    /// An engine that holds `data` and the CRC of its folded bytes.
    pub fn new(data: &[IndexedData]) -> (r: SimpleDirectDeltaEncoding)
        ensures
            r.wf(),
            r.fields() == slots_of(data@),
            r.crc@ == crc_digest(fold_all(r.fields())),
            r.pending() == no_slots(),
            r.history() == Seq::new(256, |k: int| None::<HistoryModel>),
    {
        let slots = slots_from(data);
        let bytes = fold_table(&slots);
        let crc = crc_of(bytes.as_slice());
        Self::with_slots(slots, crc)
    }

    /// An engine that holds `data` and trusts `crc` as its fingerprint.
    pub fn load(data: &[IndexedData], crc: Vec<u8>) -> (r: SimpleDirectDeltaEncoding)
        requires
            crc@.len() <= 255,
        ensures
            r.wf(),
            r.fields() == slots_of(data@),
            r.crc@ == crc@,
            r.pending() == no_slots(),
            r.history() == Seq::new(256, |k: int| None::<HistoryModel>),
    {
        let slots = slots_from(data);
        Self::with_slots(slots, crc)
    }

    fn with_slots(slots: Vec<Option<Vec<u8>>>, crc: Vec<u8>) -> (r: SimpleDirectDeltaEncoding)
        requires
            slots@.len() == 256,
            crc@.len() <= 255,
        ensures
            r.wf(),
            r.fields() == view_slots(slots@),
            r.crc@ == crc@,
            r.pending() == no_slots(),
            r.history() == Seq::new(256, |k: int| None::<HistoryModel>),
    {
        let mut pending: Vec<Option<Vec<u8>>> = Vec::new();
        let mut hist: Vec<Option<HistoryValue>> = Vec::new();
        let mut k: usize = 0;
        while k < SLOTS
            invariant
                k <= SLOTS,
                pending@.len() == k,
                hist@.len() == k,
                forall|j: int| 0 <= j < k ==> pending@[j] is None && hist@[j] is None,
            decreases SLOTS - k,
        {
            pending.push(None);
            hist.push(None);
            k = k + 1;
        }
        let r = SimpleDirectDeltaEncoding {
            data_collection: slots,
            crc,
            index_mapping: pending,
            last_index_mapping: hist,
        };
        assert(r.pending() =~= no_slots());
        assert(r.history() =~= Seq::new(256, |k: int| None::<HistoryModel>));
        r
    }

    /// Stages `key` as the name of field `index`, for the next `patch` or
    /// `apply_index_mappings`.
    pub fn change_index_mapping(&mut self, index: u8, key: &[u8])
        requires
            old(self).wf(),
        ensures
            final(self).wf(),
            final(self).pending() == old(self).pending().update(index as int, Some(key@)),
            final(self).fields() == old(self).fields(),
            final(self).history() == old(self).history(),
            final(self).crc == old(self).crc,
    {
        self.index_mapping.set(index as usize, Some(copy_bytes(key)));
        assert(self.pending() =~= old(self).pending().update(index as int, Some(key@)));
    }

    /// Commits every staged name directly into the rename history, as the
    /// current name with no previous one, without producing a patch.
    pub fn apply_index_mappings(&mut self)
        requires
            old(self).wf(),
        ensures
            final(self).wf(),
            final(self).pending() == no_slots(),
            final(self).fields() == old(self).fields(),
            final(self).crc == old(self).crc,
            final(self).history() == baseline(old(self).pending(), old(self).history()),
    {
        let ghost target = baseline(old(self).pending(), old(self).history());
        let mut k: usize = 0;
        while k < SLOTS
            invariant
                k <= SLOTS,
                self.wf(),
                self.fields() == old(self).fields(),
                self.crc == old(self).crc,
                self.pending() == old(self).pending(),
                target == baseline(old(self).pending(), old(self).history()),
                forall|j: int| 0 <= j < k ==> #[trigger] self.history()[j] == target[j],
                forall|j: int| k <= j < 256 ==> #[trigger] self.history()[j] == old(self).history()[j],
            decreases SLOTS - k,
        {
            let ghost prev = self.history();
            let staged = copy_slot(&self.index_mapping[k]);
            match staged {
                Some(key) => {
                    let h = HistoryValue::new(key);
                    self.last_index_mapping.set(k, Some(h));
                    assert(self.history() =~= prev.update(k as int, target[k as int]));
                },
                None => {},
            }
            k = k + 1;
        }
        assert(self.history() =~= target);
        let mut cleared: Vec<Option<Vec<u8>>> = Vec::new();
        let mut j: usize = 0;
        while j < SLOTS
            invariant
                j <= SLOTS,
                cleared@.len() == j,
                forall|i: int| 0 <= i < j ==> cleared@[i] is None,
            decreases SLOTS - j,
        {
            cleared.push(None);
            j = j + 1;
        }
        self.index_mapping = cleared;
        assert(self.pending() =~= no_slots());
    }

    /// Moves the engine to the fields `new_data` (a later entry wins where
    /// an index occurs twice) and returns the wire bytes that take a peer
    /// holding the previous state there. The CRC in the header is the
    /// engine's CRC before the call, which the call leaves as it is. Staged
    /// names are diffed against the history and committed, except for
    /// removed fields, and the staging area is cleared.
    pub fn patch(&mut self, new_data: &[IndexedData]) -> (r: Vec<u8>)
        requires
            old(self).wf(),
        ensures
            final(self).wf(),
            r@ == patch_bytes(
                old(self).crc@,
                old(self).fields(),
                slots_of(new_data@),
                old(self).pending(),
                old(self).history(),
            ),
            final(self).fields() == slots_of(new_data@),
            final(self).crc == old(self).crc,
            final(self).pending() == no_slots(),
            final(self).history() == patched_histories(
                old(self).fields(),
                slots_of(new_data@),
                old(self).pending(),
                old(self).history(),
            ),
    {
        let new_slots = slots_from(new_data);
        let mut out: Vec<u8> = Vec::new();
        out.push(self.crc.len() as u8);
        push_range(&mut out, self.crc.as_slice(), 0, self.crc.len());
        assert(self.crc@.subrange(0, self.crc@.len() as int) =~= self.crc@);
        write_values(&mut out, &self.data_collection, &new_slots);
        write_removals(&mut out, &self.data_collection, &new_slots);
        write_renames(
            &mut out,
            &self.data_collection,
            &new_slots,
            &self.index_mapping,
            &mut self.last_index_mapping,
        );
        assert(out@ =~= patch_bytes(
            old(self).crc@,
            old(self).fields(),
            slots_of(new_data@),
            old(self).pending(),
            old(self).history(),
        ));
        self.data_collection = new_slots;
        self.index_mapping = empty_slots();
        out
    }

    /// Replays the patch `diff_data` on this engine. Nothing changes unless
    /// the header is complete, the embedded CRC is that of the current
    /// folded fields, the stream parses and every entry replays; then each
    /// decoded field is removed or patched (created where new), each name
    /// change is committed to the history, the CRC becomes the embedded one,
    /// and the changed fields are reported in ascending index order.
    pub fn apply_patch(&mut self, diff_data: &[u8]) -> (r: Result<Vec<IndexedDataResult>, SDDEError>)
        requires
            old(self).wf(),
        ensures
            final(self).wf(),
            r is Ok <==> apply_ok(old(self).fields(), old(self).history(), diff_data@),
            r matches Err(e) ==> *final(self) == *old(self) && (e is CRC || e is DifferenceInvalid)
                && (e is CRC <==> (header_ok(diff_data@) && crc_digest(fold_all(old(self).fields()))
                != embedded_crc(diff_data@))),
            r matches Ok(res) ==> {
                let t = parse_stream(stream_of(diff_data@)).unwrap();
                &&& final(self).fields() == patched_fields(old(self).fields(), t)
                &&& final(self).history() == renamed_all(old(self).history(), t)
                &&& final(self).crc@ == embedded_crc(diff_data@)
                &&& final(self).pending() == old(self).pending()
                &&& view_results(res@) == results_upto(
                    old(self).fields(),
                    old(self).history(),
                    t,
                    256,
                )
            },
    {
        let folded = fold_table(&self.data_collection);
        let crc = crc_of(folded.as_slice());
        self.apply_patch_with_crc(diff_data, crc)
    }

    /// `apply_patch`, with `current_crc` standing for the CRC of the current
    /// folded fields.
    pub fn apply_patch_with_crc(&mut self, diff_data: &[u8], current_crc: Vec<u8>) -> (r: Result<
        Vec<IndexedDataResult>,
        SDDEError,
    >)
        requires
            old(self).wf(),
        ensures
            final(self).wf(),
            r is Ok <==> apply_ok_with(current_crc@, old(self).fields(), old(self).history(), diff_data@),
            r matches Err(e) ==> *final(self) == *old(self) && (e is CRC || e is DifferenceInvalid)
                && (e is CRC <==> (header_ok(diff_data@) && current_crc@ != embedded_crc(diff_data@))),
            r matches Ok(res) ==> {
                let t = parse_stream(stream_of(diff_data@)).unwrap();
                &&& final(self).fields() == patched_fields(old(self).fields(), t)
                &&& final(self).history() == renamed_all(old(self).history(), t)
                &&& final(self).crc@ == embedded_crc(diff_data@)
                &&& final(self).pending() == old(self).pending()
                &&& view_results(res@) == results_upto(
                    old(self).fields(),
                    old(self).history(),
                    t,
                    256,
                )
            },
    {
        let len = diff_data.len();
        if len == 0 || diff_data[0] as usize > len - 1 {
            return Err(invalid_difference());
        }
        let n = diff_data[0] as usize;
        let embedded = vstd::slice::slice_subrange(diff_data, 1, 1 + n);
        if !bytes_equal(current_crc.as_slice(), embedded) {
            return Err(crc_mismatch());
        }
        let rest = vstd::slice::slice_subrange(diff_data, 1 + n, len);
        let table = match read_stream(rest) {
            Some(t) => t,
            None => {
                return Err(invalid_difference());
            },
        };
        let ghost f = self.fields();
        let ghost h = self.history();
        let ghost t = view_entries(table@);
        assert(embedded@ =~= embedded_crc(diff_data@));
        assert(rest@ =~= stream_of(diff_data@));
        let mut new_fields: Vec<Option<Vec<u8>>> = Vec::new();
        let mut new_hist: Vec<Option<HistoryValue>> = Vec::new();
        let mut results: Vec<IndexedDataResult> = Vec::new();
        let mut k: usize = 0;
        assert(view_slots(new_fields@) =~= patched_fields(f, t).take(0));
        assert(view_history(new_hist@) =~= renamed_all(h, t).take(0));
        assert(view_results(results@) =~= results_upto(f, h, t, 0));
        while k < SLOTS
            invariant
                k <= SLOTS,
                self == old(self),
                self.wf(),
                f == self.fields(),
                h == self.history(),
                table@.len() == 256,
                t == view_entries(table@),
                header_ok(diff_data@),
                current_crc@ == embedded_crc(diff_data@),
                parse_stream(stream_of(diff_data@)) == Some(t),
                view_slots(new_fields@) == patched_fields(f, t).take(k as int),
                view_history(new_hist@) == renamed_all(h, t).take(k as int),
                view_results(results@) == results_upto(f, h, t, k as int),
                forall|j: int| 0 <= j < k ==> #[trigger] entry_applicable(f[j], h[j], t[j]),
            decreases SLOTS - k,
        {
            assert(f[k as int] == view_slot(self.data_collection@[k as int]));
            assert(h[k as int] == view_hist_slot(self.last_index_mapping@[k as int]));
            assert(t[k as int] == match table@[k as int] {
                Some(x) => Some(x@),
                None => None::<EntryModel>,
            });
            let step = apply_slot(
                &self.data_collection[k],
                &self.last_index_mapping[k],
                &table[k],
                k as u8,
            );
            match step {
                None => {
                    return Err(invalid_difference());
                },
                Some((field, hist, res)) => {
                    let ghost fields_before = view_slots(new_fields@);
                    let ghost hist_before = view_history(new_hist@);
                    let ghost res_before = view_results(results@);
                    let ghost fv = view_slot(field);
                    let ghost hv = view_hist_slot(hist);
                    assert(patched_fields(f, t)[k as int] == fv);
                    assert(renamed_all(h, t)[k as int] == hv);
                    new_fields.push(field);
                    new_hist.push(hist);
                    assert(view_slots(new_fields@) =~= fields_before.push(fv));
                    assert(view_history(new_hist@) =~= hist_before.push(hv));
                    assert(view_slots(new_fields@) =~= patched_fields(f, t).take(k + 1));
                    assert(view_history(new_hist@) =~= renamed_all(h, t).take(k + 1));
                    match res {
                        Some(x) => {
                            results.push(x);
                            assert(view_results(results@) =~= res_before + seq![view_result(x)]);
                        },
                        None => {
                            assert(res_before + Seq::<ResultModel>::empty() =~= res_before);
                        },
                    }
                },
            }
            k = k + 1;
        }
        assert(all_applicable(f, h, t));
        assert(patched_fields(f, t).take(256) =~= patched_fields(f, t));
        assert(renamed_all(h, t).take(256) =~= renamed_all(h, t));
        self.data_collection = new_fields;
        self.last_index_mapping = new_hist;
        self.crc = current_crc;
        Ok(results)
    }

    /// The concatenation of `bytes`.
    pub fn fold_bytes(bytes: &[Vec<u8>]) -> (r: Vec<u8>)
        ensures
            r@ == fold_vecs(bytes@),
    {
        let mut out: Vec<u8> = Vec::new();
        let mut k: usize = 0;
        assert(bytes@.take(0) =~= Seq::<Vec<u8>>::empty());
        while k < bytes.len()
            invariant
                k <= bytes@.len(),
                out@ == fold_vecs(bytes@.take(k as int)),
            decreases bytes@.len() - k,
        {
            let v = &bytes[k];
            push_range(&mut out, v.as_slice(), 0, v.len());
            assert(v@.subrange(0, v@.len() as int) =~= v@);
            assert(bytes@.take(k + 1).drop_last() =~= bytes@.take(k as int));
            k = k + 1;
        }
        assert(bytes@.take(k as int) =~= bytes@);
        out
    }

    /// The concatenation of the reported fields' bytes, in the given order.
    pub fn fold_indexes(bytes: &[IndexedDataResult]) -> (r: Vec<u8>)
        ensures
            r@ == fold_results(view_results(bytes@)),
    {
        let ghost v = view_results(bytes@);
        let mut out: Vec<u8> = Vec::new();
        let mut k: usize = 0;
        assert(v.take(0) =~= Seq::<ResultModel>::empty());
        while k < bytes.len()
            invariant
                v == view_results(bytes@),
                k <= bytes@.len(),
                out@ == fold_results(v.take(k as int)),
            decreases bytes@.len() - k,
        {
            let d = &bytes[k].data;
            push_range(&mut out, d.as_slice(), 0, d.len());
            assert(d@.subrange(0, d@.len() as int) =~= d@);
            assert(v.take(k + 1).drop_last() =~= v.take(k as int));
            k = k + 1;
        }
        assert(v.take(k as int) =~= v);
        out
    }

    /// The stream of a patch after its CRC header.
    pub fn get_differences_bytes_with_crc(diff_bytes: &[u8]) -> (r: &[u8])
        requires
            header_ok(diff_bytes@),
        ensures
            r@ == stream_of(diff_bytes@),
    {
        let n = diff_bytes[0] as usize;
        vstd::slice::slice_subrange(diff_bytes, 1 + n, diff_bytes.len())
    }

    /// Decodes a patch into one entry slot per index, or reports
    /// `DifferenceInvalid` where the header or the stream is malformed.
    pub fn get_differences(diff_bytes: &[u8]) -> (r: Result<Vec<Option<EntryDifference>>, SDDEError>)
        ensures
            match r {
                Ok(t) => header_ok(diff_bytes@) && parse_stream(stream_of(diff_bytes@)) == Some(
                    view_entries(t@),
                ),
                Err(e) => e is DifferenceInvalid && !(header_ok(diff_bytes@) && parse_stream(
                    stream_of(diff_bytes@),
                ) is Some),
            },
    {
        let len = diff_bytes.len();
        if len == 0 || diff_bytes[0] as usize > len - 1 {
            return Err(invalid_difference());
        }
        let rest = Self::get_differences_bytes_with_crc(diff_bytes);
        match read_stream(rest) {
            Some(t) => Ok(t),
            None => Err(invalid_difference()),
        }
    }

    /// Checks that a patch is well formed without touching any engine.
    pub fn validate_patch_differences(diff_bytes: &[u8]) -> (r: Result<(), SDDEError>)
        ensures
            r is Ok <==> header_ok(diff_bytes@) && parse_stream(stream_of(diff_bytes@)) is Some,
            r matches Err(e) ==> e is DifferenceInvalid,
    {
        match Self::get_differences(diff_bytes) {
            Ok(_) => Ok(()),
            Err(e) => Err(e),
        }
    }

    /// The fields, in ascending index order.
    pub fn data_collection(&self) -> (r: Vec<IndexedData>)
        requires
            self.wf(),
        ensures
            forall|i: int, j: int| 0 <= i < j < r@.len() ==> r@[i].index < r@[j].index,
            slots_of(r@) == self.fields(),
    {
        let mut out: Vec<IndexedData> = Vec::new();
        let mut k: usize = 0;
        while k < SLOTS
            invariant
                k <= SLOTS,
                self.wf(),
                forall|i: int, j: int| 0 <= i < j < out@.len() ==> out@[i].index < out@[j].index,
                forall|i: int| 0 <= i < out@.len() ==> out@[i].index < k,
                forall|j: int| 0 <= j < 256 ==> #[trigger] slots_of(out@)[j] == if j < k {
                    self.fields()[j]
                } else {
                    None
                },
                slots_of(out@).len() == 256,
            decreases SLOTS - k,
        {
            match &self.data_collection[k] {
                Some(v) => {
                    let ghost before = out@;
                    out.push(IndexedData::new(k as u8, copy_bytes(v.as_slice())));
                    assert(out@.drop_last() == before);
                },
                None => {},
            }
            k = k + 1;
        }
        assert(slots_of(out@) =~= self.fields());
        out
    }

    /// The rename history, one slot per index.
    pub fn get_index_mapping(&self) -> (r: Vec<Option<HistoryValue>>)
        requires
            self.wf(),
        ensures
            view_history(r@) == self.history(),
    {
        let mut out: Vec<Option<HistoryValue>> = Vec::new();
        let mut k: usize = 0;
        assert(view_history(out@) =~= self.history().take(0));
        while k < SLOTS
            invariant
                k <= SLOTS,
                self.wf(),
                out@.len() == k,
                view_history(out@) == self.history().take(k as int),
            decreases SLOTS - k,
        {
            match &self.last_index_mapping[k] {
                Some(h) => {
                    out.push(Some(copy_history(h)));
                },
                None => {
                    out.push(None);
                },
            }
            assert(view_history(out@) =~= self.history().take(k + 1));
            k = k + 1;
        }
        assert(view_history(out@) =~= self.history());
        out
    }
}

fn copy_slot(o: &Option<Vec<u8>>) -> (r: Option<Vec<u8>>)
    ensures
        view_slot(r) == view_slot(*o),
{
    match o {
        Some(v) => Some(copy_bytes(v.as_slice())),
        None => None,
    }
}

fn copy_history(h: &HistoryValue) -> (r: HistoryValue)
    ensures
        r@ == h@,
{
    HistoryValue {
        current: copy_bytes(h.current.as_slice()),
        last: copy_bytes(h.last.as_slice()),
    }
}

/// The fields of `data`, one slot per index; a later entry wins.
fn slots_from(data: &[IndexedData]) -> (r: Vec<Option<Vec<u8>>>)
    ensures
        r@.len() == 256,
        view_slots(r@) == slots_of(data@),
{
    let mut t: Vec<Option<Vec<u8>>> = Vec::new();
    let mut k: usize = 0;
    while k < SLOTS
        invariant
            k <= SLOTS,
            t@.len() == k,
            forall|j: int| 0 <= j < k ==> t@[j] is None,
        decreases SLOTS - k,
    {
        t.push(None);
        k = k + 1;
    }
    assert(view_slots(t@) =~= slots_of(data@.take(0)));
    let mut i: usize = 0;
    while i < data.len()
        invariant
            i <= data@.len(),
            t@.len() == 256,
            view_slots(t@) == slots_of(data@.take(i as int)),
        decreases data@.len() - i,
    {
        let d = &data[i];
        t.set(d.index as usize, Some(copy_bytes(d.data.as_slice())));
        assert(data@.take(i + 1).drop_last() =~= data@.take(i as int));
        assert(view_slots(t@) =~= slots_of(data@.take(i + 1)));
        i = i + 1;
    }
    assert(data@.take(i as int) =~= data@);
    t
}

/// The folded bytes of a slot table.
fn fold_table(t: &Vec<Option<Vec<u8>>>) -> (r: Vec<u8>)
    requires
        t@.len() == 256,
    ensures
        r@ == fold_all(view_slots(t@)),
{
    let mut out: Vec<u8> = Vec::new();
    let mut k: usize = 0;
    while k < SLOTS
        invariant
            k <= SLOTS,
            t@.len() == 256,
            out@ == fold_slots(view_slots(t@), k as int),
        decreases SLOTS - k,
    {
        match &t[k] {
            Some(v) => {
                push_range(&mut out, v.as_slice(), 0, v.len());
                assert(v@.subrange(0, v@.len() as int) =~= v@);
            },
            None => {
                assert(fold_slots(view_slots(t@), k + 1) =~= fold_slots(view_slots(t@), k as int));
            },
        }
        k = k + 1;
    }
    out
}

fn empty_slots() -> (r: Vec<Option<Vec<u8>>>)
    ensures
        r@.len() == 256,
        view_slots(r@) == no_slots(),
{
    let mut t: Vec<Option<Vec<u8>>> = Vec::new();
    let mut k: usize = 0;
    while k < SLOTS
        invariant
            k <= SLOTS,
            t@.len() == k,
            forall|j: int| 0 <= j < k ==> t@[j] is None,
        decreases SLOTS - k,
    {
        t.push(None);
        k = k + 1;
    }
    assert(view_slots(t@) =~= no_slots());
    t
}

fn write_value_segment(out: &mut Vec<u8>, prev: &Option<Vec<u8>>, next: &Option<Vec<u8>>, k: u8)
    ensures
        final(out)@ == old(out)@ + value_segment(view_slot(*prev), view_slot(*next), k),
{
    match next {
        None => {
            assert(final(out)@ =~= old(out)@ + Seq::<u8>::empty());
        },
        Some(nv) => match prev {
            Some(ov) => {
                let d = DataDifference::diff(ov.as_slice(), nv.as_slice());
                let mut body: Vec<u8> = Vec::new();
                write_framed(&mut body, d.as_slice());
                assert(body@ =~= framed_records(diff_records(ov@, nv@)));
                if body.len() > 0 {
                    out.push(TOKEN_INDEX);
                    out.push(k);
                    push_range(out, body.as_slice(), 0, body.len());
                    assert(body@.subrange(0, body@.len() as int) =~= body@);
                    assert(final(out)@ =~= old(out)@ + (seq![TOKEN_INDEX, k] + body@));
                } else {
                    assert(final(out)@ =~= old(out)@ + Seq::<u8>::empty());
                }
            },
            None => {
                out.push(TOKEN_INDEX);
                out.push(k);
                let empty: Vec<u8> = Vec::new();
                let d = DataDifference::diff(empty.as_slice(), nv.as_slice());
                write_framed(out, d.as_slice());
                assert(empty@ =~= Seq::<u8>::empty());
                assert(final(out)@ =~= old(out)@ + (seq![TOKEN_INDEX, k] + framed_records(
                    diff_records(Seq::empty(), nv@),
                )));
            },
        },
    }
}

fn write_values(out: &mut Vec<u8>, prev: &Vec<Option<Vec<u8>>>, next: &Vec<Option<Vec<u8>>>)
    requires
        prev@.len() == 256,
        next@.len() == 256,
    ensures
        final(out)@ == old(out)@ + values_upto(view_slots(prev@), view_slots(next@), 256),
{
    let mut k: usize = 0;
    assert(old(out)@ =~= old(out)@ + values_upto(view_slots(prev@), view_slots(next@), 0));
    while k < SLOTS
        invariant
            k <= SLOTS,
            prev@.len() == 256,
            next@.len() == 256,
            out@ == old(out)@ + values_upto(view_slots(prev@), view_slots(next@), k as int),
        decreases SLOTS - k,
    {
        write_value_segment(out, &prev[k], &next[k], k as u8);
        assert(out@ =~= old(out)@ + values_upto(view_slots(prev@), view_slots(next@), k + 1));
        k = k + 1;
    }
}

fn write_removals(out: &mut Vec<u8>, prev: &Vec<Option<Vec<u8>>>, next: &Vec<Option<Vec<u8>>>)
    requires
        prev@.len() == 256,
        next@.len() == 256,
    ensures
        final(out)@ == old(out)@ + removals_upto(view_slots(prev@), view_slots(next@), 256),
{
    let mut k: usize = 0;
    assert(old(out)@ =~= old(out)@ + removals_upto(view_slots(prev@), view_slots(next@), 0));
    while k < SLOTS
        invariant
            k <= SLOTS,
            prev@.len() == 256,
            next@.len() == 256,
            out@ == old(out)@ + removals_upto(view_slots(prev@), view_slots(next@), k as int),
        decreases SLOTS - k,
    {
        if prev[k].is_some() && next[k].is_none() {
            out.push(TOKEN_INDEX);
            out.push(k as u8);
            out.push(TOKEN_REMOVE);
        }
        assert(out@ =~= old(out)@ + removals_upto(view_slots(prev@), view_slots(next@), k + 1));
        k = k + 1;
    }
}

fn write_rename_segment(
    out: &mut Vec<u8>,
    removed: bool,
    key: &Option<Vec<u8>>,
    h: &Option<HistoryValue>,
    k: u8,
) -> (r: Option<HistoryValue>)
    ensures
        final(out)@ == old(out)@ + rename_segment(removed, view_slot(*key), view_hist_slot(*h), k),
        view_hist_slot(r) == patched_history(removed, view_slot(*key), view_hist_slot(*h)),
{
    match key {
        None => {
            assert(final(out)@ =~= old(out)@ + Seq::<u8>::empty());
            match h {
                Some(h) => Some(copy_history(h)),
                None => None,
            }
        },
        Some(key) => {
            if removed {
                assert(final(out)@ =~= old(out)@ + Seq::<u8>::empty());
                return match h {
                    Some(h) => Some(copy_history(h)),
                    None => None,
                };
            }
            let current = match h {
                Some(h) => copy_bytes(h.current.as_slice()),
                None => Vec::new(),
            };
            assert(current@ =~= history_name(view_hist_slot(*h)));
            let d = DataDifference::diff(current.as_slice(), key.as_slice());
            let mut body: Vec<u8> = Vec::new();
            write_framed(&mut body, d.as_slice());
            assert(body@ =~= framed_records(diff_records(current@, key@)));
            if body.len() > 0 {
                out.push(TOKEN_INDEX);
                out.push(k);
                out.push(TOKEN_RENAME);
                write_varint(out, body.len());
                push_range(out, body.as_slice(), 0, body.len());
                assert(body@.subrange(0, body@.len() as int) =~= body@);
                assert(final(out)@ =~= old(out)@ + (seq![TOKEN_INDEX, k, TOKEN_RENAME]
                    + varint_bytes(body@.len()) + body@));
            } else {
                assert(final(out)@ =~= old(out)@ + Seq::<u8>::empty());
            }
            Some(HistoryValue { current: copy_bytes(key.as_slice()), last: current })
        },
    }
}

fn write_renames(
    out: &mut Vec<u8>,
    prev: &Vec<Option<Vec<u8>>>,
    next: &Vec<Option<Vec<u8>>>,
    pending: &Vec<Option<Vec<u8>>>,
    hist: &mut Vec<Option<HistoryValue>>,
)
    requires
        prev@.len() == 256,
        next@.len() == 256,
        pending@.len() == 256,
        old(hist)@.len() == 256,
    ensures
        final(out)@ == old(out)@ + renames_upto(
            view_slots(prev@),
            view_slots(next@),
            view_slots(pending@),
            view_history(old(hist)@),
            256,
        ),
        final(hist)@.len() == 256,
        view_history(final(hist)@) == patched_histories(
            view_slots(prev@),
            view_slots(next@),
            view_slots(pending@),
            view_history(old(hist)@),
        ),
{
    let ghost o = view_slots(prev@);
    let ghost n = view_slots(next@);
    let ghost p = view_slots(pending@);
    let ghost h0 = view_history(old(hist)@);
    let ghost target = patched_histories(o, n, p, h0);
    let mut k: usize = 0;
    assert(old(out)@ =~= old(out)@ + renames_upto(o, n, p, h0, 0));
    while k < SLOTS
        invariant
            k <= SLOTS,
            prev@.len() == 256,
            next@.len() == 256,
            pending@.len() == 256,
            hist@.len() == 256,
            o == view_slots(prev@),
            n == view_slots(next@),
            p == view_slots(pending@),
            h0 == view_history(old(hist)@),
            h0.len() == 256,
            target == patched_histories(o, n, p, h0),
            out@ == old(out)@ + renames_upto(o, n, p, h0, k as int),
            forall|j: int| 0 <= j < k ==> #[trigger] view_history(hist@)[j] == target[j],
            forall|j: int| k <= j < 256 ==> #[trigger] view_history(hist@)[j] == h0[j],
        decreases SLOTS - k,
    {
        let ghost hist_before = view_history(hist@);
        let removed = prev[k].is_some() && next[k].is_none();
        assert(removed == is_removed(o[k as int], n[k as int]));
        assert(hist_before[k as int] == h0[k as int]);
        let nh = write_rename_segment(out, removed, &pending[k], &hist[k], k as u8);
        hist.set(k, nh);
        assert(view_history(hist@) =~= hist_before.update(k as int, target[k as int]));
        assert(out@ =~= old(out)@ + renames_upto(o, n, p, h0, k + 1));
        k = k + 1;
    }
    assert(view_history(hist@) =~= target);
}

pub(crate) fn bytes_equal(a: &[u8], b: &[u8]) -> (r: bool)
    ensures
        r == (a@ == b@),
{
    if a.len() != b.len() {
        return false;
    }
    let mut i: usize = 0;
    while i < a.len()
        invariant
            a@.len() == b@.len(),
            i <= a@.len(),
            forall|j: int| 0 <= j < i ==> a@[j] == b@[j],
        decreases a@.len() - i,
    {
        if a[i] != b[i] {
            return false;
        }
        i = i + 1;
    }
    assert(a@ =~= b@);
    true
}

fn copy_hist_slot(o: &Option<HistoryValue>) -> (r: Option<HistoryValue>)
    ensures
        view_hist_slot(r) == view_hist_slot(*o),
{
    match o {
        Some(h) => Some(copy_history(h)),
        None => None,
    }
}

/// Replays the decoded entry `e` on field `k` and its history entry: the new
/// field, the new history entry and what is reported, or `None` where the
/// entry does not replay.
fn apply_slot(
    field: &Option<Vec<u8>>,
    h: &Option<HistoryValue>,
    e: &Option<EntryDifference>,
    k: u8,
) -> (r: Option<(Option<Vec<u8>>, Option<HistoryValue>, Option<IndexedDataResult>)>)
    ensures
        r is Some <==> entry_applicable(
            view_slot(*field),
            view_hist_slot(*h),
            match *e {
                Some(x) => Some(x@),
                None => None,
            },
        ),
        r matches Some(out) ==> {
            let ev = match *e {
                Some(x) => Some(x@),
                None => None,
            };
            &&& view_slot(out.0) == patched_field(view_slot(*field), ev)
            &&& view_hist_slot(out.1) == renamed(view_hist_slot(*h), ev)
            &&& result_of(view_slot(*field), view_hist_slot(*h), ev, k) == match out.2 {
                Some(x) => seq![view_result(x)],
                None => Seq::empty(),
            }
        },
{
    match e {
        None => Some((copy_slot(field), copy_hist_slot(h), None)),
        Some(e) => {
            if e.remove_entry {
                return Some((None, copy_hist_slot(h), None));
            }
            let base = match field {
                Some(v) => copy_bytes(v.as_slice()),
                None => Vec::new(),
            };
            assert(base@ =~= slot_bytes(view_slot(*field)));
            if !diffs_applicable(base.len(), e.diffs.as_slice()) {
                return None;
            }
            let data = DataDifference::apply_diff(base.as_slice(), e.diffs.as_slice());
            match &e.map_name_changed {
                Some(rename) => {
                    let current = match h {
                        Some(hv) => copy_bytes(hv.current.as_slice()),
                        None => Vec::new(),
                    };
                    assert(current@ =~= history_name(view_hist_slot(*h)));
                    if !diffs_applicable(current.len(), rename.as_slice()) {
                        return None;
                    }
                    let name = DataDifference::apply_diff(current.as_slice(), rename.as_slice());
                    let res = IndexedDataResult {
                        index: k,
                        data: copy_bytes(data.as_slice()),
                        map_name_changed: Some(copy_bytes(name.as_slice())),
                    };
                    let nh = HistoryValue { current: name, last: current };
                    Some((Some(data), Some(nh), Some(res)))
                },
                None => {
                    let res = IndexedDataResult {
                        index: k,
                        data: copy_bytes(data.as_slice()),
                        map_name_changed: None,
                    };
                    Some((Some(data), copy_hist_slot(h), Some(res)))
                },
            }
        },
    }
}

} // verus!
