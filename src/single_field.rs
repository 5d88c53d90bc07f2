//! The single-field engine: one byte buffer, patched and applied with the
//! same records and CRC header as the multi-field engine, without headers
//! or control tokens.

use vstd::prelude::*;
use crate::crc::{crc_digest, crc_of};
use crate::data_difference::{
    apply_records, diff_records, diffs_applicable, lemma_diff_records_shape, lemma_diff_round_trip,
    records_applicable, DataDifference,
};
use crate::difference::{copy_bytes, push_range, record_bytes};
use crate::engine::{bytes_equal, embedded_crc, header_ok, stream_of};
use crate::error::{crc_mismatch, invalid_difference, SDDEError};
use crate::stream::{
    framable, framed_records, lemma_framed_round_trip, parse_records, read_framed, write_framed,
};
use crate::varint::is_tag_literal;

verus! {

/// One side of a synchronised byte buffer.
pub struct SimpleDirectDeltaEncoding {
    pub data: Vec<u8>,
    /// The fingerprint of `data` as of the last `new` or `apply_patch`.
    pub crc: Vec<u8>,
}

/// Whether `apply_patch` accepts the patch `s` on the buffer `data` whose
/// CRC is `current_crc`.
pub open spec fn single_apply_ok(current_crc: Seq<u8>, data: Seq<u8>, s: Seq<u8>) -> bool {
    &&& header_ok(s)
    &&& current_crc == embedded_crc(s)
    &&& parse_records(stream_of(s)) is Some
    &&& records_applicable(data.len(), parse_records(stream_of(s)).unwrap())
}

/// A patch that `patch` makes from `old` to `new` under the CRC `crc` is
/// accepted by `apply_patch_with_crc` on a peer that holds `old` under the
/// same CRC, and turns `old` into `new`; unless a record's start, length or
/// form length would read as a width tag, or the patch outgrows `usize`.
pub proof fn lemma_single_field_round_trip(crc: Seq<u8>, old: Seq<u8>, new: Seq<u8>)
    requires
        crc.len() <= 255,
        old.len() <= usize::MAX,
        new.len() <= usize::MAX,
        forall|k: int|
            0 <= k < diff_records(old, new).len() ==> {
                let r = #[trigger] diff_records(old, new)[k];
                &&& !is_tag_literal(r.start)
                &&& !is_tag_literal(r.length)
                &&& !is_tag_literal(record_bytes(r).len())
            },
        1 + crc.len() + framed_records(diff_records(old, new)).len() <= usize::MAX,
    ensures
        ({
            let s = seq![crc.len() as u8] + crc + framed_records(diff_records(old, new));
            &&& single_apply_ok(crc, old, s)
            &&& apply_records(old, parse_records(stream_of(s)).unwrap()) == new
        }),
{
    let recs = diff_records(old, new);
    let body = framed_records(recs);
    let s = seq![crc.len() as u8] + crc + body;
    lemma_diff_records_shape(old, new);
    assert forall|k: int| 0 <= k < recs.len() implies framable(#[trigger] recs[k]) by {}
    lemma_framed_round_trip(recs);
    lemma_diff_round_trip(old, new);
    assert(s[0] == crc.len());
    assert(embedded_crc(s) =~= crc);
    assert(stream_of(s) =~= body);
}

impl SimpleDirectDeltaEncoding {
    /// An engine that holds `data` and its CRC.
    pub fn new(data: Vec<u8>) -> (r: SimpleDirectDeltaEncoding)
        ensures
            r.data@ == data@,
            r.crc@ == crc_digest(data@),
            r.crc@.len() <= 255,
    {
        let crc = crc_of(data.as_slice());
        SimpleDirectDeltaEncoding { data, crc }
    }

    /// Moves the buffer to `new_data` and returns the CRC header (of the
    /// CRC before the call, which stays) followed by the framed records of
    /// the diff.
    pub fn patch(&mut self, new_data: &[u8]) -> (r: Vec<u8>)
        requires
            old(self).crc@.len() <= 255,
        ensures
            r@ == seq![old(self).crc@.len() as u8] + old(self).crc@ + framed_records(
                diff_records(old(self).data@, new_data@),
            ),
            final(self).data@ == new_data@,
            final(self).crc == old(self).crc,
    {
        let last_diff = DataDifference::diff(self.data.as_slice(), new_data);
        self.data = copy_bytes(new_data);
        let mut diff_data: Vec<u8> = Vec::new();
        diff_data.push(self.crc.len() as u8);
        push_range(&mut diff_data, self.crc.as_slice(), 0, self.crc.len());
        assert(self.crc@.subrange(0, self.crc@.len() as int) =~= self.crc@);
        write_framed(&mut diff_data, last_diff.as_slice());
        diff_data
    }

    /// Replays the patch `diff_data` on the buffer and returns the new
    /// buffer. Nothing changes unless the header is complete, the embedded
    /// CRC is that of the buffer, the records parse and replay; then the CRC
    /// becomes the embedded one.
    pub fn apply_patch(&mut self, diff_data: &[u8]) -> (r: Result<Vec<u8>, SDDEError>)
        ensures
            r is Ok <==> single_apply_ok(crc_digest(old(self).data@), old(self).data@, diff_data@),
            r matches Err(e) ==> *final(self) == *old(self) && (e is CRC || e is DifferenceInvalid)
                && (e is CRC <==> (header_ok(diff_data@) && crc_digest(old(self).data@)
                != embedded_crc(diff_data@))),
            r matches Ok(v) ==> {
                &&& v@ == apply_records(
                    old(self).data@,
                    parse_records(stream_of(diff_data@)).unwrap(),
                )
                &&& final(self).data@ == v@
                &&& final(self).crc@ == embedded_crc(diff_data@)
            },
    {
        let crc = crc_of(self.data.as_slice());
        self.apply_patch_with_crc(diff_data, crc)
    }

    /// `apply_patch`, with `current_crc` standing for the CRC of the buffer.
    pub fn apply_patch_with_crc(&mut self, diff_data: &[u8], current_crc: Vec<u8>) -> (r: Result<
        Vec<u8>,
        SDDEError,
    >)
        ensures
            r is Ok <==> single_apply_ok(current_crc@, old(self).data@, diff_data@),
            r matches Err(e) ==> *final(self) == *old(self) && (e is CRC || e is DifferenceInvalid)
                && (e is CRC <==> (header_ok(diff_data@) && current_crc@ != embedded_crc(diff_data@))),
            r matches Ok(v) ==> {
                &&& v@ == apply_records(
                    old(self).data@,
                    parse_records(stream_of(diff_data@)).unwrap(),
                )
                &&& final(self).data@ == v@
                &&& final(self).crc@ == embedded_crc(diff_data@)
            },
    {
        let len = diff_data.len();
        if len == 0 || diff_data[0] as usize > len - 1 {
            return Err(invalid_difference());
        }
        let n = diff_data[0] as usize;
        let crc_value = vstd::slice::slice_subrange(diff_data, 1, 1 + n);
        let diff_bytes = vstd::slice::slice_subrange(diff_data, 1 + n, len);
        assert(crc_value@ =~= embedded_crc(diff_data@));
        assert(diff_bytes@ =~= stream_of(diff_data@));
        if !bytes_equal(current_crc.as_slice(), crc_value) {
            return Err(crc_mismatch());
        }
        let diffs = match read_framed(diff_bytes) {
            Some(d) => d,
            None => {
                return Err(invalid_difference());
            },
        };
        if !diffs_applicable(self.data.len(), diffs.as_slice()) {
            return Err(invalid_difference());
        }
        let data = DataDifference::apply_diff(self.data.as_slice(), diffs.as_slice());
        self.data = copy_bytes(data.as_slice());
        self.crc = current_crc;
        Ok(data)
    }
}

} // verus!
