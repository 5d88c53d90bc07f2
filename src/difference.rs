//! One atomic change over a byte range, and its binary record form:
//! `[action tag] ':' varint(start) '-' varint(length) [value]`.

use vstd::prelude::*;
use crate::error::{SDDEError, invalid_difference};
use crate::varint::{
    decode_varint, is_tag_literal, lemma_varint_round_trip, read_varint, read_varint_at,
    varint_bytes, write_varint, TAG_U16, TAG_U32, TAG_U64,
};

verus! {

/// Wire tag of a Replace record.
pub const TAG_REPLACE: u8 = 0x72;

/// Wire tag of an Insert record.
pub const TAG_INSERT: u8 = 0x69;

/// Wire tag of a Delete record.
pub const TAG_DELETE: u8 = 0x64;

/// Separator after the action tag.
pub const SEP_ACTION: u8 = 0x3A;

/// Separator between start and length.
pub const SEP_RANGE: u8 = 0x2D;

/// The kind of change a record makes.
#[derive(Debug, Clone, Copy, PartialEq, Eq, Structural)]
pub enum DifferenceAction {
    Replace,
    Insert,
    Delete,
}

/// The wire tag of an action.
pub open spec fn action_tag(a: DifferenceAction) -> u8 {
    match a {
        DifferenceAction::Replace => TAG_REPLACE,
        DifferenceAction::Insert => TAG_INSERT,
        DifferenceAction::Delete => TAG_DELETE,
    }
}

/// The action a wire tag stands for, if any.
pub open spec fn action_of_tag(t: u8) -> Option<DifferenceAction> {
    if t == TAG_REPLACE {
        Some(DifferenceAction::Replace)
    } else if t == TAG_INSERT {
        Some(DifferenceAction::Insert)
    } else if t == TAG_DELETE {
        Some(DifferenceAction::Delete)
    } else {
        None
    }
}

impl DifferenceAction {
    /// The action that the wire tag `value` stands for, or `None` for any
    /// other byte.
    pub fn from_tag(value: u8) -> (r: Option<DifferenceAction>)
        ensures
            r == action_of_tag(value),
    {
        if value == TAG_REPLACE {
            Some(DifferenceAction::Replace)
        } else if value == TAG_INSERT {
            Some(DifferenceAction::Insert)
        } else if value == TAG_DELETE {
            Some(DifferenceAction::Delete)
        } else {
            None
        }
    }

    /// The wire tag of this action.
    pub fn to_tag(self) -> (r: u8)
        ensures
            r == action_tag(self),
    {
        match self {
            DifferenceAction::Replace => TAG_REPLACE,
            DifferenceAction::Insert => TAG_INSERT,
            DifferenceAction::Delete => TAG_DELETE,
        }
    }
}

impl From<DifferenceAction> for u8 {
    fn from(val: DifferenceAction) -> (r: u8) {
        val.to_tag()
    }
}

impl vstd::std_specs::convert::FromSpecImpl<DifferenceAction> for u8 {
    open spec fn obeys_from_spec() -> bool {
        true
    }

    open spec fn from_spec(v: DifferenceAction) -> u8 {
        action_tag(v)
    }
}

/// A half-open byte range `[start, start + length)`.
#[derive(Debug, PartialEq, Eq, Structural)]
pub struct Range {
    pub start: usize,
    pub length: usize,
}

impl Range {
    pub fn new(start: usize, length: usize) -> (r: Self)
        ensures
            r.start == start,
            r.length == length,
    {
        Self { start, length }
    }
}

/// The width of a variable-width integer.
#[derive(Debug, PartialEq, Eq, Structural)]
pub enum USizeType {
    /// One literal byte, 0 to 255.
    U8,
    /// Tag `s` and two big-endian bytes.
    U16,
    /// Tag `i` and four big-endian bytes.
    U32,
    /// Tag `l` and eight big-endian bytes.
    U64,
}

/// The width that an encoding starting with `value` has.
pub open spec fn usize_type_of(value: u8) -> USizeType {
    if value == TAG_U16 {
        USizeType::U16
    } else if value == TAG_U32 {
        USizeType::U32
    } else if value == TAG_U64 {
        USizeType::U64
    } else {
        USizeType::U8
    }
}

/// The tag byte of a width; the literal width has none and yields `u`.
pub open spec fn usize_type_tag(t: USizeType) -> u8 {
    match t {
        USizeType::U16 => TAG_U16,
        USizeType::U32 => TAG_U32,
        USizeType::U64 => TAG_U64,
        USizeType::U8 => 0x75,
    }
}

impl From<u8> for USizeType {
    fn from(value: u8) -> (r: Self) {
        if value == TAG_U16 {
            USizeType::U16
        } else if value == TAG_U32 {
            USizeType::U32
        } else if value == TAG_U64 {
            USizeType::U64
        } else {
            USizeType::U8
        }
    }
}

impl vstd::std_specs::convert::FromSpecImpl<u8> for USizeType {
    open spec fn obeys_from_spec() -> bool {
        true
    }

    open spec fn from_spec(v: u8) -> USizeType {
        usize_type_of(v)
    }
}

impl From<USizeType> for u8 {
    fn from(val: USizeType) -> (r: u8) {
        match val {
            USizeType::U16 => TAG_U16,
            USizeType::U32 => TAG_U32,
            USizeType::U64 => TAG_U64,
            USizeType::U8 => 0x75,
        }
    }
}

impl vstd::std_specs::convert::FromSpecImpl<USizeType> for u8 {
    open spec fn obeys_from_spec() -> bool {
        true
    }

    open spec fn from_spec(v: USizeType) -> u8 {
        usize_type_tag(v)
    }
}

/// The mathematical content of a `Difference`.
pub struct DiffRecord {
    pub action: DifferenceAction,
    pub start: nat,
    pub length: nat,
    pub value: Seq<u8>,
    pub open: bool,
}

/// One change: Replace and Insert carry the new bytes in `value`, Delete
/// carries none. `is_open` is construction state of the diff pass and is not
/// part of the record form.
#[derive(Debug)]
pub struct Difference {
    pub action: DifferenceAction,
    pub range: Range,
    pub value: Vec<u8>,
    pub is_open: bool,
}

impl View for Difference {
    type V = DiffRecord;

    open spec fn view(&self) -> DiffRecord {
        DiffRecord {
            action: self.action,
            start: self.range.start as nat,
            length: self.range.length as nat,
            value: self.value@,
            open: self.is_open,
        }
    }
}

/// The views of a sequence of differences.
pub open spec fn view_diffs(s: Seq<Difference>) -> Seq<DiffRecord> {
    s.map_values(|d: Difference| d@)
}

/// The record form of `d`.
pub open spec fn record_bytes(d: DiffRecord) -> Seq<u8> {
    seq![action_tag(d.action), SEP_ACTION] + varint_bytes(d.start) + seq![SEP_RANGE]
        + varint_bytes(d.length) + if d.action == DifferenceAction::Delete {
        Seq::empty()
    } else {
        d.value
    }
}

/// Parses a record form: `None` where the tag is unknown, an integer is
/// truncated or exceeds `usize`, or the value's length is not the range's
/// length (a Delete carries no value). The separators are skipped unread.
pub open spec fn parse_record(s: Seq<u8>) -> Option<DiffRecord> {
    if s.len() < 2 {
        None
    } else {
        match action_of_tag(s[0]) {
            None => None,
            Some(a) => match decode_varint(s.subrange(2, s.len() as int)) {
                None => None,
                Some(first_int) => {
                    let off: int = 2 + first_int.1 as int + 1;
                    if off > s.len() || first_int.0 > usize::MAX {
                        None
                    } else {
                        match decode_varint(s.subrange(off, s.len() as int)) {
                            None => None,
                            Some(second_int) => {
                                let rest = s.subrange(off + second_int.1 as int, s.len() as int);
                                if second_int.0 > usize::MAX {
                                    None
                                } else if a == DifferenceAction::Delete {
                                    if rest.len() == 0 {
                                        Some(
                                            DiffRecord {
                                                action: a,
                                                start: first_int.0,
                                                length: second_int.0,
                                                value: Seq::empty(),
                                                open: false,
                                            },
                                        )
                                    } else {
                                        None
                                    }
                                } else if rest.len() == second_int.0 {
                                    Some(
                                        DiffRecord {
                                            action: a,
                                            start: first_int.0,
                                            length: second_int.0,
                                            value: rest,
                                            open: false,
                                        },
                                    )
                                } else {
                                    None
                                }
                            },
                        }
                    }
                },
            },
        }
    }
}

/// A record that its record form can carry back unchanged.
pub open spec fn record_well_formed(d: DiffRecord) -> bool {
    &&& !d.open
    &&& d.start <= usize::MAX
    &&& d.length <= usize::MAX
    &&& !is_tag_literal(d.start)
    &&& !is_tag_literal(d.length)
    &&& if d.action == DifferenceAction::Delete {
        d.value.len() == 0
    } else {
        d.value.len() == d.length
    }
}

/// Parsing the record form of a well-formed record gives the record back.
pub proof fn lemma_record_round_trip(d: DiffRecord)
    requires
        record_well_formed(d),
    ensures
        parse_record(record_bytes(d)) == Some(d),
{
    let v = if d.action == DifferenceAction::Delete {
        Seq::<u8>::empty()
    } else {
        d.value
    };
    let e1 = varint_bytes(d.start);
    let e2 = varint_bytes(d.length);
    let s = record_bytes(d);
    let tail1 = seq![SEP_RANGE] + e2 + v;
    assert(s =~= seq![action_tag(d.action), SEP_ACTION] + e1 + tail1);
    assert(s.subrange(2, s.len() as int) =~= e1 + tail1);
    lemma_varint_round_trip(d.start, tail1);
    let off: int = 2 + e1.len() as int + 1;
    assert(s.subrange(off as int, s.len() as int) =~= e2 + v);
    lemma_varint_round_trip(d.length, v);
    assert(s.subrange(off + e2.len() as int, s.len() as int) =~= v);
    assert(s[0] == action_tag(d.action));
    assert(action_of_tag(s[0]) == Some(d.action));
    if d.action == DifferenceAction::Delete {
        assert(d.value =~= Seq::<u8>::empty());
    }
    assert(s.len() >= 2);
}

/// Appends `src[from .. to]` to `out`.
pub(crate) fn push_range(out: &mut Vec<u8>, src: &[u8], from: usize, to: usize)
    requires
        from <= to <= src@.len(),
    ensures
        final(out)@ == old(out)@ + src@.subrange(from as int, to as int),
{
    let mut i = from;
    while i < to
        invariant
            from <= i <= to <= src@.len(),
            out@ == old(out)@ + src@.subrange(from as int, i as int),
        decreases to - i,
    {
        out.push(src[i]);
        i = i + 1;
        assert(out@ =~= old(out)@ + src@.subrange(from as int, i as int));
    }
}

/// A copy of `src`.
pub(crate) fn copy_bytes(src: &[u8]) -> (r: Vec<u8>)
    ensures
        r@ == src@,
{
    let mut out: Vec<u8> = Vec::new();
    push_range(&mut out, src, 0, src.len());
    assert(out@ =~= src@);
    out
}

impl Difference {
    /// The record form of this difference.
    pub fn to_bytes(&self) -> (r: Vec<u8>)
        ensures
            r@ == record_bytes(self@),
    {
        let mut diff: Vec<u8> = Vec::new();
        diff.push(self.action.to_tag());
        diff.push(SEP_ACTION);
        write_varint(&mut diff, self.range.start);
        diff.push(SEP_RANGE);
        write_varint(&mut diff, self.range.length);
        if self.action != DifferenceAction::Delete {
            push_range(&mut diff, self.value.as_slice(), 0, self.value.len());
        }
        assert(self.value@.subrange(0, self.value@.len() as int) =~= self.value@);
        assert(diff@ =~= record_bytes(self@));
        diff
    }

    /// Parses a record form that is known to be well formed.
    pub fn from_bytes(bytes: &[u8]) -> (r: Self)
        requires
            parse_record(bytes@) is Some,
        ensures
            parse_record(bytes@) == Some(r@),
    {
        match Self::validate_from_bytes(bytes) {
            Ok(d) => d,
            Err(_) => {
                proof {
                    assert(false);
                }
                Difference {
                    action: DifferenceAction::Delete,
                    range: Range::new(0, 0),
                    value: Vec::new(),
                    is_open: false,
                }
            },
        }
    }

    /// Parses a record form, or reports `DifferenceInvalid` where it is
    /// malformed.
    pub fn validate_from_bytes(bytes: &[u8]) -> (r: Result<Self, SDDEError>)
        ensures
            match r {
                Ok(d) => parse_record(bytes@) == Some(d@),
                Err(e) => parse_record(bytes@) is None && e is DifferenceInvalid,
            },
    {
        let len = bytes.len();
        if len < 2 {
            return Err(invalid_difference());
        }
        let action = match DifferenceAction::from_tag(bytes[0]) {
            Some(a) => a,
            None => return Err(invalid_difference()),
        };
        let (start, w1) = match read_varint_at(bytes, 2) {
            Some(p) => p,
            None => return Err(invalid_difference()),
        };
        if w1 + 1 > len - 2 {
            return Err(invalid_difference());
        }
        let off = 2 + w1 + 1;
        let (length, w2) = match read_varint_at(bytes, off) {
            Some(p) => p,
            None => return Err(invalid_difference()),
        };
        let rest = off + w2;
        proof {
            let ghost s2 = bytes@.subrange(off as int, len as int);
            assert(decode_varint(s2) matches Some(p) && p.1 <= s2.len());
        }
        if action == DifferenceAction::Delete {
            if rest != len {
                return Err(invalid_difference());
            }
            let d = Difference {
                action,
                range: Range::new(start, length),
                value: Vec::new(),
                is_open: false,
            };
            assert(d@.value =~= bytes@.subrange(rest as int, len as int));
            Ok(d)
        } else {
            if len - rest != length {
                return Err(invalid_difference());
            }
            let mut value: Vec<u8> = Vec::new();
            push_range(&mut value, bytes, rest, len);
            assert(value@ =~= bytes@.subrange(rest as int, len as int));
            Ok(Difference { action, range: Range::new(start, length), value, is_open: false })
        }
    }

    /// Encodes `value` as a variable-width integer.
    pub fn get_usize_type_to_bytes(value: usize) -> (r: Vec<u8>)
        ensures
            r@ == varint_bytes(value as nat),
    {
        let mut out: Vec<u8> = Vec::new();
        write_varint(&mut out, value);
        assert(out@ =~= varint_bytes(value as nat));
        out
    }

    /// Decodes the variable-width integer at the start of `bytes`: its value
    /// and how many bytes it occupies.
    pub fn get_usize_type_from_bytes(bytes: &[u8]) -> (r: (usize, usize))
        requires
            decode_varint(bytes@) is Some,
            decode_varint(bytes@).unwrap().0 <= usize::MAX,
        ensures
            decode_varint(bytes@) == Some((r.0 as nat, r.1 as nat)),
    {
        read_varint(bytes)
    }
}

} // verus!
