//! The raw record a kernel probe emits, and its wire codec.
//!
//! A record travels as one fixed-size little-endian byte block. Decoding
//! copies the bytes into an owned, aligned value and validates the two
//! fields whose range matters: an effect byte outside the known range and a
//! buffer length beyond the buffer's capacity are hard errors; everything
//! else is taken as it came.

use vstd::prelude::*;
use vstd::slice::slice_subrange;
use vstd::slice::slice_to_vec;
use vstd::utf8::decode_utf8;
use vstd::utf8::valid_utf8;

use crate::text::utf8_to_str;

verus! {

/// Capacity of a record's path buffer, in bytes.
pub const BUF_CAP: usize = 4096;

/// Number of component-boundary slots a record carries.
pub const NAME_OFFSET_COUNT: usize = 64;

/// Size of one encoded record: the six scalar fields, the path buffer and
/// the boundary slots.
pub const RECORD_SIZE: usize = 18 + 4096 + 128;

/// Why a byte block was rejected.
#[derive(Clone, Copy, Debug, PartialEq, Eq, Structural)]
pub enum DecodeError {
    /// The block is not exactly one record long.
    WrongLength,
    /// The effect byte is outside the known range.
    UnknownEffect,
    /// The declared buffer length exceeds the buffer's capacity.
    OversizedBuf,
}

/// A decoded kernel record.
pub struct RawEvent {
    pub timestamp: u64,
    pub pid: u32,
    pub effect_type: u8,
    pub path_type: u8,
    pub buf_len: u16,
    pub event_group_id: u16,
    pub buf: Vec<u8>,
    pub name_offsets: Vec<u16>,
}

/// The mathematical content of a `RawEvent`.
#[verifier::ext_equal]
pub struct RecordModel {
    pub timestamp: u64,
    pub pid: u32,
    pub effect_type: u8,
    pub path_type: u8,
    pub buf_len: u16,
    pub event_group_id: u16,
    pub buf: Seq<u8>,
    pub name_offsets: Seq<u16>,
}

impl View for RawEvent {
    type V = RecordModel;

    open spec fn view(&self) -> RecordModel {
        RecordModel {
            timestamp: self.timestamp,
            pid: self.pid,
            effect_type: self.effect_type,
            path_type: self.path_type,
            buf_len: self.buf_len,
            event_group_id: self.event_group_id,
            buf: self.buf@,
            name_offsets: self.name_offsets@,
        }
    }
}

impl RecordModel {
    /// Shape every decoded record has: full-capacity buffers and validated
    /// scalar fields.
    pub open spec fn wf(self) -> bool {
        &&& self.buf.len() == BUF_CAP
        &&& self.name_offsets.len() == NAME_OFFSET_COUNT
        &&& self.buf_len <= BUF_CAP
        &&& self.effect_type <= 5
    }

    /// The bytes of the single path component a record carries.
    pub open spec fn component_bytes(self) -> Seq<u8> {
        self.buf.subrange(0, self.buf_len as int)
    }

    /// The path component as text, absent when the bytes are not UTF-8.
    pub open spec fn component(self) -> Option<Seq<char>> {
        if valid_utf8(self.component_bytes()) {
            Some(decode_utf8(self.component_bytes()))
        } else {
            None
        }
    }
}

pub open spec fn le16(b0: u8, b1: u8) -> u16 {
    (b0 + b1 * 0x100) as u16
}

pub open spec fn le32(b0: u8, b1: u8, b2: u8, b3: u8) -> u32 {
    (b0 + b1 * 0x100 + b2 * 0x1_0000 + b3 * 0x100_0000) as u32
}

pub open spec fn le64(b0: u8, b1: u8, b2: u8, b3: u8, b4: u8, b5: u8, b6: u8, b7: u8) -> u64 {
    (b0 + b1 * 0x100 + b2 * 0x1_0000 + b3 * 0x100_0000 + b4 * 0x1_0000_0000 + b5
        * 0x100_0000_0000 + b6 * 0x1_0000_0000_0000 + b7 * 0x100_0000_0000_0000) as u64
}

/// The record a well-sized byte block stands for.
pub open spec fn spec_decode(bytes: Seq<u8>) -> RecordModel
    recommends
        bytes.len() == RECORD_SIZE,
{
    RecordModel {
        timestamp: le64(
            bytes[0],
            bytes[1],
            bytes[2],
            bytes[3],
            bytes[4],
            bytes[5],
            bytes[6],
            bytes[7],
        ),
        pid: le32(bytes[8], bytes[9], bytes[10], bytes[11]),
        effect_type: bytes[12],
        path_type: bytes[13],
        buf_len: le16(bytes[14], bytes[15]),
        event_group_id: le16(bytes[16], bytes[17]),
        buf: bytes.subrange(18, 18 + BUF_CAP as int),
        name_offsets: Seq::new(
            NAME_OFFSET_COUNT as nat,
            |i: int| le16(bytes[18 + BUF_CAP + 2 * i], bytes[18 + BUF_CAP + 2 * i + 1]),
        ),
    }
}

/// True of the byte blocks that decode: sized as a record, with a known
/// effect and an in-range buffer length.
pub open spec fn decodes(bytes: Seq<u8>) -> bool {
    &&& bytes.len() == RECORD_SIZE
    &&& spec_decode(bytes).effect_type <= 5
    &&& spec_decode(bytes).buf_len <= BUF_CAP
}

/// The component boundaries contributed by the slots at positions below
/// `idx`, walking leftward until a zero end offset, in path order.
pub open spec fn pairs_below(offs: Seq<u16>, buf_len: u16, idx: int) -> Seq<(u16, u16)>
    recommends
        idx < offs.len(),
    decreases idx,
{
    if idx < 1 {
        Seq::empty()
    } else if offs[idx - 1] == 0 {
        Seq::empty()
    } else if offs[idx] < offs[idx - 1] && offs[idx - 1] <= buf_len {
        seq![(offs[idx], offs[idx - 1])] + pairs_below(offs, buf_len, idx - 1)
    } else {
        pairs_below(offs, buf_len, idx - 1)
    }
}

/// All component boundaries of an array-layout record, leftmost first: the
/// rightmost slot ends the component that spans from the buffer's start,
/// and the walk leftward adds the rest.
pub open spec fn spec_reordered_offsets(offs: Seq<u16>, buf_len: u16) -> Seq<(u16, u16)>
    recommends
        offs.len() == NAME_OFFSET_COUNT,
{
    let last = offs[offs.len() - 1];
    let first: Seq<(u16, u16)> = if 0 < last && last <= buf_len {
        seq![(0u16, last)]
    } else {
        Seq::empty()
    };
    first + pairs_below(offs, buf_len, offs.len() - 1)
}

/// What one boundary contributes to the path: a separator and the decoded
/// component, or nothing when the bytes are not UTF-8.
pub open spec fn component_part(buf: Seq<u8>, p: (u16, u16)) -> Seq<char> {
    let span = buf.subrange(p.0 as int, p.1 as int);
    if valid_utf8(span) {
        seq!['/'] + decode_utf8(span)
    } else {
        Seq::empty()
    }
}

pub open spec fn concat_components(buf: Seq<u8>, pairs: Seq<(u16, u16)>) -> Seq<char>
    decreases pairs.len(),
{
    if pairs.len() == 0 {
        Seq::empty()
    } else {
        component_part(buf, pairs[0]) + concat_components(buf, pairs.drop_first())
    }
}

/// The path an array-layout record carries.
pub open spec fn spec_array_path(m: RecordModel) -> Seq<char> {
    concat_components(m.buf, spec_reordered_offsets(m.name_offsets, m.buf_len))
}

/// A boundary whose decoded text can stand in a path: non-empty and not
/// ending with the separator. Bytes that are not UTF-8 contribute nothing
/// and need no shape.
pub open spec fn clean_boundary(buf: Seq<u8>, p: (u16, u16)) -> bool {
    valid_utf8(buf.subrange(p.0 as int, p.1 as int)) ==> {
        let c = decode_utf8(buf.subrange(p.0 as int, p.1 as int));
        c.len() > 0 && c.last() != '/'
    }
}

/// When every boundary is clean, the joined path ends as its last kept
/// component does: no trailing separator.
proof fn lemma_concat_components_no_trailing(buf: Seq<u8>, pairs: Seq<(u16, u16)>)
    requires
        forall|k: int| 0 <= k < pairs.len() ==> clean_boundary(buf, #[trigger] pairs[k]),
    ensures
        concat_components(buf, pairs).len() > 0 ==> concat_components(buf, pairs).last() != '/',
    decreases pairs.len(),
{
    if pairs.len() > 0 {
        assert forall|k: int|
            0 <= k < pairs.drop_first().len() implies clean_boundary(
            buf,
            #[trigger] pairs.drop_first()[k],
        ) by {
            assert(pairs.drop_first()[k] == pairs[k + 1]);
        }
        lemma_concat_components_no_trailing(buf, pairs.drop_first());
        let head = component_part(buf, pairs[0]);
        let rest = concat_components(buf, pairs.drop_first());
        assert(concat_components(buf, pairs) == head + rest);
        if rest.len() > 0 {
            assert((head + rest).last() == rest.last());
        } else if head.len() > 0 {
            assert(clean_boundary(buf, pairs[0]));
            let c = decode_utf8(buf.subrange(pairs[0].0 as int, pairs[0].1 as int));
            assert(head == seq!['/'] + c);
            assert((head + rest).last() == head.last());
            assert(head.last() == c.last());
        }
    }
}

/// When every boundary of an array-layout record is clean, its path has
/// no trailing separator.
pub proof fn lemma_array_path_no_trailing(m: RecordModel)
    requires
        forall|k: int|
            0 <= k < spec_reordered_offsets(m.name_offsets, m.buf_len).len() ==> clean_boundary(
                m.buf,
                #[trigger] spec_reordered_offsets(m.name_offsets, m.buf_len)[k],
            ),
    ensures
        spec_array_path(m).len() > 0 ==> spec_array_path(m).last() != '/',
{
    lemma_concat_components_no_trailing(m.buf, spec_reordered_offsets(m.name_offsets, m.buf_len));
}

/// A non-empty joined path begins with the separator, whichever
/// components were dropped.
pub proof fn lemma_concat_components_absolute(buf: Seq<u8>, pairs: Seq<(u16, u16)>)
    ensures
        concat_components(buf, pairs).len() > 0 ==> concat_components(buf, pairs)[0] == '/',
    decreases pairs.len(),
{
    if pairs.len() > 0 {
        lemma_concat_components_absolute(buf, pairs.drop_first());
        let head = component_part(buf, pairs[0]);
        if head.len() > 0 {
            assert(concat_components(buf, pairs)[0] == head[0]);
        } else {
            assert(concat_components(buf, pairs) =~= concat_components(buf, pairs.drop_first()));
        }
    }
}

proof fn lemma_concat_snoc(buf: Seq<u8>, pairs: Seq<(u16, u16)>, p: (u16, u16))
    ensures
        concat_components(buf, pairs.push(p)) == concat_components(buf, pairs) + component_part(
            buf,
            p,
        ),
    decreases pairs.len(),
{
    if pairs.len() == 0 {
        assert(pairs.push(p).drop_first() =~= Seq::<(u16, u16)>::empty());
        assert(pairs.push(p)[0] == p);
        assert(concat_components(buf, pairs.push(p)) == component_part(buf, p) + concat_components(
            buf,
            pairs.push(p).drop_first(),
        ));
        assert(concat_components(buf, pairs.push(p)) =~= concat_components(buf, pairs)
            + component_part(buf, p));
    } else {
        assert(pairs.push(p).drop_first() =~= pairs.drop_first().push(p));
        lemma_concat_snoc(buf, pairs.drop_first(), p);
        assert(pairs.push(p)[0] == pairs[0]);
        assert(pairs.push(p).len() != 0);
        assert(concat_components(buf, pairs.push(p)) == component_part(buf, pairs[0])
            + concat_components(buf, pairs.drop_first().push(p)));
        assert(concat_components(buf, pairs.push(p)) =~= concat_components(buf, pairs)
            + component_part(buf, p));
    }
}

fn byte_at(bytes: &[u8], i: usize) -> (b: u8)
    requires
        i < bytes@.len(),
    ensures
        b == bytes@[i as int],
{
    *vstd::slice::slice_index_get(bytes, i)
}

fn read_le16(bytes: &[u8], i: usize) -> (v: u16)
    requires
        i + 2 <= bytes@.len(),
    ensures
        v == le16(bytes@[i as int], bytes@[i as int + 1]),
{
    let _n: usize = bytes.len();
    let b0 = byte_at(bytes, i) as u16;
    let b1 = byte_at(bytes, i + 1) as u16;
    b0 + b1 * 0x100
}

fn read_le32(bytes: &[u8], i: usize) -> (v: u32)
    requires
        i + 4 <= bytes@.len(),
    ensures
        v == le32(bytes@[i as int], bytes@[i as int + 1], bytes@[i as int + 2], bytes@[i as int + 3]),
{
    let _n: usize = bytes.len();
    let b0 = byte_at(bytes, i) as u32;
    let b1 = byte_at(bytes, i + 1) as u32;
    let b2 = byte_at(bytes, i + 2) as u32;
    let b3 = byte_at(bytes, i + 3) as u32;
    b0 + b1 * 0x100 + b2 * 0x1_0000 + b3 * 0x100_0000
}

fn read_le64(bytes: &[u8], i: usize) -> (v: u64)
    requires
        i + 8 <= bytes@.len(),
    ensures
        v == le64(
            bytes@[i as int],
            bytes@[i as int + 1],
            bytes@[i as int + 2],
            bytes@[i as int + 3],
            bytes@[i as int + 4],
            bytes@[i as int + 5],
            bytes@[i as int + 6],
            bytes@[i as int + 7],
        ),
{
    let _n: usize = bytes.len();
    let b0 = byte_at(bytes, i) as u64;
    let b1 = byte_at(bytes, i + 1) as u64;
    let b2 = byte_at(bytes, i + 2) as u64;
    let b3 = byte_at(bytes, i + 3) as u64;
    let b4 = byte_at(bytes, i + 4) as u64;
    let b5 = byte_at(bytes, i + 5) as u64;
    let b6 = byte_at(bytes, i + 6) as u64;
    let b7 = byte_at(bytes, i + 7) as u64;
    b0 + b1 * 0x100 + b2 * 0x1_0000 + b3 * 0x100_0000 + b4 * 0x1_0000_0000 + b5 * 0x100_0000_0000
        + b6 * 0x1_0000_0000_0000 + b7 * 0x100_0000_0000_0000
}

/// Decodes one wire block into a record, copying into owned storage so that
/// every field access is aligned.
pub fn decode(bytes: &[u8]) -> (r: Result<RawEvent, DecodeError>)
    ensures
        r is Ok <==> decodes(bytes@),
        r matches Ok(ev) ==> ev@ == spec_decode(bytes@) && ev@.wf(),
        bytes@.len() != RECORD_SIZE ==> r == Result::<RawEvent, DecodeError>::Err(
            DecodeError::WrongLength,
        ),
        bytes@.len() == RECORD_SIZE && spec_decode(bytes@).effect_type > 5 ==> r
            == Result::<RawEvent, DecodeError>::Err(DecodeError::UnknownEffect),
        bytes@.len() == RECORD_SIZE && spec_decode(bytes@).effect_type <= 5 && spec_decode(
            bytes@,
        ).buf_len > BUF_CAP ==> r == Result::<RawEvent, DecodeError>::Err(DecodeError::OversizedBuf),
{
    if bytes.len() != RECORD_SIZE {
        return Err(DecodeError::WrongLength);
    }
    let effect_type = byte_at(bytes, 12);
    if effect_type > 5 {
        return Err(DecodeError::UnknownEffect);
    }
    let buf_len = read_le16(bytes, 14);
    if buf_len as usize > BUF_CAP {
        return Err(DecodeError::OversizedBuf);
    }
    let timestamp = read_le64(bytes, 0);
    let pid = read_le32(bytes, 8);
    let path_type = byte_at(bytes, 13);
    let event_group_id = read_le16(bytes, 16);
    let buf = slice_to_vec(slice_subrange(bytes, 18, 18 + BUF_CAP));
    let mut name_offsets: Vec<u16> = Vec::new();
    let mut i: usize = 0;
    while i < NAME_OFFSET_COUNT
        invariant
            bytes@.len() == RECORD_SIZE,
            i <= NAME_OFFSET_COUNT,
            name_offsets@.len() == i,
            forall|j: int|
                0 <= j < i ==> name_offsets@[j] == le16(
                    bytes@[18 + BUF_CAP + 2 * j],
                    bytes@[18 + BUF_CAP + 2 * j + 1],
                ),
        decreases NAME_OFFSET_COUNT - i,
    {
        name_offsets.push(read_le16(bytes, 18 + BUF_CAP + 2 * i));
        i = i + 1;
    }
    let ev = RawEvent {
        timestamp,
        pid,
        effect_type,
        path_type,
        buf_len,
        event_group_id,
        buf,
        name_offsets,
    };
    proof {
        assert(ev@.name_offsets =~= spec_decode(bytes@).name_offsets);
        assert(ev@ =~= spec_decode(bytes@));
    }
    Ok(ev)
}

impl RawEvent {
    /// The valid prefix of the path buffer: the bytes of the one component
    /// this record carries.
    pub fn buf_as_bytes(&self) -> (r: &[u8])
        requires
            self@.wf(),
        ensures
            r@ == self@.component_bytes(),
    {
        slice_subrange(self.buf.as_slice(), 0, self.buf_len as usize)
    }

    /// The record's path component as text; `None` when the bytes are not
    /// UTF-8 (the component is then dropped rather than the whole event).
    pub fn buf_as_str(&self) -> (r: Option<&str>)
        requires
            self@.wf(),
        ensures
            r is Some <==> self@.component() is Some,
            r matches Some(s) ==> Some(s@) == self@.component(),
    {
        utf8_to_str(self.buf_as_bytes())
    }

    /// Component boundaries recovered from `name_offsets`, leftmost
    /// component first.
    ///
    /// The slots come left-padded with zeros and hold component end offsets
    /// leaf-first, so the rightmost slot ends the leftmost component, which
    /// spans from the start of the buffer. Walking leftward from there,
    /// each slot begins the component that the slot before it ends, until a
    /// zero end offset. A boundary whose span is empty, reversed or beyond
    /// the valid bytes is dropped on its own; the rest of the record
    /// stands.
    pub fn reordered_name_offsets(&self) -> (pairs: Vec<(u16, u16)>)
        requires
            self@.wf(),
        ensures
            pairs@ == spec_reordered_offsets(self@.name_offsets, self.buf_len),
            forall|k: int|
                0 <= k < pairs@.len() ==> (#[trigger] pairs@[k]).0 < pairs@[k].1 && pairs@[k].1
                    <= self.buf_len,
    {
        let offs = &self.name_offsets;
        let mut pairs: Vec<(u16, u16)> = Vec::new();
        let last = offs[NAME_OFFSET_COUNT - 1];
        if 0 < last && last <= self.buf_len {
            pairs.push((0, last));
        }
        proof {
            assert(pairs@ + pairs_below(self@.name_offsets, self.buf_len, NAME_OFFSET_COUNT - 1)
                =~= spec_reordered_offsets(self@.name_offsets, self.buf_len));
        }
        let mut idx: usize = NAME_OFFSET_COUNT - 1;
        while idx >= 1 && offs[idx - 1] != 0
            invariant
                self@.wf(),
                offs == &self.name_offsets,
                idx <= NAME_OFFSET_COUNT - 1,
                pairs@ + pairs_below(self@.name_offsets, self.buf_len, idx as int)
                    == spec_reordered_offsets(self@.name_offsets, self.buf_len),
                forall|k: int|
                    0 <= k < pairs@.len() ==> (#[trigger] pairs@[k]).0 < pairs@[k].1 && pairs@[k].1
                        <= self.buf_len,
            decreases idx,
        {
            let beg = offs[idx];
            let end = offs[idx - 1];
            if beg < end && end <= self.buf_len {
                pairs.push((beg, end));
                proof {
                    assert(pairs@ + pairs_below(self@.name_offsets, self.buf_len, idx - 1)
                        =~= pairs@.drop_last() + pairs_below(
                        self@.name_offsets,
                        self.buf_len,
                        idx as int,
                    ));
                }
            }
            idx = idx - 1;
        }
        proof {
            assert(pairs@ + pairs_below(self@.name_offsets, self.buf_len, idx as int) =~= pairs@);
        }
        pairs
    }

    /// The full path an array-layout record carries: each recovered
    /// component, prefixed with a separator, in path order. A component
    /// whose bytes are not UTF-8 is dropped; the others still appear.
    /// When every boundary is clean, the path carries no trailing
    /// separator.
    pub fn reordered_buf_to_string(&self) -> (r: String)
        requires
            self@.wf(),
        ensures
            r@ == spec_array_path(self@),
            (forall|k: int|
                0 <= k < spec_reordered_offsets(self@.name_offsets, self.buf_len).len()
                    ==> clean_boundary(
                    self@.buf,
                    #[trigger] spec_reordered_offsets(self@.name_offsets, self.buf_len)[k],
                )) ==> (r@.len() > 0 ==> r@.last() != '/'),
    {
        let pairs = self.reordered_name_offsets();
        let mut name = String::new();
        let mut i: usize = 0;
        while i < pairs.len()
            invariant
                self@.wf(),
                pairs@ == spec_reordered_offsets(self@.name_offsets, self.buf_len),
                forall|k: int|
                    0 <= k < pairs@.len() ==> (#[trigger] pairs@[k]).0 < pairs@[k].1 && pairs@[k].1
                        <= self.buf_len,
                i <= pairs@.len(),
                name@ == concat_components(self@.buf, pairs@.subrange(0, i as int)),
            decreases pairs@.len() - i,
        {
            let (beg, end) = pairs[i];
            let span = slice_subrange(self.buf.as_slice(), beg as usize, end as usize);
            match utf8_to_str(span) {
                Some(s) => {
                    name.append("/");
                    name.append(s);
                },
                None => {},
            }
            proof {
                reveal_strlit("/");
                assert("/"@ =~= seq!['/']);
                assert(pairs@.subrange(0, i + 1) =~= pairs@.subrange(0, i as int).push(
                    pairs@[i as int],
                ));
                lemma_concat_snoc(self@.buf, pairs@.subrange(0, i as int), pairs@[i as int]);
            }
            i = i + 1;
        }
        proof {
            assert(pairs@.subrange(0, pairs@.len() as int) =~= pairs@);
            if forall|k: int|
                0 <= k < spec_reordered_offsets(self@.name_offsets, self.buf_len).len()
                    ==> clean_boundary(
                    self@.buf,
                    #[trigger] spec_reordered_offsets(self@.name_offsets, self.buf_len)[k],
                ) {
                lemma_array_path_no_trailing(self@);
            }
        }
        name
    }

    pub fn buf_to_string(&self) -> (r: Option<String>)
        requires
            self@.wf(),
        ensures
            r is Some <==> self@.component() is Some,
            r matches Some(s) ==> Some(s@) == self@.component(),
    {
        match self.buf_as_str() {
            Some(s) => Some(s.to_owned()),
            None => None,
        }
    }
}

} // verus!
