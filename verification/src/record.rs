//! Records: the self-contained binary entries of a parameter section. A
//! record defines a group or holds one parameter of a group.
//!
//! A record starts with the signed length of its name, negative if the record
//! is locked, and the name. Then comes a two-byte signed offset that counts
//! the bytes from its own first byte to the start of the next record, and
//! then the body, whose first byte is an id: the negated id of the group
//! that the record defines, or the positive id of the group that the
//! parameter belongs to.

use vstd::prelude::*;
use vstd::slice::{slice_subrange, slice_to_vec};
use vstd::string::StringSliceAdditionalSpecFns;
use crate::names::valid_name;
use crate::parameter::{
    append, byte_of, element_count, extent_product, length_byte, signed8, DataView, Parameter,
    ParameterData, ParameterView, MAX_OFFSET,
};
use crate::processor::{
    lemma_decoded_float_is_held, lemma_float_bytes_back, lemma_float_round_trip,
    lemma_i16_bytes_back, lemma_i16_round_trip, Processor,
};

verus! {

/// The mathematical value of a [`Record`].
pub enum RecordView {
    /// The record that defines a group.
    Group { id: u8, name: Seq<u8>, locked: bool, description: Seq<u8> },
    /// The record of one parameter; its locked flag is that of the record.
    Parameter { group_id: u8, name: Seq<u8>, parameter: ParameterView },
}

/// One decoded record.
#[derive(Debug)]
pub enum Record {
    /// The record that defines a group.
    Group { id: u8, name: Vec<u8>, locked: bool, description: Vec<u8> },
    /// The record of one parameter.
    Parameter { group_id: u8, name: Vec<u8>, parameter: Parameter },
}

impl View for Record {
    type V = RecordView;

    open spec fn view(&self) -> RecordView {
        match self {
            Record::Group { id, name, locked, description } => RecordView::Group {
                id: *id,
                name: name@,
                locked: *locked,
                description: description@,
            },
            Record::Parameter { group_id, name, parameter } => RecordView::Parameter {
                group_id: *group_id,
                name: name@,
                parameter: parameter@,
            },
        }
    }
}

/// Whether `id` can be the id of a group: positive as a signed byte.
pub open spec fn valid_id(id: u8) -> bool {
    1 <= id <= 127
}

impl RecordView {
    /// What holds of every record that can stand in a file.
    pub open spec fn wf(self) -> bool {
        match self {
            RecordView::Group { id, name, locked, description } => {
                &&& valid_id(id)
                &&& valid_name(name)
                &&& description.len() <= 255
            },
            RecordView::Parameter { group_id, name, parameter } => {
                &&& valid_id(group_id)
                &&& valid_name(name)
                &&& parameter.wf()
            },
        }
    }

    /// The bytes of the record.
    pub open spec fn bytes(self, processor: Processor) -> Seq<u8> {
        match self {
            RecordView::Group { id, name, locked, description } => group_record(
                processor,
                name,
                id,
                locked,
                description,
            ),
            RecordView::Parameter { group_id, name, parameter } => parameter.record(
                processor,
                name,
                group_id,
                parameter.locked,
            ),
        }
    }
}

/// The record that defines the group `name` with id `id`: the body holds the
/// negated id and the description with its length.
pub open spec fn group_record(processor: Processor, name: Seq<u8>, id: u8, locked: bool, description: Seq<u8>) -> Seq<u8> {
    seq![length_byte(name.len(), locked)] + name + processor.i16_bytes((4 + description.len()) as i16)
        + seq![(256 - id) as u8, description.len() as u8] + description
}

/// The number of bytes that the elements of data with the type tag `tag`
/// take, `count` elements of them.
pub open spec fn tagged_len(tag: u8, count: nat) -> nat {
    if tag == 2 {
        2 * count
    } else if tag == 4 {
        4 * count
    } else {
        count
    }
}

/// The data of `count` elements that `bytes` hold under the type tag `tag`.
pub open spec fn decode_data(processor: Processor, tag: u8, count: nat, bytes: Seq<u8>) -> DataView {
    if tag == 1 {
        DataView::Byte(Seq::new(count, |i: int| signed8(bytes[i])))
    } else if tag == 2 {
        DataView::Integer(Seq::new(count, |i: int| processor.i16_value(bytes[2 * i], bytes[2 * i + 1])))
    } else if tag == 4 {
        DataView::Float(
            Seq::new(
                count,
                |i: int|
                    processor.float_value(
                        bytes[4 * i],
                        bytes[4 * i + 1],
                        bytes[4 * i + 2],
                        bytes[4 * i + 3],
                    ),
            ),
        )
    } else {
        DataView::Char(bytes)
    }
}

/// The parameter that the body of a record holds, if the body is
/// well-formed: after the id come the type tag, the number of dimensions,
/// the extents, as many elements as the extents say, and the description
/// with its length, which ends the body exactly.
pub open spec fn parse_parameter_body(processor: Processor, body: Seq<u8>, locked: bool) -> Option<ParameterView> {
    if body.len() < 3 {
        None
    } else {
        let tag = body[1];
        let nd = body[2] as int;
        if !(tag == 255 || tag == 1 || tag == 2 || tag == 4) || body.len() < 3 + nd {
            None
        } else {
            let dimensions = body.subrange(3, 3 + nd);
            let count = extent_product(dimensions);
            let data_end = 3 + nd + tagged_len(tag, count);
            if body.len() < data_end + 1 || body.len() != data_end + 1 + body[data_end] {
                None
            } else {
                Some(
                    ParameterView {
                        dimensions,
                        data: decode_data(processor, tag, count, body.subrange(3 + nd, data_end)),
                        description: body.subrange(data_end + 1, body.len() as int),
                        locked,
                    },
                )
            }
        }
    }
}

/// The record with the name `name` and the body `body`, if the body is
/// well-formed. An id byte that is negative as a signed byte marks a group,
/// whose body ends with its description; a positive one marks a parameter.
pub open spec fn parse_body(processor: Processor, name: Seq<u8>, locked: bool, body: Seq<u8>) -> Option<RecordView> {
    if body.len() < 1 || body[0] == 0 || body[0] == 128 {
        None
    } else if body[0] > 128 {
        if body.len() >= 2 && body.len() == 2 + body[1] {
            Some(
                RecordView::Group {
                    id: (256 - body[0]) as u8,
                    name,
                    locked,
                    description: body.subrange(2, body.len() as int),
                },
            )
        } else {
            None
        }
    } else {
        match parse_parameter_body(processor, body, locked) {
            Some(parameter) => Some(RecordView::Parameter { group_id: body[0], name, parameter }),
            None => None,
        }
    }
}

/// The length of the name that the first byte of a record announces: the
/// byte read as a signed one, without its sign.
pub open spec fn name_len(first: u8) -> int {
    if first > 128 {
        256 - first
    } else {
        first as int
    }
}

/// The record at the start of `bytes` and its length, if there is a
/// well-formed one: the name must have between 1 and 127 bytes, and the
/// offset must lead to a place inside `bytes` or to their end.
pub open spec fn parse_record(processor: Processor, bytes: Seq<u8>) -> Option<(RecordView, nat)> {
    if bytes.len() < 1 || bytes[0] == 0 || bytes[0] == 128 {
        None
    } else {
        let locked = bytes[0] > 128;
        let n = name_len(bytes[0]);
        if bytes.len() < n + 4 {
            None
        } else {
            let span = processor.i16_value(bytes[1 + n], bytes[2 + n]) as int;
            if span < 3 || bytes.len() < 1 + n + span {
                None
            } else {
                match parse_body(
                    processor,
                    bytes.subrange(1, 1 + n),
                    locked,
                    bytes.subrange(3 + n, 1 + n + span),
                ) {
                    Some(record) => Some((record, (1 + n + span) as nat)),
                    None => None,
                }
            }
        }
    }
}

/// Reads the elements of data with the type tag `tag`.
fn read_data(processor: &Processor, tag: u8, count: usize, bytes: &[u8]) -> (data: ParameterData)
    requires
        tag == 255 || tag == 1 || tag == 2 || tag == 4,
        bytes@.len() == tagged_len(tag, count as nat),
    ensures
        data@ == decode_data(*processor, tag, count as nat, bytes@),
        data@.len() == count,
        data@.tag() == tag,
        data@.byte_len() == bytes@.len(),
        data@.held_by(*processor),
{
    let total: usize = bytes.len();
    if tag == 1 {
        let mut v: Vec<i8> = Vec::new();
        let mut i: usize = 0;
        while i < count
            invariant
                i <= count,
                bytes@.len() == count,
                v@ == Seq::new(i as nat, |k: int| signed8(bytes@[k])),
            decreases count - i,
        {
            let b: i16 = bytes[i] as i16;
            let x: i8 = if b >= 128 { (b - 256) as i8 } else { b as i8 };
            v.push(x);
            assert(v@ =~= Seq::new((i + 1) as nat, |k: int| signed8(bytes@[k])));
            i += 1;
        }
        ParameterData::Byte(v)
    } else if tag == 2 {
        let mut v: Vec<i16> = Vec::new();
        let mut i: usize = 0;
        while i < count
            invariant
                i <= count,
                bytes@.len() == 2 * count,
                total == bytes@.len(),
                v@ == Seq::new(i as nat, |k: int| processor.i16_value(bytes@[2 * k], bytes@[2 * k + 1])),
            decreases count - i,
        {
            let x: i16 = processor.decode_i16([bytes[2 * i], bytes[2 * i + 1]]);
            v.push(x);
            assert(v@ =~= Seq::new(
                (i + 1) as nat,
                |k: int| processor.i16_value(bytes@[2 * k], bytes@[2 * k + 1]),
            ));
            i += 1;
        }
        ParameterData::Integer(v)
    } else if tag == 4 {
        let mut v: Vec<u32> = Vec::new();
        let mut i: usize = 0;
        while i < count
            invariant
                i <= count,
                bytes@.len() == 4 * count,
                total == bytes@.len(),
                v@ == Seq::new(
                    i as nat,
                    |k: int|
                        processor.float_value(
                            bytes@[4 * k],
                            bytes@[4 * k + 1],
                            bytes@[4 * k + 2],
                            bytes@[4 * k + 3],
                        ),
                ),
                forall|k: int| 0 <= k < i ==> processor.holds_float(#[trigger] v@[k]),
            decreases count - i,
        {
            let x: u32 = processor.decode_float(
                [bytes[4 * i], bytes[4 * i + 1], bytes[4 * i + 2], bytes[4 * i + 3]],
            );
            v.push(x);
            assert(v@ =~= Seq::new(
                (i + 1) as nat,
                |k: int|
                    processor.float_value(
                        bytes@[4 * k],
                        bytes@[4 * k + 1],
                        bytes@[4 * k + 2],
                        bytes@[4 * k + 3],
                    ),
            ));
            i += 1;
        }
        ParameterData::Float(v)
    } else {
        ParameterData::Char(slice_to_vec(bytes))
    }
}

/// Reads the parameter that the body of a record holds.
fn read_parameter_body(processor: &Processor, body: &[u8], locked: bool) -> (parameter: Option<Parameter>)
    requires
        body@.len() + 2 <= MAX_OFFSET,
    ensures
        parameter matches Some(p) ==> parse_parameter_body(*processor, body@, locked) == Some(p@)
            && p@.wf() && p@.data.held_by(*processor),
        parameter is None ==> parse_parameter_body(*processor, body@, locked) is None,
{
    if body.len() < 3 {
        return None;
    }
    let tag: u8 = body[1];
    let nd: usize = body[2] as usize;
    if !(tag == 255 || tag == 1 || tag == 2 || tag == 4) || body.len() < 3 + nd {
        return None;
    }
    let dimensions: &[u8] = slice_subrange(body, 3, 3 + nd);
    let left: usize = body.len() - 3 - nd;
    let count: usize = match element_count(dimensions, left) {
        Some(count) => count,
        None => {
            return None;
        },
    };
    let width: usize = if tag == 2 { 2 } else if tag == 4 { 4 } else { 1 };
    if left / width < count {
        return None;
    }
    let data_len: usize = width * count;
    let data_end: usize = 3 + nd + data_len;
    assert(data_len == tagged_len(tag, count as nat));
    if body.len() < data_end + 1 || body.len() != data_end + 1 + body[data_end] as usize {
        return None;
    }
    let data: ParameterData = read_data(processor, tag, count, slice_subrange(body, 3 + nd, data_end));
    let description: Vec<u8> = slice_to_vec(slice_subrange(body, data_end + 1, body.len()));
    Some(Parameter::from_parts(slice_to_vec(dimensions), data, description, locked))
}

/// Reads the record with the name `name` and the body `body`.
fn read_body(processor: &Processor, name: Vec<u8>, locked: bool, body: &[u8]) -> (record: Option<Record>)
    requires
        valid_name(name@),
        body@.len() + 2 <= MAX_OFFSET,
    ensures
        record matches Some(r) ==> parse_body(*processor, name@, locked, body@) == Some(r@)
            && r@.wf() && held_by(r@, *processor),
        record is None ==> parse_body(*processor, name@, locked, body@) is None,
{
    if body.len() < 1 || body[0] == 0 || body[0] == 128 {
        return None;
    }
    if body[0] > 128 {
        if body.len() >= 2 && body.len() == 2 + body[1] as usize {
            let description: Vec<u8> = slice_to_vec(slice_subrange(body, 2, body.len()));
            Some(Record::Group { id: (256 - body[0] as u16) as u8, name, locked, description })
        } else {
            None
        }
    } else {
        match read_parameter_body(processor, body, locked) {
            Some(parameter) => Some(Record::Parameter { group_id: body[0], name, parameter }),
            None => None,
        }
    }
}

/// Whether `processor` can hold every float of the record exactly.
pub open spec fn held_by(record: RecordView, processor: Processor) -> bool {
    match record {
        RecordView::Group { .. } => true,
        RecordView::Parameter { parameter, .. } => parameter.data.held_by(processor),
    }
}

/// Reads the record at the start of `bytes`; gives the record and its length.
pub fn read_record(processor: &Processor, bytes: &[u8]) -> (read: Option<(Record, usize)>)
    ensures
        read matches Some((r, len)) ==> parse_record(*processor, bytes@) == Some((r@, len as nat))
            && r@.wf() && held_by(r@, *processor) && 0 < len <= bytes@.len(),
        read is None ==> parse_record(*processor, bytes@) is None,
{
    if bytes.len() < 1 || bytes[0] == 0 || bytes[0] == 128 {
        return None;
    }
    let locked: bool = bytes[0] > 128;
    let n: usize = if locked { 256 - bytes[0] as usize } else { bytes[0] as usize };
    if bytes.len() < n + 4 {
        return None;
    }
    let offset: i16 = processor.decode_i16([bytes[1 + n], bytes[2 + n]]);
    if offset < 3 {
        return None;
    }
    let span: usize = offset as usize;
    if bytes.len() < 1 + n + span {
        return None;
    }
    let name: Vec<u8> = slice_to_vec(slice_subrange(bytes, 1, 1 + n));
    match read_body(processor, name, locked, slice_subrange(bytes, 3 + n, 1 + n + span)) {
        Some(record) => Some((record, 1 + n + span)),
        None => None,
    }
}

/// The record that defines the group `name` with id `id`.
pub fn write_group(processor: &Processor, name: &str, id: u8, locked: bool, description: &[u8]) -> (bytes: Vec<u8>)
    requires
        valid_name(name.spec_bytes()),
        valid_id(id),
        description@.len() <= 255,
    ensures
        bytes@ == group_record(*processor, name.spec_bytes(), id, locked, description@),
{
    write_group_record(processor, name.as_bytes(), id, locked, description)
}

/// The record that defines a group whose name is given as bytes.
pub(crate) fn write_group_record(processor: &Processor, name: &[u8], id: u8, locked: bool, description: &[u8]) -> (bytes: Vec<u8>)
    requires
        valid_name(name@),
        valid_id(id),
        description@.len() <= 255,
    ensures
        bytes@ == group_record(*processor, name@, id, locked, description@),
{
    let mut bytes: Vec<u8> = Vec::new();
    let n: usize = name.len();
    let first: u8 = if locked { (256 - n) as u8 } else { n as u8 };
    bytes.push(first);
    append(&mut bytes, name);
    let offset: [u8; 2] = processor.encode_i16((4 + description.len()) as i16);
    bytes.push(offset[0]);
    bytes.push(offset[1]);
    proof {
        assert(bytes@ =~= seq![length_byte(name@.len(), locked)] + name@ + processor.i16_bytes(
            (4 + description@.len()) as i16,
        ));
    }
    bytes.push((256 - id as u16) as u8);
    bytes.push(description.len() as u8);
    append(&mut bytes, description);
    proof {
        assert(bytes@ =~= group_record(*processor, name@, id, locked, description@));
    }
    bytes
}

/// The data that bytes decode to has as many elements as were asked for,
/// takes as many bytes as its type tag says, and is held by the layout.
proof fn lemma_decoded_data(processor: Processor, tag: u8, count: nat, bytes: Seq<u8>)
    requires
        tag == 255 || tag == 1 || tag == 2 || tag == 4,
        bytes.len() == tagged_len(tag, count),
    ensures
        decode_data(processor, tag, count, bytes).len() == count,
        decode_data(processor, tag, count, bytes).byte_len() == bytes.len(),
        decode_data(processor, tag, count, bytes).held_by(processor),
{
    if tag == 4 {
        let s = decode_data(processor, tag, count, bytes)->Float_0;
        assert forall|i: int| 0 <= i < s.len() implies processor.holds_float(#[trigger] s[i]) by {
            lemma_decoded_float_is_held(
                processor,
                bytes[4 * i],
                bytes[4 * i + 1],
                bytes[4 * i + 2],
                bytes[4 * i + 3],
            );
        }
    }
}

/// A record that bytes parse to is well-formed, its floats are held by the
/// layout, and it is not empty and not longer than the bytes.
pub proof fn lemma_parsed(processor: Processor, bytes: Seq<u8>)
    requires
        parse_record(processor, bytes) is Some,
    ensures
        parse_record(processor, bytes)->Some_0.0.wf(),
        held_by(parse_record(processor, bytes)->Some_0.0, processor),
        0 < parse_record(processor, bytes)->Some_0.1 <= bytes.len(),
{
    let n = name_len(bytes[0]);
    let span = processor.i16_value(bytes[1 + n], bytes[2 + n]) as int;
    let name = bytes.subrange(1, 1 + n);
    let body = bytes.subrange(3 + n, 1 + n + span);
    let record = parse_record(processor, bytes)->Some_0.0;
    assert(parse_body(processor, name, bytes[0] > 128, body) == Some(record));
    assert(body.len() == span - 2);
    assert(valid_name(name));
    match record {
        RecordView::Group { id, name, locked, description } => {},
        RecordView::Parameter { group_id, name, parameter } => {
            let tag = body[1];
            let nd = body[2] as int;
            let dimensions = body.subrange(3, 3 + nd);
            let count = extent_product(dimensions);
            let data_end = 3 + nd + tagged_len(tag, count);
            lemma_decoded_data(processor, tag, count, body.subrange(3 + nd, data_end));
            assert(parameter.dimensions == dimensions);
            assert(parameter.span() == span);
        },
    }
}

/// Data comes back unchanged from its bytes, if the layout can hold its floats.
proof fn lemma_data_round_trip(processor: Processor, data: DataView)
    requires
        data.held_by(processor),
    ensures
        data.bytes(processor).len() == data.byte_len(),
        data.byte_len() == tagged_len(data.tag(), data.len()),
        decode_data(processor, data.tag(), data.len(), data.bytes(processor)) == data,
{
    let bytes = data.bytes(processor);
    match data {
        DataView::Char(s) => {},
        DataView::Byte(s) => {
            assert forall|i: int| 0 <= i < s.len() implies signed8(bytes[i]) == s[i] by {
                assert(bytes[i] == byte_of(s[i]));
            }
            assert(Seq::new(s.len(), |i: int| signed8(bytes[i])) =~= s);
        },
        DataView::Integer(s) => {
            assert forall|i: int| 0 <= i < s.len() implies processor.i16_value(
                bytes[2 * i],
                bytes[2 * i + 1],
            ) == s[i] by {
                lemma_i16_round_trip(processor, s[i]);
                assert((2 * i) / 2 == i && (2 * i) % 2 == 0);
                assert((2 * i + 1) / 2 == i && (2 * i + 1) % 2 == 1);
            }
            assert(Seq::new(s.len(), |i: int| processor.i16_value(bytes[2 * i], bytes[2 * i + 1]))
                =~= s);
        },
        DataView::Float(s) => {
            assert forall|i: int| 0 <= i < s.len() implies processor.float_value(
                bytes[4 * i],
                bytes[4 * i + 1],
                bytes[4 * i + 2],
                bytes[4 * i + 3],
            ) == s[i] by {
                lemma_float_round_trip(processor, s[i]);
                assert((4 * i) / 4 == i && (4 * i) % 4 == 0);
                assert((4 * i + 1) / 4 == i && (4 * i + 1) % 4 == 1);
                assert((4 * i + 2) / 4 == i && (4 * i + 2) % 4 == 2);
                assert((4 * i + 3) / 4 == i && (4 * i + 3) % 4 == 3);
            }
            assert(Seq::new(
                s.len(),
                |i: int|
                    processor.float_value(
                        bytes[4 * i],
                        bytes[4 * i + 1],
                        bytes[4 * i + 2],
                        bytes[4 * i + 3],
                    ),
            ) =~= s);
        },
    }
}

/// The parts of a record lie in its bytes where the grammar looks for them.
proof fn lemma_frame(first: u8, name: Seq<u8>, offset: Seq<u8>, body: Seq<u8>, rest: Seq<u8>)
    requires
        offset.len() == 2,
    ensures
        ({
            let bytes = seq![first] + name + offset + body + rest;
            let n = name.len() as int;
            &&& bytes.len() == 3 + n + body.len() + rest.len()
            &&& bytes[0] == first
            &&& bytes[1 + n] == offset[0]
            &&& bytes[2 + n] == offset[1]
            &&& bytes.subrange(1, 1 + n) == name
            &&& bytes.subrange(3 + n, 3 + n + body.len()) == body
            &&& bytes.subrange(3 + n + body.len(), bytes.len() as int) == rest
        }),
{
    let bytes = seq![first] + name + offset + body + rest;
    let n = name.len() as int;
    assert(bytes.subrange(1, 1 + n) =~= name);
    assert(bytes.subrange(3 + n, 3 + n + body.len()) =~= body);
    assert(bytes.subrange(3 + n + body.len(), bytes.len() as int) =~= rest);
}

/// The parts of the body of a parameter's record lie in its bytes where
/// the grammar looks for them.
proof fn lemma_body_frame(id: u8, tag: u8, count: u8, dimensions: Seq<u8>, data: Seq<u8>, length: u8, description: Seq<u8>)
    ensures
        ({
            let body = seq![id, tag, count] + dimensions + data + seq![length] + description;
            let nd = dimensions.len() as int;
            let data_end = 3 + nd + data.len();
            &&& body.len() == data_end + 1 + description.len()
            &&& body[0] == id
            &&& body[1] == tag
            &&& body[2] == count
            &&& body.subrange(3, 3 + nd) == dimensions
            &&& body.subrange(3 + nd, data_end) == data
            &&& body[data_end] == length
            &&& body.subrange(data_end + 1, body.len() as int) == description
        }),
{
    let body = seq![id, tag, count] + dimensions + data + seq![length] + description;
    let nd = dimensions.len() as int;
    let data_end = 3 + nd + data.len();
    assert(body.subrange(3, 3 + nd) =~= dimensions);
    assert(body.subrange(3 + nd, data_end) =~= data);
    assert(body.subrange(data_end + 1, body.len() as int) =~= description);
}

/// The body of a parameter's record reads back as the parameter.
proof fn lemma_parse_parameter_body(processor: Processor, parameter: ParameterView, group_id: u8, locked: bool)
    requires
        parameter.wf(),
        parameter.data.held_by(processor),
    ensures
        parameter.body(processor, group_id).len() + 2 == parameter.span(),
        parse_parameter_body(processor, parameter.body(processor, group_id), locked) == Some(
            ParameterView { locked, ..parameter },
        ),
{
    lemma_data_round_trip(processor, parameter.data);
    lemma_body_frame(
        group_id,
        parameter.data.tag(),
        parameter.dimensions.len() as u8,
        parameter.dimensions,
        parameter.data.bytes(processor),
        parameter.description.len() as u8,
        parameter.description,
    );
}

/// The record of a parameter, with whatever follows it, reads back as that
/// parameter with the name, the group id and the locked flag that it was
/// written with.
pub proof fn lemma_parse_parameter_record(
    processor: Processor,
    parameter: ParameterView,
    name: Seq<u8>,
    group_id: u8,
    locked: bool,
    rest: Seq<u8>,
)
    requires
        parameter.wf(),
        parameter.data.held_by(processor),
        valid_name(name),
        valid_id(group_id),
    ensures
        parse_record(processor, parameter.record(processor, name, group_id, locked) + rest) == Some(
            (
                RecordView::Parameter {
                    group_id,
                    name,
                    parameter: ParameterView { locked, ..parameter },
                },
                parameter.record(processor, name, group_id, locked).len(),
            ),
        ),
{
    let body = parameter.body(processor, group_id);
    let span = parameter.span() as int;
    let offset = processor.i16_bytes(span as i16);
    lemma_parse_parameter_body(processor, parameter, group_id, locked);
    lemma_i16_round_trip(processor, span as i16);
    lemma_frame(length_byte(name.len(), locked), name, offset, body, rest);
    assert(body[0] == group_id) by {
        lemma_body_frame(
            group_id,
            parameter.data.tag(),
            parameter.dimensions.len() as u8,
            parameter.dimensions,
            parameter.data.bytes(processor),
            parameter.description.len() as u8,
            parameter.description,
        );
    }
}

/// The record that defines a group, with whatever follows it, reads back as
/// that group.
pub proof fn lemma_parse_group_record(
    processor: Processor,
    name: Seq<u8>,
    id: u8,
    locked: bool,
    description: Seq<u8>,
    rest: Seq<u8>,
)
    requires
        valid_name(name),
        valid_id(id),
        description.len() <= 255,
    ensures
        parse_record(processor, group_record(processor, name, id, locked, description) + rest)
            == Some(
            (
                RecordView::Group { id, name, locked, description },
                group_record(processor, name, id, locked, description).len(),
            ),
        ),
{
    let span = 4 + description.len() as int;
    let offset = processor.i16_bytes(span as i16);
    let body = seq![(256 - id) as u8, description.len() as u8] + description;
    let record = group_record(processor, name, id, locked, description);
    lemma_i16_round_trip(processor, span as i16);
    lemma_frame(length_byte(name.len(), locked), name, offset, body, rest);
    assert(record =~= seq![length_byte(name.len(), locked)] + name + offset + body);
    assert(body.subrange(2, body.len() as int) =~= description);
}

/// A record is read from its own bytes alone: what follows them does not
/// change what is read.
pub proof fn lemma_parse_prefix(processor: Processor, bytes: Seq<u8>, rest: Seq<u8>)
    requires
        parse_record(processor, bytes) is Some,
    ensures
        parse_record(processor, bytes + rest) == parse_record(processor, bytes),
{
    let all = bytes + rest;
    let n = name_len(bytes[0]);
    let span = processor.i16_value(bytes[1 + n], bytes[2 + n]) as int;
    assert(all[0] == bytes[0]);
    assert(all[1 + n] == bytes[1 + n]);
    assert(all[2 + n] == bytes[2 + n]);
    assert(all.subrange(1, 1 + n) =~= bytes.subrange(1, 1 + n));
    assert(all.subrange(3 + n, 1 + n + span) =~= bytes.subrange(3 + n, 1 + n + span));
}

/// Whether float `i` among the stored data bytes `data` is stored as the
/// layout writes it.
pub open spec fn float_as_written(processor: Processor, data: Seq<u8>, i: int) -> bool {
    processor.stores_exactly(data[4 * i], data[4 * i + 1], data[4 * i + 2], data[4 * i + 3])
}

/// Whether stored data bytes are the bytes that the layout writes for the
/// data that they hold: text and integers always are, floats if each of
/// them is.
pub open spec fn data_as_written(processor: Processor, tag: u8, count: nat, data: Seq<u8>) -> bool {
    tag == 4 ==> forall|i: int| 0 <= i < count ==> #[trigger] float_as_written(processor, data, i)
}

/// Whether the record at the start of `bytes`, if it is the record of a
/// parameter, stores its data as the layout writes it.
pub open spec fn as_written(processor: Processor, bytes: Seq<u8>) -> bool {
    let n = name_len(bytes[0]);
    let span = processor.i16_value(bytes[1 + n], bytes[2 + n]) as int;
    let body = bytes.subrange(3 + n, 1 + n + span);
    let nd = body[2] as int;
    let count = extent_product(body.subrange(3, 3 + nd));
    0 < body[0] < 128 ==> data_as_written(
        processor,
        body[1],
        count,
        body.subrange(3 + nd, 3 + nd + tagged_len(body[1], count)),
    )
}

/// The bytes of 16-bit integers come back unchanged from the integers that
/// they hold.
proof fn lemma_integers_written_back(processor: Processor, count: nat, data: Seq<u8>)
    requires
        data.len() == 2 * count,
    ensures
        decode_data(processor, 2, count, data).bytes(processor) == data,
{
    let back = decode_data(processor, 2, count, data).bytes(processor);
    assert(back.len() == data.len());
    assert forall|k: int| 0 <= k < data.len() implies back[k] == data[k] by {
        let j = k / 2;
        let written = processor.i16_bytes(processor.i16_value(data[2 * j], data[2 * j + 1]));
        lemma_i16_bytes_back(processor, data[2 * j], data[2 * j + 1]);
        assert(back[k] == written[k % 2]);
        assert(k == 2 * j + k % 2);
    }
    assert(back =~= data);
}

/// The bytes of floats that are stored as the layout writes them come back
/// unchanged from the floats that they hold.
proof fn lemma_floats_written_back(processor: Processor, count: nat, data: Seq<u8>)
    requires
        data.len() == 4 * count,
        data_as_written(processor, 4, count, data),
    ensures
        decode_data(processor, 4, count, data).bytes(processor) == data,
{
    let back = decode_data(processor, 4, count, data).bytes(processor);
    assert(back.len() == data.len());
    assert forall|k: int| 0 <= k < data.len() implies back[k] == data[k] by {
        let j = k / 4;
        let written = processor.float_bytes(
            processor.float_value(data[4 * j], data[4 * j + 1], data[4 * j + 2], data[4 * j + 3]),
        );
        assert(float_as_written(processor, data, j));
        lemma_float_bytes_back(processor, data[4 * j], data[4 * j + 1], data[4 * j + 2], data[4 * j + 3]);
        assert(back[k] == written[k % 4]);
        assert(k == 4 * j + k % 4);
    }
    assert(back =~= data);
}

/// Floats whose bytes come back unchanged are stored as the layout writes
/// them.
proof fn lemma_floats_kept(processor: Processor, count: nat, data: Seq<u8>, i: int)
    requires
        data.len() == 4 * count,
        decode_data(processor, 4, count, data).bytes(processor) == data,
        0 <= i < count,
    ensures
        float_as_written(processor, data, i),
{
    let back = decode_data(processor, 4, count, data).bytes(processor);
    let written = processor.float_bytes(
        processor.float_value(data[4 * i], data[4 * i + 1], data[4 * i + 2], data[4 * i + 3]),
    );
    assert((4 * i) / 4 == i && (4 * i) % 4 == 0);
    assert((4 * i + 1) / 4 == i && (4 * i + 1) % 4 == 1);
    assert((4 * i + 2) / 4 == i && (4 * i + 2) % 4 == 2);
    assert((4 * i + 3) / 4 == i && (4 * i + 3) % 4 == 3);
    assert(back[4 * i] == written[0]);
    assert(back[4 * i + 1] == written[1]);
    assert(back[4 * i + 2] == written[2]);
    assert(back[4 * i + 3] == written[3]);
    assert(written.len() == 4);
    assert(written =~= seq![data[4 * i], data[4 * i + 1], data[4 * i + 2], data[4 * i + 3]]);
    lemma_float_bytes_back(processor, data[4 * i], data[4 * i + 1], data[4 * i + 2], data[4 * i + 3]);
}

/// Data bytes come back unchanged from the data that they hold exactly if
/// they are stored as the layout writes them.
proof fn lemma_data_written_back(processor: Processor, tag: u8, count: nat, data: Seq<u8>)
    requires
        tag == 255 || tag == 1 || tag == 2 || tag == 4,
        data.len() == tagged_len(tag, count),
    ensures
        decode_data(processor, tag, count, data).bytes(processor) == data <==> data_as_written(
            processor,
            tag,
            count,
            data,
        ),
{
    let back = decode_data(processor, tag, count, data).bytes(processor);
    if tag == 1 {
        assert(back =~= data);
    } else if tag == 2 {
        lemma_integers_written_back(processor, count, data);
    } else if tag == 4 {
        if data_as_written(processor, tag, count, data) {
            lemma_floats_written_back(processor, count, data);
        }
        if back == data {
            assert forall|i: int| 0 <= i < count implies #[trigger] float_as_written(
                processor,
                data,
                i,
            ) by {
                lemma_floats_kept(processor, count, data, i);
            }
        }
    }
}

/// The body of a parameter's record comes back unchanged from the
/// parameter that it holds exactly if its data is stored as the layout
/// writes it.
proof fn lemma_body_written_back(processor: Processor, body: Seq<u8>, locked: bool)
    requires
        parse_parameter_body(processor, body, locked) is Some,
    ensures
        ({
            let parameter = parse_parameter_body(processor, body, locked)->Some_0;
            let nd = body[2] as int;
            let count = extent_product(body.subrange(3, 3 + nd));
            &&& parameter.span() == body.len() + 2
            &&& parameter.body(processor, body[0]) == body <==> data_as_written(
                processor,
                body[1],
                count,
                body.subrange(3 + nd, 3 + nd + tagged_len(body[1], count)),
            )
        }),
{
    let parameter = parse_parameter_body(processor, body, locked)->Some_0;
    let tag = body[1];
    let nd = body[2] as int;
    let dimensions = body.subrange(3, 3 + nd);
    let count = extent_product(dimensions);
    let data_end = 3 + nd + tagged_len(tag, count);
    let data = body.subrange(3 + nd, data_end);
    let description = body.subrange(data_end + 1, body.len() as int);
    let back = parameter.data.bytes(processor);
    let written = parameter.body(processor, body[0]);
    assert(parameter.dimensions == dimensions && parameter.description == description);
    assert(parameter.data == decode_data(processor, tag, count, data));
    lemma_decoded_data(processor, tag, count, data);
    lemma_data_written_back(processor, tag, count, data);
    assert(parameter.data.tag() == tag);
    assert(back.len() == data.len());
    lemma_body_frame(body[0], tag, body[2], dimensions, back, body[data_end], description);
    assert(written == seq![body[0], tag, body[2]] + dimensions + back + seq![body[data_end]]
        + description);
    if back == data {
        assert(written =~= body);
    }
}

/// What is read is written back as it came. The bytes of a record that was
/// read from `bytes` are those bytes again, with one exception: a float
/// that is stored in another way than the layout writes it, which is a
/// float of the DEC layout with a second byte of 1. Such a float is written
/// back with a second byte of 0, which holds the same value.
pub proof fn lemma_read_then_written(processor: Processor, bytes: Seq<u8>)
    requires
        parse_record(processor, bytes) is Some,
    ensures
        parse_record(processor, bytes)->Some_0.0.bytes(processor) == bytes.take(
            parse_record(processor, bytes)->Some_0.1 as int,
        ) <==> as_written(processor, bytes),
{
    let (record, len) = parse_record(processor, bytes)->Some_0;
    let n = name_len(bytes[0]);
    let span = processor.i16_value(bytes[1 + n], bytes[2 + n]) as int;
    let name = bytes.subrange(1, 1 + n);
    let locked = bytes[0] > 128;
    let body = bytes.subrange(3 + n, 1 + n + span);
    let read = bytes.take(len as int);
    let written = record.bytes(processor);
    assert(parse_body(processor, name, locked, body) == Some(record));
    assert(length_byte(name.len(), locked) == bytes[0]);
    lemma_i16_bytes_back(processor, bytes[1 + n], bytes[2 + n]);
    let head = seq![bytes[0]] + name + seq![bytes[1 + n], bytes[2 + n]];
    assert(read =~= head + body);
    match record {
        RecordView::Group { id, name, locked, description } => {
            let tail = seq![(256 - id) as u8, description.len() as u8] + description;
            assert(tail =~= body);
            assert((4 + description.len()) as i16 == processor.i16_value(bytes[1 + n], bytes[2 + n]));
            assert(written =~= head + tail);
        },
        RecordView::Parameter { group_id, name, parameter } => {
            lemma_body_written_back(processor, body, locked);
            let tail = parameter.body(processor, group_id);
            assert(parameter.span() as i16 == processor.i16_value(bytes[1 + n], bytes[2 + n]));
            assert(written =~= head + tail);
            if tail == body {
                assert(written == read);
            }
            if written == read {
                assert(tail.len() == body.len());
                assert(written.subrange(3 + n, len as int) =~= tail);
                assert(read.subrange(3 + n, len as int) =~= body);
            }
        },
    }
}

} // verus!
