//! One parameter: a typed, dimensioned value with its description, and the
//! exact bytes of the record that holds it in a file.

use vstd::prelude::*;
use vstd::string::StringSliceAdditionalSpecFns;
use crate::error::C3dParseError;
use crate::grids::{
    grid_cells, grid_col_count, grid_cols, grid_from_vec, grid_row_count, grid_rows,
    row_major_cells,
};
use crate::names::valid_name;
use crate::processor::Processor;

verus! {

/// The greatest value of the two-byte signed offset that leads from one
/// record to the next.
pub const MAX_OFFSET: usize = 32767;

/// The flattened data of a parameter, by type. A float is held as its bit pattern.
#[derive(Debug, PartialEq, Eq)]
pub enum ParameterData {
    /// Text: one byte per character.
    Char(Vec<u8>),
    /// Signed 8-bit integers.
    Byte(Vec<i8>),
    /// Signed 16-bit integers.
    Integer(Vec<i16>),
    /// 32-bit floats, each as its IEEE-754 bit pattern.
    Float(Vec<u32>),
}

/// The mathematical value of a [`ParameterData`].
pub enum DataView {
    Char(Seq<u8>),
    Byte(Seq<i8>),
    Integer(Seq<i16>),
    Float(Seq<u32>),
}

impl DataView {
    /// The number of elements.
    pub open spec fn len(self) -> nat {
        match self {
            DataView::Char(s) => s.len(),
            DataView::Byte(s) => s.len(),
            DataView::Integer(s) => s.len(),
            DataView::Float(s) => s.len(),
        }
    }

    /// The number of bytes that one element takes in a record.
    pub open spec fn width(self) -> nat {
        match self {
            DataView::Char(_) => 1,
            DataView::Byte(_) => 1,
            DataView::Integer(_) => 2,
            DataView::Float(_) => 4,
        }
    }

    /// The number of bytes that the elements take in a record.
    pub open spec fn byte_len(self) -> nat {
        match self {
            DataView::Char(s) => s.len(),
            DataView::Byte(s) => s.len(),
            DataView::Integer(s) => 2 * s.len(),
            DataView::Float(s) => 4 * s.len(),
        }
    }

    /// The byte that tells the type in a record: 255 (that is -1) for text,
    /// else the width of an element.
    pub open spec fn tag(self) -> u8 {
        match self {
            DataView::Char(_) => 255,
            DataView::Byte(_) => 1,
            DataView::Integer(_) => 2,
            DataView::Float(_) => 4,
        }
    }

    /// The bytes of the elements, one element after the other, in the layout
    /// of `processor`.
    pub open spec fn bytes(self, processor: Processor) -> Seq<u8> {
        match self {
            DataView::Char(s) => s,
            DataView::Byte(s) => Seq::new(s.len(), |i: int| byte_of(s[i])),
            DataView::Integer(s) => Seq::new(
                2 * s.len(),
                |i: int| processor.i16_bytes(s[i / 2])[i % 2],
            ),
            DataView::Float(s) => Seq::new(
                4 * s.len(),
                |i: int| processor.float_bytes(s[i / 4])[i % 4],
            ),
        }
    }

    /// Whether `processor` can hold every float of the data exactly.
    pub open spec fn held_by(self, processor: Processor) -> bool {
        match self {
            DataView::Float(s) => forall|i: int| 0 <= i < s.len() ==> processor.holds_float(#[trigger] s[i]),
            _ => true,
        }
    }
}

impl View for ParameterData {
    type V = DataView;

    open spec fn view(&self) -> DataView {
        match self {
            ParameterData::Char(v) => DataView::Char(v@),
            ParameterData::Byte(v) => DataView::Byte(v@),
            ParameterData::Integer(v) => DataView::Integer(v@),
            ParameterData::Float(v) => DataView::Float(v@),
        }
    }
}

/// The byte that holds the signed 8-bit integer `v`.
pub open spec fn byte_of(v: i8) -> u8 {
    if v < 0 {
        (v + 256) as u8
    } else {
        v as u8
    }
}

/// The signed 8-bit integer that the byte `b` holds.
pub open spec fn signed8(b: u8) -> i8 {
    if b >= 128 {
        (b - 256) as i8
    } else {
        b as i8
    }
}

/// The product of the extents: the number of elements of data with these
/// dimensions. Without dimensions the data is one scalar.
pub open spec fn extent_product(dimensions: Seq<u8>) -> nat
    decreases dimensions.len(),
{
    if dimensions.len() == 0 {
        1
    } else {
        extent_product(dimensions.drop_last()) * (dimensions.last() as nat)
    }
}

/// The mathematical value of a [`Parameter`].
pub struct ParameterView {
    /// The extents, in declared order; none for a scalar.
    pub dimensions: Seq<u8>,
    /// The flattened data.
    pub data: DataView,
    /// The description.
    pub description: Seq<u8>,
    /// Whether the parameter is marked as not to be edited.
    pub locked: bool,
}

impl ParameterView {
    /// The number of bytes of a record from its offset field to its end:
    /// the offset itself, the group id, the type tag, the number of
    /// dimensions, the extents, the data, and the description with its length.
    pub open spec fn span(self) -> nat {
        2 + 3 + self.dimensions.len() + self.data.byte_len() + 1 + self.description.len()
    }

    /// What holds of every parameter: there is as much data as the extents
    /// say, and the record fits the format's one-byte counts and its
    /// two-byte signed offset.
    pub open spec fn wf(self) -> bool {
        &&& self.data.len() == extent_product(self.dimensions)
        &&& self.dimensions.len() <= 255
        &&& self.description.len() <= 255
        &&& self.span() <= MAX_OFFSET
    }

    /// The bytes of a record after its offset field, for a parameter of the
    /// group with id `group_id`.
    pub open spec fn body(self, processor: Processor, group_id: u8) -> Seq<u8> {
        seq![group_id, self.data.tag(), self.dimensions.len() as u8] + self.dimensions
            + self.data.bytes(processor) + seq![self.description.len() as u8] + self.description
    }

    /// The record of this parameter under the name `name` in the group with
    /// id `group_id`: the signed length of the name, negative if `locked`; the
    /// name; the offset to the next record; then the body.
    pub open spec fn record(self, processor: Processor, name: Seq<u8>, group_id: u8, locked: bool) -> Seq<u8> {
        seq![length_byte(name.len(), locked)] + name + processor.i16_bytes(self.span() as i16)
            + self.body(processor, group_id)
    }
}

/// The first byte of a record: the length of the name, as a signed byte that
/// is negative if the record is locked.
pub open spec fn length_byte(len: nat, locked: bool) -> u8 {
    if locked {
        (256 - len) as u8
    } else {
        len as u8
    }
}

/// A typed, dimensioned value with its description and its locked flag.
#[derive(Debug, PartialEq, Eq)]
pub struct Parameter {
    dimensions: Vec<u8>,
    data: ParameterData,
    description: Vec<u8>,
    locked: bool,
}

impl View for Parameter {
    type V = ParameterView;

    closed spec fn view(&self) -> ParameterView {
        ParameterView {
            dimensions: self.dimensions@,
            data: self.data@,
            description: self.description@,
            locked: self.locked,
        }
    }
}

impl Parameter {
    #[verifier::type_invariant]
    spec fn inv(&self) -> bool {
        self@.wf()
    }

    /// A parameter with the given extents and data, without description and
    /// not locked; nothing if there is not as much data as the extents say or
    /// if its record would not fit the format.
    pub fn new(dimensions: Vec<u8>, data: ParameterData) -> (made: Option<Parameter>)
        ensures
            made matches Some(p) ==> p@ == plain(dimensions@, data@) && p@.wf(),
            made is Some <==> plain(dimensions@, data@).wf(),
    {
        let ghost view = plain(dimensions@, data@);
        let width: usize = data_width(&data);
        let len: usize = data_len(&data);
        if dimensions.len() > 255 {
            return None;
        }
        let room: usize = (MAX_OFFSET - 6 - dimensions.len()) / width;
        match element_count(dimensions.as_slice(), room) {
            None => {
                proof {
                    lemma_room(view.data, MAX_OFFSET - 6 - dimensions.len(), room as int);
                }
                None
            },
            Some(count) => {
                if count != len {
                    return None;
                }
                proof {
                    lemma_room(view.data, MAX_OFFSET - 6 - dimensions.len(), room as int);
                }
                Some(Parameter { dimensions, data, description: Vec::new(), locked: false })
            },
        }
    }

    /// A scalar of text: one character.
    pub fn char(value: u8) -> (p: Parameter)
        ensures
            p@ == plain(Seq::empty(), DataView::Char(seq![value])),
            p@.wf(),
    {
        let mut data: Vec<u8> = Vec::new();
        data.push(value);
        proof {
            assert(data@ =~= seq![value]);
            lemma_scalar();
        }
        Parameter { dimensions: Vec::new(), data: ParameterData::Char(data), description: Vec::new(), locked: false }
    }

    /// A scalar signed 8-bit integer.
    pub fn byte(value: i8) -> (p: Parameter)
        ensures
            p@ == plain(Seq::empty(), DataView::Byte(seq![value])),
            p@.wf(),
    {
        let mut data: Vec<i8> = Vec::new();
        data.push(value);
        proof {
            assert(data@ =~= seq![value]);
            lemma_scalar();
        }
        Parameter { dimensions: Vec::new(), data: ParameterData::Byte(data), description: Vec::new(), locked: false }
    }

    /// A scalar signed 16-bit integer.
    pub fn integer(value: i16) -> (p: Parameter)
        ensures
            p@ == plain(Seq::empty(), DataView::Integer(seq![value])),
            p@.wf(),
    {
        let mut data: Vec<i16> = Vec::new();
        data.push(value);
        proof {
            assert(data@ =~= seq![value]);
            lemma_scalar();
        }
        Parameter { dimensions: Vec::new(), data: ParameterData::Integer(data), description: Vec::new(), locked: false }
    }

    /// A scalar float, given by its bit pattern.
    pub fn float(bits: u32) -> (p: Parameter)
        ensures
            p@ == plain(Seq::empty(), DataView::Float(seq![bits])),
            p@.wf(),
    {
        let mut data: Vec<u32> = Vec::new();
        data.push(bits);
        proof {
            assert(data@ =~= seq![bits]);
            lemma_scalar();
        }
        Parameter { dimensions: Vec::new(), data: ParameterData::Float(data), description: Vec::new(), locked: false }
    }

    /// The parameter made of parts that are known to fit together.
    pub(crate) fn from_parts(dimensions: Vec<u8>, data: ParameterData, description: Vec<u8>, locked: bool) -> (p: Parameter)
        requires
            (ParameterView { dimensions: dimensions@, data: data@, description: description@, locked }).wf(),
        ensures
            p@ == (ParameterView { dimensions: dimensions@, data: data@, description: description@, locked }),
    {
        Parameter { dimensions, data, description, locked }
    }

    /// The extents, in declared order; none for a scalar.
    pub fn dimensions(&self) -> (dimensions: &Vec<u8>)
        ensures
            dimensions@ == self@.dimensions,
            self@.wf(),
    {
        proof {
            use_type_invariant(self);
        }
        &self.dimensions
    }

    /// The flattened data.
    pub fn data(&self) -> (data: &ParameterData)
        ensures
            data@ == self@.data,
            self@.wf(),
    {
        proof {
            use_type_invariant(self);
        }
        &self.data
    }

    /// The description.
    pub fn description(&self) -> (description: &Vec<u8>)
        ensures
            description@ == self@.description,
            self@.wf(),
    {
        proof {
            use_type_invariant(self);
        }
        &self.description
    }

    /// Whether the parameter is locked.
    pub fn is_locked(&self) -> (locked: bool)
        ensures
            locked == self@.locked,
    {
        self.locked
    }

    /// Sets the locked flag.
    pub fn set_locked(&mut self, locked: bool)
        ensures
            final(self)@ == (ParameterView { locked, ..old(self)@ }),
    {
        proof {
            use_type_invariant(&*self);
        }
        self.locked = locked;
    }

    /// Replaces the description, if the record still fits the format with
    /// it; says whether it did. A description that does not fit leaves the
    /// parameter as it was.
    pub fn set_description(&mut self, description: &[u8]) -> (fits: bool)
        ensures
            fits == (ParameterView { description: description@, ..old(self)@ }).wf(),
            fits ==> final(self)@ == (ParameterView { description: description@, ..old(self)@ }),
            !fits ==> final(self)@ == old(self)@,
    {
        proof {
            use_type_invariant(&*self);
        }
        let used: usize = 6 + self.dimensions.len() + data_byte_len(&self.data);
        if description.len() > 255 || used + description.len() > MAX_OFFSET {
            return false;
        }
        let mut bytes: Vec<u8> = Vec::new();
        append(&mut bytes, description);
        self.description = bytes;
        true
    }

    /// The parameter that holds a grid of floats: its rows and columns as
    /// the two extents, its cells row by row as the data. Nothing if the grid
    /// has more than 255 rows or columns or if its record would not fit the
    /// format.
    pub fn float_grid(grid: &grid::Grid<u32>) -> (made: Option<Parameter>)
        ensures
            made matches Some(p) ==> p@ == grid_parameter(*grid) && p@.wf(),
            made is Some <==> grid_rows(*grid) <= 255 && grid_cols(*grid) <= 255
                && grid_parameter(*grid).wf(),
    {
        let rows: usize = grid_row_count(grid);
        let cols: usize = grid_col_count(grid);
        if rows > 255 || cols > 255 {
            return None;
        }
        let mut dimensions: Vec<u8> = Vec::new();
        dimensions.push(rows as u8);
        dimensions.push(cols as u8);
        let cells: Vec<u32> = row_major_cells(grid);
        assert(dimensions@ =~= seq![rows as u8, cols as u8]);
        Parameter::new(dimensions, ParameterData::Float(cells))
    }

    /// The value of a scalar float parameter, as its bit pattern.
    pub fn as_float(&self) -> (value: Result<u32, C3dParseError>)
        ensures
            value == float_of(self@),
    {
        proof {
            use_type_invariant(self);
            lemma_scalar();
        }
        match &self.data {
            ParameterData::Float(v) => {
                if self.dimensions.len() == 0 {
                    assert(self.dimensions@ =~= Seq::empty());
                    Ok(v[0])
                } else {
                    Err(C3dParseError::DimensionMismatch)
                }
            },
            _ => Err(C3dParseError::UnexpectedType),
        }
    }

    /// The grid of floats that a parameter with the extents `rows` and `cols`
    /// holds: the data fills the grid row by row. A grid without cells has
    /// neither rows nor columns.
    pub fn into_float_grid(self, rows: u8, cols: u8) -> (made: Result<grid::Grid<u32>, C3dParseError>)
        ensures
            match float_cells_of(self@, rows, cols) {
                Ok(cells) => made matches Ok(g) && grid_cells(g) == cells && grid_rows(g) == (if cols
                    == 0 {
                    0
                } else {
                    rows
                }) && grid_cols(g) == (if rows == 0 {
                    0
                } else {
                    cols
                }),
                Err(e) => made == Err::<grid::Grid<u32>, C3dParseError>(e),
            },
    {
        proof {
            use_type_invariant(&self);
        }
        let ghost view = self@;
        let Parameter { dimensions, data, description: _, locked: _ } = self;
        match data {
            ParameterData::Float(cells) => {
                if dimensions.len() != 2 || dimensions[0] != rows || dimensions[1] != cols {
                    assert(dimensions@ != seq![rows, cols]);
                    return Err(C3dParseError::DimensionMismatch);
                }
                proof {
                    assert(dimensions@ =~= seq![rows, cols]);
                    lemma_product_of_two(rows, cols);
                    lemma_whole_rows(rows as int, cols as int);
                }
                Ok(grid_from_vec(cells, cols as usize))
            },
            _ => Err(C3dParseError::UnexpectedType),
        }
    }

    /// The record of this parameter under the name `name` in the group with
    /// id `group_id`, locked or not as `locked` says.
    pub fn write(&self, processor: &Processor, name: &str, group_id: u8, locked: bool) -> (bytes: Vec<u8>)
        requires
            valid_name(name.spec_bytes()),
            1 <= group_id <= 127,
        ensures
            bytes@ == self@.record(*processor, name.spec_bytes(), group_id, locked),
            self@.wf(),
    {
        self.write_record(processor, name.as_bytes(), group_id, locked)
    }

    /// The record of this parameter under a name given as bytes.
    pub(crate) fn write_record(&self, processor: &Processor, name: &[u8], group_id: u8, locked: bool) -> (bytes: Vec<u8>)
        requires
            valid_name(name@),
        ensures
            bytes@ == self@.record(*processor, name@, group_id, locked),
            self@.wf(),
    {
        proof {
            use_type_invariant(self);
        }
        let mut bytes: Vec<u8> = Vec::new();
        let n: usize = name.len();
        let first: u8 = if locked { (256 - n) as u8 } else { n as u8 };
        bytes.push(first);
        append(&mut bytes, name);
        let span: usize = 6 + self.dimensions.len() + data_byte_len(&self.data) + self.description.len();
        let offset: [u8; 2] = processor.encode_i16(span as i16);
        bytes.push(offset[0]);
        bytes.push(offset[1]);
        proof {
            assert(bytes@ =~= seq![length_byte(name@.len(), locked)] + name@ + processor.i16_bytes(
                self@.span() as i16,
            ));
        }
        bytes.push(group_id);
        bytes.push(data_tag(&self.data));
        bytes.push(self.dimensions.len() as u8);
        append(&mut bytes, self.dimensions.as_slice());
        write_data(&self.data, processor, &mut bytes);
        bytes.push(self.description.len() as u8);
        append(&mut bytes, self.description.as_slice());
        proof {
            assert(bytes@ =~= self@.record(*processor, name@, group_id, locked));
        }
        bytes
    }
}

/// The parameter with the given extents and data, no description, not locked.
pub open spec fn plain(dimensions: Seq<u8>, data: DataView) -> ParameterView {
    ParameterView { dimensions, data, description: Seq::empty(), locked: false }
}

/// Without extents there is one element.
proof fn lemma_scalar()
    ensures
        extent_product(Seq::<u8>::empty()) == 1,
{
}

/// Appends `src` to `out`.
pub(crate) fn append(out: &mut Vec<u8>, src: &[u8])
    ensures
        final(out)@ == old(out)@ + src@,
{
    let mut i: usize = 0;
    while i < src.len()
        invariant
            i <= src.len(),
            out@ == old(out)@ + src@.take(i as int),
        decreases src.len() - i,
    {
        out.push(src[i]);
        assert(out@ =~= old(out)@ + src@.take(i + 1));
        i += 1;
    }
    assert(src@.take(src.len() as int) =~= src@);
}

/// The parameter that holds the grid `g`: two extents, the cells row by row.
pub open spec fn grid_parameter(g: grid::Grid<u32>) -> ParameterView {
    plain(seq![grid_rows(g) as u8, grid_cols(g) as u8], DataView::Float(grid_cells(g)))
}

/// The value of `p` read as a scalar float: its type must be float, and it
/// must have no dimensions.
pub open spec fn float_of(p: ParameterView) -> Result<u32, C3dParseError> {
    match p.data {
        DataView::Float(s) => if p.dimensions.len() == 0 {
            Ok(s[0])
        } else {
            Err(C3dParseError::DimensionMismatch)
        },
        _ => Err(C3dParseError::UnexpectedType),
    }
}

/// The data of `p` read as a grid of floats with `rows` rows and `cols`
/// columns: its type must be float, and its extents must be these two.
pub open spec fn float_cells_of(p: ParameterView, rows: u8, cols: u8) -> Result<Seq<u32>, C3dParseError> {
    match p.data {
        DataView::Float(s) => if p.dimensions == seq![rows, cols] {
            Ok(s)
        } else {
            Err(C3dParseError::DimensionMismatch)
        },
        _ => Err(C3dParseError::UnexpectedType),
    }
}

/// A record is as long as its first byte, its name and the span that its
/// offset tells: for a scalar float without description the length of the
/// name and 11 more bytes.
pub proof fn lemma_record_len(processor: Processor, parameter: ParameterView, name: Seq<u8>, group_id: u8, locked: bool)
    ensures
        parameter.record(processor, name, group_id, locked).len() == 1 + name.len() + parameter.span(),
        parameter.data.bytes(processor).len() == parameter.data.byte_len(),
{
    assert(processor.i16_bytes(parameter.span() as i16).len() == 2);
}

/// Two extents hold as many elements as their product.
pub(crate) proof fn lemma_product_of_two(rows: u8, cols: u8)
    ensures
        extent_product(seq![rows, cols]) == rows * cols,
{
    let d = seq![rows, cols];
    assert(d.drop_last() =~= seq![rows]);
    assert(seq![rows].drop_last() =~= Seq::<u8>::empty());
    lemma_scalar();
    assert(extent_product(seq![rows]) == 1 * (rows as nat));
    assert(extent_product(d) == extent_product(seq![rows]) * (cols as nat));
}

/// `rows * cols` cells fill `rows` whole rows of `cols` columns.
proof fn lemma_whole_rows(rows: int, cols: int)
    requires
        0 <= rows,
        0 <= cols,
    ensures
        cols > 0 ==> (rows * cols) % cols == 0 && (rows * cols) / cols == rows,
        cols == 0 ==> rows * cols == 0,
        rows == 0 ==> rows * cols == 0,
        rows > 0 && cols > 0 ==> rows * cols > 0,
{
    if cols > 0 {
        vstd::arithmetic::div_mod::lemma_div_multiples_vanish(rows, cols);
        vstd::arithmetic::div_mod::lemma_mod_multiples_basic(rows, cols);
        assert(rows * cols == cols * rows) by (nonlinear_arith);
    }
    assert(rows > 0 && cols > 0 ==> rows * cols > 0) by (nonlinear_arith);
    assert(cols == 0 ==> rows * cols == 0) by (nonlinear_arith);
    assert(rows == 0 ==> rows * cols == 0) by (nonlinear_arith);
}

/// The type tag of `data`.
fn data_tag(data: &ParameterData) -> (tag: u8)
    ensures
        tag == data@.tag(),
{
    match data {
        ParameterData::Char(_) => 255,
        ParameterData::Byte(_) => 1,
        ParameterData::Integer(_) => 2,
        ParameterData::Float(_) => 4,
    }
}

/// Appends the bytes of the elements of `data` in the layout of `processor`.
fn write_data(data: &ParameterData, processor: &Processor, out: &mut Vec<u8>)
    ensures
        final(out)@ == old(out)@ + data@.bytes(*processor),
{
    match data {
        ParameterData::Char(v) => {
            append(out, v.as_slice());
        },
        ParameterData::Byte(v) => {
            let mut i: usize = 0;
            while i < v.len()
                invariant
                    i <= v.len(),
                    out@ == old(out)@ + Seq::new(i as nat, |k: int| byte_of(v@[k])),
                decreases v.len() - i,
            {
                let w: i16 = v[i] as i16;
                let b: u8 = if w < 0 { (w + 256) as u8 } else { w as u8 };
                out.push(b);
                assert(out@ =~= old(out)@ + Seq::new((i + 1) as nat, |k: int| byte_of(v@[k])));
                i += 1;
            }
        },
        ParameterData::Integer(v) => {
            let mut i: usize = 0;
            while i < v.len()
                invariant
                    i <= v.len(),
                    out@ == old(out)@ + Seq::new(
                        (2 * i) as nat,
                        |k: int| processor.i16_bytes(v@[k / 2])[k % 2],
                    ),
                decreases v.len() - i,
            {
                let b: [u8; 2] = processor.encode_i16(v[i]);
                out.push(b[0]);
                out.push(b[1]);
                assert(out@ =~= old(out)@ + Seq::new(
                    (2 * (i + 1)) as nat,
                    |k: int| processor.i16_bytes(v@[k / 2])[k % 2],
                ));
                i += 1;
            }
        },
        ParameterData::Float(v) => {
            let mut i: usize = 0;
            while i < v.len()
                invariant
                    i <= v.len(),
                    out@ == old(out)@ + Seq::new(
                        (4 * i) as nat,
                        |k: int| processor.float_bytes(v@[k / 4])[k % 4],
                    ),
                decreases v.len() - i,
            {
                let b: [u8; 4] = processor.encode_float(v[i]);
                out.push(b[0]);
                out.push(b[1]);
                out.push(b[2]);
                out.push(b[3]);
                assert(out@ =~= old(out)@ + Seq::new(
                    (4 * (i + 1)) as nat,
                    |k: int| processor.float_bytes(v@[k / 4])[k % 4],
                ));
                i += 1;
            }
        },
    }
}

/// The number of elements of `data`.
fn data_len(data: &ParameterData) -> (len: usize)
    ensures
        len == data@.len(),
{
    match data {
        ParameterData::Char(v) => v.len(),
        ParameterData::Byte(v) => v.len(),
        ParameterData::Integer(v) => v.len(),
        ParameterData::Float(v) => v.len(),
    }
}

/// The number of bytes that the elements of `data` take in a record.
fn data_byte_len(data: &ParameterData) -> (len: usize)
    requires
        data@.byte_len() <= MAX_OFFSET,
    ensures
        len == data@.byte_len(),
{
    match data {
        ParameterData::Char(v) => v.len(),
        ParameterData::Byte(v) => v.len(),
        ParameterData::Integer(v) => 2 * v.len(),
        ParameterData::Float(v) => 4 * v.len(),
    }
}

/// The number of bytes of one element of `data`.
fn data_width(data: &ParameterData) -> (width: usize)
    ensures
        width == data@.width(),
        1 <= width <= 4,
{
    match data {
        ParameterData::Char(_) => 1,
        ParameterData::Byte(_) => 1,
        ParameterData::Integer(_) => 2,
        ParameterData::Float(_) => 4,
    }
}

/// The product of the extents, if it is at most `limit`.
pub(crate) fn element_count(dimensions: &[u8], limit: usize) -> (count: Option<usize>)
    requires
        limit <= MAX_OFFSET,
    ensures
        count == (if extent_product(dimensions@) <= limit {
            Some(extent_product(dimensions@) as usize)
        } else {
            None
        }),
{
    let mut i: usize = 0;
    while i < dimensions.len()
        invariant
            i <= dimensions.len(),
            forall|k: int| 0 <= k < i ==> dimensions@[k] != 0,
        decreases dimensions.len() - i,
    {
        if dimensions[i] == 0 {
            proof {
                lemma_product_zero(dimensions@, i as int);
            }
            return Some(0);
        }
        i += 1;
    }
    let mut product: usize = 1;
    i = 0;
    if limit == 0 {
        proof {
            lemma_product_grows(dimensions@, 0);
            assert(dimensions@.take(0) =~= Seq::empty());
        }
        return None;
    }
    while i < dimensions.len()
        invariant
            i <= dimensions.len(),
            limit <= MAX_OFFSET,
            forall|k: int| 0 <= k < dimensions.len() ==> dimensions@[k] != 0,
            product == extent_product(dimensions@.take(i as int)),
            product <= limit,
        decreases dimensions.len() - i,
    {
        proof {
            lemma_product_step(dimensions@, i as int);
            assert(product * dimensions@[i as int] <= 32767 * 255) by (nonlinear_arith)
                requires
                    product <= 32767,
                    dimensions@[i as int] <= 255,
            ;
        }
        let next: usize = product * (dimensions[i] as usize);
        if next > limit {
            proof {
                lemma_product_grows(dimensions@, i + 1);
            }
            return None;
        }
        product = next;
        i += 1;
    }
    proof {
        assert(dimensions@.take(dimensions.len() as int) =~= dimensions@);
    }
    Some(product)
}

/// One extent of zero leaves no elements.
proof fn lemma_product_zero(dimensions: Seq<u8>, k: int)
    requires
        0 <= k < dimensions.len(),
        dimensions[k] == 0,
    ensures
        extent_product(dimensions) == 0,
    decreases dimensions.len(),
{
    if k < dimensions.len() - 1 {
        lemma_product_zero(dimensions.drop_last(), k);
        assert(0 * (dimensions.last() as nat) == 0);
    }
}

/// One more extent multiplies the number of elements by it.
proof fn lemma_product_step(dimensions: Seq<u8>, i: int)
    requires
        0 <= i < dimensions.len(),
    ensures
        extent_product(dimensions.take(i + 1)) == extent_product(dimensions.take(i))
            * dimensions[i],
{
    assert(dimensions.take(i + 1).drop_last() =~= dimensions.take(i));
}

/// Extents that are all positive never lower the number of elements.
proof fn lemma_product_grows(dimensions: Seq<u8>, i: int)
    requires
        0 <= i <= dimensions.len(),
        forall|k: int| 0 <= k < dimensions.len() ==> dimensions[k] != 0,
    ensures
        extent_product(dimensions.take(i)) <= extent_product(dimensions),
    decreases dimensions.len() - i,
{
    if i == dimensions.len() {
        assert(dimensions.take(i) =~= dimensions);
    } else {
        lemma_product_step(dimensions, i);
        lemma_product_grows(dimensions, i + 1);
        let a = extent_product(dimensions.take(i));
        let d = dimensions[i] as nat;
        assert(a <= a * d) by (nonlinear_arith)
            requires
                d >= 1,
        ;
    }
}

/// `room` is the greatest number of elements of this data's type whose
/// bytes fit in `total` bytes.
proof fn lemma_room(data: DataView, total: int, room: int)
    requires
        0 <= total,
        room == total / (data.width() as int),
    ensures
        data.len() <= room <==> data.byte_len() <= total,
{
    match data {
        DataView::Char(s) => {
            assert(room == total / 1);
        },
        DataView::Byte(s) => {
            assert(room == total / 1);
        },
        DataView::Integer(s) => {
            assert(room == total / 2);
        },
        DataView::Float(s) => {
            assert(room == total / 4);
        },
    }
}

} // verus!
