//! The `SEG` group: the settings with which markers were reconstructed.
//!
//! The typed view holds each documented parameter of the group, or nothing
//! where the file has none. A float is held as its IEEE-754 bit pattern in a
//! `u32`, so that a value that was read is written back bit for bit.

use vstd::prelude::*;
use vstd::string::StringSliceAdditionalSpecFns;
use vstd::std_specs::cmp::PartialEqSpecImpl;
use crate::error::{C3dParseError, C3dWriteError, ConversionError};
use crate::grids::{grid_view, row_major_cells, GridView};
use crate::names::{folded, same_name, valid_name};
use crate::parameter::{
    append, float_cells_of, float_of, lemma_product_of_two, plain, DataView, Parameter,
    ParameterView,
};
use crate::parameters::{
    entries_bytes, lemma_entries_bytes_concat, lemma_single_entry, Parameters, ParametersView,
};
use crate::processor::Processor;
use crate::record::valid_id;

verus! {

/// The name of the group.
pub open spec fn group_name() -> Seq<u8> {
    "SEG".spec_bytes()
}

/// The names of the documented parameters, in the order in which they are
/// read and written.
pub open spec fn field_names() -> Seq<Seq<u8>> {
    seq![
        "MARKER_DIAMETER".spec_bytes(),
        "DATA_LIMITS".spec_bytes(),
        "ACC_FACTOR".spec_bytes(),
        "NOISE_FACTOR".spec_bytes(),
        "RESIDUAL_ERROR_FACTOR".spec_bytes(),
        "INTERSECTION_LIMIT".spec_bytes(),
    ]
}

/// The names of the group and of its parameters are valid, and no two
/// parameters have the same name.
pub proof fn lemma_names()
    ensures
        valid_name(group_name()),
        field_names().len() == 6,
        forall|k: int| 0 <= k < 6 ==> valid_name(#[trigger] field_names()[k]),
        forall|j: int, k: int| 0 <= j < k < 6 ==> !same_name(#[trigger] field_names()[j], #[trigger] field_names()[k]),
{
    broadcast use vstd::string::is_ascii_spec_bytes;
    reveal_strlit("SEG");
    reveal_strlit("MARKER_DIAMETER");
    reveal_strlit("DATA_LIMITS");
    reveal_strlit("ACC_FACTOR");
    reveal_strlit("NOISE_FACTOR");
    reveal_strlit("RESIDUAL_ERROR_FACTOR");
    reveal_strlit("INTERSECTION_LIMIT");
    assert(vstd::string::is_ascii("SEG"));
    assert(vstd::string::is_ascii("MARKER_DIAMETER"));
    assert(vstd::string::is_ascii("DATA_LIMITS"));
    assert(vstd::string::is_ascii("ACC_FACTOR"));
    assert(vstd::string::is_ascii("NOISE_FACTOR"));
    assert(vstd::string::is_ascii("RESIDUAL_ERROR_FACTOR"));
    assert(vstd::string::is_ascii("INTERSECTION_LIMIT"));
    assert(group_name().len() == 3);
    assert(field_names()[0].len() == 15);
    assert(field_names()[1].len() == 11);
    assert(field_names()[2].len() == 10);
    assert(field_names()[3].len() == 12);
    assert(field_names()[4].len() == 21);
    assert(field_names()[5].len() == 18);
    assert forall|j: int, k: int| 0 <= j < k < 6 implies !same_name(
        #[trigger] field_names()[j],
        #[trigger] field_names()[k],
    ) by {
        assert(folded(field_names()[j]).len() != folded(field_names()[k]).len());
    }
}

/// The settings of the `SEG` group. Each field is a documented parameter of
/// the group, or nothing where there is none.
#[derive(Debug, Clone)]
pub struct Seg {
    /// The diameter of the markers, in millimetres.
    pub marker_diameter: Option<u32>,
    /// The least and the greatest value of each of the three coordinates,
    /// documented as a grid of three rows and two columns. Reading takes no
    /// other shape; writing writes the grid with the shape that it has.
    pub data_limits: Option<grid::Grid<u32>>,
    /// The acceleration factor used when a new segment is calculated.
    pub acc_factor: Option<u32>,
    /// The noise factor used when a new segment is calculated.
    pub noise_factor: Option<u32>,
    /// The residual error factor for the inclusion of rays.
    pub residual_error_factor: Option<u32>,
    /// The limit on the intersection of rays.
    pub intersection_limit: Option<u32>,
}

/// The mathematical value of a [`Seg`]: each field as in the view, a grid
/// by its size and its cells.
pub struct SegView {
    pub marker_diameter: Option<u32>,
    pub data_limits: Option<GridView>,
    pub acc_factor: Option<u32>,
    pub noise_factor: Option<u32>,
    pub residual_error_factor: Option<u32>,
    pub intersection_limit: Option<u32>,
}

/// The parameters that hold a float field: one scalar float under the
/// field's name, or none where the field is absent.
pub open spec fn float_entry(name: Seq<u8>, value: Option<u32>) -> Seq<(Seq<u8>, ParameterView)> {
    match value {
        Some(bits) => seq![(name, plain(Seq::empty(), DataView::Float(seq![bits])))],
        None => Seq::empty(),
    }
}

/// A float field as it is read back when it has been written in the layout
/// of `processor`.
pub open spec fn stored_float(processor: Processor, value: Option<u32>) -> Option<u32> {
    match value {
        Some(bits) => Some(processor.read_back(bits)),
        None => None,
    }
}

/// The parameter that holds a grid of floats: its rows and columns as the
/// two extents, its cells row by row as the data.
pub open spec fn grid_record(g: GridView) -> ParameterView {
    plain(seq![g.rows as u8, g.cols as u8], DataView::Float(g.cells))
}

/// Whether a record can hold a grid: it has at most 255 rows and 255
/// columns, and the parameter that holds it is well-formed.
pub open spec fn grid_fits(g: GridView) -> bool {
    g.rows <= 255 && g.cols <= 255 && grid_record(g).wf()
}

/// The parameters that hold a grid field: one parameter with the grid's own
/// extents and cells under the field's name, or none where the field is
/// absent.
pub open spec fn grid_entry(name: Seq<u8>, value: Option<GridView>) -> Seq<(Seq<u8>, ParameterView)> {
    match value {
        Some(g) => seq![(name, grid_record(g))],
        None => Seq::empty(),
    }
}

/// A float field as it is read from the parameter that was found under its
/// name, if one was found.
pub open spec fn read_float(found: Option<ParameterView>) -> Result<Option<u32>, C3dParseError> {
    match found {
        None => Ok(None),
        Some(p) => match float_of(p) {
            Ok(bits) => Ok(Some(bits)),
            Err(e) => Err(e),
        },
    }
}

/// A grid field as it is read from the parameter that was found under its
/// name, if one was found: the parameter must hold three by two floats.
pub open spec fn read_grid(found: Option<ParameterView>) -> Result<Option<GridView>, C3dParseError> {
    match found {
        None => Ok(None),
        Some(p) => match float_cells_of(p, 3, 2) {
            Ok(cells) => Ok(Some(GridView { rows: 3, cols: 2, cells })),
            Err(e) => Err(e),
        },
    }
}

/// The store after the first `k` documented parameters have been taken out
/// of it.
pub open spec fn taken(store: ParametersView, k: int) -> ParametersView
    decreases k,
{
    if k <= 0 {
        store
    } else {
        taken(store, k - 1).without(group_name(), field_names()[k - 1])
    }
}

/// The parameter that is found under the name of field `k` when the fields
/// before it have been taken out.
pub open spec fn found(store: ParametersView, k: int) -> Option<ParameterView> {
    taken(store, k).lookup(group_name(), field_names()[k])
}

/// What is wrong with the parameter that is found under the name of field
/// `k`, if anything: it is not of the field's type and shape.
pub open spec fn mismatch(store: ParametersView, k: int) -> Option<C3dParseError> {
    if k == 1 {
        match read_grid(found(store, k)) {
            Err(e) => Some(e),
            Ok(_) => None,
        }
    } else {
        match read_float(found(store, k)) {
            Err(e) => Some(e),
            Ok(_) => None,
        }
    }
}

/// The first field from field `k` on whose parameter is not of its type
/// and shape, if there is one.
pub open spec fn first_mismatch(store: ParametersView, k: int) -> Option<int>
    decreases 6 - k,
{
    if k < 0 || k >= 6 {
        None
    } else if mismatch(store, k) is Some {
        Some(k)
    } else {
        first_mismatch(store, k + 1)
    }
}

/// What reading the group out of `store` gives, and what it leaves of the
/// store. The fields are taken out in their order. The first parameter that
/// is not of its field's type and shape ends the reading with the number of
/// its field and its error, and the parameters up to it are gone from the
/// store. If there is none, each field is what was found under its name,
/// and all six names are gone from the store.
pub open spec fn extract(store: ParametersView) -> (Result<SegView, (int, C3dParseError)>, ParametersView) {
    match first_mismatch(store, 0) {
        Some(k) => (Err((k, mismatch(store, k)->Some_0)), taken(store, k + 1)),
        None => (
            Ok(
                SegView {
                    marker_diameter: read_float(found(store, 0))->Ok_0,
                    data_limits: read_grid(found(store, 1))->Ok_0,
                    acc_factor: read_float(found(store, 2))->Ok_0,
                    noise_factor: read_float(found(store, 3))->Ok_0,
                    residual_error_factor: read_float(found(store, 4))->Ok_0,
                    intersection_limit: read_float(found(store, 5))->Ok_0,
                },
            ),
            taken(store, 6),
        ),
    }
}

/// If field `k` is the first from field `j` on that does not convert, it is
/// the first mismatch from there.
pub(crate) proof fn lemma_first_mismatch(store: ParametersView, j: int, k: int)
    requires
        0 <= j <= k < 6,
        forall|i: int| j <= i < k ==> mismatch(store, i) is None,
        mismatch(store, k) is Some,
    ensures
        first_mismatch(store, j) == Some(k),
    decreases k - j,
{
    if j < k {
        lemma_first_mismatch(store, j + 1, k);
    }
}

/// If every field from field `j` on converts, there is no mismatch from there.
pub(crate) proof fn lemma_no_mismatch(store: ParametersView, j: int)
    requires
        0 <= j <= 6,
        forall|i: int| j <= i < 6 ==> mismatch(store, i) is None,
    ensures
        first_mismatch(store, j) is None,
    decreases 6 - j,
{
    if j < 6 {
        lemma_no_mismatch(store, j + 1);
    }
}

/// A first mismatch is a field that does not convert, behind fields that do.
pub(crate) proof fn lemma_mismatch_is_first(store: ParametersView, j: int)
    requires
        0 <= j <= 6,
    ensures
        first_mismatch(store, j) matches Some(k) ==> j <= k < 6 && mismatch(store, k) is Some && (forall|i: int| j <= i < k ==> mismatch(store, i) is None),
        first_mismatch(store, j) is None ==> forall|i: int| j <= i < 6 ==> mismatch(store, i) is None,
    decreases 6 - j,
{
    if j < 6 {
        lemma_mismatch_is_first(store, j + 1);
    }
}

impl SegView {
    /// Whether no field is present.
    pub open spec fn is_empty(self) -> bool {
        &&& self.marker_diameter is None
        &&& self.data_limits is None
        &&& self.acc_factor is None
        &&& self.noise_factor is None
        &&& self.residual_error_factor is None
        &&& self.intersection_limit is None
    }

    /// Whether the grid, if there is one, has its documented shape: three
    /// rows of two columns.
    pub open spec fn shaped(self) -> bool {
        self.data_limits matches Some(g) ==> g.rows == 3 && g.cols == 2 && g.cells.len() == 6
    }

    /// Whether `processor` can hold every float of the view exactly.
    pub open spec fn held_by(self, processor: Processor) -> bool {
        &&& self.marker_diameter matches Some(bits) ==> processor.holds_float(bits)
        &&& self.data_limits matches Some(g) ==> forall|i: int|
            0 <= i < g.cells.len() ==> processor.holds_float(#[trigger] g.cells[i])
        &&& self.acc_factor matches Some(bits) ==> processor.holds_float(bits)
        &&& self.noise_factor matches Some(bits) ==> processor.holds_float(bits)
        &&& self.residual_error_factor matches Some(bits) ==> processor.holds_float(bits)
        &&& self.intersection_limit matches Some(bits) ==> processor.holds_float(bits)
    }

    /// The view as it is read back when it has been written in the layout
    /// of `processor`: each float is what the layout reads from the bytes
    /// that it writes for it. Absent fields stay absent, and the grid keeps
    /// its size.
    pub open spec fn stored(self, processor: Processor) -> SegView {
        SegView {
            marker_diameter: stored_float(processor, self.marker_diameter),
            data_limits: match self.data_limits {
                Some(g) => Some(
                    GridView {
                        rows: g.rows,
                        cols: g.cols,
                        cells: Seq::new(g.cells.len(), |i: int| processor.read_back(g.cells[i])),
                    },
                ),
                None => None,
            },
            acc_factor: stored_float(processor, self.acc_factor),
            noise_factor: stored_float(processor, self.noise_factor),
            residual_error_factor: stored_float(processor, self.residual_error_factor),
            intersection_limit: stored_float(processor, self.intersection_limit),
        }
    }

    /// The parameters that hold field `k`: one, or none where it is absent.
    pub open spec fn entry(self, k: int) -> Seq<(Seq<u8>, ParameterView)> {
        if k == 0 {
            float_entry(field_names()[0], self.marker_diameter)
        } else if k == 1 {
            grid_entry(field_names()[1], self.data_limits)
        } else if k == 2 {
            float_entry(field_names()[2], self.acc_factor)
        } else if k == 3 {
            float_entry(field_names()[3], self.noise_factor)
        } else if k == 4 {
            float_entry(field_names()[4], self.residual_error_factor)
        } else if k == 5 {
            float_entry(field_names()[5], self.intersection_limit)
        } else {
            Seq::empty()
        }
    }

    /// The parameters that hold the fields from field `k` on, in the order
    /// of the fields.
    pub open spec fn entries_from(self, k: int) -> Seq<(Seq<u8>, ParameterView)>
        decreases 6 - k,
    {
        if k < 0 || k >= 6 {
            Seq::empty()
        } else {
            self.entry(k) + self.entries_from(k + 1)
        }
    }

    /// The parameters that hold the fields that are present, in the order
    /// of the fields.
    pub open spec fn entries(self) -> Seq<(Seq<u8>, ParameterView)> {
        self.entries_from(0)
    }

    /// Whether a record can hold the grid, if there is one.
    pub open spec fn fits(self) -> bool {
        self.data_limits matches Some(g) ==> grid_fits(g)
    }

    /// What writing the view gives when `id` is the id of the group, if the
    /// group exists. A view without fields writes nothing and needs no
    /// group. Else the group must exist; then there is one record for each
    /// field that is present, in the order of the fields, none of them
    /// locked, the grid with whatever extents it has. Only a grid that no
    /// record can hold is refused.
    pub open spec fn written(self, processor: Processor, id: Option<u8>) -> Result<Seq<u8>, C3dWriteError> {
        if self.is_empty() {
            Ok(Seq::empty())
        } else {
            match id {
                None => Err(C3dWriteError::UnknownGroupReference),
                Some(id) => if self.fits() {
                    Ok(entries_bytes(processor, id, self.entries()))
                } else {
                    Err(C3dWriteError::DimensionMismatch)
                },
            }
        }
    }

    /// Whether two views are equal: each field is absent in both or present
    /// in both with the same value. Two grids have the same value if they
    /// have the same cells, row by row.
    pub open spec fn same_as(self, other: SegView) -> bool {
        &&& self.marker_diameter == other.marker_diameter
        &&& match (self.data_limits, other.data_limits) {
            (Some(a), Some(b)) => a.cells == b.cells,
            (None, None) => true,
            _ => false,
        }
        &&& self.acc_factor == other.acc_factor
        &&& self.noise_factor == other.noise_factor
        &&& self.residual_error_factor == other.residual_error_factor
        &&& self.intersection_limit == other.intersection_limit
    }
}

impl View for Seg {
    type V = SegView;

    open spec fn view(&self) -> SegView {
        SegView {
            marker_diameter: self.marker_diameter,
            data_limits: match self.data_limits {
                Some(g) => Some(grid_view(g)),
                None => None,
            },
            acc_factor: self.acc_factor,
            noise_factor: self.noise_factor,
            residual_error_factor: self.residual_error_factor,
            intersection_limit: self.intersection_limit,
        }
    }
}

impl Default for Seg {
    /// The view without fields.
    fn default() -> (seg: Seg)
        ensures
            seg@.is_empty(),
    {
        Seg {
            marker_diameter: None,
            data_limits: None,
            acc_factor: None,
            noise_factor: None,
            residual_error_factor: None,
            intersection_limit: None,
        }
    }
}

impl PartialEq for Seg {
    /// Compares field by field; two grids by their cells, row by row,
    /// whatever order each keeps them in.
    fn eq(&self, other: &Seg) -> (same: bool) {
        let limits_same: bool = match (&self.data_limits, &other.data_limits) {
            (Some(a), Some(b)) => same_cells(&row_major_cells(a), &row_major_cells(b)),
            (None, None) => true,
            _ => false,
        };
        same_float(self.marker_diameter, other.marker_diameter) && limits_same && same_float(
            self.acc_factor,
            other.acc_factor,
        ) && same_float(self.noise_factor, other.noise_factor) && same_float(
            self.residual_error_factor,
            other.residual_error_factor,
        ) && same_float(self.intersection_limit, other.intersection_limit)
    }
}

impl PartialEqSpecImpl for Seg {
    open spec fn obeys_eq_spec() -> bool {
        true
    }

    open spec fn eq_spec(&self, other: &Seg) -> bool {
        self@.same_as(other@)
    }
}

/// Whether two optional floats are both absent or have the same bits.
fn same_float(a: Option<u32>, b: Option<u32>) -> (same: bool)
    ensures
        same == (a == b),
{
    match (a, b) {
        (Some(x), Some(y)) => x == y,
        (None, None) => true,
        _ => false,
    }
}

/// Whether two lists of cells are the same.
fn same_cells(a: &Vec<u32>, b: &Vec<u32>) -> (same: bool)
    ensures
        same == (a@ == b@),
{
    if a.len() != b.len() {
        return false;
    }
    let mut i: usize = 0;
    while i < a.len()
        invariant
            a.len() == b.len(),
            i <= a.len(),
            forall|k: int| 0 <= k < i ==> a@[k] == b@[k],
        decreases a.len() - i,
    {
        if a[i] != b[i] {
            return false;
        }
        i += 1;
    }
    assert(a@ =~= b@);
    true
}

/// Takes the float field `k` out of the store, from which the fields before
/// it have been taken.
fn take_float(parameters: &mut Parameters, name: &'static str, Ghost(store): Ghost<ParametersView>, Ghost(k): Ghost<int>) -> (field: Result<
    Option<u32>,
    ConversionError,
>)
    requires
        0 <= k < 6 && k != 1,
        name.spec_bytes() == field_names()[k],
        old(parameters)@ == taken(store, k),
    ensures
        match mismatch(store, k) {
            None => field == Ok::<Option<u32>, ConversionError>(read_float(found(store, k))->Ok_0),
            Some(kind) => field matches Err(e) && e.kind == kind && e.group.spec_bytes() == group_name()
                && e.parameter.spec_bytes() == field_names()[k],
        },
        final(parameters)@ == taken(store, k + 1),
        final(parameters)@.wf(),
{
    match parameters.remove("SEG", name) {
        None => Ok(None),
        Some(p) => match p.as_float() {
            Ok(bits) => Ok(Some(bits)),
            Err(kind) => Err(ConversionError { group: "SEG", parameter: name, kind }),
        },
    }
}

/// Takes field 1, a grid of three by two floats, out of the store, from
/// which the field before it has been taken.
fn take_grid(parameters: &mut Parameters, name: &'static str, Ghost(store): Ghost<ParametersView>) -> (field: Result<
    Option<grid::Grid<u32>>,
    ConversionError,
>)
    requires
        name.spec_bytes() == field_names()[1],
        old(parameters)@ == taken(store, 1),
    ensures
        match mismatch(store, 1) {
            None => match read_grid(found(store, 1))->Ok_0 {
                Some(view) => field matches Ok(Some(g)) && grid_view(g) == view && view.cells.len() == 6,
                None => field matches Ok(None),
            },
            Some(kind) => field matches Err(e) && e.kind == kind && e.group.spec_bytes() == group_name()
                && e.parameter.spec_bytes() == field_names()[1],
        },
        final(parameters)@ == taken(store, 2),
        final(parameters)@.wf(),
{
    match parameters.remove("SEG", name) {
        None => Ok(None),
        Some(p) => match p.into_float_grid(3, 2) {
            Ok(g) => {
                proof {
                    lemma_product_of_two(3, 2);
                }
                Ok(Some(g))
            },
            Err(kind) => Err(ConversionError { group: "SEG", parameter: name, kind }),
        },
    }
}

/// Appends the record of a float field, if the field is present.
fn write_float(processor: &Processor, name: &str, id: u8, value: Option<u32>, out: &mut Vec<u8>)
    requires
        valid_name(name.spec_bytes()),
        valid_id(id),
    ensures
        final(out)@ == old(out)@ + entries_bytes(*processor, id, float_entry(name.spec_bytes(), value)),
{
    match value {
        Some(bits) => {
            let record: Vec<u8> = Parameter::float(bits).write(processor, name, id, false);
            append(out, record.as_slice());
            proof {
                lemma_single_entry(
                    *processor,
                    id,
                    name.spec_bytes(),
                    plain(Seq::empty(), DataView::Float(seq![bits])),
                );
            }
        },
        None => {
            assert(out@ + Seq::<u8>::empty() =~= out@);
        },
    }
}

impl Seg {
    /// Reads the group out of the store: takes each documented parameter
    /// out of it, in the order of the fields. A field whose parameter is not
    /// there is absent. A parameter that is there must be a scalar float,
    /// the data limits a grid of three by two floats; the first that is not
    /// ends the reading with an error that names it and says
    /// `UnexpectedType` or `DimensionMismatch`, and no view is made.
    /// Parameters of other names stay in the store.
    pub fn from_parameters(parameters: &mut Parameters) -> (made: Result<Seg, ConversionError>)
        ensures
            match extract(old(parameters)@).0 {
                Ok(view) => made matches Ok(seg) && seg@ == view && seg@.shaped(),
                Err((k, kind)) => made matches Err(e) && e.kind == kind && e.group.spec_bytes()
                    == group_name() && e.parameter.spec_bytes() == field_names()[k],
            },
            final(parameters)@ == extract(old(parameters)@).1,
            final(parameters)@.wf(),
    {
        let ghost store = parameters@;
        assert(taken(store, 0) == store);
        let marker_diameter: Option<u32> = match take_float(parameters, "MARKER_DIAMETER", Ghost(store), Ghost(0)) {
            Ok(field) => field,
            Err(e) => {
                proof {
                    lemma_first_mismatch(store, 0, 0);
                }
                return Err(e);
            },
        };
        let data_limits: Option<grid::Grid<u32>> = match take_grid(parameters, "DATA_LIMITS", Ghost(store)) {
            Ok(field) => field,
            Err(e) => {
                proof {
                    lemma_first_mismatch(store, 0, 1);
                }
                return Err(e);
            },
        };
        let acc_factor: Option<u32> = match take_float(parameters, "ACC_FACTOR", Ghost(store), Ghost(2)) {
            Ok(field) => field,
            Err(e) => {
                proof {
                    lemma_first_mismatch(store, 0, 2);
                }
                return Err(e);
            },
        };
        let noise_factor: Option<u32> = match take_float(parameters, "NOISE_FACTOR", Ghost(store), Ghost(3)) {
            Ok(field) => field,
            Err(e) => {
                proof {
                    lemma_first_mismatch(store, 0, 3);
                }
                return Err(e);
            },
        };
        let residual_error_factor: Option<u32> = match take_float(
            parameters,
            "RESIDUAL_ERROR_FACTOR",
            Ghost(store),
            Ghost(4),
        ) {
            Ok(field) => field,
            Err(e) => {
                proof {
                    lemma_first_mismatch(store, 0, 4);
                }
                return Err(e);
            },
        };
        let intersection_limit: Option<u32> = match take_float(
            parameters,
            "INTERSECTION_LIMIT",
            Ghost(store),
            Ghost(5),
        ) {
            Ok(field) => field,
            Err(e) => {
                proof {
                    lemma_first_mismatch(store, 0, 5);
                }
                return Err(e);
            },
        };
        proof {
            lemma_no_mismatch(store, 0);
        }
        Ok(
            Seg {
                marker_diameter,
                data_limits,
                acc_factor,
                noise_factor,
                residual_error_factor,
                intersection_limit,
            },
        )
    }

    /// Writes the fields that are present as records of the group `SEG`,
    /// whose id is looked up in `parameters`: one record for each, in the
    /// order of the fields, none for a field that is absent. The data
    /// limits are written with the rows and columns that the grid has. A
    /// view without fields writes nothing. Else the group must exist, or the
    /// writing fails with `UnknownGroupReference`. A grid that no record can
    /// hold, with more than 255 rows or columns or more cells than the
    /// offset spans, fails with `DimensionMismatch`.
    pub fn write(&self, processor: &Processor, parameters: &Parameters) -> (written: Result<Vec<u8>, C3dWriteError>)
        ensures
            match self@.written(*processor, parameters@.group_id_of(group_name())) {
                Ok(bytes) => written matches Ok(v) && v@ == bytes,
                Err(e) => written matches Err(x) && x == e,
            },
    {
        self.write_with_id(processor, parameters.group_id_of("SEG"))
    }

    /// Writes the fields that are present as records of the group with the
    /// id `id`, as [`Seg::write`] does when it has looked the id up; without
    /// an id the group is taken not to exist.
    pub fn write_with_id(&self, processor: &Processor, id: Option<u8>) -> (written: Result<Vec<u8>, C3dWriteError>)
        requires
            id matches Some(i) ==> valid_id(i),
        ensures
            match self@.written(*processor, id) {
                Ok(bytes) => written matches Ok(v) && v@ == bytes,
                Err(e) => written matches Err(x) && x == e,
            },
    {
        let ghost view = self@;
        if self.marker_diameter.is_none() && self.data_limits.is_none() && self.acc_factor.is_none()
            && self.noise_factor.is_none() && self.residual_error_factor.is_none()
            && self.intersection_limit.is_none() {
            return Ok(Vec::new());
        }
        let id: u8 = match id {
            Some(id) => id,
            None => {
                return Err(C3dWriteError::UnknownGroupReference);
            },
        };
        let limits: Option<Parameter> = match &self.data_limits {
            None => None,
            Some(g) => {
                match Parameter::float_grid(g) {
                    Some(p) => Some(p),
                    None => {
                        return Err(C3dWriteError::DimensionMismatch);
                    },
                }
            },
        };
        let ghost total = entries_bytes(*processor, id, view.entries());
        proof {
            lemma_names();
        }
        let mut bytes: Vec<u8> = Vec::new();
        assert(bytes@ + entries_bytes(*processor, id, view.entries_from(0)) =~= total);
        let ghost before = bytes@;
        write_float(processor, "MARKER_DIAMETER", id, self.marker_diameter, &mut bytes);
        proof {
            lemma_next_field(view, *processor, id, 0, total, before, bytes@);
        }
        let ghost before = bytes@;
        match limits {
            Some(p) => {
                let record: Vec<u8> = p.write(processor, "DATA_LIMITS", id, false);
                append(&mut bytes, record.as_slice());
                proof {
                    lemma_single_entry(*processor, id, field_names()[1], p@);
                }
            },
            None => {
                assert(bytes@ + Seq::<u8>::empty() =~= bytes@);
            },
        }
        proof {
            lemma_next_field(view, *processor, id, 1, total, before, bytes@);
        }
        let ghost before = bytes@;
        write_float(processor, "ACC_FACTOR", id, self.acc_factor, &mut bytes);
        proof {
            lemma_next_field(view, *processor, id, 2, total, before, bytes@);
        }
        let ghost before = bytes@;
        write_float(processor, "NOISE_FACTOR", id, self.noise_factor, &mut bytes);
        proof {
            lemma_next_field(view, *processor, id, 3, total, before, bytes@);
        }
        let ghost before = bytes@;
        write_float(processor, "RESIDUAL_ERROR_FACTOR", id, self.residual_error_factor, &mut bytes);
        proof {
            lemma_next_field(view, *processor, id, 4, total, before, bytes@);
        }
        let ghost before = bytes@;
        write_float(processor, "INTERSECTION_LIMIT", id, self.intersection_limit, &mut bytes);
        proof {
            lemma_next_field(view, *processor, id, 5, total, before, bytes@);
            assert(view.entries_from(6) =~= Seq::empty());
            assert(bytes@ + Seq::<u8>::empty() =~= bytes@);
        }
        Ok(bytes)
    }
}

/// A view is written with one parameter for each field that is present,
/// and with none for a field that is absent.
pub proof fn lemma_entries_count(view: SegView)
    ensures
        view.entries().len() == (if view.marker_diameter is Some { 1int } else { 0 }) + (if view.data_limits is Some { 1int } else { 0 })
            + (if view.acc_factor is Some { 1int } else { 0 }) + (if view.noise_factor is Some { 1int } else { 0 })
            + (if view.residual_error_factor is Some { 1int } else { 0 }) + (if view.intersection_limit is Some { 1int } else { 0 }),
        view.entries().len() == 0 <==> view.is_empty(),
{
    assert(view.entries_from(6).len() == 0);
    assert(view.entries_from(5).len() == view.entry(5).len());
    assert(view.entries_from(4).len() == view.entry(4).len() + view.entries_from(5).len());
    assert(view.entries_from(3).len() == view.entry(3).len() + view.entries_from(4).len());
    assert(view.entries_from(2).len() == view.entry(2).len() + view.entries_from(3).len());
    assert(view.entries_from(1).len() == view.entry(1).len() + view.entries_from(2).len());
    assert(view.entries_from(0).len() == view.entry(0).len() + view.entries_from(1).len());
}

/// When the records of field `k` have been written behind those of the
/// fields before it, what is left to write are the records of the fields
/// behind it.
proof fn lemma_next_field(
    view: SegView,
    processor: Processor,
    id: u8,
    k: int,
    total: Seq<u8>,
    before: Seq<u8>,
    after: Seq<u8>,
)
    requires
        0 <= k < 6,
        before + entries_bytes(processor, id, view.entries_from(k)) == total,
        after == before + entries_bytes(processor, id, view.entry(k)),
    ensures
        after + entries_bytes(processor, id, view.entries_from(k + 1)) == total,
{
    lemma_entries_bytes_concat(processor, id, view.entry(k), view.entries_from(k + 1));
    let one = entries_bytes(processor, id, view.entry(k));
    let others = entries_bytes(processor, id, view.entries_from(k + 1));
    assert((before + one) + others =~= before + (one + others));
}

} // verus!
