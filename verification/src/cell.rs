//! Cells and rows of a sheet, as they are read and written.
use crate::double::laws::{gap, lemma_none_is_nearer, lemma_whole_nearest};
use crate::double::{nearest, one, Double};
use vstd::prelude::*;

verus! {

/// A number in a cell. Whole numbers are held apart from doubles, so that they are
/// written back as they were read.
#[derive(Clone, Copy, Debug, PartialEq, Eq, Structural)]
pub enum Number {
    /// A whole number that is not negative.
    PosInt(u64),
    /// A negative whole number.
    NegInt(i64),
    /// Any other number.
    Float(Double),
}

/// The double that a number is nearest to.
pub open spec fn number_double(number: Number) -> Double {
    match number {
        Number::PosInt(n) => nearest(n * one(), 1),
        Number::NegInt(n) => nearest(n * one(), 1),
        Number::Float(x) => x,
    }
}

impl Number {
    /// The number as a double.
    pub fn as_double(&self) -> (x: Double)
        ensures
            x == number_double(*self),
    {
        match *self {
            Number::PosInt(n) => Double::from_u64(n),
            Number::NegInt(n) => Double::from_i64(n),
            Number::Float(x) => x,
        }
    }
}

/// A value in a cell.
#[derive(Debug, PartialEq, Eq)]
pub enum Cell {
    /// No value.
    Null,
    /// A truth value.
    Bool(bool),
    /// A number.
    Number(Number),
    /// A text.
    Text(String),
    /// An array or an object, as JSON text.
    Nested(String),
}

/// What a cell holds.
pub enum CellView {
    Null,
    Bool(bool),
    Number(Number),
    Text(Seq<char>),
    Nested(Seq<char>),
}

impl View for Cell {
    type V = CellView;

    open spec fn view(&self) -> CellView {
        match self {
            Cell::Null => CellView::Null,
            Cell::Bool(b) => CellView::Bool(*b),
            Cell::Number(n) => CellView::Number(*n),
            Cell::Text(text) => CellView::Text(text@),
            Cell::Nested(text) => CellView::Nested(text@),
        }
    }
}

/// What the cells of a row hold.
pub open spec fn cells_view(cells: Seq<Cell>) -> Seq<CellView> {
    cells.map_values(|cell: Cell| cell@)
}

/// A row of cells.
#[derive(Debug, PartialEq, Eq)]
pub struct Row {
    pub cells: Vec<Cell>,
}

impl View for Row {
    type V = Seq<CellView>;

    open spec fn view(&self) -> Seq<CellView> {
        cells_view(self.cells@)
    }
}

/// What the rows of a sheet hold.
pub open spec fn rows_view(rows: Seq<Row>) -> Seq<Seq<CellView>> {
    rows.map_values(|row: Row| row@)
}

/// A double is taken as it is, and no double is nearer to a whole number than the one
/// that it is taken for; where another is as near, that one is even.
pub proof fn lemma_number_nearest(number: Number, n: int, y: Double)
    requires
        y.wf(),
        number matches Number::PosInt(k) ==> n == k,
        number matches Number::NegInt(k) ==> n == k,
    ensures
        number matches Number::Float(x) ==> number_double(number) == x,
        !(number is Float) ==> {
            let x = number_double(number);
            &&& x.wf()
            &&& gap(x@, n * one()) <= gap(y@, n * one())
            &&& gap(x@, n * one()) == gap(y@, n * one()) && x@ != y@ ==> x.is_even()
        },
{
    if !(number is Float) {
        lemma_whole_nearest(n);
        lemma_none_is_nearer(number_double(number), y, n * one(), 1);
    }
}

/// A cell is viewed as what it holds, with nothing left out.
pub proof fn lemma_cell_kept(cell: Cell)
    ensures
        cell is Null <==> cell@ is Null,
        cell matches Cell::Bool(b) ==> cell@ == CellView::Bool(b),
        cell matches Cell::Number(n) ==> cell@ == CellView::Number(n),
        cell matches Cell::Text(text) ==> cell@ == CellView::Text(text@),
        cell matches Cell::Nested(text) ==> cell@ == CellView::Nested(text@),
{
}

/// Every row, and every cell in it, is viewed in its place.
pub proof fn lemma_rows_kept(rows: Seq<Row>, i: int, j: int)
    requires
        0 <= i < rows.len(),
    ensures
        rows_view(rows).len() == rows.len(),
        rows_view(rows)[i] == rows[i]@,
        rows[i]@ == cells_view(rows[i].cells@),
        rows[i]@.len() == rows[i].cells@.len(),
        0 <= j < rows[i].cells@.len() ==> rows[i]@[j] == rows[i].cells@[j]@,
{
}

} // verus!
