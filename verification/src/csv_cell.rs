//! Spreadsheet cells: positions, references, ranges and formula expressions,
//! their text, and the grid that a set of cells makes.

use std::collections::HashMap;
use vstd::prelude::*;
use vstd::std_specs::hash::*;
use crate::decimal::{
    hundred, last_digits, pow10, product, rounded, text, Decimal, DecimalView, MAX_MAGNITUDE,
};
use crate::error::{Error, ErrorKind};
use crate::grid::{fields_text, grid_text, lemma_grid_round_trip, parse_grid, Fields};
use crate::text::{
    column_label, column_letter, digit_char, numeral, push_numeral, to_csv_col,
};

verus! {

/// The number of fractional digits that a number or a percentage is shown with
/// at most.
pub const DISPLAY_PLACES: u32 = 3;

/// A place in the grid: row and column, both counted from zero.
#[derive(Clone, Copy, Debug, PartialEq, Eq, Structural)]
pub struct CellPosition {
    pub row: u32,
    pub col: u32,
}

/// A reference to a cell: its position, and for each axis whether the
/// reference stays put when the formula is copied elsewhere.
#[derive(Clone, Copy, Debug, PartialEq, Eq, Structural)]
pub struct CellRef {
    pub pos: CellPosition,
    pub fix_row: bool,
    pub fix_col: bool,
}

/// A run of cells along one row or one column, from one reference to another.
#[derive(Clone, Copy, Debug)]
pub struct CellArray {
    from: CellRef,
    to: CellRef,
}

/// An arithmetic operator between two expressions.
#[derive(Clone, Copy, Debug, PartialEq, Eq, Structural)]
pub enum BinOp {
    Add,
    Sub,
    Div,
    Mult,
}

/// A formula expression.
#[derive(Debug)]
pub enum CellExpr {
    BinaryOp(BinOp, Box<CellExpr>, Box<CellExpr>),
    Ref(CellRef),
    Sum(CellArray),
    SumProduct(CellArray, CellArray),
    Number(Decimal),
    /// A ratio: `0.1` is shown as `10%`.
    Percentage(Decimal),
}

/// What a cell holds.
#[derive(Debug)]
pub enum CellValue {
    Str(String),
    Expr(CellExpr),
    Empty,
}

/// A value at a position of the grid.
#[derive(Debug)]
pub struct CSVCell {
    pub value: CellValue,
    pub position: CellPosition,
}

/// The label of a row: rows are numbered from one.
pub open spec fn row_label(row: u32) -> Seq<char> {
    numeral((row + 1) as nat)
}

/// The `$` that marks a fixed axis, or nothing.
pub open spec fn fix_mark(fixed: bool) -> Seq<char> {
    if fixed {
        seq!['$']
    } else {
        Seq::empty()
    }
}

/// The text of a reference: column label, then row label, each with `$` in
/// front of it when that axis is fixed.
pub open spec fn ref_text(r: CellRef) -> Seq<char> {
    fix_mark(r.fix_col) + column_label(r.pos.col) + fix_mark(r.fix_row) + row_label(r.pos.row)
}

/// The text of a position: that of the reference to it with no axis fixed.
pub open spec fn position_text(p: CellPosition) -> Seq<char> {
    ref_text(CellRef { pos: p, fix_row: false, fix_col: false })
}

/// The symbol of an operator.
pub open spec fn op_char(op: BinOp) -> char {
    match op {
        BinOp::Add => '+',
        BinOp::Sub => '-',
        BinOp::Div => '/',
        BinOp::Mult => '*',
    }
}

/// The distance between two coordinates.
pub open spec fn distance(a: u32, b: u32) -> nat {
    if a <= b {
        (b - a) as nat
    } else {
        (a - b) as nat
    }
}

/// Whether two references can bound a range: they share the row or the column.
pub open spec fn aligned(from: CellRef, to: CellRef) -> bool {
    from.pos.col == to.pos.col || from.pos.row == to.pos.row
}

/// The number of cells from `from` to `to`, both included, along the axis on
/// which they differ.
pub open spec fn span(from: CellRef, to: CellRef) -> nat {
    if from.pos.col != to.pos.col {
        distance(from.pos.col, to.pos.col) + 1
    } else {
        distance(from.pos.row, to.pos.row) + 1
    }
}

/// The text of the range between two references.
pub open spec fn range_text(from: CellRef, to: CellRef) -> Seq<char> {
    ref_text(from) + seq![':'] + ref_text(to)
}

impl CellPosition {
    /// A copy of this position.
    pub fn to_fixed(&self) -> (fixed: CellPosition)
        ensures
            fixed == *self,
    {
        CellPosition { row: self.row, col: self.col }
    }

    /// The reference to this position with both axes fixed.
    pub fn fixed_ref(&self) -> (r: CellRef)
        ensures
            r == (CellRef { pos: *self, fix_row: true, fix_col: true }),
    {
        CellRef { pos: *self, fix_row: true, fix_col: true }
    }

    /// The reference to this position with no axis fixed.
    pub fn relative_ref(&self) -> (r: CellRef)
        ensures
            r == (CellRef { pos: *self, fix_row: false, fix_col: false }),
    {
        CellRef { pos: *self, fix_row: false, fix_col: false }
    }

    /// The position as text: the label of its column and the number of its
    /// row.
    pub fn to_string(&self) -> (s: String)
        ensures
            s@ == position_text(*self),
    {
        self.relative_ref().to_string()
    }
}

impl CellRef {
    /// The reference as text.
    pub fn to_string(&self) -> (s: String)
        ensures
            s@ == ref_text(*self),
    {
        let mut res = String::new();
        if self.fix_col {
            res.push('$');
        }
        let label = to_csv_col(self.pos.col);
        res.append(label.as_str());
        if self.fix_row {
            res.push('$');
        }
        push_numeral(&mut res, self.pos.row as u64 + 1);
        assert(res@ =~= ref_text(*self));
        res
    }
}

impl CellArray {
    #[verifier::type_invariant]
    spec fn well_formed(self) -> bool {
        aligned(self.from, self.to)
    }

    /// The reference at which the range starts.
    pub closed spec fn start(self) -> CellRef {
        self.from
    }

    /// The reference at which the range ends.
    pub closed spec fn end(self) -> CellRef {
        self.to
    }

    /// The range from `from` to `to`, which must share the row or the column.
    pub fn new(from: CellRef, to: CellRef) -> (r: Result<CellArray, Error>)
        ensures
            r is Ok <==> aligned(from, to),
            r matches Ok(a) ==> a.start() == from && a.end() == to,
            r matches Err(e) ==> e == Error::InvalidRange,
    {
        if from.pos.col != to.pos.col && from.pos.row != to.pos.row {
            return Err(Error::InvalidRange);
        }
        Ok(CellArray { from, to })
    }

    /// The reference at which the range starts.
    pub fn from(&self) -> (r: CellRef)
        ensures
            r == self.start(),
    {
        self.from
    }

    /// The reference at which the range ends.
    pub fn to(&self) -> (r: CellRef)
        ensures
            r == self.end(),
    {
        self.to
    }

    /// The number of cells in the range.
    pub fn len(&self) -> (n: u64)
        ensures
            n == span(self.start(), self.end()),
            aligned(self.start(), self.end()),
    {
        proof {
            use_type_invariant(self);
        }
        if self.from.pos.col != self.to.pos.col {
            gap(self.from.pos.col, self.to.pos.col) + 1
        } else {
            gap(self.from.pos.row, self.to.pos.row) + 1
        }
    }

    /// The range as text: its two references with a colon between them.
    pub fn to_string(&self) -> (s: String)
        ensures
            s@ == range_text(self.start(), self.end()),
    {
        let mut res = String::new();
        let from = self.from.to_string();
        res.append(from.as_str());
        res.push(':');
        let to = self.to.to_string();
        res.append(to.as_str());
        assert(res@ =~= range_text(self.start(), self.end()));
        res
    }
}

/// The distance between two coordinates.
fn gap(a: u32, b: u32) -> (d: u64)
    ensures
        d == distance(a, b),
{
    if a <= b {
        (b - a) as u64
    } else {
        (a - b) as u64
    }
}

impl BinOp {
    /// The symbol of the operator.
    pub fn to_string(&self) -> (s: String)
        ensures
            s@ == seq![op_char(*self)],
    {
        let mut res = String::new();
        match self {
            BinOp::Add => res.push('+'),
            BinOp::Sub => res.push('-'),
            BinOp::Div => res.push('/'),
            BinOp::Mult => res.push('*'),
        }
        assert(res@ =~= seq![op_char(*self)]);
        res
    }
}

/// `SUM(`.
pub open spec fn sum_head() -> Seq<char> {
    seq!['S', 'U', 'M', '(']
}

/// `SUMPRODUCT(`.
pub open spec fn sum_product_head() -> Seq<char> {
    seq!['S', 'U', 'M', 'P', 'R', 'O', 'D', 'U', 'C', 'T', '(']
}

/// The text of a number: rounded to three fractional digits, then printed.
pub open spec fn number_text(x: Decimal) -> Seq<char> {
    text(rounded(x@, DISPLAY_PLACES as nat))
}

/// The text of a percentage: the ratio times one hundred, rounded to three
/// fractional digits and printed, then `%`. There is none where the product
/// overflows. The product is that of `rust_decimal`: zero becomes zero
/// with scale 0; any other ratio keeps its scale and has its magnitude
/// multiplied, as long as that fits in 96 bits.
pub open spec fn percentage_text(x: Decimal) -> Result<Seq<char>, ErrorKind> {
    percent_text(x@)
}

/// The text of a ratio as a percentage.
pub open spec fn percent_text(x: DecimalView) -> Result<Seq<char>, ErrorKind> {
    match product(x, hundred()) {
        Some(p) => Ok(text(rounded(p, DISPLAY_PLACES as nat)) + seq!['%']),
        None => Err(ErrorKind::Overflow),
    }
}

/// A hundred times a ratio: zero with scale 0 for zero, and else the same
/// scale with a hundred times the magnitude.
pub open spec fn hundredfold(x: DecimalView) -> DecimalView {
    if x.magnitude == 0 {
        DecimalView { negative: false, magnitude: 0, scale: 0 }
    } else {
        DecimalView { negative: x.negative, magnitude: x.magnitude * 100, scale: x.scale }
    }
}

/// A ratio whose hundredfold fits in 96 bits has a text as a percentage:
/// that of its hundredfold, rounded, with `%` behind it.
pub proof fn lemma_percentage_scaled(x: Decimal)
    requires
        x@.in_range(),
        x@.magnitude * 100 <= MAX_MAGNITUDE,
    ensures
        percentage_text(x) == Ok::<Seq<char>, ErrorKind>(
            text(rounded(hundredfold(x@), DISPLAY_PLACES as nat)) + seq!['%'],
        ),
{
}

/// The text of an expression, or the first failure met from left to right.
/// An operation stands in brackets of its own, so the text needs no rule of
/// precedence.
pub open spec fn expr_text(e: CellExpr) -> Result<Seq<char>, ErrorKind>
    decreases e,
{
    match e {
        CellExpr::BinaryOp(op, left, right) => match expr_text(*left) {
            Err(err) => Err(err),
            Ok(l) => match expr_text(*right) {
                Err(err) => Err(err),
                Ok(r) => Ok(seq!['('] + l + seq![op_char(op)] + r + seq![')']),
            },
        },
        CellExpr::Ref(r) => Ok(ref_text(r)),
        CellExpr::Sum(a) => Ok(sum_head() + range_text(a.start(), a.end()) + seq![')']),
        CellExpr::SumProduct(l, r) => if span(l.start(), l.end()) != span(r.start(), r.end()) {
            Err(ErrorKind::DimensionMismatch)
        } else {
            Ok(
                sum_product_head() + range_text(l.start(), l.end()) + seq![','] + range_text(
                    r.start(),
                    r.end(),
                ) + seq![')'],
            )
        },
        CellExpr::Number(x) => Ok(number_text(x)),
        CellExpr::Percentage(x) => percentage_text(x),
    }
}

/// The text of a cell's value: a formula starts with `=`, a string stands as
/// it is, and an empty cell has no text.
pub open spec fn value_text(v: CellValue) -> Result<Seq<char>, ErrorKind> {
    match v {
        CellValue::Str(s) => Ok(s@),
        CellValue::Empty => Ok(Seq::empty()),
        CellValue::Expr(e) => match expr_text(e) {
            Ok(t) => Ok(seq!['='] + t),
            Err(err) => Err(err),
        },
    }
}

impl Clone for CellExpr {
    fn clone(&self) -> (copy: CellExpr)
        ensures
            copy == *self,
        decreases self,
    {
        match self {
            CellExpr::BinaryOp(op, left, right) => {
                let l = (**left).clone();
                let r = (**right).clone();
                CellExpr::BinaryOp(*op, Box::new(l), Box::new(r))
            },
            CellExpr::Ref(r) => CellExpr::Ref(*r),
            CellExpr::Sum(a) => CellExpr::Sum(*a),
            CellExpr::SumProduct(l, r) => CellExpr::SumProduct(*l, *r),
            CellExpr::Number(x) => CellExpr::Number(*x),
            CellExpr::Percentage(x) => CellExpr::Percentage(*x),
        }
    }
}

impl Clone for CellValue {
    fn clone(&self) -> (copy: CellValue)
        ensures
            copy == *self,
    {
        match self {
            CellValue::Str(s) => CellValue::Str(s.clone()),
            CellValue::Expr(e) => CellValue::Expr(e.clone()),
            CellValue::Empty => CellValue::Empty,
        }
    }
}

impl Clone for CSVCell {
    fn clone(&self) -> (copy: CSVCell)
        ensures
            copy == *self,
    {
        CSVCell { value: self.value.clone(), position: self.position }
    }
}

impl CellExpr {
    /// The product of the two ranges, cell by cell, summed up. The ranges
    /// must be of one length.
    pub fn sum_product(left: CellArray, right: CellArray) -> (r: Result<CellExpr, Error>)
        ensures
            r is Ok <==> span(left.start(), left.end()) == span(right.start(), right.end()),
            r matches Ok(e) ==> e == CellExpr::SumProduct(left, right),
            r matches Err(e) ==> e == Error::DimensionMismatch,
    {
        if left.len() != right.len() {
            Err(Error::DimensionMismatch)
        } else {
            Ok(CellExpr::SumProduct(left, right))
        }
    }

    /// The expression as text, or the first failure met from left to right.
    pub fn to_string(&self) -> (r: Result<String, Error>)
        ensures
            text_result(r) == expr_text(*self),
            r matches Err(e) ==> e == Error::DimensionMismatch || e == Error::Overflow,
        decreases self,
    {
        let mut res = String::new();
        match self {
            CellExpr::BinaryOp(op, left, right) => {
                let l = match left.to_string() {
                    Ok(l) => l,
                    Err(e) => {
                        return Err(e);
                    },
                };
                let r = match right.to_string() {
                    Ok(r) => r,
                    Err(e) => {
                        return Err(e);
                    },
                };
                res.push('(');
                res.append(l.as_str());
                res.append(op.to_string().as_str());
                res.append(r.as_str());
                res.push(')');
                assert(res@ =~= seq!['('] + l@ + seq![op_char(*op)] + r@ + seq![')']);
            },
            CellExpr::Ref(cell_ref) => {
                res.append(cell_ref.to_string().as_str());
                assert(res@ =~= ref_text(*cell_ref));
            },
            CellExpr::Sum(array) => {
                proof {
                    reveal_strlit("SUM(");
                }
                res.append("SUM(");
                res.append(array.to_string().as_str());
                res.push(')');
                assert(res@ =~= sum_head() + range_text(array.start(), array.end()) + seq![')']);
            },
            CellExpr::SumProduct(left, right) => {
                if left.len() != right.len() {
                    return Err(Error::DimensionMismatch);
                }
                proof {
                    reveal_strlit("SUMPRODUCT(");
                }
                res.append("SUMPRODUCT(");
                res.append(left.to_string().as_str());
                res.push(',');
                res.append(right.to_string().as_str());
                res.push(')');
                assert(res@ =~= sum_product_head() + range_text(left.start(), left.end())
                    + seq![','] + range_text(right.start(), right.end()) + seq![')']);
            },
            CellExpr::Number(x) => {
                res.append(x.round_dp(DISPLAY_PLACES).to_string().as_str());
                assert(res@ =~= number_text(*x));
            },
            CellExpr::Percentage(val) => {
                let hundred = Decimal::new(100, 0);
                let p = match val.checked_mul(&hundred) {
                    Some(p) => p,
                    None => {
                        return Err(Error::Overflow);
                    },
                };
                res.append(p.round_dp(DISPLAY_PLACES).to_string().as_str());
                res.push('%');
                assert(res@ =~= text(rounded(p@, DISPLAY_PLACES as nat)) + seq!['%']);
            },
        }
        Ok(res)
    }
}

impl CellValue {
    /// The value as the text of its field.
    pub fn to_string(&self) -> (r: Result<String, Error>)
        ensures
            text_result(r) == value_text(*self),
            r matches Err(e) ==> e == Error::DimensionMismatch || e == Error::Overflow,
    {
        let mut res = String::new();
        match self {
            CellValue::Str(s) => {
                res.append(s.as_str());
                assert(res@ =~= s@);
            },
            CellValue::Empty => (),
            CellValue::Expr(expr) => {
                let t = match expr.to_string() {
                    Ok(t) => t,
                    Err(e) => {
                        return Err(e);
                    },
                };
                res.push('=');
                res.append(t.as_str());
                assert(res@ =~= seq!['='] + t@);
            },
        }
        Ok(res)
    }
}

/// Whether no two of the cells share a position.
pub open spec fn overlap_free(cells: Seq<CSVCell>) -> bool {
    forall|i: int, j: int| 0 <= i < j < cells.len() ==> cells[i].position != cells[j].position
}

/// The largest row among the cells, 0 where there is no cell.
pub open spec fn max_row(cells: Seq<CSVCell>) -> u32
    decreases cells.len(),
{
    if cells.len() == 0 {
        0
    } else {
        let before = max_row(cells.drop_last());
        if cells.last().position.row > before {
            cells.last().position.row
        } else {
            before
        }
    }
}

/// The largest column among the cells, 0 where there is no cell.
pub open spec fn max_col(cells: Seq<CSVCell>) -> u32
    decreases cells.len(),
{
    if cells.len() == 0 {
        0
    } else {
        let before = max_col(cells.drop_last());
        if cells.last().position.col > before {
            cells.last().position.col
        } else {
            before
        }
    }
}

/// Whether cell `i` stands at row `row` and column `col`.
pub open spec fn stands_at(cells: Seq<CSVCell>, i: int, row: int, col: int) -> bool {
    0 <= i < cells.len() && cells[i].position.row == row && cells[i].position.col == col
}

/// The text of the field at row `row` and column `col`: that of the cell
/// that stands there, and nothing where no cell does.
pub open spec fn field(cells: Seq<CSVCell>, row: int, col: int) -> Seq<char> {
    if exists|i: int| stands_at(cells, i, row, col) {
        let i = choose|i: int| stands_at(cells, i, row, col);
        match value_text(cells[i].value) {
            Ok(t) => t,
            Err(_) => Seq::empty(),
        }
    } else {
        Seq::empty()
    }
}

/// The fields of the grid that the cells make.
pub open spec fn fields_of(cells: Seq<CSVCell>) -> Fields {
    |row: int, col: int| field(cells, row, col)
}

/// The failure of the first cell whose value has no text, if there is one.
pub open spec fn first_failure(cells: Seq<CSVCell>) -> Option<ErrorKind>
    decreases cells.len(),
{
    if cells.len() == 0 {
        None
    } else {
        match first_failure(cells.drop_last()) {
            Some(e) => Some(e),
            None => match value_text(cells.last().value) {
                Err(e) => Some(e),
                Ok(_) => None,
            },
        }
    }
}

/// The grid that the cells make. Two cells in one place are refused before
/// anything else; then comes the first cell whose value has no text. The
/// grid reaches from row 0 and column 0 to the largest row and the largest
/// column among the cells.
pub open spec fn grid_of(cells: Seq<CSVCell>) -> Result<Seq<char>, ErrorKind> {
    if !overlap_free(cells) {
        Err(ErrorKind::OverlappingCells)
    } else {
        match first_failure(cells) {
            Some(e) => Err(e),
            None => Ok(
                grid_text(
                    fields_of(cells),
                    (max_row(cells) + 1) as nat,
                    (max_col(cells) + 1) as nat,
                ),
            ),
        }
    }
}

/// A text or a failure: the text as the characters it holds, the failure
/// as its kind.
pub open spec fn text_result(r: Result<String, Error>) -> Result<Seq<char>, ErrorKind> {
    match r {
        Ok(s) => Ok(s@),
        Err(e) => Err(e.kind()),
    }
}

/// Whether `p` is the first position that is taken twice: that of the
/// first cell that stands where a cell before it stands.
pub open spec fn is_first_overlap(cells: Seq<CSVCell>, p: CellPosition) -> bool {
    exists|i: int, j: int|
        0 <= i < j < cells.len() && #[trigger] cells[i].position == p && #[trigger] cells[j].position
            == p && overlap_free(cells.take(j))
}

/// No cell lies beyond the largest row and the largest column.
pub proof fn lemma_within_bounds(cells: Seq<CSVCell>, i: int)
    requires
        0 <= i < cells.len(),
    ensures
        cells[i].position.row <= max_row(cells),
        cells[i].position.col <= max_col(cells),
    decreases cells.len(),
{
    if i < cells.len() - 1 {
        lemma_within_bounds(cells.drop_last(), i);
    }
}

/// A value has a text unless a product of ranges of two lengths or a
/// percentage too large stands in it.
pub proof fn lemma_text_failures(e: CellExpr)
    ensures
        expr_text(e) matches Err(kind) ==> kind == ErrorKind::DimensionMismatch || kind
            == ErrorKind::Overflow,
    decreases e,
{
    match e {
        CellExpr::BinaryOp(_, left, right) => {
            lemma_text_failures(*left);
            lemma_text_failures(*right);
        },
        _ => {},
    }
}

/// A set of cells is refused for an overlap if and only if two of its cells
/// share a position: what is accepted has no two cells in one place, and
/// no cell ever takes the place of another.
pub proof fn lemma_overlap_refused(cells: Seq<CSVCell>)
    ensures
        grid_of(cells) == Err::<Seq<char>, ErrorKind>(ErrorKind::OverlappingCells) <==> !overlap_free(
            cells,
        ),
        grid_of(cells) is Ok ==> overlap_free(cells),
{
    lemma_first_failure(cells);
}

/// The first failure of a set of cells is one of a value.
proof fn lemma_first_failure(cells: Seq<CSVCell>)
    ensures
        first_failure(cells) matches Some(kind) ==> kind == ErrorKind::DimensionMismatch || kind
            == ErrorKind::Overflow,
    decreases cells.len(),
{
    if cells.len() > 0 {
        lemma_first_failure(cells.drop_last());
        match cells.last().value {
            CellValue::Expr(e) => {
                lemma_text_failures(e);
            },
            _ => {},
        }
    }
}

/// Whether the text holds no comma and no line feed.
pub open spec fn is_plain(t: Seq<char>) -> bool {
    !t.contains(',') && !t.contains('\n')
}

/// Whether the text of no cell holds a comma or a line feed.
pub open spec fn plain_texts(cells: Seq<CSVCell>) -> bool {
    forall|i: int|
        0 <= i < cells.len() ==> match value_text((#[trigger] cells[i]).value) {
            Ok(t) => is_plain(t),
            Err(_) => true,
        }
}

/// Whether no product of two ranges stands in the expression.
pub open spec fn without_products(e: CellExpr) -> bool
    decreases e,
{
    match e {
        CellExpr::BinaryOp(_, left, right) => without_products(*left) && without_products(*right),
        CellExpr::SumProduct(_, _) => false,
        _ => true,
    }
}

/// Whether the value is a text without comma or line feed, an expression
/// without a product of two ranges, or nothing.
pub open spec fn plain_value(v: CellValue) -> bool {
    match v {
        CellValue::Str(s) => is_plain(s@),
        CellValue::Expr(e) => without_products(e),
        CellValue::Empty => true,
    }
}

/// Two plain texts, one behind the other, are a plain text.
proof fn lemma_plain_join(a: Seq<char>, b: Seq<char>)
    requires
        is_plain(a),
        is_plain(b),
    ensures
        is_plain(a + b),
{
    let t = a + b;
    assert forall|c: char| t.contains(c) implies a.contains(c) || b.contains(c) by {
        let i = choose|i: int| 0 <= i < t.len() && t[i] == c;
        if i < a.len() {
            assert(a[i] == c);
        } else {
            assert(b[i - a.len()] == c);
        }
    }
}

/// A text of one character that is neither comma nor line feed is plain.
proof fn lemma_plain_one(c: char)
    requires
        c != ',',
        c != '\n',
    ensures
        is_plain(seq![c]),
{
}

/// A numeral is plain.
proof fn lemma_plain_numeral(n: nat)
    ensures
        is_plain(numeral(n)),
    decreases n,
{
    if n < 10 {
        lemma_plain_one(digit_char(n));
    } else {
        lemma_plain_numeral(n / 10);
        lemma_plain_one(digit_char(n % 10));
        lemma_plain_join(numeral(n / 10), seq![digit_char(n % 10)]);
        assert(numeral(n / 10) + seq![digit_char(n % 10)] =~= numeral(n));
    }
}

/// Digits are plain.
proof fn lemma_plain_digits(n: nat, count: nat)
    ensures
        is_plain(last_digits(n, count)),
    decreases count,
{
    if count > 0 {
        lemma_plain_digits(n / 10, (count - 1) as nat);
        lemma_plain_one(digit_char(n % 10));
        lemma_plain_join(last_digits(n / 10, (count - 1) as nat), seq![digit_char(n % 10)]);
        assert(last_digits(n / 10, (count - 1) as nat) + seq![digit_char(n % 10)] =~= last_digits(
            n,
            count,
        ));
    }
}

/// The text of a decimal is plain.
proof fn lemma_plain_decimal(d: DecimalView)
    ensures
        is_plain(text(d)),
{
    let unit = pow10(d.scale);
    let sign = if d.negative {
        seq!['-']
    } else {
        Seq::<char>::empty()
    };
    let whole = numeral(d.magnitude / unit);
    lemma_plain_numeral(d.magnitude / unit);
    lemma_plain_join(sign, whole);
    if d.scale == 0 {
        lemma_plain_join(sign + whole, Seq::empty());
    } else {
        lemma_plain_digits(d.magnitude % unit, d.scale);
        lemma_plain_one('.');
        lemma_plain_join(seq!['.'], last_digits(d.magnitude % unit, d.scale));
        lemma_plain_join(sign + whole, seq!['.'] + last_digits(d.magnitude % unit, d.scale));
    }
}

/// The text of a reference is plain.
proof fn lemma_plain_ref(r: CellRef)
    ensures
        is_plain(ref_text(r)),
{
    let label = column_label(r.pos.col);
    assert(is_plain(label)) by {
        assert forall|c: char| label.contains(c) implies c != ',' && c != '\n' by {
            let i = choose|i: int| 0 <= i < label.len() && label[i] == c;
            assert(label[i] == column_letter(r.pos.col));
        }
    }
    lemma_plain_numeral((r.pos.row + 1) as nat);
    lemma_plain_join(fix_mark(r.fix_col), label);
    lemma_plain_join(fix_mark(r.fix_col) + label, fix_mark(r.fix_row));
    lemma_plain_join(fix_mark(r.fix_col) + label + fix_mark(r.fix_row), row_label(r.pos.row));
}

/// The text of an expression without a product of two ranges holds no
/// comma and no line feed.
pub proof fn lemma_plain_expr(e: CellExpr)
    requires
        without_products(e),
    ensures
        expr_text(e) matches Ok(t) ==> is_plain(t),
    decreases e,
{
    match e {
        CellExpr::BinaryOp(op, left, right) => {
            lemma_plain_expr(*left);
            lemma_plain_expr(*right);
            if expr_text(*left) is Ok && expr_text(*right) is Ok {
                let l = expr_text(*left)->Ok_0;
                let r = expr_text(*right)->Ok_0;
                lemma_plain_join(seq!['('], l);
                lemma_plain_join(seq!['('] + l, seq![op_char(op)]);
                lemma_plain_join(seq!['('] + l + seq![op_char(op)], r);
                lemma_plain_join(seq!['('] + l + seq![op_char(op)] + r, seq![')']);
            }
        },
        CellExpr::Ref(r) => {
            lemma_plain_ref(r);
        },
        CellExpr::Sum(a) => {
            lemma_plain_ref(a.start());
            lemma_plain_ref(a.end());
            lemma_plain_join(ref_text(a.start()), seq![':']);
            lemma_plain_join(ref_text(a.start()) + seq![':'], ref_text(a.end()));
            lemma_plain_join(sum_head(), range_text(a.start(), a.end()));
            lemma_plain_join(sum_head() + range_text(a.start(), a.end()), seq![')']);
        },
        CellExpr::SumProduct(_, _) => {},
        CellExpr::Number(x) => {
            lemma_plain_decimal(rounded(x@, DISPLAY_PLACES as nat));
        },
        CellExpr::Percentage(x) => {
            if product(x@, hundred()) is Some {
                let p = product(x@, hundred())->Some_0;
                lemma_plain_decimal(rounded(p, DISPLAY_PLACES as nat));
                lemma_plain_join(text(rounded(p, DISPLAY_PLACES as nat)), seq!['%']);
            }
        },
    }
}

/// Cells of plain values have plain texts: their grid reads back to its
/// fields.
pub proof fn lemma_plain_cells(cells: Seq<CSVCell>)
    requires
        forall|i: int| 0 <= i < cells.len() ==> plain_value((#[trigger] cells[i]).value),
    ensures
        plain_texts(cells),
{
    assert forall|i: int| 0 <= i < cells.len() implies match value_text((#[trigger] cells[i]).value) {
        Ok(t) => is_plain(t),
        Err(_) => true,
    } by {
        match cells[i].value {
            CellValue::Expr(e) => {
                lemma_plain_expr(e);
                if expr_text(e) is Ok {
                    lemma_plain_join(seq!['='], expr_text(e)->Ok_0);
                }
            },
            _ => {},
        }
    }
}

/// Reading the grid of a set of cells back gives, for each row and column
/// up to the largest, the text of the cell that stands there, and an empty
/// text where none does. This holds where no text holds a comma or a line
/// feed: the text of a product of two ranges holds a comma, and reads back
/// as two fields.
pub proof fn lemma_cells_round_trip(cells: Seq<CSVCell>)
    requires
        grid_of(cells) is Ok,
        plain_texts(cells),
    ensures
        parse_grid(grid_of(cells)->Ok_0) == Seq::new(
            (max_row(cells) + 1) as nat,
            |row: int| Seq::new((max_col(cells) + 1) as nat, |col: int| field(cells, row, col)),
        ),
{
    let f = fields_of(cells);
    let rows = (max_row(cells) + 1) as nat;
    let cols = (max_col(cells) + 1) as nat;
    assert forall|r: int, c: int| 0 <= r < rows && 0 <= c < cols implies !(#[trigger] f(r, c)).contains(
        ',',
    ) && !f(r, c).contains('\n') by {
        if exists|i: int| stands_at(cells, i, r, c) {
            let i = choose|i: int| stands_at(cells, i, r, c);
            assert(0 <= i < cells.len());
            let t = value_text(cells[i].value);
            assert(t is Ok ==> is_plain(t->Ok_0));
        } else {
            assert(f(r, c) =~= Seq::<char>::empty());
        }
    }
    lemma_grid_round_trip(f, rows, cols);
    assert(Seq::new(rows, |r: int| Seq::new(cols, |c: int| f(r, c))) =~~= Seq::new(
        rows,
        |row: int| Seq::new(cols, |col: int| field(cells, row, col)),
    ));
}

/// Among cells, one stands in the largest row and one in the largest
/// column.
pub proof fn lemma_bounds_reached(cells: Seq<CSVCell>)
    requires
        cells.len() > 0,
    ensures
        exists|i: int| 0 <= i < cells.len() && (#[trigger] cells[i]).position.row == max_row(cells),
        exists|i: int| 0 <= i < cells.len() && (#[trigger] cells[i]).position.col == max_col(cells),
    decreases cells.len(),
{
    let shorter = cells.drop_last();
    let last = cells.len() - 1;
    if shorter.len() > 0 {
        lemma_bounds_reached(shorter);
        let a = choose|i: int|
            0 <= i < shorter.len() && (#[trigger] shorter[i]).position.row == max_row(shorter);
        let b = choose|i: int|
            0 <= i < shorter.len() && (#[trigger] shorter[i]).position.col == max_col(shorter);
        assert(cells[a] == shorter[a] && cells[b] == shorter[b]);
        if cells[last].position.row > max_row(shorter) {
            assert(cells[last].position.row == max_row(cells));
        } else {
            assert(cells[a].position.row == max_row(cells));
        }
        if cells[last].position.col > max_col(shorter) {
            assert(cells[last].position.col == max_col(cells));
        } else {
            assert(cells[b].position.col == max_col(cells));
        }
    } else {
        assert(max_row(shorter) == 0 && max_col(shorter) == 0);
        assert(cells[last].position.row == max_row(cells));
        assert(cells[last].position.col == max_col(cells));
    }
}

/// The first failure of a set of cells is the failure of one of them, and
/// there is none only where every cell has a text.
pub proof fn lemma_first_failure_found(cells: Seq<CSVCell>)
    ensures
        first_failure(cells) matches Some(e) ==> exists|i: int|
            0 <= i < cells.len() && value_text((#[trigger] cells[i]).value) == Err::<
                Seq<char>,
                ErrorKind,
            >(e),
        first_failure(cells) is None ==> forall|i: int|
            0 <= i < cells.len() ==> value_text((#[trigger] cells[i]).value) is Ok,
    decreases cells.len(),
{
    if cells.len() > 0 {
        let shorter = cells.drop_last();
        lemma_first_failure_found(shorter);
        match first_failure(shorter) {
            Some(e) => {
                let i = choose|i: int|
                    0 <= i < shorter.len() && value_text((#[trigger] shorter[i]).value) == Err::<
                        Seq<char>,
                        ErrorKind,
                    >(e);
                assert(cells[i] == shorter[i]);
            },
            None => {
                assert forall|i: int| 0 <= i < cells.len() && first_failure(cells) is None implies value_text(
                    (#[trigger] cells[i]).value,
                ) is Ok by {
                    if i < shorter.len() {
                        assert(cells[i] == shorter[i]);
                    }
                }
                if first_failure(cells) is Some {
                    assert(value_text(cells[cells.len() - 1].value) is Err);
                }
            },
        }
    }
}

/// One number for each position.
spec fn position_key(p: CellPosition) -> u64 {
    (p.row as int * 0x1_0000_0000 + p.col as int) as u64
}

/// The number of the position at row `row` and column `col`.
fn key_at(row: u32, col: u32) -> (key: u64)
    ensures
        key == position_key(CellPosition { row, col }),
{
    row as u64 * 0x1_0000_0000 + col as u64
}

/// The text of the grid that the cells make: `max_row + 1` lines of
/// `max_col + 1` fields each, a comma between two fields, a line feed after
/// each line. A place where no cell stands is an empty field. Cells that
/// share a place are refused.
pub fn csv_cells_to_grid(cells: &Vec<CSVCell>) -> (r: Result<String, Error>)
    ensures
        text_result(r) == grid_of(cells@),
        r matches Err(Error::OverlappingCells(p)) ==> is_first_overlap(cells@, p),
{
    broadcast use group_hash_axioms;

    let mut index: HashMap<u64, usize> = HashMap::new();
    let mut max_row: u32 = 0;
    let mut max_col: u32 = 0;
    let mut i: usize = 0;
    while i < cells.len()
        invariant
            i <= cells.len(),
            overlap_free(cells@.take(i as int)),
            max_row == self::max_row(cells@.take(i as int)),
            max_col == self::max_col(cells@.take(i as int)),
            forall|k: u64| #[trigger]
                index@.contains_key(k) ==> index@[k] < i && position_key(
                    cells@[index@[k] as int].position,
                ) == k,
            forall|j: int|
                0 <= j < i ==> index@.contains_key(#[trigger] position_key(cells@[j].position))
                    && index@[position_key(cells@[j].position)] == j,
        decreases cells.len() - i,
    {
        let pos = cells[i].position;
        let key = key_at(pos.row, pos.col);
        if index.contains_key(&key) {
            proof {
                let j = index@[key] as int;
                assert(cells@[j].position == cells@[i as int].position);
                assert(is_first_overlap(cells@, pos));
            }
            return Err(Error::OverlappingCells(pos));
        }
        let ghost old_index = index@;
        index.insert(key, i);
        if pos.row > max_row {
            max_row = pos.row;
        }
        if pos.col > max_col {
            max_col = pos.col;
        }
        proof {
            let next = cells@.take(i + 1);
            let seen = cells@.take(i as int);
            assert(next.drop_last() =~= seen);
            assert forall|a: int, b: int| 0 <= a < b < next.len() implies next[a].position
                != next[b].position by {
                if b == i {
                    assert(old_index.contains_key(position_key(cells@[a].position)));
                } else {
                    assert(seen[a].position != seen[b].position);
                }
            }
        }
        i += 1;
    }
    assert(cells@.take(i as int) =~= cells@);

    let mut texts: Vec<String> = Vec::new();
    let mut j: usize = 0;
    while j < cells.len()
        invariant
            j <= cells.len(),
            texts.len() == j,
            overlap_free(cells@),
            first_failure(cells@.take(j as int)) is None,
            forall|k: int|
                0 <= k < j ==> Ok::<Seq<char>, ErrorKind>(texts@[k]@) == value_text(
                    #[trigger] cells@[k].value,
                ),
        decreases cells.len() - j,
    {
        proof {
            assert(cells@.take(j + 1).drop_last() =~= cells@.take(j as int));
        }
        match cells[j].value.to_string() {
            Ok(t) => {
                texts.push(t);
            },
            Err(e) => {
                proof {
                    lemma_failure_stays(cells@, j + 1);
                }
                return Err(e);
            },
        }
        j += 1;
    }
    assert(cells@.take(j as int) =~= cells@);

    let ghost f = fields_of(cells@);
    let rows: u64 = max_row as u64 + 1;
    let cols: u64 = max_col as u64 + 1;
    let mut grid_string = String::new();
    let mut row: u64 = 0;
    while row < rows
        invariant
            row <= rows,
            rows == max_row + 1,
            cols == max_col + 1,
            f == fields_of(cells@),
            texts.len() == cells.len(),
            overlap_free(cells@),
            grid_string@ == grid_text(f, row as nat, cols as nat),
            forall|k: int|
                0 <= k < cells.len() ==> Ok::<Seq<char>, ErrorKind>(texts@[k]@) == value_text(
                    #[trigger] cells@[k].value,
                ),
            forall|k: u64| #[trigger]
                index@.contains_key(k) ==> index@[k] < cells.len() && position_key(
                    cells@[index@[k] as int].position,
                ) == k,
            forall|j: int|
                0 <= j < cells.len() ==> index@.contains_key(
                    #[trigger] position_key(cells@[j].position),
                ),
        decreases rows - row,
    {
        let ghost before = grid_string@;
        let mut col: u64 = 0;
        while col < cols
            invariant
                col <= cols,
                row < rows,
                rows == max_row + 1,
                cols == max_col + 1,
                f == fields_of(cells@),
                texts.len() == cells.len(),
                overlap_free(cells@),
                grid_string@ == before + fields_text(f, row as int, col as nat),
                forall|k: int|
                    0 <= k < cells.len() ==> Ok::<Seq<char>, ErrorKind>(texts@[k]@) == value_text(
                        #[trigger] cells@[k].value,
                    ),
                forall|k: u64| #[trigger]
                    index@.contains_key(k) ==> index@[k] < cells.len() && position_key(
                        cells@[index@[k] as int].position,
                    ) == k,
                forall|j: int|
                    0 <= j < cells.len() ==> index@.contains_key(
                        #[trigger] position_key(cells@[j].position),
                    ),
            decreases cols - col,
        {
            if col != 0 {
                grid_string.push(',');
            }
            let ghost start = grid_string@;
            let key = key_at(row as u32, col as u32);
            match index.get(&key) {
                Some(at) => {
                    grid_string.append(texts[*at].as_str());
                    proof {
                        let a = *at as int;
                        assert(stands_at(cells@, a, row as int, col as int));
                        let c = choose|i: int| stands_at(cells@, i, row as int, col as int);
                        assert(c == a) by {
                            if c < a {
                                assert(cells@[c].position != cells@[a].position);
                            } else if a < c {
                                assert(cells@[a].position != cells@[c].position);
                            }
                        }
                        assert(grid_string@ == start + f(row as int, col as int));
                    }
                },
                None => {
                    proof {
                        if exists|i: int| stands_at(cells@, i, row as int, col as int) {
                            let c = choose|i: int| stands_at(cells@, i, row as int, col as int);
                            assert(position_key(cells@[c].position) == key);
                        }
                        assert(f(row as int, col as int) =~= Seq::<char>::empty());
                        assert(grid_string@ =~= start + f(row as int, col as int));
                    }
                },
            }
            proof {
                if col == 0 {
                    assert(before + fields_text(f, row as int, 0) =~= before);
                    assert(grid_string@ =~= before + fields_text(f, row as int, 1));
                } else {
                    assert(grid_string@ =~= before + fields_text(f, row as int, (col + 1) as nat));
                }
            }
            col += 1;
        }
        grid_string.push('\n');
        proof {
            assert(grid_string@ =~= grid_text(f, (row + 1) as nat, cols as nat));
        }
        row += 1;
    }
    Ok(grid_string)
}

/// A failure among the first `n` cells is the failure of the whole.
proof fn lemma_failure_stays(cells: Seq<CSVCell>, n: int)
    requires
        0 <= n <= cells.len(),
        first_failure(cells.take(n)) is Some,
    ensures
        first_failure(cells) == first_failure(cells.take(n)),
    decreases cells.len() - n,
{
    if n < cells.len() {
        assert(cells.take(n + 1).drop_last() =~= cells.take(n));
        lemma_failure_stays(cells, n + 1);
    } else {
        assert(cells.take(n) =~= cells);
    }
}

} // verus!
