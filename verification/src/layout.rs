//! Where the cells of a formula stand. Row 0 and row 1 are kept for
//! headers and column 0 for the names of the ingredients. Each ingredient has
//! a row, each component a pair of columns; the shares of a component stand in
//! the first column of its pair, and their sum below them.

use vstd::prelude::*;
use crate::csv_cell::{
    csv_cells_to_grid, field, fields_of, first_failure, grid_of, lemma_bounds_reached,
    lemma_first_failure_found, lemma_within_bounds, max_col, max_row, overlap_free, percent_text,
    range_text, ref_text, stands_at, sum_head, text_result, value_text, CSVCell, CellArray,
    CellExpr, CellPosition, CellRef, CellValue,
};
use crate::dough::{
    lemma_column_order, lemma_columns_lead, share_in, ComponentView, DoughFormula, FormulaView,
    COL_OFFSET, ROW_OFFSET,
};
use crate::error::{Error, ErrorKind};
use crate::graph::nodes;
use crate::grid::{grid_text, lemma_grid_text_same, Fields};
use crate::names::{lemma_position, names_of, position};

verus! {

/// Whether the cell stands at row `row` and column `col`.
pub open spec fn at(cell: CSVCell, row: int, col: int) -> bool {
    cell.position.row == row && cell.position.col == col
}

/// The reference to row `row` and column `col` with no axis fixed.
pub open spec fn relative(row: int, col: int) -> CellRef {
    CellRef { pos: CellPosition { row: row as u32, col: col as u32 }, fix_row: false, fix_col: false }
}

/// The first column of the pair of columns with the number `j`.
pub open spec fn percent_col(j: int) -> int {
    2 * j + COL_OFFSET
}

/// Whether the cells with the numbers `2 * i` and `2 * i + 1` are those of
/// ingredient `i`: its name in column 0, and in column `mirror` a reference
/// to that cell.
pub open spec fn is_label_pair(
    cells: Seq<CSVCell>,
    names: Seq<Seq<char>>,
    mirror: int,
    i: int,
) -> bool {
    let label = cells[2 * i];
    let copy = cells[2 * i + 1];
    &&& at(label, ROW_OFFSET + i, 0)
    &&& label.value matches CellValue::Str(s)
    &&& s@ == names[i]
    &&& at(copy, ROW_OFFSET + i, mirror)
    &&& copy.value == CellValue::Expr(CellExpr::Ref(relative(ROW_OFFSET + i, 0)))
}

/// Whether the cells are the labels of the ingredients `names`: a pair for
/// each, in their order.
pub open spec fn are_labels(cells: Seq<CSVCell>, names: Seq<Seq<char>>, mirror: int) -> bool {
    &&& cells.len() == 2 * names.len()
    &&& forall|i: int| 0 <= i < names.len() ==> #[trigger] is_label_pair(cells, names, mirror, i)
}

/// The cells that label the ingredients: for each ingredient its name in
/// column 0, and in the column behind the last component a reference to that
/// cell.
pub fn ingredient_label_cells(ing_ordering: &Vec<String>, num_components: usize) -> (result: Vec<
    CSVCell,
>)
    requires
        ROW_OFFSET + ing_ordering.len() <= u32::MAX,
        2 * num_components + COL_OFFSET <= u32::MAX,
    ensures
        are_labels(result@, names_of(ing_ordering@), 2 * num_components + 1),
{
    let ghost names = names_of(ing_ordering@);
    let mirror: u32 = (1 + 2 * num_components) as u32;
    let mut result: Vec<CSVCell> = Vec::new();
    let mut index: usize = 0;
    while index < ing_ordering.len()
        invariant
            index <= ing_ordering.len(),
            ROW_OFFSET + ing_ordering.len() <= u32::MAX,
            mirror == 2 * num_components + 1,
            names == names_of(ing_ordering@),
            result.len() == 2 * index,
            forall|i: int| 0 <= i < index ==> #[trigger] is_label_pair(result@, names, mirror as int, i),
        decreases ing_ordering.len() - index,
    {
        let ghost before = result@;
        let label_position_1 = CellPosition { row: (ROW_OFFSET as usize + index) as u32, col: 0 };
        let label_position_2 = CellPosition { row: label_position_1.row, col: mirror };
        let label_cell_1 = CSVCell {
            value: CellValue::Str(ing_ordering[index].clone()),
            position: label_position_1,
        };
        let label_cell_2 = CSVCell {
            value: CellValue::Expr(CellExpr::Ref(label_position_1.relative_ref())),
            position: label_position_2,
        };
        result.push(label_cell_1);
        result.push(label_cell_2);
        proof {
            assert forall|i: int| 0 <= i < index + 1 implies #[trigger] is_label_pair(
                result@,
                names,
                mirror as int,
                i,
            ) by {
                if i < index {
                    assert(is_label_pair(before, names, mirror as int, i));
                    assert(result@[2 * i] == before[2 * i]);
                    assert(result@[2 * i + 1] == before[2 * i + 1]);
                }
            }
        }
        index += 1;
    }
    result
}

/// Whether the cell is the total of a column: it stands in the row below
/// the `rows` ingredients and sums up their rows of its column.
pub open spec fn is_total(cell: CSVCell, rows: int, col: int) -> bool {
    &&& at(cell, ROW_OFFSET + rows, col)
    &&& cell.value matches CellValue::Expr(CellExpr::Sum(a))
    &&& a.start() == relative(ROW_OFFSET as int, col)
    &&& a.end() == relative(ROW_OFFSET + rows - 1, col)
}

/// Whether the cells are the totals of `columns` components with `rows`
/// ingredients, in the order of the columns.
pub open spec fn are_totals(cells: Seq<CSVCell>, columns: int, rows: int) -> bool {
    &&& cells.len() == columns
    &&& forall|j: int| 0 <= j < columns ==> is_total(#[trigger] cells[j], rows, percent_col(j))
}

/// The cells that hold the total of each component: below the rows of the
/// ingredients, the sum of the component's shares. The cell with the number
/// `j` belongs to the component with the number `j` of `comp_ordering`.
pub fn component_totals(comp_ordering: &Vec<String>, num_ingredients: usize) -> (result: Vec<
    CSVCell,
>)
    requires
        2 * comp_ordering.len() + COL_OFFSET <= u32::MAX,
        ROW_OFFSET + num_ingredients <= u32::MAX,
    ensures
        are_totals(result@, comp_ordering.len() as int, num_ingredients as int),
{
    column_totals(comp_ordering.len(), num_ingredients)
}

/// The totals of `columns` components with `num_ingredients` ingredients.
fn column_totals(columns: usize, num_ingredients: usize) -> (result: Vec<CSVCell>)
    requires
        2 * columns + COL_OFFSET <= u32::MAX,
        ROW_OFFSET + num_ingredients <= u32::MAX,
    ensures
        are_totals(result@, columns as int, num_ingredients as int),
{
    let mut result: Vec<CSVCell> = Vec::new();
    let mut index: usize = 0;
    while index < columns
        invariant
            index <= columns,
            2 * columns + COL_OFFSET <= u32::MAX,
            ROW_OFFSET + num_ingredients <= u32::MAX,
            result.len() == index,
            forall|j: int|
                0 <= j < index ==> is_total(#[trigger] result@[j], num_ingredients as int, percent_col(j)),
        decreases columns - index,
    {
        let total_position = CellPosition {
            row: (ROW_OFFSET as usize + num_ingredients) as u32,
            col: (2 * index + COL_OFFSET as usize) as u32,
        };
        let from = CellPosition {
            row: total_position.row - num_ingredients as u32,
            col: total_position.col,
        };
        let to = CellPosition { row: total_position.row - 1, col: total_position.col };
        match CellArray::new(from.relative_ref(), to.relative_ref()) {
            Ok(sum_array) => {
                let total_cell = CSVCell {
                    value: CellValue::Expr(CellExpr::Sum(sum_array)),
                    position: total_position,
                };
                result.push(total_cell);
            },
            Err(_) => {},
        }
        index += 1;
    }
    result
}

/// The rows in which a component with the ingredients `names` has a share:
/// the places in `order` of the names that it has, rising.
pub open spec fn rows_of(names: Seq<Seq<char>>, order: Seq<Seq<char>>) -> Seq<int>
    decreases order.len(),
{
    if order.len() == 0 {
        Seq::empty()
    } else {
        let before = rows_of(names, order.drop_last());
        if names.contains(order.last()) {
            before.push(order.len() - 1)
        } else {
            before
        }
    }
}

/// Whether the cell holds the share that component `c` has of ingredient
/// `i` of `order`, in column `col`.
pub open spec fn is_share(
    cell: CSVCell,
    c: ComponentView,
    order: Seq<Seq<char>>,
    i: int,
    col: int,
) -> bool {
    &&& at(cell, ROW_OFFSET + i, col)
    &&& position(c.names, order[i]) matches Some(k)
    &&& cell.value matches CellValue::Expr(CellExpr::Percentage(x))
    &&& x@ == c.amounts[k].percentage
}

/// Whether the cells are the shares of component `c` in column `col`: one
/// for each of its ingredients, in the order of the rows.
pub open spec fn are_shares(
    cells: Seq<CSVCell>,
    c: ComponentView,
    order: Seq<Seq<char>>,
    col: int,
) -> bool {
    let rows = rows_of(c.names, order);
    &&& cells.len() == rows.len()
    &&& forall|m: int| 0 <= m < rows.len() ==> is_share(#[trigger] cells[m], c, order, rows[m], col)
}

/// Whether the lists are the shares of the components of a formula, a list
/// for each component in the order of the columns.
pub open spec fn are_percentages(table: Seq<Vec<CSVCell>>, f: FormulaView) -> bool {
    &&& table.len() == f.column_order().len()
    &&& forall|j: int|
        0 <= j < table.len() ==> are_shares(
            (#[trigger] table[j])@,
            f.components[f.column_order()[j]],
            f.ingredient_order(),
            percent_col(j),
        )
}

/// The rows of a component rise and lie among the rows of the ingredients.
pub proof fn lemma_rows_rise(names: Seq<Seq<char>>, order: Seq<Seq<char>>)
    ensures
        forall|m: int|
            0 <= m < rows_of(names, order).len() ==> 0 <= #[trigger] rows_of(names, order)[m]
                < order.len(),
        forall|a: int, b: int|
            0 <= a < b < rows_of(names, order).len() ==> rows_of(names, order)[a] < rows_of(
                names,
                order,
            )[b],
    decreases order.len(),
{
    if order.len() > 0 {
        lemma_rows_rise(names, order.drop_last());
        let before = rows_of(names, order.drop_last());
        let rows = rows_of(names, order);
        assert forall|m: int| 0 <= m < rows.len() implies 0 <= #[trigger] rows[m] < order.len() by {
            if m < before.len() {
                assert(rows[m] == before[m]);
            }
        }
        assert forall|a: int, b: int| 0 <= a < b < rows.len() implies rows[a] < rows[b] by {
            assert(rows[a] == before[a]);
            if b < before.len() {
                assert(rows[b] == before[b]);
            }
        }
    }
}

/// The cells that hold the shares: for each component, in the order of the
/// columns, the share of each of its ingredients in the row of that
/// ingredient.
pub fn component_percentages(formula: &DoughFormula) -> (table: Vec<Vec<CSVCell>>)
    ensures
        are_percentages(table@, formula@),
{
    let columns = formula.column_order();
    let order = formula.ingredient_order();
    let ghost f = formula@;
    let ghost rows = names_of(order@);
    let mut table: Vec<Vec<CSVCell>> = Vec::new();
    let mut col: usize = 0;
    while col < columns.len()
        invariant
            col <= columns.len(),
            f == formula@,
            f.valid(),
            f.complete(),
            nodes(columns@) == f.column_order(),
            rows == names_of(order@),
            rows == f.ingredient_order(),
            2 * columns.len() + COL_OFFSET <= u32::MAX,
            ROW_OFFSET + order.len() <= u32::MAX,
            table.len() == col,
            forall|j: int|
                0 <= j < col ==> are_shares(
                    (#[trigger] table@[j])@,
                    f.components[f.column_order()[j]],
                    rows,
                    percent_col(j),
                ),
        decreases columns.len() - col,
    {
        let component = columns[col];
        proof {
            let bfs = f.bfs_order();
            assert(nodes(columns@)[col as int] == component);
            assert(nodes(columns@).len() == columns.len());
            assert(f.column_order().len() == bfs.len());
            let i = bfs.len() - 1 - col;
            assert(f.column_order()[col as int] == bfs[i]);
            assert(0 <= f.bfs_order()[i] < f.components.len());
        }
        let ghost c = f.components[component as int];
        let mut cells: Vec<CSVCell> = Vec::new();
        let mut row: usize = 0;
        proof {
            assert(rows.take(0) =~= Seq::empty());
        }
        while row < order.len()
            invariant
                row <= order.len(),
                f == formula@,
                component < f.components.len(),
                c == f.components[component as int],
                col < columns.len(),
                rows == names_of(order@),
                2 * columns.len() + COL_OFFSET <= u32::MAX,
                ROW_OFFSET + order.len() <= u32::MAX,
                are_shares(cells@, c, rows.take(row as int), percent_col(col as int)),
            decreases order.len() - row,
        {
            let ghost before = cells@;
            let ghost seen = rows.take(row as int);
            let ghost next = rows.take(row + 1);
            proof {
                assert(next.drop_last() =~= seen);
                assert(next.last() == order@[row as int]@);
                lemma_position(c.names, rows[row as int]);
            }
            match formula.share_of(component, &order[row]) {
                Some(ingredient) => {
                    let percent_position = CellPosition {
                        row: (ROW_OFFSET as usize + row) as u32,
                        col: (2 * col + COL_OFFSET as usize) as u32,
                    };
                    let percent_cell = CSVCell {
                        value: CellValue::Expr(CellExpr::Percentage(ingredient.percentage())),
                        position: percent_position,
                    };
                    cells.push(percent_cell);
                    proof {
                        let old_rows = rows_of(c.names, seen);
                        let new_rows = rows_of(c.names, next);
                        assert(new_rows == old_rows.push(row as int));
                        assert forall|m: int| 0 <= m < new_rows.len() implies is_share(
                            #[trigger] cells@[m],
                            c,
                            next,
                            new_rows[m],
                            percent_col(col as int),
                        ) by {
                            if m < old_rows.len() {
                                lemma_rows_rise(c.names, seen);
                                assert(is_share(before[m], c, seen, old_rows[m], percent_col(col as int)));
                                assert(next[old_rows[m]] == seen[old_rows[m]]);
                            }
                        }
                    }
                },
                None => {
                    proof {
                        let old_rows = rows_of(c.names, seen);
                        assert(rows_of(c.names, next) == old_rows);
                        assert forall|m: int| 0 <= m < old_rows.len() implies is_share(
                            #[trigger] cells@[m],
                            c,
                            next,
                            old_rows[m],
                            percent_col(col as int),
                        ) by {
                            lemma_rows_rise(c.names, seen);
                            assert(next[old_rows[m]] == seen[old_rows[m]]);
                        }
                    }
                },
            }
            row += 1;
        }
        proof {
            assert(rows.take(row as int) =~= rows);
        }
        table.push(cells);
        col += 1;
    }
    table
}

/// What stands in the field at row `row` and column `col` of the grid of a
/// formula. In column 0 stand the names of the ingredients, from row
/// `ROW_OFFSET` on, and in the column behind the last component a reference
/// to each name. Component `j` of the order of the columns has column
/// `2 * j + COL_OFFSET`: there stands, in the row of each of its
/// ingredients, the share as a percentage, and in the row below the
/// ingredients the sum of these rows. Every other field is empty. A share
/// too large to be shown in percent has no text.
pub open spec fn formula_field(f: FormulaView, row: int, col: int) -> Result<Seq<char>, ErrorKind> {
    let names = f.ingredient_order();
    let n = names.len() as int;
    let k = f.column_order().len() as int;
    let i = row - ROW_OFFSET;
    let j = (col - COL_OFFSET) / 2;
    if 0 <= i < n && col == 0 {
        Ok(names[i])
    } else if 0 <= i < n && col == 2 * k + 1 {
        Ok(seq!['='] + ref_text(relative(row, 0)))
    } else if 0 <= j < k && col == percent_col(j) {
        if i == n {
            Ok(
                seq!['='] + (sum_head() + range_text(
                    relative(ROW_OFFSET as int, col),
                    relative(ROW_OFFSET + n - 1, col),
                ) + seq![')']),
            )
        } else if 0 <= i < n {
            match share_in(f, f.column_order()[j], names[i]) {
                Some(x) => match percent_text(x.percentage) {
                    Ok(t) => Ok(seq!['='] + t),
                    Err(e) => Err(e),
                },
                None => Ok(Seq::empty()),
            }
        } else {
            Ok(Seq::empty())
        }
    } else {
        Ok(Seq::empty())
    }
}

/// The fields of the grid of a formula, those without a text empty.
pub open spec fn formula_fields(f: FormulaView) -> Fields {
    |row: int, col: int|
        match formula_field(f, row, col) {
            Ok(t) => t,
            Err(_) => Seq::empty(),
        }
}

/// The number of rows of the grid of a formula: the rows of the headers, of
/// the ingredients and of the totals.
pub open spec fn formula_rows(f: FormulaView) -> nat {
    ROW_OFFSET as nat + f.ingredient_order().len() + 1
}

/// The number of columns of the grid of a formula: the column of the names,
/// a pair of columns for each component, and the column that repeats the
/// names. The grid of a formula without ingredients ends with the column of
/// the last total.
pub open spec fn formula_cols(f: FormulaView) -> nat {
    if f.ingredient_order().len() > 0 {
        2 * f.column_order().len() + 2
    } else {
        2 * f.column_order().len()
    }
}

/// Whether the share in the row of ingredient `i` and the column of
/// component `j` is too large to be shown in percent.
pub open spec fn overflows_at(f: FormulaView, j: int, i: int) -> bool {
    &&& 0 <= j < f.column_order().len()
    &&& 0 <= i < f.ingredient_order().len()
    &&& formula_field(f, ROW_OFFSET + i, percent_col(j)) is Err
}

/// The grid of a formula as text, or `Overflow` where a share is too large
/// to be shown in percent.
pub open spec fn formula_text(f: FormulaView) -> Result<Seq<char>, ErrorKind> {
    if exists|j: int, i: int| overflows_at(f, j, i) {
        Err(ErrorKind::Overflow)
    } else {
        Ok(grid_text(formula_fields(f), formula_rows(f), formula_cols(f)))
    }
}

/// Whether the cell stands in the grid of the formula, and holds what
/// stands in its field.
pub open spec fn in_place(f: FormulaView, cell: CSVCell) -> bool {
    &&& cell.position.row < formula_rows(f)
    &&& cell.position.col < formula_cols(f)
    &&& value_text(cell.value) == formula_field(f, cell.position.row as int, cell.position.col as int)
}

/// Whether a cell stands at row `row` and column `col`.
pub open spec fn covered(cells: Seq<CSVCell>, row: int, col: int) -> bool {
    exists|i: int| stands_at(cells, i, row, col)
}

/// The total in column `j` is in its place.
proof fn lemma_total_in_place(f: FormulaView, cell: CSVCell, j: int)
    requires
        f.fits(),
        0 <= j < f.column_order().len(),
        f.column_order().len() <= f.components.len(),
        is_total(cell, f.ingredient_order().len() as int, percent_col(j)),
    ensures
        in_place(f, cell),
{
    let n = f.ingredient_order().len() as int;
    let col = percent_col(j);
    assert((col - COL_OFFSET) / 2 == j);
    assert(formula_field(f, ROW_OFFSET + n, col) is Ok);
}

/// The share of component `j` in row `i` is in its place.
proof fn lemma_share_in_place(f: FormulaView, cell: CSVCell, j: int, i: int)
    requires
        f.fits(),
        f.column_order().len() <= f.components.len(),
        0 <= j < f.column_order().len(),
        0 <= f.column_order()[j] < f.components.len(),
        0 <= i < f.ingredient_order().len(),
        is_share(cell, f.components[f.column_order()[j]], f.ingredient_order(), i, percent_col(j)),
    ensures
        in_place(f, cell),
{
    let col = percent_col(j);
    assert((col - COL_OFFSET) / 2 == j);
}

/// The two labels of ingredient `i` are in their places.
proof fn lemma_labels_in_place(f: FormulaView, labels: Seq<CSVCell>, i: int)
    requires
        f.fits(),
        f.column_order().len() <= f.components.len(),
        0 <= i < f.ingredient_order().len(),
        2 * i + 1 < labels.len(),
        is_label_pair(labels, f.ingredient_order(), 2 * (f.column_order().len() as int) + 1, i),
    ensures
        in_place(f, labels[2 * i]),
        in_place(f, labels[2 * i + 1]),
{
    let k = f.column_order().len() as int;
    assert(((2 * k + 1) - COL_OFFSET) / 2 == k);
}

/// The cells of all lists, one list after the other.
pub open spec fn flat(table: Seq<Vec<CSVCell>>) -> Seq<CSVCell>
    decreases table.len(),
{
    if table.len() == 0 {
        Seq::empty()
    } else {
        flat(table.drop_last()) + table.last()@
    }
}

/// Whether the cells are those of a formula: the totals of the components,
/// then the shares of each component, then the labels of the ingredients.
pub open spec fn are_cells(cells: Seq<CSVCell>, f: FormulaView) -> bool {
    exists|totals: Seq<CSVCell>, table: Seq<Vec<CSVCell>>, labels: Seq<CSVCell>|
        {
            &&& are_totals(totals, f.column_order().len() as int, f.ingredient_order().len() as int)
            &&& are_percentages(table, f)
            &&& are_labels(labels, f.ingredient_order(), 2 * (f.column_order().len() as int) + 1)
            &&& #[trigger] are_joined(cells, totals, table, labels)
        }
}

/// Whether `cells` is the three groups of cells, one after the other.
pub open spec fn are_joined(
    cells: Seq<CSVCell>,
    totals: Seq<CSVCell>,
    table: Seq<Vec<CSVCell>>,
    labels: Seq<CSVCell>,
) -> bool {
    cells == totals + flat(table) + labels
}

/// Whether the cell holds no operation and no product of ranges: a text, a
/// reference, a sum, a number, a percentage, or nothing.
pub open spec fn is_plain(cell: CSVCell) -> bool {
    match cell.value {
        CellValue::Expr(CellExpr::BinaryOp(_, _, _)) => false,
        CellValue::Expr(CellExpr::SumProduct(_, _)) => false,
        _ => true,
    }
}

/// Plain cells have a text, but for a percentage too large to be shown.
pub proof fn lemma_only_overflow(cells: Seq<CSVCell>)
    requires
        forall|i: int| 0 <= i < cells.len() ==> is_plain(#[trigger] cells[i]),
    ensures
        first_failure(cells) is None || first_failure(cells) == Some(ErrorKind::Overflow),
    decreases cells.len(),
{
    if cells.len() > 0 {
        let shorter = cells.drop_last();
        assert forall|i: int| 0 <= i < shorter.len() implies is_plain(#[trigger] shorter[i]) by {
            assert(shorter[i] == cells[i]);
        }
        lemma_only_overflow(shorter);
        assert(is_plain(cells[cells.len() - 1]));
    }
}

/// All cells of a formula: the totals, the shares and the labels. No two of
/// them stand in one place.
pub fn formula_cells(formula: &DoughFormula) -> (cells: Vec<CSVCell>)
    ensures
        formula@.valid(),
        formula@.complete(),
        are_cells(cells@, formula@),
        overlap_free(cells@),
        forall|i: int| 0 <= i < cells.len() ==> is_plain(#[trigger] cells@[i]),
{
    let columns = formula.column_order();
    let order = formula.ingredient_order();
    let ghost f = formula@;
    let ghost names = f.ingredient_order();
    let ghost k = columns.len() as int;
    let ghost n = order.len() as int;
    proof {
        assert(nodes(columns@).len() == columns.len());
        assert(names_of(order@).len() == order.len());
    }
    let totals = column_totals(columns.len(), order.len());
    let table = component_percentages(formula);
    let labels = ingredient_label_cells(order, columns.len());
    let mut cells: Vec<CSVCell> = Vec::new();
    let mut t: usize = 0;
    while t < totals.len()
        invariant
            t <= totals.len(),
            are_totals(totals@, k, n),
            cells@ == totals@.take(t as int),
            forall|i: int| 0 <= i < cells.len() ==> is_plain(#[trigger] cells@[i]),
        decreases totals.len() - t,
    {
        assert(is_total(totals@[t as int], n, percent_col(t as int)));
        cells.push(totals[t].clone());
        assert(totals@.take(t + 1) =~= totals@.take(t as int).push(totals@[t as int]));
        t += 1;
    }
    proof {
        assert(totals@.take(t as int) =~= totals@);
        assert(flat(table@.take(0)) =~= Seq::empty());
        assert(cells@ =~= totals@ + flat(table@.take(0)));
        assert forall|a: int, b: int| 0 <= a < b < cells.len() implies cells@[a].position
            != cells@[b].position by {
            assert(is_total(totals@[a], n, percent_col(a)));
            assert(is_total(totals@[b], n, percent_col(b)));
        }
    }
    let mut j: usize = 0;
    while j < table.len()
        invariant
            j <= table.len(),
            k == columns.len(),
            table.len() == k,
            totals.len() == k,
            n == names.len(),
            names == f.ingredient_order(),
            are_totals(totals@, k, n),
            are_percentages(table@, f),
            cells@ == totals@ + flat(table@.take(j as int)),
            overlap_free(cells@),
            forall|i: int| 0 <= i < cells.len() ==> is_plain(#[trigger] cells@[i]),
            forall|a: int|
                k <= a < cells.len() ==> (#[trigger] cells@[a]).position.row < ROW_OFFSET + n
                    && 1 <= cells@[a].position.col <= 2 * j - 1,
        decreases table.len() - j,
    {
        let list = &table[j];
        let ghost start = cells@;
        let ghost c = f.components[f.column_order()[j as int]];
        let ghost rows = rows_of(c.names, names);
        proof {
            assert(are_shares(table@[j as int]@, c, names, percent_col(j as int)));
            lemma_rows_rise(c.names, names);
        }
        let mut m: usize = 0;
        while m < list.len()
            invariant
                m <= list.len(),
                j < table.len(),
                list == table@[j as int],
                k == columns.len(),
                totals.len() == k,
                start.len() >= k,
                n == names.len(),
                rows == rows_of(c.names, names),
                are_totals(totals@, k, n),
                are_shares(list@, c, names, percent_col(j as int)),
                forall|x: int| 0 <= x < rows.len() ==> 0 <= #[trigger] rows[x] < n,
                forall|x: int, y: int| 0 <= x < y < rows.len() ==> rows[x] < rows[y],
                start == totals@ + flat(table@.take(j as int)),
                cells@ == start + list@.take(m as int),
                overlap_free(cells@),
                forall|i: int| 0 <= i < cells.len() ==> is_plain(#[trigger] cells@[i]),
                forall|a: int|
                    k <= a < start.len() ==> (#[trigger] cells@[a]).position.row < ROW_OFFSET + n
                        && 1 <= cells@[a].position.col <= 2 * j - 1,
            decreases list.len() - m,
        {
            let ghost before = cells@;
            cells.push(list[m].clone());
            proof {
                assert(list@.take(m + 1) =~= list@.take(m as int).push(list@[m as int]));
                assert(cells@ =~= start + list@.take(m + 1));
                let new = list@[m as int];
                assert(is_share(new, c, names, rows[m as int], percent_col(j as int)));
                assert forall|a: int, b: int| 0 <= a < b < cells.len() implies cells@[a].position
                    != cells@[b].position by {
                    if b < before.len() {
                        assert(before[a].position != before[b].position);
                    } else if a < k {
                        assert(cells@[a] == totals@[a]);
                        assert(is_total(totals@[a], n, percent_col(a)));
                    } else if a < start.len() {
                        assert(cells@[a].position.col <= 2 * j - 1);
                    } else {
                        let x = a - start.len();
                        assert(cells@[a] == list@[x]);
                        assert(is_share(list@[x], c, names, rows[x], percent_col(j as int)));
                    }
                }
            }
            m += 1;
        }
        proof {
            assert(list@.take(m as int) =~= list@);
            assert(table@.take(j + 1).drop_last() =~= table@.take(j as int));
            assert(table@.take(j + 1).last() == table@[j as int]);
            assert(cells@ =~= totals@ + flat(table@.take(j + 1)));
            assert forall|a: int| k <= a < cells.len() implies (#[trigger] cells@[a]).position.row
                < ROW_OFFSET + n && 1 <= cells@[a].position.col <= 2 * (j + 1) - 1 by {
                if a >= start.len() {
                    let x = a - start.len();
                    assert(cells@[a] == list@[x]);
                    assert(is_share(list@[x], c, names, rows[x], percent_col(j as int)));
                }
            }
        }
        j += 1;
    }
    let ghost base = cells@;
    proof {
        assert(table@.take(j as int) =~= table@);
    }
    let mut l: usize = 0;
    while l < labels.len()
        invariant
            l <= labels.len(),
            k == columns.len(),
            totals.len() == k,
            base.len() >= k,
            n == names.len(),
            are_totals(totals@, k, n),
            are_labels(labels@, names, 2 * k + 1),
            base == totals@ + flat(table@),
            cells@ == base + labels@.take(l as int),
            overlap_free(cells@),
            forall|i: int| 0 <= i < cells.len() ==> is_plain(#[trigger] cells@[i]),
            forall|a: int|
                k <= a < base.len() ==> (#[trigger] cells@[a]).position.row < ROW_OFFSET + n && 1
                    <= cells@[a].position.col <= 2 * k - 1,
        decreases labels.len() - l,
    {
        let ghost before = cells@;
        cells.push(labels[l].clone());
        proof {
            assert(labels@.take(l + 1) =~= labels@.take(l as int).push(labels@[l as int]));
            assert(cells@ =~= base + labels@.take(l + 1));
            let i = l as int / 2;
            assert(is_label_pair(labels@, names, 2 * k + 1, i));
            assert forall|a: int, b: int| 0 <= a < b < cells.len() implies cells@[a].position
                != cells@[b].position by {
                if b < before.len() {
                    assert(before[a].position != before[b].position);
                } else if a < k {
                    assert(cells@[a] == totals@[a]);
                    assert(is_total(totals@[a], n, percent_col(a)));
                } else if a < base.len() {
                    assert(1 <= cells@[a].position.col <= 2 * k - 1);
                } else {
                    let x = a - base.len();
                    assert(cells@[a] == labels@[x]);
                    assert(is_label_pair(labels@, names, 2 * k + 1, x / 2));
                }
            }
        }
        l += 1;
    }
    proof {
        assert(labels@.take(l as int) =~= labels@);
        assert(are_joined(cells@, totals@, table@, labels@));
    }
    cells
}

/// Whether cell `idx` of the lists taken together is cell `m` of list `j`.
spec fn in_flat(table: Seq<Vec<CSVCell>>, idx: int, j: int, m: int) -> bool {
    &&& 0 <= j < table.len()
    &&& 0 <= m < table[j]@.len()
    &&& 0 <= idx < flat(table).len()
    &&& flat(table)[idx] == table[j]@[m]
}

/// Every cell of the lists taken together is a cell of one of the lists.
proof fn lemma_flat_from(table: Seq<Vec<CSVCell>>, idx: int)
    requires
        0 <= idx < flat(table).len(),
    ensures
        exists|j: int, m: int| in_flat(table, idx, j, m),
    decreases table.len(),
{
    let shorter = table.drop_last();
    if idx < flat(shorter).len() {
        lemma_flat_from(shorter, idx);
        let (j, m) = choose|j: int, m: int| in_flat(shorter, idx, j, m);
        assert(table[j] == shorter[j]);
        assert(in_flat(table, idx, j, m));
    } else {
        assert(in_flat(table, idx, table.len() - 1, idx - flat(shorter).len()));
    }
}

/// Every cell of one of the lists is a cell of the lists taken together.
proof fn lemma_flat_holds(table: Seq<Vec<CSVCell>>, j: int, m: int)
    requires
        0 <= j < table.len(),
        0 <= m < table[j]@.len(),
    ensures
        exists|idx: int| in_flat(table, idx, j, m),
    decreases table.len(),
{
    let shorter = table.drop_last();
    if j < shorter.len() {
        lemma_flat_holds(shorter, j, m);
        let idx = choose|idx: int| in_flat(shorter, idx, j, m);
        assert(table[j] == shorter[j]);
        assert(in_flat(table, idx, j, m));
    } else {
        assert(in_flat(table, flat(shorter).len() + m, j, m));
    }
}

/// The row of every ingredient of a component is one of its rows.
proof fn lemma_rows_complete(names: Seq<Seq<char>>, order: Seq<Seq<char>>, i: int)
    requires
        0 <= i < order.len(),
        names.contains(order[i]),
    ensures
        rows_of(names, order).contains(i),
    decreases order.len(),
{
    let rows = rows_of(names, order);
    if i == order.len() - 1 {
        assert(rows[rows.len() - 1] == i);
    } else {
        let shorter = order.drop_last();
        assert(shorter[i] == order[i]);
        lemma_rows_complete(names, shorter, i);
        let before = rows_of(names, shorter);
        let m = choose|m: int| 0 <= m < before.len() && before[m] == i;
        assert(rows[m] == i);
    }
}

/// Whether the cells are the three groups of cells of the formula.
spec fn made_of(
    cells: Seq<CSVCell>,
    f: FormulaView,
    totals: Seq<CSVCell>,
    table: Seq<Vec<CSVCell>>,
    labels: Seq<CSVCell>,
) -> bool {
    &&& are_totals(totals, f.column_order().len() as int, f.ingredient_order().len() as int)
    &&& are_percentages(table, f)
    &&& are_labels(labels, f.ingredient_order(), 2 * (f.column_order().len() as int) + 1)
    &&& are_joined(cells, totals, table, labels)
}

/// Every cell of a formula stands in the grid and holds what stands in its
/// field.
proof fn lemma_cells_in_place(
    cells: Seq<CSVCell>,
    f: FormulaView,
    totals: Seq<CSVCell>,
    table: Seq<Vec<CSVCell>>,
    labels: Seq<CSVCell>,
)
    requires
        f.valid(),
        f.complete(),
        made_of(cells, f, totals, table, labels),
    ensures
        forall|idx: int| 0 <= idx < cells.len() ==> in_place(f, #[trigger] cells[idx]),
{
    let names = f.ingredient_order();
    let columns = f.column_order();
    let n = names.len() as int;
    let k = columns.len() as int;
    let shares = flat(table);
    let base = k + shares.len();
    lemma_column_order(f);
    assert forall|idx: int| 0 <= idx < cells.len() implies in_place(f, #[trigger] cells[idx]) by {
        if idx < k {
            assert(cells[idx] == totals[idx]);
            assert(is_total(totals[idx], n, percent_col(idx)));
            lemma_total_in_place(f, totals[idx], idx);
        } else if idx < base {
            let x = idx - k;
            assert(cells[idx] == shares[x]);
            lemma_flat_from(table, x);
            let (j, m) = choose|j: int, m: int| in_flat(table, x, j, m);
            let c = f.components[columns[j]];
            assert(are_shares(table[j]@, c, names, percent_col(j)));
            lemma_rows_rise(c.names, names);
            let i = rows_of(c.names, names)[m];
            assert(is_share(table[j]@[m], c, names, i, percent_col(j)));
            lemma_share_in_place(f, cells[idx], j, i);
        } else {
            let x = idx - base;
            assert(cells[idx] == labels[x]);
            let i = x / 2;
            assert(is_label_pair(labels, names, 2 * k + 1, i));
            lemma_labels_in_place(f, labels, i);
        }
    }
}

/// Every field of the grid of a formula with something in it has its cell.
proof fn lemma_cells_cover(
    cells: Seq<CSVCell>,
    f: FormulaView,
    totals: Seq<CSVCell>,
    table: Seq<Vec<CSVCell>>,
    labels: Seq<CSVCell>,
    r: int,
    c: int,
)
    requires
        f.valid(),
        f.complete(),
        made_of(cells, f, totals, table, labels),
        0 <= r < formula_rows(f),
        0 <= c < formula_cols(f),
        formula_field(f, r, c) != Ok::<Seq<char>, ErrorKind>(Seq::empty()),
    ensures
        covered(cells, r, c),
{
    let names = f.ingredient_order();
    let columns = f.column_order();
    let n = names.len() as int;
    let k = columns.len() as int;
    let shares = flat(table);
    let base = k + shares.len();
    lemma_column_order(f);
    let i = r - ROW_OFFSET;
    let j = (c - COL_OFFSET) / 2;
    if 0 <= i < n && c == 0 {
        assert(is_label_pair(labels, names, 2 * k + 1, i));
        assert(cells[base + 2 * i] == labels[2 * i]);
        assert(stands_at(cells, base + 2 * i, r, c));
    } else if 0 <= i < n && c == 2 * k + 1 {
        assert(is_label_pair(labels, names, 2 * k + 1, i));
        assert(cells[base + 2 * i + 1] == labels[2 * i + 1]);
        assert(stands_at(cells, base + 2 * i + 1, r, c));
    } else if 0 <= j < k && c == percent_col(j) {
        if i == n {
            assert(cells[j] == totals[j]);
            assert(is_total(totals[j], n, percent_col(j)));
            assert(stands_at(cells, j, r, c));
        } else if 0 <= i < n {
            let component = f.components[columns[j]];
            assert(share_in(f, columns[j], names[i]) is Some);
            lemma_position(component.names, names[i]);
            lemma_rows_complete(component.names, names, i);
            let found = rows_of(component.names, names);
            let m = choose|m: int| 0 <= m < found.len() && found[m] == i;
            assert(are_shares(table[j]@, component, names, percent_col(j)));
            assert(is_share(table[j]@[m], component, names, found[m], percent_col(j)));
            lemma_flat_holds(table, j, m);
            let x = choose|x: int| in_flat(table, x, j, m);
            assert(cells[k + x] == shares[x]);
            assert(stands_at(cells, k + x, r, c));
        }
    }
}

/// The grid of the cells of a formula ends with the row of the totals, and
/// with the last column that is taken.
proof fn lemma_cells_shape(
    cells: Seq<CSVCell>,
    f: FormulaView,
    totals: Seq<CSVCell>,
    table: Seq<Vec<CSVCell>>,
    labels: Seq<CSVCell>,
)
    requires
        f.valid(),
        f.complete(),
        made_of(cells, f, totals, table, labels),
        forall|idx: int| 0 <= idx < cells.len() ==> in_place(f, #[trigger] cells[idx]),
    ensures
        max_row(cells) + 1 == formula_rows(f),
        max_col(cells) + 1 == formula_cols(f),
{
    let names = f.ingredient_order();
    let n = names.len() as int;
    let k = f.column_order().len() as int;
    let base = k + flat(table).len();
    lemma_column_order(f);
    lemma_columns_lead(f);
    assert(cells[0] == totals[0]);
    assert(is_total(totals[0], n, percent_col(0)));
    lemma_bounds_reached(cells);
    lemma_within_bounds(cells, 0);
    let high = choose|i: int|
        0 <= i < cells.len() && (#[trigger] cells[i]).position.row == max_row(cells);
    assert(in_place(f, cells[high]));
    let wide = choose|i: int|
        0 <= i < cells.len() && (#[trigger] cells[i]).position.col == max_col(cells);
    assert(in_place(f, cells[wide]));
    if n > 0 {
        assert(is_label_pair(labels, names, 2 * k + 1, 0));
        assert(cells[base + 1] == labels[1]);
        lemma_within_bounds(cells, base + 1);
    } else {
        assert(cells[k - 1] == totals[k - 1]);
        assert(is_total(totals[k - 1], n, percent_col(k - 1)));
        lemma_within_bounds(cells, k - 1);
    }
}

/// A field without a text is a share too large to be shown in percent.
proof fn lemma_failure_is_overflow(f: FormulaView, r: int, c: int)
    requires
        formula_field(f, r, c) is Err,
    ensures
        overflows_at(f, (c - COL_OFFSET) / 2, r - ROW_OFFSET),
        formula_field(f, r, c) == Err::<Seq<char>, ErrorKind>(ErrorKind::Overflow),
{
}

/// The grid of the cells of a formula is the grid of the formula, field by
/// field.
pub proof fn lemma_formula_grid(f: FormulaView, cells: Seq<CSVCell>)
    requires
        f.valid(),
        f.complete(),
        are_cells(cells, f),
        overlap_free(cells),
    ensures
        grid_of(cells) == formula_text(f),
{
    let (totals, table, labels) = choose|
        totals: Seq<CSVCell>,
        table: Seq<Vec<CSVCell>>,
        labels: Seq<CSVCell>,
    |
        {
            &&& are_totals(totals, f.column_order().len() as int, f.ingredient_order().len() as int)
            &&& are_percentages(table, f)
            &&& are_labels(labels, f.ingredient_order(), 2 * (f.column_order().len() as int) + 1)
            &&& #[trigger] are_joined(cells, totals, table, labels)
        };
    assert(made_of(cells, f, totals, table, labels));
    let rows = formula_rows(f);
    let cols = formula_cols(f);
    lemma_cells_in_place(cells, f, totals, table, labels);
    lemma_cells_shape(cells, f, totals, table, labels);
    lemma_first_failure_found(cells);
    if exists|j: int, i: int| overflows_at(f, j, i) {
        let (j, i) = choose|j: int, i: int| overflows_at(f, j, i);
        let r = ROW_OFFSET + i;
        let c = percent_col(j);
        lemma_cells_cover(cells, f, totals, table, labels, r, c);
        let at = choose|at: int| stands_at(cells, at, r, c);
        assert(in_place(f, cells[at]));
        assert(value_text(cells[at].value) is Err);
        let e = first_failure(cells)->Some_0;
        let failed = choose|x: int|
            0 <= x < cells.len() && value_text((#[trigger] cells[x]).value) == Err::<
                Seq<char>,
                ErrorKind,
            >(e);
        assert(in_place(f, cells[failed]));
        lemma_failure_is_overflow(
            f,
            cells[failed].position.row as int,
            cells[failed].position.col as int,
        );
    } else {
        lemma_formula_fields(f, cells, totals, table, labels);
    }
}

/// Where no share is too large, the cells of a formula have their texts,
/// and their fields are those of the formula.
proof fn lemma_formula_fields(
    f: FormulaView,
    cells: Seq<CSVCell>,
    totals: Seq<CSVCell>,
    table: Seq<Vec<CSVCell>>,
    labels: Seq<CSVCell>,
)
    requires
        f.valid(),
        f.complete(),
        made_of(cells, f, totals, table, labels),
        overlap_free(cells),
        forall|idx: int| 0 <= idx < cells.len() ==> in_place(f, #[trigger] cells[idx]),
        !exists|j: int, i: int| overflows_at(f, j, i),
    ensures
        first_failure(cells) is None,
        grid_text(fields_of(cells), formula_rows(f), formula_cols(f)) == grid_text(
            formula_fields(f),
            formula_rows(f),
            formula_cols(f),
        ),
{
    let rows = formula_rows(f);
    let cols = formula_cols(f);
    lemma_first_failure_found(cells);
    assert forall|x: int| 0 <= x < cells.len() implies value_text((#[trigger] cells[x]).value) is Ok by {
        assert(in_place(f, cells[x]));
        let r = cells[x].position.row as int;
        let c = cells[x].position.col as int;
        if formula_field(f, r, c) is Err {
            lemma_failure_is_overflow(f, r, c);
        }
    }
    if first_failure(cells) is Some {
        let e = first_failure(cells)->Some_0;
        let failed = choose|x: int|
            0 <= x < cells.len() && value_text((#[trigger] cells[x]).value) == Err::<
                Seq<char>,
                ErrorKind,
            >(e);
        assert(value_text(cells[failed].value) is Ok);
    }
    let have = fields_of(cells);
    let want = formula_fields(f);
    assert forall|r: int, c: int| 0 <= r < rows && 0 <= c < cols implies #[trigger] have(r, c)
        == want(r, c) by {
        if exists|at: int| stands_at(cells, at, r, c) {
            let at = choose|at: int| stands_at(cells, at, r, c);
            assert(in_place(f, cells[at]));
            if formula_field(f, r, c) is Err {
                lemma_failure_is_overflow(f, r, c);
            }
        } else {
            if formula_field(f, r, c) != Ok::<Seq<char>, ErrorKind>(Seq::empty()) {
                lemma_cells_cover(cells, f, totals, table, labels, r, c);
            }
            assert(have(r, c) =~= want(r, c));
        }
    }
    lemma_grid_text_same(have, want, rows, cols);
}

/// The grid of a formula as text: row by row the fields that
/// `formula_field` says, with a comma between two fields and a line feed
/// behind each row. The one failure is a share that is too large to be shown
/// in percent.
pub fn formula_grid(formula: &DoughFormula) -> (r: Result<String, Error>)
    ensures
        text_result(r) == formula_text(formula@),
        r matches Err(e) ==> e == Error::Overflow,
{
    let cells = formula_cells(formula);
    proof {
        lemma_only_overflow(cells@);
        lemma_formula_grid(formula@, cells@);
    }
    csv_cells_to_grid(&cells)
}

} // verus!
