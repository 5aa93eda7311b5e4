use baking_formula::csv_cell::{
    csv_cells_to_grid, BinOp, CSVCell, CellArray, CellExpr, CellPosition, CellRef, CellValue,
};
use baking_formula::decimal::Decimal;
use baking_formula::error::{Error, ErrorKind};
use baking_formula::text::to_csv_col;

fn cp_1() -> CellRef {
    CellRef { pos: CellPosition { row: 100, col: 29 }, fix_row: false, fix_col: true }
}

fn cp_2() -> CellRef {
    CellRef { pos: CellPosition { row: 200, col: 29 }, fix_row: false, fix_col: true }
}

fn cp_3() -> CellRef {
    CellRef { pos: CellPosition { row: 100, col: 39 }, fix_row: false, fix_col: true }
}

fn cp_4() -> CellRef {
    CellRef { pos: CellPosition { row: 200, col: 39 }, fix_row: false, fix_col: true }
}

fn cell(row: u32, col: u32, value: CellValue) -> CSVCell {
    CSVCell { value, position: CellPosition { row, col } }
}

fn text(s: &str) -> CellValue {
    CellValue::Str(String::from(s))
}

#[test]
fn test_cell_position() {
    assert_eq!(cp_1().to_string(), String::from("$DD101"));
}

#[test]
fn test_cell_array() {
    let ca = CellArray::new(cp_1(), cp_2()).unwrap();
    assert_eq!(ca.to_string(), String::from("$DD101:$DD201"));
}

#[test]
#[should_panic]
fn test_cell_array_panic() {
    CellArray::new(cp_1(), cp_4()).unwrap();
}

#[test]
fn test_sum() {
    let cv: CellValue = CellValue::Expr(CellExpr::Sum(CellArray::new(cp_1(), cp_2()).unwrap()));
    assert_eq!(cv.to_string().unwrap(), "=SUM($DD101:$DD201)")
}

#[test]
fn test_sumproduct() {
    let cv: CellValue = CellValue::Expr(CellExpr::SumProduct(
        CellArray::new(cp_1(), cp_2()).unwrap(),
        CellArray::new(cp_3(), cp_4()).unwrap(),
    ));
    assert_eq!(cv.to_string().unwrap(), "=SUMPRODUCT($DD101:$DD201,$NN101:$NN201)");
}

#[test]
fn test_binop() {
    let e1 = CellExpr::Number(Decimal::new(3, 0));
    let e2: CellExpr = CellExpr::Percentage(Decimal::new(1234567, 7));
    let e3 = CellExpr::BinaryOp(BinOp::Mult, Box::new(e1), Box::new(e2));
    assert_eq!(e3.to_string().unwrap(), "(3*12.346%)");
    let e4: CellExpr = CellExpr::SumProduct(
        CellArray::new(cp_1(), cp_2()).unwrap(),
        CellArray::new(cp_3(), cp_4()).unwrap(),
    );
    let e5: CellExpr = CellExpr::BinaryOp(BinOp::Add, Box::new(e3), Box::new(e4));
    assert_eq!(
        e5.to_string().unwrap(),
        "((3*12.346%)+SUMPRODUCT($DD101:$DD201,$NN101:$NN201))"
    );
}

#[test]
fn column_labels_repeat_one_letter() {
    assert_eq!(to_csv_col(0), "A");
    assert_eq!(to_csv_col(3), "D");
    assert_eq!(to_csv_col(25), "Z");
    assert_eq!(to_csv_col(26), "AA");
    assert_eq!(to_csv_col(29), "DD");
    assert_eq!(to_csv_col(51), "ZZ");
    assert_eq!(to_csv_col(52), "AAA");
    for col in [0u32, 1, 25, 26, 27, 77, 260, 1000] {
        let label = to_csv_col(col);
        let letter = (b'A' + (col % 26) as u8) as char;
        assert_eq!(label.len() as u32, col / 26 + 1);
        assert!(label.chars().all(|c| c == letter));
    }
}

#[test]
fn references_mark_fixed_axes() {
    let pos = CellPosition { row: 0, col: 0 };
    assert_eq!(pos.to_string(), "A1");
    assert_eq!(pos.relative_ref().to_string(), "A1");
    assert_eq!(pos.fixed_ref().to_string(), "$A$1");
    assert_eq!(CellRef { pos, fix_row: true, fix_col: false }.to_string(), "A$1");
    assert_eq!(CellRef { pos, fix_row: false, fix_col: true }.to_string(), "$A1");
    let far = CellPosition { row: u32::MAX, col: 4 };
    assert_eq!(far.to_string(), "E4294967296");
    assert_eq!(CellPosition { row: 9, col: 1 }.to_string(), "B10");
    assert_eq!(far.to_fixed(), far);
}

#[test]
fn range_needs_a_shared_axis() {
    assert_eq!(CellArray::new(cp_1(), cp_4()).err(), Some(Error::InvalidRange));
    assert_eq!(CellArray::new(cp_2(), cp_3()).err(), Some(Error::InvalidRange));
    assert!(CellArray::new(cp_1(), cp_1()).is_ok());
    assert!(CellArray::new(cp_1(), cp_3()).is_ok());
    let kept = CellArray::new(cp_1(), cp_2()).unwrap();
    assert_eq!(kept.from(), cp_1());
    assert_eq!(kept.to(), cp_2());
}

#[test]
fn range_length_counts_both_ends() {
    assert_eq!(CellArray::new(cp_1(), cp_2()).unwrap().len(), 101);
    assert_eq!(CellArray::new(cp_2(), cp_1()).unwrap().len(), 101);
    assert_eq!(CellArray::new(cp_1(), cp_3()).unwrap().len(), 11);
    assert_eq!(CellArray::new(cp_1(), cp_1()).unwrap().len(), 1);
    let first = CellPosition { row: 0, col: 0 }.relative_ref();
    let last = CellPosition { row: u32::MAX, col: 0 }.relative_ref();
    assert_eq!(CellArray::new(first, last).unwrap().len(), 4294967296);
}

#[test]
fn sum_product_needs_equal_lengths() {
    let long = CellArray::new(cp_1(), cp_2()).unwrap();
    let short = CellArray::new(cp_1(), cp_3()).unwrap();
    assert_eq!(CellExpr::sum_product(long, short).err(), Some(Error::DimensionMismatch));
    assert!(CellExpr::sum_product(long, long).is_ok());
    let direct = CellExpr::SumProduct(long, short);
    assert_eq!(direct.to_string(), Err(Error::DimensionMismatch));
    assert_eq!(CellValue::Expr(direct).to_string(), Err(Error::DimensionMismatch));
    // a row against a column of the same length
    let row = CellArray::new(
        CellPosition { row: 1, col: 1 }.relative_ref(),
        CellPosition { row: 1, col: 3 }.relative_ref(),
    )
    .unwrap();
    let column = CellArray::new(
        CellPosition { row: 4, col: 0 }.relative_ref(),
        CellPosition { row: 6, col: 0 }.relative_ref(),
    )
    .unwrap();
    assert_eq!(
        CellExpr::SumProduct(row, column).to_string().unwrap(),
        "SUMPRODUCT(B2:D2,A5:A7)"
    );
}

#[test]
fn failure_of_the_left_operand_comes_first() {
    let long = CellArray::new(cp_1(), cp_2()).unwrap();
    let short = CellArray::new(cp_1(), cp_3()).unwrap();
    let huge = Decimal::from_parts(false, 0xFFFF_FFFF_FFFF_FFFF_FFFF_FFFF, 0).unwrap();
    let left = CellExpr::Percentage(huge);
    let right = CellExpr::SumProduct(long, short);
    let both = CellExpr::BinaryOp(BinOp::Sub, Box::new(left.clone()), Box::new(right.clone()));
    assert_eq!(both.to_string(), Err(Error::Overflow));
    let other = CellExpr::BinaryOp(BinOp::Sub, Box::new(right), Box::new(left));
    assert_eq!(other.to_string(), Err(Error::DimensionMismatch));
}

#[test]
fn operators_have_their_symbols() {
    assert_eq!(BinOp::Add.to_string(), "+");
    assert_eq!(BinOp::Sub.to_string(), "-");
    assert_eq!(BinOp::Div.to_string(), "/");
    assert_eq!(BinOp::Mult.to_string(), "*");
    let a = CellExpr::Ref(CellPosition { row: 0, col: 0 }.relative_ref());
    let b = CellExpr::Ref(CellPosition { row: 1, col: 1 }.fixed_ref());
    let nested = CellExpr::BinaryOp(
        BinOp::Div,
        Box::new(CellExpr::BinaryOp(BinOp::Sub, Box::new(a.clone()), Box::new(b.clone()))),
        Box::new(CellExpr::BinaryOp(BinOp::Add, Box::new(b), Box::new(a))),
    );
    assert_eq!(nested.to_string().unwrap(), "((A1-$B$2)/($B$2+A1))");
}

#[test]
fn numbers_round_half_to_even_at_three_places() {
    let shown = |num: i64, scale: u32| CellExpr::Number(Decimal::new(num, scale)).to_string().unwrap();
    assert_eq!(shown(3, 0), "3");
    assert_eq!(shown(30, 1), "3.0");
    assert_eq!(shown(3141, 3), "3.141");
    assert_eq!(shown(31415, 4), "3.142");
    assert_eq!(shown(30005, 4), "3.000");
    assert_eq!(shown(30015, 4), "3.002");
    assert_eq!(shown(30025, 4), "3.002");
    assert_eq!(shown(300251, 5), "3.003");
    assert_eq!(shown(-30015, 4), "-3.002");
    assert_eq!(shown(-4, 4), "0.000");
    assert_eq!(shown(0, 5), "0.000");
    assert_eq!(shown(5, 1), "0.5");
}

#[test]
fn percentages_scale_round_and_end_in_a_percent_sign() {
    let shown =
        |num: i64, scale: u32| CellExpr::Percentage(Decimal::new(num, scale)).to_string().unwrap();
    assert_eq!(shown(1234567, 7), "12.346%");
    assert_eq!(shown(12345, 5), "12.345%");
    assert_eq!(shown(123445, 6), "12.344%");
    assert_eq!(shown(123455, 6), "12.346%");
    assert_eq!(shown(1, 0), "100%");
    assert_eq!(shown(5, 1), "50.0%");
    assert_eq!(shown(65, 2), "65.00%");
    assert_eq!(shown(0, 3), "0%");
    assert_eq!(shown(-25, 2), "-25.00%");
}

#[test]
fn cell_values_have_their_text() {
    assert_eq!(text("flour").to_string().unwrap(), "flour");
    assert_eq!(CellValue::Empty.to_string().unwrap(), "");
    let number = CellValue::Expr(CellExpr::Number(Decimal::new(25, 1)));
    assert_eq!(number.to_string().unwrap(), "=2.5");
    let copy = number.clone();
    assert_eq!(copy.to_string().unwrap(), "=2.5");
}

#[test]
fn grid_is_dense_and_ends_each_row_with_a_line_feed() {
    let cells = vec![
        cell(1, 2, text("c")),
        cell(0, 0, text("a")),
        cell(2, 1, CellValue::Expr(CellExpr::Number(Decimal::new(7, 0)))),
        cell(0, 1, CellValue::Empty),
    ];
    assert_eq!(csv_cells_to_grid(&cells).unwrap(), "a,,\n,,c\n,=7,\n");
}

#[test]
fn grid_of_no_cells_is_one_empty_row() {
    assert_eq!(csv_cells_to_grid(&Vec::new()).unwrap(), "\n");
    assert_eq!(csv_cells_to_grid(&vec![cell(0, 0, text("x"))]).unwrap(), "x\n");
    assert_eq!(csv_cells_to_grid(&vec![cell(0, 3, text("x"))]).unwrap(), ",,,x\n");
    assert_eq!(csv_cells_to_grid(&vec![cell(2, 0, text("x"))]).unwrap(), "\n\nx\n");
}

#[test]
fn overlapping_cells_are_refused() {
    let cells = vec![cell(1, 1, text("first")), cell(0, 0, text("a")), cell(1, 1, text("second"))];
    assert_eq!(
        csv_cells_to_grid(&cells),
        Err(Error::OverlappingCells(CellPosition { row: 1, col: 1 }))
    );
    // of two places taken twice, the one that is taken twice first
    let cells = vec![
        cell(2, 2, text("a")),
        cell(1, 1, text("b")),
        cell(1, 1, text("c")),
        cell(2, 2, text("d")),
    ];
    assert_eq!(
        csv_cells_to_grid(&cells),
        Err(Error::OverlappingCells(CellPosition { row: 1, col: 1 }))
    );
    // even where the cells agree, and before any value is looked at
    let long = CellArray::new(cp_1(), cp_2()).unwrap();
    let short = CellArray::new(cp_1(), cp_3()).unwrap();
    let cells = vec![
        cell(0, 0, CellValue::Expr(CellExpr::SumProduct(long, short))),
        cell(3, 4, CellValue::Empty),
        cell(3, 4, CellValue::Empty),
    ];
    assert_eq!(
        csv_cells_to_grid(&cells),
        Err(Error::OverlappingCells(CellPosition { row: 3, col: 4 }))
    );
    // the same row or the same column alone is no overlap
    let cells = vec![cell(1, 1, text("a")), cell(1, 2, text("b")), cell(2, 1, text("c"))];
    assert_eq!(csv_cells_to_grid(&cells).unwrap(), ",,\n,a,b\n,c,\n");
}

#[test]
fn a_cell_without_text_fails_the_grid() {
    let long = CellArray::new(cp_1(), cp_2()).unwrap();
    let short = CellArray::new(cp_1(), cp_3()).unwrap();
    let huge = Decimal::from_parts(false, 0xFFFF_FFFF_FFFF_FFFF_FFFF_FFFF, 0).unwrap();
    let cells = vec![
        cell(5, 5, text("fine")),
        cell(9, 9, CellValue::Expr(CellExpr::SumProduct(long, short))),
        cell(0, 0, CellValue::Expr(CellExpr::Percentage(huge))),
    ];
    assert_eq!(csv_cells_to_grid(&cells), Err(Error::DimensionMismatch));
    let cells = vec![
        cell(0, 0, CellValue::Expr(CellExpr::Percentage(huge))),
        cell(9, 9, CellValue::Expr(CellExpr::SumProduct(long, short))),
    ];
    assert_eq!(csv_cells_to_grid(&cells), Err(Error::Overflow));
}

#[test]
fn grid_reads_back_to_its_fields() {
    let cells = vec![
        cell(0, 0, text("name")),
        cell(0, 2, text("share")),
        cell(1, 0, text("flour")),
        cell(1, 2, CellValue::Expr(CellExpr::Percentage(Decimal::new(1, 0)))),
        cell(3, 1, CellValue::Expr(CellExpr::Ref(CellPosition { row: 1, col: 0 }.fixed_ref()))),
    ];
    let grid = csv_cells_to_grid(&cells).unwrap();
    assert!(grid.ends_with('\n'));
    let lines: Vec<&str> = grid[..grid.len() - 1].split('\n').collect();
    assert_eq!(lines.len(), 4);
    for (row, line) in lines.iter().enumerate() {
        let fields: Vec<&str> = line.split(',').collect();
        assert_eq!(fields.len(), 3);
        for (col, field) in fields.iter().enumerate() {
            let expected = cells
                .iter()
                .find(|c| c.position.row as usize == row && c.position.col as usize == col)
                .map(|c| c.value.to_string().unwrap())
                .unwrap_or_default();
            assert_eq!(*field, expected);
        }
    }
}

#[test]
fn errors_have_their_messages() {
    assert_eq!(
        Error::CyclicReference(String::from("levain")).to_string(),
        "Component may not be self referencing (directly or indirectly): levain"
    );
    assert_eq!(
        Error::DisconnectedComponent(String::from("soaker")).to_string(),
        "mix must reference all components directly or indirectly: soaker"
    );
    assert_eq!(
        Error::OverlappingCells(CellPosition { row: 4, col: 27 }).to_string(),
        "csv grid cannot contain overlapping CSVCells: BB5"
    );
    assert_eq!(
        Error::DuplicateIngredientName(String::from("rye")).to_string(),
        "Duplicate component names are not allowed: rye"
    );
    assert_eq!(
        Error::ZeroFlour(String::from("mix")).to_string(),
        "Component has ingredients but no flour mass: mix"
    );
    assert_eq!(
        Error::MissingRootComponent.to_string(),
        "Must be exactly one component named 'mix'"
    );
    assert_eq!(
        Error::InvalidRange.to_string(),
        "CellArray: either 'from' or 'to' must have same value"
    );
    assert_eq!(
        Error::DimensionMismatch.to_string(),
        "SumProduct: CellArrays cannot be if different length."
    );
    assert_eq!(Error::Overflow.to_string(), "Value out of range");
    assert_eq!(Error::ZeroFlour(String::from("mix")).kind(), ErrorKind::ZeroFlour);
    assert_eq!(Error::Overflow.kind(), ErrorKind::Overflow);
    assert_eq!(ErrorKind::OverlappingCells.to_string(), "csv grid cannot contain overlapping CSVCells");
    let e = Error::CyclicReference(String::from("a"));
    assert_eq!(e.clone(), e);
}
