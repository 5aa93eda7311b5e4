use baking_formula::csv_cell::{csv_cells_to_grid, CSVCell, CellPosition, CellValue};
use baking_formula::decimal::Decimal;
use baking_formula::dough::{DoughFormula, Recipe, RecipeComponent, RecipeIngredient};
use baking_formula::error::Error;
use baking_formula::layout::formula_grid;
use baking_formula::mass::component_mass;
use baking_formula::text::to_csv_col;

fn generator(mut seed: u64) -> impl FnMut() -> u64 {
    move || {
        seed ^= seed << 13;
        seed ^= seed >> 7;
        seed ^= seed << 17;
        seed
    }
}

#[test]
fn grids_are_assembled_field_by_field() {
    let mut next = generator(0xD1B54A32D192ED03);
    for _ in 0..2000 {
        let count = (next() % 12) as usize;
        let mut cells = Vec::new();
        for i in 0..count {
            let position = CellPosition { row: (next() % 5) as u32, col: (next() % 5) as u32 };
            cells.push(CSVCell { value: CellValue::Str(format!("v{}", i)), position });
        }
        let clash = (0..count).find(|&j| (0..j).any(|i| cells[i].position == cells[j].position));
        let expected = match clash {
            Some(j) => Err(Error::OverlappingCells(cells[j].position)),
            None => {
                let rows = cells.iter().map(|c| c.position.row).max().unwrap_or(0) + 1;
                let cols = cells.iter().map(|c| c.position.col).max().unwrap_or(0) + 1;
                let mut text = String::new();
                for row in 0..rows {
                    let fields: Vec<String> = (0..cols)
                        .map(|col| {
                            cells
                                .iter()
                                .position(|c| c.position == CellPosition { row, col })
                                .map(|i| format!("v{}", i))
                                .unwrap_or_default()
                        })
                        .collect();
                    text.push_str(&fields.join(","));
                    text.push('\n');
                }
                Ok(text)
            }
        };
        assert_eq!(csv_cells_to_grid(&cells), expected);
    }
}

/// A recipe whose component `i` has some of the components behind it as
/// ingredients: `c0` is `mix`.
fn layered(next: &mut impl FnMut() -> u64) -> (Recipe, Vec<Vec<usize>>) {
    let n = 1 + (next() % 6) as usize;
    let name = |i: usize| if i == 0 { String::from("mix") } else { format!("c{}", i) };
    let mut links = vec![Vec::new(); n];
    let mut components = Vec::new();
    for i in 0..n {
        let mut ingredients = vec![RecipeIngredient {
            name: String::from("flour"),
            mass: Decimal::new(100, 0),
            is_flour: true,
        }];
        for j in (i + 1..n).rev() {
            // every component is an ingredient of the one before it, and of others by chance
            if j == i + 1 || next() % 3 == 0 {
                links[i].push(j);
                ingredients.push(RecipeIngredient {
                    name: name(j),
                    mass: Decimal::new(10, 0),
                    is_flour: false,
                });
            }
        }
        components.push(RecipeComponent { name: name(i), ingredients });
    }
    (Recipe { name: String::from("layered"), components }, links)
}

/// The sum over the trails from `mix`, depth first, of the products along
/// them, written out as the text of the formula.
fn gather(
    u: usize,
    links: &Vec<Vec<usize>>,
    cell: &dyn Fn(usize, usize) -> String,
    trail: &mut Vec<String>,
    texts: &mut Vec<Option<String>>,
) {
    for &v in &links[u] {
        trail.push(cell(u, v));
        let mut product = trail[trail.len() - 1].clone();
        for factor in trail[..trail.len() - 1].iter().rev() {
            product = format!("({}*{})", factor, product);
        }
        texts[v] = Some(match texts[v].take() {
            Some(sum) => format!("({}+{})", sum, product),
            None => product,
        });
        gather(v, links, cell, trail, texts);
        trail.pop();
    }
}

#[test]
fn masses_sum_the_products_of_all_trails() {
    let mut next = generator(0xA0761D6478BD642F);
    for _ in 0..300 {
        let (recipe, links) = layered(&mut next);
        let formula = match DoughFormula::from_recipe(&recipe) {
            Ok(formula) => formula,
            Err(e) => panic!("{}", e.to_string()),
        };
        let order = formula.ingredient_order().clone();
        let columns = formula.column_order().clone();
        let cell = |u: usize, v: usize| {
            let row = order.iter().position(|n| *n == recipe.components[v].name).unwrap();
            let col = columns.iter().position(|c| *c == u).unwrap();
            format!("${}${}", to_csv_col(2 * col as u32 + 1), row + 3)
        };
        let mut expected = vec![None; links.len()];
        gather(0, &links, &cell, &mut Vec::new(), &mut expected);
        let masses = component_mass(&formula);
        let texts: Vec<Option<String>> =
            masses.iter().map(|m| m.as_ref().map(|e| e.to_string().unwrap())).collect();
        assert_eq!(texts, expected);
        assert!(texts[0].is_none());
        assert!(texts[1..].iter().all(|t| t.is_some()));
        // and the grid has a row for each ingredient and for the totals, after two rows of headers
        let grid = formula_grid(&formula).unwrap();
        let n = order.len();
        let k = columns.len();
        let mut expected = String::new();
        for row in 0..n + 3 {
            let mut fields = Vec::new();
            for col in 0..2 * k + 2 {
                let ingredient = if (2..n + 2).contains(&row) { Some(row - 2) } else { None };
                let component = if col % 2 == 1 && col < 2 * k { Some(columns[col / 2]) } else { None };
                let letter = to_csv_col(col as u32);
                fields.push(match (ingredient, component) {
                    (Some(i), _) if col == 0 => order[i].clone(),
                    (Some(_), _) if col == 2 * k + 1 => format!("=A{}", row + 1),
                    (Some(i), Some(c)) => match formula.share_of(c, &order[i]) {
                        Some(share) => {
                            let percent = share.percentage().checked_mul(&Decimal::new(100, 0));
                            format!("={}%", percent.unwrap().round_dp(3).to_string())
                        }
                        None => String::new(),
                    },
                    (None, Some(_)) if row == n + 2 => {
                        format!("=SUM({}3:{}{})", letter, letter, n + 2)
                    }
                    _ => String::new(),
                });
            }
            expected.push_str(&fields.join(","));
            expected.push('\n');
        }
        assert_eq!(grid, expected);
    }
}
