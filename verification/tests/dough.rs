use baking_formula::csv_cell::{CellExpr, CellValue};
use baking_formula::decimal::Decimal;
use baking_formula::dough::{
    ingredient_order, DoughFormula, Ingredient, Recipe, RecipeComponent, RecipeIngredient,
};
use baking_formula::error::Error;
use baking_formula::graph::{bfs_order, lies_on_cycle, validate_structure, Flaw};
use baking_formula::layout::{
    component_percentages, component_totals, formula_cells, formula_grid, ingredient_label_cells,
};
use baking_formula::mass::component_mass;
use baking_formula::names::{find_name, sort_descending, sorts_before};

fn ingredient(name: &str, mass: i64, is_flour: bool) -> RecipeIngredient {
    RecipeIngredient { name: String::from(name), mass: Decimal::new(mass, 0), is_flour }
}

fn component(name: &str, ingredients: Vec<RecipeIngredient>) -> RecipeComponent {
    RecipeComponent { name: String::from(name), ingredients }
}

fn recipe(components: Vec<RecipeComponent>) -> Recipe {
    Recipe { name: String::from("bread"), components }
}

fn name(s: &str) -> String {
    String::from(s)
}

fn names(list: &[&str]) -> Vec<String> {
    list.iter().map(|s| String::from(*s)).collect()
}

fn valid_1() -> Recipe {
    recipe(vec![
        component(
            "mix",
            vec![
                ingredient("flour", 1000, true),
                ingredient("water", 650, false),
                ingredient("salt", 20, false),
                ingredient("poolish", 200, false),
            ],
        ),
        component(
            "poolish",
            vec![
                ingredient("flour", 100, true),
                ingredient("water", 100, false),
                ingredient("yeast", 1, false),
            ],
        ),
    ])
}

fn valid_branches() -> Recipe {
    recipe(vec![
        component(
            "mix",
            vec![ingredient("flour", 100, true), ingredient("A", 50, false), ingredient("B", 50, false)],
        ),
        component("A", vec![ingredient("flour", 100, true), ingredient("water", 50, false)]),
        component("B", vec![ingredient("flour", 100, true), ingredient("A", 10, false)]),
    ])
}

fn cycle() -> Recipe {
    recipe(vec![
        component("mix", vec![ingredient("flour", 100, true), ingredient("A", 50, false)]),
        component("A", vec![ingredient("flour", 100, true), ingredient("mix", 10, false)]),
    ])
}

fn disconnected() -> Recipe {
    recipe(vec![
        component("mix", vec![ingredient("flour", 100, true), ingredient("water", 50, false)]),
        component("levain", vec![ingredient("flour", 100, true), ingredient("water", 100, false)]),
    ])
}

fn formula_or_panic(recipe: &Recipe) -> DoughFormula {
    match DoughFormula::from_recipe(recipe) {
        Ok(formula) => formula,
        Err(e) => panic!("{}", e.to_string()),
    }
}

#[test]
fn test_simple() {
    formula_or_panic(&valid_1());
    formula_or_panic(&valid_branches());
}

#[test]
#[should_panic(expected = "self referencing")]
fn test_cycle() {
    formula_or_panic(&cycle());
}

#[test]
#[should_panic(expected = "mix must reference all components")]
fn test_disconnected() {
    formula_or_panic(&disconnected());
}

#[test]
fn cycle_and_gap_are_told_apart() {
    assert_eq!(DoughFormula::from_recipe(&cycle()).err(), Some(Error::CyclicReference(name("mix"))));
    assert_eq!(
        DoughFormula::from_recipe(&disconnected()).err(),
        Some(Error::DisconnectedComponent(name("levain")))
    );
    // a component that consumes itself
    let own = recipe(vec![component(
        "mix",
        vec![ingredient("flour", 100, true), ingredient("mix", 5, false)],
    )]);
    assert_eq!(DoughFormula::from_recipe(&own).err(), Some(Error::CyclicReference(name("mix"))));
    // a cycle further down, and a component out of reach: the cycle comes first
    let both = recipe(vec![
        component("mix", vec![ingredient("flour", 100, true), ingredient("A", 5, false)]),
        component("A", vec![ingredient("flour", 100, true), ingredient("B", 5, false)]),
        component("B", vec![ingredient("flour", 100, true), ingredient("A", 5, false)]),
        component("C", vec![ingredient("flour", 100, true)]),
    ]);
    assert_eq!(DoughFormula::from_recipe(&both).err(), Some(Error::CyclicReference(name("A"))));
    // of the components on a cycle, the one that the recipe names first
    let late = recipe(vec![
        component("mix", vec![ingredient("flour", 100, true), ingredient("C", 5, false)]),
        component("A", vec![ingredient("flour", 100, true), ingredient("B", 5, false)]),
        component("B", vec![ingredient("flour", 100, true), ingredient("A", 5, false)]),
        component("C", vec![ingredient("flour", 100, true), ingredient("B", 5, false)]),
    ]);
    assert_eq!(DoughFormula::from_recipe(&late).err(), Some(Error::CyclicReference(name("A"))));
    // a cycle that mix does not reach is a gap
    let apart = recipe(vec![
        component("mix", vec![ingredient("flour", 100, true)]),
        component("A", vec![ingredient("flour", 100, true), ingredient("B", 5, false)]),
        component("B", vec![ingredient("flour", 100, true), ingredient("A", 5, false)]),
    ]);
    assert_eq!(
        DoughFormula::from_recipe(&apart).err(),
        Some(Error::DisconnectedComponent(name("A")))
    );
    // two ways to one component are no cycle
    assert!(DoughFormula::from_recipe(&valid_branches()).is_ok());
}

#[test]
fn a_recipe_needs_exactly_one_mix() {
    let none = recipe(vec![component("dough", vec![ingredient("flour", 100, true)])]);
    assert_eq!(DoughFormula::from_recipe(&none).err(), Some(Error::MissingRootComponent));
    assert_eq!(DoughFormula::from_recipe(&recipe(vec![])).err(), Some(Error::MissingRootComponent));
    let two = recipe(vec![
        component("mix", vec![ingredient("flour", 100, true)]),
        component("mix", vec![ingredient("flour", 200, true)]),
    ]);
    assert_eq!(DoughFormula::from_recipe(&two).err(), Some(Error::MissingRootComponent));
    let bare = recipe(vec![component("mix", vec![])]);
    assert!(DoughFormula::from_recipe(&bare).is_ok());
}

#[test]
fn an_ingredient_is_flour_or_not() {
    let both = recipe(vec![
        component("mix", vec![ingredient("flour", 100, true), ingredient("rye", 10, false)]),
        component("soaker", vec![ingredient("rye", 100, true)]),
    ]);
    assert_eq!(
        DoughFormula::from_recipe(&both).err(),
        Some(Error::DuplicateIngredientName(name("rye")))
    );
    // the classification is checked before the graph
    let both = recipe(vec![
        component("mix", vec![ingredient("flour", 100, true), ingredient("mix", 10, false)]),
        component("soaker", vec![ingredient("mix", 100, true)]),
    ]);
    assert_eq!(
        DoughFormula::from_recipe(&both).err(),
        Some(Error::DuplicateIngredientName(name("mix")))
    );
    // of two such names, the one that is first among the flours
    let two = recipe(vec![component(
        "mix",
        vec![
            ingredient("a", 1, false),
            ingredient("b", 1, false),
            ingredient("flour", 1, true),
            ingredient("b", 1, true),
            ingredient("a", 1, true),
        ],
    )]);
    assert_eq!(
        DoughFormula::from_recipe(&two).err(),
        Some(Error::DuplicateIngredientName(name("b")))
    );
}

#[test]
fn shares_need_flour() {
    let none = recipe(vec![component("mix", vec![ingredient("water", 100, false)])]);
    assert_eq!(DoughFormula::from_recipe(&none).err(), Some(Error::ZeroFlour(name("mix"))));
    let zero = recipe(vec![component("mix", vec![ingredient("flour", 0, true)])]);
    assert_eq!(DoughFormula::from_recipe(&zero).err(), Some(Error::ZeroFlour(name("mix"))));
    let second = recipe(vec![
        component("mix", vec![ingredient("flour", 1, true), ingredient("soaker", 1, false)]),
        component("soaker", vec![ingredient("seeds", 1, false)]),
        component("other", vec![ingredient("water", 1, false)]),
    ]);
    assert_eq!(DoughFormula::from_recipe(&second).err(), Some(Error::ZeroFlour(name("soaker"))));
    let largest = Decimal::from_parts(false, 0xFFFF_FFFF_FFFF_FFFF_FFFF_FFFF, 0).unwrap();
    let heavy = recipe(vec![component(
        "mix",
        vec![
            RecipeIngredient { name: String::from("flour"), mass: largest, is_flour: true },
            ingredient("spelt", 1, true),
        ],
    )]);
    assert_eq!(DoughFormula::from_recipe(&heavy).err(), Some(Error::Overflow));
    let tiny = Decimal::from_parts(false, 1, 28).unwrap();
    let steep = recipe(vec![component(
        "mix",
        vec![
            RecipeIngredient { name: String::from("flour"), mass: tiny, is_flour: true },
            RecipeIngredient { name: String::from("water"), mass: largest, is_flour: false },
        ],
    )]);
    assert_eq!(DoughFormula::from_recipe(&steep).err(), Some(Error::Overflow));
}

#[test]
fn shares_are_masses_over_the_flour_of_the_component() {
    let formula = formula_or_panic(&valid_1());
    assert_eq!(formula.name(), "bread");
    assert_eq!(*formula.component_names(), names(&["mix", "poolish"]));
    assert_eq!(formula.root(), 0);
    assert_eq!(formula.ingredient_names(0), names(&["flour", "water", "salt", "poolish"]));
    assert_eq!(formula.ingredient_names(1), names(&["flour", "water", "yeast"]));
    assert!(formula.ingredient_names(2).is_empty());
    let share = |c: usize, name: &str| formula.share_of(c, &String::from(name));
    match share(0, "water") {
        Some(Ingredient::NonFlour(x)) => assert_eq!(x.to_string(), "0.65"),
        _ => panic!("water is an ingredient of mix"),
    }
    match share(0, "flour") {
        Some(Ingredient::Flour(x)) => assert_eq!(x.to_string(), "1"),
        _ => panic!("flour is the flour of mix"),
    }
    match share(1, "yeast") {
        Some(x) => assert_eq!(x.percentage().to_string(), "0.01"),
        None => panic!("yeast is an ingredient of poolish"),
    }
    assert!(share(0, "yeast").is_none());
    assert!(share(2, "flour").is_none());
}

#[test]
fn flour_is_summed_over_all_flours() {
    let two = recipe(vec![component(
        "mix",
        vec![
            ingredient("wheat", 750, true),
            ingredient("rye", 250, true),
            ingredient("water", 700, false),
        ],
    )]);
    let formula = formula_or_panic(&two);
    let share = |name: &str| formula.share_of(0, &String::from(name)).unwrap().percentage();
    assert_eq!(share("wheat").to_string(), "0.75");
    assert_eq!(share("rye").to_string(), "0.25");
    assert_eq!(share("water").to_string(), "0.70");
}

#[test]
fn a_name_that_comes_again_takes_the_place_of_the_first() {
    let again = recipe(vec![
        component("mix", vec![ingredient("flour", 100, true), ingredient("water", 50, false)]),
        component("levain", vec![ingredient("flour", 100, true)]),
        component(
            "levain",
            vec![
                ingredient("flour", 200, true),
                ingredient("water", 100, false),
                ingredient("water", 50, false),
            ],
        ),
        component("rest", vec![ingredient("flour", 1, true)]),
    ]);
    // levain and rest are out of reach of mix
    assert_eq!(
        DoughFormula::from_recipe(&again).err(),
        Some(Error::DisconnectedComponent(name("levain")))
    );
    let again = recipe(vec![
        component("mix", vec![ingredient("flour", 100, true), ingredient("levain", 50, false)]),
        component("levain", vec![ingredient("flour", 100, true)]),
        component(
            "levain",
            vec![
                ingredient("flour", 200, true),
                ingredient("water", 100, false),
                ingredient("water", 50, false),
            ],
        ),
    ]);
    let formula = formula_or_panic(&again);
    assert_eq!(*formula.component_names(), names(&["mix", "levain"]));
    assert_eq!(formula.ingredient_names(1), names(&["flour", "water"]));
    let water = formula.share_of(1, &String::from("water")).unwrap().percentage();
    assert_eq!(water.to_string(), "0.25");
}

#[test]
fn ingredients_are_ordered_flours_first_and_downwards() {
    let formula = formula_or_panic(&valid_1());
    assert_eq!(*formula.ingredient_order(), names(&["flour", "yeast", "water", "salt", "poolish"]));
    let formula = formula_or_panic(&valid_branches());
    assert_eq!(*formula.ingredient_order(), names(&["flour", "water", "B", "A"]));
    let flours = recipe(vec![component(
        "mix",
        vec![
            ingredient("rye", 1, true),
            ingredient("wheat", 1, true),
            ingredient("water", 1, false),
            ingredient("spelt", 1, true),
            ingredient("salt", 1, false),
        ],
    )]);
    assert_eq!(
        *formula_or_panic(&flours).ingredient_order(),
        names(&["wheat", "spelt", "rye", "water", "salt"])
    );
}

#[test]
fn the_order_of_two_lists() {
    let flour = names(&["rye", "wheat"]);
    let other = names(&["salt", "water", "levain"]);
    assert_eq!(
        ingredient_order(&flour, &other),
        Ok(names(&["wheat", "rye", "water", "salt", "levain"]))
    );
    assert_eq!(ingredient_order(&Vec::new(), &Vec::new()), Ok(Vec::new()));
    assert_eq!(ingredient_order(&Vec::new(), &other), Ok(names(&["water", "salt", "levain"])));
    let other = names(&["salt", "wheat", "rye"]);
    assert_eq!(
        ingredient_order(&flour, &other),
        Err(Error::DuplicateIngredientName(name("rye")))
    );
}

#[test]
fn names_sort_by_their_bytes() {
    let before = |a: &str, b: &str| sorts_before(&String::from(a), &String::from(b));
    assert!(before("a", "b"));
    assert!(!before("b", "a"));
    assert!(!before("a", "a"));
    assert!(before("", "a"));
    assert!(!before("", ""));
    assert!(before("ab", "abc"));
    assert!(before("Z", "a"));
    assert!(before("z", "é"));
    assert!(before("é", "日"));
    let list = names(&["salt", "Water", "yeast", "", "salt", "é", "sal"]);
    assert_eq!(sort_descending(&list), names(&["é", "yeast", "salt", "sal", "Water", ""]));
    let mut expected = list.clone();
    expected.sort();
    expected.dedup();
    expected.reverse();
    assert_eq!(sort_descending(&list), expected);
    assert_eq!(find_name(&list, &String::from("salt")), Some(0));
    assert_eq!(find_name(&list, &String::from("")), Some(3));
    assert_eq!(find_name(&list, &String::from("water")), None);
}

#[test]
fn components_are_ordered_breadth_first() {
    let formula = formula_or_panic(&valid_1());
    assert_eq!(formula.bfs_components(), names(&["mix", "poolish"]));
    assert_eq!(formula.component_order(), names(&["poolish", "mix"]));
    assert_eq!(*formula.column_order(), vec![1, 0]);
    let formula = formula_or_panic(&valid_branches());
    assert_eq!(formula.bfs_components(), names(&["mix", "A", "B"]));
    assert_eq!(formula.component_order(), names(&["B", "A", "mix"]));
    assert_eq!(*formula.links(), vec![vec![1, 2], vec![], vec![1]]);
    let deep = recipe(vec![
        component("c", vec![ingredient("flour", 1, true)]),
        component("b", vec![ingredient("flour", 1, true), ingredient("c", 1, false)]),
        component("a", vec![ingredient("flour", 1, true), ingredient("d", 1, false)]),
        component("d", vec![ingredient("flour", 1, true)]),
        component(
            "mix",
            vec![ingredient("a", 1, false), ingredient("flour", 1, true), ingredient("b", 1, false)],
        ),
    ]);
    let formula = formula_or_panic(&deep);
    assert_eq!(formula.root(), 4);
    assert_eq!(formula.bfs_components(), names(&["mix", "a", "b", "d", "c"]));
    assert_eq!(formula.component_order(), names(&["c", "d", "b", "a", "mix"]));
}

#[test]
fn graphs_are_judged_from_their_root() {
    let chain = vec![vec![1], vec![2], vec![]];
    assert_eq!(validate_structure(&chain, 0), Ok(()));
    assert_eq!(validate_structure(&chain, 1), Err(Flaw::Gap(0)));
    let ring = vec![vec![1], vec![2], vec![0]];
    assert_eq!(validate_structure(&ring, 0), Err(Flaw::Cycle(0)));
    assert_eq!(validate_structure(&ring, 2), Err(Flaw::Cycle(0)));
    let own = vec![vec![0]];
    assert_eq!(validate_structure(&own, 0), Err(Flaw::Cycle(0)));
    let tail = vec![vec![1], vec![2], vec![1], vec![]];
    assert_eq!(validate_structure(&tail, 0), Err(Flaw::Cycle(1)));
    let gaps = vec![vec![2], vec![], vec![], vec![]];
    assert_eq!(validate_structure(&gaps, 0), Err(Flaw::Gap(1)));
    let diamond = vec![vec![1, 2], vec![3], vec![3], vec![]];
    assert_eq!(validate_structure(&diamond, 0), Ok(()));
    assert_eq!(bfs_order(&diamond, 0), vec![0, 1, 2, 3]);
    assert_eq!(bfs_order(&diamond, 2), vec![2, 3]);
    let wide = vec![vec![3, 1], vec![2], vec![], vec![2, 1]];
    assert_eq!(bfs_order(&wide, 0), vec![0, 3, 1, 2]);
    assert_eq!(bfs_order(&ring, 1), vec![1, 2, 0]);
    assert!(lies_on_cycle(&tail, 1));
    assert!(lies_on_cycle(&tail, 2));
    assert!(!lies_on_cycle(&tail, 0));
    assert!(!lies_on_cycle(&tail, 3));
    assert!(lies_on_cycle(&own, 0));
    let late = vec![vec![3], vec![2], vec![1], vec![2]];
    assert_eq!(validate_structure(&late, 0), Err(Flaw::Cycle(1)));
    let twice = vec![vec![1, 1], vec![]];
    assert_eq!(validate_structure(&twice, 0), Ok(()));
    assert_eq!(bfs_order(&twice, 0), vec![0, 1]);
}

fn shown(cells: &[baking_formula::csv_cell::CSVCell]) -> Vec<(u32, u32, String)> {
    cells
        .iter()
        .map(|c| (c.position.row, c.position.col, c.value.to_string().unwrap()))
        .collect()
}

fn at(row: u32, col: u32, text: &str) -> (u32, u32, String) {
    (row, col, String::from(text))
}

#[test]
fn labels_stand_on_both_edges() {
    let cells = ingredient_label_cells(&names(&["flour", "water"]), 3);
    assert_eq!(
        shown(&cells),
        vec![at(2, 0, "flour"), at(2, 7, "=A3"), at(3, 0, "water"), at(3, 7, "=A4")]
    );
    assert!(ingredient_label_cells(&Vec::new(), 3).is_empty());
}

#[test]
fn totals_sum_the_rows_of_the_ingredients() {
    let cells = component_totals(&names(&["poolish", "mix"]), 5);
    assert_eq!(shown(&cells), vec![at(7, 1, "=SUM(B3:B7)"), at(7, 3, "=SUM(D3:D7)")]);
    let one = component_totals(&names(&["mix"]), 1);
    assert_eq!(shown(&one), vec![at(3, 1, "=SUM(B3:B3)")]);
    let none = component_totals(&names(&["mix"]), 0);
    assert_eq!(shown(&none), vec![at(2, 1, "=SUM(B3:B2)")]);
}

#[test]
fn shares_stand_in_the_row_of_the_ingredient() {
    let formula = formula_or_panic(&valid_1());
    let table = component_percentages(&formula);
    assert_eq!(table.len(), 2);
    assert_eq!(shown(&table[0]), vec![at(2, 1, "=100%"), at(3, 1, "=1.00%"), at(4, 1, "=100%")]);
    assert_eq!(
        shown(&table[1]),
        vec![at(2, 3, "=100%"), at(4, 3, "=65.00%"), at(5, 3, "=2.00%"), at(6, 3, "=20.00%")]
    );
}

#[test]
fn the_grid_of_a_formula() {
    let formula = formula_or_panic(&valid_1());
    let cells = formula_cells(&formula);
    assert_eq!(cells.len(), 2 + 7 + 10);
    let expected = [
        ",,,,,",
        ",,,,,",
        "flour,=100%,,=100%,,=A3",
        "yeast,=1.00%,,,,=A4",
        "water,=100%,,=65.00%,,=A5",
        "salt,,,=2.00%,,=A6",
        "poolish,,,=20.00%,,=A7",
        ",=SUM(B3:B7),,=SUM(D3:D7),,",
        "",
    ]
    .join("\n");
    assert_eq!(formula_grid(&formula).unwrap(), expected);
    let bare = formula_or_panic(&recipe(vec![component("mix", vec![])]));
    assert_eq!(formula_grid(&bare).unwrap(), ",\n,\n,=SUM(B3:B2)\n");
}

#[test]
fn a_share_too_large_for_percent_fails_the_grid() {
    let largest = Decimal::from_parts(false, 0xFFFF_FFFF_FFFF_FFFF_FFFF_FFFF, 0).unwrap();
    let steep = recipe(vec![component(
        "mix",
        vec![
            ingredient("flour", 1, true),
            RecipeIngredient { name: String::from("water"), mass: largest, is_flour: false },
        ],
    )]);
    let formula = formula_or_panic(&steep);
    assert_eq!(formula_grid(&formula), Err(Error::Overflow));
}

fn mass_text(mass: &Option<CellExpr>) -> Option<String> {
    mass.as_ref().map(|e| CellValue::Expr(e.clone()).to_string().unwrap())
}

#[test]
fn masses_multiply_along_a_trail_and_add_over_trails() {
    let formula = formula_or_panic(&valid_1());
    let masses = component_mass(&formula);
    assert_eq!(masses.len(), 2);
    assert_eq!(mass_text(&masses[0]), None);
    assert_eq!(mass_text(&masses[1]), Some(String::from("=$D$7")));

    let formula = formula_or_panic(&valid_branches());
    let masses = component_mass(&formula);
    assert_eq!(mass_text(&masses[0]), None);
    assert_eq!(mass_text(&masses[1]), Some(String::from("=($F$6+($F$5*$B$6))")));
    assert_eq!(mass_text(&masses[2]), Some(String::from("=$F$5")));

    let deep = recipe(vec![
        component("mix", vec![ingredient("flour", 1, true), ingredient("a", 1, false)]),
        component("a", vec![ingredient("flour", 1, true), ingredient("b", 1, false)]),
        component("b", vec![ingredient("flour", 1, true), ingredient("c", 1, false)]),
        component("c", vec![ingredient("flour", 1, true)]),
    ]);
    let formula = formula_or_panic(&deep);
    assert_eq!(*formula.ingredient_order(), names(&["flour", "c", "b", "a"]));
    assert_eq!(formula.component_order(), names(&["c", "b", "a", "mix"]));
    let masses = component_mass(&formula);
    assert_eq!(mass_text(&masses[1]), Some(String::from("=$H$6")));
    assert_eq!(mass_text(&masses[2]), Some(String::from("=($H$6*$F$5)")));
    assert_eq!(mass_text(&masses[3]), Some(String::from("=($H$6*($F$5*$D$4))")));
}
