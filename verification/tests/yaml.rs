use baking_formula::decimal::Decimal;
use baking_formula::dough::{DoughFormula, Recipe, RecipeComponent, RecipeIngredient};
use baking_formula::error::Error;
use baking_formula::layout::formula_grid;
use rust_decimal::prelude::FromPrimitive;
use yaml_rust::{Yaml, YamlLoader};

fn mass_of(mass: f64) -> Decimal {
    let d = rust_decimal::Decimal::from_f64(mass).unwrap();
    Decimal::from_parts(d.is_sign_negative(), d.mantissa().unsigned_abs(), d.scale()).unwrap()
}

fn recipe_of(text: &str) -> Recipe {
    let docs = YamlLoader::load_from_str(text).unwrap();
    let doc: &Yaml = &docs[0];
    Recipe {
        name: doc["name"].as_str().unwrap().to_string(),
        components: doc["components"]
            .as_vec()
            .unwrap()
            .iter()
            .map(|c| RecipeComponent {
                name: c["name"].as_str().unwrap().to_string(),
                ingredients: c["ingredients"]
                    .as_vec()
                    .unwrap()
                    .iter()
                    .map(|i| RecipeIngredient {
                        name: i[0].as_str().unwrap().to_string(),
                        mass: mass_of(i[1].as_f64().unwrap()),
                        is_flour: i[2].as_bool().unwrap(),
                    })
                    .collect(),
            })
            .collect(),
    }
}

const BAGUETTE: &str = "
name: baguette
components:
  - name: mix
    ingredients:
      - [flour, 900.0, true]
      - [water, 580.5, false]
      - [salt, 20.0, false]
      - [poolish, 200.0, false]
  - name: poolish
    ingredients:
      - [flour, 100.0, true]
      - [water, 100.0, false]
      - [yeast, 0.1, false]
";

#[test]
fn a_recipe_read_from_yaml() {
    let recipe = recipe_of(BAGUETTE);
    assert_eq!(recipe.name, "baguette");
    assert_eq!(recipe.components.len(), 2);
    assert_eq!(recipe.components[0].ingredients[1].mass.to_string(), "580.5");
    let formula = DoughFormula::from_recipe(&recipe).unwrap();
    let expected = [
        ",,,,,",
        ",,,,,",
        "flour,=100%,,=100%,,=A3",
        "yeast,=0.100%,,,,=A4",
        "water,=100%,,=64.500%,,=A5",
        "salt,,,=2.222%,,=A6",
        "poolish,,,=22.222%,,=A7",
        ",=SUM(B3:B7),,=SUM(D3:D7),,",
        "",
    ]
    .join("\n");
    assert_eq!(formula_grid(&formula).unwrap(), expected);
}

#[test]
fn a_cycle_read_from_yaml() {
    let text = "
name: loop
components:
  - name: mix
    ingredients:
      - [flour, 100.0, true]
      - [levain, 20.0, false]
  - name: levain
    ingredients:
      - [flour, 50.0, true]
      - [mix, 5.0, false]
";
    assert_eq!(
        DoughFormula::from_recipe(&recipe_of(text)).err(),
        Some(Error::CyclicReference(String::from("mix")))
    );
}
