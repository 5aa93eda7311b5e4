//! Dough formulas: a recipe of components, each with its ingredients as
//! shares of the component's flour, where an ingredient named like a
//! component stands for that component.

use vstd::prelude::*;
use crate::decimal::{quotient, sum, Decimal, DecimalView};
use crate::error::{Error, ErrorKind};
use crate::graph::{
    bfs, bfs_order, by_distance, closed, edge, graph_of, is_flaw, led_to, lemma_bfs_first, nodes,
    reaches, validate_structure, verdict, Flaw, Graph,
};
use crate::names::{
    find_name, insert_unique, lemma_descending_distinct, lemma_position, lemma_sorted_descending,
    names_of, position, sort_descending, sorted_descending, with_name,
};

verus! {

/// The first row that holds an ingredient: the rows above are kept for
/// headers.
pub const ROW_OFFSET: u32 = 2;

/// The first column that holds a component: the column before is kept for the
/// names of the ingredients.
pub const COL_OFFSET: u32 = 1;

/// The name of the component that stands for the final dough.
pub open spec fn mix() -> Seq<char> {
    seq!['m', 'i', 'x']
}

/// An ingredient as the recipe has it: its name, its mass, and whether it
/// counts as flour.
#[derive(Debug)]
pub struct RecipeIngredient {
    pub name: String,
    pub mass: Decimal,
    pub is_flour: bool,
}

/// A component as the recipe has it.
#[derive(Debug)]
pub struct RecipeComponent {
    pub name: String,
    pub ingredients: Vec<RecipeIngredient>,
}

/// A recipe as it is read: a name and the components in their order.
#[derive(Debug)]
pub struct Recipe {
    pub name: String,
    pub components: Vec<RecipeComponent>,
}

/// An ingredient of a component: its mass as a share of the component's flour.
#[derive(Clone, Copy, Debug)]
pub enum Ingredient {
    Flour(Decimal),
    NonFlour(Decimal),
}

/// What an ingredient holds.
pub struct IngredientView {
    pub is_flour: bool,
    pub percentage: DecimalView,
}

impl View for Ingredient {
    type V = IngredientView;

    open spec fn view(&self) -> IngredientView {
        match *self {
            Ingredient::Flour(x) => IngredientView { is_flour: true, percentage: x@ },
            Ingredient::NonFlour(x) => IngredientView { is_flour: false, percentage: x@ },
        }
    }
}

impl Ingredient {
    /// The share of the component's flour.
    pub fn percentage(&self) -> (x: Decimal)
        ensures
            x@ == self@.percentage,
    {
        match self {
            Ingredient::Flour(x) => *x,
            Ingredient::NonFlour(x) => *x,
        }
    }
}

/// What a component holds: its name, and the names of its ingredients with
/// the share of each.
pub struct ComponentView {
    pub name: Seq<char>,
    pub names: Seq<Seq<char>>,
    pub amounts: Seq<IngredientView>,
}

/// What a formula holds: its name, its components, and the names of all
/// ingredients by kind.
pub struct FormulaView {
    pub name: Seq<char>,
    pub components: Seq<ComponentView>,
    pub flour: Seq<Seq<char>>,
    pub non_flour: Seq<Seq<char>>,
}

/// The names of components.
pub open spec fn component_names(components: Seq<ComponentView>) -> Seq<Seq<char>> {
    Seq::new(components.len(), |i: int| components[i].name)
}

/// The components that a list of ingredient names refers to, in the order of
/// the list: a name that is no component's name refers to none.
pub open spec fn targets(components: Seq<Seq<char>>, names: Seq<Seq<char>>) -> Seq<int>
    decreases names.len(),
{
    if names.len() == 0 {
        Seq::empty()
    } else {
        let before = targets(components, names.drop_last());
        match position(components, names.last()) {
            Some(i) => before.push(i),
            None => before,
        }
    }
}

/// Whether no name stands in both lists.
pub open spec fn disjoint(a: Seq<Seq<char>>, b: Seq<Seq<char>>) -> bool {
    forall|name: Seq<char>| !(a.contains(name) && b.contains(name))
}

/// How many of the components have the name `name`.
pub open spec fn named(components: Seq<RecipeComponent>, name: Seq<char>) -> nat
    decreases components.len(),
{
    if components.len() == 0 {
        0
    } else {
        named(components.drop_last(), name) + if components.last().name@ == name {
            1nat
        } else {
            0nat
        }
    }
}

impl FormulaView {
    /// The graph of the components: an edge from a component to each
    /// component that it has as an ingredient.
    pub open spec fn links(self) -> Graph {
        let all = component_names(self.components);
        Seq::new(self.components.len(), |u: int| targets(all, self.components[u].names))
    }

    /// The place of `mix` among the components.
    pub open spec fn root(self) -> int {
        match position(component_names(self.components), mix()) {
            Some(i) => i,
            None => 0,
        }
    }

    /// The names of the ingredients in the order of their rows: the flours
    /// from the greatest name to the least, then the others likewise.
    pub open spec fn ingredient_order(self) -> Seq<Seq<char>> {
        sorted_descending(self.flour) + sorted_descending(self.non_flour)
    }

    /// The components breadth first from `mix`.
    pub open spec fn bfs_order(self) -> Seq<int> {
        bfs(self.links(), self.root())
    }

    /// The components in the order of their columns: breadth first from
    /// `mix`, read backwards, so that `mix` comes last.
    pub open spec fn column_order(self) -> Seq<int> {
        let order = self.bfs_order();
        Seq::new(order.len(), |j: int| order[order.len() - 1 - j])
    }

    /// Whether the breadth-first order holds every component, each once,
    /// none before a component that is nearer to `mix`, and each but `mix`
    /// behind a component that has it as an ingredient.
    pub open spec fn complete(self) -> bool {
        &&& by_distance(self.links(), self.root(), self.bfs_order())
        &&& forall|i: int|
            0 < i < self.bfs_order().len() ==> #[trigger] led_to(self.links(), self.bfs_order(), i)
        &&& self.bfs_order().no_duplicates()
        &&& self.bfs_order().len() <= self.components.len()
        &&& forall|i: int|
            0 <= i < self.bfs_order().len() ==> 0 <= #[trigger] self.bfs_order()[i]
                < self.components.len()
        &&& forall|c: int| 0 <= c < self.components.len() ==> #[trigger] self.bfs_order().contains(c)
    }

    /// Whether every cell of the layout has a row and a column that can be
    /// held: the names of the ingredients are repeated in column
    /// `2 * components + 1`, and the totals stand in row
    /// `ROW_OFFSET + ingredients`.
    pub open spec fn fits(self) -> bool {
        2 * self.components.len() + COL_OFFSET <= u32::MAX && ROW_OFFSET
            + self.ingredient_order().len() <= u32::MAX
    }

    /// Whether every ingredient of every component has its name in one of
    /// the two lists.
    pub open spec fn listed(self) -> bool {
        forall|c: int, k: int|
            0 <= c < self.components.len() && 0 <= k < self.components[c].names.len()
                ==> self.flour.contains(#[trigger] self.components[c].names[k])
                || self.non_flour.contains(self.components[c].names[k])
    }

    /// What holds of every formula: no two components share a name and one
    /// is `mix`; no component has an ingredient twice; every ingredient is
    /// listed as flour or as non-flour and none as both; the layout fits;
    /// and `mix` reaches every component without ever coming back to a
    /// component.
    pub open spec fn valid(self) -> bool {
        &&& component_names(self.components).no_duplicates()
        &&& forall|c: int|
            0 <= c < self.components.len() ==> (#[trigger] self.components[c]).names.no_duplicates()
                && self.components[c].names.len() == self.components[c].amounts.len()
        &&& self.flour.no_duplicates()
        &&& self.non_flour.no_duplicates()
        &&& disjoint(self.flour, self.non_flour)
        &&& self.listed()
        &&& position(component_names(self.components), mix()) is Some
        &&& self.fits()
        &&& verdict(self.links(), self.root()) is Ok
    }
}

/// The flour of a component: the sum of the masses of its flour
/// ingredients, taken in their order from zero, or `None` where a sum
/// overflows.
pub open spec fn flour_total(ingredients: Seq<RecipeIngredient>) -> Option<DecimalView>
    decreases ingredients.len(),
{
    if ingredients.len() == 0 {
        Some(DecimalView { negative: false, magnitude: 0, scale: 0 })
    } else {
        match flour_total(ingredients.drop_last()) {
            None => None,
            Some(total) => if ingredients.last().is_flour {
                sum(total, ingredients.last().mass@)
            } else {
                Some(total)
            },
        }
    }
}

/// The component with `name` standing for `amount`: in the place where the
/// name stood, or at the end where it is new.
pub open spec fn put(c: ComponentView, name: Seq<char>, amount: IngredientView) -> ComponentView {
    match position(c.names, name) {
        Some(i) => ComponentView { name: c.name, names: c.names, amounts: c.amounts.update(i, amount) },
        None => ComponentView {
            name: c.name,
            names: c.names.push(name),
            amounts: c.amounts.push(amount),
        },
    }
}

/// The component named `name` with each ingredient as its share of `total`.
/// An ingredient that comes again takes the place of the one before. A share
/// that cannot be held fails with `Overflow`.
pub open spec fn shares(
    name: Seq<char>,
    ingredients: Seq<RecipeIngredient>,
    total: DecimalView,
) -> Result<ComponentView, ErrorKind>
    decreases ingredients.len(),
{
    if ingredients.len() == 0 {
        Ok(ComponentView { name, names: Seq::empty(), amounts: Seq::empty() })
    } else {
        match shares(name, ingredients.drop_last(), total) {
            Err(e) => Err(e),
            Ok(c) => match quotient(ingredients.last().mass@, total) {
                None => Err(ErrorKind::Overflow),
                Some(q) => Ok(
                    put(
                        c,
                        ingredients.last().name@,
                        IngredientView { is_flour: ingredients.last().is_flour, percentage: q },
                    ),
                ),
            },
        }
    }
}

/// The component that a component of the recipe makes. It fails with
/// `Overflow` where the flour cannot be summed up or a share cannot be held,
/// and with `ZeroFlour` where there are ingredients and the flour is zero.
pub open spec fn component_of(c: RecipeComponent) -> Result<ComponentView, ErrorKind> {
    match flour_total(c.ingredients@) {
        None => Err(ErrorKind::Overflow),
        Some(total) => if c.ingredients@.len() > 0 && total.magnitude == 0 {
            Err(ErrorKind::ZeroFlour)
        } else {
            shares(c.name@, c.ingredients@, total)
        },
    }
}

/// `start` with the names of the ingredients of one kind, each name once.
pub open spec fn classified(
    ingredients: Seq<RecipeIngredient>,
    is_flour: bool,
    start: Seq<Seq<char>>,
) -> Seq<Seq<char>>
    decreases ingredients.len(),
{
    if ingredients.len() == 0 {
        start
    } else {
        let before = classified(ingredients.drop_last(), is_flour, start);
        if ingredients.last().is_flour == is_flour {
            with_name(before, ingredients.last().name@)
        } else {
            before
        }
    }
}

/// The components with `c` among them: in the place of the component of its
/// name, or at the end where the name is new.
pub open spec fn place(components: Seq<ComponentView>, c: ComponentView) -> Seq<ComponentView> {
    match position(component_names(components), c.name) {
        Some(i) => components.update(i, c),
        None => components.push(c),
    }
}

/// What the components of a recipe make, before anything is validated: the
/// first failure of a component, or all components with the names of their
/// ingredients by kind.
pub open spec fn assembled(name: Seq<char>, components: Seq<RecipeComponent>) -> Result<
    FormulaView,
    ErrorKind,
>
    decreases components.len(),
{
    if components.len() == 0 {
        Ok(
            FormulaView {
                name,
                components: Seq::empty(),
                flour: Seq::empty(),
                non_flour: Seq::empty(),
            },
        )
    } else {
        match assembled(name, components.drop_last()) {
            Err(e) => Err(e),
            Ok(f) => match component_of(components.last()) {
                Err(e) => Err(e),
                Ok(c) => Ok(
                    FormulaView {
                        name,
                        components: place(f.components, c),
                        flour: classified(components.last().ingredients@, true, f.flour),
                        non_flour: classified(components.last().ingredients@, false, f.non_flour),
                    },
                ),
            },
        }
    }
}

/// Whether the name at place `i` of `a` is the first of `a` that stands in
/// `b` too.
pub open spec fn is_first_shared(a: Seq<Seq<char>>, b: Seq<Seq<char>>, i: int) -> bool {
    &&& 0 <= i < a.len()
    &&& b.contains(a[i])
    &&& forall|j: int| 0 <= j < i ==> !b.contains(#[trigger] a[j])
}

/// Whether the component at place `i` is the first that makes no component.
pub open spec fn fails_first(components: Seq<RecipeComponent>, i: int) -> bool {
    &&& 0 <= i < components.len()
    &&& component_of(components[i]) is Err
    &&& forall|j: int| 0 <= j < i ==> component_of(#[trigger] components[j]) is Ok
}

/// Whether the failure names what it is about. A component without flour
/// is the first component of the recipe that fails. An ingredient of two
/// kinds is the first of the flours that is listed as non-flour too. A
/// component on a cycle is the first, in the order in which the recipe
/// first names the components, that `mix` reaches and that lies on a cycle.
/// A component out of reach is the first, in that order, that `mix` does not
/// reach.
pub open spec fn is_about(e: Error, recipe: Recipe) -> bool {
    let made = assembled(recipe.name@, recipe.components@);
    match e {
        Error::ZeroFlour(name) => exists|i: int| #[trigger]
            fails_first(recipe.components@, i) && recipe.components@[i].name@ == name@,
        Error::DuplicateIngredientName(name) => made is Ok && exists|i: int| #[trigger]
            is_first_shared(made->Ok_0.flour, made->Ok_0.non_flour, i) && made->Ok_0.flour[i]
                == name@,
        Error::CyclicReference(name) => made is Ok && exists|c: usize| #[trigger]
            is_flaw(made->Ok_0.links(), made->Ok_0.root(), Flaw::Cycle(c))
                && made->Ok_0.components[c as int].name == name@,
        Error::DisconnectedComponent(name) => made is Ok && exists|c: usize| #[trigger]
            is_flaw(made->Ok_0.links(), made->Ok_0.root(), Flaw::Gap(c))
                && made->Ok_0.components[c as int].name == name@,
        _ => true,
    }
}

/// The formula of a recipe, or why there is none. The failures come in this
/// order: a component whose shares cannot be computed; an ingredient that is
/// both flour and non-flour; no `mix` or more than one; a layout beyond the
/// grid; a component that comes back to itself; a component that `mix` does
/// not reach.
pub open spec fn formula_of(recipe: Recipe) -> Result<FormulaView, ErrorKind> {
    match assembled(recipe.name@, recipe.components@) {
        Err(e) => Err(e),
        Ok(f) => if !disjoint(f.flour, f.non_flour) {
            Err(ErrorKind::DuplicateIngredientName)
        } else if named(recipe.components@, mix()) != 1 {
            Err(ErrorKind::MissingRootComponent)
        } else if !f.fits() {
            Err(ErrorKind::Overflow)
        } else {
            match verdict(f.links(), f.root()) {
                Err(e) => Err(e),
                Ok(_) => Ok(f),
            }
        },
    }
}

/// The views of ingredients.
pub open spec fn amounts_of(amounts: Seq<Ingredient>) -> Seq<IngredientView> {
    Seq::new(amounts.len(), |i: int| amounts[i]@)
}

/// Whether a component has as many amounts as names, and no name twice.
pub open spec fn sound(c: ComponentView) -> bool {
    c.names.no_duplicates() && c.names.len() == c.amounts.len()
}

/// A component of a formula.
#[derive(Debug)]
pub struct DoughComponent {
    name: String,
    names: Vec<String>,
    amounts: Vec<Ingredient>,
}

impl View for DoughComponent {
    type V = ComponentView;

    closed spec fn view(&self) -> ComponentView {
        ComponentView {
            name: self.name@,
            names: names_of(self.names@),
            amounts: amounts_of(self.amounts@),
        }
    }
}

impl DoughComponent {
    #[verifier::type_invariant]
    spec fn inv(self) -> bool {
        sound(self@)
    }
}

/// The share that the component at place `c` has of the ingredient `name`,
/// if there is such a component and it has that ingredient.
pub open spec fn share_in(f: FormulaView, c: int, name: Seq<char>) -> Option<IngredientView> {
    if 0 <= c < f.components.len() {
        match position(f.components[c].names, name) {
            Some(k) => Some(f.components[c].amounts[k]),
            None => None,
        }
    } else {
        None
    }
}

/// An ingredient, if there is one, as what it holds.
pub open spec fn share_view(x: Option<Ingredient>) -> Option<IngredientView> {
    match x {
        Some(i) => Some(i@),
        None => None,
    }
}

/// The names that stand at the given places of `all`.
pub open spec fn names_at(all: Seq<Seq<char>>, places: Seq<int>) -> Seq<Seq<char>> {
    Seq::new(places.len(), |i: int| all[places[i]])
}

/// The views of components.
pub open spec fn views_of(components: Seq<DoughComponent>) -> Seq<ComponentView> {
    Seq::new(components.len(), |i: int| components[i]@)
}

/// A dough formula: a recipe that has been validated.
#[derive(Debug)]
pub struct DoughFormula {
    name: String,
    components: Vec<DoughComponent>,
    flour: Vec<String>,
    non_flour: Vec<String>,
    component_names: Vec<String>,
    links: Vec<Vec<usize>>,
    root: usize,
    ingredient_order: Vec<String>,
    column_order: Vec<usize>,
}

impl View for DoughFormula {
    type V = FormulaView;

    closed spec fn view(&self) -> FormulaView {
        FormulaView {
            name: self.name@,
            components: views_of(self.components@),
            flour: names_of(self.flour@),
            non_flour: names_of(self.non_flour@),
        }
    }
}

impl DoughFormula {
    #[verifier::type_invariant]
    spec fn inv(self) -> bool {
        &&& self@.valid()
        &&& names_of(self.component_names@) == component_names(self@.components)
        &&& graph_of(self.links@) == self@.links()
        &&& self.root == self@.root()
        &&& names_of(self.ingredient_order@) == self@.ingredient_order()
        &&& nodes(self.column_order@) == self@.column_order()
        &&& self@.complete()
    }
}

/// The order of the columns holds every component, each once.
pub proof fn lemma_column_order(f: FormulaView)
    requires
        f.complete(),
    ensures
        f.column_order().len() == f.bfs_order().len(),
        f.column_order().len() <= f.components.len(),
        f.column_order().no_duplicates(),
        forall|j: int|
            0 <= j < f.column_order().len() ==> 0 <= #[trigger] f.column_order()[j]
                < f.components.len(),
        forall|c: int| 0 <= c < f.components.len() ==> #[trigger] f.column_order().contains(c),
{
    let bfs = f.bfs_order();
    let columns = f.column_order();
    assert forall|j: int| 0 <= j < columns.len() implies 0 <= #[trigger] columns[j]
        < f.components.len() by {
        let i = bfs.len() - 1 - j;
        assert(0 <= f.bfs_order()[i] < f.components.len());
    }
    assert forall|a: int, b: int|
        0 <= a < columns.len() && 0 <= b < columns.len() && a != b implies columns[a]
        != columns[b] by {
        assert(bfs[bfs.len() - 1 - a] != bfs[bfs.len() - 1 - b]);
    }
    assert forall|c: int| 0 <= c < f.components.len() implies #[trigger] columns.contains(c) by {
        assert(f.bfs_order().contains(c));
        let i = choose|i: int| 0 <= i < bfs.len() && bfs[i] == c;
        assert(columns[bfs.len() - 1 - i] == c);
    }
}

/// Whether the component in column `j` is an ingredient of a component in
/// a column further right.
pub open spec fn feeds_right(f: FormulaView, j: int) -> bool {
    exists|b: int|
        j < b < f.column_order().len() && edge(
            f.links(),
            #[trigger] f.column_order()[b],
            f.column_order()[j],
        )
}

/// `mix` stands in the last column, and every other component stands to
/// the left of a component that has it as an ingredient.
pub proof fn lemma_columns_lead(f: FormulaView)
    requires
        f.valid(),
        f.complete(),
    ensures
        f.column_order().len() >= 1,
        f.column_order().last() == f.root(),
        forall|j: int| 0 <= j < f.column_order().len() - 1 ==> #[trigger] feeds_right(f, j),
{
    let bfs = f.bfs_order();
    let columns = f.column_order();
    lemma_position(component_names(f.components), mix());
    assert(bfs.contains(f.root()));
    lemma_links_closed(f);
    lemma_bfs_first(f.links(), f.root());
    assert forall|j: int| 0 <= j < columns.len() - 1 implies #[trigger] feeds_right(f, j) by {
        let i = bfs.len() - 1 - j;
        assert(led_to(f.links(), f.bfs_order(), i));
        let a = choose|a: int| 0 <= a < i && edge(f.links(), #[trigger] bfs[a], bfs[i]);
        let b = bfs.len() - 1 - a;
        assert(columns[b] == bfs[a]);
        assert(columns[j] == bfs[i]);
    }
}

/// Every edge of a formula's graph leads to one of its components.
pub proof fn lemma_links_closed(f: FormulaView)
    ensures
        closed(f.links()),
{
    let all = component_names(f.components);
    let g = f.links();
    assert forall|u: int, k: int| 0 <= u < g.len() && 0 <= k < g[u].len() implies 0 <= #[trigger] g[u][k]
        < g.len() by {
        lemma_targets_within(all, f.components[u].names, k);
    }
}

/// Each of the components that a list of names refers to is a component.
proof fn lemma_targets_within(components: Seq<Seq<char>>, names: Seq<Seq<char>>, k: int)
    requires
        0 <= k < targets(components, names).len(),
    ensures
        0 <= targets(components, names)[k] < components.len(),
    decreases names.len(),
{
    if names.len() > 0 {
        let before = targets(components, names.drop_last());
        lemma_position(components, names.last());
        if k < before.len() {
            lemma_targets_within(components, names.drop_last(), k);
        }
    }
}

/// The rows of the ingredients: no name has two rows, and the names with a
/// row are those listed as flour or as non-flour.
pub proof fn lemma_ingredient_order(f: FormulaView)
    requires
        disjoint(f.flour, f.non_flour),
    ensures
        f.ingredient_order().no_duplicates(),
        forall|x: Seq<char>| #[trigger]
            f.ingredient_order().contains(x) <==> f.flour.contains(x) || f.non_flour.contains(x),
{
    let a = sorted_descending(f.flour);
    let b = sorted_descending(f.non_flour);
    let order = f.ingredient_order();
    lemma_sorted_descending(f.flour);
    lemma_sorted_descending(f.non_flour);
    lemma_descending_distinct(a);
    lemma_descending_distinct(b);
    assert forall|i: int, j: int|
        0 <= i < order.len() && 0 <= j < order.len() && i != j implies order[i] != order[j] by {
        if i < a.len() && j < a.len() {
            assert(a[i] != a[j]);
        } else if i >= a.len() && j >= a.len() {
            assert(b[i - a.len()] != b[j - a.len()]);
        } else if i < a.len() {
            assert(a.contains(a[i]));
            assert(b.contains(b[j - a.len()]));
        } else {
            assert(a.contains(a[j]));
            assert(b.contains(b[i - a.len()]));
        }
    }
    assert forall|x: Seq<char>| #[trigger]
        order.contains(x) <==> f.flour.contains(x) || f.non_flour.contains(x) by {
        if order.contains(x) {
            let i = choose|i: int| 0 <= i < order.len() && order[i] == x;
            if i < a.len() {
                assert(a.contains(a[i]));
            } else {
                assert(b.contains(b[i - a.len()]));
            }
        }
        if f.flour.contains(x) {
            assert(a.contains(x));
            let i = choose|i: int| 0 <= i < a.len() && a[i] == x;
            assert(order[i] == x);
        }
        if f.non_flour.contains(x) {
            assert(b.contains(x));
            let i = choose|i: int| 0 <= i < b.len() && b[i] == x;
            assert(order[a.len() + i] == x);
        }
    }
}

/// A name put into a list stands in it, and so does every name that stood
/// there before.
proof fn lemma_with_name_holds(names: Seq<Seq<char>>, name: Seq<char>)
    ensures
        with_name(names, name).contains(name),
        forall|x: Seq<char>| names.contains(x) ==> with_name(names, name).contains(x),
{
    let after = with_name(names, name);
    if !names.contains(name) {
        assert(after[after.len() - 1] == name);
        assert forall|x: Seq<char>| names.contains(x) implies after.contains(x) by {
            let i = choose|i: int| 0 <= i < names.len() && names[i] == x;
            assert(after[i] == x);
        }
    }
}

/// The list of a kind holds what it held before and the name of every
/// ingredient of that kind.
proof fn lemma_classified_holds(
    ingredients: Seq<RecipeIngredient>,
    is_flour: bool,
    start: Seq<Seq<char>>,
)
    ensures
        forall|x: Seq<char>| start.contains(x) ==> classified(ingredients, is_flour, start).contains(x),
        forall|j: int|
            0 <= j < ingredients.len() && (#[trigger] ingredients[j]).is_flour == is_flour
                ==> classified(ingredients, is_flour, start).contains(ingredients[j].name@),
    decreases ingredients.len(),
{
    if ingredients.len() > 0 {
        let shorter = ingredients.drop_last();
        lemma_classified_holds(shorter, is_flour, start);
        let before = classified(shorter, is_flour, start);
        lemma_with_name_holds(before, ingredients.last().name@);
        assert forall|j: int|
            0 <= j < ingredients.len() && (#[trigger] ingredients[j]).is_flour
                == is_flour implies classified(ingredients, is_flour, start).contains(
            ingredients[j].name@,
        ) by {
            if j < shorter.len() {
                assert(shorter[j] == ingredients[j]);
            }
        }
    }
}

/// Whether one of the ingredients has the name `name`.
spec fn has_ingredient(ingredients: Seq<RecipeIngredient>, name: Seq<char>) -> bool {
    exists|j: int| 0 <= j < ingredients.len() && (#[trigger] ingredients[j]).name@ == name
}

/// Every ingredient of a component is an ingredient of the recipe's
/// component.
proof fn lemma_shares_names(name: Seq<char>, ingredients: Seq<RecipeIngredient>, total: DecimalView)
    ensures
        match shares(name, ingredients, total) {
            Ok(c) => forall|k: int|
                0 <= k < c.names.len() ==> has_ingredient(ingredients, #[trigger] c.names[k]),
            Err(_) => true,
        },
    decreases ingredients.len(),
{
    if ingredients.len() > 0 {
        let shorter = ingredients.drop_last();
        lemma_shares_names(name, shorter, total);
        match shares(name, ingredients, total) {
            Ok(c) => {
                let b = shares(name, shorter, total).unwrap();
                assert forall|k: int| 0 <= k < c.names.len() implies has_ingredient(
                    ingredients,
                    #[trigger] c.names[k],
                ) by {
                    if k < b.names.len() {
                        assert(c.names[k] == b.names[k]);
                        assert(has_ingredient(shorter, b.names[k]));
                        let j = choose|j: int|
                            0 <= j < shorter.len() && (#[trigger] shorter[j]).name@ == b.names[k];
                        assert(ingredients[j].name@ == c.names[k]);
                    } else {
                        assert(ingredients[ingredients.len() - 1].name@ == c.names[k]);
                    }
                }
            },
            Err(_) => {},
        }
    }
}

/// A new component comes with all its ingredients listed, and the
/// components before it stay listed.
proof fn lemma_listed_grows(f: FormulaView, source: RecipeComponent, c: ComponentView)
    requires
        f.listed(),
        component_of(source) == Ok::<ComponentView, ErrorKind>(c),
    ensures
        (FormulaView {
            name: f.name,
            components: place(f.components, c),
            flour: classified(source.ingredients@, true, f.flour),
            non_flour: classified(source.ingredients@, false, f.non_flour),
        }).listed(),
{
    let ingredients = source.ingredients@;
    let total = flour_total(ingredients).unwrap();
    let flour = classified(ingredients, true, f.flour);
    let non_flour = classified(ingredients, false, f.non_flour);
    let after = place(f.components, c);
    lemma_classified_holds(ingredients, true, f.flour);
    lemma_classified_holds(ingredients, false, f.non_flour);
    lemma_shares_names(source.name@, ingredients, total);
    assert(shares(source.name@, ingredients, total) == Ok::<ComponentView, ErrorKind>(c));
    assert forall|k: int| 0 <= k < c.names.len() implies has_ingredient(
        ingredients,
        #[trigger] c.names[k],
    ) by {
        let r = shares(source.name@, ingredients, total);
        assert(r is Ok);
        assert(r->Ok_0 == c);
        assert(0 <= k < (r->Ok_0).names.len());
        assert(has_ingredient(ingredients, (r->Ok_0).names[k]));
    }
    lemma_position(component_names(f.components), c.name);
    assert forall|a: int, k: int| 0 <= a < after.len() && 0 <= k < after[a].names.len() implies flour.contains(
         #[trigger] after[a].names[k],
    ) || non_flour.contains(after[a].names[k]) by {
        if after[a] == c {
            assert(has_ingredient(ingredients, c.names[k]));
            let j = choose|j: int|
                0 <= j < ingredients.len() && (#[trigger] ingredients[j]).name@ == c.names[k];
            if ingredients[j].is_flour {
                assert(flour.contains(ingredients[j].name@));
            } else {
                assert(non_flour.contains(ingredients[j].name@));
            }
        } else {
            assert(after[a] == f.components[a]);
            assert(f.flour.contains(f.components[a].names[k]) || f.non_flour.contains(
                f.components[a].names[k],
            ));
        }
    }
}

/// Putting an ingredient into a sound component leaves it sound.
proof fn lemma_put_sound(c: ComponentView, name: Seq<char>, amount: IngredientView)
    requires
        sound(c),
    ensures
        sound(put(c, name, amount)),
{
    lemma_position(c.names, name);
    if position(c.names, name) is None {
        let after = c.names.push(name);
        assert forall|i: int, j: int|
            0 <= i < after.len() && 0 <= j < after.len() && i != j implies after[i] != after[j] by {
            if i < c.names.len() && j < c.names.len() {
                assert(c.names[i] != c.names[j]);
            } else if i < c.names.len() {
                assert(c.names.contains(c.names[i]));
            } else if j < c.names.len() {
                assert(c.names.contains(c.names[j]));
            }
        }
    }
}

/// The names of the components once `c` has been placed among them.
proof fn lemma_place_names(components: Seq<ComponentView>, c: ComponentView)
    ensures
        component_names(place(components, c)) == with_name(component_names(components), c.name),
{
    let all = component_names(components);
    lemma_position(all, c.name);
    match position(all, c.name) {
        Some(i) => {
            assert(all.contains(all[i]));
            assert(component_names(components.update(i, c)) =~= all);
        },
        None => {
            assert(component_names(components.push(c)) =~= all.push(c.name));
        },
    }
}

/// A list without repeats stays without repeats when a name is put in.
proof fn lemma_with_name_distinct(names: Seq<Seq<char>>, name: Seq<char>)
    requires
        names.no_duplicates(),
    ensures
        with_name(names, name).no_duplicates(),
        with_name(names, name).contains(name),
        forall|x: Seq<char>| names.contains(x) ==> with_name(names, name).contains(x),
{
    let after = with_name(names, name);
    if !names.contains(name) {
        assert(after[after.len() - 1] == name);
        assert forall|i: int, j: int|
            0 <= i < after.len() && 0 <= j < after.len() && i != j implies after[i] != after[j] by {
            if i < names.len() && j < names.len() {
                assert(names[i] != names[j]);
            } else if i < names.len() {
                assert(names.contains(names[i]));
            } else if j < names.len() {
                assert(names.contains(names[j]));
            }
        }
        assert forall|x: Seq<char>| names.contains(x) implies after.contains(x) by {
            let i = choose|i: int| 0 <= i < names.len() && names[i] == x;
            assert(after[i] == x);
        }
    }
}

/// A component keeps the name it was made with.
proof fn lemma_shares_name(name: Seq<char>, ingredients: Seq<RecipeIngredient>, total: DecimalView)
    ensures
        shares(name, ingredients, total) matches Ok(c) ==> c.name == name,
    decreases ingredients.len(),
{
    if ingredients.len() > 0 {
        lemma_shares_name(name, ingredients.drop_last(), total);
    }
}

/// The flour of a component.
fn flour_of(ingredients: &Vec<RecipeIngredient>) -> (total: Option<Decimal>)
    ensures
        total is Some <==> flour_total(ingredients@) is Some,
        total matches Some(t) ==> Some(t@) == flour_total(ingredients@),
{
    let mut total = Decimal::new(0, 0);
    let mut i: usize = 0;
    while i < ingredients.len()
        invariant
            i <= ingredients.len(),
            Some(total@) == flour_total(ingredients@.take(i as int)),
        decreases ingredients.len() - i,
    {
        proof {
            assert(ingredients@.take(i + 1).drop_last() =~= ingredients@.take(i as int));
        }
        if ingredients[i].is_flour {
            match total.checked_add(&ingredients[i].mass) {
                Some(t) => {
                    total = t;
                },
                None => {
                    proof {
                        lemma_total_lost(ingredients@, i + 1);
                    }
                    return None;
                },
            }
        }
        i += 1;
    }
    assert(ingredients@.take(i as int) =~= ingredients@);
    Some(total)
}

/// A sum that overflowed among the first `n` ingredients is lost for all.
proof fn lemma_total_lost(ingredients: Seq<RecipeIngredient>, n: int)
    requires
        0 <= n <= ingredients.len(),
        flour_total(ingredients.take(n)) is None,
    ensures
        flour_total(ingredients) is None,
    decreases ingredients.len() - n,
{
    if n < ingredients.len() {
        assert(ingredients.take(n + 1).drop_last() =~= ingredients.take(n));
        lemma_total_lost(ingredients, n + 1);
    } else {
        assert(ingredients.take(n) =~= ingredients);
    }
}

/// A share that failed among the first `n` ingredients fails the component.
proof fn lemma_shares_lost(
    name: Seq<char>,
    ingredients: Seq<RecipeIngredient>,
    total: DecimalView,
    n: int,
)
    requires
        0 <= n <= ingredients.len(),
        shares(name, ingredients.take(n), total) is Err,
    ensures
        shares(name, ingredients, total) == shares(name, ingredients.take(n), total),
    decreases ingredients.len() - n,
{
    if n < ingredients.len() {
        assert(ingredients.take(n + 1).drop_last() =~= ingredients.take(n));
        lemma_shares_lost(name, ingredients, total, n + 1);
    } else {
        assert(ingredients.take(n) =~= ingredients);
    }
}

/// The component that a component of the recipe makes.
fn build_component(c: &RecipeComponent) -> (r: Result<DoughComponent, Error>)
    ensures
        r matches Ok(d) ==> component_of(*c) == Ok::<ComponentView, ErrorKind>(d@),
        r matches Err(e) ==> component_of(*c) == Err::<ComponentView, ErrorKind>(e.kind()),
        r matches Err(e) ==> e == Error::Overflow || e.kind() == ErrorKind::ZeroFlour,
        r matches Err(Error::ZeroFlour(name)) ==> name@ == c.name@,
{
    let total = match flour_of(&c.ingredients) {
        Some(t) => t,
        None => {
            return Err(Error::Overflow);
        },
    };
    if c.ingredients.len() > 0 && total.is_zero() {
        return Err(Error::ZeroFlour(c.name.clone()));
    }
    let mut names: Vec<String> = Vec::new();
    let mut amounts: Vec<Ingredient> = Vec::new();
    let mut i: usize = 0;
    proof {
        assert(names_of(names@) =~= Seq::empty());
        assert(amounts_of(amounts@) =~= Seq::empty());
        assert(c.ingredients@.take(0) =~= Seq::empty());
    }
    while i < c.ingredients.len()
        invariant
            i <= c.ingredients.len(),
            Some(total@) == flour_total(c.ingredients@),
            !(c.ingredients@.len() > 0 && total@.magnitude == 0),
            shares(c.name@, c.ingredients@.take(i as int), total@) == Ok::<ComponentView, ErrorKind>(
                ComponentView {
                    name: c.name@,
                    names: names_of(names@),
                    amounts: amounts_of(amounts@),
                },
            ),
            sound(
                ComponentView {
                    name: c.name@,
                    names: names_of(names@),
                    amounts: amounts_of(amounts@),
                },
            ),
        decreases c.ingredients.len() - i,
    {
        let ingredient = &c.ingredients[i];
        let ghost before = ComponentView {
            name: c.name@,
            names: names_of(names@),
            amounts: amounts_of(amounts@),
        };
        proof {
            assert(c.ingredients@.take(i + 1).drop_last() =~= c.ingredients@.take(i as int));
        }
        let share = match ingredient.mass.checked_div(&total) {
            Some(q) => q,
            None => {
                proof {
                    assert(shares(c.name@, c.ingredients@.take(i + 1), total@) == Err::<
                        ComponentView,
                        ErrorKind,
                    >(ErrorKind::Overflow));
                    lemma_shares_lost(c.name@, c.ingredients@, total@, i + 1);
                }
                return Err(Error::Overflow);
            },
        };
        let amount = if ingredient.is_flour {
            Ingredient::Flour(share)
        } else {
            Ingredient::NonFlour(share)
        };
        proof {
            lemma_put_sound(before, ingredient.name@, amount@);
        }
        match find_name(&names, &ingredient.name) {
            Some(at) => {
                proof {
                    lemma_position(before.names, ingredient.name@);
                }
                amounts[at] = amount;
                assert(amounts_of(amounts@) =~= before.amounts.update(at as int, amount@));
            },
            None => {
                names.push(ingredient.name.clone());
                amounts.push(amount);
                assert(names_of(names@) =~= before.names.push(ingredient.name@));
                assert(amounts_of(amounts@) =~= before.amounts.push(amount@));
            },
        }
        i += 1;
    }
    assert(c.ingredients@.take(i as int) =~= c.ingredients@);
    Ok(DoughComponent { name: c.name.clone(), names, amounts })
}

/// Puts the names of the ingredients into the list of their kind.
fn classify(
    ingredients: &Vec<RecipeIngredient>,
    flour: &mut Vec<String>,
    non_flour: &mut Vec<String>,
)
    requires
        names_of(old(flour)@).no_duplicates(),
        names_of(old(non_flour)@).no_duplicates(),
    ensures
        names_of(final(flour)@) == classified(ingredients@, true, names_of(old(flour)@)),
        names_of(final(non_flour)@) == classified(ingredients@, false, names_of(old(non_flour)@)),
        names_of(final(flour)@).no_duplicates(),
        names_of(final(non_flour)@).no_duplicates(),
{
    let ghost flour_start = names_of(flour@);
    let ghost other_start = names_of(non_flour@);
    let mut i: usize = 0;
    while i < ingredients.len()
        invariant
            i <= ingredients.len(),
            names_of(flour@) == classified(ingredients@.take(i as int), true, flour_start),
            names_of(non_flour@) == classified(ingredients@.take(i as int), false, other_start),
            names_of(flour@).no_duplicates(),
            names_of(non_flour@).no_duplicates(),
        decreases ingredients.len() - i,
    {
        proof {
            assert(ingredients@.take(i + 1).drop_last() =~= ingredients@.take(i as int));
        }
        if ingredients[i].is_flour {
            insert_unique(flour, &ingredients[i].name);
        } else {
            insert_unique(non_flour, &ingredients[i].name);
        }
        i += 1;
    }
    assert(ingredients@.take(i as int) =~= ingredients@);
}

/// The first place in `a` of a name that stands in `b` too.
fn shared_name(a: &Vec<String>, b: &Vec<String>) -> (found: Option<usize>)
    ensures
        found is None <==> disjoint(names_of(a@), names_of(b@)),
        found matches Some(i) ==> i < a.len() && is_first_shared(
            names_of(a@),
            names_of(b@),
            i as int,
        ),
{
    let ghost x = names_of(a@);
    let ghost y = names_of(b@);
    let mut i: usize = 0;
    while i < a.len()
        invariant
            i <= a.len(),
            x == names_of(a@),
            y == names_of(b@),
            forall|j: int| 0 <= j < i ==> !y.contains(#[trigger] x[j]),
        decreases a.len() - i,
    {
        proof {
            lemma_position(y, x[i as int]);
        }
        if find_name(b, &a[i]).is_some() {
            proof {
                assert(x.contains(x[i as int]));
            }
            return Some(i);
        }
        i += 1;
    }
    None
}

/// The order of the rows of the ingredients: the flours from the greatest
/// name to the least, then the others likewise. An ingredient that is
/// listed both as flour and as non-flour has no row, and the order fails with
/// the first such name among the flours.
pub fn ingredient_order(flour: &Vec<String>, non_flour: &Vec<String>) -> (r: Result<
    Vec<String>,
    Error,
>)
    ensures
        r is Ok <==> disjoint(names_of(flour@), names_of(non_flour@)),
        r matches Ok(order) ==> names_of(order@) == sorted_descending(names_of(flour@))
            + sorted_descending(names_of(non_flour@)),
        r matches Err(e) ==> e matches Error::DuplicateIngredientName(name) && exists|i: int| #[trigger]
            is_first_shared(names_of(flour@), names_of(non_flour@), i) && names_of(flour@)[i]
                == name@,
{
    match shared_name(flour, non_flour) {
        Some(at) => {
            return Err(Error::DuplicateIngredientName(flour[at].clone()));
        },
        None => {},
    }
    let mut order = sort_descending(flour);
    let others = sort_descending(non_flour);
    let ghost first = names_of(order@);
    let mut o: usize = 0;
    assert(names_of(others@).take(0) =~= Seq::empty());
    assert(first + Seq::<Seq<char>>::empty() =~= first);
    while o < others.len()
        invariant
            o <= others.len(),
            names_of(order@) == first + names_of(others@).take(o as int),
        decreases others.len() - o,
    {
        let ghost before = names_of(order@);
        order.push(others[o].clone());
        proof {
            assert(names_of(order@) =~= before.push(others@[o as int]@));
            assert(names_of(others@).take(o + 1) =~= names_of(others@).take(o as int).push(
                others@[o as int]@,
            ));
        }
        o += 1;
    }
    assert(names_of(others@).take(o as int) =~= names_of(others@));
    Ok(order)
}

/// How many of the components have the name `name`.
fn count_named(components: &Vec<RecipeComponent>, name: &String) -> (count: usize)
    ensures
        count == named(components@, name@),
{
    let mut count: usize = 0;
    let mut i: usize = 0;
    while i < components.len()
        invariant
            i <= components.len(),
            count <= i,
            count == named(components@.take(i as int), name@),
        decreases components.len() - i,
    {
        proof {
            assert(components@.take(i + 1).drop_last() =~= components@.take(i as int));
        }
        if components[i].name == *name {
            count += 1;
        }
        i += 1;
    }
    assert(components@.take(i as int) =~= components@);
    count
}

/// Where some components have the name, one of them can be pointed at.
proof fn lemma_named_some(components: Seq<RecipeComponent>, name: Seq<char>)
    requires
        named(components, name) > 0,
    ensures
        exists|j: int| 0 <= j < components.len() && (#[trigger] components[j]).name@ == name,
    decreases components.len(),
{
    if components.last().name@ == name {
        assert(components[components.len() - 1].name@ == name);
    } else {
        lemma_named_some(components.drop_last(), name);
        let j = choose|j: int|
            0 <= j < components.drop_last().len() && (#[trigger] components.drop_last()[j]).name@
                == name;
        assert(components[j].name@ == name);
    }
}

/// The components that a list of ingredient names refers to.
fn link_targets(components: &Vec<String>, names: &Vec<String>) -> (list: Vec<usize>)
    ensures
        nodes(list@) == targets(names_of(components@), names_of(names@)),
        forall|k: int| 0 <= k < list.len() ==> #[trigger] list@[k] < components.len(),
{
    let ghost all = names_of(components@);
    let ghost these = names_of(names@);
    let mut list: Vec<usize> = Vec::new();
    let mut i: usize = 0;
    assert(nodes(list@) =~= Seq::empty());
    while i < names.len()
        invariant
            i <= names.len(),
            all == names_of(components@),
            these == names_of(names@),
            nodes(list@) == targets(all, these.take(i as int)),
            forall|k: int| 0 <= k < list.len() ==> #[trigger] list@[k] < components.len(),
        decreases names.len() - i,
    {
        let ghost before = nodes(list@);
        proof {
            assert(these.take(i + 1).drop_last() =~= these.take(i as int));
            assert(these.take(i + 1).last() == names@[i as int]@);
            lemma_position(all, these[i as int]);
        }
        match find_name(components, &names[i]) {
            Some(at) => {
                list.push(at);
                assert(nodes(list@) =~= before.push(at as int));
            },
            None => {},
        }
        i += 1;
    }
    assert(these.take(i as int) =~= these);
    list
}

/// A component that failed among the first `n` components fails the recipe.
proof fn lemma_assembled_lost(name: Seq<char>, components: Seq<RecipeComponent>, n: int)
    requires
        0 <= n <= components.len(),
        assembled(name, components.take(n)) is Err,
    ensures
        assembled(name, components) == assembled(name, components.take(n)),
    decreases components.len() - n,
{
    if n < components.len() {
        assert(components.take(n + 1).drop_last() =~= components.take(n));
        lemma_assembled_lost(name, components, n + 1);
    } else {
        assert(components.take(n) =~= components);
    }
}

impl DoughFormula {
    /// The name of the recipe.
    pub fn name(&self) -> (name: &String)
        ensures
            name@ == self@.name,
    {
        &self.name
    }

    /// The names of the components, in the order in which the recipe first
    /// had them.
    pub fn component_names(&self) -> (names: &Vec<String>)
        ensures
            self@.valid(),
            names_of(names@) == component_names(self@.components),
            names.len() == self@.components.len(),
    {
        proof {
            use_type_invariant(self);
            assert(names_of(self.component_names@).len() == self.component_names@.len());
        }
        &self.component_names
    }

    /// The names of the ingredients in the order of their rows.
    pub fn ingredient_order(&self) -> (order: &Vec<String>)
        ensures
            self@.valid(),
            names_of(order@) == self@.ingredient_order(),
            names_of(order@).no_duplicates(),
            ROW_OFFSET + order.len() <= u32::MAX,
    {
        proof {
            use_type_invariant(self);
            lemma_ingredient_order(self@);
            assert(names_of(self.ingredient_order@).len() == self.ingredient_order@.len());
        }
        &self.ingredient_order
    }

    /// The components in the order of their columns, each as its place
    /// among the components: every component once, `mix` last.
    pub fn column_order(&self) -> (order: &Vec<usize>)
        ensures
            self@.valid(),
            self@.complete(),
            nodes(order@) == self@.column_order(),
            2 * order.len() + COL_OFFSET <= u32::MAX,
    {
        proof {
            use_type_invariant(self);
            assert(nodes(self.column_order@).len() == self.column_order@.len());
        }
        &self.column_order
    }

    /// The names of the components in the order of their columns: `mix`
    /// last, and before it the components in the order in which a
    /// breadth-first search from `mix` meets them, read backwards.
    pub fn component_order(&self) -> (names: Vec<String>)
        ensures
            names_of(names@) == names_at(component_names(self@.components), self@.column_order()),
    {
        proof {
            use_type_invariant(self);
        }
        let ghost f = self@;
        let ghost all = component_names(f.components);
        let mut names: Vec<String> = Vec::new();
        let mut j: usize = 0;
        assert(nodes(self.column_order@).len() == self.column_order@.len());
        while j < self.column_order.len()
            invariant
                j <= self.column_order.len(),
                f == self@,
                f.complete(),
                all == component_names(f.components),
                all == names_of(self.component_names@),
                nodes(self.column_order@) == f.column_order(),
                names_of(names@) == names_at(all, f.column_order().take(j as int)),
            decreases self.column_order.len() - j,
        {
            let c = self.column_order[j];
            let ghost before = names_of(names@);
            proof {
                lemma_column_order(f);
                assert(nodes(self.column_order@)[j as int] == c);
                assert(0 <= f.column_order()[j as int] < f.components.len());
                assert(all.len() == self.component_names@.len());
            }
            names.push(self.component_names[c].clone());
            proof {
                assert(names_of(names@) =~= before.push(all[c as int]));
                assert(names_of(names@) =~= names_at(all, f.column_order().take(j + 1)));
            }
            j += 1;
        }
        assert(f.column_order().take(j as int) =~= f.column_order());
        names
    }

    /// The names of the components breadth first from `mix`: `mix`, then
    /// the components it has as ingredients, then theirs, each where it is
    /// first met.
    pub fn bfs_components(&self) -> (names: Vec<String>)
        ensures
            names_of(names@) == names_at(component_names(self@.components), self@.bfs_order()),
    {
        let backwards = self.component_order();
        let ghost all = component_names(self@.components);
        let ghost columns = self@.column_order();
        let ghost bfs = self@.bfs_order();
        let mut names: Vec<String> = Vec::new();
        let mut b: usize = backwards.len();
        proof {
            use_type_invariant(self);
            lemma_column_order(self@);
            assert(names_of(backwards@).len() == backwards.len());
        }
        while b > 0
            invariant
                b <= backwards.len(),
                backwards.len() == bfs.len(),
                columns == self@.column_order(),
                bfs == self@.bfs_order(),
                names_of(backwards@) == names_at(all, columns),
                names.len() == backwards.len() - b,
                forall|i: int| 0 <= i < names.len() ==> (#[trigger] names@[i])@ == all[bfs[i]],
            decreases b,
        {
            b -= 1;
            let ghost i = names.len() as int;
            proof {
                assert(names_of(backwards@)[b as int] == all[columns[b as int]]);
                assert(columns[b as int] == bfs[bfs.len() - 1 - b]);
            }
            names.push(backwards[b].clone());
        }
        assert(names_of(names@) =~= names_at(all, bfs));
        names
    }

    /// The graph of the components, each as its place among the components.
    pub fn links(&self) -> (links: &Vec<Vec<usize>>)
        ensures
            self@.valid(),
            graph_of(links@) == self@.links(),
            closed(graph_of(links@)),
            links.len() == self@.components.len(),
    {
        proof {
            use_type_invariant(self);
            lemma_links_closed(self@);
            assert(graph_of(self.links@).len() == self.links@.len());
        }
        &self.links
    }

    /// The place of `mix` among the components.
    pub fn root(&self) -> (root: usize)
        ensures
            self@.valid(),
            root == self@.root(),
            root < self@.components.len(),
    {
        proof {
            use_type_invariant(self);
            lemma_position(component_names(self@.components), mix());
        }
        self.root
    }

    /// The names of the ingredients of a component, in the order in which
    /// the recipe first had them; of no component, an empty list.
    pub fn ingredient_names(&self, component: usize) -> (names: Vec<String>)
        ensures
            component < self@.components.len() ==> names_of(names@)
                == self@.components[component as int].names,
            component >= self@.components.len() ==> names@.len() == 0,
    {
        let mut names: Vec<String> = Vec::new();
        if component < self.components.len() {
            let source = &self.components[component].names;
            let mut i: usize = 0;
            while i < source.len()
                invariant
                    i <= source.len(),
                    names_of(names@) == names_of(source@).take(i as int),
                decreases source.len() - i,
            {
                let ghost before = names_of(names@);
                names.push(source[i].clone());
                proof {
                    assert(names_of(names@) =~= before.push(source@[i as int]@));
                    assert(names_of(source@).take(i + 1) =~= names_of(source@).take(i as int).push(
                        source@[i as int]@,
                    ));
                }
                i += 1;
            }
            assert(names_of(source@).take(i as int) =~= names_of(source@));
        }
        names
    }

    /// The share that the component at place `component` has of the
    /// ingredient `name`, if it has that ingredient.
    pub fn share_of(&self, component: usize, name: &String) -> (share: Option<Ingredient>)
        ensures
            share_view(share) == share_in(self@, component as int, name@),
    {
        proof {
            use_type_invariant(self);
        }
        if component >= self.components.len() {
            return None;
        }
        let c = &self.components[component];
        proof {
            assert(sound(self@.components[component as int]));
            lemma_position(names_of(c.names@), name@);
        }
        match find_name(&c.names, name) {
            Some(k) => Some(c.amounts[k]),
            None => None,
        }
    }

    /// The formula of a recipe: its components with each ingredient as a
    /// share of the component's flour, once the recipe has been validated.
    pub fn from_recipe(recipe: &Recipe) -> (r: Result<DoughFormula, Error>)
        ensures
            r matches Ok(formula) ==> formula_of(*recipe) == Ok::<FormulaView, ErrorKind>(formula@)
                && formula@.valid(),
            r matches Err(e) ==> formula_of(*recipe) == Err::<FormulaView, ErrorKind>(e.kind())
                && is_about(e, *recipe),
    {
        let mut components: Vec<DoughComponent> = Vec::new();
        let mut known: Vec<String> = Vec::new();
        let mut flour: Vec<String> = Vec::new();
        let mut non_flour: Vec<String> = Vec::new();
        let mut i: usize = 0;
        proof {
            assert(views_of(components@) =~= Seq::empty());
            assert(names_of(flour@) =~= Seq::empty());
            assert(names_of(non_flour@) =~= Seq::empty());
            assert(names_of(known@) =~= component_names(views_of(components@)));
            assert(recipe.components@.take(0) =~= Seq::empty());
        }
        while i < recipe.components.len()
            invariant
                i <= recipe.components.len(),
                assembled(recipe.name@, recipe.components@.take(i as int)) == Ok::<
                    FormulaView,
                    ErrorKind,
                >(
                    FormulaView {
                        name: recipe.name@,
                        components: views_of(components@),
                        flour: names_of(flour@),
                        non_flour: names_of(non_flour@),
                    },
                ),
                names_of(known@) == component_names(views_of(components@)),
                names_of(known@).no_duplicates(),
                names_of(flour@).no_duplicates(),
                names_of(non_flour@).no_duplicates(),
                forall|c: int| 0 <= c < components.len() ==> sound(#[trigger] views_of(components@)[c]),
                (FormulaView {
                    name: recipe.name@,
                    components: views_of(components@),
                    flour: names_of(flour@),
                    non_flour: names_of(non_flour@),
                }).listed(),
                forall|j: int|
                    0 <= j < i ==> names_of(known@).contains(
                        (#[trigger] recipe.components@[j]).name@,
                    ),
                forall|j: int| 0 <= j < i ==> component_of(#[trigger] recipe.components@[j]) is Ok,
            decreases recipe.components.len() - i,
        {
            let source = &recipe.components[i];
            let ghost before = views_of(components@);
            let ghost names_before = names_of(known@);
            let ghost formula_before = FormulaView {
                name: recipe.name@,
                components: views_of(components@),
                flour: names_of(flour@),
                non_flour: names_of(non_flour@),
            };
            proof {
                assert(recipe.components@.take(i + 1).drop_last() =~= recipe.components@.take(
                    i as int,
                ));
            }
            let component = match build_component(source) {
                Ok(c) => c,
                Err(e) => {
                    proof {
                        assert(assembled(recipe.name@, recipe.components@.take(i + 1)) == Err::<
                            FormulaView,
                            ErrorKind,
                        >(e.kind()));
                        lemma_assembled_lost(recipe.name@, recipe.components@, i + 1);
                        assert(fails_first(recipe.components@, i as int));
                    }
                    return Err(e);
                },
            };
            classify(&source.ingredients, &mut flour, &mut non_flour);
            proof {
                use_type_invariant(&component);
                lemma_listed_grows(formula_before, *source, component@);
                lemma_place_names(before, component@);
                lemma_with_name_distinct(names_before, component@.name);
                lemma_position(names_before, component@.name);
                lemma_shares_name(
                    source.name@,
                    source.ingredients@,
                    flour_total(source.ingredients@).unwrap(),
                );
                assert(component@.name == source.name@);
            }
            let ghost placed = component@;
            match find_name(&known, &source.name) {
                Some(at) => {
                    components[at] = component;
                    assert(views_of(components@) =~= before.update(at as int, placed));
                },
                None => {
                    known.push(source.name.clone());
                    components.push(component);
                    assert(views_of(components@) =~= before.push(placed));
                    assert(names_of(known@) =~= names_before.push(source.name@));
                },
            }
            i += 1;
        }
        let ghost f = FormulaView {
            name: recipe.name@,
            components: views_of(components@),
            flour: names_of(flour@),
            non_flour: names_of(non_flour@),
        };
        assert(recipe.components@.take(i as int) =~= recipe.components@);
        let ingredient_order = match ingredient_order(&flour, &non_flour) {
            Ok(order) => order,
            Err(e) => {
                return Err(e);
            },
        };
        let mix_name = String::from_str("mix");
        proof {
            reveal_strlit("mix");
            assert(mix_name@ =~= mix());
        }
        if count_named(&recipe.components, &mix_name) != 1 {
            return Err(Error::MissingRootComponent);
        }
        proof {
            lemma_named_some(recipe.components@, mix());
            lemma_position(names_of(known@), mix());
        }
        let root = match find_name(&known, &mix_name) {
            Some(root) => root,
            None => {
                return Err(Error::MissingRootComponent);
            },
        };
        if components.len() > 0x7FFF_FFFF || ingredient_order.len() > 0xFFFF_FFFD {
            return Err(Error::Overflow);
        }
        let mut links: Vec<Vec<usize>> = Vec::new();
        let mut u: usize = 0;
        while u < components.len()
            invariant
                u <= components.len(),
                links.len() == u,
                f.components == views_of(components@),
                names_of(known@) == component_names(f.components),
                forall|a: int|
                    0 <= a < u ==> nodes((#[trigger] links@[a])@) == targets(
                        component_names(f.components),
                        f.components[a].names,
                    ),
                forall|a: int, k: int|
                    0 <= a < u && 0 <= k < links@[a]@.len() ==> (#[trigger] links@[a]@[k])
                        < components.len(),
            decreases components.len() - u,
        {
            let list = link_targets(&known, &components[u].names);
            links.push(list);
            u += 1;
        }
        proof {
            let g = graph_of(links@);
            assert(g =~= f.links()) by {
                assert forall|a: int| 0 <= a < g.len() implies g[a] == f.links()[a] by {
                    assert(g[a] =~= nodes(links@[a]@));
                }
            }
            assert(closed(g)) by {
                assert forall|a: int, k: int| 0 <= a < g.len() && 0 <= k < g[a].len() implies 0
                    <= #[trigger] g[a][k] < g.len() by {
                    assert(links@[a]@[k] < components.len());
                }
            }
        }
        match validate_structure(&links, root) {
            Err(Flaw::Cycle(v)) => {
                proof {
                    assert(names_of(known@)[v as int] == known@[v as int]@);
                    assert(component_names(f.components)[v as int] == f.components[v as int].name);
                    assert(is_flaw(f.links(), f.root(), Flaw::Cycle(v)));
                }
                Err(Error::CyclicReference(known[v].clone()))
            },
            Err(Flaw::Gap(v)) => {
                proof {
                    assert(names_of(known@)[v as int] == known@[v as int]@);
                    assert(component_names(f.components)[v as int] == f.components[v as int].name);
                    assert(is_flaw(f.links(), f.root(), Flaw::Gap(v)));
                }
                Err(Error::DisconnectedComponent(known[v].clone()))
            },
            Ok(_) => {
                proof {
                    assert forall|c: int| 0 <= c < f.components.len() implies (
                    #[trigger] f.components[c]).names.no_duplicates() && f.components[c].names.len()
                        == f.components[c].amounts.len() by {
                        assert(sound(views_of(components@)[c]));
                    }
                }
                let breadth_first = bfs_order(&links, root);
                let mut column_order: Vec<usize> = Vec::new();
                let mut b: usize = breadth_first.len();
                while b > 0
                    invariant
                        b <= breadth_first.len(),
                        column_order.len() == breadth_first.len() - b,
                        forall|j: int|
                            0 <= j < column_order.len() ==> #[trigger] column_order@[j]
                                == breadth_first@[breadth_first.len() - 1 - j],
                    decreases b,
                {
                    b -= 1;
                    column_order.push(breadth_first[b]);
                }
                proof {
                    let order = nodes(breadth_first@);
                    assert(order == f.bfs_order());
                    assert(nodes(column_order@) =~= f.column_order());
                    assert forall|i: int| 0 <= i < order.len() implies 0 <= #[trigger] order[i]
                        < f.components.len() by {
                        assert(breadth_first@[i] < links.len());
                    }
                    assert forall|c: int| 0 <= c < f.components.len() implies #[trigger] order.contains(
                        c,
                    ) by {
                        assert(reaches(f.links(), f.root(), c));
                    }
                    assert(f.complete());
                }
                Ok(
                    DoughFormula {
                        name: recipe.name.clone(),
                        components,
                        flour,
                        non_flour,
                        component_names: known,
                        links,
                        root,
                        ingredient_order,
                        column_order,
                    },
                )
            },
        }
    }
}

} // verus!
