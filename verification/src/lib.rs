//! Turns a baker's-percentage dough recipe into a grid of spreadsheet cells
//! whose formulas recompute every derived quantity.
//!
//! A recipe is a list of components, `mix` among them, each with its
//! ingredients by mass. [`dough`] makes a formula of it: every ingredient as
//! a share of the flour of its component, the components as a graph that
//! [`graph`] has validated and ordered. [`layout`] gives each share, total
//! and label its cell, [`mass`] writes for each component the formula of
//! what it adds to `mix`, and [`csv_cell`] writes the cells out as a grid of
//! comma-separated fields.

pub mod csv_cell;
pub mod decimal;
pub mod dough;
pub mod error;
pub mod graph;
pub mod grid;
pub mod layout;
pub mod mass;
pub mod names;
pub mod text;
