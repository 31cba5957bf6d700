//! Conway's Game of Life on a fixed-size rectangular grid.
//!
//! The crate is a generation-update engine:
//!
//! - [`matrix`] stores the cells of a grid and reads grids from rows of
//!   cells and from JSON;
//! - [`rule`] defines the Moore neighbourhood under the two boundary
//!   policies, and the rule of birth and survival;
//! - [`partition`] splits the flat index range among workers;
//! - [`game_of_life`] owns the current generation and a scratch buffer, and
//!   advances them one generation per tick, by one of three strategies that
//!   give the same grid;
//! - [`text`] shows grids and numbers as text;
//! - [`error`] names what can go wrong;
//! - [`trusted`] holds the calls into other crates, whose contracts are
//!   taken on trust.
//!
//! Every contract is stated over the grid as a sequence of rows of cells.

pub mod error;
pub mod game_of_life;
pub mod matrix;
pub mod partition;
pub mod rule;
pub mod text;
pub mod trusted;
