//! Simulation substrate for a colony of moving agents.
//!
//! - [`arena`]: stable-index storage with free-slot reuse.
//! - [`space`]: integer geometry: points, cells, squared distances.
//! - [`grid`]: a spatial hash grid over an arena, with queries by radius,
//!   nearest neighbours, close pairs, and maintenance after entities move;
//!   [`grid_model`] holds the grid as a mathematical value and its laws, and
//!   [`cells`] the table from cell to bucket.
//! - [`messenger`]: a message bus with global and local messages that expire.
//! - [`object`]: the plan, update, render and cleanup lifecycle, and what an
//!   object sees of the outside world.
//! - [`relaxed`]: a wrapper that throttles the plan of the object it holds.
//! - [`population`]: the steps of a tick for all entities of a grid.
//! - [`parent`]: a composite that runs the lifecycle of its children in order.
//! - [`fsm`], [`chance`]: state machines and random choices.
//! - [`food`], [`pheromones`], [`plans`], [`interface`]: the ant colony that
//!   lives on the substrate.
//! - [`ui`]: edge-aware button states.
//!
//! Positions are whole numbers of world units and time is counted in ticks,
//! so every contract is exact.

pub mod arena;
pub mod cells;
pub mod chance;
pub mod food;
pub mod fsm;
pub mod grid;
pub mod grid_model;
pub mod interface;
pub mod messenger;
pub mod object;
pub mod parent;
pub mod pheromones;
pub mod plans;
pub mod population;
pub mod relaxed;
pub mod space;
pub mod ui;
