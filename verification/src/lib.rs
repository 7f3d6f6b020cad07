//! A retained-mode layout and entity-storage engine for character-cell
//! user interfaces.
//!
//! The crate is built around three pieces:
//!
//! * an entity store that hands out generation-checked handles to layout
//!   nodes and their widget payloads,
//! * a three-pass box-model layout solver (intrinsic sizing, growth
//!   distribution, position assignment), and
//! * a render walk that clips every node against its ancestors and yields the
//!   draw calls for a backend to paint.

pub mod axis;
pub mod fit;
pub mod focus;
pub mod grow;
pub mod laws;
pub mod layout;
pub mod model;
pub mod params;
pub mod percent;
pub mod position;
pub mod render;
pub mod store;
pub mod ui;
