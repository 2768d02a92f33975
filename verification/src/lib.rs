//! Fixed-timestep, impulse-based rigid-sphere physics core.
//!
//! The library stores spherical bodies and static axis-aligned box
//! obstacles, advances positions and velocities under collision
//! constraints, and keeps collision detection sub-quadratic through a
//! bounding-box quadtree over integer cells.  All quantities are fixed-point
//! scalars (see [`fx`]), so every step is a total, deterministic and
//! fully specified function of the simulation state.
pub mod fx;
pub mod index;
pub mod laws;
pub mod model;
pub mod sim;
pub mod vec3;

pub use fx::{SCALE, ONE};
pub use vec3::V3;
pub use index::{CellBox, Entry, SpatialIndex};
pub use model::{Manifold, StateModel, Bodies};
pub use sim::{ActiveSpheres, EntityId, NewBall, State, Walls, step};
