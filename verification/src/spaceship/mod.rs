//! The spaceship puzzle: points to visit with a ship that changes its speed by
//! one step at a time.

pub mod model;

pub use model::accel_to_command;
pub use model::Command;
pub use model::SpaceshipModel;
pub use model::SpaceshipState;
