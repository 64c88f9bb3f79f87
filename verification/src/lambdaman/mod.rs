//! The grid-walking puzzle: positions, moves and paths, and agents that walk
//! blindly.

pub mod blind_agent;
pub mod model;

pub use blind_agent::Agent;
pub use blind_agent::RandomStepAgent;
pub use model::to_lambdaman_path;
pub use model::Move;
pub use model::Path;
pub use model::Point;
