//! The two-dimensional tape with time travel: its cells, its board format and
//! its simulator.

pub mod board;
pub mod cell;
pub mod cells;
pub mod laws;
pub mod sim;

pub use board::ThreeDBoard;
pub use cell::Cell;
pub use cells::CellMap;
pub use sim::SimError;
pub use sim::SimulationStepResult;
pub use sim::ThreeDSimulator;
