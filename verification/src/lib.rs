pub mod board;
pub mod canon;
pub mod gen;
pub mod model;
pub mod solver;

pub use board::Difficulty;
pub use board::Matrix;
pub use board::win_threshold;
pub use model::Location;
pub use model::Move;
pub use solver::VisitedSet;
pub use solver::solve;
