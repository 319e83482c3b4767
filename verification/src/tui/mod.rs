pub mod app;
pub mod view;

pub use app::{Action, App, Key};
pub use view::{CellView, DisplayRow, PieceStatus};
