//! Laying the board out on pages for export.
pub mod pages;

pub use pages::{PageBox, RowSpan, page_boxes, page_count, pieces_match};
