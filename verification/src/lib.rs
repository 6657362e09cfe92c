//! Text-buffer primitives with vim-shaped semantics: char-indexed
//! positions, styled byte spans, `iskeyword` classification, soft-wrap
//! segmentation and the per-row layout decisions of the terminal view.

pub mod text;
pub mod position;
pub mod span;
pub mod unicode;
pub mod motion;
pub mod wrap;
pub mod search;
pub mod render;
pub mod frame;

pub use position::Position;
pub use span::Span;
pub use motion::is_keyword_char;
pub use wrap::{Wrap, wrap_segments};
pub use render::{
    CellStyle, Conceal, Fold, Gutter, PaintOp, PaintStyle, RowLayout, Sign, Viewport, layout_row,
};
pub use frame::{FrameSettings, ScreenRow, layout_frame, paint_plan, plan_frame, try_layout_frame};
pub use search::row_search_ranges;
