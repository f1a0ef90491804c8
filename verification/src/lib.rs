//! Schema-driven vertical tabs: styled cells, aligned column layout, tab names that carry
//! column values, and the decisions of the plugin that keeps them in step with a session.
pub mod align;
pub mod cli;
pub mod escapes;
pub mod identity;
pub mod ids;
pub mod indexes;
pub mod layout;
pub mod leader;
pub mod map;
pub mod markup;
pub mod numbers;
pub mod plugin;
pub mod protocol;
pub mod range;
pub mod reconcile;
pub mod render;
pub mod row;
pub mod schema;
pub mod share;
pub mod state;
pub mod style;
pub mod tab_name;
pub mod text;
pub mod updates;
pub mod width;
pub mod widths;

pub use layout::{
    clip_right_edge, fit_cell_to_width, ResizeMode, ResizeSpec, TruncationSide, WidthIndex,
};
pub use map::TextMap;
pub use markup::{
    apply_default_style, has_style_directive, parse_color_spec, parse_style_directive,
    parse_style_literal, parse_styled_string, CellState,
};
pub use numbers::NumberMap;
pub use protocol::{UpdatePayload, PIPE_NAME};
pub use schema::{ColumnSpec, Schema};
pub use style::{ColorSpec, InlineStyle, StyledSegment, StyledText};
pub use tab_name::{decode_tab_name, encode_tab_name};
pub use widths::solve_column_widths;
