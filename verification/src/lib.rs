//! Verified core of the Luminatti review workspace: text editing, search,
//! comment selection, dependency focus and the pure layout helpers.
pub mod text;
pub mod paths;
pub mod syntax;
pub mod diff;
pub mod text_edit;
pub mod search;
pub mod comments;
pub mod branch_status;
pub mod updater;
pub mod lsp;
pub mod semantic;
pub mod model;
pub mod layout;
pub mod file_tree;
pub mod workspace;
pub mod review_focus;
pub mod radar_state;
pub mod text_field;
pub mod bubble_focus;
pub mod jsonc;
pub mod theme;
pub mod recent_repositories;
pub mod radar;
pub mod radar_graph;
pub mod calls;
pub mod resolve;
pub mod keyed;
pub mod radar_parse;
pub mod resolver;
pub mod call_edges;
pub mod compare;
pub mod snapshot;
pub mod line_layout;
pub mod diagram;
pub mod branch_order;
