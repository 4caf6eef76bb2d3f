//! A modeless terminal code editor, as a verified library.
pub mod app;
pub mod app_view;
pub mod assoc;
pub mod buffer;
pub mod caret;
pub mod chrome;
pub mod complete;
pub mod diff_view;
pub mod editing;
pub mod fan_out;
pub mod file_find;
pub mod file_tree;
pub mod git;
pub mod history;
pub mod inside;
pub mod jump;
pub mod json;
pub mod key;
pub mod layout;
pub mod lsp;
pub mod minibuffer;
pub mod motion;
pub mod order;
pub mod pane;
pub mod pane_view;
pub mod paths;
pub mod rope;
pub mod style;
pub mod syntax;
pub mod terminal_area;
pub mod terminal_pane;
pub mod text;
pub mod theme;
pub mod view;
