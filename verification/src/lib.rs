//! Verified core of the lieui UI toolkit: the parts of the runtime that decide
//! things (layer bookkeeping, event routing, reconciliation plans, redraw
//! signals, timers, inspector bookkeeping) with their contracts.

pub mod seqs;
pub mod effects;
pub mod color;
pub mod text;
pub mod order;
pub mod popup_tree;
pub mod layers;
pub mod signals;
pub mod event_types;
pub mod dispatch;
pub mod animation;
pub mod tree;
pub mod reconcile;
pub mod reconcile_law;
pub mod inspector;
pub mod external;
pub mod layout_types;
pub mod frame;
pub mod layer_commands;
pub mod layer_command_laws;
pub mod paint_state;
pub mod theme;
pub mod event_context;
