//! Collects the dependencies a JavaScript project declares in its own and its
//! ancestor directories' manifest files, orders them for display, tracks an
//! interactive cursor-and-selection state over the ordered list, and serialises
//! the chosen entries as space-joined `name@version` tokens.

pub mod manifest;
pub mod node_module;
pub mod render;
pub mod selection;
