//! Regolith configuration management library.
//!
//! Searches, reads and modifies Regolith window manager configurations
//! across X11 and Wayland sessions.
//!
//! - [`cli_args`]: command-line argument types and session detection
//! - [`commands`]: high-level operations
//! - [`config`]: configuration files, their includes, variables and bindings
//! - [`resources`]: runtime X resources
//! - [`search`]: searching for bindings, keywords and resources
//!
//! Reading files, the environment and the display system is left to the
//! caller: the library takes their contents as values, and where reading
//! and deciding alternate (following includes), it offers loaders whose
//! steps the caller drives.

pub mod cli_args;
pub mod commands;
pub mod config;
pub mod paths;
pub mod resources;
pub mod search;
pub mod string_map;
pub mod text;

pub use cli_args::get_session_type;
pub use commands::{execute_search, SearchResult};
pub use config::full::{ConfigLoader, FullConfig, SessionMappings};
pub use config::partial::ConfigPartial;
