//! Host-independent core logic of a tmux-style paste-buffer ring for a
//! terminal multiplexer plugin: the buffer ring, copy-mode selections and
//! motions, keymaps, permissions and the persistence format.

pub mod text;
pub mod selection;
pub mod scrollback;
pub mod region;
pub mod motion;
pub mod copy_mode;
pub mod permissions;
pub mod keymap;
pub mod buffer;
pub mod persist;

pub use buffer::{
    parse_buffer_limit, BufferId, BufferLimitError, BufferRing, PasteBuffer, DEFAULT_BUFFER_LIMIT,
};
pub use copy_mode::{CopyMode, CopySession};
pub use keymap::{
    action_by_name, action_name, emacs_preset, resolve_keymap, split_key_spec, vi_preset,
    CopyModeAction,
};
pub use motion::{apply as apply_motion, Motion};
pub use permissions::PermissionState;
pub use persist::{parse_persist_mode, PersistMode};
pub use region::{extract_region, selected_columns, SelectionMode};
pub use scrollback::Scrollback;
pub use selection::{extract_span, trim_trailing_blanks, Cursor};

use vstd::prelude::*;

verus! {

/// The version of the library, as reported to users and logs.
pub const VERSION: &'static str = "0.1.0";

} // verus!
pub mod plugin;
pub mod store;
