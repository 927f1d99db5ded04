//! A fine-grained reactive store. Atoms hold values that callers set;
//! reactions hold values computed from other entries. Each recompute of a
//! reaction records what it read, so a live write re-runs exactly the entries
//! that depend on the written one, and a reaction that stops reading an entry
//! stops depending on it. Reversible writes go on an undo/redo queue.
pub mod access;
pub mod atom;
pub mod graph;
pub mod key;
pub mod keymap;
pub mod laws;
pub mod reaction;
pub mod reactive_state_functions;
pub mod reverse;
pub mod reversible_atom;
pub mod store;
pub mod undo;

pub use crate::access::{CloneReactiveState, Observable, ObserveChangeReactiveState};
pub use crate::atom::Atom;
pub use crate::key::{
    resolve_content_key, resolve_positional_key, same_key, CallSite, Local, SlottedKey,
    StorageKey, TopoKey,
};
pub use crate::reaction::Reaction;
pub use crate::reactive_state_functions::{
    atom, atom_reverse, clone_reactive_state_with_id, execute_reaction_nodes, reaction,
    reaction_start_suspended, reactive_state_exists_for_id, read_reactive_state_with_id,
    remove_reactive_reversible_state_with_id, remove_reactive_state_with_id,
    return_key_for_type_and_insert_if_required, set_atom_reversible_state_with_id,
    set_atom_state_with_id, set_inert_atom_reversible_state_with_id,
    set_inert_atom_state_with_id, try_read_reactive_state_with_id, unlink_dead_links,
    update_atom_reversible_state_with_id, update_atom_state_with_id,
};
pub use crate::reverse::{global_reverse_queue, GlobalUndo, ReverseQueue, UndoError};
pub use crate::reversible_atom::ReversibleAtom;
pub use crate::store::{PropagationError, ReactiveContext, Recompute, Store};
pub use crate::undo::{Action, Command, UndoStore, UndoVec};
