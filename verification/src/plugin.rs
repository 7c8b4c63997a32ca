//! The interface a motion plugin implements.

use vstd::prelude::*;
use anyhow::Error as AnyError;

verus! {

#[verifier::external_type_specification]
#[verifier::external_body]
pub struct ExAnyhowError(AnyError);

/// Basic operations of a plugin.
pub trait PluginHandle {
    /// Greets; a plugin's liveness check.
    fn hello(&mut self) -> Result<(), AnyError>;

    /// Adds `a` and `b`, repeated `loop_count` times by the plugin.
    fn add(&mut self, a: i32, b: i32, loop_count: i32) -> Result<i32, AnyError>;
}

/// A plugin whose state can be saved and restored.
pub trait StatefulPlugin: PluginHandle {
    /// The plugin's state as bytes.
    fn save_state(&mut self) -> Result<Vec<u8>, AnyError>;

    /// Restores a state saved by `save_state`.
    fn load_state(&mut self, state: &[u8]) -> Result<(), AnyError>;
}

} // verus!
