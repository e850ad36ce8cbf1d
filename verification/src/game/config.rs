//! Game settings: key bindings, graphics, gameplay and debug options, and
//! the values a new installation starts with.

use vstd::prelude::*;
use crate::game::input::{default_binding_seq, default_bindings, Bindings};

verus! {

/// All settings.
#[derive(Clone, Copy, Debug)]
pub struct GameConfig {
    pub key_bindings: Bindings,
    pub graphics: GraphicsConfig,
    pub gameplay: GameplayConfig,
    pub debug: DebugConfig,
}

#[derive(Clone, Copy, Debug)]
pub struct GraphicsConfig {
    pub render_distance: u32,
    pub frame_rate_cap: u32,
}

#[derive(Clone, Copy, Debug)]
pub struct GameplayConfig {
    pub tiling_n: u32,
}

#[derive(Clone, Copy, Debug)]
pub struct DebugConfig {
    pub log_clicks: bool,
    /// Place any structure for free, ignoring inventory.
    pub free_placement: bool,
}

impl Default for DebugConfig {
    fn default() -> (r: Self)
        ensures
            !r.log_clicks,
            !r.free_placement,
    {
        DebugConfig { log_clicks: false, free_placement: false }
    }
}

impl Default for GameConfig {
    fn default() -> (r: Self)
        ensures
            r.key_bindings@ == default_binding_seq(),
            r.graphics.render_distance == 3,
            r.graphics.frame_rate_cap == 60,
            r.gameplay.tiling_n == 5,
            !r.debug.log_clicks,
            !r.debug.free_placement,
    {
        GameConfig {
            key_bindings: default_bindings(),
            graphics: GraphicsConfig { render_distance: 3, frame_rate_cap: 60 },
            gameplay: GameplayConfig { tiling_n: 5 },
            debug: DebugConfig::default(),
        }
    }
}

} // verus!
