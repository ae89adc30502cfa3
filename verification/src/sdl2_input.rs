//! The input-capability backend: identifies itself and nothing more, a
//! placeholder for future input capture.

use vstd::prelude::*;
use crate::plugin::{InputPlugin, Plugin, PluginInfo, PluginType};

verus! {

/// An input backend with no state; it only reports its identity.
pub struct MepSdl2InputPlugin {}

impl Plugin for MepSdl2InputPlugin {
    fn new() -> Self {
        Self {  }
    }

    fn init(&mut self)
        ensures
            *final(self) == *old(self),
    {
    }

    fn get_plugin_info(&self) -> (info: PluginInfo)
        ensures
            info.plugin_type == PluginType::InputPlugin,
            info.plugin_name@ == "SDL2 Input"@,
            info.plugin_version@ == "0.1.0"@,
    {
        PluginInfo {
            plugin_name: "SDL2 Input",
            plugin_version: "0.1.0",
            plugin_type: PluginType::InputPlugin,
        }
    }
}

impl InputPlugin for MepSdl2InputPlugin {
}

/// The module entry point every backend exports under a fixed name: builds
/// the input backend for the host to drive.
pub fn mep_get_plugin() -> (p: MepSdl2InputPlugin) {
    <MepSdl2InputPlugin as Plugin>::new()
}

} // verus!
