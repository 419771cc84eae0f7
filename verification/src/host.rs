//! Host-environment helpers: the hosting application's configuration and
//! its privilege probes on hosts without a privilege model.
use vstd::prelude::*;

verus! {

/// User configuration of the hosting application.
#[derive(Clone, Copy, Debug, PartialEq, Eq, Structural)]
pub struct Config {
    /// Launch the application when the system starts.
    pub auto_start: bool,
    /// Start minimized to the tray.
    pub start_minimize: bool,
    /// Seconds between user-interface refreshes.
    pub ui_update: u8,
    /// Seconds between monitoring-service refreshes.
    pub service_update: u8,
    /// Whether battery activity history is recorded.
    pub record_battery_history: bool,
}

impl Default for Config {
    /// The configuration used until the host loads a saved one.
    fn default() -> (c: Config)
        ensures
            c == (Config {
                auto_start: false,
                start_minimize: true,
                ui_update: 2,
                service_update: 1,
                record_battery_history: false,
            }),
    {
        Config {
            auto_start: false,
            start_minimize: true,
            ui_update: 2,
            service_update: 1,
            record_battery_history: false,
        }
    }
}

/// Whether this process runs with elevated privileges. On hosts without a
/// privilege model there is nothing to be elevated to.
pub fn is_admin() -> (r: bool)
    ensures
        r == false,
{
    false
}

/// Relaunch the process elevated; on hosts without a privilege model this
/// does nothing.
pub fn elevate_self() {
}

} // verus!
