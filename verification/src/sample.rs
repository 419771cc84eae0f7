//! Row and snapshot types shared by all tiers of the store.
//!
//! All numeric telemetry is carried as fixed-point integers: a caller picks a
//! scale (for instance millionths) and hands in scaled readings. Metric values
//! are bounded by `METRIC_MAX` and timestamps by `TIME_MAX` so that sums and
//! differences computed by the store never overflow.
use vstd::prelude::*;

verus! {

/// Largest metric value the store accepts (fixed-point units).
pub const METRIC_MAX: i64 = 1_000_000_000_000;

/// Largest timestamp (whole seconds since the epoch) the store accepts.
pub const TIME_MAX: i64 = 1_000_000_000_000;

/// The discrete battery states tracked by the state-interval history.
#[derive(Clone, Copy, Debug, PartialEq, Eq, Structural)]
pub enum BatteryState {
    Unknown,
    Charging,
    Discharging,
    Full,
    Empty,
}

/// One battery reading handed in by the sampling collaborator.
#[derive(Clone, Copy, Debug, PartialEq, Eq, Structural)]
pub struct BatterySnapshot {
    pub timestamp: i64,
    pub state: BatteryState,
    /// Whether the sampler saw a state transition since its previous reading
    /// (a transition out of `Unknown` does not count).
    pub state_changed: bool,
    pub percentage: i64,
    pub energy_rate: i64,
    pub voltage: i64,
    pub state_of_health: i64,
    pub capacity: i64,
    pub full_capacity: i64,
    pub design_capacity: i64,
}

/// One system reading handed in by the sampling collaborator.
#[derive(Clone, Copy, Debug, PartialEq, Eq, Structural)]
pub struct SystemSnapshot {
    pub cpu_load: i64,
    pub screen_brightness: i64,
}

/// A row of the short (raw) tier: one row per ingested snapshot pair.
#[derive(Clone, Copy, Debug, PartialEq, Eq, Structural)]
pub struct RawSample {
    /// Auto-assigned ingestion sequence number, strictly increasing.
    pub id: u64,
    pub timestamp: i64,
    pub state: BatteryState,
    pub percentage: i64,
    pub energy_rate: i64,
    pub voltage: i64,
    pub cpu_load: i64,
    pub screen_brightness: i64,
    pub state_of_health: i64,
}

/// A row of the realtime (medium) or one-minute (long) tier: one row per
/// time bucket, keyed by the bucket start.
#[derive(Clone, Copy, Debug, PartialEq, Eq, Structural)]
pub struct TierSample {
    pub timestamp: i64,
    pub state: BatteryState,
    pub percentage: i64,
    pub energy_rate: i64,
    pub voltage: i64,
    pub cpu_load: i64,
    pub screen_brightness: i64,
    pub state_of_health: i64,
}

/// One state interval of the battery-state history.
///
/// `end_at == None` marks the currently open interval. The five fields
/// `state_of_health`, `energy_rate`, `voltage`, `cpu_load` and
/// `screen_brightness` are rolling statistics over the interval; the others
/// are instantaneous values from the most recent snapshot.
#[derive(Clone, Copy, Debug, PartialEq, Eq)]
pub struct StateHistoryRecord {
    /// Interval start (primary key).
    pub timestamp: i64,
    pub state: BatteryState,
    /// State of the interval that precedes this one, if any.
    pub prev: Option<BatteryState>,
    /// Interval end; `None` while the interval is still open.
    pub end_at: Option<i64>,
    pub capacity: i64,
    pub full_capacity: i64,
    pub design_capacity: i64,
    pub percentage: i64,
    pub state_of_health: i64,
    pub energy_rate: i64,
    pub voltage: i64,
    pub cpu_load: i64,
    pub screen_brightness: i64,
}

/// Names one of the numeric metric columns of a tier row, so that contracts
/// can quantify over all metrics at once.
#[derive(Clone, Copy, Debug, PartialEq, Eq, Structural)]
pub enum Metric {
    Percentage,
    EnergyRate,
    Voltage,
    CpuLoad,
    ScreenBrightness,
    StateOfHealth,
}

pub open spec fn metric_ok(v: i64) -> bool {
    0 <= v <= METRIC_MAX
}

pub open spec fn ts_ok(t: i64) -> bool {
    0 <= t <= TIME_MAX
}

pub open spec fn raw_metric(r: RawSample, m: Metric) -> int {
    match m {
        Metric::Percentage => r.percentage as int,
        Metric::EnergyRate => r.energy_rate as int,
        Metric::Voltage => r.voltage as int,
        Metric::CpuLoad => r.cpu_load as int,
        Metric::ScreenBrightness => r.screen_brightness as int,
        Metric::StateOfHealth => r.state_of_health as int,
    }
}

pub open spec fn tier_metric(t: TierSample, m: Metric) -> int {
    match m {
        Metric::Percentage => t.percentage as int,
        Metric::EnergyRate => t.energy_rate as int,
        Metric::Voltage => t.voltage as int,
        Metric::CpuLoad => t.cpu_load as int,
        Metric::ScreenBrightness => t.screen_brightness as int,
        Metric::StateOfHealth => t.state_of_health as int,
    }
}

impl BatterySnapshot {
    pub open spec fn wf(self) -> bool {
        &&& ts_ok(self.timestamp)
        &&& metric_ok(self.percentage)
        &&& metric_ok(self.energy_rate)
        &&& metric_ok(self.voltage)
        &&& metric_ok(self.state_of_health)
        &&& metric_ok(self.capacity)
        &&& metric_ok(self.full_capacity)
        &&& metric_ok(self.design_capacity)
    }
}

impl SystemSnapshot {
    pub open spec fn wf(self) -> bool {
        &&& metric_ok(self.cpu_load)
        &&& metric_ok(self.screen_brightness)
    }
}

impl RawSample {
    pub open spec fn wf(self) -> bool {
        &&& ts_ok(self.timestamp)
        &&& forall|m: Metric| metric_ok_int(#[trigger] raw_metric(self, m))
    }
}

impl TierSample {
    pub open spec fn wf(self) -> bool {
        &&& ts_ok(self.timestamp)
        &&& forall|m: Metric| metric_ok_int(#[trigger] tier_metric(self, m))
    }
}

impl StateHistoryRecord {
    pub open spec fn wf(self) -> bool {
        &&& ts_ok(self.timestamp)
        &&& metric_ok(self.capacity)
        &&& metric_ok(self.full_capacity)
        &&& metric_ok(self.design_capacity)
        &&& metric_ok(self.percentage)
        &&& metric_ok(self.state_of_health)
        &&& metric_ok(self.energy_rate)
        &&& metric_ok(self.voltage)
        &&& metric_ok(self.cpu_load)
        &&& metric_ok(self.screen_brightness)
    }
}

pub open spec fn metric_ok_int(v: int) -> bool {
    0 <= v <= METRIC_MAX as int
}

/// Raw rows are kept in ingestion order: ids strictly increasing and
/// timestamps non-decreasing (equal timestamps are allowed and are told
/// apart by the id).
pub open spec fn raw_ordered(s: Seq<RawSample>) -> bool {
    forall|i: int, j: int|
        0 <= i < j < s.len() ==> #[trigger] s[i].id < #[trigger] s[j].id && s[i].timestamp
            <= s[j].timestamp
}

/// Tier rows are keyed by their bucket timestamp, strictly increasing.
pub open spec fn tier_ordered(s: Seq<TierSample>) -> bool {
    forall|i: int, j: int|
        0 <= i < j < s.len() ==> #[trigger] s[i].timestamp < #[trigger] s[j].timestamp
}

pub open spec fn raw_rows_wf(s: Seq<RawSample>) -> bool {
    forall|i: int| 0 <= i < s.len() ==> (#[trigger] s[i]).wf()
}

pub open spec fn tier_rows_wf(s: Seq<TierSample>) -> bool {
    forall|i: int| 0 <= i < s.len() ==> (#[trigger] s[i]).wf()
}

/// The raw row built from a snapshot pair when it is ingested.
pub open spec fn raw_sample_of(id: u64, battery: BatterySnapshot, system: SystemSnapshot) -> RawSample {
    RawSample {
        id,
        timestamp: battery.timestamp,
        state: battery.state,
        percentage: battery.percentage,
        energy_rate: battery.energy_rate,
        voltage: battery.voltage,
        cpu_load: system.cpu_load,
        screen_brightness: system.screen_brightness,
        state_of_health: battery.state_of_health,
    }
}

} // verus!
