//! Configuration of the simulation: the dataset source, the display
//! switches, the numeric parameters the core consumes, and the command
//! endpoint's port. Loading the file is the caller's concern; the
//! library takes the values as plain data.

use vstd::prelude::*;

use crate::manager::MAX_CONNECTION_NUMBER;
use crate::manager::MAX_TIME_SPEED;
use crate::orbit::POS_LIMIT;

verus! {

/// Where the constellation dataset lives.
#[derive(Debug, Clone)]
pub struct Dataset {
    pub constellation_file: String,
}

/// Which overlays the renderer shows; toggled from the interface.
#[derive(Debug, Clone, Copy, PartialEq, Eq, Structural)]
pub struct Display {
    pub orbit: bool,
    pub connection: bool,
}

impl Display {
    /// Flip the orbit overlay.
    pub fn toggle_orbit(&mut self)
        ensures
            final(self).orbit == !old(self).orbit,
            final(self).connection == old(self).connection,
    {
        self.orbit = !self.orbit;
    }

    /// Flip the connection overlay.
    pub fn toggle_connection(&mut self)
        ensures
            final(self).connection == !old(self).connection,
            final(self).orbit == old(self).orbit,
    {
        self.connection = !self.connection;
    }
}

/// The numeric parameters the core consumes: the propagation rate
/// multiplier in thousandths, the admission/eviction threshold in
/// metres, and the per-node link capacity.
#[derive(Debug, Clone, Copy, PartialEq, Eq, Structural)]
pub struct Simulation {
    pub time_speed: i64,
    pub connection_distance: i64,
    pub connection_number: usize,
}

impl Simulation {
    /// The ranges under which the simulation context accepts these
    /// parameters.
    pub open spec fn valid(self) -> bool {
        &&& 0 < self.connection_number <= MAX_CONNECTION_NUMBER
        &&& 0 <= self.connection_distance <= POS_LIMIT
        &&& 0 <= self.time_speed <= MAX_TIME_SPEED
    }

    /// Whether the parameters are in range, checked at startup; an
    /// unusable configuration is the one fatal condition.
    pub fn check(&self) -> (r: bool)
        ensures
            r == self.valid(),
    {
        0 < self.connection_number && self.connection_number <= MAX_CONNECTION_NUMBER && 0
            <= self.connection_distance && self.connection_distance <= POS_LIMIT && 0
            <= self.time_speed && self.time_speed <= MAX_TIME_SPEED
    }
}

/// The command endpoint's listen port.
#[derive(Debug, Clone, Copy, PartialEq, Eq, Structural)]
pub struct Network {
    pub port: u16,
}

/// The whole configuration, as the startup code hands it in.
#[derive(Debug, Clone)]
pub struct Config {
    pub dataset: Option<Dataset>,
    pub display: Display,
    pub simulation: Simulation,
    pub network: Network,
}

} // verus!
