//! Configuration of a node. Durations are in milliseconds.

use vstd::prelude::*;

verus! {

/// Relies on rand::random: a value drawn from the thread-local generator.
/// Nothing is promised of it.
pub assume_specification<T>[ rand::random::<T> ]() -> (r: T)
    where
        rand::distributions::Standard: rand::distributions::Distribution<T>,
;

/// Settings of a Raft node.
#[derive(Debug, Clone)]
pub struct RaftConfig {
    /// Least election timeout. The timeout of each election is drawn from
    /// `[election_timeout_min, election_timeout_max)`.
    pub election_timeout_min: u64,
    /// Bound above the election timeout; it must exceed the least one.
    pub election_timeout_max: u64,
    /// How often a leader sends heartbeats; less than the least election
    /// timeout.
    pub heartbeat_interval: u64,
    /// Most entries in one AppendEntries request; at least 1.
    pub max_append_entries: usize,
    /// Most command bytes in one AppendEntries request.
    pub max_append_bytes: usize,
    /// How many applied entries past the snapshot call for a new one; 0
    /// turns snapshots off.
    pub snapshot_threshold: u64,
    /// How many entries stay in the log after a snapshot.
    pub snapshot_trailing_logs: u64,
    /// Whether a leader may send again before a peer answers.
    pub enable_pipelining: bool,
}

impl RaftConfig {
    /// The default settings.
    pub open spec fn defaults() -> RaftConfig {
        RaftConfig {
            election_timeout_min: 150,
            election_timeout_max: 300,
            heartbeat_interval: 50,
            max_append_entries: 100,
            max_append_bytes: 1048576,
            snapshot_threshold: 10000,
            snapshot_trailing_logs: 1000,
            enable_pipelining: false,
        }
    }

    /// What a usable configuration needs.
    pub open spec fn valid(&self) -> bool {
        &&& self.election_timeout_min < self.election_timeout_max
        &&& self.heartbeat_interval < self.election_timeout_min
        &&& self.max_append_entries > 0
    }

    pub fn is_valid(&self) -> (r: bool)
        ensures
            r == self.valid(),
    {
        self.election_timeout_min < self.election_timeout_max && self.heartbeat_interval
            < self.election_timeout_min && self.max_append_entries > 0
    }

    /// The election timeout that the number `random` picks.
    pub open spec fn election_timeout_from_spec(&self, random: u64) -> u64 {
        (self.election_timeout_min + random % (self.election_timeout_max
            - self.election_timeout_min) as u64) as u64
    }

    /// The election timeout that the number `random` picks, uniformly when
    /// `random` is.
    pub fn election_timeout_from(&self, random: u64) -> (r: u64)
        requires
            self.election_timeout_min < self.election_timeout_max,
        ensures
            r == self.election_timeout_from_spec(random),
            self.election_timeout_min <= r < self.election_timeout_max,
    {
        let span = self.election_timeout_max - self.election_timeout_min;
        self.election_timeout_min + random % span
    }

    /// A freshly drawn election timeout.
    pub fn random_election_timeout(&self) -> (r: u64)
        requires
            self.election_timeout_min < self.election_timeout_max,
        ensures
            self.election_timeout_min <= r < self.election_timeout_max,
    {
        let random: u64 = rand::random::<u64>();
        self.election_timeout_from(random)
    }
}

impl Default for RaftConfig {
    /// Timeouts of 150 to 300 ms, heartbeats every 50 ms, 100 entries or
    /// 1 MiB per request, a snapshot every 10000 entries keeping 1000.
    fn default() -> (r: RaftConfig)
        ensures
            r == RaftConfig::defaults(),
            r.valid(),
    {
        RaftConfig {
            election_timeout_min: 150,
            election_timeout_max: 300,
            heartbeat_interval: 50,
            max_append_entries: 100,
            max_append_bytes: 1024 * 1024,
            snapshot_threshold: 10000,
            snapshot_trailing_logs: 1000,
            enable_pipelining: false,
        }
    }
}

/// Builds a `RaftConfig` from the defaults.
pub struct RaftConfigBuilder {
    config: RaftConfig,
}

impl RaftConfigBuilder {
    /// The configuration built so far.
    pub closed spec fn spec_config(&self) -> RaftConfig {
        self.config
    }

    pub fn new() -> (r: RaftConfigBuilder)
        ensures
            r.spec_config() == RaftConfig::defaults(),
    {
        RaftConfigBuilder { config: RaftConfig::default() }
    }

    pub fn election_timeout(self, min: u64, max: u64) -> (r: RaftConfigBuilder)
        ensures
            r.spec_config() == (RaftConfig {
                election_timeout_min: min,
                election_timeout_max: max,
                ..self.spec_config()
            }),
    {
        let mut b = self;
        b.config.election_timeout_min = min;
        b.config.election_timeout_max = max;
        b
    }

    pub fn heartbeat_interval(self, interval: u64) -> (r: RaftConfigBuilder)
        ensures
            r.spec_config() == (RaftConfig { heartbeat_interval: interval, ..self.spec_config() }),
    {
        let mut b = self;
        b.config.heartbeat_interval = interval;
        b
    }

    pub fn max_append_entries(self, max: usize) -> (r: RaftConfigBuilder)
        ensures
            r.spec_config() == (RaftConfig { max_append_entries: max, ..self.spec_config() }),
    {
        let mut b = self;
        b.config.max_append_entries = max;
        b
    }

    pub fn max_append_bytes(self, max: usize) -> (r: RaftConfigBuilder)
        ensures
            r.spec_config() == (RaftConfig { max_append_bytes: max, ..self.spec_config() }),
    {
        let mut b = self;
        b.config.max_append_bytes = max;
        b
    }

    pub fn snapshot_threshold(self, threshold: u64) -> (r: RaftConfigBuilder)
        ensures
            r.spec_config() == (RaftConfig { snapshot_threshold: threshold, ..self.spec_config() }),
    {
        let mut b = self;
        b.config.snapshot_threshold = threshold;
        b
    }

    pub fn snapshot_trailing_logs(self, trailing: u64) -> (r: RaftConfigBuilder)
        ensures
            r.spec_config() == (RaftConfig {
                snapshot_trailing_logs: trailing,
                ..self.spec_config()
            }),
    {
        let mut b = self;
        b.config.snapshot_trailing_logs = trailing;
        b
    }

    pub fn enable_pipelining(self, enable: bool) -> (r: RaftConfigBuilder)
        ensures
            r.spec_config() == (RaftConfig { enable_pipelining: enable, ..self.spec_config() }),
    {
        let mut b = self;
        b.config.enable_pipelining = enable;
        b
    }

    /// Whether `build` would accept the configuration.
    pub fn is_valid(&self) -> (r: bool)
        ensures
            r == self.spec_config().valid(),
    {
        self.config.is_valid()
    }

    /// The configuration; it must be valid.
    pub fn build(self) -> (r: RaftConfig)
        requires
            self.spec_config().valid(),
        ensures
            r == self.spec_config(),
    {
        self.config
    }
}

impl Default for RaftConfigBuilder {
    fn default() -> (r: RaftConfigBuilder)
        ensures
            r.spec_config() == RaftConfig::defaults(),
    {
        RaftConfigBuilder::new()
    }
}

} // verus!
