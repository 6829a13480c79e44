//! The limits that a running server keeps to.
use crate::number;
use vstd::prelude::*;

verus! {

pub const DEFAULT_KEEP_ALIVE_TIMEOUT_SECS: u64 = 5;

pub const DEFAULT_KEEP_ALIVE_MAX: usize = 100;

pub const DEFAULT_MAX_EVENTS: usize = 256;

pub const DEFAULT_MAX_CONNECTIONS: usize = 4096;

pub const DEFAULT_MAX_REQUEST_SIZE: usize = 1048576;

pub const MAX_AUTO_CONNECTIONS: usize = 16384;

pub const RESERVED_FDS: usize = 128;

pub const MIN_CONNECTIONS: usize = 1;

/// The limits that a running server keeps to.
#[derive(Clone, Copy, Debug, PartialEq, Eq, Structural)]
pub struct RuntimeConfig {
    pub keep_alive_timeout_secs: u64,
    pub keep_alive_max: usize,
    pub max_events: usize,
    pub max_connections: usize,
    pub max_request_size: usize,
}

/// `n`, raised to `low` or lowered to `high` where it lies outside.
pub open spec fn clamp(n: int, low: int, high: int) -> int {
    if n < low {
        low
    } else if n > high {
        high
    } else {
        n
    }
}

/// How many connections a process with `limit` file descriptors may hold: those
/// that are not kept for other uses, within a conservative range.
pub open spec fn connections_for(limit: int) -> int {
    clamp(
        if limit >= RESERVED_FDS {
            limit - RESERVED_FDS
        } else {
            0
        },
        MIN_CONNECTIONS as int,
        MAX_AUTO_CONNECTIONS as int,
    )
}

/// The number of connections to start from where none is set: what the descriptor
/// limit allows, or a fixed number where there is no such limit.
pub open spec fn auto_connections(limit: Option<usize>) -> int {
    match limit {
        Some(limit) => connections_for(limit as int),
        None => clamp(
            DEFAULT_MAX_CONNECTIONS as int,
            MIN_CONNECTIONS as int,
            MAX_AUTO_CONNECTIONS as int,
        ),
    }
}

impl RuntimeConfig {
    /// Whether every limit is above zero.
    pub open spec fn valid(self) -> bool {
        self.problem() is None
    }

    /// What is wrong with the limits: the first that is zero.
    pub open spec fn problem(self) -> Option<Seq<char>> {
        if self.keep_alive_timeout_secs == 0 {
            Some("keep-alive timeout must be greater than 0"@)
        } else if self.keep_alive_max == 0 {
            Some("keep-alive max must be greater than 0"@)
        } else if self.max_events == 0 {
            Some("max-events must be greater than 0"@)
        } else if self.max_connections == 0 {
            Some("max-connections must be greater than 0"@)
        } else if self.max_request_size == 0 {
            Some("max-request-size must be greater than 0"@)
        } else {
            None
        }
    }

    /// The limits to start from, in a process with `limit` file descriptors.
    pub open spec fn defaults(limit: Option<usize>) -> RuntimeConfig {
        RuntimeConfig {
            keep_alive_timeout_secs: 5,
            keep_alive_max: 100,
            max_events: 256,
            max_connections: auto_connections(limit) as usize,
            max_request_size: 1048576,
        }
    }

    /// These limits, with no more connections than `limit` file descriptors allow.
    pub open spec fn capped(self, limit: Option<usize>) -> RuntimeConfig {
        match limit {
            Some(limit) if self.max_connections > connections_for(limit as int) => RuntimeConfig {
                max_connections: connections_for(limit as int) as usize,
                ..self
            },
            _ => self,
        }
    }

    /// What to tell the user where the limits are lowered to what `limit` allows.
    pub open spec fn cap_warning(self, limit: usize) -> Seq<char> {
        "Warning: max_connections="@ + number::decimal(self.max_connections as nat)
            + " exceeds OS file descriptor limit "@ + number::decimal(limit as nat)
            + " (reserved "@ + number::decimal(RESERVED_FDS as nat) + "), capping to "@
            + number::decimal(connections_for(limit as int) as nat)
    }

    /// The limits to start from. `limit` is the number of file descriptors that the
    /// process may open, where the system has such a limit.
    pub fn default_values(limit: Option<usize>) -> (r: RuntimeConfig)
        ensures
            r == RuntimeConfig::defaults(limit),
    {
        RuntimeConfig {
            keep_alive_timeout_secs: DEFAULT_KEEP_ALIVE_TIMEOUT_SECS,
            keep_alive_max: DEFAULT_KEEP_ALIVE_MAX,
            max_events: DEFAULT_MAX_EVENTS,
            max_connections: default_max_connections(limit),
            max_request_size: DEFAULT_MAX_REQUEST_SIZE,
        }
    }

    /// How long a connection may stay idle, in seconds.
    pub fn keep_alive_timeout(&self) -> (r: u64)
        ensures
            r == self.keep_alive_timeout_secs,
    {
        self.keep_alive_timeout_secs
    }

    /// Refuses limits of zero.
    pub fn validate(&self) -> (r: Result<(), String>)
        ensures
            match r {
                Ok(()) => self.problem() is None,
                Err(message) => self.problem() == Some(message@),
            },
    {
        if self.keep_alive_timeout_secs == 0 {
            return Err("keep-alive timeout must be greater than 0".to_owned());
        }
        if self.keep_alive_max == 0 {
            return Err("keep-alive max must be greater than 0".to_owned());
        }
        if self.max_events == 0 {
            return Err("max-events must be greater than 0".to_owned());
        }
        if self.max_connections == 0 {
            return Err("max-connections must be greater than 0".to_owned());
        }
        if self.max_request_size == 0 {
            return Err("max-request-size must be greater than 0".to_owned());
        }
        Ok(())
    }

    /// Lowers the number of connections to what `limit` file descriptors allow, and
    /// returns a warning where that changes it.
    pub fn adjust_to_os_fd_limit(&mut self, limit: Option<usize>) -> (r: Option<String>)
        ensures
            *final(self) == old(self).capped(limit),
            match r {
                Some(warning) => limit is Some && old(self).max_connections > connections_for(
                    limit->0 as int,
                ) && warning@ == old(self).cap_warning(limit->0),
                None => limit is Some ==> old(self).max_connections <= connections_for(
                    limit->0 as int,
                ),
            },
    {
        let limit: usize = match limit {
            Some(limit) => limit,
            None => {
                return None;
            },
        };
        let capped = connections_within(limit.saturating_sub(RESERVED_FDS));
        if self.max_connections > capped {
            let mut warning = "Warning: max_connections=".to_owned();
            number::push_decimal(&mut warning, self.max_connections as u64);
            warning.append(" exceeds OS file descriptor limit ");
            number::push_decimal(&mut warning, limit as u64);
            warning.append(" (reserved ");
            number::push_decimal(&mut warning, RESERVED_FDS as u64);
            warning.append("), capping to ");
            number::push_decimal(&mut warning, capped as u64);
            self.max_connections = capped;
            Some(warning)
        } else {
            None
        }
    }
}

fn connections_within(n: usize) -> (r: usize)
    ensures
        r == clamp(n as int, MIN_CONNECTIONS as int, MAX_AUTO_CONNECTIONS as int),
{
    if n < MIN_CONNECTIONS {
        MIN_CONNECTIONS
    } else if n > MAX_AUTO_CONNECTIONS {
        MAX_AUTO_CONNECTIONS
    } else {
        n
    }
}

/// The number of connections to start from where none is set.
pub fn default_max_connections(limit: Option<usize>) -> (r: usize)
    ensures
        r == auto_connections(limit),
{
    let derived: usize = match limit {
        Some(limit) => limit.saturating_sub(RESERVED_FDS),
        None => DEFAULT_MAX_CONNECTIONS,
    };
    connections_within(derived)
}

/// The limits to start from are valid, whatever the system allows, and allow no more
/// connections than the conservative range holds.
pub proof fn law_defaults_valid(limit: Option<usize>)
    ensures
        RuntimeConfig::defaults(limit).valid(),
        1 <= RuntimeConfig::defaults(limit).max_connections <= 16384,
        RuntimeConfig::defaults(limit).capped(limit) == RuntimeConfig::defaults(limit),
{
}

/// Lowering valid limits keeps them valid, never raises them, touches nothing but the
/// number of connections, and leaves the reserved descriptors free wherever there are
/// more than those; lowering them again changes nothing.
pub proof fn law_capped(config: RuntimeConfig, limit: usize)
    ensures
        config.valid() ==> config.capped(Some(limit)).valid(),
        config.capped(Some(limit)).max_connections <= config.max_connections,
        limit > RESERVED_FDS ==> config.capped(Some(limit)).max_connections + RESERVED_FDS
            <= limit,
        config.capped(Some(limit)) == (RuntimeConfig {
            max_connections: config.capped(Some(limit)).max_connections,
            ..config
        }),
        config.capped(Some(limit)).capped(Some(limit)) == config.capped(Some(limit)),
{
}

} // verus!
