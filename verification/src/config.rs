//! Client configuration: connection target, reconnect policy, heartbeat.
//! Time spans are in nanoseconds unless a name says otherwise.

use crate::ackstore::wal_core::WalConfig;
use vstd::prelude::*;

verus! {

/// Top-level client configuration.
#[derive(Debug)]
pub struct ClientConfig {
    /// Broker address (`host:port`).
    pub addr: String,
    /// Reconnection backoff policy.
    pub reconnect: ReconnectPolicy,
    /// Heartbeat and dead-connection detection.
    pub keep_alive: KeepAlive,
    /// Depth of a publish ring, in frames: a power of two.
    pub write_queue_capacity: usize,
    /// Rings that can be leased at once, the background tasks' included.
    pub max_write_producers: usize,
    /// Depth of the ack and nack queues.
    pub ack_queue_capacity: usize,
    /// How long a publish that awaits its reply may wait for ring space.
    pub max_block: u64,
    /// Age in milliseconds at which a deferred ack is dropped unpersisted.
    pub ack_pending_ttl_ms: u64,
    /// Durable redelivery-dedup store. `None`: a redelivered message runs the
    /// handler again.
    pub ack_store: Option<WalConfig>,
    /// Bearer token sent once per connection. `None` sends no token.
    pub auth_token: Option<String>,
    /// `None`: plain TCP.
    pub tls: Option<TlsConfig>,
}

/// Longest token the broker accepts, in bytes.
pub const MAX_AUTH_TOKEN_LEN: usize = 4096;

/// Rings that the background tasks hold for the life of a client.
pub const RESERVED_LEASES: usize = 4;

/// Default for `ClientConfig::max_block`: five seconds.
pub const DEFAULT_MAX_BLOCK: u64 = 5_000_000_000;

/// TLS for the connection.
#[derive(Debug)]
pub struct TlsConfig {
    /// Name for SNI and certificate verification.
    pub server_name: String,
    /// Accept any certificate. For development only.
    pub danger_accept_invalid_certs: bool,
}

/// Decorrelated-jitter backoff: `next = min(cap, rand(base, prev * 3))`.
#[derive(Debug, Clone, Copy, PartialEq, Eq, Structural)]
pub struct ReconnectPolicy {
    /// Initial and minimum delay.
    pub base: u64,
    /// Maximum delay of one attempt.
    pub cap: u64,
    /// Attempts before giving up. `None`: never.
    pub max_attempts: Option<u32>,
}

/// Heartbeat watchdog.
#[derive(Debug, Clone, Copy, PartialEq, Eq, Structural)]
pub struct KeepAlive {
    /// How often a ping goes out.
    pub interval: u64,
    /// Silence after which the connection counts as dead.
    pub timeout: u64,
}

impl Default for ReconnectPolicy {
    fn default() -> (r: ReconnectPolicy)
        ensures
            r.base == 100_000_000,
            r.cap == 30_000_000_000,
            r.max_attempts is None,
    {
        ReconnectPolicy { base: 100_000_000, cap: 30_000_000_000, max_attempts: None }
    }
}

impl Default for KeepAlive {
    fn default() -> (r: KeepAlive)
        ensures
            r.interval == 30_000_000_000,
            r.timeout == 60_000_000_000,
    {
        KeepAlive { interval: 30_000_000_000, timeout: 60_000_000_000 }
    }
}

impl ClientConfig {
    /// The defaults. `env_token` is the value of `ARBITRO_TOKEN`, where that
    /// variable is set; an empty one counts as unset. `producers` is the
    /// number of rings to offer and `ack_queue` the depth of the ack queues.
    pub fn with_env(env_token: Option<String>, producers: usize, ack_queue: usize) -> (r:
        ClientConfig)
        ensures
            r.addr@ == "127.0.0.1:9898"@,
            r.reconnect == (ReconnectPolicy {
                base: 100_000_000,
                cap: 30_000_000_000,
                max_attempts: None,
            }),
            r.keep_alive == (KeepAlive { interval: 30_000_000_000, timeout: 60_000_000_000 }),
            r.write_queue_capacity == 4096,
            r.max_write_producers == producers,
            r.ack_queue_capacity == ack_queue,
            r.max_block == DEFAULT_MAX_BLOCK,
            r.max_block == 5_000_000_000,
            r.ack_pending_ttl_ms == 86_400_000,
            r.ack_store is None,
            r.auth_token == (match env_token {
                Some(t) => if t@.len() == 0 {
                    None
                } else {
                    env_token
                },
                None => None,
            }),
            r.tls is None,
    {
        let auth_token: Option<String> = match env_token {
            Some(t) => {
                if t.as_str().unicode_len() == 0 {
                    None
                } else {
                    Some(t)
                }
            },
            None => None,
        };
        ClientConfig {
            addr: "127.0.0.1:9898".to_owned(),
            reconnect: ReconnectPolicy::default(),
            keep_alive: KeepAlive::default(),
            write_queue_capacity: 4096,
            max_write_producers: producers,
            ack_queue_capacity: ack_queue,
            max_block: DEFAULT_MAX_BLOCK,
            ack_pending_ttl_ms: 86_400_000,
            ack_store: None,
            auth_token,
            tls: None,
        }
    }
}

} // verus!
