//! Node configuration and its command-line form.
use vstd::prelude::*;

verus! {

use crate::error::MeshError;
use crate::util::{parse_u64, spec_parse_u64};

/// The UDP discovery port shared by nodes on one LAN, unless overridden.
pub const DEFAULT_DISCOVERY_PORT: u16 = 9998;

/// Everything the node runtime is configured with. Intervals and timeouts
/// are in milliseconds.
#[derive(Debug, Clone, PartialEq, Eq)]
pub struct Config {
    /// TCP port the node listens on.
    pub listen_port: u16,
    /// Bootstrap peer addresses, host:port.
    pub known_peers: Vec<String>,
    pub connection_timeout_ms: u64,
    pub keepalive_interval_ms: u64,
    pub heartbeat_interval_ms: u64,
    pub peer_stale_timeout_ms: u64,
    /// The dialer gives up on a peer after this many attempts.
    pub max_connection_attempts: u32,
    pub retry_interval_ms: u64,
    /// Emit structured routing decision records.
    pub routing_debug: bool,
    /// Data directory for persistent identity and stores.
    pub data_dir: Option<String>,
    /// Port for the local control API.
    pub api_port: Option<u16>,
    /// UDP discovery port.
    pub discovery_port: u16,
    pub enable_discovery: bool,
    /// Total connected peers stay at or below this.
    pub max_connections: usize,
    /// Concurrent in-flight connects stay at or below this.
    pub max_connect_in_flight: usize,
    /// Base of the per-address dial cooldown.
    pub connect_cooldown_ms: u64,
    /// Ceiling of the per-address dial cooldown.
    pub connect_backoff_max_ms: u64,
}

impl Config {
    /// The defaults every field starts from.
    pub fn fresh(listen_port: u16) -> (r: Config)
        ensures
            r.listen_port == listen_port,
            r.known_peers@.len() == 0,
            r.connection_timeout_ms == 10_000,
            r.keepalive_interval_ms == 30_000,
            r.heartbeat_interval_ms == 5_000,
            r.peer_stale_timeout_ms == 120_000,
            r.max_connection_attempts == 5,
            r.retry_interval_ms == 5_000,
            !r.routing_debug,
            r.data_dir is None,
            r.api_port is None,
            r.discovery_port == DEFAULT_DISCOVERY_PORT,
            r.enable_discovery,
            r.max_connections == 24,
            r.max_connect_in_flight == 16,
            r.connect_cooldown_ms == 5_000,
            r.connect_backoff_max_ms == 120_000,
    {
        Config {
            listen_port,
            known_peers: Vec::new(),
            connection_timeout_ms: 10_000,
            keepalive_interval_ms: 30_000,
            heartbeat_interval_ms: 5_000,
            peer_stale_timeout_ms: 120_000,
            max_connection_attempts: 5,
            retry_interval_ms: 5_000,
            routing_debug: false,
            data_dir: None,
            api_port: None,
            discovery_port: DEFAULT_DISCOVERY_PORT,
            enable_discovery: true,
            max_connections: 24,
            max_connect_in_flight: 16,
            connect_cooldown_ms: 5_000,
            connect_backoff_max_ms: 120_000,
        }
    }

    /// Build a configuration from command-line words: the port, then any
    /// mix of peer addresses and flags. Rejected without a port word, and
    /// when the port or a flag's argument does not parse.
    pub fn from_args(args: &Vec<String>) -> (r: Result<Config, MeshError>)
        ensures
            args@.len() < 2 ==> r is Err,
            r matches Err(e) ==> e is Config,
            r matches Ok(c) ==> args@.len() >= 2 && (spec_parse_u64(args@[1]@) matches Some(p) && p
                <= 65535 && c.listen_port == p),
            args@.len() == 2 && (spec_parse_u64(args@[1]@) matches Some(p) && p <= 65535) ==> r
                is Ok,
    {
        if args.len() < 2 {
            return Err(MeshError::Config(String::from_str("a listen port is required")));
        }
        let port: u16 = match parse_u64(args[1].as_str()) {
            Some(p) if p <= 65535 => p as u16,
            _ => {
                return Err(MeshError::Config(
                    String::from_str("Port must be a valid number (0-65535)"),
                ));
            },
        };
        let mut c = Config::fresh(port);
        let mut i: usize = 2;
        while i < args.len()
            invariant
                2 <= i,
                args@.len() >= 2,
                c.listen_port == port,
                spec_parse_u64(args@[1]@) == Some(port as u64),
            decreases args@.len() - i,
        {
            let word = &args[i];
            if streq(word, "--routing-debug") {
                c.routing_debug = true;
                i = i + 1;
            } else if streq(word, "--no-discovery") {
                c.enable_discovery = false;
                i = i + 1;
            } else if streq(word, "--data-dir") {
                if i + 1 >= args.len() {
                    return Err(MeshError::Config(
                        String::from_str("--data-dir requires a path argument"),
                    ));
                }
                c.data_dir = Some(args[i + 1].clone());
                i = i + 2;
            } else if streq(word, "--api-port") {
                if i + 1 >= args.len() {
                    return Err(MeshError::Config(
                        String::from_str("--api-port requires a port argument"),
                    ));
                }
                match parse_u64(args[i + 1].as_str()) {
                    Some(p) if p <= 65535 => {
                        c.api_port = Some(p as u16);
                    },
                    _ => {
                        return Err(MeshError::Config(
                            String::from_str("--api-port must be a valid number (0-65535)"),
                        ));
                    },
                }
                i = i + 2;
            } else if streq(word, "--discovery-port") {
                if i + 1 >= args.len() {
                    return Err(MeshError::Config(
                        String::from_str("--discovery-port requires a port argument"),
                    ));
                }
                match parse_u64(args[i + 1].as_str()) {
                    Some(p) if p <= 65535 => {
                        c.discovery_port = p as u16;
                    },
                    _ => {
                        return Err(MeshError::Config(
                            String::from_str("--discovery-port must be a valid number (0-65535)"),
                        ));
                    },
                }
                i = i + 2;
            } else {
                c.known_peers.push(word.clone());
                i = i + 1;
            }
        }
        Ok(c)
    }
}

/// Whether a word equals a flag name.
fn streq(word: &String, flag: &str) -> (r: bool)
    ensures
        r == (word@ == flag@),
{
    let f: String = flag.to_owned();
    *word == f
}

} // verus!
