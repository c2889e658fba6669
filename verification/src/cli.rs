//! The commands of the program.

use vstd::prelude::*;

verus! {

/// What runs the containers of a network.
#[derive(Clone, Copy, Debug, PartialEq, Eq, Structural)]
pub enum ContainerRuntime {
    Docker,
    Podman,
}

/// The command line of the program.
#[derive(Debug)]
pub struct Cli {
    pub command: Commands,
}

/// A command of the program.
#[derive(Debug)]
pub enum Commands {
    /// Show DNS resolution statistics.
    Stats,
    /// Run the daemon and open the local DNS proxy listener.
    Daemon { dns_listen_addr: String, dns_upstream_addr: Option<String>, stats_ttl: u64 },
    /// Prepare a container network, ipset, and firewall rules for allowed domains.
    PrepareNetwork {
        runtime: ContainerRuntime,
        /// Outbound host interface for rootless Podman pasta traffic.
        interface: Option<String>,
        name: String,
        domain_patterns: Vec<String>,
    },
    /// Manage daemon-controlled ipsets.
    Ipset { command: IpsetCommands },
}

/// A command on the ipsets of the daemon.
#[derive(Debug)]
pub enum IpsetCommands {
    /// Create an ipset with one or more allowed domains.
    Create { name: String, allowed_domains: Vec<String> },
    /// Remove an existing ipset.
    Remove { name: String },
}

} // verus!
