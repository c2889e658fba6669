//! Dockerwall: outbound firewalling for containers by the domains that they ask for.
//!
//! A daemon passes the questions of containers for names on, and puts the addresses in the
//! answers into ipsets, each of which allows some domains. Firewall rules let the packets of a
//! network through that go to an address in its set or belong to a connection that was accepted
//! before, and drop the others.
//!
//! - [`text`] and [`addr`]: text, numbers and IP addresses.
//! - [`state`], [`stats`], [`proxy`] and [`daemon`]: what the daemon knows, what it takes from
//!   responses, and what requests and responses do to it.
//! - [`control`], [`manage`] and [`record`]: what goes over the control socket.
//! - [`ipset`]: what the program ipset is told, and what it makes of it.
//! - [`network`], [`rules`], [`tasks`], [`trust`] and [`root`]: the parts of a preparation.
//! - [`prepare`], [`docker`] and [`podman`]: how a network is prepared, step by step.
//! - [`firewall`] and [`policy`]: what the rules of a network come to.
//! - [`cli`] and [`upstream`]: the commands of the program, and the server that it asks.

pub mod addr;
pub mod cli;
pub mod control;
pub mod daemon;
pub mod docker;
pub mod firewall;
pub mod ipset;
pub mod manage;
pub mod network;
pub mod podman;
pub mod policy;
pub mod prepare;
pub mod proxy;
pub mod record;
pub mod root;
pub mod rules;
pub mod state;
pub mod stats;
pub mod tasks;
pub mod text;
pub mod trust;
pub mod upstream;
