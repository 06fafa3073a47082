//! Rule management and connection decisions for a tunnel that carries UDP over fake TCP.
//!
//! Nothing here touches the system. Setting rules up and removing them proceeds by requests that
//! the caller performs, and the client is a pair of state machines that turn events into actions.

pub mod text;
pub mod number;

pub mod command;
pub mod fwmark;
pub mod rule;
pub mod listing;
pub mod interface;
pub mod guard;
pub mod setup;
pub mod removal;
pub mod laws;
pub mod ruleset;
pub mod reading_laws;
pub mod listing_laws;
pub mod rule_laws;
pub mod tunnel_laws;
pub mod step_laws;

pub mod clock;
pub mod endpoint;
pub mod handshake;
pub mod dial;
pub mod monitor;
pub mod client_laws;
