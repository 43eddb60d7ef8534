//! Verified building blocks of the nimble deterministic-lockstep networking stack:
//! octet-stream codecs, ordered datagrams, the datagram connection handshake,
//! the nimble client/host protocol messages, step queues, and small helpers.

pub mod stream;
pub mod codec;
pub mod decimal;
pub mod hexify;
pub mod freelist;
pub mod tick;
pub mod ordered_datagram;
pub mod steps;
pub mod secure_random;
pub mod udp_connections;
pub mod blob_commands;
pub mod participant;
pub mod protocol;
pub mod client_to_host_oob;
pub mod client_to_host;
pub mod host_to_client;
pub mod flat_steps;
pub mod host_to_client_oob;
pub mod grouping;
pub mod datagram;
pub mod pending_steps;
pub mod seer;
pub mod rectify;
pub mod transmute;
pub mod sample_step;
pub mod snake_c;
pub mod participant_steps;
pub mod combinator;
pub mod host_state;
pub mod blob_sender;
pub mod host_logic;
pub mod readback;
