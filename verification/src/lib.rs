//! MC Link: relaying Minecraft LAN games through relay servers, with rooms
//! coordinated by a central server.
pub mod crypto;
pub mod routing;

pub mod protocol;
pub mod text;
pub mod lan;
pub mod latency;
pub mod central;
pub mod relay_server;
pub mod proxy;
pub mod keyed;
pub mod central_server;
pub mod state;
pub mod commands;
pub mod udp_relay;
pub mod room_paths;
