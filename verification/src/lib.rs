//! Client side of a ROM bootloader's serial protocol: byte-stuffed framing,
//! command and response packets, the sync handshake and the plan that loads an
//! image into RAM. The transport itself is left to the caller, who performs
//! the actions that the state machines here hand out.

pub mod checksum;
pub mod framing;
pub mod packet;
pub mod loader;
pub mod exchange;
pub mod handshake;
pub mod transfer;
