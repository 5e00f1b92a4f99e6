//! Allocation-free ARM ADIv5 Serial Wire Debug host.

pub mod bring_up;
pub mod io;
pub mod laws;
pub mod link;
pub mod mem_ap;
pub mod memory;
pub mod port;
pub mod probe;
pub mod registers;
pub mod wire;

pub use self::io::{PadOp, SwdIo, MAX_BURST_BITS};
pub use self::link::SwdLink;
pub use self::memory::{auto_increment_words, WordMemory};
pub use self::wire::{packet_request, read_bit, wire_transfer, write_bit, Error};
