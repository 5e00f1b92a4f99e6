//! Protocol, planning and debug-port logic of a Wi-Fi/USB SWD bridge.
//!
//! Everything here is free of I/O: it decides, encodes, decodes and plans.
//! The programs around it own the sockets, the serial ports and the pads.

pub mod arguments;
pub mod bits;
pub mod bytes;
pub mod clock;
pub mod core_run;
pub mod cycle;
pub mod cycles;
pub mod debug_port;
pub mod digest;
pub mod dump;
pub mod endpoint;
pub mod engine;
pub mod frame;
pub mod gdb;
pub mod http;
pub mod hub;
pub mod json;
pub mod link;
pub mod pads;
pub mod pinmap;
pub mod poke;
pub mod program;
pub mod radio;
pub mod report;
pub mod rtt;
pub mod safety;
pub mod serial_dap;
pub mod server;
pub mod spi_wire;
pub mod stepper;
pub mod stepper_hw;
pub mod stm32g0;
pub mod swd;
pub mod text;
pub mod transport;
pub mod wifi;
pub mod ws_link;
