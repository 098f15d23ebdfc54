//! The core of a desktop widget that shows what the machine is doing: CPU, memory,
//! temperature, GPU, network and disk, and the busiest processes.
//!
//! This crate holds everything that is decided or computed. It takes plain values
//! in, such as the counters of an interface, a line of a performance counter feed
//! or a message of the window system, and gives plain values back: a snapshot, a
//! list of drawing operations, the commands that a window carries out. Reading the
//! sensors, drawing and talking to the system is left to the program around it.
//!
//! Readings are IEEE 754 binary64 numbers. They are held as bit patterns ([`num`]),
//! with arithmetic ([`arith`]), reading ([`reading`]) and writing ([`figures`]) that
//! round as the standard asks. Places on the screen are binary32 numbers ([`single`]).

// Numbers and text.
pub mod num;
pub mod rounding;
pub mod arith;
pub mod single;
pub mod bignat;
pub mod digits;
pub mod text;
pub mod utf16;
pub mod reading;
pub mod figures;
pub mod format;

// What is measured.
pub mod settings;
pub mod metrics;
pub mod csv;
pub mod counters;
pub mod feed;
pub mod sampler;
pub mod kill;

// What is shown and done.
pub mod guardian;
pub mod history;
pub mod layout;
pub mod words;
pub mod ui;
pub mod commands;
pub mod window;

pub use crate::metrics::{round1, round2, sanitize, AppState, DiskInfo, GpuInfo, GpuInfoCache, MemoryInfo, NetworkInfo, ProcInfo, SessionStats, Snapshot, TempState, MINI_H, WIDGET_H, WIDGET_W};
