//! ttySeq core library: musical time arithmetic, the SSD1322 panel protocol,
//! the real-time playback routing rules and the command-line grammar of the
//! hardware validation tools.

pub mod time;
pub mod text;
pub mod ssd1322;
pub mod playback;
pub mod cli;
