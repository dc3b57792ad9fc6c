//! The rules behind the HERA array map: a string of addressable LEDs that shows
//! either the time of day or the state of every antenna.
//!
//! * [`double`], [`rounding`], [`arithmetic`]: double precision numbers by their bit
//!   patterns, so that what is said of them can be proved.
//! * [`color`], [`stats`]: the color scale, the statistics of the antennas, and how the
//!   rows of a table are merged into them.
//! * [`truth`]: truthy and falsy words.
//! * [`layout`], [`clock`]: where the LEDs are, and the clock face.
//! * [`tasks`]: what each running task does on each event.
//! * [`laws`]: what holds of all of these together.
//! * [`numbers`], [`behavior`]: what each operation gives, in numbers.
pub mod arithmetic;
pub mod behavior;
pub mod clock;
pub mod color;
pub mod double;
pub mod laws;
pub mod layout;
pub mod numbers;
pub mod rounding;
pub mod stats;
pub mod tasks;
pub mod truth;
