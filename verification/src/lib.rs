//! The decisions of a music player's playback: which samples of a source are
//! played and at what gain, on which device, and what is kept awake meanwhile.

pub mod assertions;
pub mod double;
pub mod execution;
pub mod inhibit;
pub mod output;
pub mod smooth;
pub mod span;
pub mod trimmed;
pub mod volume;
pub mod wake;

pub use assertions::{hold_one, Assertions, Kind, Power};
pub use execution::execution_state;
pub use inhibit::{inhibit_flags, Inhibitor, Stage, Task};
pub use output::{ident, Device, Join, Output, Streams};
pub use smooth::{Action, Phase, SmoothGain};
pub use span::{frames, playtime, samples, Span};
pub use trimmed::{Trimmed, Turn};
pub use volume::{Cells, Chain, Volume};
pub use wake::{replace, Wake, Want};
