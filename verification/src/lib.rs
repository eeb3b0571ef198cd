//! Selection, search and grouping logic of the signal tree panel: which
//! channels are selected, which channels a search query keeps, and how the
//! channels of a measurement file are grouped by their path.

pub mod channel;
pub mod grouping;
pub mod laws;
pub mod search;
pub mod state;
pub mod text;
pub mod tree;

pub use channel::Channel;
pub use grouping::{ChannelGroup, DataGroup};
pub use state::SignalTreeState;
pub use tree::{VisibleChannel, VisibleChannelGroup, VisibleDataGroup};
