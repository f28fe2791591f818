//! Fan-out/fan-in core of a caching-protocol proxy: one client unit is
//! decomposed into independently routable sub-units, their asynchronous
//! completion is tracked by a counting notifier, and the finished replies are
//! reassembled into one client-visible frame in original order.

pub mod buf;
pub mod com;
pub mod mc;
pub mod msg;
pub mod notify;
pub mod utils;
