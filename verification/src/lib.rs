//! A handoff counter: a replicated, monotonically growing count kept by
//! replicas arranged in tiers. A replica hands its pending contribution to a
//! replica of a lower tier through a slot (an invitation) and a token (the
//! packaged amount), so that no replica keeps an entry for every replica it
//! has ever seen.
pub mod handoff;
pub mod laws;
pub mod model;
pub mod sums;
pub mod tokens;


pub use handoff::Handoff;
