//! What drawing needs worked out before anything is drawn.

pub mod eg;
pub mod renderers;
