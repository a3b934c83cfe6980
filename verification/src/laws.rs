//! What holds of the library as a whole.

pub mod calls;
pub mod comparing;
pub mod configuring;
pub mod identifying;
pub mod naming;
pub mod processing;
pub mod protocol;
pub mod reading;
pub mod requesting;
pub mod showing;
pub mod storing;
