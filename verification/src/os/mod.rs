//! What each platform hands to a traversal, in the form in which it hands it.

pub mod linux;
pub mod unix;
pub mod windows;
