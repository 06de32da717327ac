//! The commands the program exposes; the listener's pipeline lives here.

pub mod run;
