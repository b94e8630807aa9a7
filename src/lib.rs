//! A fixed-capacity ring buffer that overwrites its oldest unread value when full.
pub mod queue_model;
pub mod rasengan;

pub use rasengan::Rasengan;
