//! What holds of the library as a whole, beyond what each function says of
//! itself: what is written reads back, what is damaged is refused, what any
//! peer may write is read as it was meant, and what a broker's side and a
//! client's side come to when they speak to each other.

pub mod answers;
pub mod batches;
pub mod calls;
pub mod exchange;
pub mod fetches;
pub mod format;
mod grouping;
pub mod locations;
pub mod messages;
pub mod metadata;
pub mod producers;
pub mod produces;
pub mod sessions;
pub mod values;
