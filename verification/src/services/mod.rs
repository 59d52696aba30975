//! The decisions of the streaming services, apart from their transport:
//! request checking and defaults, the per-record step of each arena run
//! with its batching, and the event pulse's source selection and flushing.
//! The network loops that send what these produce live outside the library.
pub mod order_book_arena;
pub mod payment_auth_arena;
pub mod event_pulse;
