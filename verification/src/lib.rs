//! Quantitative engines: a price-time-priority limit order book over an
//! arena of intrusive FIFO queues, a fixed-point fraud-scoring rule engine,
//! the binary record formats both arenas consume, and a rolling-window
//! trending-topic aggregator over normalised firehose events.
pub mod strings;
pub mod payment_auth;
pub mod order_book;
pub mod event_pulse;
pub mod services;
pub mod sources;
