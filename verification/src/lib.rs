//! An MQTT 3.1.1 broker library: packet encoding and decoding, the topic
//! subscription tree with its wildcard matching, and the per-client decisions
//! of the broker (acknowledgements and retries).

pub mod client;
pub mod message_queue;
pub mod protocol;
