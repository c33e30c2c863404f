//! A verified core for a lockstep game-networking stack: bit-level serialization,
//! wrapping sequence numbers, sequence buffers and reliable-delivery bookkeeping.

pub mod bits;
pub mod error;
pub mod bit_reader;
pub mod constants;
pub mod bit_write;
pub mod bit_counter;
pub mod bit_writer;
pub mod serde;
pub mod scalars;
pub mod byte_arrays;
pub mod seq_num;
pub mod seq_order;
pub mod seq_arith;
pub mod rollover_counter;
pub mod index_buffer;
pub mod sequence_buffer;
pub mod reliable_receiver;
pub mod channel;
pub mod schema;
pub mod compression_config;
pub mod id_pool;
pub mod clock;
pub mod timer;
pub mod ping_store;
pub mod packet;
pub mod ack_manager;
pub mod message;
pub mod fragment;
pub mod receivers;
pub mod senders;
pub mod message_manager;
pub mod connection;
pub mod io_counters;
