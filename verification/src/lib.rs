//! A reliability and connection-state engine for datagram transports.
//!
//! The crate tracks packets awaiting acknowledgment, throttles sending under
//! loss, splits and reassembles oversized payloads, and decides when a peer
//! is established or must be dropped. It performs no I/O: every operation
//! maps plain values to plain values and queues what has to leave on a
//! [`Messenger`].

pub mod acknowledgment;
pub mod arranging;
pub mod config;
pub mod congestion;
pub mod connection;
pub mod connection_model;
pub mod delivery;
pub mod error;
pub mod events;
pub mod fragmenter;
pub mod header;
pub mod lifecycle;
pub mod metrics;
pub mod packet;
pub mod reassembly;
pub mod sequence;
pub mod transmission;

pub use acknowledgment::{AckBitfield, AcknowledgmentHandler, ItemIdentifier, SentPacket};
pub use config::Config;
pub use congestion::CongestionHandler;
pub use connection::VirtualConnection;
pub use connection_model::{ConnectionState, Dispatch, DropReason};
pub use error::ErrorKind;
pub use events::{Datagram, Emitted, Messenger, SocketEvent};
pub use fragmenter::{Fragment, Fragmentation};
pub use metrics::MetricsFrame;
pub use packet::{
    Address, DeliveryGuarantee, OrderingGuarantee, Packet, PacketInfo, PacketType,
};
pub use sequence::SequenceNumber;
