//! A length-prefixed framing engine for non-blocking byte streams, and the
//! connection, server and client state machines of a small chat system built on
//! it.
pub mod chat_result;
pub mod client;
pub mod command;
pub mod connection;
pub mod envelope;
pub mod incoming_packet;
pub mod outgoing_packet;
pub mod packet_receiver;
pub mod packet_sender;
pub mod server;
pub mod stream;
pub mod wire;

pub use chat_result::ChatError;
pub use chat_result::ChatResult;
pub use chat_result::ConvertibleToChatResult;
pub use connection::Connection;
pub use connection::ConnectionInfo;
pub use connection::LoginInfo;
pub use envelope::CommandType;
pub use envelope::MesasgeFromUser;
pub use packet_receiver::PacketReceiver;
pub use packet_sender::PacketSender;
pub use stream::ByteStream;
