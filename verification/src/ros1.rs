//! ROS1 message definitions (`ros1msg` schemas) and the decoding of ROS1
//! serialized messages against them.

pub mod schema;
pub mod reader;
pub mod message;
