pub mod cost;
pub mod network;
pub mod packet;
pub mod packet_handling;
pub mod topology;
