pub mod bytes;
pub mod cassandra;
pub mod gossip;
pub mod intra_nodos;
pub mod level_consistency;
pub mod type_message;
