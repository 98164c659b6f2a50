pub mod endpoint_data;
pub mod keyspace;
pub mod node_status;
pub mod nodo;
pub mod procesamiento_data;
pub mod tabla;
