pub mod condicion_where;
pub mod consulta;
pub mod parseo_consulta;
pub mod type_cql;
