pub mod condiciones;
pub mod logica_insert;
pub mod logica_select;
pub mod logica_update;
pub mod parseo_consulta;
