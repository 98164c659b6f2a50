use minicql::parser_cql::condicion_where::CondicionWhere;
use minicql::parser_cql::parseo_consulta::{
    parsear_create_table, parsear_delete, parsear_insert, parsear_select, parsear_update,
    procesar_consulta,
};
use minicql::parser_cql::type_cql::TypeCQL;

#[test]
fn test_parsear_insert() {
    let query = "INSERT INTO tabla_ejemplo (ID_VUELO, ORIGEN, DESTINO, COMBUSTIBLE) VALUES (5, 'Buenos Aires', 'Rio de Janeiro', 99)";
    let cond = CondicionWhere {
        condicion1: String::new(),
        operador_logico: None,
        condicion2: String::new(),
    };

    let consulta = parsear_insert(query);

    assert!(consulta.tabla == "tabla_ejemplo");
    assert!(consulta.get_tabla() == "tabla_ejemplo");

    assert!(consulta.get_type() == &TypeCQL::Insert);

    assert!(consulta.query == "(ID_VUELO, ORIGEN, DESTINO, COMBUSTIBLE) VALUES (5, 'Buenos Aires', 'Rio de Janeiro', 99)");
    assert!(consulta.get_query() == "(ID_VUELO, ORIGEN, DESTINO, COMBUSTIBLE) VALUES (5, 'Buenos Aires', 'Rio de Janeiro', 99)");

    assert!(consulta.consulta_explicita == query);
    assert!(consulta.get_consulta_explicita() == query);

    assert!(consulta.condicion_where == cond);
    assert!(consulta.get_where() == &cond);
}

#[test]
fn test_parsear_select() {
    let query = "SELECT ID_VUELO, ORIGEN, DESTINO, COMBUSTIBLE FROM tabla_ejemplo WHERE ORIGEN = 'AEROPUERTO JORGE NEWBERY' AND ID_VUELO = 123";
    let cond = CondicionWhere {
        condicion1: "ORIGEN = 'AEROPUERTO JORGE NEWBERY'".to_string(),
        operador_logico: Some("AND".to_string()),
        condicion2: "ID_VUELO = 123".to_string(),
    };

    let consulta = parsear_select(query);

    assert!(consulta.tabla == "tabla_ejemplo");
    assert!(consulta.get_tabla() == "tabla_ejemplo");

    assert!(consulta.get_type() == &TypeCQL::Select);

    assert!(consulta.query == "ID_VUELO, ORIGEN, DESTINO, COMBUSTIBLE");
    assert!(consulta.get_query() == "ID_VUELO, ORIGEN, DESTINO, COMBUSTIBLE");

    assert!(consulta.consulta_explicita == query);
    assert!(consulta.get_consulta_explicita() == query);

    assert!(consulta.condicion_where == cond);
    assert!(consulta.get_where() == &cond);
}

#[test]
fn test_parsear_update() {
    let query = "UPDATE tabla_ejemplo SET COMBUSTIBLE = 50 WHERE ORIGEN = 'AEROPUERTO JORGE NEWBERY' AND ID_VUELO = 123";
    let cond = CondicionWhere {
        condicion1: "ORIGEN = 'AEROPUERTO JORGE NEWBERY'".to_string(),
        operador_logico: Some("AND".to_string()),
        condicion2: "ID_VUELO = 123".to_string(),
    };

    let consulta = parsear_update(query);

    assert!(consulta.tabla == "tabla_ejemplo");
    assert!(consulta.get_tabla() == "tabla_ejemplo");

    assert!(consulta.get_type() == &TypeCQL::Update);

    assert!(consulta.query == "COMBUSTIBLE = 50");
    assert!(consulta.get_query() == "COMBUSTIBLE = 50");

    assert!(consulta.consulta_explicita == query);
    assert!(consulta.get_consulta_explicita() == query);

    assert!(consulta.condicion_where == cond);
    assert!(consulta.get_where() == &cond);
}

#[test]
fn test_parsear_delete() {
    let query = "DELETE FROM tabla_ejemplo WHERE ORIGEN = 'AEROPUERTO JORGE NEWBERY' AND ID_VUELO = 123";
    let cond = CondicionWhere {
        condicion1: "ORIGEN = 'AEROPUERTO JORGE NEWBERY'".to_string(),
        operador_logico: Some("AND".to_string()),
        condicion2: "ID_VUELO = 123".to_string(),
    };

    let consulta = parsear_delete(query);

    assert!(consulta.tabla == "tabla_ejemplo");
    assert!(consulta.get_tabla() == "tabla_ejemplo");

    assert!(consulta.get_type() == &TypeCQL::Delete);

    assert!(consulta.query.is_empty());
    assert!(consulta.get_query() == "");

    assert!(consulta.consulta_explicita == query);
    assert!(consulta.get_consulta_explicita() == query);

    assert!(consulta.condicion_where == cond);
    assert!(consulta.get_where() == &cond);
}

#[test]
fn test_consulta_inexistente() {
    let query = "MERGE FROM tabla_ejemplo WHERE ORIGEN = 'AEROPUERTO JORGE NEWBERY' AND ID_VUELO = 123";

    let consulta = procesar_consulta(query);

    assert!(consulta.is_err());
}

#[test]
fn test_parsear_create_table() {
    let query = "CREATE TABLE tabla_ejemplo (id_usuario UUID, nombre TEXT, edad INT, PRIMARY KEY ((id_usuario), nombre)";
    let cond = CondicionWhere {
        condicion1: String::new(),
        operador_logico: None,
        condicion2: String::new(),
    };

    let consulta = parsear_create_table(query);

    assert!(consulta.tabla == "tabla_ejemplo");
    assert!(consulta.get_tabla() == "tabla_ejemplo");

    assert!(consulta.get_type() == &TypeCQL::CreateTable);

    assert!(
        consulta.query == "(id_usuario UUID, nombre TEXT, edad INT, PRIMARY KEY ((id_usuario), nombre)"
    );
    assert!(
        consulta.get_query() == "(id_usuario UUID, nombre TEXT, edad INT, PRIMARY KEY ((id_usuario), nombre)"
    );

    assert!(consulta.consulta_explicita == query);
    assert!(consulta.get_consulta_explicita() == query);

    assert!(consulta.condicion_where == cond);
    assert!(consulta.get_where() == &cond);
}

#[test]
fn test_construir_consulta_select() {
    let consulta = minicql::handler::construir_consulta_select(
        "VUELOS_ORIGEN".to_string(),
        "MAD".to_string(),
        "2021-06-01".to_string(),
    );
    assert_eq!(
        consulta,
        "SELECT * FROM VUELOS_ORIGEN WHERE ORIGEN = MAD AND FECHA = 2021-06-01"
    );
}

#[test]
fn test_obtener_headers_table() {
    let headers = minicql::parser_cql::parseo_consulta::obtener_headers_table(
        "(id_usuario UUID, nombre TEXT, edad INT, PRIMARY KEY ((id_usuario), nombre))",
    );
    assert_eq!(
        headers,
        vec![
            "id_usuario".to_string(),
            "nombre".to_string(),
            "edad".to_string()
        ]
    );
}

#[test]
fn test_obtener_tipo_strategy_y_replication() {
    let (strategy, n) = minicql::parser_cql::parseo_consulta::obtener_tipo_strategy_y_replication(
        "{'class': 'SimpleStrategy', 'replication_factor' : 3}",
    );
    assert_eq!(strategy, "SimpleStrategy");
    assert_eq!(n, 3);
}
