use minicql::bdd::nodo::{calcular_quorum, get_replicas, Nodo};
use minicql::bdd::procesamiento_data::{
    get_headers_aeropuertos, get_headers_vuelos, hash_texto, insert_data, new_tablas,
    obtener_hash_origen, obtener_row,
};
use minicql::bdd::node_status::NodeStatus;
use minicql::bdd::tabla::Tabla;
use minicql::parser_cql::condicion_where::CondicionWhere;
use minicql::parser_cql::parseo_consulta::procesar_consulta;
use minicql::parser_cql::type_cql::TypeCQL;

fn tabla_simple() -> Tabla {
    Tabla::new(
        "T".to_string(),
        vec!["ID".to_string(), "NAME".to_string()],
    )
}

#[test]
fn test_insertar_y_select_una_fila() {
    let mut t = tabla_simple();
    let consulta = procesar_consulta("INSERT INTO T (ID,NAME) VALUES (1,'a')").unwrap();
    assert!(consulta.get_type() == &TypeCQL::Insert);
    let fila = obtener_row(consulta.get_query());
    assert_eq!(fila, "1,'a'");
    t.insertar(fila);

    let seleccion = procesar_consulta("SELECT * FROM T WHERE ID = 1").unwrap();
    let filas = t.select(seleccion.get_where(), seleccion.get_query());
    assert_eq!(filas, vec!["1,'a'".to_string()]);
}

#[test]
fn test_insertar_no_duplica() {
    let mut t = tabla_simple();
    t.insertar("1,a".to_string());
    t.insertar("1,a".to_string());
    t.insertar("1,b".to_string());
    let todas = t.lineas_de_tabla();
    assert_eq!(todas, vec!["1,a".to_string(), "1,b".to_string()]);
}

#[test]
fn test_eliminar_fila_con_clave_numerica() {
    let mut t = tabla_simple();
    t.insertar("1,a".to_string());
    t.insertar("1,b".to_string());
    let condicion = CondicionWhere {
        condicion1: "ID = 1".to_string(),
        operador_logico: Some("AND".to_string()),
        condicion2: "NOMBRE = a".to_string(),
    };
    t.eliminar(&condicion);
    assert_eq!(t.lineas_de_tabla(), vec!["1,b".to_string()]);
}

#[test]
fn test_actualizar_fila() {
    let mut t = Tabla::new(
        "VUELOS_ORIGEN".to_string(),
        vec![
            "ORIGEN".to_string(),
            "FECHA".to_string(),
            "ID_VUELO".to_string(),
            "DESTINO".to_string(),
        ],
    );
    t.insertar("MAD,2021-06-01,1,BCN".to_string());
    let condicion = CondicionWhere {
        condicion1: "ORIGEN = MAD".to_string(),
        operador_logico: Some("AND".to_string()),
        condicion2: "ID_VUELO = 1".to_string(),
    };
    t.actualizar(&condicion, "DESTINO = EZE".to_string());
    assert_eq!(t.lineas_de_tabla(), vec!["MAD,2021-06-01,1,EZE".to_string()]);
}

#[test]
fn test_carga_y_vuelta_de_lineas() {
    let mut t = tabla_simple();
    let lineas = vec![
        "1,a".to_string(),
        "2,b".to_string(),
        "1,c".to_string(),
    ];
    insert_data(&lineas, &mut t);
    let mut de_vuelta = t.lineas_de_tabla();
    let mut esperadas = lineas.clone();
    de_vuelta.sort();
    esperadas.sort();
    assert_eq!(de_vuelta, esperadas);
}

#[test]
fn test_headers_por_defecto() {
    assert_eq!(get_headers_aeropuertos().len(), 4);
    assert_eq!(get_headers_vuelos("DESTINO")[0], "DESTINO");
    assert_eq!(get_headers_vuelos("ORIGEN")[0], "ORIGEN");
    let tablas = new_tablas();
    assert_eq!(tablas.len(), 3);
    assert_eq!(tablas[0].nombre, "AEROPUERTOS");
}

#[test]
fn test_propietario_determinista() {
    let nodo = Nodo::new(&"127.0.0.1".to_string(), 7).unwrap();
    let a = nodo.get_nodo_responsable(42).unwrap();
    let b = nodo.get_nodo_responsable(42).unwrap();
    assert_eq!(a, b);
    assert_eq!(a, "127.0.0.1");
}

#[test]
fn test_anillo_dentro_de_pares() {
    let nodo = Nodo::new(&"127.0.0.1".to_string(), 7).unwrap();
    for (_, direccion) in nodo.nodos.iter() {
        let registro = nodo
            .metadata_nodos
            .iter()
            .find(|(ip, _)| ip == direccion)
            .expect("cada miembro del anillo tiene metadatos");
        assert!(registro.1.application_state.status != NodeStatus::Down);
    }
}

#[test]
fn test_replicas_en_anillo() {
    let anillo = vec![
        (10u32, "127.0.0.1".to_string()),
        (20u32, "127.0.0.2".to_string()),
        (30u32, "127.0.0.3".to_string()),
    ];
    let replicas = get_replicas(&anillo, "127.0.0.1", 3);
    assert_eq!(replicas, vec!["127.0.0.2".to_string(), "127.0.0.3".to_string()]);

    let replicas_envueltas = get_replicas(&anillo, "127.0.0.3", 3);
    assert_eq!(
        replicas_envueltas,
        vec!["127.0.0.1".to_string(), "127.0.0.2".to_string()]
    );
}

#[test]
fn test_quorum_es_mayoria() {
    assert_eq!(calcular_quorum(1), 1);
    assert_eq!(calcular_quorum(2), 1);
    assert_eq!(calcular_quorum(3), 2);
    assert_eq!(calcular_quorum(5), 3);
}

#[test]
fn test_hash_estable_y_dependiente_del_texto() {
    let a1 = hash_texto("127.0.0.1");
    let a2 = hash_texto("127.0.0.1");
    assert_eq!(a1, a2);
    let b = hash_texto("127.0.0.2");
    assert_ne!(a1, b);

    let h = obtener_hash_origen("INSERT INTO T (ID,V) VALUES (5,'x')");
    assert_eq!(h, hash_texto("5"));
}

#[test]
fn test_keyspace_no_encontrado() {
    let nodo = Nodo::new(&"127.0.0.1".to_string(), 7).unwrap();
    assert!(nodo.get_key().is_err());
    assert!(nodo.get_tabla("T").is_err());
}
