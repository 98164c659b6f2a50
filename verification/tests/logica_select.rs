use minicql::individual::logica_select::{
    encontrar_indice_clave, extraer_columnas, extraer_condiciones, extraer_orden, extraer_tabla,
    parsear_consulta_select,
};

#[test]
fn test_consulta_select_sin_palabras_necesarias() {
    let consulta = "SELECT";
    let clave = "FROM";
    let resultado = encontrar_indice_clave(consulta, clave);
    assert!(resultado.is_err());
    assert_eq!(
        resultado.unwrap_err(),
        "INVALID_SYNTAX: Falta la palabra FROM en la consulta"
    );
}

#[test]
fn test_obtener_indice_clave() {
    let consulta = "SELECT * FROM tabla WHERE condicion ORDER BY columna";
    let clave = "from";
    let resultado = encontrar_indice_clave(consulta, clave);
    assert!(resultado.is_ok());
    assert_eq!(resultado.unwrap(), 9);
}

#[test]
fn test_extraer_columnas_de_consulta() {
    let consulta = "SELECT columna1, columna2, columna3 FROM tabla WHERE condicion ORDER BY columna";
    let from_index = 36;
    let resultado = extraer_columnas(consulta, from_index);
    assert_eq!(resultado, ["columna1", "columna2", "columna3"]);
}

#[test]
fn test_extraer_tabla_de_consulta() {
    let consulta = "SELECT columna1, columna2, columna3 FROM tabla WHERE condicion ORDER BY columna";
    let from_index = 36;
    let where_index = 47;
    let order_by_index = 63;
    let resultado = extraer_tabla(
        consulta,
        from_index,
        Some(where_index),
        Some(order_by_index),
    );
    assert_eq!(resultado, "tabla");
}

#[test]
fn test_extraer_condiciones_de_consulta() {
    let consulta = "SELECT columna1, columna2, columna3 FROM tabla WHERE condicion ORDER BY columna";
    let where_index = 47;
    let order_by_index = 63;
    let resultado = extraer_condiciones(consulta, Some(where_index), Some(order_by_index));
    assert_eq!(resultado, Some("condicion".to_string()));
}

#[test]
fn test_extraer_orden_de_consulta() {
    let consulta =
        "SELECT columna1, columna2, columna3 FROM tabla WHERE condicion ORDER BY columna DESC";
    let order_by_index = 63;
    let resultado = extraer_orden(consulta, Some(order_by_index));
    assert_eq!(resultado, Some("columna DESC".to_string()));
}

#[test]
fn test_parsear_consulta_select() {
    let consulta =
        "SELECT columna1, columna2, columna3 FROM tabla WHERE condicion ORDER BY columna DESC";
    let resultado = parsear_consulta_select(consulta);
    assert!(resultado.is_ok());
    let (columnas, tabla, condiciones, orden) = resultado.unwrap();
    assert_eq!(columnas, ["columna1", "columna2", "columna3"]);
    assert_eq!(tabla, "tabla");
    assert_eq!(condiciones, Some("condicion".to_string()));
    assert_eq!(orden, Some("columna DESC".to_string()));
}

#[test]
fn test_seleccionar_lineas_y_columnas() {
    let lineas = vec![
        "1,John,Doe,30".to_string(),
        "2,Ana,Ruiz,25".to_string(),
        "3,Eve,Stone,30".to_string(),
    ];
    let nombres = vec![
        "id".to_string(),
        "firstname".to_string(),
        "lastname".to_string(),
        "age".to_string(),
    ];
    let filtradas =
        minicql::individual::logica_select::seleccionar_lineas(&lineas, &nombres, Some("age = 30"))
            .unwrap();
    assert_eq!(filtradas.len(), 2);
    let columnas = vec!["firstname".to_string()];
    let proyectadas =
        minicql::individual::logica_select::seleccionar_columnas(&filtradas, &nombres, &columnas)
            .unwrap();
    assert_eq!(proyectadas, vec![vec!["John".to_string()], vec!["Eve".to_string()]]);
}

#[test]
fn test_ordenar_lineas_por_columna() {
    let lineas = vec![
        vec!["2".to_string(), "b".to_string()],
        vec!["1".to_string(), "c".to_string()],
        vec!["3".to_string(), "a".to_string()],
    ];
    let nombres = vec!["id".to_string(), "x".to_string()];
    let ordenadas =
        minicql::individual::logica_select::ordenar_lineas(lineas, &nombres, Some("id"));
    assert_eq!(
        ordenadas,
        vec![
            vec!["1".to_string(), "c".to_string()],
            vec!["2".to_string(), "b".to_string()],
            vec!["3".to_string(), "a".to_string()],
        ]
    );
}
