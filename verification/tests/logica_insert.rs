use minicql::individual::logica_insert::{
    encontrar_palabra, extraer_tabla_y_columnas, extraer_valores, mapear_valores,
    parsear_consulta_insert, validar_columnas,
};

#[test]
fn test_consulta_insert_sin_palabras_necesarias() {
    let consulta = "INSERT ordenes (id, id_cliente, producto, cantidad) (111, 6, 'Laptop', 3)";

    let resultado1 = encontrar_palabra(consulta, "into");
    assert!(resultado1.is_err());
    assert_eq!(
        resultado1.unwrap_err(),
        "INVALID_SYNTAX: La consulta INSERT no contiene la palabra 'into'."
    );

    let resultado2 = encontrar_palabra(consulta, "values");
    assert!(resultado2.is_err());
    assert_eq!(
        resultado2.unwrap_err(),
        "INVALID_SYNTAX: La consulta INSERT no contiene la palabra 'values'."
    );
}

#[test]
fn test_encontrar_palabras_de_consulta() {
    let consulta =
        "INSERT into ordenes (id, id_cliente, producto, cantidad) values (111, 6, 'Laptop', 3)";
    let into_index = encontrar_palabra(consulta, "into");
    assert!(into_index.is_ok());
    assert_eq!(into_index.unwrap(), 7);

    let values_index = encontrar_palabra(consulta, "values");
    assert!(values_index.is_ok());
    assert_eq!(values_index.unwrap(), 57);
}

#[test]
fn test_extraer_tabla_y_columnas() {
    let consulta =
        "INSERT INTO ordenes (id, id_cliente, producto, cantidad) VALUES (111, 6, 'Laptop', 3)";
    let into_index = 7;
    let values_index = 57;

    let resultado = extraer_tabla_y_columnas(consulta, into_index, values_index);
    assert!(resultado.is_ok());
    assert_eq!(
        resultado.unwrap(),
        (
            "ordenes".to_string(),
            "id, id_cliente, producto, cantidad".to_string()
        )
    );
}

#[test]
fn test_extraer_valores() {
    let valores = "(111, 6, 'Laptop', 3)";
    let resultado = extraer_valores(valores);
    assert!(resultado.is_ok());
    assert_eq!(resultado.unwrap(), vec!["111, 6, Laptop, 3"]);
}

#[test]
fn test_extraer_valores_sin_valores() {
    let valores = "";
    let resultado = extraer_valores(valores);
    assert!(resultado.is_err());
    assert_eq!(
        resultado.unwrap_err(),
        "INVALID_SYNTAX: No se encontraron valores para insertar."
    );
}

#[test]
fn test_columna_invalida() {
    let columnas_insertadas = vec!["id".to_string(), "nombre".to_string()];
    let nombres_columnas = vec![
        "id".to_string(),
        "apellido".to_string(),
        "email".to_string(),
    ];

    let resultado = validar_columnas(&columnas_insertadas, &nombres_columnas);
    assert!(resultado.is_err());
    assert_eq!(
        resultado.unwrap_err(),
        "INVALID_COLUMN: Una de las columnas especificadas no pertenece a la tabla."
    );
}

#[test]
fn test_todas_las_columnas_validas() {
    let columnas_insertadas = vec!["id".to_string(), "apellido".to_string()];
    let nombres_columnas = vec![
        "id".to_string(),
        "apellido".to_string(),
        "email".to_string(),
    ];

    let resultado = validar_columnas(&columnas_insertadas, &nombres_columnas);
    assert!(resultado.is_ok());
    assert_eq!(resultado.unwrap(), ());
}

#[test]
fn test_mapeo_de_valores_sin_todas_las_columnas() {
    let columnas_insertadas = vec!["id".to_string(), "apellido".to_string()];
    let nombres_columnas = vec![
        "id".to_string(),
        "apellido".to_string(),
        "email".to_string(),
    ];
    let valores_insertados = vec!["1".to_string(), "'Rodriguez'".to_string()];

    let resultado = mapear_valores(&columnas_insertadas, &nombres_columnas, &valores_insertados);
    assert_eq!(resultado, ["1", "'Rodriguez'", ""]);
}

#[test]
fn test_mapeo_de_valores_con_todas_las_columnas() {
    let columnas_insertadas = vec![
        "id".to_string(),
        "apellido".to_string(),
        "email".to_string(),
    ];
    let nombres_columnas = vec![
        "id".to_string(),
        "apellido".to_string(),
        "email".to_string(),
    ];
    let valores_insertados = vec![
        "1".to_string(),
        "'Rodriguez'".to_string(),
        "'mrodriguez@hotmail.com'".to_string(),
    ];

    let resultado = mapear_valores(&columnas_insertadas, &nombres_columnas, &valores_insertados);
    assert_eq!(resultado, ["1", "'Rodriguez'", "'mrodriguez@hotmail.com'"]);
}

#[test]
fn test_mapeo_de_valores_con_distinto_orden_de_columnas() {
    let columnas_insertadas = vec![
        "apellido".to_string(),
        "id".to_string(),
        "email".to_string(),
    ];
    let nombres_columnas = vec![
        "id".to_string(),
        "apellido".to_string(),
        "email".to_string(),
    ];
    let valores_insertados = vec![
        "'Rodriguez'".to_string(),
        "1".to_string(),
        "'mrodriguez@hotmail.com'".to_string(),
    ];

    let resultado = mapear_valores(&columnas_insertadas, &nombres_columnas, &valores_insertados);
    assert_eq!(resultado, ["1", "'Rodriguez'", "'mrodriguez@hotmail.com'"]);
}

#[test]
fn test_insertar_filas_en_orden_de_encabezado() {
    let nombres = vec![
        "id".to_string(),
        "apellido".to_string(),
        "email".to_string(),
    ];
    let columnas = vec!["apellido".to_string(), "id".to_string()];
    let filas = vec!["(Ruiz, 4)".to_string(), "(Paz, 5)".to_string()];
    let lineas = minicql::individual::logica_insert::insertar_filas(&nombres, &columnas, &filas);
    assert_eq!(lineas, vec!["4,Ruiz,".to_string(), "5,Paz,".to_string()]);
}

#[test]
fn test_parseo_consulta_insert() {
    let consulta =
        "INSERT INTO ordenes (id, id_cliente, producto, cantidad) VALUES (111, 6, 'Laptop', 3)";
    let resultado = parsear_consulta_insert(consulta);
    assert!(resultado.is_ok());
    assert_eq!(
        resultado.unwrap(),
        vec![
            "id, id_cliente, producto, cantidad".to_string(),
            "ordenes".to_string(),
            "111, 6, Laptop, 3".to_string()
        ]
    );
}
