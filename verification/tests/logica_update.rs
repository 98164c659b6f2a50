use minicql::individual::logica_update::{aplicar_cambios_a_linea, obtener_columnas_a_actualizar};

#[test]
fn test_obtener_columnas_de_consulta() {
    let partes = vec![
        "UPDATE".to_string(),
        "clientes".to_string(),
        "SET".to_string(),
        "email".to_string(),
        "=".to_string(),
        "'mrodriguez@hotmail.com'".to_string(),
        "WHERE".to_string(),
        "id".to_string(),
        "=".to_string(),
        "4".to_string(),
    ];
    let (columnas, where_index) = obtener_columnas_a_actualizar(&partes);
    assert_eq!(columnas, "email = 'mrodriguez@hotmail.com'");
    assert_eq!(where_index, 6);
}

#[test]
fn test_aplicar_cambios_a_linea() {
    let linea = "1,John,Doe,30";
    let cambios = "age = 31,lastname = 'Smith'";
    let nombres_columnas = vec![
        "id".to_string(),
        "firstname".to_string(),
        "lastname".to_string(),
        "age".to_string(),
    ];
    let resultado = aplicar_cambios_a_linea(linea, cambios, &nombres_columnas);
    assert_eq!(resultado, "1,John,Smith,31");
}

#[test]
fn test_split_consulta_sin_saltos_de_linea() {
    let consulta = "DELETE FROM person WHERE lastname = 'Burton'";
    let resultado = minicql::individual::parseo_consulta::split_consulta(consulta);
    assert_eq!(
        resultado,
        ["DELETE", "FROM", "person", "WHERE", "lastname", "=", "'Burton'"]
    );
}

#[test]
fn test_split_consulta_con_saltos_de_linea() {
    let consulta = "UPDATE clientes\nSET email = 'mrodriguez@hotmail.com'\n WHERE id = 4";
    let resultado = minicql::individual::parseo_consulta::split_consulta(consulta);
    assert_eq!(
        resultado,
        [
            "UPDATE",
            "clientes",
            "SET",
            "email",
            "=",
            "'mrodriguez@hotmail.com'",
            "WHERE",
            "id",
            "=",
            "4"
        ]
    );
}

#[test]
fn test_construir_ruta_archivo() {
    let ruta_directorio = "/home/usuario/archivos";
    let nombre_archivo = "personas";
    let resultado =
        minicql::individual::parseo_consulta::construir_ruta_archivo(ruta_directorio, nombre_archivo);
    assert_eq!(resultado, "/home/usuario/archivos/personas.csv");
}

#[test]
fn test_evaluar_condiciones_compuestas() {
    let nombres = vec![
        "id".to_string(),
        "firstname".to_string(),
        "lastname".to_string(),
        "age".to_string(),
    ];
    let linea = "1,John,Doe,30";
    let r = minicql::individual::condiciones::evaluar_condiciones(
        linea,
        "age = 30 AND NOT lastname = 'Smith'",
        &nombres,
    );
    assert_eq!(r, Ok(true));
    let r2 = minicql::individual::condiciones::evaluar_condiciones(
        linea,
        "age < 30 OR firstname = 'John'",
        &nombres,
    );
    assert_eq!(r2, Ok(true));
    let r3 = minicql::individual::condiciones::evaluar_condiciones(
        linea,
        "edad = 30",
        &nombres,
    );
    assert!(r3.is_err());
}

#[test]
fn test_procesar_consulta_vacia() {
    let consulta = "";
    let r = minicql::individual::parseo_consulta::clasificar_consulta(consulta);
    assert!(matches!(
        r,
        minicql::individual::parseo_consulta::OperacionArchivo::Vacia
    ));
}

#[test]
fn test_procesar_consulta_con_estructura_incorrecta() {
    let consulta = "DELETE";
    let r = minicql::individual::parseo_consulta::clasificar_consulta(consulta);
    assert!(matches!(
        r,
        minicql::individual::parseo_consulta::OperacionArchivo::Incompleta
    ));
}

#[test]
fn test_procesar_consulta_con_operacion_invalida() {
    let consulta = "DROP TABLE personas";
    let r = minicql::individual::parseo_consulta::clasificar_consulta(consulta);
    assert!(matches!(
        r,
        minicql::individual::parseo_consulta::OperacionArchivo::NoValida
    ));
}
