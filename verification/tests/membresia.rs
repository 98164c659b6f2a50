use minicql::bdd::node_status::NodeStatus;
use minicql::bdd::nodo::{elegir_mas_reciente, parsear_tupla, Nodo, ParteAck};
use minicql::bdd::procesamiento_data::hash_texto;

#[test]
fn test_parsear_tupla_completa() {
    let (ip, gen, ver, estado) = parsear_tupla("127.0.0.2:11:3:Normal").unwrap();
    assert_eq!(ip, "127.0.0.2");
    assert_eq!(gen, 11);
    assert_eq!(ver, 3);
    assert_eq!(estado, "Normal");

    let (_, _, _, sin_estado) = parsear_tupla("127.0.0.2:11:3").unwrap();
    assert_eq!(sin_estado, "");

    assert!(parsear_tupla("127.0.0.2:once:3").is_none());
    assert!(parsear_tupla("127.0.0.2").is_none());
}

#[test]
fn test_decidir_entrada_gossip() {
    let nodo = Nodo::new(&"127.0.0.1".to_string(), 10).unwrap();
    // Fresher than the own record at version 0: the target asks for it.
    assert!(matches!(
        nodo.decidir_entrada("127.0.0.1", 10, 5),
        ParteAck::Atrasado
    ));
    // Stale: the target answers with its own record.
    match nodo.decidir_entrada("127.0.0.1", 9, 7) {
        ParteAck::Tengo(gen, ver, estado) => {
            assert_eq!(gen, 10);
            assert_eq!(ver, 0);
            assert!(estado == NodeStatus::Normal);
        }
        ParteAck::Atrasado => panic!("el registro propio es mas fresco"),
    }
    // Unknown peer: the target asks for it.
    assert!(matches!(
        nodo.decidir_entrada("127.0.0.9", 1, 1),
        ParteAck::Atrasado
    ));
}

#[test]
fn test_demociones_y_altas_en_anillo() {
    let mut nodo = Nodo::new(&"127.0.0.1".to_string(), 10).unwrap();

    // A peer observed serving joins the ring.
    nodo.aplicar_estado_remoto("127.0.0.3", 12, 1, NodeStatus::Normal);
    assert!(nodo.nodos.iter().any(|(_, ip)| ip == "127.0.0.3"));
    let tokens: Vec<u32> = nodo.nodos.iter().map(|(t, _)| *t).collect();
    let mut ordenados = tokens.clone();
    ordenados.sort();
    assert_eq!(tokens, ordenados);

    // The same peer observed unreachable leaves the ring but stays known.
    nodo.aplicar_estado_remoto("127.0.0.3", 12, 2, NodeStatus::Down);
    assert!(!nodo.nodos.iter().any(|(_, ip)| ip == "127.0.0.3"));
    let registro = nodo
        .metadata_nodos
        .iter()
        .find(|(ip, _)| ip == "127.0.0.3")
        .expect("el par caido sigue en los metadatos");
    assert!(registro.1.application_state.status == NodeStatus::Down);

    // Coming back, it rejoins under its own token.
    nodo.aplicar_estado_remoto("127.0.0.3", 12, 3, NodeStatus::Normal);
    assert!(nodo
        .nodos
        .iter()
        .any(|(t, ip)| ip == "127.0.0.3" && *t == hash_texto("127.0.0.3")));
}

#[test]
fn test_replicas_se_recalculan_tras_caida() {
    let mut nodo = Nodo::new(&"127.0.0.1".to_string(), 10).unwrap();
    nodo.aplicar_estado_remoto("127.0.0.2", 11, 1, NodeStatus::Normal);
    nodo.aplicar_estado_remoto("127.0.0.3", 12, 1, NodeStatus::Normal);
    nodo.actualizar_replicas();
    assert_eq!(nodo.replicas.len(), 2);

    nodo.aplicar_estado_remoto("127.0.0.3", 12, 2, NodeStatus::Down);
    nodo.actualizar_replicas();
    assert_eq!(nodo.replicas, vec!["127.0.0.2".to_string()]);
}

#[test]
fn test_respuesta_mas_reciente() {
    let respuestas = vec![
        (vec!["7,old".to_string()], "4".to_string()),
        (vec!["7,new".to_string()], "9".to_string()),
        (vec![], "1".to_string()),
    ];
    let ganadora = elegir_mas_reciente(&respuestas).unwrap();
    assert_eq!(ganadora, 1);
    assert_eq!(respuestas[ganadora].0, vec!["7,new".to_string()]);

    // The comparison is numeric: a two-digit clock beats a one-digit one.
    let decenas = vec![
        (vec!["7,new".to_string()], "10".to_string()),
        (vec!["7,old".to_string()], "9".to_string()),
    ];
    let fresca = elegir_mas_reciente(&decenas).unwrap();
    assert_eq!(fresca, 0);

    assert!(elegir_mas_reciente(&Vec::new()).is_none());
}

#[test]
fn test_update_de_reparacion() {
    let headers = vec![
        "ORIGEN".to_string(),
        "FECHA".to_string(),
        "ID_VUELO".to_string(),
    ];
    let fila = vec![
        "MAD".to_string(),
        "2021-06-01".to_string(),
        "7".to_string(),
    ];
    let consulta = minicql::bdd::nodo::construir_update_todos_los_campos(
        &"VUELOS_ORIGEN".to_string(),
        &headers,
        &fila,
    );
    assert_eq!(
        consulta,
        "UPDATE VUELOS_ORIGEN SET ORIGEN = MAD, FECHA = 2021-06-01, ID_VUELO = 7 WHERE ORIGEN = MAD AND ID_VUELO = 7"
    );
}

#[test]
fn test_constructores_de_esquema() {
    let keyspace = minicql::funciones::construir_consulta_create_keyspace(
        "Aerolineas".to_string(),
        "SimpleStrategy".to_string(),
        3,
    );
    assert_eq!(
        keyspace,
        "CREATE KEYSPACE Aerolineas WITH replication = {'class': 'SimpleStrategy', 'replication_factor' : 3}"
    );

    let tabla = minicql::funciones::construir_consulta_create_table(
        "T".to_string(),
        vec!["ID".to_string(), "NOMBRE".to_string()],
        vec!["INT".to_string(), "TEXT".to_string()],
        vec!["ID".to_string()],
        vec!["NOMBRE".to_string()],
    );
    assert_eq!(
        tabla,
        "CREATE TABLE T (ID INT, NOMBRE TEXT, PRIMARY KEY ((ID), NOMBRE))"
    );
}

#[test]
fn test_servicios_y_direcciones() {
    assert_eq!(
        minicql::bdd::nodo::obtener_nombre_servicio("127.0.0.2".to_string()),
        "node2"
    );
    assert_eq!(minicql::bdd::nodo::obtener_ip_del_servicio("node3"), "127.0.0.3");
}

#[test]
fn test_timestamp_avanza() {
    let mut nodo = Nodo::new(&"127.0.0.1".to_string(), 10).unwrap();
    let antes = nodo.timestamp;
    nodo.avanzar_timestamp();
    assert_eq!(nodo.timestamp, antes + 1);
    assert!(nodo.timestamp >= antes);
}

#[test]
fn test_hash_vacio_conocido() {
    // The 32-bit MurmurHash3 of the empty input under seed 0 is 0; the
    // wrapper hands back the outside digest, not its argument.
    assert_eq!(hash_texto(""), 0);
}

#[test]
fn test_plan_de_redistribucion() {
    let mut nodo = Nodo::new(&"127.0.0.1".to_string(), 10).unwrap();
    let mut vuelos = minicql::bdd::tabla::Tabla::new(
        "VUELOS".to_string(),
        vec![
            "ORIGEN".to_string(),
            "FECHA".to_string(),
            "ID_VUELO".to_string(),
        ],
    );
    vuelos.insertar("MAD,2021-06-01,7".to_string());
    let mut estaticos = minicql::bdd::tabla::Tabla::new(
        "AEROPUERTOS".to_string(),
        vec!["ID_AEROPUERTO".to_string(), "NOMBRE".to_string()],
    );
    estaticos.insertar("1,Barajas".to_string());
    let mut keyspace =
        minicql::bdd::keyspace::Keyspace::new("Aerolineas".to_string(), 3, "SimpleStrategy".to_string());
    keyspace.add_tablas(vec![vuelos, estaticos]);
    nodo.keyspaces.push(keyspace);
    nodo.replicas = vec!["127.0.0.2".to_string()];

    // Every key token is at most the joiner's, and the static table is skipped.
    let plan = nodo.planear_redistribucion(u32::MAX, "127.0.0.4");
    assert_eq!(plan.len(), 2);
    assert_eq!(plan[0].destino, "127.0.0.4");
    assert_eq!(
        plan[0].consulta,
        "INSERT INTO VUELOS (ORIGEN, FECHA, ID_VUELO) VALUES (MAD, 2021-06-01, 7)"
    );
    assert_eq!(plan[1].destino, "127.0.0.2");
    assert_eq!(
        plan[1].consulta,
        "DELETE FROM VUELOS WHERE ORIGEN = MAD AND ID_VUELO = 7"
    );

    // A joiner whose token is below every key moves nothing.
    let vacio = nodo.planear_redistribucion(0, "127.0.0.4");
    assert!(vacio.is_empty());
}

#[test]
fn test_union_sin_repetidos() {
    let base = vec!["1,a".to_string(), "2,b".to_string()];
    let extra = vec!["2,b".to_string(), "3,c".to_string(), "3,c".to_string()];
    let union = minicql::bdd::nodo::union_sin_repetidos(base, &extra);
    assert_eq!(
        union,
        vec!["1,a".to_string(), "2,b".to_string(), "3,c".to_string()]
    );
}

#[test]
fn test_armar_tupla_invierte_el_parseo() {
    let corta = minicql::bdd::nodo::armar_tupla("127.0.0.2", 11, 3, None);
    assert_eq!(corta, "127.0.0.2:11:3");
    let larga = minicql::bdd::nodo::armar_tupla("127.0.0.2", 11, 3, Some(NodeStatus::Normal));
    assert_eq!(larga, "127.0.0.2:11:3:Normal");
    let (ip, gen, ver, estado) = parsear_tupla(&larga).unwrap();
    assert_eq!((ip.as_str(), gen, ver, estado.as_str()), ("127.0.0.2", 11, 3, "Normal"));
}

#[test]
fn test_elegir_objetivo_excluye_al_propio() {
    let mut nodo = Nodo::new(&"127.0.0.1".to_string(), 10).unwrap();
    assert!(nodo.elegir_objetivo(5).is_none());
    nodo.aplicar_estado_remoto("127.0.0.2", 11, 1, NodeStatus::Normal);
    let mut alguna = false;
    let mut sorteo: usize = 0;
    while sorteo < 4 {
        if let Some(ip) = nodo.elegir_objetivo(sorteo) {
            assert_eq!(ip, "127.0.0.2");
            alguna = true;
        }
        sorteo += 1;
    }
    assert!(alguna);
}

#[test]
fn test_ordenar_ack_reune_las_dos_lineas() {
    let cuerpo = minicql::serial_deserial::gossip::ordenar_ack(" a:1:2 \n b:3:4:Normal ");
    assert_eq!(cuerpo, "a:1:2\nb:3:4:Normal");
    let sin_segunda = minicql::serial_deserial::gossip::ordenar_ack("a:1:2");
    assert_eq!(sin_segunda, "a:1:2\n");
}
