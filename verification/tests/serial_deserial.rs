use minicql::serial_deserial::cassandra::{
    deserializar_consulta, deserializar_respuesta, query_to_bytes_client_server,
    result_to_bytes_server_client, serializar_ready_server_client,
    serializar_startup_client_server,
};
use minicql::serial_deserial::gossip::{deserializar_gossip, serializar_gossip};
use minicql::serial_deserial::intra_nodos::{
    deserializar_envio_nodos, deserializar_respuesta_nodos, serializar_envio_nodos,
    serializar_respuesta_nodos,
};
use minicql::serial_deserial::level_consistency::LevelConsistency;
use minicql::serial_deserial::type_message::TypeGossip;
use std::str::from_utf8;

#[test]
fn test_funcionamiento_correcto() {
    let query = "SELECT ID_VUELO, ORIGEN, DESTINO, COMBUSTIBLE FROM tabla_ejemplo WHERE ORIGEN = 'AEROPUERTO JORGE NEWBERY' AND ID_VUELO = 123";
    let len_bytes_query = query.len();

    let serializada = query_to_bytes_client_server(query, LevelConsistency::Strong, 0x00);

    assert!(serializada[0] == 0x04);
    assert!(serializada[1] == 0x00);
    assert!(u16::from_be_bytes([serializada[2], serializada[3]]) == 0x00);
    assert!(i8::from_be_bytes([serializada[4]]) == 0x07);

    assert!(
        i32::from_be_bytes([
            serializada[9],
            serializada[10],
            serializada[11],
            serializada[12]
        ]) == len_bytes_query as i32
    );
    assert!(from_utf8(&serializada[13..(len_bytes_query + 13)]).unwrap() == query);
    assert!(
        u16::from_be_bytes([
            serializada[len_bytes_query + 13],
            serializada[len_bytes_query + 14]
        ]) == LevelConsistency::Strong.valor()
    );
    assert!(serializada[len_bytes_query + 15] == 0x00);
}

#[test]
fn test_ida_y_vuelta_consulta_cliente() {
    let query = "INSERT INTO T (ID,NAME) VALUES (1,'a')";
    let trama = query_to_bytes_client_server(query, LevelConsistency::Weak, 0x00);
    let (texto, consistencia, opcode) = deserializar_consulta(&trama).unwrap();
    assert_eq!(texto, query);
    assert_eq!(consistencia, 0x0001);
    assert_eq!(opcode, 0x07);
}

#[test]
fn test_ida_y_vuelta_envio_nodos() {
    let query = "DELETE FROM T WHERE ID = 7 AND NOMBRE = x";
    let trama = serializar_envio_nodos(query, LevelConsistency::Strong, 1);
    let (texto, rol, consistencia) = deserializar_envio_nodos(&trama).unwrap();
    assert_eq!(texto, query);
    assert_eq!(rol, 1);
    assert_eq!(consistencia, 0x0004);
}

#[test]
fn test_ida_y_vuelta_respuesta_nodos() {
    let filas = vec!["1,a".to_string(), "2,b".to_string(), "ACK".to_string()];
    let trama = serializar_respuesta_nodos(&filas, 0x0002);
    let leidas = deserializar_respuesta_nodos(&trama).unwrap();
    assert_eq!(leidas, filas);
}

#[test]
fn test_ida_y_vuelta_respuesta_cliente() {
    let filas = vec!["7,new".to_string()];
    let trama = result_to_bytes_server_client(&filas, 0x0002).unwrap();
    let (leidas, opcode) = deserializar_respuesta(&trama).unwrap();
    assert_eq!(leidas, filas);
    assert_eq!(opcode, 0x08);

    let vacia = result_to_bytes_server_client(&Vec::new(), 0x0001).unwrap();
    let (sin_filas, opcode_void) = deserializar_respuesta(&vacia).unwrap();
    assert!(sin_filas.is_empty());
    assert_eq!(opcode_void, 0x08);
}

#[test]
fn test_ida_y_vuelta_gossip() {
    let digest = "127.0.0.1:10:3 127.0.0.2:11:1";
    let trama = serializar_gossip(digest, TypeGossip::Syn, "127.0.0.1");
    let (mensaje, tipo, ip) = deserializar_gossip(&trama).unwrap();
    assert_eq!(mensaje, digest);
    assert_eq!(ip, "127.0.0.1");
    assert!(tipo == TypeGossip::Syn);

    let tupla = "127.0.0.2:11:1:Normal";
    let trama2 = serializar_gossip(tupla, TypeGossip::Ack2, "");
    let (mensaje2, tipo2, _) = deserializar_gossip(&trama2).unwrap();
    assert_eq!(mensaje2, tupla);
    assert!(tipo2 == TypeGossip::Ack2);
}

#[test]
fn test_trama_corta_rechazada() {
    let corta: Vec<u8> = vec![0x04, 0x00, 0x00];
    assert!(deserializar_consulta(&corta).is_err());
    assert!(deserializar_envio_nodos(&corta).is_err());
}

#[test]
fn test_opcode_desconocido_rechazado() {
    let trama: Vec<u8> = vec![0x04, 0x00, 0x00, 0x00, 0x09, 0x00, 0x00, 0x00, 0x00];
    assert!(deserializar_consulta(&trama).is_err());
}

#[test]
fn test_texto_invalido_rechazado() {
    let mut trama: Vec<u8> = vec![0x04, 0x00, 0x00, 0x00, 0x07];
    trama.extend_from_slice(&7i32.to_be_bytes());
    trama.extend_from_slice(&1i32.to_be_bytes());
    trama.push(0xff);
    trama.extend_from_slice(&1u16.to_be_bytes());
    trama.push(0x00);
    assert!(deserializar_consulta(&trama).is_err());
}

#[test]
fn test_ready_y_startup() {
    let ready = serializar_ready_server_client();
    assert_eq!(ready.len(), 9);
    assert_eq!(ready[4], 0x02);

    let startup = serializar_startup_client_server();
    assert_eq!(startup[4], 0x01);
    let (banner, consistencia, opcode) = deserializar_consulta(&startup).unwrap();
    assert_eq!(banner, "CQL_VERSION - 3.0.0");
    assert_eq!(consistencia, 0x00);
    assert_eq!(opcode, 0x01);
}
