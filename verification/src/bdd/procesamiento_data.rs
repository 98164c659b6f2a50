//! Keys, hashes, default schemas and table loading.

use crate::bdd::endpoint_data::EndpointData;
use crate::bdd::node_status::NodeStatus;
use crate::bdd::tabla::{
    bien_formada, celdas, filas_planas, lado_derecho, Particion, Tabla,
};
use crate::cadena::{cadena_de_chars, chars_de_cadena};
use crate::parser_cql::condicion_where::CondicionWhere;
use crate::texto::{
    contiene, dividir, dividir_texto, lema_dividir_no_vacio, recortar, recortar_texto, sin_estos,
    subvec, unir, unir_texto, quitar_caracteres,
};
use vstd::prelude::*;

verus! {

/// The token a text hashes to on the ring.
///
/// This names the digest of the 32-bit MurmurHash3 with seed 0 over the
/// text's UTF-8 bytes; the digest depends on the text alone.
pub uninterp spec fn hash_de(s: Seq<char>) -> u32;

/// Relies on murmur3::murmur3_32 with seed 0: it reads the whole
/// in-memory cursor, which never fails, and its digest is a function of
/// the bytes read alone.
#[verifier::external_body]
pub fn hashear(dato: &str) -> (r: Result<u32, String>)
    ensures
        r is Ok,
        r matches Ok(h) ==> h == hash_de(dato@),
{
    let mut cursor = std::io::Cursor::new(dato.as_bytes());
    match murmur3::murmur3_32(&mut cursor, 0) {
        Ok(x) => Ok(x),
        Err(_) => Err("Error al calcular el hash".to_string()),
    }
}

/// The token of a text, never failing: the in-memory digest always comes.
pub fn hash_texto(dato: &str) -> (r: u32)
    ensures
        r == hash_de(dato@),
{
    match hashear(dato) {
        Ok(h) => h,
        Err(_) => {
            proof {
                assert(false);
            }
            0
        },
    }
}

/// The partition key an INSERT's payload addresses: the first value of
/// its VALUES list, parentheses dropped.
pub open spec fn clave_origen(q: Seq<char>) -> Seq<char> {
    let cv = dividir(q, " VALUES "@);
    if cv.len() >= 2 {
        dividir(sin_estos(cv[1], seq!['(', ')']), seq![','])[0]
    } else {
        Seq::empty()
    }
}

/// Hash of the partition key an INSERT's payload addresses.
pub fn obtener_hash_origen(query_insert: &str) -> (r: u32)
    ensures
        r == hash_de(clave_origen(query_insert@)),
{
    let q = chars_de_cadena(query_insert);
    let sep: Vec<char> = vec![' ', 'V', 'A', 'L', 'U', 'E', 'S', ' '];
    let parens: Vec<char> = vec!['(', ')'];
    let coma: Vec<char> = vec![','];
    proof {
        reveal_strlit(" VALUES ");
        assert(sep@ =~= " VALUES "@);
        assert(parens@ =~= seq!['(', ')']);
        assert(coma@ =~= seq![',']);
    }
    let cv = dividir_texto(&q, &sep);
    if cv.len() >= 2 {
        proof {
            assert(cv.deep_view()[1] == cv@[1]@);
        }
        let limpio = quitar_caracteres(&cv[1], &parens);
        proof {
            lema_dividir_no_vacio(limpio@, seq![',']);
        }
        let columnas = dividir_texto(&limpio, &coma);
        proof {
            assert(columnas.deep_view()[0] == columnas@[0]@);
        }
        let origen = cadena_de_chars(&columnas[0]);
        hash_texto(origen.as_str())
    } else {
        let vacio = String::new();
        hash_texto(vacio.as_str())
    }
}

/// Hash of the key the first condition of a restriction addresses.
pub fn obtener_hash_key_select(condicion: &CondicionWhere) -> (r: u32)
    ensures
        r == hash_de(lado_derecho(condicion.condicion1@)),
{
    let sep: Vec<char> = vec![' ', '=', ' '];
    proof {
        reveal_strlit(" = ");
        assert(sep@ =~= " = "@);
    }
    let c1 = chars_de_cadena(condicion.condicion1.as_str());
    let partes = dividir_texto(&c1, &sep);
    if partes.len() >= 2 {
        proof {
            assert(partes.deep_view()[1] == partes@[1]@);
        }
        let nombre = cadena_de_chars(&partes[1]);
        hash_texto(nombre.as_str())
    } else {
        let vacio = String::new();
        hash_texto(vacio.as_str())
    }
}

/// Each piece trimmed.
pub open spec fn mapa_recorta(ps: Seq<Seq<char>>) -> Seq<Seq<char>>
    decreases ps.len(),
{
    if ps.len() == 0 {
        Seq::empty()
    } else {
        mapa_recorta(ps.drop_last()).push(recortar(ps.last()))
    }
}

/// The row an INSERT's payload denotes: its values, trimmed, parentheses
/// dropped, joined with commas.
pub open spec fn fila_de_consulta(q: Seq<char>) -> Seq<char> {
    let cv = dividir(q, "VALUES"@);
    if cv.len() >= 2 {
        unir(
            mapa_recorta(dividir(sin_estos(recortar(cv[1]), seq!['(', ')']), seq![','])),
            seq![','],
        )
    } else {
        Seq::empty()
    }
}

/// The row an INSERT's payload denotes.
#[verifier::loop_isolation(false)]
pub fn obtener_row(query_insert: &str) -> (r: String)
    ensures
        r@ == fila_de_consulta(query_insert@),
{
    let q = chars_de_cadena(query_insert);
    let sep: Vec<char> = vec!['V', 'A', 'L', 'U', 'E', 'S'];
    let parens: Vec<char> = vec!['(', ')'];
    let coma: Vec<char> = vec![','];
    proof {
        reveal_strlit("VALUES");
        assert(sep@ =~= "VALUES"@);
        assert(parens@ =~= seq!['(', ')']);
        assert(coma@ =~= seq![',']);
    }
    let cv = dividir_texto(&q, &sep);
    if cv.len() >= 2 {
        proof {
            assert(cv.deep_view()[1] == cv@[1]@);
        }
        let limpio = quitar_caracteres(&recortar_texto(&cv[1]), &parens);
        let valores = dividir_texto(&limpio, &coma);
        let mut recortados: Vec<Vec<char>> = Vec::new();
        let mut i: usize = 0;
        while i < valores.len()
            invariant
                0 <= i <= valores@.len(),
                recortados.deep_view() == mapa_recorta(
                    valores.deep_view().subrange(0, i as int),
                ),
            decreases valores@.len() - i,
        {
            let ghost pref = valores.deep_view().subrange(0, i as int);
            proof {
                assert(valores.deep_view().subrange(0, i + 1 as int).drop_last() =~~= pref);
                assert(valores.deep_view().subrange(0, i + 1 as int).last()
                    == valores.deep_view()[i as int]);
                assert(valores.deep_view()[i as int] == valores@[i as int]@);
            }
            recortados.push(recortar_texto(&valores[i]));
            proof {
                assert(recortados.deep_view() =~~= mapa_recorta(
                    valores.deep_view().subrange(0, i + 1 as int),
                ));
            }
            i += 1;
        }
        proof {
            assert(valores.deep_view().subrange(0, valores.deep_view().len() as int)
                =~~= valores.deep_view());
        }
        let unido = unir_texto(&recortados, &coma);
        cadena_de_chars(&unido)
    } else {
        String::new()
    }
}

/// The columns of the airports table.
pub open spec fn espec_headers_aeropuertos() -> Seq<Seq<char>> {
    seq!["ID_AEROPUERTO"@, "NOMBRE"@, "LATITUD"@, "LONGITUD"@]
}

/// The columns of a flight table, keyed by destination or by origin.
pub open spec fn espec_headers_vuelos(destino: bool) -> Seq<Seq<char>> {
    if destino {
        seq![
            "DESTINO"@, "FECHA"@, "ID_VUELO"@, "ORIGEN"@, "ESTADO_VUELO"@, "VELOCIDAD_ACTUAL"@,
            "ALTITUD_ACTUAL"@, "LATITUD_ACTUAL"@, "LONGITUD_ACTUAL"@, "COMBUSTIBLE"@,
        ]
    } else {
        seq![
            "ORIGEN"@, "FECHA"@, "ID_VUELO"@, "DESTINO"@, "ESTADO_VUELO"@, "VELOCIDAD_ACTUAL"@,
            "ALTITUD_ACTUAL"@, "LATITUD_ACTUAL"@, "LONGITUD_ACTUAL"@, "COMBUSTIBLE"@,
        ]
    }
}

/// The columns of the airports table.
pub fn get_headers_aeropuertos() -> (r: Vec<String>)
    ensures
        r.deep_view() == espec_headers_aeropuertos(),
{
    let mut r: Vec<String> = Vec::new();
    r.push("ID_AEROPUERTO".to_string());
    r.push("NOMBRE".to_string());
    r.push("LATITUD".to_string());
    r.push("LONGITUD".to_string());
    proof {
        assert(r.deep_view() =~~= espec_headers_aeropuertos());
    }
    r
}

/// The columns of a flight table; `"DESTINO"` picks the
/// destination-keyed shape, anything else the origin-keyed one.
pub fn get_headers_vuelos(tipo: &str) -> (r: Vec<String>)
    ensures
        r.deep_view() == espec_headers_vuelos(tipo@ == "DESTINO"@),
{
    let destino = crate::bdd::node_status::cadenas_iguales(tipo, "DESTINO");
    let mut r: Vec<String> = Vec::new();
    if destino {
        r.push("DESTINO".to_string());
    } else {
        r.push("ORIGEN".to_string());
    }
    r.push("FECHA".to_string());
    r.push("ID_VUELO".to_string());
    if destino {
        r.push("ORIGEN".to_string());
    } else {
        r.push("DESTINO".to_string());
    }
    r.push("ESTADO_VUELO".to_string());
    r.push("VELOCIDAD_ACTUAL".to_string());
    r.push("ALTITUD_ACTUAL".to_string());
    r.push("LATITUD_ACTUAL".to_string());
    r.push("LONGITUD_ACTUAL".to_string());
    r.push("COMBUSTIBLE".to_string());
    proof {
        assert(r.deep_view() =~~= espec_headers_vuelos(tipo@ == "DESTINO"@));
    }
    r
}

/// The three default schemas: airports, flights by origin, flights by
/// destination.
pub fn inicializar_headers() -> (r: (Vec<String>, Vec<String>, Vec<String>))
    ensures
        r.0.deep_view() == espec_headers_aeropuertos(),
        r.1.deep_view() == espec_headers_vuelos(false),
        r.2.deep_view() == espec_headers_vuelos(true),
{
    proof {
        reveal_strlit("ORIGEN");
        reveal_strlit("DESTINO");
    }
    let a = get_headers_aeropuertos();
    let o = get_headers_vuelos("ORIGEN");
    let d = get_headers_vuelos("DESTINO");
    (a, o, d)
}

/// The table a data file belongs to, picked by the file's name; an
/// unrecognised name gives a nameless empty table.
pub fn crear_tabla(
    name: &str,
    headers_aeropuerto: Vec<String>,
    headers_origen: Vec<String>,
    headers_destino: Vec<String>,
) -> (r: Tabla)
    ensures
        r.datos@.len() == 0,
        bien_formada(r.datos@),
        contiene(name@, "AEROPUERTOS"@) ==> r.nombre@ == "AEROPUERTOS"@ && r.headers
            == headers_aeropuerto,
        !contiene(name@, "AEROPUERTOS"@) && contiene(name@, "VUELOS_ORIGEN"@) ==> r.nombre@
            == "VUELOS_ORIGEN"@ && r.headers == headers_origen,
        !contiene(name@, "AEROPUERTOS"@) && !contiene(name@, "VUELOS_ORIGEN"@) && contiene(
            name@,
            "VUELOS_DESTINO"@,
        ) ==> r.nombre@ == "VUELOS_DESTINO"@ && r.headers == headers_destino,
        !contiene(name@, "AEROPUERTOS"@) && !contiene(name@, "VUELOS_ORIGEN"@) && !contiene(
            name@,
            "VUELOS_DESTINO"@,
        ) ==> r.nombre@ == Seq::<char>::empty() && r.headers@.len() == 0,
{
    let n = chars_de_cadena(name);
    let aero: Vec<char> = vec!['A', 'E', 'R', 'O', 'P', 'U', 'E', 'R', 'T', 'O', 'S'];
    let vo: Vec<char> = vec![
        'V', 'U', 'E', 'L', 'O', 'S', '_', 'O', 'R', 'I', 'G', 'E', 'N',
    ];
    let vd: Vec<char> = vec![
        'V', 'U', 'E', 'L', 'O', 'S', '_', 'D', 'E', 'S', 'T', 'I', 'N', 'O',
    ];
    proof {
        reveal_strlit("AEROPUERTOS");
        reveal_strlit("VUELOS_ORIGEN");
        reveal_strlit("VUELOS_DESTINO");
        assert(aero@ =~= "AEROPUERTOS"@);
        assert(vo@ =~= "VUELOS_ORIGEN"@);
        assert(vd@ =~= "VUELOS_DESTINO"@);
    }
    if contiene_texto(&n, &aero) {
        let nombre = cadena_de_chars(&aero);
        Tabla::new(nombre, headers_aeropuerto)
    } else if contiene_texto(&n, &vo) {
        let nombre = cadena_de_chars(&vo);
        Tabla::new(nombre, headers_origen)
    } else if contiene_texto(&n, &vd) {
        let nombre = cadena_de_chars(&vd);
        Tabla::new(nombre, headers_destino)
    } else {
        Tabla::new(String::new(), Vec::new())
    }
}

/// Whether `pat` occurs in `s`, executably.
pub fn contiene_texto(s: &Vec<char>, pat: &Vec<char>) -> (r: bool)
    requires
        pat@.len() > 0,
    ensures
        r == contiene(s@, pat@),
{
    proof {
        crate::texto::lema_primera_ocurrencia(s@, pat@);
    }
    match crate::texto::buscar(s, pat) {
        Some(_) => {
            proof {
                assert(crate::texto::ocurre_en(
                    s@,
                    pat@,
                    crate::texto::primera_ocurrencia(s@, pat@),
                ));
            }
            true
        },
        None => {
            proof {
                if contiene(s@, pat@) {
                    let i = choose|i: int| crate::texto::ocurre_en(s@, pat@, i);
                    assert(false);
                }
            }
            false
        },
    }
}

/// Insert each line into the table.  Starting from an empty table and
/// distinct lines, the rows of the loaded table are exactly the lines:
/// re-serialising the table yields the same multiset of lines.
#[verifier::loop_isolation(false)]
pub fn insert_data(data: &Vec<String>, tabla: &mut Tabla)
    requires
        bien_formada(old(tabla).datos@),
        old(tabla).datos@.len() == 0,
        forall|i: int, j: int|
            0 <= i < j < data@.len() ==> data.deep_view()[i] != data.deep_view()[j],
    ensures
        bien_formada(final(tabla).datos@),
        final(tabla).nombre == old(tabla).nombre,
        final(tabla).headers == old(tabla).headers,
        filas_planas(final(tabla).datos@).to_multiset() == data.deep_view().to_multiset(),
{
    broadcast use vstd::seq_lib::group_to_multiset_ensures;

    let mut i: usize = 0;
    proof {
        assert(filas_planas(tabla.datos@) =~~= Seq::<Seq<char>>::empty()) by {
            assert(tabla.datos@ =~= Seq::<Particion>::empty());
        }
        assert(data.deep_view().subrange(0, 0) =~~= Seq::<Seq<char>>::empty());
        assert(filas_planas(tabla.datos@).to_multiset() =~= data.deep_view().subrange(
            0,
            0,
        ).to_multiset());
    }
    while i < data.len()
        invariant
            0 <= i <= data@.len(),
            bien_formada(tabla.datos@),
            tabla.nombre == old(tabla).nombre,
            tabla.headers == old(tabla).headers,
            filas_planas(tabla.datos@).to_multiset() == data.deep_view().subrange(
                0,
                i as int,
            ).to_multiset(),
        decreases data@.len() - i,
    {
        let ghost pref = data.deep_view().subrange(0, i as int);
        let ghost fila = data.deep_view()[i as int];
        proof {
            assert(data.deep_view().subrange(0, i + 1 as int) =~~= pref.push(fila));
            assert(!pref.contains(fila)) by {
                if pref.contains(fila) {
                    let g = choose|g: int| 0 <= g < pref.len() && pref[g] == fila;
                    assert(data.deep_view()[g] == data.deep_view()[i as int]);
                }
            }
            assert(filas_planas(tabla.datos@).to_multiset().count(fila) == 0) by {
                assert(pref.to_multiset().count(fila) == 0);
            }
            if tabla.fila_presente(celdas(fila)[0], fila) {
                let j = crate::bdd::tabla::indice_particion(tabla.datos@, celdas(fila)[0]);
                crate::bdd::tabla::lema_indice_particion(tabla.datos@, celdas(fila)[0]);
                let g = choose|g: int|
                    0 <= g < tabla.datos@[j].filas.deep_view().len()
                        && tabla.datos@[j].filas.deep_view()[g] == fila;
                lema_plana_contiene(tabla.datos@, j, g);
                assert(filas_planas(tabla.datos@).to_multiset().count(fila) > 0);
            }
            assert(data.deep_view()[i as int] == data@[i as int]@);
        }
        let linea = data[i].clone();
        tabla.insertar(linea);
        proof {
            assert(filas_planas(tabla.datos@).to_multiset() =~= data.deep_view().subrange(
                0,
                i + 1 as int,
            ).to_multiset());
        }
        i += 1;
    }
    proof {
        assert(data.deep_view().subrange(0, data.deep_view().len() as int)
            =~~= data.deep_view());
    }
}

/// A row of some partition is among the flattened rows.
pub proof fn lema_plana_contiene(datos: Seq<Particion>, j: int, g: int)
    requires
        0 <= j < datos.len(),
        0 <= g < datos[j].filas.deep_view().len(),
    ensures
        filas_planas(datos).contains(datos[j].filas.deep_view()[g]),
    decreases j,
{
    if j == 0 {
        assert(filas_planas(datos)[g] == datos[0].filas.deep_view()[g]);
    } else {
        lema_plana_contiene(datos.drop_first(), j - 1, g);
        let fila = datos[j].filas.deep_view()[g];
        let k = choose|k: int|
            0 <= k < filas_planas(datos.drop_first()).len() && filas_planas(datos.drop_first())[k]
                == fila;
        assert(filas_planas(datos)[datos[0].filas.deep_view().len() + k] == fila);
    }
}

/// The three default tables, empty.
pub fn new_tablas() -> (r: Vec<Tabla>)
    ensures
        r@.len() == 3,
        r@[0].nombre@ == "AEROPUERTOS"@,
        r@[1].nombre@ == "VUELOS_ORIGEN"@,
        r@[2].nombre@ == "VUELOS_DESTINO"@,
        r@[0].headers.deep_view() == espec_headers_aeropuertos(),
        r@[1].headers.deep_view() == espec_headers_vuelos(false),
        r@[2].headers.deep_view() == espec_headers_vuelos(true),
        forall|i: int| 0 <= i < 3 ==> (#[trigger] r@[i]).datos@.len() == 0,
        crate::bdd::keyspace::tablas_bien_formadas(r@),
    {
    let (ha, ho, hd) = inicializar_headers();
    let mut r: Vec<Tabla> = Vec::new();
    proof {
        reveal_strlit("AEROPUERTOS");
        reveal_strlit("VUELOS_ORIGEN");
        reveal_strlit("VUELOS_DESTINO");
    }
    r.push(Tabla::new("AEROPUERTOS".to_string(), ha));
    r.push(Tabla::new("VUELOS_ORIGEN".to_string(), ho));
    r.push(Tabla::new("VUELOS_DESTINO".to_string(), hd));
    proof {
        assert("AEROPUERTOS"@.len() == 11);
        assert("VUELOS_ORIGEN"@.len() == 13);
        assert("VUELOS_DESTINO"@.len() == 14);
        assert(r@[0].nombre@ != r@[1].nombre@);
        assert(r@[0].nombre@ != r@[2].nombre@);
        assert(r@[1].nombre@ != r@[2].nombre@);
    }
    r
}

/// The starting metadata of a node: its own record, serving, at version
/// 0, with the generation its clock gave at startup.
pub fn new_metadata(ip_nodo: &String, generacion: u64) -> (r: Vec<(String, EndpointData)>)
    ensures
        r@.len() == 1,
        r@[0].0@ == ip_nodo@,
        r@[0].1.heartbeat_state.generation == generacion,
        r@[0].1.heartbeat_state.version == 0,
        r@[0].1.application_state.status == NodeStatus::Normal,
{
    let mut r: Vec<(String, EndpointData)> = Vec::new();
    r.push((ip_nodo.clone(), EndpointData::new(generacion, 0, NodeStatus::Normal)));
    r
}

} // verus!
