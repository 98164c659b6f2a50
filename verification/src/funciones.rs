//! Statement builders for creating keyspaces and tables.

use crate::cadena::{cadena_de_chars, chars_de_cadena};
use crate::texto::{texto_de_natural, unir};
use vstd::prelude::*;

verus! {

/// The CREATE KEYSPACE statement for a name, strategy and factor.
pub fn construir_consulta_create_keyspace(
    nombre: String,
    strategy: String,
    replicacion_factor: usize,
) -> (r: String)
    ensures
        exists|d: Seq<char>|
            #[trigger] crate::texto::es_decimal_de(d, replicacion_factor as int) && r@
                == "CREATE KEYSPACE "@ + nombre@ + " WITH replication = {'class': '"@ + strategy@
                + "', 'replication_factor' : "@ + d + "}"@,
{
    proof {
        reveal_strlit("CREATE KEYSPACE ");
        reveal_strlit(" WITH replication = {'class': '");
        reveal_strlit("', 'replication_factor' : ");
        reveal_strlit("}");
    }
    let mut r = chars_de_cadena("CREATE KEYSPACE ");
    let mut n = chars_de_cadena(nombre.as_str());
    r.append(&mut n);
    let mut medio = chars_de_cadena(" WITH replication = {'class': '");
    r.append(&mut medio);
    let mut st = chars_de_cadena(strategy.as_str());
    r.append(&mut st);
    let mut medio2 = chars_de_cadena("', 'replication_factor' : ");
    r.append(&mut medio2);
    let mut digitos = texto_de_natural(replicacion_factor as u64);
    let ghost d = digitos@;
    r.append(&mut digitos);
    let mut fin = chars_de_cadena("}");
    r.append(&mut fin);
    proof {
        assert(r@ =~= "CREATE KEYSPACE "@ + nombre@ + " WITH replication = {'class': '"@
            + strategy@ + "', 'replication_factor' : "@ + d + "}"@);
    }
    cadena_de_chars(&r)
}

/// Column definitions joined with commas: each field and its type.
pub open spec fn espec_columnas_con_tipos(
    campos: Seq<Seq<char>>,
    tipos: Seq<Seq<char>>,
) -> Seq<Seq<char>>
    decreases campos.len(),
{
    if campos.len() == 0 {
        Seq::empty()
    } else {
        espec_columnas_con_tipos(campos.drop_last(), tipos.drop_last()).push(
            campos.last() + seq![' '] + (if tipos.len() > 0 {
                tipos.last()
            } else {
                Seq::<char>::empty()
            }),
        )
    }
}

/// The CREATE TABLE statement for a name, columns with types, and the
/// primary-key columns.
pub fn construir_consulta_create_table(
    tabla: String,
    campos: Vec<String>,
    tipos: Vec<String>,
    partition_key: Vec<String>,
    clustering_colum: Vec<String>,
) -> (r: String)
    requires
        tipos@.len() == campos@.len(),
    ensures
        r@ == "CREATE TABLE "@ + tabla@ + " ("@ + unir(
            espec_columnas_con_tipos(campos.deep_view(), tipos.deep_view()).push(
                "PRIMARY KEY (("@ + unir(partition_key.deep_view(), ", "@) + "), "@ + unir(
                    clustering_colum.deep_view(),
                    ", "@,
                ) + ")"@,
            ),
            ", "@,
        ) + ")"@,
{
    proof {
        reveal_strlit("CREATE TABLE ");
        reveal_strlit(" (");
        reveal_strlit(")");
        reveal_strlit(", ");
        reveal_strlit("PRIMARY KEY ((");
        reveal_strlit("), ");
        reveal_strlit(" ");
    }
    let coma_sep: Vec<char> = vec![',', ' '];
    proof {
        assert(coma_sep@ =~= ", "@);
    }
    let mut columnas: Vec<Vec<char>> = Vec::new();
    let mut i: usize = 0;
    while i < campos.len()
        invariant
            0 <= i <= campos@.len(),
            tipos@.len() == campos@.len(),
            columnas.deep_view() == espec_columnas_con_tipos(
                campos.deep_view().subrange(0, i as int),
                tipos.deep_view().subrange(0, i as int),
            ),
        decreases campos@.len() - i,
    {
        let ghost cp = campos.deep_view().subrange(0, i as int);
        let ghost tp = tipos.deep_view().subrange(0, i as int);
        proof {
            assert(campos.deep_view().subrange(0, i + 1 as int).drop_last() =~~= cp);
            assert(tipos.deep_view().subrange(0, i + 1 as int).drop_last() =~~= tp);
            assert(campos.deep_view().subrange(0, i + 1 as int).last()
                == campos.deep_view()[i as int]);
            assert(tipos.deep_view().subrange(0, i + 1 as int).last()
                == tipos.deep_view()[i as int]);
            assert(campos.deep_view()[i as int] == campos@[i as int]@);
            assert(tipos.deep_view()[i as int] == tipos@[i as int]@);
        }
        let mut col = chars_de_cadena(campos[i].as_str());
        col.push(' ');
        let mut tipo = chars_de_cadena(tipos[i].as_str());
        col.append(&mut tipo);
        proof {
            assert(col@ =~= campos.deep_view()[i as int] + seq![' ']
                + tipos.deep_view()[i as int]);
        }
        columnas.push(col);
        proof {
            assert(columnas.deep_view() =~~= espec_columnas_con_tipos(
                campos.deep_view().subrange(0, i + 1 as int),
                tipos.deep_view().subrange(0, i + 1 as int),
            ));
        }
        i += 1;
    }
    proof {
        assert(campos.deep_view().subrange(0, campos.deep_view().len() as int)
            =~~= campos.deep_view());
        assert(tipos.deep_view().subrange(0, tipos.deep_view().len() as int)
            =~~= tipos.deep_view());
    }
    let mut pk_piezas: Vec<Vec<char>> = Vec::new();
    let mut a: usize = 0;
    while a < partition_key.len()
        invariant
            0 <= a <= partition_key@.len(),
            pk_piezas.deep_view() == partition_key.deep_view().subrange(0, a as int),
        decreases partition_key@.len() - a,
    {
        proof {
            assert(partition_key.deep_view()[a as int] == partition_key@[a as int]@);
        }
        let ghost pk_antes = pk_piezas.deep_view();
        pk_piezas.push(chars_de_cadena(partition_key[a].as_str()));
        proof {
            assert(pk_piezas.deep_view() =~~= pk_antes.push(partition_key.deep_view()[a as int]));
            assert(partition_key.deep_view().subrange(0, a + 1 as int)
                =~~= partition_key.deep_view().subrange(0, a as int).push(
                partition_key.deep_view()[a as int],
            ));
            assert(pk_piezas.deep_view() =~~= partition_key.deep_view().subrange(
                0,
                a + 1 as int,
            ));
        }
        a += 1;
    }
    let mut cc_piezas: Vec<Vec<char>> = Vec::new();
    let mut b: usize = 0;
    while b < clustering_colum.len()
        invariant
            0 <= b <= clustering_colum@.len(),
            cc_piezas.deep_view() == clustering_colum.deep_view().subrange(0, b as int),
        decreases clustering_colum@.len() - b,
    {
        proof {
            assert(clustering_colum.deep_view()[b as int] == clustering_colum@[b as int]@);
        }
        let ghost cc_antes = cc_piezas.deep_view();
        cc_piezas.push(chars_de_cadena(clustering_colum[b].as_str()));
        proof {
            assert(cc_piezas.deep_view() =~~= cc_antes.push(
                clustering_colum.deep_view()[b as int],
            ));
            assert(clustering_colum.deep_view().subrange(0, b + 1 as int)
                =~~= clustering_colum.deep_view().subrange(0, b as int).push(
                clustering_colum.deep_view()[b as int],
            ));
            assert(cc_piezas.deep_view() =~~= clustering_colum.deep_view().subrange(
                0,
                b + 1 as int,
            ));
        }
        b += 1;
    }
    proof {
        assert(partition_key.deep_view().subrange(0, partition_key.deep_view().len() as int)
            =~~= partition_key.deep_view());
        assert(clustering_colum.deep_view().subrange(
            0,
            clustering_colum.deep_view().len() as int,
        ) =~~= clustering_colum.deep_view());
    }
    let pk = crate::texto::unir_texto(&pk_piezas, &coma_sep);
    let cc = crate::texto::unir_texto(&cc_piezas, &coma_sep);
    let mut clave = chars_de_cadena("PRIMARY KEY ((");
    let mut pkk = pk;
    clave.append(&mut pkk);
    let mut medio = chars_de_cadena("), ");
    clave.append(&mut medio);
    let mut ccc = cc;
    clave.append(&mut ccc);
    let mut fin1 = chars_de_cadena(")");
    clave.append(&mut fin1);
    let ghost clave_vista = clave@;
    let ghost columnas_antes = columnas.deep_view();
    columnas.push(clave);
    proof {
        assert(columnas.deep_view() =~~= columnas_antes.push(clave_vista));
        assert(clave_vista =~= "PRIMARY KEY (("@ + unir(partition_key.deep_view(), ", "@)
            + "), "@ + unir(clustering_colum.deep_view(), ", "@) + ")"@);
    }
    let centro = crate::texto::unir_texto(&columnas, &coma_sep);
    let mut r = chars_de_cadena("CREATE TABLE ");
    let mut t = chars_de_cadena(tabla.as_str());
    r.append(&mut t);
    let mut abre = chars_de_cadena(" (");
    r.append(&mut abre);
    let mut cen = centro;
    r.append(&mut cen);
    let mut cierra = chars_de_cadena(")");
    r.append(&mut cierra);
    proof {
        assert(r@ =~= "CREATE TABLE "@ + tabla@ + " ("@ + unir(
            espec_columnas_con_tipos(campos.deep_view(), tipos.deep_view()).push(clave_vista),
            ", "@,
        ) + ")"@);
    }
    cadena_de_chars(&r)
}

} // verus!
