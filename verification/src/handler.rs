//! Statement builders for the front-end's standing queries.

use crate::cadena::{cadena_de_chars, chars_de_cadena};
use crate::texto::textos_iguales;
use vstd::prelude::*;

verus! {

/// The SELECT a front end sends for one table: everything, or the rows
/// of one airport and date when the table is a flight table and an
/// airport is given.
pub fn construir_consulta_select(tabla: String, aeropuerto: String, fecha: String) -> (r: String)
    ensures
        tabla@ == "AEROPUERTOS"@ ==> r@ == "SELECT * FROM AEROPUERTOS"@,
        tabla@ == "VUELOS_ORIGEN"@ && aeropuerto@ == Seq::<char>::empty() ==> r@
            == "SELECT * FROM VUELOS_ORIGEN"@,
        tabla@ == "VUELOS_ORIGEN"@ && aeropuerto@ != Seq::<char>::empty() ==> r@
            == "SELECT * FROM VUELOS_ORIGEN WHERE ORIGEN = "@ + aeropuerto@ + " AND FECHA = "@
            + fecha@,
        tabla@ != "AEROPUERTOS"@ && tabla@ != "VUELOS_ORIGEN"@ && aeropuerto@ == Seq::<
            char,
        >::empty() ==> r@ == "SELECT * FROM VUELOS_DESTINO"@,
        tabla@ != "AEROPUERTOS"@ && tabla@ != "VUELOS_ORIGEN"@ && aeropuerto@ != Seq::<
            char,
        >::empty() ==> r@ == "SELECT * FROM VUELOS_DESTINO WHERE DESTINO = "@ + aeropuerto@
            + " AND FECHA = "@ + fecha@,
{
    proof {
        reveal_strlit("AEROPUERTOS");
        reveal_strlit("VUELOS_ORIGEN");
        reveal_strlit("SELECT * FROM AEROPUERTOS");
        reveal_strlit("SELECT * FROM VUELOS_ORIGEN");
        reveal_strlit("SELECT * FROM VUELOS_DESTINO");
        reveal_strlit("SELECT * FROM VUELOS_ORIGEN WHERE ORIGEN = ");
        reveal_strlit("SELECT * FROM VUELOS_DESTINO WHERE DESTINO = ");
        reveal_strlit(" AND FECHA = ");
        assert("AEROPUERTOS"@.len() == 11);
        assert("VUELOS_ORIGEN"@.len() == 13);
        assert("AEROPUERTOS"@ != "VUELOS_ORIGEN"@);
    }
    let t = chars_de_cadena(tabla.as_str());
    let aero_marca = chars_de_cadena("AEROPUERTOS");
    let origen_marca = chars_de_cadena("VUELOS_ORIGEN");
    if textos_iguales(&t, &aero_marca) {
        return "SELECT * FROM AEROPUERTOS".to_string();
    }
    let a = chars_de_cadena(aeropuerto.as_str());
    let f = chars_de_cadena(fecha.as_str());
    if textos_iguales(&t, &origen_marca) {
        if a.len() == 0 {
            proof {
                assert(a@ =~= Seq::<char>::empty());
            }
            return "SELECT * FROM VUELOS_ORIGEN".to_string();
        }
        let mut r = chars_de_cadena("SELECT * FROM VUELOS_ORIGEN WHERE ORIGEN = ");
        let mut aa = a;
        r.append(&mut aa);
        let mut medio = chars_de_cadena(" AND FECHA = ");
        r.append(&mut medio);
        let mut ff = f;
        r.append(&mut ff);
        proof {
            assert(r@ =~= "SELECT * FROM VUELOS_ORIGEN WHERE ORIGEN = "@ + aeropuerto@
                + " AND FECHA = "@ + fecha@);
        }
        return cadena_de_chars(&r);
    }
    if a.len() == 0 {
        proof {
            assert(a@ =~= Seq::<char>::empty());
        }
        return "SELECT * FROM VUELOS_DESTINO".to_string();
    }
    let mut r = chars_de_cadena("SELECT * FROM VUELOS_DESTINO WHERE DESTINO = ");
    let mut aa = a;
    r.append(&mut aa);
    let mut medio = chars_de_cadena(" AND FECHA = ");
    r.append(&mut medio);
    let mut ff = f;
    r.append(&mut ff);
    proof {
        assert(r@ =~= "SELECT * FROM VUELOS_DESTINO WHERE DESTINO = "@ + aeropuerto@
            + " AND FECHA = "@ + fecha@);
    }
    cadena_de_chars(&r)
}

} // verus!
