//! One node of the cluster: its ring view, peer metadata, keyspaces and
//! the decision rules of the coordinator and gossip round.
//!
//! Network exchanges happen outside this crate; every rule that decides
//! what to send, what to apply and when consistency is met lives here.

use crate::bdd::endpoint_data::{mas_fresco, EndpointData};
use crate::bdd::keyspace::Keyspace;
use crate::bdd::node_status::NodeStatus;
use crate::bdd::procesamiento_data::{hash_de, hash_texto};
use crate::bdd::tabla::Tabla;
use crate::cadena::{cadena_de_chars, chars_de_cadena};
use crate::texto::textos_iguales;
use vstd::prelude::*;

verus! {

/// A node: peer metadata by address, the token ring, the keyspaces it
/// serves, and its logical write clock.
pub struct Nodo {
    pub metadata_nodos: Vec<(String, EndpointData)>,
    pub ip: String,
    pub keyspaces: Vec<Keyspace>,
    pub token: u32,
    pub replicas: Vec<String>,
    pub nodos: Vec<(u32, String)>,
    pub timestamp: u32,
    pub gossip_recientes: Vec<String>,
    pub keyspace_actual: String,
}

/// First index of the address among the metadata records, or -1.
pub open spec fn indice_metadata(md: Seq<(String, EndpointData)>, ip: Seq<char>) -> int
    decreases md.len(),
{
    if md.len() == 0 {
        -1
    } else if md[0].0@ == ip {
        0
    } else {
        let r = indice_metadata(md.drop_first(), ip);
        if r < 0 {
            -1
        } else {
            1 + r
        }
    }
}

pub proof fn lema_indice_metadata(md: Seq<(String, EndpointData)>, ip: Seq<char>)
    ensures
        indice_metadata(md, ip) == -1 ==> forall|i: int| 0 <= i < md.len() ==> md[i].0@ != ip,
        indice_metadata(md, ip) >= 0 ==> {
            &&& indice_metadata(md, ip) < md.len()
            &&& md[indice_metadata(md, ip)].0@ == ip
            &&& forall|i: int| 0 <= i < indice_metadata(md, ip) ==> md[i].0@ != ip
        },
    decreases md.len(),
{
    if md.len() > 0 && md[0].0@ != ip {
        lema_indice_metadata(md.drop_first(), ip);
        let r = indice_metadata(md.drop_first(), ip);
        if r < 0 {
            assert forall|i: int| 0 <= i < md.len() implies md[i].0@ != ip by {
                if i >= 1 {
                    assert(md.drop_first()[i - 1] == md[i]);
                }
            }
        } else {
            assert(md.drop_first()[r] == md[r + 1]);
            assert forall|i: int| 0 <= i < r + 1 implies md[i].0@ != ip by {
                if i >= 1 {
                    assert(md.drop_first()[i - 1] == md[i]);
                }
            }
        }
    }
}

/// The ring is strictly ordered by token, and every ring member has a
/// metadata record whose state is not `Down`: unreachable peers leave
/// the ring but stay in the metadata.
pub open spec fn anillo_bien_formado(n: Nodo) -> bool {
    &&& forall|i: int, j: int| 0 <= i < j < n.nodos@.len() ==> n.nodos@[i].0 < n.nodos@[j].0
    &&& forall|i: int|
        0 <= i < n.nodos@.len() ==> {
            let m = indice_metadata(n.metadata_nodos@, (#[trigger] n.nodos@[i]).1@);
            &&& m >= 0
            &&& n.metadata_nodos@[m].1.application_state.status != NodeStatus::Down
        }
}

/// Metadata records are keyed by pairwise distinct addresses.
pub open spec fn metadata_bien_formada(md: Seq<(String, EndpointData)>) -> bool {
    forall|i: int, j: int| 0 <= i < j < md.len() ==> md[i].0@ != md[j].0@
}

/// Index of the ring entry owning a key's token: the first entry whose
/// token is at least the hash, or entry 0 (wrap-around); -1 on an empty
/// ring.
pub open spec fn indice_propietario(anillo: Seq<(u32, String)>, hash: u32) -> int {
    if anillo.len() == 0 {
        -1
    } else {
        let p = primer_token_mayor(anillo, hash);
        if p >= 0 {
            p
        } else {
            0
        }
    }
}

/// First ring position whose token is at least `hash`, or -1.
pub open spec fn primer_token_mayor(anillo: Seq<(u32, String)>, hash: u32) -> int
    decreases anillo.len(),
{
    if anillo.len() == 0 {
        -1
    } else if hash <= anillo[0].0 {
        0
    } else {
        let r = primer_token_mayor(anillo.drop_first(), hash);
        if r < 0 {
            -1
        } else {
            1 + r
        }
    }
}

pub proof fn lema_primer_token(anillo: Seq<(u32, String)>, hash: u32)
    ensures
        primer_token_mayor(anillo, hash) == -1 ==> forall|i: int|
            0 <= i < anillo.len() ==> (#[trigger] anillo[i]).0 < hash,
        primer_token_mayor(anillo, hash) >= 0 ==> {
            &&& primer_token_mayor(anillo, hash) < anillo.len()
            &&& hash <= anillo[primer_token_mayor(anillo, hash)].0
            &&& forall|i: int|
                0 <= i < primer_token_mayor(anillo, hash) ==> (#[trigger] anillo[i]).0 < hash
        },
    decreases anillo.len(),
{
    if anillo.len() > 0 && !(hash <= anillo[0].0) {
        lema_primer_token(anillo.drop_first(), hash);
        let r = primer_token_mayor(anillo.drop_first(), hash);
        if r < 0 {
            assert forall|i: int| 0 <= i < anillo.len() implies (#[trigger] anillo[i]).0
                < hash by {
                if i >= 1 {
                    assert(anillo.drop_first()[i - 1] == anillo[i]);
                }
            }
        } else {
            assert(anillo.drop_first()[r] == anillo[r + 1]);
            assert forall|i: int| 0 <= i < r + 1 implies (#[trigger] anillo[i]).0 < hash by {
                if i >= 1 {
                    assert(anillo.drop_first()[i - 1] == anillo[i]);
                }
            }
        }
    }
}

/// Ownership is a function of the ring and the hash alone: two equal
/// ring views assign every hash to the same owner.
pub proof fn lema_propietario_determinista(
    a: Seq<(u32, String)>,
    b: Seq<(u32, String)>,
    hash: u32,
)
    requires
        a == b,
    ensures
        indice_propietario(a, hash) == indice_propietario(b, hash),
{
}

/// The addresses of the ring, in token order.
pub open spec fn direcciones(anillo: Seq<(u32, String)>) -> Seq<Seq<char>> {
    anillo.map(|_i: int, p: (u32, String)| p.1@)
}

/// The first pass over the ring: addresses after the node's own are
/// taken in order, the own address only arms the pass, and the list
/// stops at the cap.
pub open spec fn fase_sucesoras(
    ips: Seq<Seq<char>>,
    propia: Seq<char>,
    acc: Seq<Seq<char>>,
    cap: int,
    empezado: bool,
) -> Seq<Seq<char>>
    decreases ips.len(),
{
    if ips.len() == 0 {
        acc
    } else if ips[0] == propia {
        fase_sucesoras(ips.drop_first(), propia, acc, cap, true)
    } else if !empezado {
        fase_sucesoras(ips.drop_first(), propia, acc, cap, false)
    } else if acc.len() >= cap {
        acc
    } else {
        fase_sucesoras(ips.drop_first(), propia, acc.push(ips[0]), cap, true)
    }
}

/// Once the cap is reached, the first pass adds nothing more.
pub proof fn lema_fase_llena(
    ips: Seq<Seq<char>>,
    propia: Seq<char>,
    acc: Seq<Seq<char>>,
    cap: int,
    empezado: bool,
)
    requires
        acc.len() >= cap,
    ensures
        fase_sucesoras(ips, propia, acc, cap, empezado) == acc,
    decreases ips.len(),
{
    if ips.len() > 0 {
        lema_fase_llena(ips.drop_first(), propia, acc, cap, true);
        lema_fase_llena(ips.drop_first(), propia, acc, cap, false);
    }
}

/// First index of the keyspace with the given name, or -1.
pub open spec fn indice_keyspace(ks: Seq<Keyspace>, nombre: Seq<char>) -> int
    decreases ks.len(),
{
    if ks.len() == 0 {
        -1
    } else if ks[0].nombre@ == nombre {
        0
    } else {
        let r = indice_keyspace(ks.drop_first(), nombre);
        if r < 0 {
            -1
        } else {
            1 + r
        }
    }
}

pub proof fn lema_indice_keyspace(ks: Seq<Keyspace>, nombre: Seq<char>)
    ensures
        indice_keyspace(ks, nombre) == -1 ==> forall|i: int|
            0 <= i < ks.len() ==> ks[i].nombre@ != nombre,
        indice_keyspace(ks, nombre) >= 0 ==> {
            &&& indice_keyspace(ks, nombre) < ks.len()
            &&& ks[indice_keyspace(ks, nombre)].nombre@ == nombre
            &&& forall|i: int| 0 <= i < indice_keyspace(ks, nombre) ==> ks[i].nombre@ != nombre
        },
    decreases ks.len(),
{
    if ks.len() > 0 && ks[0].nombre@ != nombre {
        lema_indice_keyspace(ks.drop_first(), nombre);
        let r = indice_keyspace(ks.drop_first(), nombre);
        if r < 0 {
            assert forall|i: int| 0 <= i < ks.len() implies ks[i].nombre@ != nombre by {
                if i >= 1 {
                    assert(ks.drop_first()[i - 1] == ks[i]);
                }
            }
        } else {
            assert(ks.drop_first()[r] == ks[r + 1]);
            assert forall|i: int| 0 <= i < r + 1 implies ks[i].nombre@ != nombre by {
                if i >= 1 {
                    assert(ks.drop_first()[i - 1] == ks[i]);
                }
            }
        }
    }
}

/// First index of the table with the given name, or -1.
pub open spec fn indice_tabla(ts: Seq<Tabla>, nombre: Seq<char>) -> int
    decreases ts.len(),
{
    if ts.len() == 0 {
        -1
    } else if ts[0].nombre@ == nombre {
        0
    } else {
        let r = indice_tabla(ts.drop_first(), nombre);
        if r < 0 {
            -1
        } else {
            1 + r
        }
    }
}

pub proof fn lema_indice_tabla(ts: Seq<Tabla>, nombre: Seq<char>)
    ensures
        indice_tabla(ts, nombre) == -1 ==> forall|i: int|
            0 <= i < ts.len() ==> ts[i].nombre@ != nombre,
        indice_tabla(ts, nombre) >= 0 ==> {
            &&& indice_tabla(ts, nombre) < ts.len()
            &&& ts[indice_tabla(ts, nombre)].nombre@ == nombre
            &&& forall|i: int| 0 <= i < indice_tabla(ts, nombre) ==> ts[i].nombre@ != nombre
        },
    decreases ts.len(),
{
    if ts.len() > 0 && ts[0].nombre@ != nombre {
        lema_indice_tabla(ts.drop_first(), nombre);
        let r = indice_tabla(ts.drop_first(), nombre);
        if r < 0 {
            assert forall|i: int| 0 <= i < ts.len() implies ts[i].nombre@ != nombre by {
                if i >= 1 {
                    assert(ts.drop_first()[i - 1] == ts[i]);
                }
            }
        } else {
            assert(ts.drop_first()[r] == ts[r + 1]);
            assert forall|i: int| 0 <= i < r + 1 implies ts[i].nombre@ != nombre by {
                if i >= 1 {
                    assert(ts.drop_first()[i - 1] == ts[i]);
                }
            }
        }
    }
}

/// Every structural obligation of a node's state at once: the ordered
/// ring over live peers, uniquely keyed metadata and keyspaces, and
/// well-formed tables.
pub open spec fn nodo_bien_formado(n: Nodo) -> bool {
    &&& anillo_bien_formado(n)
    &&& metadata_bien_formada(n.metadata_nodos@)
    &&& forall|i: int, j: int|
        0 <= i < j < n.keyspaces@.len() ==> n.keyspaces@[i].nombre@ != n.keyspaces@[j].nombre@
    &&& forall|k: int|
        0 <= k < n.keyspaces@.len() ==> crate::bdd::keyspace::tablas_bien_formadas(
            (#[trigger] n.keyspaces@[k]).tablas@,
        )
    &&& forall|k: int, t: int|
        0 <= k < n.keyspaces@.len() && 0 <= t < n.keyspaces@[k].tablas@.len()
            ==> crate::bdd::tabla::bien_formada(
            (#[trigger] n.keyspaces@[k].tablas@[t]).datos@,
        )
    &&& forall|k: int|
        0 <= k < n.keyspaces@.len() ==> (#[trigger] n.keyspaces@[k]).nivel_replicacion >= 1
}

/// Everything of a node except its keyspaces and write clock.
pub open spec fn mismo_entorno(a: Nodo, b: Nodo) -> bool {
    &&& a.metadata_nodos == b.metadata_nodos
    &&& a.ip == b.ip
    &&& a.token == b.token
    &&& a.replicas == b.replicas
    &&& a.nodos == b.nodos
    &&& a.gossip_recientes == b.gossip_recientes
    &&& a.keyspace_actual == b.keyspace_actual
}

/// How one table of the current keyspace changes while everything
/// around it stays: the table at `(ki, ti)` satisfies the given
/// relation, every other table and keyspace is untouched.
pub open spec fn cambia_solo_tabla(antes: Nodo, despues: Nodo, ki: int, ti: int) -> bool {
    &&& despues.keyspaces@.len() == antes.keyspaces@.len()
    &&& forall|k: int|
        0 <= k < antes.keyspaces@.len() && k != ki ==> despues.keyspaces@[k]
            == antes.keyspaces@[k]
    &&& despues.keyspaces@[ki].nombre == antes.keyspaces@[ki].nombre
    &&& despues.keyspaces@[ki].nivel_replicacion == antes.keyspaces@[ki].nivel_replicacion
    &&& despues.keyspaces@[ki].strategy == antes.keyspaces@[ki].strategy
    &&& despues.keyspaces@[ki].tablas@.len() == antes.keyspaces@[ki].tablas@.len()
    &&& forall|t: int|
        0 <= t < antes.keyspaces@[ki].tablas@.len() && t != ti
            ==> despues.keyspaces@[ki].tablas@[t] == antes.keyspaces@[ki].tablas@[t]
}

/// The ring without every entry carrying the given address; the order
/// of the rest is kept.
pub open spec fn sin_direccion(anillo: Seq<(u32, String)>, ip: Seq<char>) -> Seq<(u32, String)>
    decreases anillo.len(),
{
    if anillo.len() == 0 {
        Seq::empty()
    } else {
        sin_direccion(anillo.drop_last(), ip) + (if anillo.last().1@ == ip {
            Seq::empty()
        } else {
            seq![anillo.last()]
        })
    }
}

/// First ring position holding exactly this token, or -1.
pub open spec fn posicion_token(anillo: Seq<(u32, String)>, token: u32) -> int
    decreases anillo.len(),
{
    if anillo.len() == 0 {
        -1
    } else if anillo[0].0 == token {
        0
    } else {
        let r = posicion_token(anillo.drop_first(), token);
        if r < 0 {
            -1
        } else {
            1 + r
        }
    }
}

pub proof fn lema_posicion_token(anillo: Seq<(u32, String)>, token: u32)
    ensures
        posicion_token(anillo, token) == -1 ==> forall|i: int|
            0 <= i < anillo.len() ==> (#[trigger] anillo[i]).0 != token,
        posicion_token(anillo, token) >= 0 ==> {
            &&& posicion_token(anillo, token) < anillo.len()
            &&& anillo[posicion_token(anillo, token)].0 == token
            &&& forall|i: int|
                0 <= i < posicion_token(anillo, token) ==> (#[trigger] anillo[i]).0 != token
        },
    decreases anillo.len(),
{
    if anillo.len() > 0 && anillo[0].0 != token {
        lema_posicion_token(anillo.drop_first(), token);
        let r = posicion_token(anillo.drop_first(), token);
        if r < 0 {
            assert forall|i: int| 0 <= i < anillo.len() implies (#[trigger] anillo[i]).0
                != token by {
                if i >= 1 {
                    assert(anillo.drop_first()[i - 1] == anillo[i]);
                }
            }
        } else {
            assert(anillo.drop_first()[r] == anillo[r + 1]);
            assert forall|i: int| 0 <= i < r + 1 implies (#[trigger] anillo[i]).0 != token by {
                if i >= 1 {
                    assert(anillo.drop_first()[i - 1] == anillo[i]);
                }
            }
        }
    }
}

/// First position of `x` in `xs`, or -1.
pub open spec fn primera_posicion(xs: Seq<Seq<char>>, x: Seq<char>) -> int
    decreases xs.len(),
{
    if xs.len() == 0 {
        -1
    } else if xs[0] == x {
        0
    } else {
        let r = primera_posicion(xs.drop_first(), x);
        if r < 0 {
            -1
        } else {
            1 + r
        }
    }
}

pub proof fn lema_primera_posicion(xs: Seq<Seq<char>>, x: Seq<char>)
    ensures
        primera_posicion(xs, x) == -1 ==> forall|i: int| 0 <= i < xs.len() ==> xs[i] != x,
        primera_posicion(xs, x) >= 0 ==> {
            &&& primera_posicion(xs, x) < xs.len()
            &&& xs[primera_posicion(xs, x)] == x
            &&& forall|i: int| 0 <= i < primera_posicion(xs, x) ==> xs[i] != x
        },
    decreases xs.len(),
{
    if xs.len() > 0 && xs[0] != x {
        lema_primera_posicion(xs.drop_first(), x);
        let r = primera_posicion(xs.drop_first(), x);
        if r < 0 {
            assert forall|i: int| 0 <= i < xs.len() implies xs[i] != x by {
                if i >= 1 {
                    assert(xs.drop_first()[i - 1] == xs[i]);
                }
            }
        } else {
            assert(xs.drop_first()[r] == xs[r + 1]);
            assert forall|i: int| 0 <= i < r + 1 implies xs[i] != x by {
                if i >= 1 {
                    assert(xs.drop_first()[i - 1] == xs[i]);
                }
            }
        }
    }
}

/// First position of the text among the strings, executably.
#[verifier::loop_isolation(false)]
pub fn buscar_posicion(xs: &Vec<String>, x: &Vec<char>) -> (r: Option<usize>)
    ensures
        match r {
            Some(i) => primera_posicion(xs.deep_view(), x@) == i,
            None => primera_posicion(xs.deep_view(), x@) == -1,
        },
{
    proof {
        lema_primera_posicion(xs.deep_view(), x@);
    }
    let mut i: usize = 0;
    while i < xs.len()
        invariant
            0 <= i <= xs@.len(),
            forall|k: int| 0 <= k < i ==> xs.deep_view()[k] != x@,
        decreases xs@.len() - i,
    {
        proof {
            assert(xs.deep_view()[i as int] == xs@[i as int]@);
        }
        let actual = chars_de_cadena(xs[i].as_str());
        if textos_iguales(&actual, x) {
            proof {
                let p = primera_posicion(xs.deep_view(), x@);
                if p != i {
                    if p < 0 {
                        assert(xs.deep_view()[i as int] == x@);
                    } else if p < i {
                        assert(xs.deep_view()[p] == x@);
                    } else {
                        assert(xs.deep_view()[i as int] != x@);
                    }
                    assert(false);
                }
            }
            return Some(i);
        }
        i += 1;
    }
    proof {
        let p = primera_posicion(xs.deep_view(), x@);
        if p >= 0 {
            assert(xs.deep_view()[p] == x@);
            assert(false);
        }
    }
    None
}

/// Fill the replica list from the ring start with addresses that are
/// neither the node's own nor already taken, up to the cap.
pub open spec fn completar(
    ips: Seq<Seq<char>>,
    propia: Seq<char>,
    acc: Seq<Seq<char>>,
    cap: int,
) -> Seq<Seq<char>>
    decreases ips.len(),
{
    if ips.len() == 0 || acc.len() >= cap {
        acc
    } else if ips[0] == propia || acc.contains(ips[0]) {
        completar(ips.drop_first(), propia, acc, cap)
    } else {
        completar(ips.drop_first(), propia, acc.push(ips[0]), cap)
    }
}

/// The replica list of a node: its ring successors first, wrapped around
/// the start, its own address and duplicates skipped, capped at one
/// less than the replication factor.
pub open spec fn espec_replicas(
    anillo: Seq<(u32, String)>,
    propia: Seq<char>,
    replication: int,
) -> Seq<Seq<char>> {
    let dirs = direcciones(anillo);
    completar(
        dirs,
        propia,
        fase_sucesoras(dirs, propia, Seq::empty(), replication - 1, false),
        replication - 1,
    )
}

/// The ring successors of an address, wrap-around, capped by the
/// replication factor.
#[verifier::loop_isolation(false)]
pub fn get_replicas(ips: &Vec<(u32, String)>, ip_actual: &str, replication: usize) -> (r: Vec<
    String,
>)
    requires
        replication >= 1,
    ensures
        r.deep_view() == espec_replicas(ips@, ip_actual@, replication as int),
{
    let cap: usize = replication - 1;
    let propia = chars_de_cadena(ip_actual);
    let ghost dirs = direcciones(ips@);
    proof {
        assert(dirs.len() == ips@.len());
        assert(dirs.subrange(0, dirs.len() as int) =~~= dirs);
    }
    let mut replicas: Vec<String> = Vec::new();
    let mut comienzo = false;
    let mut i: usize = 0;
    proof {
        assert(replicas.deep_view() =~~= Seq::<Seq<char>>::empty());
    }
    while i < ips.len()
        invariant
            0 <= i <= ips@.len(),
            cap == replication - 1,
            propia@ == ip_actual@,
            dirs == direcciones(ips@),
            fase_sucesoras(
                dirs.subrange(i as int, dirs.len() as int),
                ip_actual@,
                replicas.deep_view(),
                cap as int,
                comienzo,
            ) == fase_sucesoras(dirs, ip_actual@, Seq::empty(), cap as int, false),
        decreases ips@.len() - i,
    {
        proof {
            assert(dirs[i as int] == ips@[i as int].1@);
            assert(dirs.subrange(i as int, dirs.len() as int).drop_first() =~~= dirs.subrange(
                i + 1,
                dirs.len() as int,
            ));
            assert(dirs.subrange(i as int, dirs.len() as int)[0] == dirs[i as int]);
        }
        let nodo_ip = chars_de_cadena(ips[i].1.as_str());
        proof {
            assert(replicas.deep_view().len() == replicas@.len());
        }
        if textos_iguales(&nodo_ip, &propia) {
            comienzo = true;
        } else if comienzo {
            if replicas.len() >= cap {
                proof {
                    assert(replicas.deep_view().len() >= cap);
                    lema_fase_llena(
                        dirs.subrange(i as int, dirs.len() as int),
                        ip_actual@,
                        replicas.deep_view(),
                        cap as int,
                        true,
                    );
                    lema_fase_llena(
                        dirs.subrange(i + 1, dirs.len() as int),
                        ip_actual@,
                        replicas.deep_view(),
                        cap as int,
                        true,
                    );
                }
            } else {
                let ghost antes = replicas.deep_view();
                replicas.push(ips[i].1.clone());
                proof {
                    assert(replicas.deep_view() =~~= antes.push(dirs[i as int]));
                }
            }
        }
        i += 1;
    }
    proof {
        assert(dirs.subrange(dirs.len() as int, dirs.len() as int).len() == 0);
        assert(replicas.deep_view() == fase_sucesoras(
            dirs,
            ip_actual@,
            Seq::empty(),
            cap as int,
            false,
        ));
    }

    let ghost fase1 = replicas.deep_view();
    let mut j: usize = 0;
    while j < ips.len()
        invariant
            0 <= j <= ips@.len(),
            cap == replication - 1,
            propia@ == ip_actual@,
            dirs == direcciones(ips@),
            completar(dirs.subrange(j as int, dirs.len() as int), ip_actual@, replicas.deep_view(), cap as int)
                == completar(dirs, ip_actual@, fase1, cap as int),
        decreases ips@.len() - j,
    {
        proof {
            assert(dirs[j as int] == ips@[j as int].1@);
            assert(dirs.subrange(j as int, dirs.len() as int).drop_first() =~~= dirs.subrange(
                j + 1,
                dirs.len() as int,
            ));
            assert(dirs.subrange(j as int, dirs.len() as int)[0] == dirs[j as int]);
        }
        let nodo_ip = chars_de_cadena(ips[j].1.as_str());
        let mut esta = false;
        let mut g: usize = 0;
        while g < replicas.len()
            invariant
                0 <= g <= replicas@.len(),
                j < ips@.len(),
                nodo_ip@ == dirs[j as int],
                esta <==> exists|h: int|
                    0 <= h < g && replicas.deep_view()[h] == dirs[j as int],
            decreases replicas@.len() - g,
        {
            proof {
                assert(replicas.deep_view()[g as int] == replicas@[g as int]@);
            }
            let rep_chars = chars_de_cadena(replicas[g].as_str());
            if textos_iguales(&rep_chars, &nodo_ip) {
                esta = true;
            }
            g += 1;
        }
        proof {
            assert(esta == replicas.deep_view().contains(dirs[j as int]));
        }
        if textos_iguales(&nodo_ip, &propia) || esta {
        } else if replicas.len() >= cap {
        } else {
            let ghost antes = replicas.deep_view();
            replicas.push(ips[j].1.clone());
            proof {
                assert(replicas.deep_view() =~~= antes.push(dirs[j as int]));
            }
        }
        j += 1;
    }
    proof {
        assert(dirs.subrange(dirs.len() as int, dirs.len() as int).len() == 0);
        assert(completar(
            dirs.subrange(dirs.len() as int, dirs.len() as int),
            ip_actual@,
            replicas.deep_view(),
            cap as int,
        ) == replicas.deep_view());
        assert(dirs.subrange(0, dirs.len() as int) =~~= dirs);
    }
    replicas
}

impl Nodo {
    /// A fresh node: alone on the ring, serving, write clock at zero.
    pub fn new(ip: &String, generacion: u64) -> (r: Result<Self, String>)
        ensures
            r matches Ok(n) ==> {
                &&& nodo_bien_formado(n)
                &&& n.ip@ == ip@
                &&& n.token == hash_de(ip@)
                &&& n.timestamp == 0
                &&& n.nodos@.len() == 1
                &&& n.nodos@[0].0 == hash_de(ip@)
                &&& n.nodos@[0].1@ == ip@
                &&& n.keyspaces@.len() == 0
                &&& n.keyspace_actual@ == "Aerolineas"@
            },
            r is Ok,
    {
        let metadata_nodos = crate::bdd::procesamiento_data::new_metadata(ip, generacion);
        let token = hash_texto(ip.as_str());
        let mut nodos: Vec<(u32, String)> = Vec::new();
        nodos.push((token, ip.clone()));
        let nodo = Nodo {
            metadata_nodos,
            ip: ip.clone(),
            keyspaces: Vec::new(),
            token,
            replicas: Vec::new(),
            nodos,
            timestamp: 0,
            gossip_recientes: Vec::new(),
            keyspace_actual: "Aerolineas".to_string(),
        };
        proof {
            assert(nodo.nodos@[0].1@ == ip@);
            assert(indice_metadata(nodo.metadata_nodos@, ip@) == 0);
        }
        Ok(nodo)
    }

    /// The address of the node owning a key's token: the first ring
    /// entry whose token is at least the hash, wrapping to the lowest.
    #[verifier::loop_isolation(false)]
    pub fn get_nodo_responsable(&self, key_hash: u32) -> (r: Option<String>)
        ensures
            match r {
                Some(ip) => {
                    &&& indice_propietario(self.nodos@, key_hash) >= 0
                    &&& ip@ == self.nodos@[indice_propietario(self.nodos@, key_hash)].1@
                },
                None => self.nodos@.len() == 0,
            },
    {
        proof {
            lema_primer_token(self.nodos@, key_hash);
        }
        let mut i: usize = 0;
        while i < self.nodos.len()
            invariant
                0 <= i <= self.nodos@.len(),
                forall|k: int| 0 <= k < i ==> (#[trigger] self.nodos@[k]).0 < key_hash,
            decreases self.nodos@.len() - i,
        {
            if key_hash <= self.nodos[i].0 {
                proof {
                    let p = primer_token_mayor(self.nodos@, key_hash);
                    if p < 0 || p != i {
                        if p < 0 {
                            assert(self.nodos@[i as int].0 < key_hash);
                        } else if p < i {
                            assert(self.nodos@[p].0 < key_hash);
                            assert(key_hash <= self.nodos@[p].0);
                        } else {
                            assert(self.nodos@[i as int].0 < key_hash);
                        }
                        assert(false);
                    }
                }
                return Some(self.nodos[i].1.clone());
            }
            i += 1;
        }
        if self.nodos.len() > 0 {
            proof {
                let p = primer_token_mayor(self.nodos@, key_hash);
                if p >= 0 {
                    assert(self.nodos@[p].0 < key_hash);
                }
            }
            return Some(self.nodos[0].1.clone());
        }
        None
    }

    /// First index of the active keyspace, if present.
    #[verifier::loop_isolation(false)]
    pub fn buscar_keyspace_actual(&self) -> (r: Option<usize>)
        ensures
            match r {
                Some(i) => indice_keyspace(self.keyspaces@, self.keyspace_actual@) == i,
                None => indice_keyspace(self.keyspaces@, self.keyspace_actual@) == -1,
            },
    {
        proof {
            lema_indice_keyspace(self.keyspaces@, self.keyspace_actual@);
        }
        let objetivo = chars_de_cadena(self.keyspace_actual.as_str());
        let mut i: usize = 0;
        while i < self.keyspaces.len()
            invariant
                0 <= i <= self.keyspaces@.len(),
                objetivo@ == self.keyspace_actual@,
                forall|k: int| 0 <= k < i ==> (#[trigger] self.keyspaces@[k]).nombre@
                    != self.keyspace_actual@,
            decreases self.keyspaces@.len() - i,
        {
            let nombre = chars_de_cadena(self.keyspaces[i].nombre.as_str());
            if textos_iguales(&nombre, &objetivo) {
                proof {
                    let p = indice_keyspace(self.keyspaces@, self.keyspace_actual@);
                    if p != i {
                        if p < 0 {
                        } else if p < i {
                            assert(self.keyspaces@[p].nombre@ == self.keyspace_actual@);
                        } else {
                            assert(self.keyspaces@[i as int].nombre@ != self.keyspace_actual@);
                        }
                        assert(false);
                    }
                }
                return Some(i);
            }
            i += 1;
        }
        proof {
            let p = indice_keyspace(self.keyspaces@, self.keyspace_actual@);
            if p >= 0 {
                assert(self.keyspaces@[p].nombre@ == self.keyspace_actual@);
                assert(false);
            }
        }
        None
    }

    /// Index of the active keyspace, or the lookup error.
    pub fn get_key(&self) -> (r: Result<usize, String>)
        ensures
            match r {
                Ok(i) => indice_keyspace(self.keyspaces@, self.keyspace_actual@) == i,
                Err(_) => indice_keyspace(self.keyspaces@, self.keyspace_actual@) == -1,
            },
    {
        match self.buscar_keyspace_actual() {
            Some(i) => Ok(i),
            None => Err("Keyspace no encontrado.".to_string()),
        }
    }

    /// Indices of the active keyspace and the named table within it;
    /// `Ok(None)` when the keyspace exists but the table does not.
    #[verifier::loop_isolation(false)]
    pub fn get_tabla(&self, tabla_buscada: &str) -> (r: Result<Option<(usize, usize)>, String>)
        ensures
            match r {
                Ok(Some((ki, ti))) => {
                    &&& indice_keyspace(self.keyspaces@, self.keyspace_actual@) == ki
                    &&& indice_tabla(self.keyspaces@[ki as int].tablas@, tabla_buscada@) == ti
                },
                Ok(None) => {
                    let ki = indice_keyspace(self.keyspaces@, self.keyspace_actual@);
                    ki >= 0 && indice_tabla(self.keyspaces@[ki].tablas@, tabla_buscada@) == -1
                },
                Err(_) => indice_keyspace(self.keyspaces@, self.keyspace_actual@) == -1,
            },
    {
        let ki = match self.get_key() {
            Ok(i) => i,
            Err(e) => {
                return Err(e);
            },
        };
        proof {
            lema_indice_keyspace(self.keyspaces@, self.keyspace_actual@);
            lema_indice_tabla(self.keyspaces@[ki as int].tablas@, tabla_buscada@);
        }
        let objetivo = chars_de_cadena(tabla_buscada);
        let tablas = &self.keyspaces[ki].tablas;
        let mut t: usize = 0;
        while t < tablas.len()
            invariant
                0 <= t <= tablas@.len(),
                objetivo@ == tabla_buscada@,
                ki < self.keyspaces@.len(),
                tablas == self.keyspaces@[ki as int].tablas,
                forall|k: int| 0 <= k < t ==> (#[trigger] tablas@[k]).nombre@ != tabla_buscada@,
            decreases tablas@.len() - t,
        {
            let nombre = chars_de_cadena(tablas[t].nombre.as_str());
            if textos_iguales(&nombre, &objetivo) {
                proof {
                    let p = indice_tabla(self.keyspaces@[ki as int].tablas@, tabla_buscada@);
                    if p != t {
                        if p < 0 {
                        } else if p < t {
                            assert(tablas@[p].nombre@ == tabla_buscada@);
                        } else {
                            assert(tablas@[t as int].nombre@ != tabla_buscada@);
                        }
                        assert(false);
                    }
                }
                return Ok(Some((ki, t)));
            }
            t += 1;
        }
        proof {
            let p = indice_tabla(self.keyspaces@[ki as int].tablas@, tabla_buscada@);
            if p >= 0 {
                assert(tablas@[p].nombre@ == tabla_buscada@);
                assert(false);
            }
        }
        Ok(None)
    }

    /// Insert a row into the named table of the active keyspace; a
    /// missing keyspace or table changes nothing.
    pub fn insertar_a_tabla(&mut self, nombre_tabla: String, row: String)
        requires
            nodo_bien_formado(*old(self)),
        ensures
            nodo_bien_formado(*final(self)),
            mismo_entorno(*final(self), *old(self)),
            final(self).timestamp == old(self).timestamp,
            ({
                let ki = indice_keyspace(old(self).keyspaces@, old(self).keyspace_actual@);
                if ki < 0 {
                    final(self).keyspaces@ == old(self).keyspaces@
                } else {
                    let ti = indice_tabla(old(self).keyspaces@[ki].tablas@, nombre_tabla@);
                    if ti < 0 {
                        final(self).keyspaces@ == old(self).keyspaces@
                    } else {
                        &&& cambia_solo_tabla(*old(self), *final(self), ki, ti)
                        &&& crate::bdd::tabla::insercion_aplica(
                            old(self).keyspaces@[ki].tablas@[ti],
                            final(self).keyspaces@[ki].tablas@[ti],
                            row@,
                        )
                    }
                }
            }),
    {
        let encontrado = self.get_tabla(nombre_tabla.as_str());
        match encontrado {
            Ok(Some((ki, ti))) => {
                proof {
                    lema_indice_keyspace(self.keyspaces@, self.keyspace_actual@);
                    lema_indice_tabla(self.keyspaces@[ki as int].tablas@, nombre_tabla@);
                    assert(crate::bdd::tabla::bien_formada(
                        self.keyspaces@[ki as int].tablas@[ti as int].datos@,
                    ));
                }
                let ghost antes = self.keyspaces@;
                let mut ks = self.keyspaces.remove(ki);
                let mut tb = ks.tablas.remove(ti);
                let ghost tabla_antes = tb;
                proof {
                    assert(tabla_antes == antes[ki as int].tablas@[ti as int]);
                }
                tb.insertar(row);
                ks.tablas.insert(ti, tb);
                self.keyspaces.insert(ki, ks);
                proof {
                    lema_restaura(antes, self.keyspaces@, ki as int, ti as int);
                    assert(nodo_bien_formado(*self)) by {
                        asegura_bien_formado(*old(self), *self, ki as int, ti as int);
                    }
                }
            },
            _ => {
            },
        }
    }

    /// Remove, from the named table, the first row the restriction
    /// singles out; a missing keyspace or table changes nothing.
    pub fn eliminar_en_tabla(
        &mut self,
        nombre_tabla: String,
        condicion: &crate::parser_cql::condicion_where::CondicionWhere,
    )
        requires
            nodo_bien_formado(*old(self)),
        ensures
            nodo_bien_formado(*final(self)),
            mismo_entorno(*final(self), *old(self)),
            final(self).timestamp == old(self).timestamp,
            ({
                let ki = indice_keyspace(old(self).keyspaces@, old(self).keyspace_actual@);
                if ki < 0 {
                    final(self).keyspaces@ == old(self).keyspaces@
                } else {
                    let ti = indice_tabla(old(self).keyspaces@[ki].tablas@, nombre_tabla@);
                    if ti < 0 {
                        final(self).keyspaces@ == old(self).keyspaces@
                    } else {
                        &&& cambia_solo_tabla(*old(self), *final(self), ki, ti)
                        &&& final(self).keyspaces@[ki].tablas@[ti].nombre == old(self).keyspaces@[ki].tablas@[ti].nombre
                        &&& final(self).keyspaces@[ki].tablas@[ti].headers == old(self).keyspaces@[ki].tablas@[ti].headers
                        &&& crate::bdd::tabla::eliminacion_aplica(
                            old(self).keyspaces@[ki].tablas@[ti].datos@,
                            final(self).keyspaces@[ki].tablas@[ti].datos@,
                            condicion.condicion1@,
                            condicion.condicion2@,
                        )
                    }
                }
            }),
    {
        let encontrado = self.get_tabla(nombre_tabla.as_str());
        match encontrado {
            Ok(Some((ki, ti))) => {
                proof {
                    lema_indice_keyspace(self.keyspaces@, self.keyspace_actual@);
                    lema_indice_tabla(self.keyspaces@[ki as int].tablas@, nombre_tabla@);
                    assert(crate::bdd::tabla::bien_formada(
                        self.keyspaces@[ki as int].tablas@[ti as int].datos@,
                    ));
                }
                let ghost antes = self.keyspaces@;
                let mut ks = self.keyspaces.remove(ki);
                let mut tb = ks.tablas.remove(ti);
                proof {
                    assert(tb == antes[ki as int].tablas@[ti as int]);
                }
                tb.eliminar(condicion);
                ks.tablas.insert(ti, tb);
                self.keyspaces.insert(ki, ks);
                proof {
                    lema_restaura(antes, self.keyspaces@, ki as int, ti as int);
                    assert(nodo_bien_formado(*self)) by {
                        asegura_bien_formado(*old(self), *self, ki as int, ti as int);
                    }
                }
            },
            _ => {
            },
        }
    }

    /// Apply an assignment list to the rows the restriction singles out
    /// in the named table; a missing keyspace or table changes nothing.
    pub fn update_en_tabla(
        &mut self,
        nombre_tabla: String,
        condicion: &crate::parser_cql::condicion_where::CondicionWhere,
        query: &str,
    )
        requires
            nodo_bien_formado(*old(self)),
        ensures
            nodo_bien_formado(*final(self)),
            mismo_entorno(*final(self), *old(self)),
            final(self).timestamp == old(self).timestamp,
            ({
                let ki = indice_keyspace(old(self).keyspaces@, old(self).keyspace_actual@);
                if ki < 0 {
                    final(self).keyspaces@ == old(self).keyspaces@
                } else {
                    let ti = indice_tabla(old(self).keyspaces@[ki].tablas@, nombre_tabla@);
                    if ti < 0 {
                        final(self).keyspaces@ == old(self).keyspaces@
                    } else {
                        &&& cambia_solo_tabla(*old(self), *final(self), ki, ti)
                        &&& final(self).keyspaces@[ki].tablas@[ti].nombre == old(self).keyspaces@[ki].tablas@[ti].nombre
                        &&& final(self).keyspaces@[ki].tablas@[ti].headers == old(self).keyspaces@[ki].tablas@[ti].headers
                        &&& crate::bdd::tabla::actualizacion_aplica(
                            old(self).keyspaces@[ki].tablas@[ti].datos@,
                            final(self).keyspaces@[ki].tablas@[ti].datos@,
                            condicion.condicion1@,
                            condicion.condicion2@,
                            query@,
                            old(self).keyspaces@[ki].tablas@[ti].headers.deep_view(),
                        )
                    }
                }
            }),
    {
        let encontrado = self.get_tabla(nombre_tabla.as_str());
        match encontrado {
            Ok(Some((ki, ti))) => {
                proof {
                    lema_indice_keyspace(self.keyspaces@, self.keyspace_actual@);
                    lema_indice_tabla(self.keyspaces@[ki as int].tablas@, nombre_tabla@);
                    assert(crate::bdd::tabla::bien_formada(
                        self.keyspaces@[ki as int].tablas@[ti as int].datos@,
                    ));
                }
                let ghost antes = self.keyspaces@;
                let mut ks = self.keyspaces.remove(ki);
                let mut tb = ks.tablas.remove(ti);
                proof {
                    assert(tb == antes[ki as int].tablas@[ti as int]);
                }
                tb.actualizar(condicion, query.to_string());
                ks.tablas.insert(ti, tb);
                self.keyspaces.insert(ki, ks);
                proof {
                    lema_restaura(antes, self.keyspaces@, ki as int, ti as int);
                    assert(nodo_bien_formado(*self)) by {
                        asegura_bien_formado(*old(self), *self, ki as int, ti as int);
                    }
                }
            },
            _ => {
            },
        }
    }

    /// The gossip round's peer pick, given the drawn number: the ring
    /// address the draw lands on, unless it is this node's own.
    pub fn elegir_objetivo(&self, sorteo: usize) -> (r: Option<String>)
        ensures
            self.nodos@.len() == 0 ==> r is None,
            self.nodos@.len() > 0 ==> ({
                let elegido = self.nodos@[(sorteo as int) % (self.nodos@.len() as int)].1@;
                match r {
                    Some(ip) => ip@ == elegido && elegido != self.ip@,
                    None => elegido == self.ip@,
                }
            }),
    {
        if self.nodos.len() == 0 {
            return None;
        }
        let indice = sorteo % self.nodos.len();
        let candidata = chars_de_cadena(self.nodos[indice].1.as_str());
        let propia = chars_de_cadena(self.ip.as_str());
        if textos_iguales(&candidata, &propia) {
            None
        } else {
            Some(cadena_de_chars(&candidata))
        }
    }

    /// The redistribution a joining peer triggers on this node, as the
    /// ordered list of addressed statements the plan demands: for every
    /// local row whose key token is at most the joiner's, an INSERT to
    /// the joiner and a DELETE to this node's last replica; static
    /// tables are skipped.
    #[verifier::loop_isolation(false)]
    pub fn planear_redistribucion(&self, token_nuevo: u32, ip_nuevo: &str) -> (r: Vec<EnvioPlan>)
        ensures
            corresponde(r@, espec_plan_redistribucion(*self, token_nuevo, ip_nuevo@)),
    {
        let ghost plan = espec_plan_redistribucion(*self, token_nuevo, ip_nuevo@);
        let mut r: Vec<EnvioPlan> = Vec::new();
        let ki = match self.buscar_keyspace_actual() {
            Some(i) => i,
            None => {
                return r;
            },
        };
        proof {
            lema_indice_keyspace(self.keyspaces@, self.keyspace_actual@);
        }
        let destino: Option<String> = if self.replicas.len() > 0 {
            Some(self.replicas[self.replicas.len() - 1].clone())
        } else {
            None
        };
        let ghost destino_v: Option<Seq<char>> = if self.replicas@.len() > 0 {
            Some(self.replicas@.last()@)
        } else {
            None
        };
        proof {
            assert(match (destino, destino_v) {
                (Some(d), Some(dv)) => d@ == dv,
                (None, None) => true,
                _ => false,
            });
        }
        let marca: Vec<char> = vec![
            'A', 'E', 'R', 'O', 'P', 'U', 'E', 'R', 'T', 'O', 'S',
        ];
        proof {
            reveal_strlit("AEROPUERTOS");
            assert(marca@ =~= "AEROPUERTOS"@);
        }
        let tablas = &self.keyspaces[ki].tablas;
        let mut t: usize = 0;
        while t < tablas.len()
            invariant
                0 <= t <= tablas@.len(),
                ki < self.keyspaces@.len(),
                tablas == self.keyspaces@[ki as int].tablas,
                marca@ == "AEROPUERTOS"@,
                (match (destino, destino_v) {
                    (Some(d), Some(dv)) => d@ == dv,
                    (None, None) => true,
                    _ => false,
                }),
                corresponde(
                    r@,
                    plan_de_tablas(
                        tablas@.subrange(0, t as int),
                        token_nuevo,
                        ip_nuevo@,
                        destino_v,
                    ),
                ),
            decreases tablas@.len() - t,
        {
            let ghost base_t = plan_de_tablas(
                tablas@.subrange(0, t as int),
                token_nuevo,
                ip_nuevo@,
                destino_v,
            );
            proof {
                assert(tablas@.subrange(0, t + 1 as int).drop_last() =~= tablas@.subrange(
                    0,
                    t as int,
                ));
                assert(tablas@.subrange(0, t + 1 as int).last() == tablas@[t as int]);
            }
            let tabla = &tablas[t];
            let nombre_chars = chars_de_cadena(tabla.nombre.as_str());
            if !crate::bdd::procesamiento_data::contiene_texto(&nombre_chars, &marca) {
                let mut pt: usize = 0;
                while pt < tabla.datos.len()
                    invariant
                        0 <= pt <= tabla.datos@.len(),
                        t < tablas@.len(),
                        ki < self.keyspaces@.len(),
                        tablas == self.keyspaces@[ki as int].tablas,
                        tabla == tablas@[t as int],
                        (match (destino, destino_v) {
                            (Some(d), Some(dv)) => d@ == dv,
                            (None, None) => true,
                            _ => false,
                        }),
                        corresponde(
                            r@,
                            base_t + plan_de_particiones(
                                tabla.nombre@,
                                tabla.headers.deep_view(),
                                tabla.datos@.subrange(0, pt as int),
                                token_nuevo,
                                ip_nuevo@,
                                destino_v,
                            ),
                        ),
                    decreases tabla.datos@.len() - pt,
                {
                    let ghost base_p = base_t + plan_de_particiones(
                        tabla.nombre@,
                        tabla.headers.deep_view(),
                        tabla.datos@.subrange(0, pt as int),
                        token_nuevo,
                        ip_nuevo@,
                        destino_v,
                    );
                    proof {
                        assert(tabla.datos@.subrange(0, pt + 1 as int).drop_last()
                            =~= tabla.datos@.subrange(0, pt as int));
                        assert(tabla.datos@.subrange(0, pt + 1 as int).last()
                            == tabla.datos@[pt as int]);
                    }
                    let parte = &tabla.datos[pt];
                    let hash_clave = crate::bdd::procesamiento_data::hash_texto(
                        parte.clave.as_str(),
                    );
                    if hash_clave <= token_nuevo {
                        let mut f: usize = 0;
                        while f < parte.filas.len()
                            invariant
                                0 <= f <= parte.filas@.len(),
                                t < tablas@.len(),
                                pt < tabla.datos@.len(),
                                ki < self.keyspaces@.len(),
                                tablas == self.keyspaces@[ki as int].tablas,
                                tabla == tablas@[t as int],
                                parte == tabla.datos@[pt as int],
                                (match (destino, destino_v) {
                                    (Some(d), Some(dv)) => d@ == dv,
                                    (None, None) => true,
                                    _ => false,
                                }),
                                corresponde(
                                    r@,
                                    base_p + plan_de_filas(
                                        tabla.nombre@,
                                        tabla.headers.deep_view(),
                                        parte.filas.deep_view().subrange(0, f as int),
                                        ip_nuevo@,
                                        destino_v,
                                    ),
                                ),
                            decreases parte.filas@.len() - f,
                        {
                            let ghost base_f = base_p + plan_de_filas(
                                tabla.nombre@,
                                tabla.headers.deep_view(),
                                parte.filas.deep_view().subrange(0, f as int),
                                ip_nuevo@,
                                destino_v,
                            );
                            proof {
                                assert(parte.filas.deep_view().subrange(0, f + 1 as int)
                                    .drop_last() =~~= parte.filas.deep_view().subrange(
                                    0,
                                    f as int,
                                ));
                                assert(parte.filas.deep_view().subrange(0, f + 1 as int).last()
                                    == parte.filas.deep_view()[f as int]);
                                assert(parte.filas.deep_view()[f as int]
                                    == parte.filas@[f as int]@);
                            }
                            let insercion = consulta_insert_redistribucion(
                                tabla.nombre.as_str(),
                                &tabla.headers,
                                parte.filas[f].as_str(),
                            );
                            let ghost r_antes = r@;
                            r.push(
                                EnvioPlan {
                                    destino: ip_nuevo.to_string(),
                                    consulta: insercion,
                                },
                            );
                            proof {
                                lema_corresponde_empuja(
                                    r_antes,
                                    r@.last(),
                                    base_f,
                                    (
                                        ip_nuevo@,
                                        espec_insert_redistribucion(
                                            tabla.nombre@,
                                            tabla.headers.deep_view(),
                                            parte.filas.deep_view()[f as int],
                                        ),
                                    ),
                                );
                            }
                            match &destino {
                                Some(direccion) => {
                                    match consulta_delete_redistribucion(
                                        tabla.nombre.as_str(),
                                        &tabla.headers,
                                        parte.filas[f].as_str(),
                                    ) {
                                        Some(borrado) => {
                                            let ghost r_antes2 = r@;
                                            r.push(
                                                EnvioPlan {
                                                    destino: direccion.clone(),
                                                    consulta: borrado,
                                                },
                                            );
                                            proof {
                                                lema_corresponde_empuja(
                                                    r_antes2,
                                                    r@.last(),
                                                    base_f.push(
                                                        (
                                                            ip_nuevo@,
                                                            espec_insert_redistribucion(
                                                                tabla.nombre@,
                                                                tabla.headers.deep_view(),
                                                                parte.filas.deep_view()[f as int],
                                                            ),
                                                        ),
                                                    ),
                                                    (
                                                        destino_v->Some_0,
                                                        espec_delete_redistribucion(
                                                            tabla.nombre@,
                                                            tabla.headers.deep_view(),
                                                            parte.filas.deep_view()[f as int],
                                                        ),
                                                    ),
                                                );
                                            }
                                        },
                                        None => {
                                        },
                                    }
                                },
                                None => {
                                },
                            }
                            proof {
                                assert(base_p + plan_de_filas(
                                    tabla.nombre@,
                                    tabla.headers.deep_view(),
                                    parte.filas.deep_view().subrange(0, f + 1 as int),
                                    ip_nuevo@,
                                    destino_v,
                                ) =~~= base_f + plan_de_fila(
                                    tabla.nombre@,
                                    tabla.headers.deep_view(),
                                    parte.filas.deep_view()[f as int],
                                    ip_nuevo@,
                                    destino_v,
                                ));
                            }
                            f += 1;
                        }
                        proof {
                            assert(parte.filas.deep_view().subrange(
                                0,
                                parte.filas.deep_view().len() as int,
                            ) =~~= parte.filas.deep_view());
                            assert(base_t + plan_de_particiones(
                                tabla.nombre@,
                                tabla.headers.deep_view(),
                                tabla.datos@.subrange(0, pt + 1 as int),
                                token_nuevo,
                                ip_nuevo@,
                                destino_v,
                            ) =~~= base_p + plan_de_filas(
                                tabla.nombre@,
                                tabla.headers.deep_view(),
                                parte.filas.deep_view(),
                                ip_nuevo@,
                                destino_v,
                            ));
                        }
                    } else {
                        proof {
                            assert(base_t + plan_de_particiones(
                                tabla.nombre@,
                                tabla.headers.deep_view(),
                                tabla.datos@.subrange(0, pt + 1 as int),
                                token_nuevo,
                                ip_nuevo@,
                                destino_v,
                            ) =~~= base_p);
                        }
                    }
                    pt += 1;
                }
                proof {
                    assert(tabla.datos@.subrange(0, tabla.datos@.len() as int)
                        =~= tabla.datos@);
                    assert(plan_de_tablas(
                        tablas@.subrange(0, t + 1 as int),
                        token_nuevo,
                        ip_nuevo@,
                        destino_v,
                    ) =~~= base_t + plan_de_particiones(
                        tabla.nombre@,
                        tabla.headers.deep_view(),
                        tabla.datos@,
                        token_nuevo,
                        ip_nuevo@,
                        destino_v,
                    ));
                }
            } else {
                proof {
                    assert(plan_de_tablas(
                        tablas@.subrange(0, t + 1 as int),
                        token_nuevo,
                        ip_nuevo@,
                        destino_v,
                    ) =~~= base_t);
                }
            }
            t += 1;
        }
        proof {
            assert(tablas@.subrange(0, tablas@.len() as int) =~= tablas@);
        }
        r
    }

    /// Record one successful local mutation: the write clock moves
    /// forward by one and never back.
    pub fn avanzar_timestamp(&mut self)
        requires
            old(self).timestamp < u32::MAX,
        ensures
            final(self).timestamp == old(self).timestamp + 1,
            final(self).timestamp >= old(self).timestamp,
            final(self).metadata_nodos == old(self).metadata_nodos,
            final(self).ip == old(self).ip,
            final(self).keyspaces == old(self).keyspaces,
            final(self).token == old(self).token,
            final(self).nodos == old(self).nodos,
            final(self).replicas == old(self).replicas,
            final(self).gossip_recientes == old(self).gossip_recientes,
            final(self).keyspace_actual == old(self).keyspace_actual,
    {
        self.timestamp = self.timestamp + 1;
    }

    /// Recompute the replica list from the ring and the active
    /// keyspace's replication factor, 3 when that keyspace is absent.
    pub fn actualizar_replicas(&mut self)
        requires
            nodo_bien_formado(*old(self)),
        ensures
            nodo_bien_formado(*final(self)),
            final(self).metadata_nodos == old(self).metadata_nodos,
            final(self).ip == old(self).ip,
            final(self).keyspaces == old(self).keyspaces,
            final(self).token == old(self).token,
            final(self).nodos == old(self).nodos,
            final(self).timestamp == old(self).timestamp,
            final(self).gossip_recientes == old(self).gossip_recientes,
            final(self).keyspace_actual == old(self).keyspace_actual,
            final(self).replicas.deep_view() == espec_replicas(
                old(self).nodos@,
                old(self).ip@,
                nivel_replicacion_actual(*old(self)),
            ),
    {
        let mut nivel: usize = 3;
        match self.buscar_keyspace_actual() {
            Some(ki) => {
                proof {
                    lema_indice_keyspace(self.keyspaces@, self.keyspace_actual@);
                }
                nivel = self.keyspaces[ki].nivel_replicacion;
            },
            None => {
            },
        }
        proof {
        assert(nivel == nivel_replicacion_actual(*self));
        }
        let nuevas = get_replicas(&self.nodos, self.ip.as_str(), nivel);
        self.replicas = nuevas;
    }

    /// Bump this node's own heartbeat version by one.
    #[verifier::loop_isolation(false)]
    pub fn update_heartbeat(&mut self)
        requires
            nodo_bien_formado(*old(self)),
            ({
                let m = indice_metadata(old(self).metadata_nodos@, old(self).ip@);
                m >= 0 ==> old(self).metadata_nodos@[m].1.heartbeat_state.version < u32::MAX
            }),
        ensures
            nodo_bien_formado(*final(self)),
            final(self).ip == old(self).ip,
            final(self).keyspaces == old(self).keyspaces,
            final(self).token == old(self).token,
            final(self).nodos == old(self).nodos,
            final(self).replicas == old(self).replicas,
            final(self).timestamp == old(self).timestamp,
            final(self).gossip_recientes == old(self).gossip_recientes,
            final(self).keyspace_actual == old(self).keyspace_actual,
            ({
                let m = indice_metadata(old(self).metadata_nodos@, old(self).ip@);
                if m < 0 {
                    final(self).metadata_nodos@ == old(self).metadata_nodos@
                } else {
                    &&& final(self).metadata_nodos@.len() == old(self).metadata_nodos@.len()
                    &&& forall|i: int|
                        0 <= i < old(self).metadata_nodos@.len() && i != m ==> final(self).metadata_nodos@[i] == old(self).metadata_nodos@[i]
                    &&& final(self).metadata_nodos@[m].0 == old(self).metadata_nodos@[m].0
                    &&& final(self).metadata_nodos@[m].1.heartbeat_state.version == old(self).metadata_nodos@[m].1.heartbeat_state.version + 1
                    &&& final(self).metadata_nodos@[m].1.heartbeat_state.generation == old(self).metadata_nodos@[m].1.heartbeat_state.generation
                    &&& final(self).metadata_nodos@[m].1.application_state.status == old(self).metadata_nodos@[m].1.application_state.status
                }
            }),
    {
        proof {
            lema_indice_metadata(self.metadata_nodos@, self.ip@);
        }
        let propia = chars_de_cadena(self.ip.as_str());
        let ghost md0 = self.metadata_nodos@;
        let mut i: usize = 0;
        while i < self.metadata_nodos.len()
            invariant
                *self == *old(self),
                md0 == self.metadata_nodos@,
                propia@ == self.ip@,
                0 <= i <= md0.len(),
                forall|k: int| 0 <= k < i ==> (#[trigger] md0[k]).0@ != self.ip@,
            decreases md0.len() - i,
        {
            let registro_ip = chars_de_cadena(self.metadata_nodos[i].0.as_str());
            if textos_iguales(&registro_ip, &propia) {
                proof {
                    lema_indice_metadata(md0, self.ip@);
                    let m = indice_metadata(md0, self.ip@);
                    if m != i {
                        if m < 0 {
                        } else if m < i {
                            assert(md0[m].0@ == self.ip@);
                        } else {
                            assert(md0[i as int].0@ != self.ip@);
                        }
                        assert(false);
                    }
                }
                proof {
                    assert(self.ip@ == old(self).ip@);
                    assert(md0 == old(self).metadata_nodos@);
                    assert(md0[i as int].1.heartbeat_state.version < u32::MAX);
                }
                let mut par = self.metadata_nodos.remove(i);
                let nueva_version = par.1.heartbeat_state.version + 1;
                par.1 = EndpointData::new(
                    par.1.heartbeat_state.generation,
                    nueva_version,
                    par.1.application_state.status,
                );
                self.metadata_nodos.insert(i, par);
                proof {
                    assert forall|x: int|
                        0 <= x < md0.len() && x != i implies self.metadata_nodos@[x]
                        == md0[x] by {
                        if x < i {
                            assert(md0.remove(i as int)[x] == md0[x]);
                        } else {
                            assert(md0.remove(i as int)[x - 1] == md0[x]);
                        }
                    }
                    assert(self.metadata_nodos@[i as int].0 == md0[i as int].0);
                    assert forall|x: int, y: int|
                        0 <= x < y < self.metadata_nodos@.len() implies self.metadata_nodos@[x].0@
                        != self.metadata_nodos@[y].0@ by {
                        if x != i {
                            assert(self.metadata_nodos@[x] == md0[x]);
                        }
                        if y != i {
                            assert(self.metadata_nodos@[y] == md0[y]);
                        }
                        assert(self.metadata_nodos@[x].0@ == md0[x].0@);
                        assert(self.metadata_nodos@[y].0@ == md0[y].0@);
                        assert(md0[x].0@ != md0[y].0@);
                    }
                    lema_indices_metadata_iguales(md0, self.metadata_nodos@);
                    assert(anillo_bien_formado(*old(self)));
                    assert(anillo_bien_formado(*self)) by {
                        assert forall|k: int| 0 <= k < self.nodos@.len() implies {
                            let m = indice_metadata(
                                self.metadata_nodos@,
                                (#[trigger] self.nodos@[k]).1@,
                            );
                            m >= 0 && self.metadata_nodos@[m].1.application_state.status
                                != NodeStatus::Down
                        } by {
                            assert(self.nodos@ == old(self).nodos@);
                            assert(self.nodos@[k] == old(self).nodos@[k]);
                            let m0 = indice_metadata(md0, old(self).nodos@[k].1@);
                            lema_indice_metadata(md0, old(self).nodos@[k].1@);
                            assert(md0 == old(self).metadata_nodos@);
                            assert(m0 >= 0 && md0[m0].1.application_state.status
                                != NodeStatus::Down);
                            let m1 = indice_metadata(self.metadata_nodos@, self.nodos@[k].1@);
                            assert(m1 == m0);
                            if m0 == i {
                                assert(self.metadata_nodos@[m0].1.application_state.status
                                    == md0[m0].1.application_state.status);
                            } else {
                                assert(self.metadata_nodos@[m0] == md0[m0]);
                            }
                            if m0 == i {
                                assert(self.metadata_nodos@[m0].1.application_state.status
                                    == md0[m0].1.application_state.status);
                            }
                        }
                    }
                }
                return ;
            }
            i += 1;
        }
    }
}

/// The active keyspace's replication factor, 3 when it is absent.
pub open spec fn nivel_replicacion_actual(n: Nodo) -> int {
    let ki = indice_keyspace(n.keyspaces@, n.keyspace_actual@);
    if ki < 0 {
        3
    } else {
        n.keyspaces@[ki].nivel_replicacion as int
    }
}

/// Metadata vectors with the same addresses at the same places index
/// every address alike.
pub proof fn lema_indices_metadata_iguales(
    a: Seq<(String, EndpointData)>,
    b: Seq<(String, EndpointData)>,
)
    requires
        a.len() == b.len(),
        forall|i: int| 0 <= i < a.len() ==> a[i].0@ == b[i].0@,
    ensures
        forall|ip: Seq<char>| indice_metadata(a, ip) == indice_metadata(b, ip),
    decreases a.len(),
{
    if a.len() > 0 {
        lema_indices_metadata_iguales(a.drop_first(), b.drop_first());
        assert forall|ip: Seq<char>| indice_metadata(a, ip) == indice_metadata(b, ip) by {
            assert(indice_metadata(a.drop_first(), ip) == indice_metadata(b.drop_first(), ip));
        }
    }
}

/// Putting a modified table back where it was taken from leaves every
/// other keyspace and table untouched.
pub proof fn lema_restaura(antes: Seq<Keyspace>, despues: Seq<Keyspace>, ki: int, ti: int)
    requires
        0 <= ki < antes.len(),
        despues.len() == antes.len(),
        0 <= ti < antes[ki].tablas@.len(),
        despues[ki].tablas@.len() == antes[ki].tablas@.len(),
        despues == antes.remove(ki).insert(ki, despues[ki]),
        despues[ki].tablas@ == antes[ki].tablas@.remove(ti).insert(ti, despues[ki].tablas@[ti]),
    ensures
        forall|k: int| 0 <= k < antes.len() && k != ki ==> despues[k] == antes[k],
        forall|t: int|
            0 <= t < antes[ki].tablas@.len() && t != ti ==> despues[ki].tablas@[t]
                == antes[ki].tablas@[t],
{
    assert forall|k: int| 0 <= k < antes.len() && k != ki implies despues[k] == antes[k] by {
        if k < ki {
            assert(antes.remove(ki)[k] == antes[k]);
        } else {
            assert(antes.remove(ki)[k - 1] == antes[k]);
        }
    }
    assert forall|t: int|
        0 <= t < antes[ki].tablas@.len() && t != ti implies despues[ki].tablas@[t]
        == antes[ki].tablas@[t] by {
        if t < ti {
            assert(antes[ki].tablas@.remove(ti)[t] == antes[ki].tablas@[t]);
        } else {
            assert(antes[ki].tablas@.remove(ti)[t - 1] == antes[ki].tablas@[t]);
        }
    }
}

/// A single changed table with its name and key shape kept leaves the
/// whole node well formed.
pub proof fn asegura_bien_formado(antes: Nodo, despues: Nodo, ki: int, ti: int)
    requires
        nodo_bien_formado(antes),
        despues.metadata_nodos == antes.metadata_nodos,
        despues.nodos == antes.nodos,
        despues.keyspaces@.len() == antes.keyspaces@.len(),
        0 <= ki < antes.keyspaces@.len(),
        0 <= ti < antes.keyspaces@[ki].tablas@.len(),
        forall|k: int|
            0 <= k < antes.keyspaces@.len() && k != ki ==> despues.keyspaces@[k]
                == antes.keyspaces@[k],
        despues.keyspaces@[ki].nombre == antes.keyspaces@[ki].nombre,
        despues.keyspaces@[ki].nivel_replicacion == antes.keyspaces@[ki].nivel_replicacion,
        despues.keyspaces@[ki].tablas@.len() == antes.keyspaces@[ki].tablas@.len(),
        forall|t: int|
            0 <= t < antes.keyspaces@[ki].tablas@.len() && t != ti
                ==> despues.keyspaces@[ki].tablas@[t] == antes.keyspaces@[ki].tablas@[t],
        despues.keyspaces@[ki].tablas@[ti].nombre == antes.keyspaces@[ki].tablas@[ti].nombre,
        crate::bdd::tabla::bien_formada(despues.keyspaces@[ki].tablas@[ti].datos@),
    ensures
        nodo_bien_formado(despues),
{
    assert forall|i: int, j: int|
        0 <= i < j < despues.keyspaces@.len() implies despues.keyspaces@[i].nombre@
        != despues.keyspaces@[j].nombre@ by {
        assert(despues.keyspaces@[i].nombre@ == antes.keyspaces@[i].nombre@);
        assert(despues.keyspaces@[j].nombre@ == antes.keyspaces@[j].nombre@);
    }
    assert forall|k: int|
        0 <= k < despues.keyspaces@.len() implies crate::bdd::keyspace::tablas_bien_formadas(
        (#[trigger] despues.keyspaces@[k]).tablas@,
    ) by {
        if k == ki {
            assert forall|i: int, j: int|
                0 <= i < j < despues.keyspaces@[k].tablas@.len() implies despues.keyspaces@[
                k].tablas@[i].nombre@ != despues.keyspaces@[k].tablas@[j].nombre@ by {
                assert(despues.keyspaces@[k].tablas@[i].nombre@ == antes.keyspaces@[
                k].tablas@[i].nombre@);
                assert(despues.keyspaces@[k].tablas@[j].nombre@ == antes.keyspaces@[
                k].tablas@[j].nombre@);
            }
        }
    }
    assert forall|k: int, t: int|
        0 <= k < despues.keyspaces@.len() && 0 <= t < despues.keyspaces@[k].tablas@.len()
        implies crate::bdd::tabla::bien_formada(
        (#[trigger] despues.keyspaces@[k].tablas@[t]).datos@,
    ) by {
        if k != ki {
            assert(despues.keyspaces@[k] == antes.keyspaces@[k]);
        } else if t != ti {
            assert(despues.keyspaces@[k].tablas@[t] == antes.keyspaces@[k].tablas@[t]);
        }
    }
    assert(anillo_bien_formado(despues)) by {
        assert forall|i: int| 0 <= i < despues.nodos@.len() implies {
            let m = indice_metadata(despues.metadata_nodos@, (#[trigger] despues.nodos@[i]).1@);
            m >= 0 && despues.metadata_nodos@[m].1.application_state.status != NodeStatus::Down
        } by {
            assert(despues.nodos@[i] == antes.nodos@[i]);
            let m = indice_metadata(antes.metadata_nodos@, antes.nodos@[i].1@);
            assert(m >= 0 && antes.metadata_nodos@[m].1.application_state.status
                != NodeStatus::Down);
        }
    }
    assert forall|k: int|
        0 <= k < despues.keyspaces@.len() implies (#[trigger] despues.keyspaces@[k])
        .nivel_replicacion >= 1 by {
        if k != ki {
            assert(despues.keyspaces@[k] == antes.keyspaces@[k]);
        }
        assert(despues.keyspaces@[k].nivel_replicacion == antes.keyspaces@[k].nivel_replicacion);
    }
}

/// The service name an address maps to; an unknown address maps to
/// empty text.
pub fn obtener_nombre_servicio(ip: String) -> (r: String)
    ensures
        ip@ == "127.0.0.1"@ ==> r@ == "node1"@,
        ip@ == "127.0.0.2"@ ==> r@ == "node2"@,
        ip@ == "127.0.0.3"@ ==> r@ == "node3"@,
        ip@ == "127.0.0.4"@ ==> r@ == "node4"@,
        ip@ == "127.0.0.5"@ ==> r@ == "node5"@,
        ip@ == "127.0.0.6"@ ==> r@ == "node6"@,
        ip@ == "127.0.0.7"@ ==> r@ == "node7"@,
        ip@ == "127.0.0.8"@ ==> r@ == "node8"@,
        (ip@ != "127.0.0.1"@ && ip@ != "127.0.0.2"@ && ip@ != "127.0.0.3"@ && ip@ != "127.0.0.4"@ && ip@ != "127.0.0.5"@ && ip@ != "127.0.0.6"@ && ip@ != "127.0.0.7"@ && ip@ != "127.0.0.8"@) ==> r@ == Seq::<char>::empty(),
{
    proof {
        reveal_strlit("127.0.0.1");
        reveal_strlit("127.0.0.2");
        reveal_strlit("127.0.0.3");
        reveal_strlit("127.0.0.4");
        reveal_strlit("127.0.0.5");
        reveal_strlit("127.0.0.6");
        reveal_strlit("127.0.0.7");
        reveal_strlit("127.0.0.8");
        assert("127.0.0.1"@ != "127.0.0.2"@) by {
            assert("127.0.0.1"@[8] == '1');
            assert("127.0.0.2"@[8] == '2');
        }
        assert("127.0.0.1"@ != "127.0.0.3"@) by {
            assert("127.0.0.1"@[8] == '1');
            assert("127.0.0.3"@[8] == '3');
        }
        assert("127.0.0.1"@ != "127.0.0.4"@) by {
            assert("127.0.0.1"@[8] == '1');
            assert("127.0.0.4"@[8] == '4');
        }
        assert("127.0.0.1"@ != "127.0.0.5"@) by {
            assert("127.0.0.1"@[8] == '1');
            assert("127.0.0.5"@[8] == '5');
        }
        assert("127.0.0.1"@ != "127.0.0.6"@) by {
            assert("127.0.0.1"@[8] == '1');
            assert("127.0.0.6"@[8] == '6');
        }
        assert("127.0.0.1"@ != "127.0.0.7"@) by {
            assert("127.0.0.1"@[8] == '1');
            assert("127.0.0.7"@[8] == '7');
        }
        assert("127.0.0.1"@ != "127.0.0.8"@) by {
            assert("127.0.0.1"@[8] == '1');
            assert("127.0.0.8"@[8] == '8');
        }
        assert("127.0.0.2"@ != "127.0.0.3"@) by {
            assert("127.0.0.2"@[8] == '2');
            assert("127.0.0.3"@[8] == '3');
        }
        assert("127.0.0.2"@ != "127.0.0.4"@) by {
            assert("127.0.0.2"@[8] == '2');
            assert("127.0.0.4"@[8] == '4');
        }
        assert("127.0.0.2"@ != "127.0.0.5"@) by {
            assert("127.0.0.2"@[8] == '2');
            assert("127.0.0.5"@[8] == '5');
        }
        assert("127.0.0.2"@ != "127.0.0.6"@) by {
            assert("127.0.0.2"@[8] == '2');
            assert("127.0.0.6"@[8] == '6');
        }
        assert("127.0.0.2"@ != "127.0.0.7"@) by {
            assert("127.0.0.2"@[8] == '2');
            assert("127.0.0.7"@[8] == '7');
        }
        assert("127.0.0.2"@ != "127.0.0.8"@) by {
            assert("127.0.0.2"@[8] == '2');
            assert("127.0.0.8"@[8] == '8');
        }
        assert("127.0.0.3"@ != "127.0.0.4"@) by {
            assert("127.0.0.3"@[8] == '3');
            assert("127.0.0.4"@[8] == '4');
        }
        assert("127.0.0.3"@ != "127.0.0.5"@) by {
            assert("127.0.0.3"@[8] == '3');
            assert("127.0.0.5"@[8] == '5');
        }
        assert("127.0.0.3"@ != "127.0.0.6"@) by {
            assert("127.0.0.3"@[8] == '3');
            assert("127.0.0.6"@[8] == '6');
        }
        assert("127.0.0.3"@ != "127.0.0.7"@) by {
            assert("127.0.0.3"@[8] == '3');
            assert("127.0.0.7"@[8] == '7');
        }
        assert("127.0.0.3"@ != "127.0.0.8"@) by {
            assert("127.0.0.3"@[8] == '3');
            assert("127.0.0.8"@[8] == '8');
        }
        assert("127.0.0.4"@ != "127.0.0.5"@) by {
            assert("127.0.0.4"@[8] == '4');
            assert("127.0.0.5"@[8] == '5');
        }
        assert("127.0.0.4"@ != "127.0.0.6"@) by {
            assert("127.0.0.4"@[8] == '4');
            assert("127.0.0.6"@[8] == '6');
        }
        assert("127.0.0.4"@ != "127.0.0.7"@) by {
            assert("127.0.0.4"@[8] == '4');
            assert("127.0.0.7"@[8] == '7');
        }
        assert("127.0.0.4"@ != "127.0.0.8"@) by {
            assert("127.0.0.4"@[8] == '4');
            assert("127.0.0.8"@[8] == '8');
        }
        assert("127.0.0.5"@ != "127.0.0.6"@) by {
            assert("127.0.0.5"@[8] == '5');
            assert("127.0.0.6"@[8] == '6');
        }
        assert("127.0.0.5"@ != "127.0.0.7"@) by {
            assert("127.0.0.5"@[8] == '5');
            assert("127.0.0.7"@[8] == '7');
        }
        assert("127.0.0.5"@ != "127.0.0.8"@) by {
            assert("127.0.0.5"@[8] == '5');
            assert("127.0.0.8"@[8] == '8');
        }
        assert("127.0.0.6"@ != "127.0.0.7"@) by {
            assert("127.0.0.6"@[8] == '6');
            assert("127.0.0.7"@[8] == '7');
        }
        assert("127.0.0.6"@ != "127.0.0.8"@) by {
            assert("127.0.0.6"@[8] == '6');
            assert("127.0.0.8"@[8] == '8');
        }
        assert("127.0.0.7"@ != "127.0.0.8"@) by {
            assert("127.0.0.7"@[8] == '7');
            assert("127.0.0.8"@[8] == '8');
        }
    }
    let objetivo = chars_de_cadena(ip.as_str());
    let marca_node1 = chars_de_cadena("127.0.0.1");
    if textos_iguales(&objetivo, &marca_node1) {
        return "node1".to_string();
    }
    let marca_node2 = chars_de_cadena("127.0.0.2");
    if textos_iguales(&objetivo, &marca_node2) {
        return "node2".to_string();
    }
    let marca_node3 = chars_de_cadena("127.0.0.3");
    if textos_iguales(&objetivo, &marca_node3) {
        return "node3".to_string();
    }
    let marca_node4 = chars_de_cadena("127.0.0.4");
    if textos_iguales(&objetivo, &marca_node4) {
        return "node4".to_string();
    }
    let marca_node5 = chars_de_cadena("127.0.0.5");
    if textos_iguales(&objetivo, &marca_node5) {
        return "node5".to_string();
    }
    let marca_node6 = chars_de_cadena("127.0.0.6");
    if textos_iguales(&objetivo, &marca_node6) {
        return "node6".to_string();
    }
    let marca_node7 = chars_de_cadena("127.0.0.7");
    if textos_iguales(&objetivo, &marca_node7) {
        return "node7".to_string();
    }
    let marca_node8 = chars_de_cadena("127.0.0.8");
    if textos_iguales(&objetivo, &marca_node8) {
        return "node8".to_string();
    }
    String::new()
}

/// The loopback address a service name's last digit denotes.
pub fn obtener_ip_del_servicio(servicio: &str) -> (r: String)
    requires
        servicio@.len() > 0,
    ensures
        r@ == "127.0.0."@ + seq![servicio@.last()],
{
    proof {
        reveal_strlit("127.0.0.");
    }
    let s = chars_de_cadena(servicio);
    let mut r = chars_de_cadena("127.0.0.");
    r.push(s[s.len() - 1]);
    proof {
        assert(r@ =~= "127.0.0."@ + seq![servicio@.last()]);
    }
    cadena_de_chars(&r)
}

/// The `col = val` pairs of a full-row repair, joined with commas.
pub open spec fn espec_pares(headers: Seq<Seq<char>>, linea: Seq<Seq<char>>) -> Seq<Seq<char>>
    decreases headers.len(),
{
    if headers.len() == 0 || linea.len() < headers.len() {
        Seq::empty()
    } else {
        espec_pares(headers.drop_last(), linea).push(
            headers.last() + " = "@ + linea[headers.len() - 1],
        )
    }
}

/// The UPDATE a read repair sends: every column set to the fresh row's
/// value, keyed by the partition cell and the clustering cell.
pub fn construir_update_todos_los_campos(
    tabla: &String,
    headers: &Vec<String>,
    linea: &Vec<String>,
) -> (r: String)
    requires
        headers@.len() >= 3,
        linea@.len() >= headers@.len(),
    ensures
        r@ == "UPDATE "@ + tabla@ + " SET "@ + crate::texto::unir(
            espec_pares(headers.deep_view(), linea.deep_view()),
            ", "@,
        ) + " WHERE "@ + headers.deep_view()[0] + " = "@ + linea.deep_view()[0] + " AND ID_VUELO = "@
            + linea.deep_view()[2],
{
    proof {
        reveal_strlit("UPDATE ");
        reveal_strlit(" SET ");
        reveal_strlit(" WHERE ");
        reveal_strlit(" = ");
        reveal_strlit(" AND ID_VUELO = ");
        reveal_strlit(", ");
    }
    let sep: Vec<char> = vec![' ', '=', ' '];
    let coma_sep: Vec<char> = vec![',', ' '];
    proof {
        assert(sep@ =~= " = "@);
        assert(coma_sep@ =~= ", "@);
    }
    let mut pares: Vec<Vec<char>> = Vec::new();
    let mut i: usize = 0;
    while i < headers.len()
        invariant
            0 <= i <= headers@.len(),
            linea@.len() >= headers@.len(),
            sep@ == " = "@,
            pares.deep_view() == espec_pares(
                headers.deep_view().subrange(0, i as int),
                linea.deep_view(),
            ),
        decreases headers@.len() - i,
    {
        let ghost hp = headers.deep_view().subrange(0, i as int);
        proof {
            assert(headers.deep_view().subrange(0, i + 1 as int).drop_last() =~~= hp);
            assert(headers.deep_view().subrange(0, i + 1 as int).last()
                == headers.deep_view()[i as int]);
            assert(headers.deep_view()[i as int] == headers@[i as int]@);
            assert(linea.deep_view()[i as int] == linea@[i as int]@);
        }
        let mut par = chars_de_cadena(headers[i].as_str());
        let mut medio = subvec_sep(&sep);
        par.append(&mut medio);
        let mut val = chars_de_cadena(linea[i].as_str());
        par.append(&mut val);
        proof {
            assert(par@ =~= headers.deep_view()[i as int] + " = "@
                + linea.deep_view()[i as int]);
        }
        pares.push(par);
        proof {
            assert(pares.deep_view() =~~= espec_pares(
                headers.deep_view().subrange(0, i + 1 as int),
                linea.deep_view(),
            ));
        }
        i += 1;
    }
    proof {
        assert(headers.deep_view().subrange(0, headers.deep_view().len() as int)
            =~~= headers.deep_view());
    }
    let centro = crate::texto::unir_texto(&pares, &coma_sep);
    let mut r = chars_de_cadena("UPDATE ");
    let mut t = chars_de_cadena(tabla.as_str());
    r.append(&mut t);
    let mut set_marca = chars_de_cadena(" SET ");
    r.append(&mut set_marca);
    let mut c = centro;
    r.append(&mut c);
    let mut donde = chars_de_cadena(" WHERE ");
    r.append(&mut donde);
    proof {
        assert(headers.deep_view()[0] == headers@[0]@);
        assert(linea.deep_view()[0] == linea@[0]@);
        assert(linea.deep_view()[2] == linea@[2]@);
    }
    let mut h0 = chars_de_cadena(headers[0].as_str());
    r.append(&mut h0);
    let mut igual = subvec_sep(&sep);
    r.append(&mut igual);
    let mut l0 = chars_de_cadena(linea[0].as_str());
    r.append(&mut l0);
    let mut cola = chars_de_cadena(" AND ID_VUELO = ");
    r.append(&mut cola);
    let mut l2 = chars_de_cadena(linea[2].as_str());
    r.append(&mut l2);
    proof {
        assert(r@ =~= "UPDATE "@ + tabla@ + " SET "@ + crate::texto::unir(
            espec_pares(headers.deep_view(), linea.deep_view()),
            ", "@,
        ) + " WHERE "@ + headers.deep_view()[0] + " = "@ + linea.deep_view()[0]
            + " AND ID_VUELO = "@ + linea.deep_view()[2]);
    }
    cadena_de_chars(&r)
}

/// A fresh copy of a separator vector.
fn subvec_sep(sep: &Vec<char>) -> (r: Vec<char>)
    ensures
        r@ == sep@,
{
    let r = crate::texto::subvec(sep, 0, sep.len());
    proof {
        assert(r@ =~= sep@);
    }
    r
}

/// Strict freshness order on piggybacked timestamp texts: numeric where
/// both sides denote bounded naturals — so the clock's decimal rendering
/// compares by value — an unreadable stamp below any readable one, and
/// lexicographic among unreadable ones.
pub open spec fn marca_menor(a: Seq<char>, b: Seq<char>) -> bool {
    let na = crate::texto::es_natural(a) && crate::texto::valor_decimal(a) <= u64::MAX;
    let nb = crate::texto::es_natural(b) && crate::texto::valor_decimal(b) <= u64::MAX;
    if na && nb {
        crate::texto::valor_decimal(a) < crate::texto::valor_decimal(b)
    } else if !na && nb {
        true
    } else if na && !nb {
        false
    } else {
        crate::texto::lex_menor(a, b)
    }
}

/// Three-way freshness comparison of two timestamp texts.
pub fn comparar_marcas(a: &Vec<char>, b: &Vec<char>) -> (r: i32)
    ensures
        r == -1 || r == 0 || r == 1,
        (r == -1) <==> marca_menor(a@, b@),
        (r == 1) <==> marca_menor(b@, a@),
{
    let na = crate::texto::parsear_natural(a);
    let nb = crate::texto::parsear_natural(b);
    match (na, nb) {
        (Some(x), Some(y)) => {
            if x < y {
                -1
            } else if x > y {
                1
            } else {
                0
            }
        },
        (None, Some(_)) => -1,
        (Some(_), None) => 1,
        (None, None) => crate::texto::comparar_lex(a, b),
    }
}

/// No timestamp text is fresher than itself.
pub proof fn lema_marca_irreflexiva(s: Seq<char>)
    ensures
        !marca_menor(s, s),
{
    lema_lex_irreflexivo(s);
}

/// Where `a` is not below `b` and `b` not below `c`, `a` is not below
/// `c`: the freshness order on timestamp texts chains.
pub proof fn lema_marca_transitiva(a: Seq<char>, b: Seq<char>, c: Seq<char>)
    requires
        !marca_menor(a, b),
        !marca_menor(b, c),
    ensures
        !marca_menor(a, c),
{
    let na = crate::texto::es_natural(a) && crate::texto::valor_decimal(a) <= u64::MAX;
    let nb = crate::texto::es_natural(b) && crate::texto::valor_decimal(b) <= u64::MAX;
    let nc = crate::texto::es_natural(c) && crate::texto::valor_decimal(c) <= u64::MAX;
    if !na && !nb && !nc {
        lema_lex_transitivo(a, b, c);
    }
}

/// The freshest read response: the one whose piggybacked timestamp is
/// greatest under the numeric freshness order; among equals the last
/// responder wins.
#[verifier::loop_isolation(false)]
pub fn elegir_mas_reciente(respuestas: &Vec<(Vec<String>, String)>) -> (r: Option<usize>)
    ensures
        match r {
            Some(i) => {
                &&& i < respuestas@.len()
                &&& forall|j: int|
                    0 <= j < respuestas@.len() ==> !marca_menor(
                        respuestas@[i as int].1@,
                        (#[trigger] respuestas@[j]).1@,
                    )
                &&& forall|j: int|
                    i < j < respuestas@.len() ==> marca_menor(
                        (#[trigger] respuestas@[j]).1@,
                        respuestas@[i as int].1@,
                    )
            },
            None => respuestas@.len() == 0,
        },
{
    if respuestas.len() == 0 {
        return None;
    }
    let mut mejor: usize = 0;
    let mut j: usize = 1;
    proof {
        lema_marca_irreflexiva(respuestas@[0].1@);
    }
    while j < respuestas.len()
        invariant
            0 <= mejor < j <= respuestas@.len(),
            forall|k: int|
                0 <= k < j ==> !marca_menor(
                    respuestas@[mejor as int].1@,
                    (#[trigger] respuestas@[k]).1@,
                ),
            forall|k: int|
                mejor < k < j ==> marca_menor(
                    (#[trigger] respuestas@[k]).1@,
                    respuestas@[mejor as int].1@,
                ),
        decreases respuestas@.len() - j,
    {
        let clave_actual = chars_de_cadena(respuestas[j].1.as_str());
        let clave_mejor = chars_de_cadena(respuestas[mejor].1.as_str());
        let orden = comparar_marcas(&clave_actual, &clave_mejor);
        if orden != -1 {
            proof {
                assert(!marca_menor(
                    respuestas@[j as int].1@,
                    respuestas@[mejor as int].1@,
                ));
                assert forall|k: int|
                    0 <= k < j + 1 implies !marca_menor(
                    respuestas@[j as int].1@,
                    (#[trigger] respuestas@[k]).1@,
                ) by {
                    if k < j {
                        lema_marca_transitiva(
                            respuestas@[j as int].1@,
                            respuestas@[mejor as int].1@,
                            respuestas@[k].1@,
                        );
                    } else {
                        lema_marca_irreflexiva(respuestas@[j as int].1@);
                    }
                }
            }
            mejor = j;
        }
        j += 1;
    }
    Some(mejor)
}

/// No timestamp text is below itself.
pub proof fn lema_lex_irreflexivo(s: Seq<char>)
    ensures
        !crate::texto::lex_menor(s, s),
    decreases s.len(),
{
    if s.len() > 0 {
        lema_lex_irreflexivo(s.drop_first());
    }
}

/// Where `a` is not below `b` and `b` not below `c`, `a` is not below
/// `c`: the order on timestamp texts chains.
pub proof fn lema_lex_transitivo(a: Seq<char>, b: Seq<char>, c: Seq<char>)
    requires
        !crate::texto::lex_menor(a, b),
        !crate::texto::lex_menor(b, c),
    ensures
        !crate::texto::lex_menor(a, c),
    decreases a.len() + b.len() + c.len(),
{
    if c.len() == 0 {
    } else if a.len() == 0 {
        assert(b.len() == 0);
        assert(false);
    } else if b.len() == 0 {
        assert(false);
    } else {
        let au = a[0] as u32;
        let bu = b[0] as u32;
        let cu = c[0] as u32;
        if a[0] != b[0] {
            assert(au > bu) by {
                if au == bu {
                    vstd::utf8::char_u32_cast(a[0], au);
                    vstd::utf8::char_u32_cast(b[0], bu);
                }
            }
        }
        if b[0] != c[0] {
            assert(bu > cu) by {
                if bu == cu {
                    vstd::utf8::char_u32_cast(b[0], bu);
                    vstd::utf8::char_u32_cast(c[0], cu);
                }
            }
        }
        if a[0] == b[0] && b[0] == c[0] {
            lema_lex_transitivo(a.drop_first(), b.drop_first(), c.drop_first());
        } else {
            assert(au > cu);
            assert(a[0] != c[0]) by {
                if a[0] == c[0] {
                    assert(au == cu);
                }
            }
        }
    }
}

/// The union the no-restriction SELECT builds: the base rows, then each
/// further row once, first occurrences kept.
pub open spec fn espec_union(base: Seq<Seq<char>>, extra: Seq<Seq<char>>) -> Seq<Seq<char>>
    decreases extra.len(),
{
    if extra.len() == 0 {
        base
    } else {
        let previo = espec_union(base, extra.drop_last());
        if previo.contains(extra.last()) {
            previo
        } else {
            previo.push(extra.last())
        }
    }
}

/// Add rows to a result, dropping those already present.
#[verifier::loop_isolation(false)]
pub fn union_sin_repetidos(base: Vec<String>, extra: &Vec<String>) -> (r: Vec<String>)
    ensures
        r.deep_view() == espec_union(base.deep_view(), extra.deep_view()),
{
    let mut r = base;
    let ghost base_v = r.deep_view();
    let mut k: usize = 0;
    proof {
        assert(extra.deep_view().subrange(0, 0) =~~= Seq::<Seq<char>>::empty());
        assert(espec_union(base_v, extra.deep_view().subrange(0, 0)) == base_v);
    }
    while k < extra.len()
        invariant
            0 <= k <= extra@.len(),
            r.deep_view() == espec_union(base_v, extra.deep_view().subrange(0, k as int)),
        decreases extra@.len() - k,
    {
        let ghost pref = extra.deep_view().subrange(0, k as int);
        proof {
            assert(extra.deep_view().subrange(0, k + 1 as int).drop_last() =~~= pref);
            assert(extra.deep_view().subrange(0, k + 1 as int).last()
                == extra.deep_view()[k as int]);
            assert(extra.deep_view()[k as int] == extra@[k as int]@);
        }
        let fila = chars_de_cadena(extra[k].as_str());
        let mut esta = false;
        let mut j: usize = 0;
        while j < r.len()
            invariant
                0 <= j <= r@.len(),
                k < extra@.len(),
                fila@ == extra.deep_view()[k as int],
                esta <==> exists|g: int| 0 <= g < j && r.deep_view()[g] == fila@,
            decreases r@.len() - j,
        {
            proof {
                assert(r.deep_view()[j as int] == r@[j as int]@);
            }
            let propia = chars_de_cadena(r[j].as_str());
            if textos_iguales(&propia, &fila) {
                esta = true;
            }
            j += 1;
        }
        proof {
            assert(esta == r.deep_view().contains(fila@));
        }
        if !esta {
            let ghost r_antes = r.deep_view();
            r.push(cadena_de_chars(&fila));
            proof {
                assert(r.deep_view() =~~= r_antes.push(fila@));
            }
        }
        k += 1;
    }
    proof {
        assert(extra.deep_view().subrange(0, extra.deep_view().len() as int)
            =~~= extra.deep_view());
    }
    r
}

/// One digest entry as text: `ip:gen:ver`, and the state word for a
/// full tuple.
pub fn armar_tupla(ip: &str, gen: u64, ver: u32, estado: Option<NodeStatus>) -> (r: String)
    ensures
        exists|dg: Seq<char>, dv: Seq<char>|
            #![trigger crate::texto::es_decimal_de(dg, gen as int), crate::texto::es_decimal_de(dv, ver as int)]
            crate::texto::es_decimal_de(dg, gen as int) && crate::texto::es_decimal_de(
                dv,
                ver as int,
            ) && r@ == ip@ + seq![':'] + dg + seq![':'] + dv + (match estado {
                Some(e) => seq![':'] + crate::bdd::node_status::espec_texto_estado(e),
                None => Seq::<char>::empty(),
            }),
{
    let mut r = chars_de_cadena(ip);
    r.push(':');
    let mut dg = crate::texto::texto_de_natural(gen);
    let ghost dg_v = dg@;
    r.append(&mut dg);
    r.push(':');
    let mut dv = crate::texto::texto_de_natural(ver as u64);
    let ghost dv_v = dv@;
    r.append(&mut dv);
    match estado {
        Some(e) => {
            r.push(':');
            let mut palabra = chars_de_cadena(e.texto());
            r.append(&mut palabra);
            proof {
                assert(r@ =~= ip@ + seq![':'] + dg_v + seq![':'] + dv_v + (seq![':']
                    + crate::bdd::node_status::espec_texto_estado(e)));
            }
        },
        None => {
            proof {
                assert(r@ =~= ip@ + seq![':'] + dg_v + seq![':'] + dv_v);
                assert(r@ =~= ip@ + seq![':'] + dg_v + seq![':'] + dv_v + Seq::<char>::empty());
            }
        },
    }
    cadena_de_chars(&r)
}

/// Join digest entries with single spaces.
#[verifier::loop_isolation(false)]
pub fn unir_con_espacios(piezas: &Vec<String>) -> (r: String)
    ensures
        r@ == crate::texto::unir(piezas.deep_view(), seq![' ']),
{
    let espacio: Vec<char> = vec![' '];
    proof {
        assert(espacio@ =~= seq![' ']);
    }
    let mut chars: Vec<Vec<char>> = Vec::new();
    let mut k: usize = 0;
    while k < piezas.len()
        invariant
            0 <= k <= piezas@.len(),
            chars.deep_view() == piezas.deep_view().subrange(0, k as int),
        decreases piezas@.len() - k,
    {
        proof {
            assert(piezas.deep_view()[k as int] == piezas@[k as int]@);
        }
        let ghost antes = chars.deep_view();
        chars.push(chars_de_cadena(piezas[k].as_str()));
        proof {
            assert(chars.deep_view() =~~= antes.push(piezas.deep_view()[k as int]));
            assert(piezas.deep_view().subrange(0, k + 1 as int)
                =~~= piezas.deep_view().subrange(0, k as int).push(
                piezas.deep_view()[k as int],
            ));
            assert(chars.deep_view() =~~= piezas.deep_view().subrange(0, k + 1 as int));
        }
        k += 1;
    }
    proof {
        assert(piezas.deep_view().subrange(0, piezas.deep_view().len() as int)
            =~~= piezas.deep_view());
    }
    let unida = crate::texto::unir_texto(&chars, &espacio);
    cadena_de_chars(&unida)
}

/// One statement of the redistribution plan: where it goes and what it
/// says.
pub struct EnvioPlan {
    pub destino: String,
    pub consulta: String,
}

/// Whether the built entries carry exactly the planned addresses and
/// statements, in order.
pub open spec fn corresponde(r: Seq<EnvioPlan>, plan: Seq<(Seq<char>, Seq<char>)>) -> bool {
    &&& r.len() == plan.len()
    &&& forall|i: int|
        0 <= i < r.len() ==> (#[trigger] r[i]).destino@ == plan[i].0 && r[i].consulta@
            == plan[i].1
}

/// One matching entry appended keeps the correspondence.
pub proof fn lema_corresponde_empuja(
    r: Seq<EnvioPlan>,
    e: EnvioPlan,
    plan: Seq<(Seq<char>, Seq<char>)>,
    x: (Seq<char>, Seq<char>),
)
    requires
        corresponde(r, plan),
        e.destino@ == x.0,
        e.consulta@ == x.1,
    ensures
        corresponde(r.push(e), plan.push(x)),
{
    assert forall|i: int|
        0 <= i < r.push(e).len() implies (#[trigger] r.push(e)[i]).destino@ == plan.push(x)[i].0
        && r.push(e)[i].consulta@ == plan.push(x)[i].1 by {
        if i < r.len() {
            assert(r.push(e)[i] == r[i]);
            assert(plan.push(x)[i] == plan[i]);
        } else {
            assert(r.push(e)[i] == e);
            assert(plan.push(x)[i] == x);
        }
    }
}

/// The INSERT a redistribution forwards for one row: the table's
/// columns and the row's values.
pub open spec fn espec_insert_redistribucion(
    tabla: Seq<char>,
    headers: Seq<Seq<char>>,
    fila: Seq<char>,
) -> Seq<char> {
    "INSERT INTO "@ + tabla + " ("@ + crate::texto::unir(headers, ", "@) + ") VALUES ("@
        + crate::texto::unir(crate::bdd::tabla::celdas(fila), ", "@) + ")"@
}

/// The DELETE a redistribution sends to the replica that fell out of
/// the window: keyed by the row's partition cell and clustering cell.
pub open spec fn espec_delete_redistribucion(
    tabla: Seq<char>,
    headers: Seq<Seq<char>>,
    fila: Seq<char>,
) -> Seq<char> {
    "DELETE FROM "@ + tabla + " WHERE "@ + headers[0] + " = "@ + crate::bdd::tabla::celdas(
        fila,
    )[0] + " AND ID_VUELO = "@ + crate::bdd::tabla::celdas(fila)[2]
}

/// The plan entries one row contributes: an INSERT to the joiner, and,
/// where the node has replicas and the row carries a clustering cell, a
/// DELETE to the last replica.
pub open spec fn plan_de_fila(
    tabla: Seq<char>,
    headers: Seq<Seq<char>>,
    fila: Seq<char>,
    ip_nuevo: Seq<char>,
    destino_borrado: Option<Seq<char>>,
) -> Seq<(Seq<char>, Seq<char>)> {
    seq![(ip_nuevo, espec_insert_redistribucion(tabla, headers, fila))] + (match destino_borrado {
        Some(destino) => {
            if headers.len() >= 1 && crate::bdd::tabla::celdas(fila).len() >= 3 {
                seq![(destino, espec_delete_redistribucion(tabla, headers, fila))]
            } else {
                Seq::empty()
            }
        },
        None => Seq::empty(),
    })
}

/// The plan entries of one partition's rows.
pub open spec fn plan_de_filas(
    tabla: Seq<char>,
    headers: Seq<Seq<char>>,
    filas: Seq<Seq<char>>,
    ip_nuevo: Seq<char>,
    destino_borrado: Option<Seq<char>>,
) -> Seq<(Seq<char>, Seq<char>)>
    decreases filas.len(),
{
    if filas.len() == 0 {
        Seq::empty()
    } else {
        plan_de_filas(tabla, headers, filas.drop_last(), ip_nuevo, destino_borrado)
            + plan_de_fila(tabla, headers, filas.last(), ip_nuevo, destino_borrado)
    }
}

/// The plan entries of one table: every row of every partition whose
/// key token is at most the joiner's.
pub open spec fn plan_de_particiones(
    tabla: Seq<char>,
    headers: Seq<Seq<char>>,
    datos: Seq<crate::bdd::tabla::Particion>,
    token_nuevo: u32,
    ip_nuevo: Seq<char>,
    destino_borrado: Option<Seq<char>>,
) -> Seq<(Seq<char>, Seq<char>)>
    decreases datos.len(),
{
    if datos.len() == 0 {
        Seq::empty()
    } else {
        plan_de_particiones(tabla, headers, datos.drop_last(), token_nuevo, ip_nuevo, destino_borrado)
            + (if hash_de(datos.last().clave@) <= token_nuevo {
            plan_de_filas(
                tabla,
                headers,
                datos.last().filas.deep_view(),
                ip_nuevo,
                destino_borrado,
            )
        } else {
            Seq::empty()
        })
    }
}

/// The plan entries of the active keyspace: every table except the
/// static ones.
pub open spec fn plan_de_tablas(
    tablas: Seq<Tabla>,
    token_nuevo: u32,
    ip_nuevo: Seq<char>,
    destino_borrado: Option<Seq<char>>,
) -> Seq<(Seq<char>, Seq<char>)>
    decreases tablas.len(),
{
    if tablas.len() == 0 {
        Seq::empty()
    } else {
        plan_de_tablas(tablas.drop_last(), token_nuevo, ip_nuevo, destino_borrado) + (
        if crate::texto::contiene(tablas.last().nombre@, "AEROPUERTOS"@) {
            Seq::empty()
        } else {
            plan_de_particiones(
                tablas.last().nombre@,
                tablas.last().headers.deep_view(),
                tablas.last().datos@,
                token_nuevo,
                ip_nuevo,
                destino_borrado,
            )
        })
    }
}

/// The whole redistribution plan a joining peer triggers on this node:
/// for every local row of the active keyspace whose key token is at
/// most the joiner's, an INSERT addressed to the joiner and a DELETE
/// addressed to this node's last replica; static tables are skipped.
pub open spec fn espec_plan_redistribucion(n: Nodo, token_nuevo: u32, ip_nuevo: Seq<char>) -> Seq<
    (Seq<char>, Seq<char>),
> {
    let ki = indice_keyspace(n.keyspaces@, n.keyspace_actual@);
    let destino: Option<Seq<char>> = if n.replicas@.len() > 0 {
        Some(n.replicas@.last()@)
    } else {
        None
    };
    if ki >= 0 {
        plan_de_tablas(n.keyspaces@[ki].tablas@, token_nuevo, ip_nuevo, destino)
    } else {
        Seq::empty()
    }
}

/// Build the INSERT a redistribution forwards for one row.
#[verifier::loop_isolation(false)]
pub fn consulta_insert_redistribucion(tabla: &str, headers: &Vec<String>, fila: &str) -> (r:
    String)
    ensures
        r@ == espec_insert_redistribucion(tabla@, headers.deep_view(), fila@),
{
    proof {
        reveal_strlit("INSERT INTO ");
        reveal_strlit(" (");
        reveal_strlit(") VALUES (");
        reveal_strlit(")");
        reveal_strlit(", ");
    }
    let coma_sep: Vec<char> = vec![',', ' '];
    let coma: Vec<char> = vec![','];
    proof {
        assert(coma_sep@ =~= ", "@);
        assert(coma@ =~= seq![',']);
    }
    let mut piezas: Vec<Vec<char>> = Vec::new();
    let mut k: usize = 0;
    while k < headers.len()
        invariant
            0 <= k <= headers@.len(),
            piezas.deep_view() == headers.deep_view().subrange(0, k as int),
        decreases headers@.len() - k,
    {
        proof {
            assert(headers.deep_view()[k as int] == headers@[k as int]@);
        }
        let ghost antes = piezas.deep_view();
        piezas.push(chars_de_cadena(headers[k].as_str()));
        proof {
            assert(piezas.deep_view() =~~= antes.push(headers.deep_view()[k as int]));
            assert(headers.deep_view().subrange(0, k + 1 as int)
                =~~= headers.deep_view().subrange(0, k as int).push(
                headers.deep_view()[k as int],
            ));
            assert(piezas.deep_view() =~~= headers.deep_view().subrange(0, k + 1 as int));
        }
        k += 1;
    }
    proof {
        assert(headers.deep_view().subrange(0, headers.deep_view().len() as int)
            =~~= headers.deep_view());
    }
    let columnas = crate::texto::unir_texto(&piezas, &coma_sep);
    let f = chars_de_cadena(fila);
    let cels = crate::texto::dividir_texto(&f, &coma);
    let valores = crate::texto::unir_texto(&cels, &coma_sep);
    let mut r = chars_de_cadena("INSERT INTO ");
    let mut t = chars_de_cadena(tabla);
    r.append(&mut t);
    let mut abre = chars_de_cadena(" (");
    r.append(&mut abre);
    let mut c = columnas;
    r.append(&mut c);
    let mut medio = chars_de_cadena(") VALUES (");
    r.append(&mut medio);
    let mut v = valores;
    r.append(&mut v);
    let mut cierra = chars_de_cadena(")");
    r.append(&mut cierra);
    proof {
        assert(r@ =~= espec_insert_redistribucion(tabla@, headers.deep_view(), fila@));
    }
    cadena_de_chars(&r)
}

/// Build the DELETE a redistribution sends to the replica that fell out
/// of the window; a row without a clustering cell or a table without
/// headers yields none.
pub fn consulta_delete_redistribucion(tabla: &str, headers: &Vec<String>, fila: &str) -> (r:
    Option<String>)
    ensures
        match r {
            Some(c) => headers@.len() >= 1 && crate::bdd::tabla::celdas(fila@).len() >= 3 && c@
                == espec_delete_redistribucion(tabla@, headers.deep_view(), fila@),
            None => headers@.len() < 1 || crate::bdd::tabla::celdas(fila@).len() < 3,
        },
{
    proof {
        reveal_strlit("DELETE FROM ");
        reveal_strlit(" WHERE ");
        reveal_strlit(" = ");
        reveal_strlit(" AND ID_VUELO = ");
    }
    if headers.len() < 1 {
        return None;
    }
    let coma: Vec<char> = vec![','];
    proof {
        assert(coma@ =~= seq![',']);
    }
    let f = chars_de_cadena(fila);
    let cels = crate::texto::dividir_texto(&f, &coma);
    if cels.len() < 3 {
        proof {
            assert(cels@.len() == cels.deep_view().len());
        }
        return None;
    }
    proof {
        assert(headers.deep_view()[0] == headers@[0]@);
        assert(cels.deep_view()[0] == cels@[0]@);
        assert(cels.deep_view()[2] == cels@[2]@);
    }
    let mut r = chars_de_cadena("DELETE FROM ");
    let mut t = chars_de_cadena(tabla);
    r.append(&mut t);
    let mut donde = chars_de_cadena(" WHERE ");
    r.append(&mut donde);
    let mut h0 = chars_de_cadena(headers[0].as_str());
    r.append(&mut h0);
    let mut igual = chars_de_cadena(" = ");
    r.append(&mut igual);
    let mut c0 = crate::texto::subvec(&cels[0], 0, cels[0].len());
    r.append(&mut c0);
    let mut cola = chars_de_cadena(" AND ID_VUELO = ");
    r.append(&mut cola);
    let mut c2 = crate::texto::subvec(&cels[2], 0, cels[2].len());
    r.append(&mut c2);
    proof {
        assert(r@ =~= espec_delete_redistribucion(tabla@, headers.deep_view(), fila@));
    }
    Some(cadena_de_chars(&r))
}

/// The majority under a replication factor: one more than half.
pub fn calcular_quorum(nivel_replicacion: usize) -> (r: usize)
    requires
        nivel_replicacion < usize::MAX,
    ensures
        r == (nivel_replicacion + 1) / 2,
{
    (nivel_replicacion + 1) / 2
}

/// How many replica acknowledgements the coordinator still needs: one
/// under weak consistency, the quorum less its own vote under strong.
pub fn acks_requeridos(
    consistencia: &crate::serial_deserial::level_consistency::LevelConsistency,
    quorum: usize,
) -> (r: usize)
    requires
        quorum >= 1,
    ensures
        *consistencia == crate::serial_deserial::level_consistency::LevelConsistency::Weak ==> r
            == 1,
        *consistencia == crate::serial_deserial::level_consistency::LevelConsistency::Strong ==> r
            == quorum - 1,
{
    match consistencia {
        crate::serial_deserial::level_consistency::LevelConsistency::Weak => 1,
        crate::serial_deserial::level_consistency::LevelConsistency::Strong => quorum - 1,
    }
}

/// A digest entry parsed: address, generation, version and, in full
/// tuples, the peer's state.
pub open spec fn espec_tupla(s: Seq<char>) -> Option<(Seq<char>, int, int, Seq<char>)> {
    let partes = crate::texto::dividir(s, seq![':']);
    if partes.len() < 3 {
        None
    } else if !crate::texto::es_natural(partes[1]) || crate::texto::valor_decimal(partes[1])
        > u64::MAX || !crate::texto::es_natural(partes[2]) || crate::texto::valor_decimal(
        partes[2],
    ) > u32::MAX {
        None
    } else {
        Some(
            (
                partes[0],
                crate::texto::valor_decimal(partes[1]),
                crate::texto::valor_decimal(partes[2]),
                if partes.len() >= 4 {
                    partes[3]
                } else {
                    Seq::<char>::empty()
                },
            ),
        )
    }
}

/// Parse one digest entry `ip:gen:ver[:status]`; unreadable numbers
/// reject the entry.
pub fn parsear_tupla(entrada: &str) -> (r: Option<(String, u64, u32, String)>)
    ensures
        match r {
            Some((ip, gen, ver, estado)) => espec_tupla(entrada@) == Some(
                (ip@, gen as int, ver as int, estado@),
            ),
            None => espec_tupla(entrada@) is None,
        },
{
    let s = chars_de_cadena(entrada);
    let sep: Vec<char> = vec![':'];
    proof {
        assert(sep@ =~= seq![':']);
    }
    let partes = crate::texto::dividir_texto(&s, &sep);
    if partes.len() < 3 {
        return None;
    }
    proof {
        assert(partes.deep_view()[0] == partes@[0]@);
        assert(partes.deep_view()[1] == partes@[1]@);
        assert(partes.deep_view()[2] == partes@[2]@);
    }
    let gen = match crate::texto::parsear_natural(&partes[1]) {
        Some(g) => g,
        None => {
            return None;
        },
    };
    let ver64 = match crate::texto::parsear_natural(&partes[2]) {
        Some(v) => v,
        None => {
            return None;
        },
    };
    if ver64 > u32::MAX as u64 {
        return None;
    }
    let ip = cadena_de_chars(&partes[0]);
    let estado: String = if partes.len() >= 4 {
        proof {
            assert(partes.deep_view()[3] == partes@[3]@);
        }
        cadena_de_chars(&partes[3])
    } else {
        String::new()
    };
    Some((ip, gen, ver64 as u32, estado))
}

/// What the gossip target answers for one digest entry: it asks for the
/// full record when the initiator's pair is strictly fresher or the
/// peer is unknown; otherwise it sends its own record back.
pub enum ParteAck {
    Atrasado,
    Tengo(u64, u32, NodeStatus),
}

impl Nodo {
    /// Decide one digest entry of an incoming SYN.
    #[verifier::loop_isolation(false)]
    pub fn decidir_entrada(&self, ip: &str, gen: u64, ver: u32) -> (r: ParteAck)
        ensures
            ({
                let m = indice_metadata(self.metadata_nodos@, ip@);
                if m < 0 {
                    r is Atrasado
                } else {
                    let propio = self.metadata_nodos@[m].1;
                    if mas_fresco(
                        gen as int,
                        ver as int,
                        propio.heartbeat_state.generation as int,
                        propio.heartbeat_state.version as int,
                    ) {
                        r is Atrasado
                    } else {
                        r matches ParteAck::Tengo(g, v, e) && g
                            == propio.heartbeat_state.generation && v
                            == propio.heartbeat_state.version && e
                            == propio.application_state.status
                    }
                }
            }),
    {
        proof {
            lema_indice_metadata(self.metadata_nodos@, ip@);
        }
        let objetivo = chars_de_cadena(ip);
        let mut i: usize = 0;
        while i < self.metadata_nodos.len()
            invariant
                0 <= i <= self.metadata_nodos@.len(),
                objetivo@ == ip@,
                forall|k: int| 0 <= k < i ==> (#[trigger] self.metadata_nodos@[k]).0@ != ip@,
            decreases self.metadata_nodos@.len() - i,
        {
            let registro_ip = chars_de_cadena(self.metadata_nodos[i].0.as_str());
            if textos_iguales(&registro_ip, &objetivo) {
                proof {
                    let m = indice_metadata(self.metadata_nodos@, ip@);
                    if m != i {
                        if m < 0 {
                        } else if m < i {
                            assert(self.metadata_nodos@[m].0@ == ip@);
                        } else {
                            assert(self.metadata_nodos@[i as int].0@ != ip@);
                        }
                        assert(false);
                    }
                }
                let propio = &self.metadata_nodos[i].1;
                if destino_atrasado(
                    gen,
                    ver,
                    propio.heartbeat_state.generation,
                    propio.heartbeat_state.version,
                ) {
                    return ParteAck::Atrasado;
                }
                return ParteAck::Tengo(
                    propio.heartbeat_state.generation,
                    propio.heartbeat_state.version,
                    propio.application_state.status,
                );
            }
            i += 1;
        }
        proof {
            let m = indice_metadata(self.metadata_nodos@, ip@);
            if m >= 0 {
                assert(self.metadata_nodos@[m].0@ == ip@);
                assert(false);
            }
        }
        ParteAck::Atrasado
    }

    /// Apply one full gossip tuple: the peer's record takes the received
    /// pair and state; a peer newly seen as serving joins the ring, one
    /// seen unreachable leaves it.  The ring stays ordered and free of
    /// unreachable peers.
    #[verifier::loop_isolation(false)]
    #[verifier::rlimit(100)]
    pub fn aplicar_estado_remoto(&mut self, ip: &str, gen: u64, ver: u32, estado: NodeStatus)
        requires
            nodo_bien_formado(*old(self)),
        ensures
            nodo_bien_formado(*final(self)),
            final(self).ip == old(self).ip,
            final(self).keyspaces == old(self).keyspaces,
            final(self).token == old(self).token,
            final(self).timestamp == old(self).timestamp,
            final(self).gossip_recientes == old(self).gossip_recientes,
            final(self).keyspace_actual == old(self).keyspace_actual,
            ({
                let m = indice_metadata(final(self).metadata_nodos@, ip@);
                &&& m >= 0
                &&& final(self).metadata_nodos@[m].1.heartbeat_state.generation == gen
                &&& final(self).metadata_nodos@[m].1.heartbeat_state.version == ver
                &&& final(self).metadata_nodos@[m].1.application_state.status == estado
            }),
            estado == NodeStatus::Down ==> forall|i: int|
                0 <= i < final(self).nodos@.len() ==> (#[trigger] final(self).nodos@[i]).1@
                    != ip@,
            estado == NodeStatus::Normal ==> exists|i: int|
                0 <= i < final(self).nodos@.len() && (#[trigger] final(self).nodos@[i]).1@
                    == ip@,
            final(self).replicas == old(self).replicas,
            final(self).metadata_nodos@.len() == old(self).metadata_nodos@.len() || final(self).metadata_nodos@.len() == old(self).metadata_nodos@.len() + 1,
            forall|k: int|
                0 <= k < old(self).metadata_nodos@.len() ==> (#[trigger] final(self).metadata_nodos@[k]).0@ == old(self).metadata_nodos@[k].0@,
            forall|k: int|
                0 <= k < old(self).metadata_nodos@.len() && old(self).metadata_nodos@[k].0@
                    != ip@ ==> (#[trigger] final(self).metadata_nodos@[k]) == old(self).metadata_nodos@[k],
            final(self).metadata_nodos@.len() == old(self).metadata_nodos@.len() + 1 ==> final(self).metadata_nodos@.last().0@ == ip@,
            estado == NodeStatus::Down ==> final(self).nodos@ == sin_direccion(
                old(self).nodos@,
                ip@,
            ),
            estado == NodeStatus::Bootstrap ==> final(self).nodos == old(self).nodos,
            estado == NodeStatus::Normal ==> ({
                let q = posicion_token(old(self).nodos@, hash_de(ip@));
                if q >= 0 {
                    &&& final(self).nodos@.len() == old(self).nodos@.len()
                    &&& forall|x: int|
                        0 <= x < old(self).nodos@.len() && x != q ==> final(self).nodos@[x]
                            == old(self).nodos@[x]
                    &&& final(self).nodos@[q].0 == hash_de(ip@)
                    &&& final(self).nodos@[q].1@ == ip@
                } else {
                    let p = if primer_token_mayor(old(self).nodos@, hash_de(ip@)) >= 0 {
                        primer_token_mayor(old(self).nodos@, hash_de(ip@))
                    } else {
                        old(self).nodos@.len() as int
                    };
                    &&& final(self).nodos@.len() == old(self).nodos@.len() + 1
                    &&& forall|x: int| 0 <= x < p ==> final(self).nodos@[x] == old(self).nodos@[x]
                    &&& final(self).nodos@[p].0 == hash_de(ip@)
                    &&& final(self).nodos@[p].1@ == ip@
                    &&& forall|x: int|
                        p < x < final(self).nodos@.len() ==> final(self).nodos@[x] == old(self).nodos@[x - 1]
                }
            }),
    {
        let objetivo = chars_de_cadena(ip);
        let registro = EndpointData::new(gen, ver, estado);
        let ghost md0 = self.metadata_nodos@;
        proof {
            lema_indice_metadata(md0, ip@);
        }
        let mut i: usize = 0;
        let mut encontrado = false;
        while i < self.metadata_nodos.len() && !encontrado
            invariant
                *self == *old(self),
                md0 == self.metadata_nodos@,
                objetivo@ == ip@,
                0 <= i <= md0.len(),
                !encontrado ==> forall|k: int| 0 <= k < i ==> (#[trigger] md0[k]).0@ != ip@,
                encontrado ==> i < md0.len() && md0[i as int].0@ == ip@,
            decreases md0.len() - i, (if encontrado { 0int } else { 1int }),
        {
            let registro_ip = chars_de_cadena(self.metadata_nodos[i].0.as_str());
            if textos_iguales(&registro_ip, &objetivo) {
                encontrado = true;
            } else {
                i += 1;
            }
        }
        if encontrado {
            let mut par = self.metadata_nodos.remove(i);
            par.1 = registro;
            self.metadata_nodos.insert(i, par);
            proof {
                assert forall|x: int|
                    0 <= x < md0.len() && x != i implies self.metadata_nodos@[x] == md0[x] by {
                    if x < i {
                        assert(md0.remove(i as int)[x] == md0[x]);
                    } else {
                        assert(md0.remove(i as int)[x - 1] == md0[x]);
                    }
                }
                assert(self.metadata_nodos@[i as int].0 == md0[i as int].0);
            }
        } else {
            proof {
                assert(indice_metadata(md0, ip@) == -1);
            }
            self.metadata_nodos.push((cadena_de_chars(&objetivo), registro));
            proof {
                assert forall|x: int|
                    0 <= x < md0.len() implies self.metadata_nodos@[x] == md0[x] by {}
            }
        }
        let ghost md1 = self.metadata_nodos@;
        proof {
            assert forall|x: int, y: int|
                0 <= x < y < md1.len() implies md1[x].0@ != md1[y].0@ by {
                if y < md0.len() {
                    assert(md1[x].0@ == md0[x].0@);
                    assert(md1[y].0@ == md0[y].0@);
                } else {
                    assert(md1[y].0@ == ip@);
                    assert(md1[x].0@ == md0[x].0@);
                    assert(md0[x].0@ != ip@);
                }
            }
            lema_indice_en_metadata(md1, ip@, i as int, encontrado, md0.len() as int);
        }
        proof {
            lema_indices_tras_cambio(md0, md1, ip@);
            assert forall|k: int| 0 <= k < self.nodos@.len() implies {
                let direccion = (#[trigger] self.nodos@[k]).1@;
                direccion != ip@ ==> {
                    let m = indice_metadata(md1, direccion);
                    m >= 0 && md1[m].1.application_state.status != NodeStatus::Down
                }
            } by {
                let direccion = self.nodos@[k].1@;
                if direccion != ip@ {
                    assert(self.nodos@[k] == old(self).nodos@[k]);
                    let m0 = indice_metadata(md0, direccion);
                    lema_indice_metadata(md0, direccion);
                    assert(m0 >= 0 && md0[m0].1.application_state.status != NodeStatus::Down);
                    assert(indice_metadata(md1, direccion) == m0);
                    if encontrado && m0 == i {
                        assert(md0[i as int].0@ == ip@);
                        assert(false);
                    }
                    assert(md1[m0] == md0[m0]);
                }
            }
            lema_indice_metadata(md1, ip@);
            let m = indice_metadata(md1, ip@);
            assert(m >= 0);
            assert(md1[m].1.application_state.status == estado) by {
                if encontrado {
                    if m != i {
                        assert(md1[m].0@ == md1[i as int].0@);
                        assert(false);
                    }
                } else {
                    if m != md0.len() {
                        assert(md1[m].0@ == md1[md0.len() as int].0@);
                        assert(false);
                    }
                }
            }
        }
        let token_remoto = crate::bdd::procesamiento_data::hash_texto(ip);
        match estado {
            NodeStatus::Down => {
                let ghost anillo0 = self.nodos@;
                self.quitar_direccion_del_anillo(&objetivo);
                proof {
                    assert(anillo_bien_formado(*self)) by {
                        assert forall|x: int| 0 <= x < self.nodos@.len() implies {
                            let m = indice_metadata(
                                self.metadata_nodos@,
                                (#[trigger] self.nodos@[x]).1@,
                            );
                            m >= 0 && self.metadata_nodos@[m].1.application_state.status
                                != NodeStatus::Down
                        } by {
                            let j = choose|j: int|
                                0 <= j < anillo0.len() && self.nodos@[x] == anillo0[j];
                            assert(old(self).nodos@[j] == anillo0[j]);
                            assert(self.nodos@[x].1@ != ip@);
                        }
                    }
                }
            },
            NodeStatus::Normal => {
                let ghost anillo0 = self.nodos@;
                self.poner_en_anillo(token_remoto, &objetivo);
                proof {
                    assert(anillo_bien_formado(*self)) by {
                        assert forall|x: int| 0 <= x < self.nodos@.len() implies {
                            let m = indice_metadata(
                                self.metadata_nodos@,
                                (#[trigger] self.nodos@[x]).1@,
                            );
                            m >= 0 && self.metadata_nodos@[m].1.application_state.status
                                != NodeStatus::Down
                        } by {
                            if self.nodos@[x].1@ == ip@ {
                            } else {
                                let j = choose|j: int|
                                    0 <= j < anillo0.len() && self.nodos@[x] == anillo0[j];
                                assert(old(self).nodos@[j] == anillo0[j]);
                            }
                        }
                    }
                }
            },
            NodeStatus::Bootstrap => {
                proof {
                    assert(anillo_bien_formado(*self)) by {
                        assert forall|x: int| 0 <= x < self.nodos@.len() implies {
                            let m = indice_metadata(
                                self.metadata_nodos@,
                                (#[trigger] self.nodos@[x]).1@,
                            );
                            m >= 0 && self.metadata_nodos@[m].1.application_state.status
                                != NodeStatus::Down
                        } by {
                            if self.nodos@[x].1@ == ip@ {
                            }
                        }
                    }
                }
            },
        }
    }

    /// Drop every ring entry carrying the given address; the order of
    /// the rest is kept.
    #[verifier::loop_isolation(false)]
    pub fn quitar_direccion_del_anillo(&mut self, objetivo: &Vec<char>)
        requires
            forall|i: int, j: int|
                0 <= i < j < old(self).nodos@.len() ==> old(self).nodos@[i].0 < old(self).nodos@[j].0,
        ensures
            final(self).metadata_nodos == old(self).metadata_nodos,
            final(self).ip == old(self).ip,
            final(self).keyspaces == old(self).keyspaces,
            final(self).token == old(self).token,
            final(self).replicas == old(self).replicas,
            final(self).timestamp == old(self).timestamp,
            final(self).gossip_recientes == old(self).gossip_recientes,
            final(self).keyspace_actual == old(self).keyspace_actual,
            forall|x: int, y: int|
                0 <= x < y < final(self).nodos@.len() ==> final(self).nodos@[x].0 < final(self).nodos@[y].0,
            forall|x: int|
                0 <= x < final(self).nodos@.len() ==> (#[trigger] final(self).nodos@[x]).1@
                    != objetivo@,
            forall|x: int|
                0 <= x < final(self).nodos@.len() ==> exists|j: int|
                    0 <= j < old(self).nodos@.len() && (#[trigger] final(self).nodos@[x]) == old(self).nodos@[j],
            final(self).nodos@ == sin_direccion(old(self).nodos@, objetivo@),
    {
        let ghost anillo0 = self.nodos@;
        let mut nuevos: Vec<(u32, String)> = Vec::new();
        let mut k: usize = 0;
        while k < self.nodos.len()
            invariant
                0 <= k <= self.nodos@.len(),
                self.nodos@ == anillo0,
                *self == *old(self),
                forall|x: int, y: int|
                    0 <= x < y < nuevos@.len() ==> nuevos@[x].0 < nuevos@[y].0,
                forall|x: int|
                    0 <= x < nuevos@.len() ==> exists|j: int|
                        0 <= j < k && (#[trigger] nuevos@[x]) == anillo0[j],
                forall|x: int| 0 <= x < nuevos@.len() ==> (#[trigger] nuevos@[x]).1@
                    != objetivo@,
                nuevos@.len() > 0 ==> exists|j: int|
                    0 <= j < k && nuevos@[nuevos@.len() - 1] == anillo0[j],
                nuevos@ == sin_direccion(anillo0.subrange(0, k as int), objetivo@),
            decreases self.nodos@.len() - k,
        {
            proof {
                assert(anillo0.subrange(0, k + 1 as int).drop_last() =~= anillo0.subrange(
                    0,
                    k as int,
                ));
                assert(anillo0.subrange(0, k + 1 as int).last() == anillo0[k as int]);
            }
            let direccion = chars_de_cadena(self.nodos[k].1.as_str());
            if !textos_iguales(&direccion, &objetivo) {
                let ghost antes = nuevos@;
                nuevos.push((self.nodos[k].0, self.nodos[k].1.clone()));
                proof {
                    assert(nuevos@[nuevos@.len() - 1].0 == anillo0[k as int].0);
                    assert forall|x: int, y: int|
                        0 <= x < y < nuevos@.len() implies nuevos@[x].0 < nuevos@[y].0 by {
                        if y == nuevos@.len() - 1 && antes.len() > 0 {
                            let j = choose|j: int|
                                0 <= j < k && antes[antes.len() - 1] == anillo0[j];
                            if x == antes.len() - 1 {
                                assert(nuevos@[x].0 == anillo0[j].0);
                                assert(anillo0[j].0 < anillo0[k as int].0);
                            } else {
                                assert(nuevos@[x].0 < antes[antes.len() - 1].0);
                                assert(antes[antes.len() - 1].0 == anillo0[j].0);
                                assert(anillo0[j].0 < anillo0[k as int].0);
                            }
                        }
                    }
                    assert forall|x: int|
                        0 <= x < nuevos@.len() implies exists|j: int|
                            0 <= j < k + 1 && (#[trigger] nuevos@[x]) == anillo0[j] by {
                        if x < antes.len() {
                            let j = choose|j: int| 0 <= j < k && antes[x] == anillo0[j];
                            assert(nuevos@[x] == anillo0[j]);
                        } else {
                            assert(nuevos@[x] == anillo0[k as int]);
                        }
                    }
                    assert(nuevos@ =~= sin_direccion(
                        anillo0.subrange(0, k + 1 as int),
                        objetivo@,
                    ));
                }
            } else {
                proof {
                    assert(nuevos@ =~= sin_direccion(
                        anillo0.subrange(0, k + 1 as int),
                        objetivo@,
                    ));
                }
            }
            k += 1;
        }
        proof {
            assert(anillo0.subrange(0, anillo0.len() as int) =~= anillo0);
        }
        self.nodos = nuevos;
    }

    /// Put the address on the ring at its token: an entry with the same
    /// token is replaced, otherwise the entry takes its ordered place.
    #[verifier::loop_isolation(false)]
    pub fn poner_en_anillo(&mut self, token_remoto: u32, objetivo: &Vec<char>)
        requires
            forall|i: int, j: int|
                0 <= i < j < old(self).nodos@.len() ==> old(self).nodos@[i].0 < old(self).nodos@[j].0,
        ensures
            final(self).metadata_nodos == old(self).metadata_nodos,
            final(self).ip == old(self).ip,
            final(self).keyspaces == old(self).keyspaces,
            final(self).token == old(self).token,
            final(self).replicas == old(self).replicas,
            final(self).timestamp == old(self).timestamp,
            final(self).gossip_recientes == old(self).gossip_recientes,
            final(self).keyspace_actual == old(self).keyspace_actual,
            forall|x: int, y: int|
                0 <= x < y < final(self).nodos@.len() ==> final(self).nodos@[x].0 < final(self).nodos@[y].0,
            exists|x: int|
                0 <= x < final(self).nodos@.len() && (#[trigger] final(self).nodos@[x]).1@
                    == objetivo@,
            forall|x: int|
                0 <= x < final(self).nodos@.len() ==> ((#[trigger] final(self).nodos@[x]).1@
                    == objetivo@ || exists|j: int|
                    0 <= j < old(self).nodos@.len() && final(self).nodos@[x] == old(self).nodos@[j]),
            ({
                let q = posicion_token(old(self).nodos@, token_remoto);
                if q >= 0 {
                    &&& final(self).nodos@.len() == old(self).nodos@.len()
                    &&& forall|x: int|
                        0 <= x < old(self).nodos@.len() && x != q ==> final(self).nodos@[x]
                            == old(self).nodos@[x]
                    &&& final(self).nodos@[q].0 == token_remoto
                    &&& final(self).nodos@[q].1@ == objetivo@
                } else {
                    let p = if primer_token_mayor(old(self).nodos@, token_remoto) >= 0 {
                        primer_token_mayor(old(self).nodos@, token_remoto)
                    } else {
                        old(self).nodos@.len() as int
                    };
                    &&& final(self).nodos@.len() == old(self).nodos@.len() + 1
                    &&& forall|x: int| 0 <= x < p ==> final(self).nodos@[x] == old(self).nodos@[x]
                    &&& final(self).nodos@[p].0 == token_remoto
                    &&& final(self).nodos@[p].1@ == objetivo@
                    &&& forall|x: int|
                        p < x < final(self).nodos@.len() ==> final(self).nodos@[x] == old(self).nodos@[x - 1]
                }
            }),
    {
        proof {
            lema_primer_token(self.nodos@, token_remoto);
            lema_posicion_token(self.nodos@, token_remoto);
        }
        let ghost anillo0 = self.nodos@;
        let mut p: usize = 0;
        while p < self.nodos.len() && self.nodos[p].0 < token_remoto
            invariant
                0 <= p <= self.nodos@.len(),
                self.nodos@ == anillo0,
                *self == *old(self),
                forall|x: int| 0 <= x < p ==> (#[trigger] anillo0[x]).0 < token_remoto,
            decreases self.nodos@.len() - p,
        {
            p += 1;
        }
        let entrada = (token_remoto, cadena_de_chars(objetivo));
        proof {
            assert(entrada.1@ == objetivo@);
            let ptm = primer_token_mayor(anillo0, token_remoto);
            if p < anillo0.len() {
                if ptm != p {
                    if ptm < 0 {
                        assert(anillo0[p as int].0 < token_remoto);
                    } else if ptm < p {
                        assert(anillo0[ptm].0 < token_remoto);
                        assert(token_remoto <= anillo0[ptm].0);
                    } else {
                        assert(anillo0[p as int].0 < token_remoto);
                    }
                    assert(false);
                }
            } else {
                if ptm >= 0 {
                    assert(anillo0[ptm].0 < token_remoto);
                    assert(token_remoto <= anillo0[ptm].0);
                    assert(false);
                }
            }
        }
        if p < self.nodos.len() && self.nodos[p].0 == token_remoto {
            self.nodos.remove(p);
            self.nodos.insert(p, entrada);
            proof {
                assert forall|x: int|
                    0 <= x < anillo0.len() && x != p implies self.nodos@[x] == anillo0[x] by {
                    if x < p {
                        assert(anillo0.remove(p as int)[x] == anillo0[x]);
                    } else {
                        assert(anillo0.remove(p as int)[x - 1] == anillo0[x]);
                    }
                }
                assert(self.nodos@[p as int].0 == anillo0[p as int].0);
                assert forall|x: int, y: int|
                    0 <= x < y < self.nodos@.len() implies self.nodos@[x].0
                    < self.nodos@[y].0 by {
                    assert(self.nodos@[x].0 == anillo0[x].0);
                    assert(self.nodos@[y].0 == anillo0[y].0);
                }
                assert(self.nodos@[p as int].1@ == objetivo@);
                assert(posicion_token(anillo0, token_remoto) == p) by {
                    let q = posicion_token(anillo0, token_remoto);
                    if q < 0 {
                        assert(anillo0[p as int].0 != token_remoto);
                    } else if q < p {
                        assert(anillo0[q].0 == token_remoto);
                        assert(anillo0[q].0 < anillo0[p as int].0);
                    } else if q > p {
                        assert(anillo0[p as int].0 != token_remoto);
                    }
                }
            }
        } else {
            self.nodos.insert(p, entrada);
            proof {
                assert(posicion_token(anillo0, token_remoto) < 0) by {
                    let q = posicion_token(anillo0, token_remoto);
                    if q >= 0 {
                        assert(anillo0[q].0 == token_remoto);
                        if q < p {
                            assert(anillo0[q].0 < token_remoto);
                        } else if q == p {
                            assert(p < anillo0.len());
                        } else {
                            assert(p < anillo0.len());
                            assert(anillo0[p as int].0 >= token_remoto);
                            assert(anillo0[p as int].0 != token_remoto);
                            assert(anillo0[p as int].0 < anillo0[q].0);
                        }
                        assert(false);
                    }
                }
                assert forall|x: int, y: int|
                    0 <= x < y < self.nodos@.len() implies self.nodos@[x].0
                    < self.nodos@[y].0 by {
                    if y < p {
                        assert(self.nodos@[x] == anillo0[x]);
                        assert(self.nodos@[y] == anillo0[y]);
                    } else if x > p {
                        assert(self.nodos@[x] == anillo0[x - 1]);
                        assert(self.nodos@[y] == anillo0[y - 1]);
                    } else if y == p {
                        assert(self.nodos@[x] == anillo0[x]);
                        assert(anillo0[x].0 < token_remoto);
                    } else if x == p {
                        assert(self.nodos@[y] == anillo0[y - 1]);
                        assert(anillo0[y - 1].0 >= token_remoto);
                        assert(anillo0[y - 1].0 != token_remoto);
                    } else {
                        assert(self.nodos@[x] == anillo0[x]);
                        assert(self.nodos@[y] == anillo0[y - 1]);
                        assert(anillo0[x].0 < token_remoto);
                        assert(anillo0[y - 1].0 >= token_remoto);
                    }
                }
                assert(self.nodos@[p as int].1@ == objetivo@);
                assert forall|x: int|
                    0 <= x < self.nodos@.len() implies ((#[trigger] self.nodos@[x]).1@
                    == objetivo@ || exists|j: int|
                    0 <= j < anillo0.len() && self.nodos@[x] == anillo0[j]) by {
                    if x < p {
                        assert(self.nodos@[x] == anillo0[x]);
                    } else if x > p {
                        assert(self.nodos@[x] == anillo0[x - 1]);
                    }
                }
            }
        }
    }
}

/// A metadata change that keeps every address at its place, and at most
/// appends a fresh one, keeps every address's index.
pub proof fn lema_indices_tras_cambio(
    md0: Seq<(String, EndpointData)>,
    md1: Seq<(String, EndpointData)>,
    ip: Seq<char>,
)
    requires
        md1.len() == md0.len() || md1.len() == md0.len() + 1,
        forall|k: int| 0 <= k < md0.len() ==> (#[trigger] md1[k]).0@ == md0[k].0@,
    ensures
        forall|dir: Seq<char>|
            indice_metadata(md0, dir) >= 0 ==> #[trigger] indice_metadata(md1, dir)
                == indice_metadata(md0, dir),
    decreases md0.len(),
{
    assert forall|dir: Seq<char>|
        indice_metadata(md0, dir) >= 0 implies #[trigger] indice_metadata(md1, dir)
        == indice_metadata(md0, dir) by {
        lema_indice_metadata(md0, dir);
        lema_indice_metadata(md1, dir);
        let m0 = indice_metadata(md0, dir);
        let m1 = indice_metadata(md1, dir);
        assert(md1[m0].0@ == dir);
        if m1 < 0 {
            assert(false);
        }
        if m1 < m0 {
            if m1 < md0.len() {
                assert(md0[m1].0@ == md1[m1].0@);
                assert(false);
            }
            assert(false);
        }
        if m1 > m0 {
            assert(false);
        }
    }
}

/// The updated or appended record is found under its address.
pub proof fn lema_indice_en_metadata(
    md: Seq<(String, EndpointData)>,
    ip: Seq<char>,
    i: int,
    encontrado: bool,
    largo_viejo: int,
)
    requires
        encontrado ==> 0 <= i < md.len() && md[i].0@ == ip,
        !encontrado ==> md.len() == largo_viejo + 1 && md[largo_viejo].0@ == ip,
        md.len() > 0,
    ensures
        indice_metadata(md, ip) >= 0,
    decreases md.len(),
{
    lema_indice_metadata(md, ip);
    if indice_metadata(md, ip) < 0 {
        if encontrado {
            assert(md[i].0@ != ip);
        } else {
            assert(md[largo_viejo].0@ != ip);
        }
        assert(false);
    }
}

/// The one-peer model of a gossip exchange: what both sides hold for a
/// peer known to both once the handshake ends.  The strictly fresher
/// record wins; on an equal heartbeat the target's record is sent back
/// and adopted.  The executable carriers of this rule are
/// `decidir_entrada`, which picks the winning side with the same
/// freshness test, and `aplicar_estado_remoto`, which installs the
/// winning record on whichever side was behind.
pub open spec fn tras_ronda(
    inicial: (u64, u32, NodeStatus),
    destino: (u64, u32, NodeStatus),
) -> ((u64, u32, NodeStatus), (u64, u32, NodeStatus)) {
    if mas_fresco(inicial.0 as int, inicial.1 as int, destino.0 as int, destino.1 as int) {
        (inicial, inicial)
    } else {
        (destino, destino)
    }
}

/// In the model above, one round leaves both sides equal: generation,
/// version and status agree for every peer known to both.  This is a
/// statement about the model; the session loop around the executable
/// pieces stands outside the library.
pub proof fn lema_convergencia_gossip(
    inicial: (u64, u32, NodeStatus),
    destino: (u64, u32, NodeStatus),
)
    ensures
        tras_ronda(inicial, destino).0 == tras_ronda(inicial, destino).1,
{
}

/// Whether the digest pair of the initiator is strictly fresher than the
/// target's: then the target is behind and asks for the full record.
pub fn destino_atrasado(gen_i: u64, ver_i: u32, gen_t: u64, ver_t: u32) -> (r: bool)
    ensures
        r == mas_fresco(gen_i as int, ver_i as int, gen_t as int, ver_t as int),
{
    gen_i > gen_t || (gen_i == gen_t && ver_i > ver_t)
}

} // verus!
