//! Verified text utilities over character vectors.
//!
//! Rows, queries and gossip digests in this crate are comma- or
//! keyword-separated strings.  This module gives splitting, joining,
//! trimming, searching and decimal parsing a mathematical meaning over
//! `Seq<char>` and proves the executable routines against it.

use vstd::prelude::*;

verus! {

/// A blank character: the separators the statement grammar treats as spacing.
pub open spec fn es_blanco(c: char) -> bool {
    c == ' ' || c == '\n' || c == '\t' || c == '\r'
}

/// Whether `pat` occurs in `s` starting at position `i`.
pub open spec fn ocurre_en(s: Seq<char>, pat: Seq<char>, i: int) -> bool {
    0 <= i && i + pat.len() <= s.len() && s.subrange(i, i + pat.len()) == pat
}

/// Position of the first occurrence of `pat` in `s`, or -1 when absent.
pub open spec fn primera_ocurrencia(s: Seq<char>, pat: Seq<char>) -> int
    recommends
        pat.len() > 0,
    decreases s.len(),
{
    if pat.len() == 0 {
        0
    } else if s.len() < pat.len() {
        -1
    } else if s.subrange(0, pat.len() as int) == pat {
        0
    } else {
        let r = primera_ocurrencia(s.drop_first(), pat);
        if r < 0 {
            -1
        } else {
            1 + r
        }
    }
}

/// `primera_ocurrencia` finds exactly the first occurrence.
pub proof fn lema_primera_ocurrencia(s: Seq<char>, pat: Seq<char>)
    requires
        pat.len() > 0,
    ensures
        primera_ocurrencia(s, pat) == -1 ==> forall|i: int| !ocurre_en(s, pat, i),
        primera_ocurrencia(s, pat) >= 0 ==> {
            &&& ocurre_en(s, pat, primera_ocurrencia(s, pat))
            &&& forall|i: int| 0 <= i < primera_ocurrencia(s, pat) ==> !ocurre_en(s, pat, i)
        },
    decreases s.len(),
{
    if s.len() < pat.len() {
    } else if s.subrange(0, pat.len() as int) == pat {
    } else {
        lema_primera_ocurrencia(s.drop_first(), pat);
        let r = primera_ocurrencia(s.drop_first(), pat);
        assert(!ocurre_en(s, pat, 0));
        assert forall|i: int| 1 <= i && i + pat.len() <= s.len() implies (ocurre_en(s, pat, i)
            <==> ocurre_en(s.drop_first(), pat, i - 1)) by {
            assert(s.drop_first().subrange(i - 1, i - 1 + pat.len()) =~= s.subrange(
                i,
                i + pat.len(),
            ));
        }
        if r < 0 {
            assert forall|i: int| !ocurre_en(s, pat, i) by {
                if 1 <= i && i + pat.len() <= s.len() {
                    assert(!ocurre_en(s.drop_first(), pat, i - 1));
                }
            }
        } else {
            assert(ocurre_en(s.drop_first(), pat, r));
            assert(ocurre_en(s, pat, r + 1));
            assert forall|i: int| 0 <= i < r + 1 implies !ocurre_en(s, pat, i) by {
                if 1 <= i {
                    assert(!ocurre_en(s.drop_first(), pat, i - 1));
                }
            }
        }
    }
}

/// Whether `pat` matches the characters of `s` at position `i`.
pub fn coincide_en(s: &Vec<char>, pat: &Vec<char>, i: usize) -> (r: bool)
    requires
        i + pat@.len() <= s@.len(),
    ensures
        r <==> ocurre_en(s@, pat@, i as int),
{
    let largo = s.len();
    let mut j: usize = 0;
    while j < pat.len()
        invariant
            0 <= j <= pat@.len(),
            i + pat@.len() <= s@.len(),
            largo == s@.len(),
            forall|k: int| 0 <= k < j ==> s@[i + k] == pat@[k],
        decreases pat@.len() - j,
    {
        if s[i + j] != pat[j] {
            proof {
                if ocurre_en(s@, pat@, i as int) {
                    assert(s@.subrange(i as int, i + pat@.len())[j as int] == pat@[j as int]);
                }
            }
            return false;
        }
        j += 1;
    }
    proof {
        assert(s@.subrange(i as int, i + pat@.len()) =~= pat@);
    }
    true
}

/// First position where `pat` occurs in `s`, if any.
pub fn buscar(s: &Vec<char>, pat: &Vec<char>) -> (r: Option<usize>)
    requires
        pat@.len() > 0,
    ensures
        match r {
            Some(i) => i == primera_ocurrencia(s@, pat@),
            None => primera_ocurrencia(s@, pat@) == -1,
        },
{
    proof {
        lema_primera_ocurrencia(s@, pat@);
    }
    if s.len() < pat.len() {
        return None;
    }
    let tope: usize = s.len() - pat.len();
    let mut i: usize = 0;
    loop
        invariant
            pat@.len() > 0,
            s@.len() <= usize::MAX,
            tope == s@.len() - pat@.len(),
            0 <= i <= tope + 1,
            forall|k: int| 0 <= k < i ==> !ocurre_en(s@, pat@, k),
        decreases tope + 1 - i,
    {
        if i > tope {
            proof {
                lema_primera_ocurrencia(s@, pat@);
                if primera_ocurrencia(s@, pat@) >= 0 {
                    assert(ocurre_en(s@, pat@, primera_ocurrencia(s@, pat@)));
                }
            }
            return None;
        }
        if coincide_en(s, pat, i) {
            proof {
                lema_primera_ocurrencia(s@, pat@);
                if primera_ocurrencia(s@, pat@) < 0 {
                    assert(ocurre_en(s@, pat@, i as int));
                }
            }
            return Some(i);
        }
        i += 1;
    }
}

/// Whether `pat` occurs anywhere in `s`.
pub open spec fn contiene(s: Seq<char>, pat: Seq<char>) -> bool {
    exists|i: int| ocurre_en(s, pat, i)
}

/// The pieces of `s` between occurrences of the separator `sep`.
pub open spec fn dividir(s: Seq<char>, sep: Seq<char>) -> Seq<Seq<char>>
    recommends
        sep.len() > 0,
    decreases s.len(),
{
    if sep.len() == 0 {
        seq![s]
    } else {
        let i = primera_ocurrencia(s, sep);
        if i < 0 || i + sep.len() > s.len() {
            seq![s]
        } else {
            seq![s.subrange(0, i)] + dividir(s.subrange(i + sep.len(), s.len() as int), sep)
        }
    }
}

/// The pieces of `partes` glued together with `sep` between neighbours.
pub open spec fn unir(partes: Seq<Seq<char>>, sep: Seq<char>) -> Seq<char>
    decreases partes.len(),
{
    if partes.len() == 0 {
        Seq::empty()
    } else if partes.len() == 1 {
        partes[0]
    } else {
        partes[0] + sep + unir(partes.drop_first(), sep)
    }
}

/// Splitting yields at least one piece.
pub proof fn lema_dividir_no_vacio(s: Seq<char>, sep: Seq<char>)
    ensures
        dividir(s, sep).len() >= 1,
{
}

/// Appending one more piece extends the joined text by a separator and the piece.
pub proof fn lema_unir_empuja(ps: Seq<Seq<char>>, p: Seq<char>, sep: Seq<char>)
    ensures
        ps.len() == 0 ==> unir(ps.push(p), sep) == p,
        ps.len() > 0 ==> unir(ps.push(p), sep) == unir(ps, sep) + sep + p,
    decreases ps.len(),
{
    if ps.len() == 0 {
        assert(ps.push(p)[0] == p);
    } else if ps.len() == 1 {
        assert(ps.push(p).drop_first() =~= seq![p]);
        assert(unir(seq![p], sep) == p);
        assert(ps.push(p)[0] == ps[0]);
    } else {
        lema_unir_empuja(ps.drop_first(), p, sep);
        assert(ps.push(p).drop_first() =~= ps.drop_first().push(p));
        assert(ps.push(p)[0] == ps[0]);
        assert((ps[0] + sep + (unir(ps.drop_first(), sep) + sep + p)) =~= ((ps[0] + sep + unir(
            ps.drop_first(),
            sep,
        )) + sep + p));
    }
}

/// Joining the pieces of a split restores the original text.
pub proof fn lema_unir_dividir(s: Seq<char>, sep: Seq<char>)
    requires
        sep.len() > 0,
    ensures
        unir(dividir(s, sep), sep) == s,
    decreases s.len(),
{
    lema_primera_ocurrencia(s, sep);
    let i = primera_ocurrencia(s, sep);
    if i < 0 || i + sep.len() > s.len() {
    } else {
        let resto = s.subrange(i + sep.len(), s.len() as int);
        lema_unir_dividir(resto, sep);
        lema_dividir_no_vacio(resto, sep);
        let ps = seq![s.subrange(0, i)] + dividir(resto, sep);
        assert(ps.drop_first() =~= dividir(resto, sep));
        assert(ps.len() >= 2);
        assert(unir(ps, sep) == s.subrange(0, i) + sep + unir(dividir(resto, sep), sep));
        assert(ocurre_en(s, sep, i));
        assert(s.subrange(0, i) + sep + resto =~= s);
    }
}

/// For a one-character separator that occurs in no piece, splitting the
/// joined text restores the pieces.
pub proof fn lema_dividir_unir(ps: Seq<Seq<char>>, sep: Seq<char>)
    requires
        sep.len() == 1,
        ps.len() >= 1,
        forall|k: int| 0 <= k < ps.len() ==> !contiene(#[trigger] ps[k], sep),
    ensures
        dividir(unir(ps, sep), sep) == ps,
    decreases ps.len(),
{
    lema_primera_ocurrencia(unir(ps, sep), sep);
    if ps.len() == 1 {
        let s = ps[0];
        if primera_ocurrencia(s, sep) >= 0 {
            assert(ocurre_en(s, sep, primera_ocurrencia(s, sep)));
            assert(contiene(ps[0], sep));
        }
        assert(dividir(s, sep) =~= ps);
    } else {
        let s = unir(ps, sep);
        let resto = unir(ps.drop_first(), sep);
        assert(s == ps[0] + sep + resto);
        let n = ps[0].len() as int;
        assert(ocurre_en(s, sep, n)) by {
            assert(s.subrange(n, n + 1) =~= sep);
        }
        assert forall|j: int| 0 <= j < n implies !ocurre_en(s, sep, j) by {
            if ocurre_en(s, sep, j) {
                assert(s.subrange(j, j + 1)[0] == s[j]);
                assert(s[j] == ps[0][j]);
                assert(ocurre_en(ps[0], sep, j)) by {
                    assert(ps[0].subrange(j, j + 1) =~= sep);
                }
                assert(contiene(ps[0], sep));
            }
        }
        let i = primera_ocurrencia(s, sep);
        if i < 0 {
            assert(!ocurre_en(s, sep, n));
            assert(false);
        }
        if i < n {
            assert(!ocurre_en(s, sep, i));
            assert(false);
        }
        if i > n {
            assert(!ocurre_en(s, sep, n));
            assert(false);
        }
        assert(i == n);
        assert(s.subrange(0, n) =~= ps[0]);
        assert(s.subrange(n + 1, s.len() as int) =~= resto);
        assert(forall|k: int|
            0 <= k < ps.drop_first().len() ==> !contiene(#[trigger] ps.drop_first()[k], sep));
        lema_dividir_unir(ps.drop_first(), sep);
        assert(dividir(s, sep) =~= seq![ps[0]] + ps.drop_first());
        assert(seq![ps[0]] + ps.drop_first() =~= ps);
    }
}

/// Copy of the characters of `s` from `desde` up to `hasta`.
pub fn subvec(s: &Vec<char>, desde: usize, hasta: usize) -> (r: Vec<char>)
    requires
        desde <= hasta <= s@.len(),
    ensures
        r@ == s@.subrange(desde as int, hasta as int),
{
    let mut r: Vec<char> = Vec::new();
    let mut i: usize = desde;
    while i < hasta
        invariant
            desde <= i <= hasta <= s@.len(),
            r@ == s@.subrange(desde as int, i as int),
        decreases hasta - i,
    {
        r.push(s[i]);
        proof {
            assert(s@.subrange(desde as int, i + 1 as int) =~= s@.subrange(
                desde as int,
                i as int,
            ).push(s@[i as int]));
        }
        i += 1;
    }
    r
}

/// Append the characters of `otro` to `r`.
pub fn extender(r: &mut Vec<char>, otro: &Vec<char>)
    ensures
        final(r)@ == old(r)@ + otro@,
{
    let mut i: usize = 0;
    while i < otro.len()
        invariant
            0 <= i <= otro@.len(),
            r@ == old(r)@ + otro@.subrange(0, i as int),
        decreases otro@.len() - i,
    {
        r.push(otro[i]);
        proof {
            assert(old(r)@ + otro@.subrange(0, i + 1 as int) =~= (old(r)@ + otro@.subrange(
                0,
                i as int,
            )).push(otro@[i as int]));
        }
        i += 1;
    }
    proof {
        assert(r@ =~= old(r)@ + otro@);
    }
}

/// Split `s` at each occurrence of `sep`.
pub fn dividir_texto(s: &Vec<char>, sep: &Vec<char>) -> (r: Vec<Vec<char>>)
    requires
        sep@.len() > 0,
    ensures
        r.deep_view() == dividir(s@, sep@),
{
    let mut partes: Vec<Vec<char>> = Vec::new();
    let mut resto: Vec<char> = subvec(s, 0, s.len());
    proof {
        assert(resto@ =~= s@);
    }
    loop
        invariant
            sep@.len() > 0,
            dividir(s@, sep@) == partes.deep_view() + dividir(resto@, sep@),
        decreases resto@.len(),
    {
        let ghost partes_antes = partes.deep_view();
        match buscar(&resto, sep) {
            None => {
                let ghost resto_vista = resto@;
                partes.push(resto);
                proof {
                    assert(dividir(resto_vista, sep@) == seq![resto_vista]);
                    assert(partes.deep_view() =~~= partes_antes + seq![resto_vista]);
                    assert(partes.deep_view() =~~= dividir(s@, sep@));
                }
                return partes;
            },
            Some(i) => {
                proof {
                    lema_primera_ocurrencia(resto@, sep@);
                    assert(ocurre_en(resto@, sep@, i as int));
                }
                let fin = resto.len();
                let parte = subvec(&resto, 0, i);
                let nuevo = subvec(&resto, i + sep.len(), fin);
                partes.push(parte);
                proof {
                    assert(partes.deep_view() =~~= partes_antes + seq![resto@.subrange(0, i as int)]);
                    assert(dividir(resto@, sep@) == seq![resto@.subrange(0, i as int)] + dividir(
                        nuevo@,
                        sep@,
                    ));
                    assert(partes_antes + dividir(resto@, sep@) =~~= partes.deep_view() + dividir(
                        nuevo@,
                        sep@,
                    ));
                }
                resto = nuevo;
            },
        }
    }
}

/// Join the pieces of `partes` with `sep` between neighbours.
pub fn unir_texto(partes: &Vec<Vec<char>>, sep: &Vec<char>) -> (r: Vec<char>)
    ensures
        r@ == unir(partes.deep_view(), sep@),
{
    let mut r: Vec<char> = Vec::new();
    let mut k: usize = 0;
    while k < partes.len()
        invariant
            0 <= k <= partes@.len(),
            r@ == unir(partes.deep_view().subrange(0, k as int), sep@),
        decreases partes@.len() - k,
    {
        if k > 0 {
            extender(&mut r, sep);
        }
        extender(&mut r, &partes[k]);
        proof {
            let pref = partes.deep_view().subrange(0, k as int);
            lema_unir_empuja(pref, partes.deep_view()[k as int], sep@);
            assert(partes.deep_view().subrange(0, k + 1 as int) =~= pref.push(
                partes.deep_view()[k as int],
            ));
        }
        k += 1;
    }
    proof {
        assert(partes.deep_view().subrange(0, partes.deep_view().len() as int) =~= partes.deep_view());
    }
    r
}

/// `s` without its leading blanks.
pub open spec fn sin_blancos_inicio(s: Seq<char>) -> Seq<char>
    decreases s.len(),
{
    if s.len() > 0 && es_blanco(s[0]) {
        sin_blancos_inicio(s.drop_first())
    } else {
        s
    }
}

/// `s` without its trailing blanks.
pub open spec fn sin_blancos_fin(s: Seq<char>) -> Seq<char>
    decreases s.len(),
{
    if s.len() > 0 && es_blanco(s.last()) {
        sin_blancos_fin(s.drop_last())
    } else {
        s
    }
}

/// `s` without leading or trailing blanks.
pub open spec fn recortar(s: Seq<char>) -> Seq<char> {
    sin_blancos_fin(sin_blancos_inicio(s))
}

proof fn lema_sbi(s: Seq<char>, a: int)
    requires
        0 <= a <= s.len(),
        forall|k: int| 0 <= k < a ==> es_blanco(s[k]),
        a == s.len() || !es_blanco(s[a]),
    ensures
        sin_blancos_inicio(s) == s.subrange(a, s.len() as int),
    decreases a,
{
    if a == 0 {
        assert(s.subrange(0, s.len() as int) =~= s);
    } else {
        lema_sbi(s.drop_first(), a - 1);
        assert(s.drop_first().subrange(a - 1, s.drop_first().len() as int) =~= s.subrange(
            a,
            s.len() as int,
        ));
    }
}

proof fn lema_sbf(s: Seq<char>, b: int)
    requires
        0 <= b <= s.len(),
        forall|k: int| b <= k < s.len() ==> es_blanco(s[k]),
        b == 0 || !es_blanco(s[b - 1]),
    ensures
        sin_blancos_fin(s) == s.subrange(0, b),
    decreases s.len() - b,
{
    if b == s.len() {
        assert(s.subrange(0, b) =~= s);
    } else {
        lema_sbf(s.drop_last(), b);
        assert(s.drop_last().subrange(0, b) =~= s.subrange(0, b));
    }
}

/// When everything from `b` on is blank and the character before `b`
/// is not, dropping trailing blanks leaves exactly the prefix.
pub proof fn lema_recorte_fin(s: Seq<char>, b: int)
    requires
        0 <= b <= s.len(),
        forall|k: int| b <= k < s.len() ==> es_blanco(s[k]),
        b == 0 || !es_blanco(s[b - 1]),
    ensures
        sin_blancos_fin(s) == s.subrange(0, b),
{
    lema_sbf(s, b);
}

/// Whether `c` is spacing, executably.
pub fn es_blanco_car(c: char) -> (r: bool)
    ensures
        r == es_blanco(c),
{
    c == ' ' || c == '\n' || c == '\t' || c == '\r'
}

/// Copy of `s` without leading or trailing blanks.
pub fn recortar_texto(s: &Vec<char>) -> (r: Vec<char>)
    ensures
        r@ == recortar(s@),
{
    let mut a: usize = 0;
    while a < s.len() && es_blanco_car(s[a])
        invariant
            0 <= a <= s@.len(),
            forall|k: int| 0 <= k < a ==> es_blanco(s@[k]),
        decreases s@.len() - a,
    {
        a += 1;
    }
    proof {
        lema_sbi(s@, a as int);
    }
    if a == s.len() {
        proof {
            assert(sin_blancos_inicio(s@) =~= Seq::<char>::empty());
        }
        let r: Vec<char> = Vec::new();
        return r;
    }
    let mut b: usize = s.len();
    while b > a && es_blanco_car(s[b - 1])
        invariant
            a <= b <= s@.len(),
            forall|k: int| b <= k < s@.len() ==> es_blanco(s@[k]),
        decreases b,
    {
        b -= 1;
    }
    proof {
        let medio = s@.subrange(a as int, s@.len() as int);
        lema_sbf(medio, b - a);
        assert(medio.subrange(0, b - a) =~= s@.subrange(a as int, b as int));
    }
    subvec(s, a, b)
}

/// Each blank character replaced by a plain space.
pub open spec fn normalizar(s: Seq<char>) -> Seq<char> {
    s.map(|_i: int, c: char| if es_blanco(c) { ' ' } else { c })
}

/// The non-empty pieces of `ps`.
pub open spec fn no_vacias(ps: Seq<Seq<char>>) -> Seq<Seq<char>>
    decreases ps.len(),
{
    if ps.len() == 0 {
        Seq::empty()
    } else if ps[0].len() == 0 {
        no_vacias(ps.drop_first())
    } else {
        seq![ps[0]] + no_vacias(ps.drop_first())
    }
}

proof fn lema_no_vacias_empuja(ps: Seq<Seq<char>>, p: Seq<char>)
    ensures
        p.len() == 0 ==> no_vacias(ps.push(p)) == no_vacias(ps),
        p.len() > 0 ==> no_vacias(ps.push(p)) == no_vacias(ps) + seq![p],
    decreases ps.len(),
{
    if ps.len() == 0 {
        assert(ps.push(p).drop_first() =~~= ps);
        assert(ps.push(p)[0] == p);
        if p.len() > 0 {
            assert(seq![p] + no_vacias(ps) =~~= no_vacias(ps) + seq![p]);
        }
    } else {
        lema_no_vacias_empuja(ps.drop_first(), p);
        assert(ps.push(p).drop_first() =~~= ps.drop_first().push(p));
        assert(ps.push(p)[0] == ps[0]);
        if ps[0].len() != 0 && p.len() > 0 {
            assert(seq![ps[0]] + (no_vacias(ps.drop_first()) + seq![p]) =~~= (seq![ps[0]]
                + no_vacias(ps.drop_first())) + seq![p]);
        }
    }
}

/// The blank-separated words of `s`.
pub open spec fn palabras(s: Seq<char>) -> Seq<Seq<char>> {
    no_vacias(dividir(normalizar(s), seq![' ']))
}

/// The blank-separated words of `s`, executably.
pub fn palabras_de(s: &Vec<char>) -> (r: Vec<Vec<char>>)
    ensures
        r.deep_view() == palabras(s@),
{
    let mut normal: Vec<char> = Vec::new();
    let mut i: usize = 0;
    while i < s.len()
        invariant
            0 <= i <= s@.len(),
            normal@ == normalizar(s@.subrange(0, i as int)),
        decreases s@.len() - i,
    {
        if es_blanco_car(s[i]) {
            normal.push(' ');
        } else {
            normal.push(s[i]);
        }
        proof {
            assert(normalizar(s@.subrange(0, i + 1 as int)) =~= normalizar(
                s@.subrange(0, i as int),
            ).push(if es_blanco(s@[i as int]) {
                ' '
            } else {
                s@[i as int]
            }));
        }
        i += 1;
    }
    proof {
        assert(s@.subrange(0, s@.len() as int) =~= s@);
    }
    let espacio: Vec<char> = vec![' '];
    let piezas = dividir_texto(&normal, &espacio);
    let mut r: Vec<Vec<char>> = Vec::new();
    let mut k: usize = 0;
    while k < piezas.len()
        invariant
            0 <= k <= piezas@.len(),
            r.deep_view() == no_vacias(piezas.deep_view().subrange(0, k as int)),
        decreases piezas@.len() - k,
    {
        let ghost pref = piezas.deep_view().subrange(0, k as int);
        proof {
            lema_no_vacias_empuja(pref, piezas.deep_view()[k as int]);
            assert(piezas.deep_view().subrange(0, k + 1 as int) =~~= pref.push(
                piezas.deep_view()[k as int],
            ));
        }
        if piezas[k].len() > 0 {
            let pieza = subvec(&piezas[k], 0, piezas[k].len());
            proof {
                assert(pieza@ =~= piezas.deep_view()[k as int]);
            }
            r.push(pieza);
            proof {
                assert(r.deep_view() =~~= no_vacias(pref) + seq![piezas.deep_view()[k as int]]);
            }
        }
        k += 1;
    }
    proof {
        assert(piezas.deep_view().subrange(0, piezas.deep_view().len() as int) =~~= piezas.deep_view());
        assert(espacio@ =~= seq![' ']);
    }
    r
}

/// A decimal digit.
pub open spec fn es_digito(c: char) -> bool {
    48 <= c as u32 && c as u32 <= 57
}

/// A non-empty, all-digit text.
pub open spec fn es_natural(s: Seq<char>) -> bool {
    s.len() > 0 && forall|i: int| 0 <= i < s.len() ==> es_digito(s[i])
}

/// The number the digit text `s` denotes, most significant digit first.
pub open spec fn valor_decimal(s: Seq<char>) -> int
    decreases s.len(),
{
    if s.len() == 0 {
        0
    } else {
        valor_decimal(s.drop_last()) * 10 + (s.last() as u32 - 48)
    }
}

proof fn lema_valor_no_negativo(s: Seq<char>)
    requires
        forall|i: int| 0 <= i < s.len() ==> es_digito(s[i]),
    ensures
        valor_decimal(s) >= 0,
    decreases s.len(),
{
    if s.len() > 0 {
        lema_valor_no_negativo(s.drop_last());
    }
}

proof fn lema_valor_prefijo(s: Seq<char>, k: int)
    requires
        forall|i: int| 0 <= i < s.len() ==> es_digito(s[i]),
        0 <= k <= s.len(),
    ensures
        valor_decimal(s.subrange(0, k)) <= valor_decimal(s),
    decreases s.len() - k,
{
    if k == s.len() {
        assert(s.subrange(0, k) =~= s);
    } else {
        lema_valor_prefijo(s, k + 1);
        let t = s.subrange(0, k + 1);
        assert(t.drop_last() =~= s.subrange(0, k));
        lema_valor_no_negativo(s.subrange(0, k));
        assert(valor_decimal(t) == valor_decimal(s.subrange(0, k)) * 10 + (t.last() as u32 - 48));
    }
}

/// Parse an unsigned decimal number; `None` on empty, non-digit or
/// overflowing input.
pub fn parsear_natural(s: &Vec<char>) -> (r: Option<u64>)
    ensures
        match r {
            Some(n) => es_natural(s@) && n == valor_decimal(s@),
            None => !(es_natural(s@) && valor_decimal(s@) <= u64::MAX),
        },
{
    if s.len() == 0 {
        return None;
    }
    let mut acc: u64 = 0;
    let mut i: usize = 0;
    while i < s.len()
        invariant
            0 <= i <= s@.len(),
            s@.len() > 0,
            forall|k: int| 0 <= k < i ==> es_digito(s@[k]),
            acc == valor_decimal(s@.subrange(0, i as int)),
        decreases s@.len() - i,
    {
        let c = s[i];
        let cu = c as u32;
        if cu < 48 || cu > 57 {
            return None;
        }
        let d: u64 = (cu - 48) as u64;
        proof {
            assert(s@.subrange(0, i + 1 as int).drop_last() =~= s@.subrange(0, i as int));
        }
        if acc > (u64::MAX - d) / 10 {
            proof {
                let t = s@.subrange(0, i + 1 as int);
                assert(valor_decimal(t) == acc * 10 + d);
                if es_natural(s@) {
                    lema_valor_prefijo(s@, i + 1);
                }
            }
            return None;
        }
        acc = acc * 10 + d;
        i += 1;
    }
    proof {
        assert(s@.subrange(0, s@.len() as int) =~= s@);
    }
    Some(acc)
}

/// Digits of `n` in decimal, most significant first, without leading zeroes.
pub open spec fn es_decimal_de(s: Seq<char>, n: int) -> bool {
    es_natural(s) && valor_decimal(s) == n && (s.len() > 1 ==> s[0] != '0')
}

/// The number a least-significant-first digit text denotes.
pub open spec fn valor_invertido(s: Seq<char>) -> int
    decreases s.len(),
{
    if s.len() == 0 {
        0
    } else {
        (s[0] as u32 - 48) + 10 * valor_invertido(s.drop_first())
    }
}

proof fn lema_valor_invertido(s: Seq<char>)
    ensures
        valor_invertido(s) == valor_decimal(s.reverse()),
    decreases s.len(),
{
    if s.len() > 0 {
        lema_valor_invertido(s.drop_first());
        assert(s.reverse().drop_last() =~= s.drop_first().reverse());
        assert(s.reverse().last() == s[0]);
    }
}

/// Render `n` as decimal digits.
pub fn texto_de_natural(n: u64) -> (r: Vec<char>)
    ensures
        es_decimal_de(r@, n as int),
{
    let mut resto: u64 = n;
    let mut lsd: Vec<char> = Vec::new();
    loop
        invariant
            n == valor_invertido(lsd@) + resto * pot10(lsd@.len() as nat),
            forall|k: int| 0 <= k < lsd@.len() ==> es_digito(lsd@[k]),
            (resto == 0 && lsd@.len() > 1) ==> lsd@.last() != '0',
        ensures
            n == valor_invertido(lsd@),
            lsd@.len() > 0,
            forall|k: int| 0 <= k < lsd@.len() ==> es_digito(lsd@[k]),
            lsd@.len() > 1 ==> lsd@.last() != '0',
        decreases resto, (if lsd@.len() == 0 { 1int } else { 0int }),
    {
        if resto == 0 && lsd.len() > 0 {
            break;
        }
        let d: u64 = resto % 10;
        let c: char = ((d as u8) + 48) as char;
        proof {
            assert(48 <= (d + 48) < 58);
            assert(c as u32 == d + 48);
            lema_pot10_paso(lsd@.len() as nat);
            lema_valor_invertido_empuja(lsd@, c);
            let q = (resto / 10) as int;
            let p = pot10(lsd@.len() as nat);
            assert(resto == 10 * q + d);
            assert((10 * q + d) * p == d * p + q * (10 * p)) by (nonlinear_arith);
        }
        lsd.push(c);
        resto = resto / 10;
    }
    let mut r: Vec<char> = Vec::new();
    let mut i: usize = lsd.len();
    while i > 0
        invariant
            0 <= i <= lsd@.len(),
            r@ == lsd@.subrange(i as int, lsd@.len() as int).reverse(),
        decreases i,
    {
        i -= 1;
        r.push(lsd[i]);
        proof {
            assert(lsd@.subrange(i as int, lsd@.len() as int).reverse() =~= lsd@.subrange(
                i + 1,
                lsd@.len() as int,
            ).reverse().push(lsd@[i as int]));
        }
    }
    proof {
        assert(lsd@.subrange(0, lsd@.len() as int) =~= lsd@);
        lema_valor_invertido(lsd@);
        assert(r@ =~= lsd@.reverse());
        assert(valor_invertido(lsd@) == n);
        assert(valor_decimal(r@) == n);
        if r@.len() > 1 {
            assert(r@[0] == lsd@.last());
        }
        assert forall|k: int| 0 <= k < r@.len() implies es_digito(#[trigger] r@[k]) by {
            assert(r@[k] == lsd@[lsd@.len() - 1 - k]);
        }
    }
    r
}

/// Ten to the power `e`.
pub open spec fn pot10(e: nat) -> int
    decreases e,
{
    if e == 0 {
        1
    } else {
        10 * pot10((e - 1) as nat)
    }
}

proof fn lema_pot10_paso(e: nat)
    ensures
        pot10(e + 1) == 10 * pot10(e),
        pot10(e) >= 1,
    decreases e,
{
    if e > 0 {
        lema_pot10_paso((e - 1) as nat);
    }
}

proof fn lema_valor_invertido_empuja(s: Seq<char>, c: char)
    ensures
        valor_invertido(s.push(c)) == valor_invertido(s) + (c as u32 - 48) * pot10(s.len() as nat),
    decreases s.len(),
{
    lema_pot10_paso(s.len() as nat);
    if s.len() == 0 {
        assert(s.push(c).drop_first() =~= Seq::<char>::empty());
        assert(s.push(c)[0] == c);
        assert(valor_invertido(Seq::<char>::empty()) == 0);
        assert(valor_invertido(s) == 0);
    } else {
        lema_valor_invertido_empuja(s.drop_first(), c);
        assert(s.push(c).drop_first() =~= s.drop_first().push(c));
        assert(s.push(c)[0] == s[0]);
        lema_pot10_paso((s.len() - 1) as nat);
        let vi = valor_invertido(s.drop_first());
        let k = c as u32 - 48;
        let p = pot10((s.len() - 1) as nat);
        assert(valor_invertido(s.push(c)) == (s[0] as u32 - 48) + 10 * (vi + k * p));
        assert(10 * (vi + k * p) == 10 * vi + k * (10 * p)) by (nonlinear_arith);
        assert(pot10(s.len() as nat) == 10 * p);
    }
}

/// A decimal integer: digits with an optional leading minus sign.
pub open spec fn es_entero(s: Seq<char>) -> bool {
    es_natural(s) || (s.len() > 1 && s[0] == '-' && es_natural(s.drop_first()))
}

/// The value a decimal integer text denotes.
pub open spec fn valor_entero(s: Seq<char>) -> int {
    if s.len() > 0 && s[0] == '-' {
        -valor_decimal(s.drop_first())
    } else {
        valor_decimal(s)
    }
}

/// Whether `s` denotes an integer that the comparison routines accept:
/// well-formed and of bounded magnitude.
pub open spec fn entero_acotado(s: Seq<char>) -> bool {
    es_entero(s) && -0x7fff_ffff_ffff_ffff <= valor_entero(s) <= 0x7fff_ffff_ffff_ffff
}

/// Parse a decimal integer of bounded magnitude.
pub fn parsear_entero(s: &Vec<char>) -> (r: Option<i64>)
    ensures
        match r {
            Some(n) => entero_acotado(s@) && n == valor_entero(s@),
            None => !entero_acotado(s@),
        },
{
    if s.len() > 1 && s[0] == '-' {
        let resto = subvec(s, 1, s.len());
        proof {
            assert(resto@ =~= s@.drop_first());
        }
        match parsear_natural(&resto) {
            Some(n) => {
                if n <= 0x7fff_ffff_ffff_ffff {
                    Some(-(n as i64))
                } else {
                    None
                }
            },
            None => None,
        }
    } else {
        proof {
            if s@.len() > 0 && s@[0] == '-' {
                assert(!es_natural(s@)) by {
                    assert(!es_digito(s@[0]));
                }
            }
        }
        match parsear_natural(s) {
            Some(n) => {
                if n <= 0x7fff_ffff_ffff_ffff {
                    proof {
                        if s@.len() > 0 && s@[0] == '-' {
                            assert(false);
                        }
                    }
                    Some(n as i64)
                } else {
                    None
                }
            },
            None => None,
        }
    }
}

/// Strict lexicographic order on character sequences by scalar value.
pub open spec fn lex_menor(a: Seq<char>, b: Seq<char>) -> bool
    decreases a.len(),
{
    if b.len() == 0 {
        false
    } else if a.len() == 0 {
        true
    } else if a[0] != b[0] {
        (a[0] as u32) < (b[0] as u32)
    } else {
        lex_menor(a.drop_first(), b.drop_first())
    }
}

proof fn lema_lex_salto(a: Seq<char>, b: Seq<char>, i: int)
    requires
        0 <= i <= a.len(),
        i <= b.len(),
        forall|k: int| 0 <= k < i ==> a[k] == b[k],
    ensures
        lex_menor(a, b) == lex_menor(a.skip(i), b.skip(i)),
    decreases i,
{
    if i > 0 && a.len() > 0 && b.len() > 0 {
        lema_lex_salto(a.drop_first(), b.drop_first(), i - 1);
        assert(a.drop_first().skip(i - 1) =~= a.skip(i));
        assert(b.drop_first().skip(i - 1) =~= b.skip(i));
    } else {
        assert(a.skip(0) =~= a);
        assert(b.skip(0) =~= b);
    }
}

/// Three-way lexicographic comparison: -1, 0 or 1.
pub fn comparar_lex(a: &Vec<char>, b: &Vec<char>) -> (r: i32)
    ensures
        r == -1 || r == 0 || r == 1,
        (r == -1) <==> lex_menor(a@, b@),
        (r == 0) <==> (a@ == b@),
        (r == 1) <==> lex_menor(b@, a@),
{
    let mut i: usize = 0;
    loop
        invariant
            0 <= i <= a@.len(),
            i <= b@.len(),
            forall|k: int| 0 <= k < i ==> a@[k] == b@[k],
        decreases a@.len() - i,
    {
        proof {
            lema_lex_salto(a@, b@, i as int);
            lema_lex_salto(b@, a@, i as int);
        }
        if i >= a.len() && i >= b.len() {
            proof {
                assert(a@ =~= b@);
                assert(a@.skip(i as int).len() == 0);
                assert(b@.skip(i as int).len() == 0);
            }
            return 0;
        }
        if i >= a.len() {
            proof {
                assert(a@.skip(i as int).len() == 0);
                assert(b@.skip(i as int).len() > 0);
                assert(a@.len() != b@.len());
            }
            return -1;
        }
        if i >= b.len() {
            proof {
                assert(b@.skip(i as int).len() == 0);
                assert(a@.skip(i as int).len() > 0);
                assert(a@.len() != b@.len());
            }
            return 1;
        }
        let ca = a[i] as u32;
        let cb = b[i] as u32;
        proof {
            assert(a@.skip(i as int)[0] == a@[i as int]);
            assert(b@.skip(i as int)[0] == b@[i as int]);
        }
        if ca < cb {
            proof {
                assert(a@[i as int] != b@[i as int]) by {
                    if a@[i as int] == b@[i as int] {
                        assert(ca == cb);
                    }
                }
                assert(lex_menor(a@.skip(i as int), b@.skip(i as int)));
                assert(a@ != b@) by {
                    if a@ == b@ {
                        assert(a@[i as int] == b@[i as int]);
                    }
                }
            }
            return -1;
        }
        if ca > cb {
            proof {
                assert(a@[i as int] != b@[i as int]) by {
                    if a@[i as int] == b@[i as int] {
                        assert(ca == cb);
                    }
                }
                assert(lex_menor(b@.skip(i as int), a@.skip(i as int)));
                assert(a@ != b@) by {
                    if a@ == b@ {
                        assert(a@[i as int] == b@[i as int]);
                    }
                }
            }
            return 1;
        }
        proof {
            assert(ca == cb);
            assert(a@[i as int] as u32 == b@[i as int] as u32);
            vstd::utf8::char_u32_cast(a@[i as int], ca);
            vstd::utf8::char_u32_cast(b@[i as int], cb);
        }
        i += 1;
    }
}

/// Whether two character vectors hold the same text.
pub fn textos_iguales(a: &Vec<char>, b: &Vec<char>) -> (r: bool)
    ensures
        r == (a@ == b@),
{
    if a.len() != b.len() {
        return false;
    }
    let mut i: usize = 0;
    while i < a.len()
        invariant
            0 <= i <= a@.len(),
            a@.len() == b@.len(),
            forall|k: int| 0 <= k < i ==> a@[k] == b@[k],
        decreases a@.len() - i,
    {
        if a[i] != b[i] {
            return false;
        }
        i += 1;
    }
    proof {
        assert(a@ =~= b@);
    }
    true
}

/// The upper-case form of an ASCII letter; other characters unchanged.
pub open spec fn a_mayuscula(c: char) -> char {
    if 97 <= c as u32 && c as u32 <= 122 {
        ((c as u32 - 32) as u8) as char
    } else {
        c
    }
}

/// Every ASCII letter of `s` in upper case.
pub open spec fn mayusculas(s: Seq<char>) -> Seq<char> {
    s.map(|_i: int, c: char| a_mayuscula(c))
}

/// Copy of `s` with ASCII letters upper-cased.
pub fn mayusculas_de(s: &Vec<char>) -> (r: Vec<char>)
    ensures
        r@ == mayusculas(s@),
{
    let mut r: Vec<char> = Vec::new();
    let mut i: usize = 0;
    while i < s.len()
        invariant
            0 <= i <= s@.len(),
            r@ == mayusculas(s@.subrange(0, i as int)),
        decreases s@.len() - i,
    {
        let c = s[i];
        let cu = c as u32;
        if 97 <= cu && cu <= 122 {
            r.push(((cu - 32) as u8) as char);
        } else {
            r.push(c);
        }
        proof {
            assert(mayusculas(s@.subrange(0, i + 1 as int)) =~= mayusculas(
                s@.subrange(0, i as int),
            ).push(a_mayuscula(s@[i as int])));
        }
        i += 1;
    }
    proof {
        assert(s@.subrange(0, s@.len() as int) =~= s@);
    }
    r
}

/// The lower-case form of an ASCII letter; other characters unchanged.
pub open spec fn a_minuscula(c: char) -> char {
    if 65 <= c as u32 && c as u32 <= 90 {
        ((c as u32 + 32) as u8) as char
    } else {
        c
    }
}

/// Every ASCII letter of `s` in lower case.
pub open spec fn minusculas(s: Seq<char>) -> Seq<char> {
    s.map(|_i: int, c: char| a_minuscula(c))
}

/// Copy of `s` with ASCII letters lower-cased.
pub fn minusculas_de(s: &Vec<char>) -> (r: Vec<char>)
    ensures
        r@ == minusculas(s@),
{
    let mut r: Vec<char> = Vec::new();
    let mut i: usize = 0;
    while i < s.len()
        invariant
            0 <= i <= s@.len(),
            r@ == minusculas(s@.subrange(0, i as int)),
        decreases s@.len() - i,
    {
        let c = s[i];
        let cu = c as u32;
        if 65 <= cu && cu <= 90 {
            r.push(((cu + 32) as u8) as char);
        } else {
            r.push(c);
        }
        proof {
            assert(minusculas(s@.subrange(0, i + 1 as int)) =~= minusculas(
                s@.subrange(0, i as int),
            ).push(a_minuscula(s@[i as int])));
        }
        i += 1;
    }
    proof {
        assert(s@.subrange(0, s@.len() as int) =~= s@);
    }
    r
}

/// Position of the last occurrence of `c` in `s`, or -1.
pub open spec fn ultima_aparicion(s: Seq<char>, c: char) -> int
    decreases s.len(),
{
    if s.len() == 0 {
        -1
    } else if s.last() == c {
        s.len() - 1
    } else {
        ultima_aparicion(s.drop_last(), c)
    }
}

/// The last occurrence lies within the text and holds the character.
pub proof fn lema_ultima_aparicion(s: Seq<char>, c: char)
    ensures
        -1 <= ultima_aparicion(s, c) < s.len(),
        ultima_aparicion(s, c) >= 0 ==> s[ultima_aparicion(s, c)] == c,
    decreases s.len(),
{
    if s.len() > 0 && s.last() != c {
        lema_ultima_aparicion(s.drop_last(), c);
        if ultima_aparicion(s.drop_last(), c) >= 0 {
            assert(s.drop_last()[ultima_aparicion(s.drop_last(), c)]
                == s[ultima_aparicion(s.drop_last(), c)]);
        }
    }
}

/// Position of the last occurrence of `c`, executably.
#[verifier::loop_isolation(false)]
pub fn buscar_ultimo(s: &Vec<char>, c: char) -> (r: Option<usize>)
    ensures
        match r {
            Some(i) => ultima_aparicion(s@, c) == i,
            None => ultima_aparicion(s@, c) == -1,
        },
{
    let mut i: usize = s.len();
    proof {
        assert(s@.subrange(0, s@.len() as int) =~= s@);
    }
    while i > 0
        invariant
            0 <= i <= s@.len(),
            ultima_aparicion(s@, c) == ultima_aparicion(s@.subrange(0, i as int), c),
        decreases i,
    {
        proof {
            assert(s@.subrange(0, i as int).drop_last() =~= s@.subrange(0, i - 1));
            assert(s@.subrange(0, i as int).last() == s@[i - 1]);
        }
        if s[i - 1] == c {
            return Some(i - 1);
        }
        i -= 1;
    }
    None
}

/// `s` without any character that appears in `malos`.
pub open spec fn sin_estos(s: Seq<char>, malos: Seq<char>) -> Seq<char>
    decreases s.len(),
{
    if s.len() == 0 {
        s
    } else {
        let r = sin_estos(s.drop_last(), malos);
        if malos.contains(s.last()) {
            r
        } else {
            r.push(s.last())
        }
    }
}

/// Copy of `s` without the characters of `malos`.
pub fn quitar_caracteres(s: &Vec<char>, malos: &Vec<char>) -> (r: Vec<char>)
    ensures
        r@ == sin_estos(s@, malos@),
{
    let mut r: Vec<char> = Vec::new();
    let mut i: usize = 0;
    while i < s.len()
        invariant
            0 <= i <= s@.len(),
            r@ == sin_estos(s@.subrange(0, i as int), malos@),
        decreases s@.len() - i,
    {
        let c = s[i];
        let mut esta = false;
        let mut j: usize = 0;
        while j < malos.len()
            invariant
                0 <= j <= malos@.len(),
                esta <==> exists|k: int| 0 <= k < j && malos@[k] == c,
            decreases malos@.len() - j,
        {
            if malos[j] == c {
                esta = true;
            }
            j += 1;
        }
        proof {
            assert(esta == malos@.contains(c));
            assert(s@.subrange(0, i + 1 as int).drop_last() =~= s@.subrange(0, i as int));
            assert(s@.subrange(0, i + 1 as int).last() == s@[i as int]);
        }
        if !esta {
            r.push(c);
        }
        i += 1;
    }
    proof {
        assert(s@.subrange(0, s@.len() as int) =~= s@);
    }
    r
}

} // verus!
