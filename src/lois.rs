use vstd::prelude::*;

use crate::caisse::{
    caisse, defaut_de, lemme_caisse_valeur, lemme_sans_defaut, lemme_valeur_unique, premier_defaut,
    qte_possedee, retenue,
};
use crate::monnaie::{Monnaie, RenduError};
use crate::recherche::{est_optimale, est_solution, lemme_nombre_positif, nombre_total, precede};
use crate::rendu::{
    assembler, lemme_optimale_unique, lemme_rendu_ok, nombre_rendu, rendu_conforme, somme_rendue,
};

verus! {

/// A change handed out pays the amount exactly.
pub proof fn loi_exactitude(cible: int, s: Seq<Monnaie>, sol: Seq<Monnaie>)
    requires
        rendu_conforme(cible, s, Ok(sol)),
        s.len() <= usize::MAX,
    ensures
        somme_rendue(sol) == cible,
{
    lemme_rendu_ok(cible, s, sol);
}

/// A change handed out never takes more of a value than the entries hold of
/// it, all entries of that value together (its quantity in the normalized
/// wallet).
pub proof fn loi_capacite(cible: int, s: Seq<Monnaie>, sol: Seq<Monnaie>)
    requires
        rendu_conforme(cible, s, Ok(sol)),
        s.len() <= usize::MAX,
    ensures
        forall|i: int|
            0 <= i < sol.len() ==> 0 < (#[trigger] sol[i]).quantite <= qte_possedee(
                s,
                sol[i].valeur as int,
            ),
{
    lemme_rendu_ok(cible, s, sol);
    let w = caisse(s);
    if cible > 0 {
        assert forall|k: int| 0 <= k < s.len() implies defaut_de(#[trigger] s[k]) is None by {
            lemme_sans_defaut(s, k);
        }
        assert forall|i: int| 0 <= i < sol.len() implies 0 < (#[trigger] sol[i]).quantite
            <= qte_possedee(s, sol[i].valeur as int) by {
            let j = choose|j: int|
                0 <= j < w.len() && w[j].valeur == (#[trigger] sol[i]).valeur && sol[i].quantite
                    <= w[j].quantite;
            lemme_valeur_unique(w, j);
            lemme_caisse_valeur(s, sol[i].valeur as int);
        }
    }
}

/// No combination within the normalized wallet that pays the amount uses
/// fewer items than the change handed out.
pub proof fn loi_minimalite(cible: int, s: Seq<Monnaie>, sol: Seq<Monnaie>, y: Seq<i64>)
    requires
        rendu_conforme(cible, s, Ok(sol)),
        s.len() <= usize::MAX,
        est_solution(caisse(s), cible, y),
    ensures
        nombre_rendu(sol) <= nombre_total(y),
{
    let x = lemme_rendu_ok(cible, s, sol);
    lemme_nombre_positif(y, y.len() as int);
    if cible > 0 && y != x {
        assert(precede(x, y));
    }
}

/// A zero amount needs nothing, whatever the entries.
pub proof fn loi_cible_nulle(s: Seq<Monnaie>, r: Result<Seq<Monnaie>, RenduError>)
    requires
        rendu_conforme(0, s, r),
    ensures
        r == Ok::<Seq<Monnaie>, RenduError>(Seq::empty()),
{
}

/// An entry that counts (neither its value nor its quantity is zero) with a
/// negative value or quantity rejects the call, whatever positive amount is
/// asked (a zero or negative amount is answered before the entries are read).
pub proof fn loi_denomination_invalide(
    cible: int,
    s: Seq<Monnaie>,
    r: Result<Seq<Monnaie>, RenduError>,
    i: int,
)
    requires
        cible > 0,
        0 <= i < s.len(),
        retenue(s[i]),
        s[i].valeur < 0 || s[i].quantite < 0,
        rendu_conforme(cible, s, r),
    ensures
        r matches Err(RenduError::InvalidDenomination(_)),
{
    assert(defaut_de(s[i]) is Some);
    if premier_defaut(s) is None {
        lemme_sans_defaut(s, i);
    }
}

/// A negative amount is refused, whatever the entries.
pub proof fn loi_cible_negative(cible: int, s: Seq<Monnaie>, r: Result<Seq<Monnaie>, RenduError>)
    requires
        cible < 0,
        rendu_conforme(cible, s, r),
    ensures
        r == Err::<Seq<Monnaie>, RenduError>(RenduError::NegativeTarget),
{
}

/// The same amount and entries always give the same outcome.
pub proof fn loi_determinisme(
    cible: int,
    s: Seq<Monnaie>,
    r1: Result<Seq<Monnaie>, RenduError>,
    r2: Result<Seq<Monnaie>, RenduError>,
)
    requires
        rendu_conforme(cible, s, r1),
        rendu_conforme(cible, s, r2),
    ensures
        r1 == r2,
{
    let w = caisse(s);
    if premier_defaut(s) is None && cible > 0 && r1 is Ok {
        let x1 = choose|x: Seq<i64>|
            #[trigger] est_optimale(w, cible, x) && r1 == Ok::<Seq<Monnaie>, RenduError>(
                assembler(w, x, w.len() as int),
            );
        let x2 = choose|x: Seq<i64>|
            #[trigger] est_optimale(w, cible, x) && r2 == Ok::<Seq<Monnaie>, RenduError>(
                assembler(w, x, w.len() as int),
            );
        lemme_optimale_unique(w, cible, x1, x2);
    }
}

} // verus!
