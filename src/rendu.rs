use vstd::prelude::*;

use crate::caisse::{
    caisse, defaut_de, especes, lemme_caisse, lemme_qte_positive, lemme_sans_defaut, normaliser,
    premier_defaut, qte_caisse,
};
use crate::monnaie::{Coupure, Monnaie, RenduError};
use crate::recherche::{
    caisse_bien_formee, dans_branche, ecart_en, est_optimale, est_solution, lemme_nombre_montant,
    montant, nombre, nombre_total, precede, EtatRecherche,
};

verus! {

/// Quantity given to each coin by `coin_change`: as good as unlimited.
pub const QTE_ILLIMITEE: i64 = 9999999;

/// The denominations of a spend vector that are used, with how many of each,
/// in the wallet's order.
pub open spec fn assembler(w: Seq<Coupure>, x: Seq<i64>, n: int) -> Seq<Monnaie>
    decreases n,
{
    if n <= 0 {
        seq![]
    } else if x[n - 1] > 0 {
        assembler(w, x, n - 1).push(Monnaie { valeur: w[n - 1].valeur, quantite: x[n - 1] })
    } else {
        assembler(w, x, n - 1)
    }
}

/// Cash handed out.
pub open spec fn somme_rendue(r: Seq<Monnaie>) -> int
    decreases r.len(),
{
    if r.len() == 0 {
        0
    } else {
        somme_rendue(r.drop_last()) + r.last().valeur * r.last().quantite
    }
}

/// Items handed out.
pub open spec fn nombre_rendu(r: Seq<Monnaie>) -> int
    decreases r.len(),
{
    if r.len() == 0 {
        0
    } else {
        nombre_rendu(r.drop_last()) + r.last().quantite
    }
}

/// Values strictly ascending, and every value and quantity positive.
pub open spec fn forme_rendu(r: Seq<Monnaie>) -> bool {
    &&& forall|i: int| 0 <= i < r.len() ==> (#[trigger] r[i]).valeur > 0 && r[i].quantite > 0
    &&& forall|i: int, j: int| 0 <= i < j < r.len() ==> #[trigger] r[i].valeur < #[trigger] r[j].valeur
}

/// The outcome owed for `cible` and the entries `s`: a zero amount needs
/// nothing and a negative one is refused, whatever the entries; then the
/// first faulty entry rejects the call; too little cash is reported before
/// any search; otherwise the preferred solution over the normalized wallet,
/// or none.
pub open spec fn rendu_conforme(cible: int, s: Seq<Monnaie>, r: Result<Seq<Monnaie>, RenduError>) -> bool {
    if cible == 0 {
        r == Ok::<Seq<Monnaie>, RenduError>(Seq::empty())
    } else if cible < 0 {
        r == Err::<Seq<Monnaie>, RenduError>(RenduError::NegativeTarget)
    } else {
        match premier_defaut(s) {
            Some(d) => r == Err::<Seq<Monnaie>, RenduError>(RenduError::InvalidDenomination(d)),
            None => {
                let w = caisse(s);
                if especes(s) < cible {
                    r == Err::<Seq<Monnaie>, RenduError>(RenduError::InsufficientFunds)
                } else if !(exists|x: Seq<i64>| #[trigger] est_solution(w, cible, x)) {
                    r == Err::<Seq<Monnaie>, RenduError>(RenduError::Infeasible)
                } else {
                    exists|x: Seq<i64>|
                        #[trigger] est_optimale(w, cible, x) && r == Ok::<Seq<Monnaie>, RenduError>(
                            assembler(w, x, w.len() as int),
                        )
                }
            },
        }
    }
}

/// The result with its list seen as a sequence.
pub open spec fn vue(r: Result<Vec<Monnaie>, RenduError>) -> Result<Seq<Monnaie>, RenduError> {
    match r {
        Ok(v) => Ok(v@),
        Err(e) => Err(e),
    }
}

/// The entries `coin_change` builds: each coin, in unlimited quantity.
pub open spec fn pieces_illimitees(coins: Seq<i32>) -> Seq<Monnaie> {
    coins.map_values(|c: i32| Monnaie { valeur: c as i64, quantite: QTE_ILLIMITEE })
}

/// The list built from a spend vector pays and counts as the vector does, in ascending order of value, each item taken from its denomination.
pub proof fn lemme_assembler(w: Seq<Coupure>, x: Seq<i64>, n: int)
    requires
        caisse_bien_formee(w),
        0 <= n <= w.len(),
        n <= x.len(),
        forall|k: int| 0 <= k < n ==> #[trigger] x[k] >= 0,
    ensures
        somme_rendue(assembler(w, x, n)) == montant(w, x, n),
        nombre_rendu(assembler(w, x, n)) == nombre(x, n),
        forme_rendu(assembler(w, x, n)),
        forall|i: int|
            0 <= i < assembler(w, x, n).len() ==> exists|j: int|
                0 <= j < n && (#[trigger] assembler(w, x, n)[i]).valeur == w[j].valeur
                    && assembler(w, x, n)[i].quantite == x[j],
    decreases n,
{
    if n > 0 {
        lemme_assembler(w, x, n - 1);
        let r0 = assembler(w, x, n - 1);
        let r = assembler(w, x, n);
        assert(w[n - 1].valeur > 0);
        let a = x[n - 1];
        let v = w[n - 1].valeur;
        if x[n - 1] > 0 {
            assert(r.drop_last() =~= r0);
            assert(r.last() == Monnaie { valeur: v, quantite: a });
            assert(somme_rendue(r) == somme_rendue(r0) + v * a);
            assert(v * a == a * v) by (nonlinear_arith);
            assert forall|i: int| 0 <= i < r.len() implies exists|j: int|
                0 <= j < n && (#[trigger] r[i]).valeur == w[j].valeur && r[i].quantite == x[j] by {
                if i < r0.len() {
                    assert(r[i] == r0[i]);
                    let j = choose|j: int| 0 <= j < n - 1 && r0[i].valeur == w[j].valeur && r0[i].quantite == x[j];
                    assert(0 <= j < n && r[i].valeur == w[j].valeur && r[i].quantite == x[j]);
                } else {
                    assert(0 <= n - 1 < n && r[i].valeur == w[n - 1].valeur && r[i].quantite == x[n - 1]);
                }
            }
            assert forall|i: int, j: int| 0 <= i < j < r.len() implies #[trigger] r[i].valeur
                < #[trigger] r[j].valeur by {
                if j == r.len() - 1 {
                    assert(r[i] == r0[i]);
                    let k = choose|k: int| 0 <= k < n - 1 && (#[trigger] r0[i]).valeur == w[k].valeur && r0[i].quantite == x[k];
                    assert(w[k].valeur < w[n - 1].valeur);
                } else {
                    assert(r[i] == r0[i] && r[j] == r0[j]);
                }
            }
            assert forall|i: int| 0 <= i < r.len() implies (#[trigger] r[i]).valeur > 0 && r[i].quantite > 0 by {
                if i < r0.len() {
                    assert(r[i] == r0[i]);
                }
            }
        } else {
            assert(a == 0);
            assert(a * v == 0) by (nonlinear_arith)
                requires
                    a == 0,
            ;
        }
    }
}

/// A spend vector within the wallet spends at most the wallet's total quantity.
pub proof fn lemme_nombre_borne(w: Seq<Coupure>, y: Seq<i64>, n: int)
    requires
        0 <= n <= w.len(),
        n <= y.len(),
        forall|k: int| 0 <= k < n ==> 0 <= #[trigger] y[k] <= w[k].quantite,
    ensures
        nombre(y, n) <= qte_caisse(w.take(n)),
    decreases n,
{
    if n > 0 {
        assert(w.take(n).drop_last() =~= w.take(n - 1));
        assert(y[n - 1] <= w[n - 1].quantite);
        lemme_nombre_borne(w, y, n - 1);
    }
}

/// There is at most one preferred solution.
pub proof fn lemme_optimale_unique(w: Seq<Coupure>, cible: int, x1: Seq<i64>, x2: Seq<i64>)
    requires
        est_optimale(w, cible, x1),
        est_optimale(w, cible, x2),
    ensures
        x1 == x2,
{
    if x1 != x2 {
        assert(est_solution(w, cible, x2));
        assert(est_solution(w, cible, x1));
        assert(precede(x1, x2));
        assert(precede(x2, x1));
        let j1 = choose|j: int| #[trigger] ecart_en(x1, x2, j);
        let j2 = choose|j: int| #[trigger] ecart_en(x2, x1, j);
        if j1 < j2 {
            assert(x2[j1] == x1[j1]);
        } else if j2 < j1 {
            assert(x1[j2] == x2[j2]);
        }
    }
}

/// Builds the list handed out from the spend vector.
fn assembler_rendu(caisse: &Vec<Coupure>, depenser: &Vec<i64>) -> (r: Vec<Monnaie>)
    requires
        depenser.len() == caisse.len(),
    ensures
        r@ == assembler(caisse@, depenser@, caisse.len() as int),
{
    let mut r: Vec<Monnaie> = Vec::new();
    let mut i: usize = 0;
    while i < caisse.len()
        invariant
            0 <= i <= caisse.len(),
            depenser.len() == caisse.len(),
            r@ == assembler(caisse@, depenser@, i as int),
        decreases caisse.len() - i,
    {
        if depenser[i] > 0 {
            r.push(Monnaie { valeur: caisse[i].valeur, quantite: depenser[i] });
        }
        i = i + 1;
    }
    r
}

/// A vector of `n` zeros.
fn zeros(n: usize) -> (r: Vec<i64>)
    ensures
        r.len() == n,
        forall|i: int| 0 <= i < n ==> #[trigger] r@[i] == 0,
{
    let mut r: Vec<i64> = Vec::new();
    while r.len() < n
        invariant
            r.len() <= n,
            forall|i: int| 0 <= i < r.len() ==> #[trigger] r@[i] == 0,
        decreases n - r.len(),
    {
        r.push(0);
    }
    r
}

/// Change for `a_rendre` out of the entries `posseder`: the combination with
/// the fewest items that sums exactly to the amount, ascending by value, or
/// why there is none.
pub fn rendu_de_monnaie(a_rendre: i64, posseder: &Vec<Monnaie>) -> (r: Result<Vec<Monnaie>, RenduError>)
    ensures
        rendu_conforme(a_rendre as int, posseder@, vue(r)),
{
    if a_rendre == 0 {
        let vide: Vec<Monnaie> = Vec::new();
        proof {
            assert(vide@ =~= Seq::<Monnaie>::empty());
        }
        return Ok(vide);
    }
    if a_rendre < 0 {
        return Err(RenduError::NegativeTarget);
    }
    let norm = match normaliser(posseder) {
        Ok(n) => n,
        Err(d) => {
            return Err(RenduError::InvalidDenomination(d));
        },
    };
    if norm.total_caisse < a_rendre as i128 {
        return Err(RenduError::InsufficientFunds);
    }
    let ghost w = norm.caisse@;
    let ghost cible = a_rendre as int;
    let n = norm.caisse.len();
    proof {
        lemme_qte_positive(w);
    }
    let sentinelle = norm.total_qte + 1;
    let mut etat = EtatRecherche { depenser: zeros(n), meilleur_qte: sentinelle, meilleur_depenser: zeros(n) };
    let ghost p = etat.depenser@;
    etat.explorer(&norm.caisse, 0, a_rendre, 0, Ghost(cible));
    proof {
        assert forall|y: Seq<i64>| #[trigger] est_solution(w, cible, y) implies dans_branche(w, cible, p, 0, y)
            && nombre_total(y) < sentinelle by {
            lemme_nombre_borne(w, y, w.len() as int);
            assert(w.take(w.len() as int) =~= w);
        }
    }
    if etat.meilleur_qte != sentinelle {
        let sol = assembler_rendu(&norm.caisse, &etat.meilleur_depenser);
        proof {
            let x = etat.meilleur_depenser@;
            assert(est_optimale(w, cible, x));
        }
        Ok(sol)
    } else {
        proof {
            if exists|x: Seq<i64>| #[trigger] est_solution(w, cible, x) {
                let x = choose|x: Seq<i64>| #[trigger] est_solution(w, cible, x);
                assert(dans_branche(w, cible, p, 0, x));
            }
        }
        Err(RenduError::Infeasible)
    }
}

/// The textbook variant: each coin available without limit; the least number
/// of coins that make up `amount`, or -1 when none does (or the call fails).
pub fn coin_change(coins: Vec<i32>, amount: i32) -> (r: i32)
    ensures
        exists|res: Result<Seq<Monnaie>, RenduError>|
            #[trigger] rendu_conforme(amount as int, pieces_illimitees(coins@), res) && r == match res {
                Ok(sol) => nombre_rendu(sol),
                Err(_) => -1,
            },
{
    let mut pieces: Vec<Monnaie> = Vec::new();
    let mut i: usize = 0;
    while i < coins.len()
        invariant
            0 <= i <= coins.len(),
            pieces@ =~= pieces_illimitees(coins@.take(i as int)),
        decreases coins.len() - i,
    {
        pieces.push(Monnaie { valeur: coins[i] as i64, quantite: QTE_ILLIMITEE });
        i = i + 1;
    }
    proof {
        assert(coins@.take(coins.len() as int) =~= coins@);
    }
    let res = rendu_de_monnaie(amount as i64, &pieces);
    match res {
        Ok(sol) => {
            let ghost s = pieces@;
            proof {
                lemme_rendu_ok(amount as int, s, sol@);
            }
            let mut total: i64 = 0;
            let mut k: usize = 0;
            while k < sol.len()
                invariant
                    0 <= k <= sol.len(),
                    forme_rendu(sol@),
                    nombre_rendu(sol@) <= i32::MAX,
                    total == nombre_rendu(sol@.take(k as int)),
                    0 <= total,
                decreases sol.len() - k,
            {
                proof {
                    assert(sol@.take(k + 1).drop_last() =~= sol@.take(k as int));
                    lemme_nombre_rendu_croissant(sol@, k + 1);
                }
                total = total + sol[k].quantite;
                k = k + 1;
            }
            proof {
                assert(sol@.take(sol.len() as int) =~= sol@);
            }
            total as i32
        },
        Err(_) => -1,
    }
}

/// Items counted over a prefix of a list do not exceed the whole.
pub proof fn lemme_nombre_rendu_croissant(r: Seq<Monnaie>, i: int)
    requires
        forme_rendu(r),
        0 <= i <= r.len(),
    ensures
        0 <= nombre_rendu(r.take(i)) <= nombre_rendu(r),
    decreases r.len(),
{
    if i == r.len() {
        assert(r.take(i) =~= r);
        if r.len() > 0 {
            assert(r[r.len() - 1].quantite > 0);
            let u = r.drop_last();
            assert(forme_rendu(u));
            lemme_nombre_rendu_croissant(u, u.len() as int);
            assert(u.take(u.len() as int) =~= u);
        }
    } else {
        let u = r.drop_last();
        assert(forme_rendu(u));
        assert(r[r.len() - 1].quantite > 0);
        lemme_nombre_rendu_croissant(u, i);
        assert(u.take(i) =~= r.take(i));
    }
}

/// What a successful result is made of: a list in ascending order of value
/// with positive quantities, paying the amount exactly, each quantity within
/// what the normalized wallet holds of that value, and (for a positive
/// amount) the image of the preferred solution.
pub proof fn lemme_rendu_ok(cible: int, s: Seq<Monnaie>, sol: Seq<Monnaie>) -> (x: Seq<i64>)
    requires
        rendu_conforme(cible, s, Ok(sol)),
        s.len() <= usize::MAX,
    ensures
        cible >= 0,
        cible > 0 ==> premier_defaut(s) is None && caisse_bien_formee(caisse(s)),
        forme_rendu(sol),
        somme_rendue(sol) == cible,
        0 <= nombre_rendu(sol) <= cible,
        forall|i: int|
            0 <= i < sol.len() ==> exists|j: int|
                0 <= j < caisse(s).len() && caisse(s)[j].valeur == (#[trigger] sol[i]).valeur
                    && sol[i].quantite <= caisse(s)[j].quantite,
        cible > 0 ==> est_optimale(caisse(s), cible, x) && nombre_rendu(sol) == nombre_total(x),
{
    let w = caisse(s);
    if cible == 0 {
        assert(sol =~= Seq::<Monnaie>::empty());
        Seq::empty()
    } else {
        assert forall|k: int| 0 <= k < s.len() implies defaut_de(#[trigger] s[k]) is None by {
            lemme_sans_defaut(s, k);
        }
        lemme_caisse(s);
        let x = choose|x: Seq<i64>|
            #[trigger] est_optimale(w, cible, x) && Ok::<Seq<Monnaie>, RenduError>(sol) == Ok::<
                Seq<Monnaie>,
                RenduError,
            >(assembler(w, x, w.len() as int));
        lemme_assembler(w, x, w.len() as int);
        lemme_nombre_montant(w, x, w.len() as int);
        assert forall|i: int| 0 <= i < sol.len() implies exists|j: int|
            0 <= j < w.len() && w[j].valeur == (#[trigger] sol[i]).valeur && sol[i].quantite
                <= w[j].quantite by {
            let j = choose|j: int|
                0 <= j < w.len() && (#[trigger] sol[i]).valeur == w[j].valeur && sol[i].quantite == x[j];
            assert(x[j] <= w[j].quantite);
        }
        x
    }
}

} // verus!
