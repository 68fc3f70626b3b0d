use vstd::prelude::*;

use crate::monnaie::{Coupure, Defaut, Monnaie};
use crate::recherche::caisse_bien_formee;

verus! {

/// An entry that counts: zero values and zero quantities are dropped.
pub open spec fn retenue(m: Monnaie) -> bool {
    m.valeur != 0 && m.quantite != 0
}

/// What is wrong with an entry, if anything.
pub open spec fn defaut_de(m: Monnaie) -> Option<Defaut> {
    if !retenue(m) {
        None
    } else if m.valeur < 0 {
        Some(Defaut::ValeurNegative)
    } else if m.quantite < 0 {
        Some(Defaut::QuantiteNegative)
    } else {
        None
    }
}

/// The fault of the first faulty entry.
pub open spec fn premier_defaut(s: Seq<Monnaie>) -> Option<Defaut>
    decreases s.len(),
{
    if s.len() == 0 {
        None
    } else if defaut_de(s[0]) is Some {
        defaut_de(s[0])
    } else {
        premier_defaut(s.drop_first())
    }
}

/// Total cash of the entries that count.
pub open spec fn especes(s: Seq<Monnaie>) -> int
    decreases s.len(),
{
    if s.len() == 0 {
        0
    } else {
        especes(s.drop_last()) + if retenue(s.last()) {
            s.last().valeur * s.last().quantite
        } else {
            0
        }
    }
}

/// Total quantity of a wallet.
pub open spec fn qte_caisse(w: Seq<Coupure>) -> int
    decreases w.len(),
{
    if w.len() == 0 {
        0
    } else {
        qte_caisse(w.drop_last()) + w.last().quantite
    }
}

/// `w` with `q` more of value `v`, kept in ascending order of value.
pub open spec fn inserer(w: Seq<Coupure>, v: i64, q: int) -> Seq<Coupure>
    decreases w.len(),
{
    if w.len() == 0 {
        seq![Coupure { valeur: v, quantite: q as i128 }]
    } else if w.last().valeur < v {
        w.push(Coupure { valeur: v, quantite: q as i128 })
    } else if w.last().valeur == v {
        w.update(w.len() - 1, Coupure { valeur: v, quantite: (w.last().quantite + q) as i128 })
    } else {
        inserer(w.drop_last(), v, q).push(w.last())
    }
}

/// The normalized wallet of the entries `s`: one denomination per value,
/// holding the sum of the quantities of that value, in ascending order.
pub open spec fn caisse(s: Seq<Monnaie>) -> Seq<Coupure>
    decreases s.len(),
{
    if s.len() == 0 {
        seq![]
    } else if retenue(s.last()) {
        inserer(caisse(s.drop_last()), s.last().valeur, s.last().quantite as int)
    } else {
        caisse(s.drop_last())
    }
}

/// With no first fault, no entry has a fault.
pub proof fn lemme_sans_defaut(s: Seq<Monnaie>, i: int)
    requires
        premier_defaut(s) is None,
        0 <= i < s.len(),
    ensures
        defaut_de(s[i]) is None,
    decreases s.len(),
{
    if i > 0 {
        lemme_sans_defaut(s.drop_first(), i - 1);
    }
}

/// A denomination holds no more than the whole wallet.
pub proof fn lemme_qte_element(w: Seq<Coupure>, k: int)
    requires
        caisse_bien_formee(w),
        0 <= k < w.len(),
    ensures
        0 <= w[k].quantite <= qte_caisse(w),
    decreases w.len(),
{
    let u = w.drop_last();
    assert(caisse_bien_formee(u));
    lemme_qte_positive(u);
    if k < w.len() - 1 {
        assert(w[k] == u[k]);
        lemme_qte_element(u, k);
    }
}

/// A wallet's total quantity is not negative.
pub proof fn lemme_qte_positive(w: Seq<Coupure>)
    requires
        caisse_bien_formee(w),
    ensures
        qte_caisse(w) >= 0,
    decreases w.len(),
{
    if w.len() > 0 {
        let u = w.drop_last();
        assert(caisse_bien_formee(u));
        lemme_qte_positive(u);
        assert(w[w.len() - 1].quantite > 0);
    }
}

/// Inserting keeps the wallet well formed and adds to its total.
pub proof fn lemme_inserer(w: Seq<Coupure>, v: i64, q: int)
    requires
        caisse_bien_formee(w),
        v > 0,
        q > 0,
        qte_caisse(w) + q <= i128::MAX,
    ensures
        caisse_bien_formee(inserer(w, v, q)),
        qte_caisse(inserer(w, v, q)) == qte_caisse(w) + q,
        inserer(w, v, q).len() > 0,
        inserer(w, v, q).last().valeur == if w.len() == 0 || w.last().valeur < v {
            v
        } else {
            w.last().valeur
        },
    decreases w.len(),
{
    let c = Coupure { valeur: v, quantite: q as i128 };
    let r = inserer(w, v, q);
    lemme_qte_positive(w);
    if w.len() == 0 {
        assert(r.drop_last() =~= w);
    } else if w.last().valeur < v {
        assert(r.drop_last() =~= w);
        assert forall|i: int, j: int| 0 <= i < j < r.len() implies #[trigger] r[i].valeur
            < #[trigger] r[j].valeur by {
            if j == r.len() - 1 && i < w.len() - 1 {
                assert(w[i].valeur < w[w.len() - 1].valeur);
            }
        }
    } else if w.last().valeur == v {
        lemme_qte_element(w, w.len() - 1);
        assert(r.drop_last() =~= w.drop_last());
        assert forall|i: int| 0 <= i < r.len() implies (#[trigger] r[i]).valeur > 0 && r[i].quantite
            > 0 by {
            assert(w[i].valeur > 0);
        }
        assert forall|i: int, j: int| 0 <= i < j < r.len() implies #[trigger] r[i].valeur
            < #[trigger] r[j].valeur by {
            assert(w[i].valeur < w[j].valeur);
        }
    } else {
        let u = w.drop_last();
        let last = w.last();
        assert(caisse_bien_formee(u));
        assert(qte_caisse(w) == qte_caisse(u) + last.quantite);
        assert(last.quantite > 0);
        lemme_inserer(u, v, q);
        let ru = inserer(u, v, q);
        assert(r.drop_last() =~= ru);
        if u.len() > 0 {
            assert(u.last().valeur < last.valeur);
        }
        assert(ru.last().valeur < last.valeur);
        assert forall|i: int| 0 <= i < r.len() implies (#[trigger] r[i]).valeur > 0 && r[i].quantite
            > 0 by {
            if i < ru.len() {
                assert(r[i] == ru[i]);
            }
        }
        assert forall|i: int, j: int| 0 <= i < j < r.len() implies #[trigger] r[i].valeur
            < #[trigger] r[j].valeur by {
            if j == r.len() - 1 {
                if i < ru.len() - 1 {
                    assert(ru[i].valeur < ru[ru.len() - 1].valeur);
                }
            } else {
                assert(ru[i].valeur < ru[j].valeur);
            }
        }
    }
}

/// Inserting at the first position `p` whose value is not below `v`.
pub proof fn lemme_inserer_en(w: Seq<Coupure>, v: i64, q: int, p: int)
    requires
        caisse_bien_formee(w),
        0 <= p <= w.len(),
        forall|k: int| 0 <= k < p ==> #[trigger] w[k].valeur < v,
        p < w.len() ==> w[p].valeur >= v,
    ensures
        inserer(w, v, q) == if p < w.len() && w[p].valeur == v {
            w.update(p, Coupure { valeur: v, quantite: (w[p].quantite + q) as i128 })
        } else {
            w.insert(p, Coupure { valeur: v, quantite: q as i128 })
        },
    decreases w.len(),
{
    let c = Coupure { valeur: v, quantite: q as i128 };
    if w.len() == 0 {
        assert(inserer(w, v, q) =~= w.insert(p, c));
    } else {
        let n = w.len() - 1;
        if p < n {
            assert(w[p].valeur < w[n].valeur);
        }
        if w.last().valeur < v {
            assert(inserer(w, v, q) =~= w.insert(p, c));
        } else if w.last().valeur == v {
        } else {
            let u = w.drop_last();
            assert(caisse_bien_formee(u));
            lemme_inserer_en(u, v, q, p);
            if p < n && w[p].valeur == v {
                assert(inserer(w, v, q) =~= w.update(
                    p,
                    Coupure { valeur: v, quantite: (w[p].quantite + q) as i128 },
                ));
            } else {
                assert(inserer(w, v, q) =~= w.insert(p, c));
            }
        }
    }
}

/// What normalizing the entries yields: the wallet, the cash of the entries
/// that count (capped at `i128::MAX`), and their total quantity.
pub(crate) struct Normalisee {
    pub(crate) caisse: Vec<Coupure>,
    pub(crate) total_caisse: i128,
    pub(crate) total_qte: i128,
}

/// Validates the entries and merges them into a sorted wallet, with totals.
pub(crate) fn normaliser(posseder: &Vec<Monnaie>) -> (r: Result<Normalisee, Defaut>)
    ensures
        match r {
            Err(d) => premier_defaut(posseder@) == Some(d),
            Ok(n) => {
                &&& premier_defaut(posseder@) is None
                &&& n.caisse@ == caisse(posseder@)
                &&& caisse_bien_formee(n.caisse@)
                &&& n.total_qte == qte_caisse(n.caisse@)
                &&& n.total_qte < i128::MAX
                &&& n.total_caisse == if especes(posseder@) <= i128::MAX {
                    especes(posseder@)
                } else {
                    i128::MAX as int
                }
            },
        },
{
    let ghost s = posseder@;
    let mut w: Vec<Coupure> = Vec::new();
    let mut total_caisse: i128 = 0;
    let mut total_qte: i128 = 0;
    let mut i: usize = 0;
    assert(s.subrange(0, s.len() as int) =~= s);
    assert(s.take(0) =~= Seq::<Monnaie>::empty());
    while i < posseder.len()
        invariant
            s == posseder@,
            0 <= i <= s.len(),
            premier_defaut(s) == premier_defaut(s.subrange(i as int, s.len() as int)),
            forall|k: int| 0 <= k < i ==> defaut_de(#[trigger] s[k]) is None,
            w@ == caisse(s.take(i as int)),
            caisse_bien_formee(w@),
            total_qte == qte_caisse(w@),
            0 <= total_qte <= i * (i64::MAX as int),
            especes(s.take(i as int)) >= 0,
            total_caisse == if especes(s.take(i as int)) <= i128::MAX {
                especes(s.take(i as int))
            } else {
                i128::MAX as int
            },
        decreases s.len() - i,
    {
        let m = posseder[i];
        let ghost t = s.take(i as int);
        let ghost t1 = s.take(i + 1);
        let ghost reste = s.subrange(i as int, s.len() as int);
        proof {
            assert(t1.drop_last() =~= t);
            assert(t1.last() == m);
            assert(reste[0] == m);
            assert(reste.drop_first() =~= s.subrange(i + 1, s.len() as int));
        }
        if m.valeur == 0 || m.quantite == 0 {
            i = i + 1;
            continue;
        }
        if m.valeur < 0 {
            return Err(Defaut::ValeurNegative);
        }
        if m.quantite < 0 {
            return Err(Defaut::QuantiteNegative);
        }
        let v = m.valeur;
        let q = m.quantite as i128;
        proof {
            assert(i < usize::MAX);
            assert((i + 1) * (i64::MAX as int) < i128::MAX);
            lemme_inserer(w@, v, q as int);
        }
        let mut p: usize = 0;
        while p < w.len() && w[p].valeur < v
            invariant
                0 <= p <= w.len(),
                forall|k: int| 0 <= k < p ==> #[trigger] w@[k].valeur < v,
            decreases w.len() - p,
        {
            p = p + 1;
        }
        proof {
            lemme_inserer_en(w@, v, q as int, p as int);
        }
        if p < w.len() && w[p].valeur == v {
            proof {
                lemme_qte_element(w@, p as int);
            }
            let fusion = Coupure { valeur: v, quantite: w[p].quantite + q };
            w.set(p, fusion);
        } else {
            w.insert(p, Coupure { valeur: v, quantite: q });
        }
        total_qte = total_qte + q;
        proof {
            assert(0 < v * q <= (i64::MAX as int) * (i64::MAX as int)) by (nonlinear_arith)
                requires
                    0 < v <= i64::MAX,
                    0 < q <= i64::MAX,
            ;
        }
        let produit: i128 = (v as i128) * q;
        if total_caisse > i128::MAX - produit {
            total_caisse = i128::MAX;
        } else {
            total_caisse = total_caisse + produit;
        }
        i = i + 1;
    }
    proof {
        assert(s.take(s.len() as int) =~= s);
        assert(total_qte < i128::MAX) by {
            assert(s.len() <= usize::MAX);
            assert(s.len() * (i64::MAX as int) < i128::MAX);
        }
    }
    Ok(Normalisee { caisse: w, total_caisse, total_qte })
}

/// The normalized wallet of fault-free entries is well formed.
pub proof fn lemme_caisse(s: Seq<Monnaie>)
    requires
        forall|k: int| 0 <= k < s.len() ==> defaut_de(#[trigger] s[k]) is None,
        s.len() <= usize::MAX,
    ensures
        caisse_bien_formee(caisse(s)),
        0 <= qte_caisse(caisse(s)) <= s.len() * (i64::MAX as int),
    decreases s.len(),
{
    if s.len() > 0 {
        let u = s.drop_last();
        assert forall|k: int| 0 <= k < u.len() implies defaut_de(#[trigger] u[k]) is None by {
            assert(u[k] == s[k]);
        }
        lemme_caisse(u);
        lemme_qte_positive(caisse(u));
        if retenue(s.last()) {
            assert(defaut_de(s[s.len() - 1]) is None);
            assert(s.len() * (i64::MAX as int) < i128::MAX);
            lemme_inserer(caisse(u), s.last().valeur, s.last().quantite as int);
        }
    }
}

/// Quantity of value `v` among the entries that count.
pub open spec fn qte_possedee(s: Seq<Monnaie>, v: int) -> int
    decreases s.len(),
{
    if s.len() == 0 {
        0
    } else {
        qte_possedee(s.drop_last(), v) + if retenue(s.last()) && s.last().valeur == v {
            s.last().quantite as int
        } else {
            0
        }
    }
}

/// Quantity of value `v` in a wallet.
pub open spec fn qte_valeur(w: Seq<Coupure>, v: int) -> int
    decreases w.len(),
{
    if w.len() == 0 {
        0
    } else {
        qte_valeur(w.drop_last(), v) + if w.last().valeur == v {
            w.last().quantite as int
        } else {
            0
        }
    }
}

/// A value absent from the wallet has quantity zero.
pub proof fn lemme_valeur_absente(w: Seq<Coupure>, v: int)
    requires
        forall|i: int| 0 <= i < w.len() ==> (#[trigger] w[i]).valeur != v,
    ensures
        qte_valeur(w, v) == 0,
    decreases w.len(),
{
    if w.len() > 0 {
        let u = w.drop_last();
        assert forall|i: int| 0 <= i < u.len() implies (#[trigger] u[i]).valeur != v by {
            assert(u[i] == w[i]);
        }
        assert(w[w.len() - 1].valeur != v);
        lemme_valeur_absente(u, v);
    }
}

/// Values are distinct: the quantity of a value is that of its one denomination.
pub proof fn lemme_valeur_unique(w: Seq<Coupure>, j: int)
    requires
        caisse_bien_formee(w),
        0 <= j < w.len(),
    ensures
        qte_valeur(w, w[j].valeur as int) == w[j].quantite,
    decreases w.len(),
{
    let u = w.drop_last();
    let n = w.len() - 1;
    assert(caisse_bien_formee(u));
    if j == n {
        assert forall|i: int| 0 <= i < u.len() implies (#[trigger] u[i]).valeur != w[j].valeur by {
            assert(w[i].valeur < w[n].valeur);
        }
        lemme_valeur_absente(u, w[j].valeur as int);
    } else {
        assert(w[j].valeur < w[n].valeur);
        assert(u[j] == w[j]);
        lemme_valeur_unique(u, j);
    }
}

/// Inserting adds its quantity to its value only.
pub proof fn lemme_inserer_valeur(w: Seq<Coupure>, v: i64, q: int, x: int)
    requires
        caisse_bien_formee(w),
        v > 0,
        q > 0,
        qte_caisse(w) + q <= i128::MAX,
    ensures
        qte_valeur(inserer(w, v, q), x) == qte_valeur(w, x) + if x == v {
            q
        } else {
            0
        },
    decreases w.len(),
{
    let r = inserer(w, v, q);
    lemme_qte_positive(w);
    if w.len() == 0 {
        assert(r.drop_last() =~= w);
    } else if w.last().valeur < v {
        assert(r.drop_last() =~= w);
    } else if w.last().valeur == v {
        lemme_qte_element(w, w.len() - 1);
        assert(r.drop_last() =~= w.drop_last());
    } else {
        let u = w.drop_last();
        assert(caisse_bien_formee(u));
        assert(w[w.len() - 1].quantite > 0);
        lemme_inserer_valeur(u, v, q, x);
        assert(r.drop_last() =~= inserer(u, v, q));
    }
}

/// Each value of the normalized wallet holds all that the entries hold of it.
pub proof fn lemme_caisse_valeur(s: Seq<Monnaie>, x: int)
    requires
        forall|k: int| 0 <= k < s.len() ==> defaut_de(#[trigger] s[k]) is None,
        s.len() <= usize::MAX,
    ensures
        qte_valeur(caisse(s), x) == qte_possedee(s, x),
    decreases s.len(),
{
    if s.len() > 0 {
        let u = s.drop_last();
        assert forall|k: int| 0 <= k < u.len() implies defaut_de(#[trigger] u[k]) is None by {
            assert(u[k] == s[k]);
        }
        lemme_caisse_valeur(u, x);
        lemme_caisse(u);
        if retenue(s.last()) {
            assert(defaut_de(s[s.len() - 1]) is None);
            assert(s.len() * (i64::MAX as int) < i128::MAX);
            lemme_inserer_valeur(caisse(u), s.last().valeur, s.last().quantite as int, x);
        }
    }
}

} // verus!
