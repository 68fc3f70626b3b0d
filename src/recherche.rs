use vstd::prelude::*;

use crate::monnaie::Coupure;

verus! {

/// A normalized wallet: positive values in strictly ascending order, each
/// with a positive quantity.
pub open spec fn caisse_bien_formee(w: Seq<Coupure>) -> bool {
    &&& forall|i: int| 0 <= i < w.len() ==> (#[trigger] w[i]).valeur > 0 && w[i].quantite > 0
    &&& forall|i: int, j: int| 0 <= i < j < w.len() ==> #[trigger] w[i].valeur < #[trigger] w[j].valeur
}

/// Cash paid by the first `n` entries of the spend vector `x` over `w`.
pub open spec fn montant(w: Seq<Coupure>, x: Seq<i64>, n: int) -> int
    decreases n,
{
    if n <= 0 {
        0
    } else {
        montant(w, x, n - 1) + x[n - 1] * w[n - 1].valeur
    }
}

/// Items spent by the first `n` entries of the spend vector `x`.
pub open spec fn nombre(x: Seq<i64>, n: int) -> int
    decreases n,
{
    if n <= 0 {
        0
    } else {
        nombre(x, n - 1) + x[n - 1]
    }
}

/// Items spent by the whole spend vector.
pub open spec fn nombre_total(x: Seq<i64>) -> int {
    nombre(x, x.len() as int)
}

/// `x` spends, for each denomination of `w`, between none and all of it, and
/// pays exactly `cible`.
pub open spec fn est_solution(w: Seq<Coupure>, cible: int, x: Seq<i64>) -> bool {
    &&& x.len() == w.len()
    &&& forall|i: int| 0 <= i < x.len() ==> 0 <= #[trigger] x[i] <= w[i].quantite
    &&& montant(w, x, w.len() as int) == cible
}

/// `x` and `y` agree on their first `n` entries.
pub open spec fn prefixe_commun(x: Seq<i64>, y: Seq<i64>, n: int) -> bool {
    forall|i: int| 0 <= i < n ==> #[trigger] x[i] == y[i]
}

/// `x` and `y` first differ at `j`, where `x` takes more.
pub open spec fn ecart_en(x: Seq<i64>, y: Seq<i64>, j: int) -> bool {
    &&& 0 <= j < x.len()
    &&& j < y.len()
    &&& prefixe_commun(x, y, j)
    &&& x[j] > y[j]
}

/// `x` comes before `y` in the search order: lexicographically greater.
pub open spec fn lex_sup(x: Seq<i64>, y: Seq<i64>) -> bool {
    exists|j: int| #[trigger] ecart_en(x, y, j)
}

/// `x` is preferred to `y`: fewer items, or as many and met first.
pub open spec fn precede(x: Seq<i64>, y: Seq<i64>) -> bool {
    ||| nombre_total(x) < nombre_total(y)
    ||| (nombre_total(x) == nombre_total(y) && lex_sup(x, y))
}

/// `x` is the solution with the fewest items, and among those with that many
/// the first in the search order (the one taking most of the smallest values).
pub open spec fn est_optimale(w: Seq<Coupure>, cible: int, x: Seq<i64>) -> bool {
    &&& est_solution(w, cible, x)
    &&& forall|y: Seq<i64>| #[trigger] est_solution(w, cible, y) && y != x ==> precede(x, y)
}

/// Solutions whose first `idx` entries are those of `p`.
pub open spec fn dans_branche(w: Seq<Coupure>, cible: int, p: Seq<i64>, idx: int, y: Seq<i64>) -> bool {
    est_solution(w, cible, y) && prefixe_commun(y, p, idx)
}

/// Solutions of the branch of `p` at `idx` that take at least `k` of entry `idx`.
pub open spec fn dans_tranche(
    w: Seq<Coupure>,
    cible: int,
    p: Seq<i64>,
    idx: int,
    k: int,
    y: Seq<i64>,
) -> bool {
    dans_branche(w, cible, p, idx, y) && y[idx] >= k
}

/// Sums over a prefix depend on that prefix alone.
pub proof fn lemme_prefixe(w: Seq<Coupure>, x: Seq<i64>, y: Seq<i64>, n: int)
    requires
        0 <= n,
        prefixe_commun(x, y, n),
    ensures
        montant(w, x, n) == montant(w, y, n),
        nombre(x, n) == nombre(y, n),
    decreases n,
{
    if n > 0 {
        assert(x[n - 1] == y[n - 1]);
        lemme_prefixe(w, x, y, n - 1);
    }
}

/// Cash and item counts grow with the prefix.
pub proof fn lemme_croissant(w: Seq<Coupure>, x: Seq<i64>, i: int, n: int)
    requires
        0 <= i <= n <= x.len(),
        n <= w.len(),
        caisse_bien_formee(w),
        forall|k: int| 0 <= k < n ==> #[trigger] x[k] >= 0,
    ensures
        montant(w, x, i) <= montant(w, x, n),
        nombre(x, i) <= nombre(x, n),
    decreases n - i,
{
    if i < n {
        lemme_croissant(w, x, i, n - 1);
        let a = x[n - 1];
        let v = w[n - 1].valeur;
        assert(w[n - 1].valeur > 0);
        assert(a * v >= 0) by (nonlinear_arith)
            requires
                a >= 0,
                v > 0,
        ;
    }
}

/// Zero entries add neither cash nor items.
pub proof fn lemme_zeros(w: Seq<Coupure>, x: Seq<i64>, m: int, n: int)
    requires
        0 <= m <= n <= x.len(),
        forall|k: int| m <= k < n ==> #[trigger] x[k] == 0,
    ensures
        montant(w, x, n) == montant(w, x, m),
        nombre(x, n) == nombre(x, m),
    decreases n - m,
{
    if m < n {
        assert(x[n - 1] == 0);
        lemme_zeros(w, x, m, n - 1);
    }
}

/// Entries past `m` that add no cash are all zero.
pub proof fn lemme_reste_nul(w: Seq<Coupure>, x: Seq<i64>, m: int, n: int)
    requires
        0 <= m <= n <= x.len(),
        n <= w.len(),
        caisse_bien_formee(w),
        forall|k: int| 0 <= k < n ==> #[trigger] x[k] >= 0,
        montant(w, x, n) == montant(w, x, m),
    ensures
        forall|k: int| m <= k < n ==> #[trigger] x[k] == 0,
    decreases n - m,
{
    if m < n {
        lemme_croissant(w, x, m, n - 1);
        let a = x[n - 1];
        let v = w[n - 1].valeur;
        assert(w[n - 1].valeur > 0);
        assert(a * v >= 0) by (nonlinear_arith)
            requires
                a >= 0,
                v > 0,
        ;
        assert(a == 0) by (nonlinear_arith)
            requires
                a >= 0,
                v > 0,
                a * v <= 0,
        ;
        lemme_reste_nul(w, x, m, n - 1);
    }
}

/// A spend vector never counts fewer than zero items.
pub proof fn lemme_nombre_positif(x: Seq<i64>, n: int)
    requires
        0 <= n <= x.len(),
        forall|k: int| 0 <= k < n ==> #[trigger] x[k] >= 0,
    ensures
        nombre(x, n) >= 0,
    decreases n,
{
    if n > 0 {
        lemme_nombre_positif(x, n - 1);
    }
}

/// Every value is at least 1, so items never exceed cash.
pub proof fn lemme_nombre_montant(w: Seq<Coupure>, x: Seq<i64>, n: int)
    requires
        0 <= n <= x.len(),
        n <= w.len(),
        caisse_bien_formee(w),
        forall|k: int| 0 <= k < n ==> #[trigger] x[k] >= 0,
    ensures
        0 <= nombre(x, n) <= montant(w, x, n),
    decreases n,
{
    if n > 0 {
        lemme_nombre_montant(w, x, n - 1);
        let a = x[n - 1];
        let v = w[n - 1].valeur;
        assert(w[n - 1].valeur > 0);
        assert(a <= a * v) by (nonlinear_arith)
            requires
                a >= 0,
                v > 0,
        ;
    }
}

/// Mutable state of one search: the spend vector being built, and the
/// incumbent (best count so far, and its spend vector).
pub(crate) struct EtatRecherche {
    pub(crate) depenser: Vec<i64>,
    pub(crate) meilleur_qte: i128,
    pub(crate) meilleur_depenser: Vec<i64>,
}

impl EtatRecherche {
    /// Explores every completion of the first `idx` entries of the spend
    /// vector, `a_rendre` still to pay after `qte_rendu` items; replaces the
    /// incumbent by the preferred solution of the branch when that one
    /// spends fewer items. Returns whether it did.
    pub(crate) fn explorer(
        &mut self,
        caisse: &Vec<Coupure>,
        idx: usize,
        a_rendre: i64,
        qte_rendu: i64,
        Ghost(cible): Ghost<int>,
    ) -> (trouve: bool)
        requires
            caisse_bien_formee(caisse@),
            idx <= caisse.len(),
            old(self).depenser.len() == caisse.len(),
            old(self).meilleur_depenser.len() == caisse.len(),
            forall|j: int| idx <= j < caisse.len() ==> #[trigger] old(self).depenser@[j] == 0,
            forall|j: int|
                0 <= j < idx ==> 0 <= #[trigger] old(self).depenser@[j] <= caisse@[j].quantite,
            0 <= a_rendre,
            cible <= i64::MAX,
            montant(caisse@, old(self).depenser@, idx as int) + a_rendre == cible,
            nombre(old(self).depenser@, idx as int) == qte_rendu,
            qte_rendu < old(self).meilleur_qte,
        ensures
            final(self).depenser@ == old(self).depenser@,
            final(self).meilleur_depenser.len() == caisse.len(),
            trouve == exists|y: Seq<i64>|
                #[trigger] dans_branche(caisse@, cible, old(self).depenser@, idx as int, y)
                    && nombre_total(y) < old(self).meilleur_qte,
            trouve ==> {
                let x = final(self).meilleur_depenser@;
                &&& final(self).meilleur_qte == nombre_total(x)
                &&& final(self).meilleur_qte < old(self).meilleur_qte
                &&& dans_branche(caisse@, cible, old(self).depenser@, idx as int, x)
                &&& forall|y: Seq<i64>|
                    #[trigger] dans_branche(caisse@, cible, old(self).depenser@, idx as int, y)
                        && y != x ==> precede(x, y)
            },
            !trouve ==> final(self).meilleur_qte == old(self).meilleur_qte
                && final(self).meilleur_depenser@ == old(self).meilleur_depenser@,
        decreases caisse.len() - idx,
    {
        let ghost w = caisse@;
        let ghost p = self.depenser@;
        let ghost n = caisse.len() as int;
        let ghost b0 = self.meilleur_qte;
        let ghost x0 = self.meilleur_depenser@;
        proof {
            lemme_nombre_montant(w, p, idx as int);
        }
        if a_rendre == 0 {
            if qte_rendu as i128 <= self.meilleur_qte {
                self.meilleur_qte = qte_rendu as i128;
                self.meilleur_depenser = self.depenser.clone();
            }
            proof {
                assert(self.meilleur_depenser@ =~= p);
                lemme_zeros(w, p, idx as int, n);
                assert(est_solution(w, cible, p));
                assert(dans_branche(w, cible, p, idx as int, p));
                assert forall|y: Seq<i64>| #[trigger] dans_branche(w, cible, p, idx as int, y) implies y
                    == p by {
                    lemme_prefixe(w, y, p, idx as int);
                    lemme_reste_nul(w, y, idx as int, n);
                    assert(y =~= p);
                }
            }
            return true;
        }
        if idx >= caisse.len() {
            proof {
                assert forall|y: Seq<i64>| #[trigger] dans_branche(w, cible, p, idx as int, y) implies false by {
                    lemme_prefixe(w, y, p, idx as int);
                }
            }
            return false;
        }
        let v = caisse[idx].valeur;
        let q = caisse[idx].quantite;
        assert(w[idx as int].valeur > 0);
        let par_valeur: i64 = a_rendre / v;
        let qte_max: i64 = if (par_valeur as i128) <= q {
            par_valeur
        } else {
            q as i64
        };
        proof {
            assert(qte_max * v <= a_rendre) by (nonlinear_arith)
                requires
                    0 <= qte_max <= par_valeur,
                    par_valeur == a_rendre / v,
                    v > 0,
                    a_rendre >= 0,
            ;
            assert forall|y: Seq<i64>| #[trigger] dans_branche(w, cible, p, idx as int, y) implies y[idx as int]
                <= qte_max by {
                lemme_prefixe(w, y, p, idx as int);
                lemme_croissant(w, y, idx + 1, n);
                let a = y[idx as int];
                assert(0 <= a <= q);
                assert(a <= par_valeur) by (nonlinear_arith)
                    requires
                        a * v <= a_rendre,
                        par_valeur == a_rendre / v,
                        v > 0,
                        a >= 0,
                ;
            }
        }
        let mut trouve = false;
        let mut j: u64 = qte_max as u64 + 1;
        while j > 0
            invariant
                w == caisse@,
                n == caisse.len(),
                caisse_bien_formee(w),
                idx < n,
                v == w[idx as int].valeur,
                q == w[idx as int].quantite,
                0 <= qte_max <= q,
                qte_max * v <= a_rendre,
                0 <= a_rendre,
                cible <= i64::MAX,
                j <= qte_max + 1,
                p.len() == n,
                p[idx as int] == 0,
                forall|i: int| idx < i < n ==> #[trigger] p[i] == 0,
                forall|i: int| 0 <= i < idx ==> 0 <= #[trigger] p[i] <= w[i].quantite,
                montant(w, p, idx as int) + a_rendre == cible,
                nombre(p, idx as int) == qte_rendu,
                0 <= qte_rendu <= montant(w, p, idx as int),
                qte_rendu < b0,
                forall|y: Seq<i64>| #[trigger]
                    dans_branche(w, cible, p, idx as int, y) ==> y[idx as int] <= qte_max,
                self.depenser.len() == n,
                self.meilleur_depenser.len() == n,
                self.depenser@ == p.update(idx as int, self.depenser@[idx as int]),
                self.depenser@[idx as int] == (if j == qte_max + 1 {
                    0
                } else {
                    j as int
                }),
                self.meilleur_qte <= b0,
                trouve == exists|y: Seq<i64>|
                    #[trigger] dans_tranche(w, cible, p, idx as int, j as int, y)
                        && nombre_total(y) < b0,
                trouve ==> {
                    let x = self.meilleur_depenser@;
                    &&& self.meilleur_qte == nombre_total(x)
                    &&& self.meilleur_qte < b0
                    &&& dans_tranche(w, cible, p, idx as int, j as int, x)
                    &&& forall|y: Seq<i64>|
                        #[trigger] dans_tranche(w, cible, p, idx as int, j as int, y) && y != x
                            ==> precede(x, y)
                },
                !trouve ==> self.meilleur_qte == b0 && self.meilleur_depenser@ == x0,
            decreases j,
        {
            j = j - 1;
            let k = j as i64;
            let ghost bi = self.meilleur_qte;
            let ghost xi = self.meilleur_depenser@;
            let ghost ti = trouve;
            proof {
                assert(k * v <= a_rendre) by (nonlinear_arith)
                    requires
                        0 <= k <= qte_max,
                        qte_max * v <= a_rendre,
                        v > 0,
                ;
                assert(k <= k * v) by (nonlinear_arith)
                    requires
                        0 <= k,
                        v > 0,
                ;
            }
            let qte = qte_rendu + k;
            self.depenser.set(idx, k);
            let ghost d = self.depenser@;
            proof {
                assert(d =~= p.update(idx as int, k as i64));
                assert(prefixe_commun(d, p, idx as int));
                lemme_prefixe(w, d, p, idx as int);
                // a solution of the branch of `d` is one of the branch of `p` taking exactly `k`
                assert forall|y: Seq<i64>| #[trigger] dans_branche(w, cible, d, idx + 1, y) <==> (dans_branche(w, cible, p, idx as int, y)
                    && y[idx as int] == k) by {
                    if dans_branche(w, cible, p, idx as int, y) && y[idx as int] == k {
                        assert forall|i: int| 0 <= i < idx + 1 implies #[trigger] y[i] == d[i] by {
                            if i < idx {
                                assert(y[i] == p[i]);
                            }
                        }
                    }
                    if dans_branche(w, cible, d, idx + 1, y) {
                        assert(y[idx as int] == d[idx as int]);
                        assert forall|i: int| 0 <= i < idx implies #[trigger] y[i] == p[i] by {
                            assert(y[i] == d[i]);
                        }
                    }
                }
                // those spend at least `qte` items, and lose ties to the incumbent of the upper slices
                assert forall|y: Seq<i64>| #[trigger] dans_branche(w, cible, d, idx + 1, y) implies nombre_total(y)
                    >= qte && (ti ==> y != xi && lex_sup(xi, y)) by {
                    lemme_prefixe(w, y, d, idx + 1);
                    lemme_croissant(w, y, idx + 1, n);
                    if ti {
                        assert(dans_tranche(w, cible, p, idx as int, j + 1, xi));
                        assert(prefixe_commun(xi, y, idx as int)) by {
                            assert forall|i: int| 0 <= i < idx implies #[trigger] xi[i] == y[i] by {
                                assert(xi[i] == p[i]);
                                assert(y[i] == d[i]);
                            }
                        }
                        assert(ecart_en(xi, y, idx as int));
                    }
                }
                assert forall|y: Seq<i64>| #[trigger] dans_tranche(w, cible, p, idx as int, j as int, y) <==> (
                dans_tranche(w, cible, p, idx as int, j + 1, y) || dans_branche(w, cible, d, idx + 1, y)) by {
                    if dans_tranche(w, cible, p, idx as int, j as int, y) && y[idx as int] == k {
                        assert(dans_branche(w, cible, d, idx + 1, y));
                    }
                }
            }
            if (qte as i128) < self.meilleur_qte {
                let r = self.explorer(caisse, idx + 1, a_rendre - k * v, qte, Ghost(cible));
                if r {
                    trouve = true;
                }
                proof {
                    assert(self.depenser@ == d);
                    if r {
                        let z = choose|z: Seq<i64>| #[trigger] dans_branche(w, cible, d, idx + 1, z)
                            && nombre_total(z) < bi;
                        assert(dans_tranche(w, cible, p, idx as int, j as int, z));
                        let x = self.meilleur_depenser@;
                        assert(dans_tranche(w, cible, p, idx as int, j as int, x));
                        assert forall|y: Seq<i64>| #[trigger] dans_tranche(w, cible, p, idx as int, j as int, y) && y
                            != x implies precede(x, y) by {
                            if !dans_branche(w, cible, d, idx + 1, y) {
                                assert(dans_tranche(w, cible, p, idx as int, j + 1, y));
                                if ti {
                                    if y != xi {
                                        assert(precede(xi, y));
                                    }
                                } else {
                                    assert(!(nombre_total(y) < b0));
                                }
                            }
                        }
                    } else {
                        assert forall|y: Seq<i64>| #[trigger] dans_tranche(w, cible, p, idx as int, j as int, y) implies !(
                        nombre_total(y) < b0) || ti by {
                            if dans_branche(w, cible, d, idx + 1, y) && !ti {
                                assert(!(nombre_total(y) < bi));
                            }
                        }
                        if ti {
                            assert forall|y: Seq<i64>| #[trigger] dans_tranche(w, cible, p, idx as int, j as int, y) && y
                                != xi implies precede(xi, y) by {
                                if dans_branche(w, cible, d, idx + 1, y) {
                                    assert(!(nombre_total(y) < bi));
                                }
                            }
                            let z = choose|z: Seq<i64>| #[trigger] dans_tranche(w, cible, p, idx as int, j + 1, z)
                                && nombre_total(z) < b0;
                            assert(dans_tranche(w, cible, p, idx as int, j as int, z));
                        }
                    }
                }
            } else {
                proof {
                    assert forall|y: Seq<i64>| #[trigger] dans_tranche(w, cible, p, idx as int, j as int, y) implies !(
                    nombre_total(y) < b0) || ti by {
                        if dans_branche(w, cible, d, idx + 1, y) && !ti {
                            assert(nombre_total(y) >= qte);
                        }
                    }
                    if ti {
                        assert forall|y: Seq<i64>| #[trigger] dans_tranche(w, cible, p, idx as int, j as int, y) && y
                            != xi implies precede(xi, y) by {
                            if dans_branche(w, cible, d, idx + 1, y) {
                                assert(nombre_total(y) >= qte);
                            }
                        }
                        let z = choose|z: Seq<i64>| #[trigger] dans_tranche(w, cible, p, idx as int, j + 1, z)
                            && nombre_total(z) < b0;
                        assert(dans_tranche(w, cible, p, idx as int, j as int, z));
                    }
                }
            }
        }
        proof {
            assert(self.depenser@ =~= p);
            assert forall|y: Seq<i64>| #[trigger] dans_branche(w, cible, p, idx as int, y) implies dans_tranche(
                w,
                cible,
                p,
                idx as int,
                0,
                y,
            ) by {
                assert(y[idx as int] >= 0);
            }
        }
        trouve
    }
}

} // verus!
