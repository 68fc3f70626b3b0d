use rendu_monnaie::{coin_change, rendu_de_monnaie, Defaut, Monnaie, MonnaieExtension, RenduError};

fn m(valeur: i64, quantite: i64) -> Monnaie {
    Monnaie { valeur, quantite }
}

fn somme(r: &[Monnaie]) -> i64 {
    r.iter().map(|e| e.valeur * e.quantite).sum()
}

fn nombre(r: &[Monnaie]) -> i64 {
    r.iter().map(|e| e.quantite).sum()
}

#[test]
fn rend_25_avec_trois_valeurs() {
    let r = rendu_de_monnaie(25, &vec![1.euro_x(5), 10.euro_x(1), 2.euro_x(5)]).unwrap();
    assert_eq!(somme(&r), 25);
    assert_eq!(r, vec![m(1, 5), m(2, 5), m(10, 1)]);
}

#[test]
fn rend_28_avec_deux_pieces_de_14() {
    let r = rendu_de_monnaie(28, &vec![20.euro_x(1), 1.euro_x(10), 14.euro_x(5)]);
    assert_eq!(r, Ok(vec![m(14, 2)]));
}

#[test]
fn pas_assez_pour_200() {
    let r = rendu_de_monnaie(200, &vec![10.euro_x(1), 1.euro_x(5), 2.euro_x(5)]);
    assert_eq!(r, Err(RenduError::InsufficientFunds));
}

#[test]
fn valeur_nulle_ignoree() {
    let r = rendu_de_monnaie(50, &vec![0.euro_x(50)]);
    assert_eq!(r, Err(RenduError::InsufficientFunds));
}

#[test]
fn quantite_negative_refusee() {
    let r = rendu_de_monnaie(50, &vec![500.euro_x(1), 50.euro_x(-5)]);
    assert_eq!(r, Err(RenduError::InvalidDenomination(Defaut::QuantiteNegative)));
}

#[test]
fn valeur_negative_refusee() {
    let r = rendu_de_monnaie(50, &vec![1.euro_x(500), (-5).euro_x(50)]);
    assert_eq!(r, Err(RenduError::InvalidDenomination(Defaut::ValeurNegative)));
}

#[test]
fn premier_defaut_rapporte() {
    let r = rendu_de_monnaie(7, &vec![(-1).euro_x(-1), 3.euro_x(-2)]);
    assert_eq!(r, Err(RenduError::InvalidDenomination(Defaut::ValeurNegative)));
    let r = rendu_de_monnaie(7, &vec![3.euro_x(-2), (-1).euro_x(2)]);
    assert_eq!(r, Err(RenduError::InvalidDenomination(Defaut::QuantiteNegative)));
}

#[test]
fn entree_nulle_negative_ignoree() {
    let r = rendu_de_monnaie(4, &vec![0.euro_x(-5), (-3).euro_x(0), 2.euro_x(2)]);
    assert_eq!(r, Ok(vec![m(2, 2)]));
}

#[test]
fn defaut_quelle_que_soit_la_cible_positive() {
    let caisse = vec![5.euro_x(2), 1.euro_x(-1)];
    for cible in [1, 5, 10, 1000] {
        assert_eq!(
            rendu_de_monnaie(cible, &caisse),
            Err(RenduError::InvalidDenomination(Defaut::QuantiteNegative))
        );
    }
}

#[test]
fn cible_nulle_ou_negative_avant_les_entrees() {
    let caisse = vec![5.euro_x(2), 1.euro_x(-1)];
    assert_eq!(rendu_de_monnaie(0, &caisse), Ok(vec![]));
    assert_eq!(rendu_de_monnaie(-3, &caisse), Err(RenduError::NegativeTarget));
}

#[test]
fn pas_assez_pour_mille_milliards_et_un() {
    let r = rendu_de_monnaie(1_000_000_000_001, &vec![1.euro_x(1_000_000_000_000)]);
    assert_eq!(r, Err(RenduError::InsufficientFunds));
}

#[test]
fn grandes_valeurs_sans_debordement() {
    let r = rendu_de_monnaie(
        3_000_000_000_000,
        &vec![1_000_000_000_000.euro_x(1_000_000_000_000), 2_000_000_000_000.euro_x(1)],
    );
    assert_eq!(r, Ok(vec![m(1_000_000_000_000, 1), m(2_000_000_000_000, 1)]));
    let r = rendu_de_monnaie(i64::MAX, &vec![i64::MAX.euro_x(i64::MAX), i64::MAX.euro_x(i64::MAX)]);
    assert_eq!(r, Ok(vec![m(i64::MAX, 1)]));
}

#[test]
fn rend_6249_avec_grandes_quantites() {
    let r = rendu_de_monnaie(
        6249,
        &vec![186.euro_big_qte(), 419.euro_big_qte(), 83.euro_big_qte(), 408.euro_big_qte()],
    )
    .unwrap();
    assert_eq!(somme(&r), 6249);
}

#[test]
fn cible_nulle_rend_rien() {
    assert_eq!(rendu_de_monnaie(0, &vec![]), Ok(vec![]));
    assert_eq!(rendu_de_monnaie(0, &vec![5.euro_x(3)]), Ok(vec![]));
}

#[test]
fn cible_negative_refusee() {
    assert_eq!(rendu_de_monnaie(-1, &vec![5.euro_x(3)]), Err(RenduError::NegativeTarget));
    assert_eq!(rendu_de_monnaie(i64::MIN, &vec![]), Err(RenduError::NegativeTarget));
}

#[test]
fn montant_impossible() {
    assert_eq!(rendu_de_monnaie(3, &vec![2.euro_x(5)]), Err(RenduError::Infeasible));
    assert_eq!(rendu_de_monnaie(7, &vec![5.euro_x(1), 3.euro_x(1)]), Err(RenduError::Infeasible));
}

#[test]
fn caisse_vide() {
    assert_eq!(rendu_de_monnaie(1, &vec![]), Err(RenduError::InsufficientFunds));
}

#[test]
fn doublons_fusionnes() {
    assert_eq!(rendu_de_monnaie(10, &vec![5.euro_x(1), 5.euro_x(1)]), Ok(vec![m(5, 2)]));
    assert_eq!(
        rendu_de_monnaie(9, &vec![3.euro_x(1), 1.euro_x(1), 3.euro_x(2)]),
        Ok(vec![m(3, 3)])
    );
}

#[test]
fn quantites_limitees_respectees() {
    let r = rendu_de_monnaie(10, &vec![5.euro_x(1), 1.euro_x(10)]).unwrap();
    assert_eq!(r, vec![m(1, 5), m(5, 1)]);
    assert_eq!(nombre(&r), 6);
}

#[test]
fn minimum_sur_glouton() {
    // greedy would take 4 + 1 + 1; the fewest is 3 + 3
    let r = rendu_de_monnaie(6, &vec![1.euro_x(10), 3.euro_x(10), 4.euro_x(10)]).unwrap();
    assert_eq!(r, vec![m(3, 2)]);
}

#[test]
fn egalite_departagee_par_les_petites_valeurs() {
    let r = rendu_de_monnaie(4, &vec![1.euro_x(10), 2.euro_x(10), 3.euro_x(10)]).unwrap();
    assert_eq!(r, vec![m(1, 1), m(3, 1)]);
}

#[test]
fn meme_appel_meme_resultat() {
    let caisse = vec![7.euro_x(3), 2.euro_x(9), 5.euro_x(4), 7.euro_x(1)];
    for cible in [-2, 0, 1, 13, 29, 1000] {
        assert_eq!(rendu_de_monnaie(cible, &caisse), rendu_de_monnaie(cible, &caisse));
    }
}

#[test]
fn resultat_exact_et_ordonne() {
    let caisse = vec![7.euro_x(3), 2.euro_x(9), 5.euro_x(4), 7.euro_x(1)];
    for cible in 1..60 {
        if let Ok(r) = rendu_de_monnaie(cible, &caisse) {
            assert_eq!(somme(&r), cible);
            assert!(r.windows(2).all(|p| p[0].valeur < p[1].valeur));
            assert!(r.iter().all(|e| e.quantite > 0));
        }
    }
}

#[test]
fn construction_des_monnaies() {
    assert_eq!(3.euro_x(7), m(3, 7));
    assert_eq!(20.euro_big_qte(), m(20, 1000));
}

#[test]
fn coin_change_exemples() {
    assert_eq!(coin_change(vec![1, 2, 5], 11), 3);
    assert_eq!(coin_change(vec![2], 3), -1);
    assert_eq!(coin_change(vec![1], 0), 0);
    assert_eq!(coin_change(vec![186, 419, 83, 408], 6249), 20);
}

#[test]
fn coin_change_refus() {
    assert_eq!(coin_change(vec![-1, 2], 4), -1);
    assert_eq!(coin_change(vec![1, 2], -4), -1);
    assert_eq!(coin_change(vec![], 4), -1);
}
