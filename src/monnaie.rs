use vstd::prelude::*;

verus! {

/// One kind of coin or note, and how many of it are at hand.
#[derive(Clone, Copy, Debug, PartialEq, Eq, Structural)]
pub struct Monnaie {
    pub valeur: i64,
    pub quantite: i64,
}

/// Shorthand for writing a denomination as `value.euro_x(quantity)`.
pub trait MonnaieExtension where Self: Sized {
    fn euro_x(self, qte: i64) -> Monnaie;

    fn euro_big_qte(self) -> Monnaie {
        self.euro_x(1000)
    }
}

impl MonnaieExtension for i64 {
    fn euro_x(self, qte: i64) -> (r: Monnaie)
        ensures
            r.valeur == self,
            r.quantite == qte,
    {
        Monnaie { valeur: self, quantite: qte }
    }

    fn euro_big_qte(self) -> (r: Monnaie)
        ensures
            r.valeur == self,
            r.quantite == 1000,
    {
        self.euro_x(1000)
    }
}

/// What is wrong with a rejected denomination.
#[derive(Clone, Copy, Debug, PartialEq, Eq, Structural)]
pub enum Defaut {
    ValeurNegative,
    QuantiteNegative,
}

/// Why no change can be given.
#[derive(Clone, Copy, Debug, PartialEq, Eq, Structural)]
pub enum RenduError {
    /// A denomination has a negative value or a negative quantity.
    InvalidDenomination(Defaut),
    /// The amount asked for is negative.
    NegativeTarget,
    /// All the cash at hand is worth less than the amount.
    InsufficientFunds,
    /// Enough cash, but no combination sums exactly to the amount.
    Infeasible,
}

/// A denomination of the normalized wallet: its quantity is the sum of all
/// the entries of that value, hence the wider type.
#[derive(Clone, Copy, Debug, PartialEq, Eq, Structural)]
pub struct Coupure {
    pub valeur: i64,
    pub quantite: i128,
}

} // verus!
