//! The kinds of suit a crew member wears, and what each one carries.
use vstd::prelude::*;

verus! {

#[derive(Clone, Copy, Debug, PartialEq, Eq, Structural)]
pub enum TypeCombinaison {
    Interieure,
    Vehicule,
    EvaPlanetaireLegere,
    EvaPlanetaireLourde,
}

/// The name a suit is shown under.
pub open spec fn libelle_combinaison(t: TypeCombinaison) -> &'static str {
    match t {
        TypeCombinaison::Interieure => "interieure",
        TypeCombinaison::Vehicule => "vehicule",
        TypeCombinaison::EvaPlanetaireLegere => "eva_legere",
        TypeCombinaison::EvaPlanetaireLourde => "eva_lourde",
    }
}

/// A suit for walking outside on the planet.
pub open spec fn combinaison_eva(t: TypeCombinaison) -> bool {
    t == TypeCombinaison::EvaPlanetaireLegere || t == TypeCombinaison::EvaPlanetaireLourde
}

impl TypeCombinaison {
    pub fn label(self) -> (r: &'static str)
        ensures
            r == libelle_combinaison(self),
    {
        match self {
            TypeCombinaison::Interieure => "interieure",
            TypeCombinaison::Vehicule => "vehicule",
            TypeCombinaison::EvaPlanetaireLegere => "eva_legere",
            TypeCombinaison::EvaPlanetaireLourde => "eva_lourde",
        }
    }

    pub fn est_eva(self) -> (r: bool)
        ensures
            r == combinaison_eva(self),
    {
        match self {
            TypeCombinaison::EvaPlanetaireLegere | TypeCombinaison::EvaPlanetaireLourde => true,
            _ => false,
        }
    }

    /// Every suit but the indoor one closes with a full helmet.
    pub fn casque_integral(self) -> (r: bool)
        ensures
            r == (self != TypeCombinaison::Interieure),
    {
        match self {
            TypeCombinaison::Interieure => false,
            _ => true,
        }
    }

    /// The outdoor suits carry a backpack.
    pub fn sac_dorsal(self) -> (r: bool)
        ensures
            r == combinaison_eva(self),
    {
        match self {
            TypeCombinaison::EvaPlanetaireLegere | TypeCombinaison::EvaPlanetaireLourde => true,
            _ => false,
        }
    }
}

} // verus!
