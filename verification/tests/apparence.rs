use colonie_mars::apparence::TypeCombinaison;

#[test]
fn les_combinaisons_et_leur_equipement() {
    let toutes = [
        TypeCombinaison::Interieure,
        TypeCombinaison::Vehicule,
        TypeCombinaison::EvaPlanetaireLegere,
        TypeCombinaison::EvaPlanetaireLourde,
    ];
    let libelles: Vec<&str> = toutes.iter().map(|t| t.label()).collect();
    assert_eq!(libelles, vec!["interieure", "vehicule", "eva_legere", "eva_lourde"]);
    let eva: Vec<bool> = toutes.iter().map(|t| t.est_eva()).collect();
    assert_eq!(eva, vec![false, false, true, true]);
    let casque: Vec<bool> = toutes.iter().map(|t| t.casque_integral()).collect();
    assert_eq!(casque, vec![false, true, true, true]);
    let sac: Vec<bool> = toutes.iter().map(|t| t.sac_dorsal()).collect();
    assert_eq!(sac, vec![false, false, true, true]);
}
