use colonie_mars::deplacement::{
    cible_tache, cout_retour_ouvrier, decider_tache, limite_navigation, pas_vers_la_base,
    DecisionOuvrier,
};
use colonie_mars::grille::Cellule;
use colonie_mars::monde::TerrainCell;
use colonie_mars::recharge::ZoneRechargeBase;
use colonie_mars::structures::{StructureId, StructureKind, StructureState, TaskId};
use colonie_mars::taches::{Task, TaskKind};

fn c(x: i32, y: i32) -> Cellule {
    Cellule::new(x, y)
}

fn sol(_: Cellule) -> TerrainCell {
    TerrainCell { pente_marchable: true, constructible: true, resource: None, blocked: false }
}

fn base() -> Vec<StructureState> {
    vec![
        StructureState { id: StructureId(1), kind: StructureKind::Lander, anchor: c(0, 0), built: true, network_id: Some(0) },
        StructureState { id: StructureId(2), kind: StructureKind::Storage, anchor: c(5, 0), built: true, network_id: Some(0) },
    ]
}

fn zone() -> ZoneRechargeBase {
    ZoneRechargeBase::depuis_cellules(vec![c(-1, 0), c(0, -1), c(-1, -1)])
}

fn tache(kind: TaskKind, cible: Cellule) -> Task {
    Task { id: TaskId(1), kind, priority: 100, target_cell: cible, assigned_to: None }
}

#[test]
fn la_limite_de_navigation_ajoute_une_marge_a_lautonomie() {
    assert_eq!(limite_navigation(), 468);
}

#[test]
fn un_ouvrier_sur_sa_cible_travaille() {
    let t = tache(TaskKind::Build { structure: StructureId(2) }, c(4, 0));
    assert_eq!(decider_tache(c(4, 0), &t, false, &base(), &zone(), &sol), DecisionOuvrier::Travailler);
}

#[test]
fn un_ouvrier_loin_de_sa_cible_avance_dun_pas() {
    let t = tache(TaskKind::Build { structure: StructureId(2) }, c(4, 0));
    assert_eq!(
        decider_tache(c(-1, 0), &t, false, &base(), &zone(), &sol),
        DecisionOuvrier::Avancer { prochain_pas: c(-1, -1), cout_aller: 7, cout_retour: 5 }
    );
}

#[test]
fn une_tache_sans_sa_structure_est_abandonnee() {
    let t = tache(TaskKind::Build { structure: StructureId(9) }, c(4, 0));
    assert_eq!(decider_tache(c(4, 0), &t, false, &base(), &zone(), &sol), DecisionOuvrier::Abandonner);
    let transport = tache(TaskKind::HaulIce { source_cell: c(8, 8), target: StructureId(9) }, c(4, 0));
    assert_eq!(decider_tache(c(8, 8), &transport, true, &base(), &zone(), &sol), DecisionOuvrier::Abandonner);
    assert_eq!(decider_tache(c(8, 8), &transport, false, &base(), &zone(), &sol), DecisionOuvrier::Travailler);
}

#[test]
fn sans_retour_possible_la_tache_est_abandonnee() {
    let t = tache(TaskKind::Extract { cell: c(4, 4) }, c(4, 4));
    let vide = ZoneRechargeBase::depuis_cellules(vec![]);
    assert_eq!(decider_tache(c(-1, 0), &t, false, &base(), &vide, &sol), DecisionOuvrier::Abandonner);
}

#[test]
fn le_transport_va_a_la_glace_puis_au_stockage() {
    let t = tache(TaskKind::HaulIce { source_cell: c(8, 8), target: StructureId(2) }, c(4, 0));
    assert_eq!(cible_tache(c(-1, 0), &t, false, &base(), &sol), Some(c(8, 8)));
    assert_eq!(cible_tache(c(-1, 0), &t, true, &base(), &sol), Some(c(4, 0)));
}

#[test]
fn le_ravitaillement_va_chercher_la_glace_au_plus_pres_de_la_source() {
    let t = tache(TaskKind::RefuelStructure { source: StructureId(2), target: StructureId(1) }, c(2, 0));
    assert_eq!(cible_tache(c(-1, 0), &t, false, &base(), &sol), Some(c(4, 0)));
    assert_eq!(cible_tache(c(-1, 0), &t, true, &base(), &sol), Some(c(2, 0)));
    let sans_source = tache(TaskKind::RefuelStructure { source: StructureId(7), target: StructureId(1) }, c(2, 0));
    assert_eq!(cible_tache(c(-1, 0), &sans_source, false, &base(), &sol), None);
    assert_eq!(decider_tache(c(-1, 0), &sans_source, false, &base(), &zone(), &sol), DecisionOuvrier::Abandonner);
}

#[test]
fn le_retour_vers_la_base_suit_le_chemin_le_plus_court() {
    assert_eq!(pas_vers_la_base(&zone(), &base(), c(4, 0), &sol), Some(c(3, 0)));
    assert_eq!(pas_vers_la_base(&zone(), &base(), c(-1, 0), &sol), None);
    assert_eq!(cout_retour_ouvrier(&zone(), &base(), c(4, 0), &sol), Some(5));
    assert_eq!(cout_retour_ouvrier(&zone(), &base(), c(0, -1), &sol), Some(0));
    let vide = ZoneRechargeBase::depuis_cellules(vec![]);
    assert_eq!(cout_retour_ouvrier(&vide, &base(), c(4, 0), &sol), None);
}
