use colonie_mars::grille::Cellule;
use colonie_mars::interactions::{
    validate_structure_placement, EtatConnexionPlacement, RaisonPlacement,
};
use colonie_mars::monde::TerrainCell;
use colonie_mars::recharge::ZoneRechargeBase;
use colonie_mars::structures::{StructureId, StructureKind, StructureState};

fn terrain_libre(_: Cellule) -> TerrainCell {
    TerrainCell { pente_marchable: true, constructible: true, resource: None, blocked: false }
}

fn c(x: i32, y: i32) -> Cellule {
    Cellule::new(x, y)
}

fn lander_principal() -> StructureState {
    StructureState {
        id: StructureId(1),
        kind: StructureKind::Lander,
        anchor: c(0, 0),
        built: true,
        network_id: Some(0),
    }
}

#[test]
fn refuse_un_placement_sur_case_occupee() {
    let structures = vec![lander_principal()];
    let validation = validate_structure_placement(
        StructureKind::Storage,
        c(1, 0),
        &structures,
        &ZoneRechargeBase::default(),
        &terrain_libre,
    );
    assert!(!validation.valid);
}

#[test]
fn signale_un_module_valide_mais_non_connecte() {
    let structures = vec![lander_principal()];
    let zone = ZoneRechargeBase::depuis_cellules(vec![c(-1, 0), c(0, -1)]);
    let validation =
        validate_structure_placement(StructureKind::Storage, c(4, 0), &structures, &zone, &terrain_libre);
    assert!(validation.valid);
    assert_eq!(validation.etat_connexion, EtatConnexionPlacement::NonConnecte);
}

#[test]
fn refuse_un_module_inaccessible_depuis_la_base() {
    let zone = ZoneRechargeBase::depuis_cellules(vec![c(0, 0)]);
    let terrain = |cellule: Cellule| TerrainCell {
        pente_marchable: true,
        constructible: true,
        resource: None,
        blocked: cellule.x == 1,
    };
    let validation =
        validate_structure_placement(StructureKind::Storage, c(2, 0), &[], &zone, &terrain);
    assert!(!validation.valid);
    assert!(validation.raison.libelle(validation.etat_connexion).contains("inaccessible"));
}

#[test]
fn refuse_un_module_hors_portee_eva() {
    let zone = ZoneRechargeBase::depuis_cellules(vec![c(0, 0)]);
    let validation =
        validate_structure_placement(StructureKind::Storage, c(360, 0), &[], &zone, &terrain_libre);
    assert!(!validation.valid);
    assert!(validation.raison.libelle(validation.etat_connexion).contains("EVA"));
}

#[test]
fn un_placement_connecte_donne_son_cout_et_sa_case() {
    let structures = vec![lander_principal()];
    let zone = ZoneRechargeBase::depuis_cellules(vec![c(-1, 0), c(0, -1)]);
    let validation =
        validate_structure_placement(StructureKind::Storage, c(2, 0), &structures, &zone, &terrain_libre);
    assert!(validation.valid);
    assert_eq!(validation.raison, RaisonPlacement::Valide);
    assert_eq!(validation.etat_connexion, EtatConnexionPlacement::Connecte);
    let cellule = validation.cellule_interaction.expect("une case d'interaction");
    assert_eq!(cellule, c(2, -1));
    assert_eq!(validation.cout_acces, Some(2));
    assert_eq!(validation.raison.libelle(validation.etat_connexion), "Placement valide.");
}

#[test]
fn un_terrain_non_constructible_est_refuse() {
    let zone = ZoneRechargeBase::depuis_cellules(vec![c(0, 0)]);
    let terrain = |cellule: Cellule| TerrainCell {
        pente_marchable: true,
        constructible: cellule.x != 5,
        resource: None,
        blocked: false,
    };
    let validation =
        validate_structure_placement(StructureKind::Habitat, c(4, 0), &[], &zone, &terrain);
    assert_eq!(validation.raison, RaisonPlacement::TerrainInadapte);
}

#[test]
fn sans_zone_de_recharge_aucune_zone_de_travail() {
    let validation = validate_structure_placement(
        StructureKind::Storage,
        c(4, 0),
        &[],
        &ZoneRechargeBase::vide(),
        &terrain_libre,
    );
    assert_eq!(validation.raison, RaisonPlacement::AucuneZoneTravail);
}

#[test]
fn un_module_emmure_na_aucun_acces_pieton() {
    let zone = ZoneRechargeBase::depuis_cellules(vec![c(10, 10)]);
    let terrain = |cellule: Cellule| TerrainCell {
        pente_marchable: !(cellule.x != 0 || cellule.y != 0),
        constructible: true,
        resource: None,
        blocked: false,
    };
    let validation =
        validate_structure_placement(StructureKind::Storage, c(0, 0), &[], &zone, &terrain);
    assert_eq!(validation.raison, RaisonPlacement::AucunAccesPieton);
}
