use colonie_mars::grille::Cellule;
use colonie_mars::monde::{ChunkCoord, ChunkState, CoordLocale, ResourceDeposit, ResourceKind, TerrainCell};
use colonie_mars::recharge::{cellules_origine_base, ZoneRechargeBase};
use colonie_mars::structures::{AstronautId, StructureId, StructureKind, StructureState, TaskId};
use colonie_mars::tableau::{
    cibles_structures, generer_taches, gisements_candidats, indice_du_stockage, make_task,
    peut_stocker_glace, support_principal, task_id_of,
};
use colonie_mars::taches::{active_task_assignments, Astronaut, AstronautStatus, TaskKind};
use std::collections::hash_map::DefaultHasher;
use std::hash::{Hash, Hasher};

fn c(x: i32, y: i32) -> Cellule {
    Cellule::new(x, y)
}

fn sol(_: Cellule) -> TerrainCell {
    TerrainCell { pente_marchable: true, constructible: true, resource: None, blocked: false }
}

fn structure(id: u32, kind: StructureKind, anchor: Cellule, built: bool) -> StructureState {
    StructureState { id: StructureId(id), kind, anchor, built, network_id: None }
}

fn hachage_derive(kind: &TaskKind) -> u64 {
    let mut hasher = DefaultHasher::new();
    kind.hash(&mut hasher);
    hasher.finish()
}

#[test]
fn lidentifiant_dune_tache_est_le_hachage_de_son_genre() {
    let genres = [
        TaskKind::Build { structure: StructureId(7) },
        TaskKind::Extract { cell: c(-3, 12) },
        TaskKind::HaulIce { source_cell: c(4, -9), target: StructureId(2) },
        TaskKind::RefuelStructure { source: StructureId(2), target: StructureId(5) },
        TaskKind::ReturnToBase { target: StructureId(1) },
    ];
    for genre in &genres {
        assert_eq!(task_id_of(genre), TaskId(hachage_derive(genre)));
    }
    assert_ne!(task_id_of(&genres[0]), task_id_of(&TaskKind::Build { structure: StructureId(8) }));
}

#[test]
fn une_tache_garde_son_ouvrier_dun_cycle_a_lautre() {
    let genre = TaskKind::Extract { cell: c(5, 5) };
    let astronautes = [Astronaut {
        id: AstronautId(3),
        name: "Ari",
        current_task: Some(task_id_of(&genre)),
        status: AstronautStatus::Working,
    }];
    let affectations = active_task_assignments(&astronautes);
    let tache = make_task(&affectations, genre, 65, c(5, 5));
    assert_eq!(tache.id, task_id_of(&genre));
    assert_eq!(tache.assigned_to, Some(AstronautId(3)));
    let autre = make_task(&affectations, TaskKind::Extract { cell: c(6, 5) }, 65, c(6, 5));
    assert_eq!(autre.assigned_to, None);
}

#[test]
fn generation_de_tache_de_construction_cible_une_case_d_interaction() {
    let structures = vec![
        structure(1, StructureKind::Lander, c(0, 0), true),
        structure(2, StructureKind::Storage, c(3, 0), false),
    ];
    let zone = ZoneRechargeBase::depuis_cellules(vec![c(-1, 0), c(0, -1), c(-1, -1)]);
    let origines = cellules_origine_base(&zone);
    let cibles = cibles_structures(&structures, &origines, 340, &sol);
    let affectations = active_task_assignments(&[]);
    let taches = generer_taches(
        &affectations,
        &structures,
        &cibles,
        &[StructureId(1)],
        false,
        true,
        &[],
        &[],
        &[false, false],
    );
    let tache_construction = taches
        .iter()
        .find(|task| matches!(task.kind, TaskKind::Build { structure } if structure == StructureId(2)))
        .expect("une tache de construction est attendue");

    assert_ne!(tache_construction.target_cell, c(3, 0));
    assert!([c(2, 0), c(4, 0), c(3, 1), c(3, -1)].contains(&tache_construction.target_cell));
}

#[test]
fn le_tableau_suit_lordre_construction_extraction_transport_ravitaillement() {
    let structures = vec![
        structure(1, StructureKind::Lander, c(0, 0), true),
        structure(2, StructureKind::OxygenExtractor, c(4, 0), true),
        structure(3, StructureKind::Habitat, c(0, 4), false),
        structure(4, StructureKind::Storage, c(-3, 0), true),
    ];
    let cibles = vec![Some(c(-1, 0)), Some(c(6, 0)), Some(c(0, 6)), Some(c(-4, 0))];
    let connectees = [StructureId(1), StructureId(2), StructureId(4)];
    let affectations = active_task_assignments(&[]);
    let gisements = [c(10, 10), c(11, 10), c(12, 10), c(13, 10)];
    let glace = [c(2, 8), c(2, 8)];
    let taches = generer_taches(
        &affectations,
        &structures,
        &cibles,
        &connectees,
        true,
        true,
        &glace,
        &gisements,
        &[true, true, true, true],
    );
    let genres: Vec<TaskKind> = taches.iter().map(|t| t.kind).collect();
    assert_eq!(
        genres,
        vec![
            TaskKind::Build { structure: StructureId(3) },
            TaskKind::Extract { cell: c(10, 10) },
            TaskKind::Extract { cell: c(11, 10) },
            TaskKind::Extract { cell: c(12, 10) },
            TaskKind::HaulIce { source_cell: c(2, 8), target: StructureId(1) },
            TaskKind::HaulIce { source_cell: c(2, 8), target: StructureId(1) },
            TaskKind::RefuelStructure { source: StructureId(1), target: StructureId(2) },
        ]
    );
    let priorites: Vec<i32> = taches.iter().map(|t| t.priority).collect();
    assert_eq!(priorites, vec![100, 65, 65, 65, 80, 80, 90]);
    assert_eq!(taches[0].target_cell, c(0, 6));
    assert_eq!(taches[4].target_cell, c(-1, 0));
    assert_eq!(taches[6].target_cell, c(6, 0));
    assert_eq!(indice_du_stockage(&structures, &cibles, &connectees), Some(0));
    assert_eq!(support_principal(&structures, &cibles, &connectees), Some(0));
}

#[test]
fn sans_stockage_joignable_ni_transport_ni_ravitaillement() {
    let structures = vec![
        structure(1, StructureKind::Lander, c(0, 0), true),
        structure(2, StructureKind::OxygenExtractor, c(4, 0), true),
    ];
    let cibles = vec![None, Some(c(6, 0))];
    let affectations = active_task_assignments(&[]);
    let taches = generer_taches(
        &affectations,
        &structures,
        &cibles,
        &[StructureId(1), StructureId(2)],
        false,
        true,
        &[c(2, 8)],
        &[c(10, 10)],
        &[true, true],
    );
    assert!(taches.is_empty());
    assert_eq!(indice_du_stockage(&structures, &cibles, &[StructureId(1), StructureId(2)]), None);
    assert!(peut_stocker_glace(StructureKind::Lander));
    assert!(peut_stocker_glace(StructureKind::Storage));
    assert!(!peut_stocker_glace(StructureKind::Habitat));
}

#[test]
fn sans_glace_en_reserve_pas_de_ravitaillement() {
    let structures = vec![
        structure(1, StructureKind::Storage, c(0, 0), true),
        structure(2, StructureKind::OxygenExtractor, c(4, 0), true),
    ];
    let cibles = vec![Some(c(-1, 0)), Some(c(6, 0))];
    let affectations = active_task_assignments(&[]);
    let connectees = [StructureId(1), StructureId(2)];
    let taches = generer_taches(&affectations, &structures, &cibles, &connectees, false, false, &[], &[], &[true, true]);
    assert!(taches.is_empty());
    let taches = generer_taches(&affectations, &structures, &cibles, &connectees, false, true, &[], &[], &[true, false]);
    assert!(taches.is_empty());
    let taches = generer_taches(&affectations, &structures, &cibles, &connectees, false, true, &[], &[], &[false, true]);
    assert_eq!(taches.len(), 1);
    assert_eq!(taches[0].kind, TaskKind::RefuelStructure { source: StructureId(1), target: StructureId(2) });
}

fn chunk(coord: ChunkCoord, gisements: &[(CoordLocale, u16)], liste: Vec<CoordLocale>) -> ChunkState {
    let mut cells = vec![sol(c(0, 0)); 32 * 32];
    for (local, amount) in gisements {
        cells[(local.y * 32 + local.x) as usize].resource = Some(ResourceDeposit { kind: ResourceKind::Ice, amount: *amount });
    }
    ChunkState { coord, cells, resource_cells: liste }
}

#[test]
fn les_gisements_candidats_ecartent_les_vides_et_la_glace_libre() {
    let a = CoordLocale { x: 1, y: 2 };
    let b = CoordLocale { x: 3, y: 4 };
    let vide = CoordLocale { x: 5, y: 6 };
    let premier = chunk(ChunkCoord { x: 0, y: 0 }, &[(a, 4), (b, 2), (vide, 0)], vec![b, vide, a]);
    let second = chunk(ChunkCoord { x: -1, y: 1 }, &[(a, 1)], vec![a, CoordLocale { x: 40, y: 0 }]);
    let candidats = gisements_candidats(&[premier, second], &[c(1, 2)]);
    assert_eq!(candidats, vec![c(3, 4), c(-31, 34)]);
}
