use colonie_mars::grille::Cellule;
use colonie_mars::monde::TerrainCell;
use colonie_mars::promenade::{choisir_cible_promenade, score_deterministe_cellule};
use colonie_mars::recharge::{
    calculer_zone_recharge_base, chemin_vers_recharge_ouvrier, position_sur_module_support,
    ZoneRechargeBase,
};
use colonie_mars::reseaux::{compute_life_support_networks, recompute_life_support};
use colonie_mars::structures::{
    definition_structure, footprints_touch, structure_cells, structures_connectees_par_proximite,
    AstronautId, StructureId, StructureIdAllocator, StructureKind, StructureState, TaskId,
};
use colonie_mars::taches::{
    active_task_assignments, assign_available_tasks, bonus_role_pour_tache,
    task_needs_missing_structure, Astronaut, AstronautStatus, RoleAstronaute, Task, TaskKind,
    WorkerSnapshot,
};
use std::collections::HashMap;
use std::hash::{Hash, Hasher};

fn c(x: i32, y: i32) -> Cellule {
    Cellule::new(x, y)
}

fn structure_test(id: u32, kind: StructureKind, anchor: Cellule) -> StructureState {
    StructureState { id: StructureId(id), kind, anchor, built: true, network_id: None }
}

fn terrain_marchable(_: Cellule) -> TerrainCell {
    TerrainCell { pente_marchable: true, constructible: true, resource: None, blocked: false }
}

fn bonus(vitesse: f32) -> i32 {
    ((vitesse - 1.0) * 12.0).round() as i32
}

fn ouvrier(id: u32, role: RoleAstronaute, construction: f32, transport: f32, extraction: f32) -> WorkerSnapshot {
    let suit_oxygen: f32 = 100.0;
    WorkerSnapshot {
        id: AstronautId(id),
        position: c(0, 0),
        current_task: None,
        air_suffisant: suit_oxygen >= 48.0,
        alive: true,
        role,
        bonus_construction: bonus(construction),
        bonus_transport: bonus(transport),
        bonus_extraction: bonus(extraction),
    }
}

#[test]
fn task_assignment_does_not_double_book_same_task() {
    let mut tasks = vec![
        Task {
            id: TaskId(1),
            kind: TaskKind::Build { structure: StructureId(1) },
            priority: 100,
            target_cell: c(0, 0),
            assigned_to: None,
        },
        Task {
            id: TaskId(2),
            kind: TaskKind::Extract { cell: c(4, 4) },
            priority: 50,
            target_cell: c(4, 4),
            assigned_to: None,
        },
    ];
    let workers = vec![
        ouvrier(1, RoleAstronaute::Ingenieur, 1.0, 1.0, 1.0),
        ouvrier(2, RoleAstronaute::Scientifique, 1.0, 1.0, 1.0),
    ];

    let assignments = assign_available_tasks(&mut tasks, &workers);
    assert_eq!(assignments.len(), 2);
    assert_ne!(assignments[0].1, assignments[1].1);
}

#[test]
fn affectation_favorise_les_roles_appropries() {
    let mut tasks = vec![
        Task {
            id: TaskId(1),
            kind: TaskKind::Build { structure: StructureId(1) },
            priority: 100,
            target_cell: c(0, 0),
            assigned_to: None,
        },
        Task {
            id: TaskId(2),
            kind: TaskKind::Extract { cell: c(1, 0) },
            priority: 100,
            target_cell: c(1, 0),
            assigned_to: None,
        },
    ];
    let workers = vec![
        ouvrier(1, RoleAstronaute::Ingenieur, 1.25, 1.0, 1.0),
        ouvrier(2, RoleAstronaute::Scientifique, 1.0, 1.0, 1.35),
    ];

    let assignments = assign_available_tasks(&mut tasks, &workers);
    let affectations: HashMap<_, _> = assignments.into_iter().collect();
    assert_eq!(affectations.get(&AstronautId(1)), Some(&TaskId(1)));
    assert_eq!(affectations.get(&AstronautId(2)), Some(&TaskId(2)));
}

#[test]
fn affectation_ignore_les_ouvriers_occupes_morts_ou_sans_air() {
    let mut tasks = vec![Task {
        id: TaskId(7),
        kind: TaskKind::ReturnToBase { target: StructureId(1) },
        priority: 10,
        target_cell: c(2, 2),
        assigned_to: None,
    }];
    let mut occupe = ouvrier(1, RoleAstronaute::Commandant, 1.0, 1.0, 1.0);
    occupe.current_task = Some(TaskId(3));
    let mut mort = ouvrier(2, RoleAstronaute::Commandant, 1.0, 1.0, 1.0);
    mort.alive = false;
    let mut essouffle = ouvrier(3, RoleAstronaute::Commandant, 1.0, 1.0, 1.0);
    essouffle.air_suffisant = false;
    let libre = ouvrier(4, RoleAstronaute::Civil, 1.0, 1.0, 1.0);

    let assignments = assign_available_tasks(&mut tasks, &[occupe, mort, essouffle, libre]);
    assert_eq!(assignments, vec![(AstronautId(4), TaskId(7))]);
    assert_eq!(tasks[0].assigned_to, Some(AstronautId(4)));
}

#[test]
fn les_taches_sont_triees_par_priorite_decroissante_de_facon_stable() {
    let tache = |id: u64, priority: i32| Task {
        id: TaskId(id),
        kind: TaskKind::Extract { cell: c(id as i32, 0) },
        priority,
        target_cell: c(id as i32, 0),
        assigned_to: None,
    };
    let mut tasks = vec![tache(1, 10), tache(2, 50), tache(3, 10), tache(4, 50)];
    let assignments = assign_available_tasks(&mut tasks, &[]);
    assert!(assignments.is_empty());
    let ordre: Vec<u64> = tasks.iter().map(|t| t.id.0).collect();
    assert_eq!(ordre, vec![2, 4, 1, 3]);
}

#[test]
fn le_bonus_de_role_suit_la_table() {
    let build = TaskKind::Build { structure: StructureId(1) };
    let haul = TaskKind::HaulIce { source_cell: c(0, 0), target: StructureId(1) };
    assert_eq!(bonus_role_pour_tache(RoleAstronaute::Ingenieur, &build), 18);
    assert_eq!(bonus_role_pour_tache(RoleAstronaute::Commandant, &build), 12);
    assert_eq!(bonus_role_pour_tache(RoleAstronaute::Logisticien, &haul), 18);
    assert_eq!(bonus_role_pour_tache(RoleAstronaute::Civil, &haul), 0);
}

#[test]
fn active_task_assignments_ignore_dead_astronauts() {
    let astronauts = vec![
        Astronaut { id: AstronautId(1), name: "Ari", current_task: Some(TaskId(11)), status: AstronautStatus::Idle },
        Astronaut { id: AstronautId(2), name: "Noor", current_task: Some(TaskId(22)), status: AstronautStatus::Dead },
    ];
    let assignments = active_task_assignments(&astronauts);
    assert_eq!(assignments.get(TaskId(11)), Some(AstronautId(1)));
    assert!(!assignments.contains_key(TaskId(22)));
}

#[test]
fn une_tache_sans_structure_est_abandonnee_selon_la_charge() {
    let haul = Task {
        id: TaskId(5),
        kind: TaskKind::HaulIce { source_cell: c(0, 0), target: StructureId(9) },
        priority: 80,
        target_cell: c(0, 0),
        assigned_to: None,
    };
    assert!(task_needs_missing_structure(&haul, true, &[StructureId(1)]));
    assert!(!task_needs_missing_structure(&haul, false, &[StructureId(1)]));
    assert!(!task_needs_missing_structure(&haul, true, &[StructureId(9)]));
}

#[test]
fn pont_court_connecte_un_module_avec_un_seul_gap() {
    let lander = structure_test(1, StructureKind::Lander, c(0, 0));
    let solar_gap_court = structure_test(2, StructureKind::SolarArray, c(3, 0));
    let solar_gap_long = structure_test(3, StructureKind::SolarArray, c(4, 0));

    let reseau_gap_court = compute_life_support_networks(&[lander, solar_gap_court]);
    let reseau_gap_long = compute_life_support_networks(&[lander, solar_gap_long]);

    assert_eq!(reseau_gap_court.len(), 1);
    assert_eq!(reseau_gap_long.len(), 2);
}

#[test]
fn les_reseaux_vitaux_passent_en_premier_puis_les_plus_grands() {
    let structures = vec![
        structure_test(1, StructureKind::Storage, c(20, 0)),
        structure_test(2, StructureKind::Tube, c(21, 0)),
        structure_test(3, StructureKind::SolarArray, c(40, 0)),
        structure_test(4, StructureKind::Habitat, c(0, 0)),
        StructureState { built: false, ..structure_test(5, StructureKind::Tube, c(2, 0)) },
    ];
    let reseaux = compute_life_support_networks(&structures);
    assert_eq!(reseaux.len(), 3);
    assert_eq!(reseaux[0].structures, vec![StructureId(4)]);
    assert!(reseaux[0].connected_life_support);
    assert_eq!(reseaux[1].structures.len(), 2);
    assert!(reseaux[1].structures.contains(&StructureId(1)));
    assert!(reseaux[1].structures.contains(&StructureId(2)));
    assert_eq!(reseaux[2].structures, vec![StructureId(3)]);
    for (index, reseau) in reseaux.iter().enumerate() {
        assert_eq!(reseau.network_id, index);
    }
}

#[test]
fn une_chaine_de_liens_forme_un_seul_reseau() {
    let structures = vec![
        structure_test(1, StructureKind::Lander, c(0, 0)),
        structure_test(2, StructureKind::Tube, c(3, 0)),
        structure_test(3, StructureKind::Tube, c(5, 0)),
        structure_test(4, StructureKind::Storage, c(7, 0)),
    ];
    let reseaux = compute_life_support_networks(&structures);
    assert_eq!(reseaux.len(), 1);
    assert_eq!(reseaux[0].structures[0], StructureId(1));
    assert_eq!(reseaux[0].structures.len(), 4);
}

#[test]
fn la_renumerotation_suit_les_reseaux() {
    let mut structures = vec![
        structure_test(1, StructureKind::Lander, c(0, 0)),
        structure_test(2, StructureKind::SolarArray, c(10, 0)),
        StructureState { built: false, ..structure_test(3, StructureKind::Tube, c(2, 0)) },
    ];
    let reseaux = recompute_life_support(&mut structures);
    assert_eq!(reseaux.len(), 2);
    assert_eq!(structures[0].network_id, Some(0));
    assert_eq!(structures[1].network_id, Some(1));
    assert_eq!(structures[2].network_id, None);
    assert_eq!(structures[2].id, StructureId(3));
}

#[test]
fn zone_recharge_suit_la_base_et_exclut_les_cases_occupees() {
    let structures = vec![
        StructureState { network_id: Some(0), ..structure_test(1, StructureKind::Lander, c(0, 0)) },
        StructureState { network_id: Some(0), ..structure_test(2, StructureKind::Habitat, c(2, 0)) },
    ];
    let principal = [StructureId(1), StructureId(2)];

    let zone_a = calculer_zone_recharge_base(&structures, &principal, &terrain_marchable);
    let zone_b = calculer_zone_recharge_base(&structures, &principal, &terrain_marchable);

    assert!(zone_a.contient(c(-1, 0)));
    assert!(zone_a.contient(c(4, 1)));
    assert!(!zone_a.contient(c(0, 0)));
    assert_eq!(zone_a.cellules(), zone_b.cellules());
}

#[test]
fn la_zone_de_recharge_donne_la_cellule_la_plus_proche() {
    let zone = ZoneRechargeBase::depuis_cellules(vec![c(5, 5), c(-2, 0), c(1, 1), c(-2, 0)]);
    assert_eq!(zone.cellules(), &[c(-2, 0), c(1, 1), c(5, 5)]);
    assert_eq!(zone.cellule_la_plus_proche(c(0, 1)), Some(c(1, 1)));
    assert_eq!(zone.cellule_la_plus_proche(c(0, 0)), Some(c(-2, 0)));
    assert_eq!(ZoneRechargeBase::vide().cellule_la_plus_proche(c(0, 0)), None);
}

#[test]
fn un_ouvrier_rentre_vers_la_zone_de_recharge() {
    let structures = vec![structure_test(1, StructureKind::Lander, c(0, 0))];
    let zone = ZoneRechargeBase::depuis_cellules(vec![c(-1, 0), c(0, -1)]);
    let chemin = chemin_vers_recharge_ouvrier(&zone, &structures, c(3, 0), 20, &terrain_marchable)
        .expect("un chemin vers la zone");
    assert_eq!(chemin.cout, 4);
    assert_eq!(chemin.cellules.last().copied(), Some(c(0, -1)));
    assert!(chemin_vers_recharge_ouvrier(&ZoneRechargeBase::vide(), &structures, c(3, 0), 20, &terrain_marchable).is_none());
}

#[test]
fn la_position_sur_un_module_vital_du_reseau_principal() {
    let structures = vec![
        StructureState { network_id: Some(0), ..structure_test(1, StructureKind::Habitat, c(0, 0)) },
        StructureState { network_id: Some(0), ..structure_test(2, StructureKind::SolarArray, c(2, 0)) },
        StructureState { network_id: Some(1), ..structure_test(3, StructureKind::Lander, c(10, 0)) },
    ];
    assert!(position_sur_module_support(&structures, c(1, 1)));
    assert!(!position_sur_module_support(&structures, c(2, 0)));
    assert!(!position_sur_module_support(&structures, c(10, 0)));
}

fn distance_anneau(cible: Cellule, structures: &[StructureState]) -> i32 {
    let occupes: Vec<Cellule> = structures.iter().flat_map(|s| s.occupied_cells()).collect();
    let min_x = occupes.iter().map(|cell| cell.x).min().unwrap();
    let max_x = occupes.iter().map(|cell| cell.x).max().unwrap();
    let min_y = occupes.iter().map(|cell| cell.y).min().unwrap();
    let max_y = occupes.iter().map(|cell| cell.y).max().unwrap();
    let dx = if cible.x < min_x { min_x - cible.x } else if cible.x > max_x { cible.x - max_x } else { 0 };
    let dy = if cible.y < min_y { min_y - cible.y } else if cible.y > max_y { cible.y - max_y } else { 0 };
    dx.max(dy)
}

#[test]
fn cible_promenade_reste_dans_l_anneau_autour_de_la_base() {
    let structures = vec![
        StructureState { network_id: Some(0), ..structure_test(1, StructureKind::Lander, c(0, 0)) },
        StructureState { network_id: Some(0), ..structure_test(2, StructureKind::Habitat, c(2, 0)) },
    ];
    let air_combinaison: f32 = 100.0;
    let cout_aller_retour_par_cellule = (2.0f32 / 1.6) * 1.0 * 2.0;
    let distance_max_autorisee =
        ((air_combinaison - 14.0).max(0.0) / cout_aller_retour_par_cellule).floor() as i32;

    let cible = choisir_cible_promenade(AstronautId(99), 3, distance_max_autorisee, &structures, 42, &terrain_marchable)
        .expect("une cible attendue");

    assert!(!structures.iter().flat_map(|s| s.occupied_cells()).any(|cell| cell == cible));
    assert!((4..=18).contains(&distance_anneau(cible, &structures)));
}

#[test]
fn la_cible_de_promenade_prefere_les_anneaux_exterieurs() {
    let structures = vec![StructureState { network_id: Some(0), ..structure_test(1, StructureKind::Lander, c(0, 0)) }];
    for compteur in 0..5 {
        let cible = choisir_cible_promenade(AstronautId(7), compteur, 6, &structures, 1, &terrain_marchable)
            .expect("une cible attendue");
        let anneau = distance_anneau(cible, &structures);
        assert!((4..=6).contains(&anneau));
    }
    let cible = choisir_cible_promenade(AstronautId(7), 0, 100, &structures, 1, &terrain_marchable).unwrap();
    assert!((15..=18).contains(&distance_anneau(cible, &structures)));
}

#[test]
fn sans_base_principale_pas_de_promenade() {
    let structures = vec![structure_test(1, StructureKind::Lander, c(0, 0))];
    assert!(choisir_cible_promenade(AstronautId(7), 0, 10, &structures, 1, &terrain_marchable).is_none());
}

#[test]
fn la_cible_retenue_a_le_plus_petit_score() {
    let structures = vec![StructureState { network_id: Some(0), ..structure_test(1, StructureKind::Storage, c(0, 0)) }];
    let cible = choisir_cible_promenade(AstronautId(3), 2, 4, &structures, 9, &terrain_marchable).unwrap();
    let score_cible = score_deterministe_cellule(9, AstronautId(3), 2, cible);
    for y in -4..=4 {
        for x in -4..=4 {
            let cell = c(x, y);
            if distance_anneau(cell, &structures) == 4 {
                let score = score_deterministe_cellule(9, AstronautId(3), 2, cell);
                assert!(score_cible <= score);
            }
        }
    }
}

#[test]
fn le_score_de_cellule_suit_le_hachage_standard() {
    let mut hasher = std::collections::hash_map::DefaultHasher::new();
    42u64.hash(&mut hasher);
    AstronautId(99).hash(&mut hasher);
    3u32.hash(&mut hasher);
    (-5i32).hash(&mut hasher);
    7i32.hash(&mut hasher);
    assert_eq!(score_deterministe_cellule(42, AstronautId(99), 3, c(-5, 7)), hasher.finish());
}

#[test]
fn les_definitions_de_structures() {
    let definition = definition_structure(StructureKind::Storage);
    assert_eq!(StructureKind::Storage.label(), definition.libelle);
    assert_eq!(StructureKind::Storage.footprint(), definition.emprise);
    assert_eq!(definition.emprise.x, 1);
    assert!(StructureKind::Habitat.supports_life());
    assert!(!StructureKind::Tube.supports_life());
    assert_eq!(structure_cells(StructureKind::Habitat, c(3, 4)), vec![c(3, 4), c(4, 4), c(3, 5), c(4, 5)]);
}

#[test]
fn les_emprises_se_touchent_par_un_bord() {
    assert!(footprints_touch(StructureKind::Lander, c(0, 0), StructureKind::Tube, c(2, 1)));
    assert!(!footprints_touch(StructureKind::Lander, c(0, 0), StructureKind::Tube, c(2, 2)));
    let occ = colonie_mars::structures::cellules_occupees_structures(&[]);
    assert!(structures_connectees_par_proximite(StructureKind::Tube, c(0, 0), StructureKind::Tube, c(0, 2), &occ));
    assert!(!structures_connectees_par_proximite(StructureKind::Tube, c(0, 0), StructureKind::Tube, c(1, 1), &occ));
}

#[test]
fn lallocateur_donne_des_identifiants_successifs() {
    let mut ids = StructureIdAllocator::new();
    assert_eq!(ids.allocate(), StructureId(0));
    assert_eq!(ids.allocate(), StructureId(1));
    assert_eq!(ids.allocate(), StructureId(2));
}
