use colonie_mars::grille::{distance_manhattan, voisins_cardinaux, Cellule, EnsembleCellules};
use colonie_mars::monde::TerrainCell;
use colonie_mars::navigation::{
    autonomie_aller_retour_max_cases, carte_distances_depuis_origines, trouver_chemin_a_star,
    trouver_chemin_vers_objectif,
};

fn terrain_libre(_: Cellule) -> TerrainCell {
    TerrainCell { pente_marchable: true, constructible: true, resource: None, blocked: false }
}

fn c(x: i32, y: i32) -> Cellule {
    Cellule::new(x, y)
}

#[test]
fn a_star_contourne_un_obstacle() {
    let cellules_occupees = EnsembleCellules::depuis_cellules(&[c(1, 0), c(1, 1)]);
    let chemin = trouver_chemin_a_star(c(0, 0), c(2, 1), &cellules_occupees, 12, &terrain_libre)
        .expect("un chemin est attendu");

    assert_eq!(chemin.cout, 5);
    assert_eq!(chemin.cellules.first().copied(), Some(c(0, 0)));
    assert_eq!(chemin.cellules.last().copied(), Some(c(2, 1)));
    assert!(chemin.cellules.iter().all(|cellule| !cellules_occupees.contient(*cellule)));
}

#[test]
fn la_carte_de_distances_part_dune_origine_multiple() {
    let distances = carte_distances_depuis_origines(
        &[c(-1, 0), c(3, 0)],
        &EnsembleCellules::depuis_cellules(&[c(1, 0)]),
        6,
        &terrain_libre,
    );

    assert_eq!(distances.get(c(-1, 0)), Some(0));
    assert_eq!(distances.get(c(3, 0)), Some(0));
    assert_eq!(distances.get(c(0, 0)), Some(1));
    assert!(!distances.contains_key(c(1, 0)));
}

#[test]
fn la_carte_de_distances_respecte_la_limite() {
    let distances =
        carte_distances_depuis_origines(&[c(0, 0)], &EnsembleCellules::new(), 2, &terrain_libre);
    assert_eq!(distances.get(c(2, 0)), Some(2));
    assert_eq!(distances.get(c(1, 1)), Some(2));
    assert!(!distances.contains_key(c(3, 0)));
    assert!(!distances.contains_key(c(2, 1)));
}

#[test]
fn une_origine_bloquee_ne_compte_pas() {
    let bloque = |cellule: Cellule| TerrainCell {
        pente_marchable: true,
        constructible: true,
        resource: None,
        blocked: cellule.x == 0 && cellule.y == 0,
    };
    let distances = carte_distances_depuis_origines(&[c(0, 0)], &EnsembleCellules::new(), 5, &bloque);
    assert!(!distances.contains_key(c(0, 0)));
    assert!(!distances.contains_key(c(1, 0)));
}

#[test]
fn le_chemin_vers_le_but_le_plus_proche_est_le_plus_court() {
    let chemin = trouver_chemin_vers_objectif(
        c(0, 0),
        &[c(5, 0), c(0, -2)],
        &EnsembleCellules::new(),
        20,
        &terrain_libre,
    )
    .expect("un chemin est attendu");
    assert_eq!(chemin.cout, 2);
    assert_eq!(chemin.cellules.len(), 3);
    assert_eq!(chemin.cellules[2], c(0, -2));
    for paire in chemin.cellules.windows(2) {
        assert_eq!(distance_manhattan(paire[0], paire[1]), 1);
    }
}

#[test]
fn le_depart_sur_un_but_donne_un_chemin_vide() {
    let chemin =
        trouver_chemin_vers_objectif(c(3, 3), &[c(3, 3)], &EnsembleCellules::new(), 0, &terrain_libre)
            .expect("le depart est un but");
    assert_eq!(chemin.cout, 0);
    assert_eq!(chemin.cellules, vec![c(3, 3)]);
}

#[test]
fn sans_but_il_ny_a_pas_de_chemin() {
    assert!(
        trouver_chemin_vers_objectif(c(0, 0), &[], &EnsembleCellules::new(), 10, &terrain_libre)
            .is_none()
    );
}

#[test]
fn un_but_hors_limite_est_inaccessible() {
    assert!(
        trouver_chemin_a_star(c(0, 0), c(4, 0), &EnsembleCellules::new(), 3, &terrain_libre)
            .is_none()
    );
}

#[test]
fn entre_buts_a_egale_distance_le_plus_petit_en_x_puis_y_est_retenu() {
    let chemin = trouver_chemin_vers_objectif(
        c(0, 0),
        &[c(1, 1), c(-1, 1), c(1, -1)],
        &EnsembleCellules::new(),
        10,
        &terrain_libre,
    )
    .expect("un chemin est attendu");
    assert_eq!(chemin.cellules.last().copied(), Some(c(-1, 1)));
}

#[test]
fn lautonomie_aller_retour_vaut_340_cases() {
    assert_eq!(autonomie_aller_retour_max_cases(), 340);
}

#[test]
fn les_voisins_cardinaux_suivent_lordre_x_puis_y() {
    assert_eq!(voisins_cardinaux(c(2, -3)), [c(3, -3), c(1, -3), c(2, -2), c(2, -4)]);
}

fn chemin(points: &[(i32, i32)]) -> Vec<Cellule> {
    points.iter().map(|&(x, y)| c(x, y)).collect()
}

#[test]
fn le_chemin_suit_lexploration_a_etoile() {
    let occupees = EnsembleCellules::depuis_cellules(&[c(1, 0), c(1, 1)]);
    let ch = trouver_chemin_a_star(c(0, 0), c(2, 1), &occupees, 12, &terrain_libre).unwrap();
    assert_eq!(ch.cellules, chemin(&[(0, 0), (0, -1), (1, -1), (2, -1), (2, 0), (2, 1)]));

    let ch = trouver_chemin_a_star(c(0, 0), c(3, 2), &EnsembleCellules::new(), 20, &terrain_libre).unwrap();
    assert_eq!(ch.cellules, chemin(&[(0, 0), (0, 1), (0, 2), (1, 2), (2, 2), (3, 2)]));

    let ch = trouver_chemin_a_star(c(0, 0), c(-2, -3), &EnsembleCellules::new(), 20, &terrain_libre).unwrap();
    assert_eq!(ch.cellules, chemin(&[(0, 0), (-1, 0), (-2, 0), (-2, -1), (-2, -2), (-2, -3)]));
}

#[test]
fn le_chemin_contourne_un_mur_vers_le_but_le_plus_proche() {
    let occupees = EnsembleCellules::depuis_cellules(&[c(3, 5), c(4, 4), c(4, 5), c(4, 6)]);
    let ch = trouver_chemin_vers_objectif(c(5, 5), &[c(0, 0), c(9, 9)], &occupees, 30, &terrain_libre).unwrap();
    assert_eq!(ch.cout, 8);
    assert_eq!(
        ch.cellules,
        chemin(&[(5, 5), (5, 6), (5, 7), (5, 8), (5, 9), (6, 9), (7, 9), (8, 9), (9, 9)])
    );

    let mur = EnsembleCellules::depuis_cellules(&[c(-1, 2), c(0, 2), c(1, 2)]);
    let ch = trouver_chemin_a_star(c(0, 0), c(0, 4), &mur, 20, &terrain_libre).unwrap();
    assert_eq!(
        ch.cellules,
        chemin(&[(0, 0), (0, 1), (-1, 1), (-2, 1), (-2, 2), (-2, 3), (-2, 4), (-1, 4), (0, 4)])
    );
}

#[test]
fn le_chemin_ne_depend_que_de_ses_entrees() {
    let occupees = EnsembleCellules::depuis_cellules(&[c(0, 0), c(1, 0), c(0, 1), c(1, 1), c(5, 0)]);
    let buts = [c(-1, 0), c(0, -1), c(-1, -1)];
    let premier = trouver_chemin_vers_objectif(c(4, 0), &buts, &occupees, 468, &terrain_libre);
    let second = trouver_chemin_vers_objectif(c(4, 0), &buts, &occupees, 468, &terrain_libre);
    let premier = premier.expect("un chemin est attendu");
    let second = second.expect("un chemin est attendu");
    assert_eq!(premier.cout, second.cout);
    assert_eq!(premier.cellules, second.cellules);
    assert_eq!(premier.cellules, vec![c(4, 0), c(3, 0), c(2, 0), c(2, -1), c(1, -1), c(0, -1)]);
}
