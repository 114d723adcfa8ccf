use colonie_mars::monde::ChunkCoord;
use colonie_mars::streaming::{
    coordonnees_chunks_requises, decider_decors, decider_terrain, decors_generes,
    planifier_streaming_chunks, prelever_budget, reconstruire_file_decors_requise,
    reconstruire_file_terrains_requise, terrain_construit, ActionTerrain, ChunkVisuals,
    EtatVisuelChunk, FileAttenteStreamingChunks,
};
use std::collections::VecDeque;

fn k(x: i32, y: i32) -> ChunkCoord {
    ChunkCoord { x, y }
}

#[test]
fn les_chunks_requis_sont_tries_par_distance_puis_coordonnees() {
    let centre = k(4, -2);
    let coords = coordonnees_chunks_requises(centre, 1);

    assert_eq!(coords[0], centre);
    assert_eq!(
        coords,
        vec![k(4, -2), k(4, -3), k(3, -2), k(5, -2), k(4, -1), k(3, -3), k(5, -3), k(3, -1), k(5, -1)]
    );
}

#[test]
fn les_chunks_requis_couvrent_le_carre() {
    assert_eq!(coordonnees_chunks_requises(k(0, 0), 2).len(), 25);
    assert_eq!(coordonnees_chunks_requises(k(0, 0), 0), vec![k(0, 0)]);
    assert!(coordonnees_chunks_requises(k(0, 0), -1).is_empty());
}

#[test]
fn le_budget_de_streaming_preleve_un_chunk_par_frame() {
    let mut file = VecDeque::from(vec![k(0, 0), k(1, 0), k(2, 0)]);

    let premier = prelever_budget(&mut file, 1);
    let second = prelever_budget(&mut file, 1);

    assert_eq!(premier, vec![k(0, 0)]);
    assert_eq!(second, vec![k(1, 0)]);
    assert_eq!(file, VecDeque::from(vec![k(2, 0)]));
}

#[test]
fn un_budget_plus_grand_que_la_file_la_vide() {
    let mut file = VecDeque::from(vec![k(0, 0), k(1, 0)]);
    assert_eq!(prelever_budget(&mut file, 5), vec![k(0, 0), k(1, 0)]);
    assert!(file.is_empty());
    assert!(prelever_budget(&mut file, 5).is_empty());
}

#[test]
fn la_file_des_terrains_reste_complete_tant_que_des_chunks_manquent() {
    let coords = vec![k(0, 0), k(1, 0), k(0, 1)];
    let mut visuals = ChunkVisuals::new();
    visuals.inserer(k(0, 0), EtatVisuelChunk { terrain_charge: true, decors_initialises: false });

    let file = reconstruire_file_terrains_requise(&coords, &visuals);
    assert_eq!(file, VecDeque::from(vec![k(1, 0), k(0, 1)]));
}

#[test]
fn la_file_des_decors_ne_contient_que_les_chunks_terrain_deja_charges() {
    let coords = vec![k(0, 0), k(1, 0), k(0, 1)];
    let mut visuals = ChunkVisuals::new();
    visuals.inserer(k(0, 0), EtatVisuelChunk { terrain_charge: true, decors_initialises: true });
    visuals.inserer(k(1, 0), EtatVisuelChunk { terrain_charge: true, decors_initialises: false });
    visuals.inserer(k(0, 1), EtatVisuelChunk { terrain_charge: false, decors_initialises: false });

    let file = reconstruire_file_decors_requise(&coords, &visuals);
    assert_eq!(file, VecDeque::from(vec![k(1, 0)]));
}

#[test]
fn la_planification_retire_les_chunks_sortis_du_carre() {
    let mut visuals = ChunkVisuals::new();
    visuals.inserer(k(0, 0), EtatVisuelChunk { terrain_charge: true, decors_initialises: true });
    visuals.inserer(k(5, 5), EtatVisuelChunk { terrain_charge: true, decors_initialises: false });
    visuals.inserer(k(9, 9), EtatVisuelChunk { terrain_charge: true, decors_initialises: false });
    let mut file = FileAttenteStreamingChunks::new();

    let retires = planifier_streaming_chunks(k(0, 0), 1, &[k(5, 5), k(0, 0), k(7, 7)], &mut visuals, &mut file);

    assert_eq!(retires, vec![k(5, 5)]);
    assert!(visuals.get(k(5, 5)).is_none());
    assert!(visuals.get(k(9, 9)).is_some());
    assert_eq!(file.centre_planifie, Some(k(0, 0)));
    assert_eq!(file.coords_requis.len(), 9);
    assert!(file.ensemble_requis.contient(k(1, -1)));
    assert!(!file.ensemble_requis.contient(k(2, 0)));
    assert_eq!(file.terrains.len(), 8);
    assert!(!file.terrains.contains(&k(0, 0)));
    assert!(file.decors.is_empty());
}

#[test]
fn le_traitement_dun_chunk_suit_son_etat() {
    let mut visuals = ChunkVisuals::new();
    let mut file = FileAttenteStreamingChunks::new();
    planifier_streaming_chunks(k(0, 0), 0, &[], &mut visuals, &mut file);

    assert_eq!(decider_terrain(&file, &visuals, k(3, 3)), ActionTerrain::Ignorer);
    assert_eq!(decider_terrain(&file, &visuals, k(0, 0)), ActionTerrain::Construire);

    terrain_construit(&mut file, &mut visuals, k(0, 0));
    assert_eq!(decider_terrain(&file, &visuals, k(0, 0)), ActionTerrain::TerrainPresent);
    assert_eq!(file.decors, VecDeque::from(vec![k(0, 0)]));

    terrain_construit(&mut file, &mut visuals, k(0, 0));
    assert_eq!(file.decors, VecDeque::from(vec![k(0, 0)]));

    assert!(decider_decors(&file, &visuals, k(0, 0)));
    decors_generes(&mut visuals, k(0, 0));
    assert!(!decider_decors(&file, &visuals, k(0, 0)));
    assert_eq!(
        visuals.get(k(0, 0)),
        Some(EtatVisuelChunk { terrain_charge: true, decors_initialises: true })
    );
}
