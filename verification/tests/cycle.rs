use colonie_mars::cycle::extracteurs_candidats;
use colonie_mars::grille::Cellule;
use colonie_mars::structures::{StructureId, StructureKind, StructureState};

fn structure(id: u32, kind: StructureKind, x: i32, built: bool) -> StructureState {
    StructureState { id: StructureId(id), kind, anchor: Cellule::new(x, 0), built, network_id: Some(0) }
}

fn ids(structures: &[StructureState], places: &[usize]) -> Vec<u32> {
    places.iter().map(|&i| structures[i].id.0).collect()
}

#[test]
fn les_extracteurs_sont_pris_par_identifiant_quel_que_soit_lordre() {
    let lander = structure(1, StructureKind::Lander, 0, true);
    let solar = structure(2, StructureKind::SolarArray, 2, true);
    let extracteur = structure(3, StructureKind::OxygenExtractor, 4, true);
    let second = structure(7, StructureKind::OxygenExtractor, 8, true);
    let connectees = [StructureId(1), StructureId(2), StructureId(3), StructureId(7)];

    let a = vec![second, extracteur, solar, lander];
    let b = vec![solar, lander, extracteur, second];
    let pa = extracteurs_candidats(&a, &connectees);
    let pb = extracteurs_candidats(&b, &connectees);
    assert_eq!(ids(&a, &pa), vec![3, 7]);
    assert_eq!(ids(&b, &pb), vec![3, 7]);
    assert_eq!(pa, vec![1, 0]);
}

#[test]
fn seuls_les_extracteurs_batis_du_reseau_principal_comptent() {
    let s = vec![
        structure(4, StructureKind::OxygenExtractor, 0, false),
        structure(5, StructureKind::OxygenExtractor, 3, true),
        structure(6, StructureKind::OxygenExtractor, 6, true),
        structure(2, StructureKind::Habitat, 9, true),
    ];
    let places = extracteurs_candidats(&s, &[StructureId(4), StructureId(6), StructureId(2)]);
    assert_eq!(ids(&s, &places), vec![6]);
}
