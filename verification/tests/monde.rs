use colonie_mars::bruit::{compose_shape_seed, hash_coords, splitmix64};
use colonie_mars::grille::Cellule;
use colonie_mars::monde::{
    chunk_local_to_world_cell, terrain_est_marchable, world_cell_to_chunk, ChunkCoord, ChunkState,
    CoordLocale, ResourceDeposit, ResourceKind, TerrainCell, CHUNK_SIZE_CELLS,
};

fn sol() -> TerrainCell {
    TerrainCell { pente_marchable: true, constructible: true, resource: None, blocked: false }
}

fn chunk_avec_gisement(local: CoordLocale, amount: u16) -> ChunkState {
    let mut cells = vec![sol(); (CHUNK_SIZE_CELLS * CHUNK_SIZE_CELLS) as usize];
    cells[(local.y * 32 + local.x) as usize].resource = Some(ResourceDeposit { kind: ResourceKind::Ice, amount });
    ChunkState {
        coord: ChunkCoord { x: 0, y: 0 },
        cells,
        resource_cells: vec![CoordLocale { x: 1, y: 1 }, local, CoordLocale { x: 9, y: 9 }],
    }
}

#[test]
fn un_gisement_epuise_est_retire_du_cache_des_ressources() {
    let local = CoordLocale { x: 5, y: 3 };
    let mut chunk = chunk_avec_gisement(local, 6);
    let starting_amount = chunk.cell(local).and_then(|cell| cell.resource).map(|r| r.amount).unwrap_or(0);

    let extracted = chunk.extract_resource(local, starting_amount);

    assert_eq!(extracted, starting_amount);
    assert!(!chunk.resource_cells().contains(&local));
    assert_eq!(chunk.cell(local).unwrap().resource, None);
    assert_eq!(chunk.resource_cells(), &[CoordLocale { x: 1, y: 1 }, CoordLocale { x: 9, y: 9 }]);
}

#[test]
fn une_extraction_partielle_conserve_lentree_du_gisement() {
    let local = CoordLocale { x: 5, y: 3 };
    let mut chunk = chunk_avec_gisement(local, 6);

    let extracted = chunk.extract_resource(local, 1);

    assert_eq!(extracted, 1);
    assert!(chunk.resource_cells().contains(&local));
    assert_eq!(chunk.cell(local).unwrap().resource.unwrap().amount, 5);
}

#[test]
fn une_extraction_ne_prend_jamais_plus_que_le_gisement() {
    let local = CoordLocale { x: 0, y: 31 };
    let mut chunk = chunk_avec_gisement(local, 4);
    assert_eq!(chunk.extract_resource(local, 10), 4);
    assert_eq!(chunk.extract_resource(local, 10), 0);
    assert_eq!(chunk.extract_resource(CoordLocale { x: 32, y: 0 }, 10), 0);
    assert_eq!(chunk.extract_resource(CoordLocale { x: 2, y: 2 }, 10), 0);
}

#[test]
fn hors_du_chunk_il_ny_a_pas_de_cellule() {
    let chunk = chunk_avec_gisement(CoordLocale { x: 0, y: 0 }, 1);
    assert!(chunk.cell(CoordLocale { x: 32, y: 0 }).is_none());
    assert!(chunk.cell(CoordLocale { x: 0, y: 32 }).is_none());
    assert!(chunk.cell(CoordLocale { x: 31, y: 31 }).is_some());
}

#[test]
fn le_decoupage_en_chunks_suit_la_division_euclidienne() {
    assert_eq!(world_cell_to_chunk(Cellule::new(0, 0)), (ChunkCoord { x: 0, y: 0 }, CoordLocale { x: 0, y: 0 }));
    assert_eq!(world_cell_to_chunk(Cellule::new(-1, 33)), (ChunkCoord { x: -1, y: 1 }, CoordLocale { x: 31, y: 1 }));
    assert_eq!(world_cell_to_chunk(Cellule::new(-32, -33)), (ChunkCoord { x: -1, y: -2 }, CoordLocale { x: 0, y: 31 }));
    assert_eq!(
        world_cell_to_chunk(Cellule::new(i32::MIN, i32::MAX)),
        (ChunkCoord { x: -67108864, y: 67108863 }, CoordLocale { x: 0, y: 31 })
    );
}

#[test]
fn le_decoupage_puis_la_recomposition_rendent_la_cellule() {
    for &(x, y) in &[(0, 0), (-1, -1), (31, 32), (-1000, 777), (i32::MAX, i32::MIN)] {
        let cellule = Cellule::new(x, y);
        let (coord, local) = world_cell_to_chunk(cellule);
        assert_eq!(chunk_local_to_world_cell(coord, local), cellule);
    }
}

#[test]
fn un_terrain_bloque_ou_pentu_nest_pas_marchable() {
    assert!(terrain_est_marchable(&sol()));
    assert!(!terrain_est_marchable(&TerrainCell { blocked: true, ..sol() }));
    assert!(!terrain_est_marchable(&TerrainCell { pente_marchable: false, ..sol() }));
}

#[test]
fn splitmix64_donne_les_valeurs_de_reference() {
    assert_eq!(splitmix64(0), 0xE220_A839_7B1D_CDAF);
    assert_eq!(splitmix64(1), 10451216379200822465);
    assert_eq!(splitmix64(42), 13679457532755275413);
}

#[test]
fn hash_coords_donne_les_valeurs_de_reference() {
    assert_eq!(hash_coords(42, 0, 0), 15724831727835438143);
    assert_eq!(hash_coords(42, -3, 7), 8629916627484743880);
    assert_eq!(hash_coords(0, 1, -1), 17800336295164354840);
    assert_ne!(hash_coords(42, 1, 0), hash_coords(42, 0, 1));
}

#[test]
fn la_graine_dune_forme_melange_la_cellule_et_le_rang() {
    let reference = |seed: u64, x: i32, y: i32, index: u64| {
        splitmix64(
            seed ^ (x as i64 as u64).rotate_left(17)
                ^ (y as i64 as u64).rotate_left(41)
                ^ index.wrapping_mul(0x9E37_79B9_7F4A_7C15),
        )
    };
    for (seed, x, y, index) in [(42u64, 3, -7, 0u64), (0, i32::MIN, i32::MAX, u64::MAX), (7, -1, 1, 5)] {
        assert_eq!(compose_shape_seed(seed, x, y, index), reference(seed, x, y, index));
    }
    assert_ne!(compose_shape_seed(42, 3, -7, 0), compose_shape_seed(42, 3, -7, 1));
}
