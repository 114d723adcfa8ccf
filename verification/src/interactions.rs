//! Where workers stand to work on a structure, how far that is from the base
//! on foot, and whether a new structure may be placed somewhere.
use crate::grille::{
    adjacentes, interieure, lemme_voisins_adjacents, manhattan, voisin, voisins_cardinaux, Cellule,
    EnsembleCellules,
};
use crate::monde::{marchable, terrain_est_marchable, TerrainCell};
use crate::navigation::{
    atteint, borne_limite, carte_distances_depuis_origines, distance_exacte, lire_terrain,
    oracle_terrain, origines_bornees, trouver_chemin_vers_objectif, CheminCellulaire,
    terrain_selon, but_accessible, but_retenu, chemin_exact, chemin_retenu, ensemble_de, dans_marge,
};
use crate::structures::{
    cellules_emprise, cellules_occupees, cellules_occupees_structures, cote, couverte,
    dans_emprise, emprise_representable, structure_cells, structures_representables,
    StructureId, StructureKind, StructureState,
};
use crate::tri::{avant, trie_strict, trier_sans_doublons, OrdreCellules};
use crate::recharge::{cellules_origine_base, ZoneRechargeBase};
use crate::structures::{relies, structure_rejoint_reseau_principal};
use crate::navigation::autonomie_aller_retour_max_cases;
use vstd::prelude::*;

verus! {

/// Every cell of the footprint has its four neighbours in the grid.
pub open spec fn emprise_interieure(kind: StructureKind, anchor: Cellule) -> bool {
    i32::MIN < anchor.x && anchor.x + cote(kind) < i32::MAX && i32::MIN < anchor.y && anchor.y
        + cote(kind) < i32::MAX
}

/// `v` is a cell from which a worker can work on the structure: it borders
/// the footprint, lies outside it and outside every existing structure, and
/// is walkable.
pub open spec fn cellule_interaction<F: Fn(Cellule) -> TerrainCell>(
    f: &F,
    kind: StructureKind,
    anchor: Cellule,
    structures: Seq<StructureState>,
    v: Cellule,
) -> bool {
    &&& exists|c: Cellule| dans_emprise(kind, anchor, c) && #[trigger] adjacentes(c, v)
    &&& !dans_emprise(kind, anchor, v)
    &&& !couverte(structures, v)
    &&& marchable(terrain_selon(f, v))
}

/// The cells that block walking once the structure stands: those of every
/// structure and of the new footprint.
pub open spec fn occupees_avec(
    structures: Seq<StructureState>,
    kind: StructureKind,
    anchor: Cellule,
) -> Set<Cellule> {
    Set::new(|c: Cellule| couverte(structures, c) || dans_emprise(kind, anchor, c))
}

fn est_dans_emprise(kind: StructureKind, anchor: Cellule, c: Cellule) -> (r: bool)
    ensures
        r == dans_emprise(kind, anchor, c),
{
    let n: i64 = kind.footprint().x as i64;
    anchor.x as i64 <= c.x as i64 && (c.x as i64) < anchor.x as i64 + n && anchor.y as i64
        <= c.y as i64 && (c.y as i64) < anchor.y as i64 + n
}

fn considerer<F: Fn(Cellule) -> TerrainCell>(
    f: &F,
    kind: StructureKind,
    anchor: Cellule,
    occupees: &EnsembleCellules,
    v: Cellule,
    candidates: &mut Vec<Cellule>,
)
    requires
        oracle_terrain(f),
    ensures
        forall|c: Cellule| #[trigger]
            final(candidates)@.contains(c) <==> (old(candidates)@.contains(c) || (c == v
                && !dans_emprise(kind, anchor, v) && !occupees@.contains(v) && marchable(
                terrain_selon(f, v),
            ))),
{
    if est_dans_emprise(kind, anchor, v) || occupees.contient(v) {
        return ;
    }
    let t = lire_terrain(f, v);
    if terrain_est_marchable(&t) {
        let ghost c0 = candidates@;
        candidates.push(v);
        proof {
            assert forall|c: Cellule| #[trigger] candidates@.contains(c) <==> (c0.contains(c)
                || c == v) by {
                if c0.contains(c) {
                    let j = choose|j: int| 0 <= j < c0.len() && c0[j] == c;
                    assert(candidates@[j] == c);
                }
                if c == v {
                    assert(candidates@[c0.len() as int] == c);
                }
            }
        }
    }
}

/// The cells from which workers can work on a structure of kind `kind`
/// anchored at `anchor`, each once, nearest to the anchor first, then by
/// `x`, then by `y`.
pub fn cellules_interaction_structure<F: Fn(Cellule) -> TerrainCell>(
    kind: StructureKind,
    anchor: Cellule,
    structures: &[StructureState],
    terrain_at: &F,
) -> (r: Vec<Cellule>)
    requires
        oracle_terrain(terrain_at),
        emprise_interieure(kind, anchor),
        structures_representables(structures@),
    ensures
        trie_strict(r@, OrdreCellules::ParDistanceXY(anchor)),
        forall|v: Cellule| #[trigger]
            r@.contains(v) <==> cellule_interaction(terrain_at, kind, anchor, structures@, v),
{
    let emprise = structure_cells(kind, anchor);
    let occupees = cellules_occupees_structures(structures);
    let mut candidates: Vec<Cellule> = Vec::new();
    let mut i: usize = 0;
    while i < emprise.len()
        invariant
            oracle_terrain(terrain_at),
            emprise_interieure(kind, anchor),
            i <= emprise@.len(),
            forall|c: Cellule| #[trigger] emprise@.contains(c) <==> dans_emprise(kind, anchor, c),
            forall|c: Cellule| #[trigger] occupees@.contains(c) <==> couverte(structures@, c),
            forall|v: Cellule| #[trigger]
                candidates@.contains(v) <==> ((exists|j: int|
                    0 <= j < i && #[trigger] adjacentes(emprise@[j], v)) && !dans_emprise(
                    kind,
                    anchor,
                    v,
                ) && !couverte(structures@, v) && marchable(terrain_selon(terrain_at, v))),
        decreases emprise@.len() - i,
    {
        let c = emprise[i];
        proof {
            assert(emprise@.contains(c)) by {
                assert(emprise@[i as int] == c);
            }
            assert(interieure(c));
            lemme_voisins_adjacents(c);
        }
        let vs = voisins_cardinaux(c);
        let ghost c0 = candidates@;
        considerer(terrain_at, kind, anchor, &occupees, vs[0], &mut candidates);
        considerer(terrain_at, kind, anchor, &occupees, vs[1], &mut candidates);
        considerer(terrain_at, kind, anchor, &occupees, vs[2], &mut candidates);
        considerer(terrain_at, kind, anchor, &occupees, vs[3], &mut candidates);
        proof {
            assert forall|v: Cellule| #[trigger] candidates@.contains(v) <==> ((exists|j: int|
                0 <= j < i + 1 && #[trigger] adjacentes(emprise@[j], v)) && !dans_emprise(
                kind,
                anchor,
                v,
            ) && !couverte(structures@, v) && marchable(terrain_selon(terrain_at, v))) by {
                if candidates@.contains(v) && !c0.contains(v) {
                    assert(adjacentes(emprise@[i as int], v));
                }
                if (exists|j: int| 0 <= j < i + 1 && #[trigger] adjacentes(emprise@[j], v))
                    && !c0.contains(v) && !dans_emprise(kind, anchor, v) && !couverte(
                    structures@,
                    v,
                ) && marchable(terrain_selon(terrain_at, v)) {
                    let j = choose|j: int| 0 <= j < i + 1 && #[trigger] adjacentes(emprise@[j], v);
                    assert(j == i);
                }
            }
        }
        i += 1;
    }
    let r = trier_sans_doublons(&candidates, OrdreCellules::ParDistanceXY(anchor));
    proof {
        assert forall|v: Cellule| #[trigger] r@.contains(v) <==> cellule_interaction(
            terrain_at,
            kind,
            anchor,
            structures@,
            v,
        ) by {
            if r@.contains(v) {
                assert(candidates@.contains(v));
                let j = choose|j: int| 0 <= j < emprise@.len() && #[trigger] adjacentes(emprise@[j], v);
                assert(emprise@.contains(emprise@[j]));
            }
            if cellule_interaction(terrain_at, kind, anchor, structures@, v) {
                let c = choose|c: Cellule| dans_emprise(kind, anchor, c) && #[trigger] adjacentes(c, v);
                assert(emprise@.contains(c));
                let j = choose|j: int| 0 <= j < emprise@.len() && emprise@[j] == c;
                assert(adjacentes(emprise@[j], v));
            }
        }
    }
    r
}

fn occupees_avec_emprise(
    structures: &[StructureState],
    kind: StructureKind,
    anchor: Cellule,
) -> (occ: EnsembleCellules)
    requires
        structures_representables(structures@),
        emprise_representable(kind, anchor),
    ensures
        occ@ == occupees_avec(structures@, kind, anchor),
{
    let mut occ = cellules_occupees_structures(structures);
    let emprise = structure_cells(kind, anchor);
    let mut i: usize = 0;
    while i < emprise.len()
        invariant
            i <= emprise@.len(),
            forall|c: Cellule| #[trigger] emprise@.contains(c) <==> dans_emprise(kind, anchor, c),
            forall|c: Cellule| #[trigger]
                occ@.contains(c) <==> (couverte(structures@, c) || exists|j: int|
                    0 <= j < i && #[trigger] emprise@[j] == c),
        decreases emprise@.len() - i,
    {
        occ.inserer(emprise[i]);
        proof {
            assert forall|c: Cellule| #[trigger] occ@.contains(c) <==> (couverte(structures@, c)
                || exists|j: int| 0 <= j < i + 1 && #[trigger] emprise@[j] == c) by {
                if c == emprise@[i as int] {
                    assert(emprise@[i as int] == c);
                }
            }
        }
        i += 1;
    }
    proof {
        assert forall|c: Cellule| #[trigger] occ@.contains(c) <==> occupees_avec(
            structures@,
            kind,
            anchor,
        ).contains(c) by {
            if dans_emprise(kind, anchor, c) {
                assert(emprise@.contains(c));
                let j = choose|j: int| 0 <= j < emprise@.len() && emprise@[j] == c;
            }
            if occ@.contains(c) && !couverte(structures@, c) {
                let j = choose|j: int| 0 <= j < emprise@.len() && #[trigger] emprise@[j] == c;
                assert(emprise@.contains(c));
            }
        }
        assert(occ@ =~= occupees_avec(structures@, kind, anchor));
    }
    occ
}

/// `(k, c)` is the best place to work on the structure: an interaction cell
/// at exact walking distance `k` from the origins (the structure's cells
/// blocking the way), and no other reachable interaction cell comes before
/// it by distance, then `x`, then `y`.
pub open spec fn meilleure_interaction<F: Fn(Cellule) -> TerrainCell>(
    f: &F,
    kind: StructureKind,
    anchor: Cellule,
    structures: Seq<StructureState>,
    origines: Seq<Cellule>,
    l: nat,
    c: Cellule,
    k: int,
) -> bool {
    let occ = occupees_avec(structures, kind, anchor);
    &&& cellule_interaction(f, kind, anchor, structures, c)
    &&& 0 <= k <= l
    &&& distance_exacte(f, occ, origines, c, k as nat)
    &&& forall|d: Cellule, kd: nat|
        #![trigger cellule_interaction(f, kind, anchor, structures, d), distance_exacte(f, occ, origines, d, kd)]
        cellule_interaction(f, kind, anchor, structures, d) && kd <= l && distance_exacte(
            f,
            occ,
            origines,
            d,
            kd,
        ) ==> (k < kd || (k == kd && (c.x < d.x || (c.x == d.x && c.y <= d.y))))
}

/// Some interaction cell can be reached from the origins within `l` steps.
pub open spec fn interaction_accessible<F: Fn(Cellule) -> TerrainCell>(
    f: &F,
    kind: StructureKind,
    anchor: Cellule,
    structures: Seq<StructureState>,
    origines: Seq<Cellule>,
    l: nat,
) -> bool {
    exists|c: Cellule|
        #[trigger] cellule_interaction(f, kind, anchor, structures, c) && atteint(
            f,
            occupees_avec(structures, kind, anchor),
            origines,
            l,
            c,
        )
}

/// The interaction cell nearest on foot to the origins, with its walking
/// distance; ties go to the least `(x, y)`. `None` when no interaction cell
/// can be reached within `limite_cout` steps.
pub fn meilleure_cellule_interaction<F: Fn(Cellule) -> TerrainCell>(
    kind: StructureKind,
    anchor: Cellule,
    structures: &[StructureState],
    origines: &[Cellule],
    limite_cout: i32,
    terrain_at: &F,
) -> (r: Option<(Cellule, i32)>)
    requires
        oracle_terrain(terrain_at),
        emprise_interieure(kind, anchor),
        structures_representables(structures@),
        origines_bornees(origines@, borne_limite(limite_cout)),
    ensures
        r is Some <==> interaction_accessible(
            terrain_at,
            kind,
            anchor,
            structures@,
            origines@,
            borne_limite(limite_cout) as nat,
        ),
        r matches Some((c, k)) ==> meilleure_interaction(
            terrain_at,
            kind,
            anchor,
            structures@,
            origines@,
            borne_limite(limite_cout) as nat,
            c,
            k as int,
        ),
{
    let ghost l = borne_limite(limite_cout) as nat;
    let ghost occs = occupees_avec(structures@, kind, anchor);
    let interactions = cellules_interaction_structure(kind, anchor, structures, terrain_at);
    if interactions.len() == 0 {
        proof {
            assert forall|c: Cellule| #[trigger] cellule_interaction(terrain_at, kind, anchor, structures@, c) implies false by {
                assert(interactions@.contains(c));
            }
        }
        return None;
    }
    let occ = occupees_avec_emprise(structures, kind, anchor);
    let distances = carte_distances_depuis_origines(origines, &occ, limite_cout, terrain_at);
    let mut meilleur: Option<(Cellule, i32)> = None;
    let mut i: usize = 0;
    while i < interactions.len()
        invariant
            i <= interactions@.len(),
            occ@ == occs,
            forall|v: Cellule| #[trigger]
                interactions@.contains(v) <==> cellule_interaction(terrain_at, kind, anchor, structures@, v),
            forall|c: Cellule| #[trigger]
                distances@.contains_key(c) <==> atteint(terrain_at, occs, origines@, l, c),
            forall|c: Cellule| #[trigger]
                distances@.contains_key(c) ==> 0 <= distances@[c] <= l && distance_exacte(terrain_at, occs, origines@, c, distances@[c] as nat),
            match meilleur {
                Some((c, k)) => interactions@.contains(c) && distances@.contains_key(c) && distances@[c] == k
                    && forall|j: int| 0 <= j < i && #[trigger] distances@.contains_key(interactions@[j]) ==> {
                        let d = interactions@[j];
                        let kd = distances@[d];
                        k < kd || (k == kd && (c.x < d.x || (c.x == d.x && c.y <= d.y)))
                    },
                None => forall|j: int| 0 <= j < i ==> !#[trigger] distances@.contains_key(interactions@[j]),
            },
        decreases interactions@.len() - i,
    {
        let c = interactions[i];
        match distances.get(c) {
            Some(k) => {
                let remplacer = match meilleur {
                    Some((b, kb)) => k < kb || (k == kb && (c.x < b.x || (c.x == b.x && c.y < b.y))),
                    None => true,
                };
                if remplacer {
                    meilleur = Some((c, k));
                    proof {
                        assert(interactions@.contains(c)) by {
                            assert(interactions@[i as int] == c);
                        }
                    }
                }
            },
            None => {},
        }
        i += 1;
    }
    proof {
        match meilleur {
            Some((c, k)) => {
                assert(cellule_interaction(terrain_at, kind, anchor, structures@, c));
                assert(distance_exacte(terrain_at, occs, origines@, c, k as nat));
                assert(0 <= k <= l) by {
                    assert(distances@.contains_key(c));
                }
                assert forall|d: Cellule, kd: nat|
                    cellule_interaction(terrain_at, kind, anchor, structures@, d) && kd <= l
                        && distance_exacte(terrain_at, occs, origines@, d, kd) implies (k < kd || (k == kd && (c.x < d.x || (c.x == d.x && c.y <= d.y)))) by {
                    crate::navigation::lemme_atteint_monotone(terrain_at, occs, origines@, kd, l, d);
                    assert(distances@.contains_key(d));
                    crate::navigation::lemme_distance_unique(terrain_at, occs, origines@, d, kd, distances@[d] as nat);
                    assert(interactions@.contains(d));
                    let j = choose|j: int| 0 <= j < interactions@.len() && interactions@[j] == d;
                    assert(distances@.contains_key(interactions@[j]));
                }
                assert(interaction_accessible(terrain_at, kind, anchor, structures@, origines@, l)) by {
                    assert(atteint(terrain_at, occs, origines@, l, c));
                }
            },
            None => {
                assert forall|c: Cellule| #[trigger] cellule_interaction(terrain_at, kind, anchor, structures@, c)
                    implies !atteint(terrain_at, occs, origines@, l, c) by {
                    assert(interactions@.contains(c));
                    let j = choose|j: int| 0 <= j < interactions@.len() && interactions@[j] == c;
                    assert(!distances@.contains_key(interactions@[j]));
                }
            },
        }
    }
    meilleur
}


/// The best interaction cell of the structure with identifier `structure`
/// (the first structure bearing it); `None` when no structure bears it.
pub fn meilleure_cellule_interaction_structure<F: Fn(Cellule) -> TerrainCell>(
    structure: StructureId,
    structures: &[StructureState],
    origines: &[Cellule],
    limite_cout: i32,
    terrain_at: &F,
) -> (r: Option<(Cellule, i32)>)
    requires
        oracle_terrain(terrain_at),
        forall|i: int|
            0 <= i < structures@.len() ==> emprise_interieure(
                #[trigger] structures@[i].kind,
                structures@[i].anchor,
            ),
        structures_representables(structures@),
        origines_bornees(origines@, borne_limite(limite_cout)),
    ensures
        (forall|i: int| 0 <= i < structures@.len() ==> #[trigger] structures@[i].id != structure)
            ==> r is None,
        forall|i: int|
            0 <= i < structures@.len() && #[trigger] structures@[i].id == structure && (forall|j: int|
                0 <= j < i ==> structures@[j].id != structure) ==> {
                let st = structures@[i];
                &&& (r is Some <==> interaction_accessible(
                    terrain_at,
                    st.kind,
                    st.anchor,
                    structures@,
                    origines@,
                    borne_limite(limite_cout) as nat,
                ))
                &&& (r matches Some((c, k)) ==> meilleure_interaction(
                    terrain_at,
                    st.kind,
                    st.anchor,
                    structures@,
                    origines@,
                    borne_limite(limite_cout) as nat,
                    c,
                    k as int,
                ))
            },
{
    let mut i: usize = 0;
    while i < structures.len()
        invariant
            oracle_terrain(terrain_at),
            forall|i: int|
                0 <= i < structures@.len() ==> emprise_interieure(
                    #[trigger] structures@[i].kind,
                    structures@[i].anchor,
                ),
            structures_representables(structures@),
            origines_bornees(origines@, borne_limite(limite_cout)),
            i <= structures@.len(),
            forall|j: int| 0 <= j < i ==> structures@[j].id != structure,
        decreases structures@.len() - i,
    {
        if structures[i].id == structure {
            let st = structures[i];
            assert(emprise_interieure(structures@[i as int].kind, structures@[i as int].anchor));
            return meilleure_cellule_interaction(
                st.kind,
                st.anchor,
                structures,
                origines,
                limite_cout,
                terrain_at,
            );
        }
        i += 1;
    }
    None
}

/// The shortest walk from `depart` to an interaction cell of the structure,
/// the structure's own cells blocking the way; see
/// `trouver_chemin_vers_objectif` for which cell is chosen.
pub fn trouver_chemin_vers_interaction<F: Fn(Cellule) -> TerrainCell>(
    depart: Cellule,
    kind: StructureKind,
    anchor: Cellule,
    structures: &[StructureState],
    limite_cout: i32,
    terrain_at: &F,
) -> (r: Option<CheminCellulaire>)
    requires
        oracle_terrain(terrain_at),
        emprise_interieure(kind, anchor),
        structures_representables(structures@),
        dans_marge(depart, borne_limite(limite_cout)),
    ensures
        ({
            let buts = Set::new(
                |v: Cellule| cellule_interaction(terrain_at, kind, anchor, structures@, v),
            );
            let occ = occupees_avec(structures@, kind, anchor);
            let l = borne_limite(limite_cout) as nat;
            &&& buts.contains(depart) ==> r is Some && r->0.cellules@ == seq![depart]
                && r->0.cout == 0
            &&& !buts.contains(depart) ==> (r is Some <==> but_accessible(
                terrain_at,
                occ,
                depart,
                buts,
                l,
            ))
            &&& !buts.contains(depart) && r is Some ==> {
                let ch = r->0;
                &&& chemin_exact(terrain_at, occ, depart, ch.cellules@)
                &&& chemin_retenu(terrain_at, occ, depart, buts, ch.cellules@)
                &&& ch.cellules@.len() == ch.cout + 1
                &&& 1 <= ch.cout <= l
                &&& but_retenu(terrain_at, occ, depart, buts, ch.cellules@[ch.cout as int], ch.cout as nat)
            }
        }),
{
    let ghost buts = Set::new(
        |v: Cellule| cellule_interaction(terrain_at, kind, anchor, structures@, v),
    );
    let interactions = cellules_interaction_structure(kind, anchor, structures, terrain_at);
    proof {
        assert(ensemble_de(interactions@) =~= buts);
    }
    if interactions.len() == 0 {
        proof {
            assert forall|v: Cellule| !#[trigger] buts.contains(v) by {
                if buts.contains(v) {
                    assert(interactions@.contains(v));
                }
            }
        }
        return None;
    }
    let occ = occupees_avec_emprise(structures, kind, anchor);
    trouver_chemin_vers_objectif(depart, interactions.as_slice(), &occ, limite_cout, terrain_at)
}

/// The walking cost from the origins to `cellule`, if it is reachable
/// within `limite_cout` steps.
pub fn cout_trajet_base_vers<F: Fn(Cellule) -> TerrainCell>(
    cellule: Cellule,
    origines: &[Cellule],
    cellules_occupees: &EnsembleCellules,
    limite_cout: i32,
    terrain_at: &F,
) -> (r: Option<i32>)
    requires
        oracle_terrain(terrain_at),
        origines_bornees(origines@, borne_limite(limite_cout)),
    ensures
        r is Some <==> atteint(
            terrain_at,
            cellules_occupees@,
            origines@,
            borne_limite(limite_cout) as nat,
            cellule,
        ),
        r matches Some(k) ==> 0 <= k && distance_exacte(
            terrain_at,
            cellules_occupees@,
            origines@,
            cellule,
            k as nat,
        ),
{
    let distances = carte_distances_depuis_origines(
        origines,
        cellules_occupees,
        limite_cout,
        terrain_at,
    );
    distances.get(cellule)
}

/// Whether placing would link the new structure to the main network.
#[derive(Clone, Copy, Debug, Default, PartialEq, Eq, Structural)]
pub enum EtatConnexionPlacement {
    #[default]
    Connecte,
    NonConnecte,
}

/// Why a placement is accepted or refused.
#[derive(Clone, Copy, Debug, PartialEq, Eq, Structural)]
pub enum RaisonPlacement {
    CaseOccupee,
    TerrainInadapte,
    AucunAccesPieton,
    AucuneZoneTravail,
    Valide,
    HorsPorteeEva,
    Inaccessible,
}

/// The sentence shown to the player for a placement answer.
pub open spec fn libelle_raison(raison: RaisonPlacement, etat: EtatConnexionPlacement) -> &'static str {
    match raison {
        RaisonPlacement::CaseOccupee => "Case deja occupee.",
        RaisonPlacement::TerrainInadapte => "Terrain trop pentu ou bloque.",
        RaisonPlacement::AucunAccesPieton => "Aucun acces pieton adjacent.",
        RaisonPlacement::AucuneZoneTravail => "Aucune zone de travail disponible depuis la base.",
        RaisonPlacement::Valide => match etat {
            EtatConnexionPlacement::Connecte => "Placement valide.",
            EtatConnexionPlacement::NonConnecte => "Placement valide mais module non relie au reseau principal.",
        },
        RaisonPlacement::HorsPorteeEva => "Hors portee EVA sure.",
        RaisonPlacement::Inaccessible => "Zone inaccessible a pied depuis la base.",
    }
}

impl RaisonPlacement {
    /// The sentence shown to the player; an accepted placement adds the
    /// walking cost after it.
    pub fn libelle(self, etat: EtatConnexionPlacement) -> (r: &'static str)
        ensures
            r == libelle_raison(self, etat),
    {
        match self {
            RaisonPlacement::CaseOccupee => "Case deja occupee.",
            RaisonPlacement::TerrainInadapte => "Terrain trop pentu ou bloque.",
            RaisonPlacement::AucunAccesPieton => "Aucun acces pieton adjacent.",
            RaisonPlacement::AucuneZoneTravail => "Aucune zone de travail disponible depuis la base.",
            RaisonPlacement::Valide => match etat {
                EtatConnexionPlacement::Connecte => "Placement valide.",
                EtatConnexionPlacement::NonConnecte => "Placement valide mais module non relie au reseau principal.",
            },
            RaisonPlacement::HorsPorteeEva => "Hors portee EVA sure.",
            RaisonPlacement::Inaccessible => "Zone inaccessible a pied depuis la base.",
        }
    }
}

#[derive(Clone, Copy, Debug, PartialEq, Eq, Structural)]
pub struct PlacementValidation {
    pub valid: bool,
    pub raison: RaisonPlacement,
    /// Walking cost from the base to the chosen interaction cell, when valid.
    pub cout_acces: Option<i32>,
    pub cellule_interaction: Option<Cellule>,
    pub etat_connexion: EtatConnexionPlacement,
}

/// The new footprint overlaps an existing structure.
pub open spec fn chevauche(kind: StructureKind, anchor: Cellule, structures: Seq<StructureState>) -> bool {
    exists|c: Cellule| #[trigger] dans_emprise(kind, anchor, c) && couverte(structures, c)
}

/// Some cell of the new footprint cannot be built on.
pub open spec fn terrain_refuse<F: Fn(Cellule) -> TerrainCell>(
    f: &F,
    kind: StructureKind,
    anchor: Cellule,
) -> bool {
    exists|c: Cellule|
        #[trigger] dans_emprise(kind, anchor, c) && (!terrain_selon(f, c).constructible
            || terrain_selon(f, c).blocked)
}

/// Some interaction cell exists around the footprint.
pub open spec fn acces_existe<F: Fn(Cellule) -> TerrainCell>(
    f: &F,
    kind: StructureKind,
    anchor: Cellule,
    structures: Seq<StructureState>,
) -> bool {
    exists|c: Cellule| #[trigger] cellule_interaction(f, kind, anchor, structures, c)
}

/// No built structure belongs to network 0, or one of them is linked to the
/// new footprint.
pub open spec fn rejoint_reseau(
    kind: StructureKind,
    anchor: Cellule,
    s: Seq<StructureState>,
) -> bool {
    (forall|i: int| 0 <= i < s.len() ==> !(#[trigger] s[i].built && s[i].network_id == Some(0usize)))
        || exists|i: int|
        0 <= i < s.len() && #[trigger] s[i].built && s[i].network_id == Some(0usize) && relies(
            kind,
            anchor,
            s[i].kind,
            s[i].anchor,
            cellules_occupees(s),
        )
}

/// How much farther than the safe range the search for a walkable route
/// goes before calling a site unreachable.
pub const MARGE_RECHERCHE_ACCES: i32 = 128;

fn refus(raison: RaisonPlacement) -> (v: PlacementValidation)
    ensures
        !v.valid,
        v.raison == raison,
        v.cout_acces is None,
        v.cellule_interaction is None,
        v.etat_connexion == EtatConnexionPlacement::Connecte,
{
    PlacementValidation {
        valid: false,
        raison,
        cout_acces: None,
        cellule_interaction: None,
        etat_connexion: EtatConnexionPlacement::Connecte,
    }
}

/// Whether a structure of kind `kind` may be placed at `anchor`, checked in
/// this order: the footprint must be free, buildable, bordered by a walkable
/// cell, the base must offer departure cells, and an interaction cell must be
/// reachable on foot within the safe range of a suit. A refused site is
/// reported as out of safe range when it can be reached within 128 more
/// steps, as unreachable otherwise.
pub fn validate_structure_placement<F: Fn(Cellule) -> TerrainCell>(
    kind: StructureKind,
    anchor: Cellule,
    structures: &[StructureState],
    zone_recharge: &ZoneRechargeBase,
    terrain_at: &F,
) -> (v: PlacementValidation)
    requires
        oracle_terrain(terrain_at),
        emprise_interieure(kind, anchor),
        structures_representables(structures@),
        origines_bornees(zone_recharge@, 468),
    ensures
        v.valid <==> v.raison == RaisonPlacement::Valide,
        v.raison == RaisonPlacement::CaseOccupee <==> chevauche(kind, anchor, structures@),
        v.raison == RaisonPlacement::TerrainInadapte <==> !chevauche(kind, anchor, structures@)
            && terrain_refuse(terrain_at, kind, anchor),
        v.raison == RaisonPlacement::AucunAccesPieton <==> !chevauche(kind, anchor, structures@)
            && !terrain_refuse(terrain_at, kind, anchor) && !acces_existe(
            terrain_at,
            kind,
            anchor,
            structures@,
        ),
        v.raison == RaisonPlacement::AucuneZoneTravail <==> !chevauche(kind, anchor, structures@)
            && !terrain_refuse(terrain_at, kind, anchor) && acces_existe(
            terrain_at,
            kind,
            anchor,
            structures@,
        ) && zone_recharge@.len() == 0,
        v.raison == RaisonPlacement::Valide <==> !chevauche(kind, anchor, structures@)
            && !terrain_refuse(terrain_at, kind, anchor) && zone_recharge@.len() > 0
            && interaction_accessible(terrain_at, kind, anchor, structures@, zone_recharge@, 340),
        v.raison == RaisonPlacement::HorsPorteeEva <==> !chevauche(kind, anchor, structures@)
            && !terrain_refuse(terrain_at, kind, anchor) && acces_existe(
            terrain_at,
            kind,
            anchor,
            structures@,
        ) && zone_recharge@.len() > 0 && !interaction_accessible(
            terrain_at,
            kind,
            anchor,
            structures@,
            zone_recharge@,
            340,
        ) && interaction_accessible(terrain_at, kind, anchor, structures@, zone_recharge@, 468),
        v.raison == RaisonPlacement::Inaccessible <==> !chevauche(kind, anchor, structures@)
            && !terrain_refuse(terrain_at, kind, anchor) && acces_existe(
            terrain_at,
            kind,
            anchor,
            structures@,
        ) && zone_recharge@.len() > 0 && !interaction_accessible(
            terrain_at,
            kind,
            anchor,
            structures@,
            zone_recharge@,
            468,
        ),
        v.valid ==> (v.cellule_interaction matches Some(c) && v.cout_acces matches Some(k)
            && meilleure_interaction(
            terrain_at,
            kind,
            anchor,
            structures@,
            zone_recharge@,
            340,
            c,
            k as int,
        )),
        !v.valid ==> v.cellule_interaction is None && v.cout_acces is None && v.etat_connexion
            == EtatConnexionPlacement::Connecte,
        v.valid ==> (v.etat_connexion == EtatConnexionPlacement::Connecte <==> rejoint_reseau(
            kind,
            anchor,
            structures@,
        )),
{
    let ghost s = structures@;
    let emprise = structure_cells(kind, anchor);
    // The footprint must be free.
    let mut i: usize = 0;
    while i < structures.len()
        invariant
            i <= s.len(),
            s == structures@,
            forall|c: Cellule| #[trigger] emprise@.contains(c) <==> dans_emprise(kind, anchor, c),
            forall|c: Cellule, j: int|
                0 <= j < i && #[trigger] dans_emprise(kind, anchor, c) ==> !dans_emprise(
                    #[trigger] s[j].kind,
                    s[j].anchor,
                    c,
                ),
        decreases s.len() - i,
    {
        let st = structures[i];
        let mut j: usize = 0;
        while j < emprise.len()
            invariant
                j <= emprise@.len(),
                i < s.len(),
                st == s[i as int],
                s == structures@,
                forall|c: Cellule| #[trigger] emprise@.contains(c) <==> dans_emprise(kind, anchor, c),
                forall|k: int| 0 <= k < j ==> !dans_emprise(st.kind, st.anchor, #[trigger] emprise@[k]),
            decreases emprise@.len() - j,
        {
            if est_dans_emprise(st.kind, st.anchor, emprise[j]) {
                proof {
                    let c = emprise@[j as int];
                    assert(emprise@.contains(c));
                    assert(dans_emprise(s[i as int].kind, s[i as int].anchor, c));
                    assert(couverte(s, c));
                    assert(chevauche(kind, anchor, s));
                }
                return refus(RaisonPlacement::CaseOccupee);
            }
            j += 1;
        }
        proof {
            assert forall|c: Cellule, jj: int|
                0 <= jj < i + 1 && #[trigger] dans_emprise(kind, anchor, c) implies !dans_emprise(
                #[trigger] s[jj].kind,
                s[jj].anchor,
                c,
            ) by {
                if jj == i {
                    assert(emprise@.contains(c));
                    let k = choose|k: int| 0 <= k < emprise@.len() && emprise@[k] == c;
                    assert(!dans_emprise(st.kind, st.anchor, emprise@[k]));
                }
            }
        }
        i += 1;
    }
    assert(!chevauche(kind, anchor, s)) by {
        assert forall|c: Cellule| #[trigger] dans_emprise(kind, anchor, c) implies !couverte(s, c) by {
            if couverte(s, c) {
                let j = choose|j: int|
                    0 <= j < s.len() && dans_emprise(#[trigger] s[j].kind, s[j].anchor, c);
            }
        }
    }
    // The footprint must be buildable.
    let mut k: usize = 0;
    while k < emprise.len()
        invariant
            oracle_terrain(terrain_at),
            s == structures@,
            !chevauche(kind, anchor, s),
            k <= emprise@.len(),
            forall|c: Cellule| #[trigger] emprise@.contains(c) <==> dans_emprise(kind, anchor, c),
            forall|j: int|
                0 <= j < k ==> terrain_selon(terrain_at, #[trigger] emprise@[j]).constructible
                    && !terrain_selon(terrain_at, emprise@[j]).blocked,
        decreases emprise@.len() - k,
    {
        let t = lire_terrain(terrain_at, emprise[k]);
        if !t.constructible || t.blocked {
            proof {
                assert(emprise@.contains(emprise@[k as int]));
            }
            return refus(RaisonPlacement::TerrainInadapte);
        }
        k += 1;
    }
    assert(!terrain_refuse(terrain_at, kind, anchor)) by {
        assert forall|c: Cellule| #[trigger] dans_emprise(kind, anchor, c) implies terrain_selon(
            terrain_at,
            c,
        ).constructible && !terrain_selon(terrain_at, c).blocked by {
            assert(emprise@.contains(c));
            let j = choose|j: int| 0 <= j < emprise@.len() && emprise@[j] == c;
        }
    }
    // A walkable cell must border it.
    let interactions = cellules_interaction_structure(kind, anchor, structures, terrain_at);
    if interactions.len() == 0 {
        proof {
            assert forall|c: Cellule| !#[trigger] cellule_interaction(terrain_at, kind, anchor, s, c) by {
                if cellule_interaction(terrain_at, kind, anchor, s, c) {
                    assert(interactions@.contains(c));
                }
            }
        }
        return refus(RaisonPlacement::AucunAccesPieton);
    }
    proof {
        assert(interactions@.contains(interactions@[0]));
        assert(acces_existe(terrain_at, kind, anchor, s));
    }
    // The base must offer departure cells.
    let origines = cellules_origine_base(zone_recharge);
    if origines.len() == 0 {
        return refus(RaisonPlacement::AucuneZoneTravail);
    }
    let limite_eva = autonomie_aller_retour_max_cases();
    proof {
        assert forall|i: int| 0 <= i < origines@.len() implies crate::navigation::dans_marge(
            #[trigger] origines@[i],
            limite_eva as int,
        ) by {
            assert(crate::navigation::dans_marge(zone_recharge@[i], 468));
        }
    }
    match meilleure_cellule_interaction(
        kind,
        anchor,
        structures,
        origines.as_slice(),
        limite_eva,
        terrain_at,
    ) {
        Some((cellule, cout)) => {
            let rejoint = structure_rejoint_reseau_principal(kind, anchor, structures);
            proof {
                let occs = occupees_avec(s, kind, anchor);
                assert(distance_exacte(terrain_at, occs, origines@, cellule, cout as nat));
                crate::navigation::lemme_atteint_monotone(terrain_at, occs, origines@, cout as nat, 468, cellule);
                assert(interaction_accessible(terrain_at, kind, anchor, s, origines@, 468));
            }
            let etat_connexion = if rejoint {
                EtatConnexionPlacement::Connecte
            } else {
                EtatConnexionPlacement::NonConnecte
            };
            return PlacementValidation {
                valid: true,
                raison: RaisonPlacement::Valide,
                cout_acces: Some(cout),
                cellule_interaction: Some(cellule),
                etat_connexion,
            };
        },
        None => {},
    }
    let limite_recherche = limite_eva + MARGE_RECHERCHE_ACCES;
    let occ = occupees_avec_emprise(structures, kind, anchor);
    let distances = carte_distances_depuis_origines(
        origines.as_slice(),
        &occ,
        limite_recherche,
        terrain_at,
    );
    let mut j: usize = 0;
    while j < interactions.len()
        invariant
            s == structures@,
            !chevauche(kind, anchor, s),
            !terrain_refuse(terrain_at, kind, anchor),
            acces_existe(terrain_at, kind, anchor, s),
            zone_recharge@.len() > 0,
            origines@ == zone_recharge@,
            !interaction_accessible(terrain_at, kind, anchor, s, zone_recharge@, 340),
            j <= interactions@.len(),
            forall|v: Cellule| #[trigger]
                interactions@.contains(v) <==> cellule_interaction(terrain_at, kind, anchor, s, v),
            forall|c: Cellule| #[trigger]
                distances@.contains_key(c) <==> atteint(
                    terrain_at,
                    occupees_avec(s, kind, anchor),
                    origines@,
                    468,
                    c,
                ),
            forall|jj: int| 0 <= jj < j ==> !#[trigger] distances@.contains_key(interactions@[jj]),
        decreases interactions@.len() - j,
    {
        if distances.contains_key(interactions[j]) {
            proof {
                let c = interactions@[j as int];
                assert(interactions@.contains(c));
                assert(interaction_accessible(terrain_at, kind, anchor, s, origines@, 468));
            }
            return refus(RaisonPlacement::HorsPorteeEva);
        }
        j += 1;
    }
    proof {
        assert forall|c: Cellule| #[trigger] cellule_interaction(terrain_at, kind, anchor, s, c)
            implies !atteint(terrain_at, occupees_avec(s, kind, anchor), origines@, 468, c) by {
            assert(interactions@.contains(c));
            let jj = choose|jj: int| 0 <= jj < interactions@.len() && interactions@[jj] == c;
            assert(!distances@.contains_key(interactions@[jj]));
        }
    }
    refus(RaisonPlacement::Inaccessible)
}

} // verus!
