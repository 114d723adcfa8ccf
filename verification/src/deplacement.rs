//! What a worker does with its task on a tick: where it heads, whether it
//! can get there and back to the recharge zone, and the step it takes. How
//! much air the trip needs against what the suit holds is weighed by the
//! caller from the two walking costs given here.
use crate::grille::{adjacentes, Cellule};
use crate::interactions::{
    cellule_interaction, emprise_interieure, occupees_avec, trouver_chemin_vers_interaction,
};
use crate::monde::TerrainCell;
use crate::navigation::{
    atteint, autonomie_aller_retour_max_cases, borne_limite, but_accessible, but_retenu,
    chemin_exact, chemin_retenu, chemin_vers_objectif_correct, dans_marge, ensemble_de,
    lemme_atteint_borne, libre, loi_atteintes_libres, oracle_terrain, origines_bornees, trouver_chemin_a_star,
    CheminCellulaire,
};
use crate::recharge::{chemin_vers_recharge_ouvrier, ZoneRechargeBase};
use crate::structures::{
    cellules_occupees, cellules_occupees_structures, structures_representables, StructureId,
    StructureState,
};
use crate::taches::{task_needs_missing_structure, Task, TaskKind};
use vstd::prelude::*;

verus! {

/// How far a worker walks to a task or back: its round-trip range plus a
/// margin.
pub const LIMITE_NAVIGATION: i32 = 468;

pub fn limite_navigation() -> (l: i32)
    ensures
        l == LIMITE_NAVIGATION,
{
    autonomie_aller_retour_max_cases() + 128
}

/// The identifiers of the structures, in order.
pub open spec fn ids_de(structures: Seq<StructureState>) -> Seq<StructureId> {
    structures.map_values(|s: StructureState| s.id)
}

fn ids_structures(structures: &[StructureState]) -> (r: Vec<StructureId>)
    ensures
        r@ == ids_de(structures@),
{
    let mut r: Vec<StructureId> = Vec::new();
    let mut i: usize = 0;
    while i < structures.len()
        invariant
            i <= structures@.len(),
            r@ =~= ids_de(structures@).take(i as int),
        decreases structures@.len() - i,
    {
        r.push(structures[i].id);
        i += 1;
    }
    proof {
        assert(ids_de(structures@).take(structures@.len() as int) =~= ids_de(structures@));
    }
    r
}

/// The task refers to a structure that no longer exists.
pub open spec fn manque_structure(kind: TaskKind, porte_glace: bool, ids: Seq<StructureId>) -> bool {
    match kind {
        TaskKind::Build { structure } => !ids.contains(structure),
        TaskKind::HaulIce { target, .. } => porte_glace && !ids.contains(target),
        TaskKind::RefuelStructure { target, .. } => porte_glace && !ids.contains(target),
        TaskKind::ReturnToBase { target } => !ids.contains(target),
        TaskKind::Extract { .. } => false,
    }
}

/// Among the first `n` structures, the first bearing the identifier `id`.
pub open spec fn indice_porteur(structures: Seq<StructureState>, id: StructureId, n: int) -> Option<
    int,
>
    decreases n,
{
    if n <= 0 {
        None
    } else {
        match indice_porteur(structures, id, n - 1) {
            Some(i) => Some(i),
            None => if structures[n - 1].id == id {
                Some(n - 1)
            } else {
                None
            },
        }
    }
}

/// The cells to work on `st` from.
pub open spec fn buts_interaction<F: Fn(Cellule) -> TerrainCell>(
    f: &F,
    st: StructureState,
    structures: Seq<StructureState>,
) -> Set<Cellule> {
    Set::new(|v: Cellule| cellule_interaction(f, st.kind, st.anchor, structures, v))
}

/// From `position`, a cell to work on `st` from can be reached within `l`
/// steps (or `position` is one).
pub open spec fn interaction_joignable<F: Fn(Cellule) -> TerrainCell>(
    f: &F,
    st: StructureState,
    structures: Seq<StructureState>,
    position: Cellule,
    l: nat,
) -> bool {
    let buts = buts_interaction(f, st, structures);
    buts.contains(position) || but_accessible(
        f,
        occupees_avec(structures, st.kind, st.anchor),
        position,
        buts,
        l,
    )
}

/// `g` is where a walk from `position` to work on `st` ends: `position`
/// itself when it is such a cell, else the nearest on foot (then the least
/// in `(x, y)` order).
pub open spec fn point_interaction_retenu<F: Fn(Cellule) -> TerrainCell>(
    f: &F,
    st: StructureState,
    structures: Seq<StructureState>,
    position: Cellule,
    l: nat,
    g: Cellule,
) -> bool {
    let buts = buts_interaction(f, st, structures);
    if buts.contains(position) {
        g == position
    } else {
        exists|k: nat|
            1 <= k <= l && #[trigger] but_retenu(
                f,
                occupees_avec(structures, st.kind, st.anchor),
                position,
                buts,
                g,
                k,
            )
    }
}

/// `r` is the cell the worker heads for: the task's cell, or the deposit
/// or heap of ice while nothing is carried; to fetch ice for refuelling, the
/// nearest cell to work on the source store from, if any can be reached.
pub open spec fn cible_correcte<F: Fn(Cellule) -> TerrainCell>(
    f: &F,
    position: Cellule,
    task: Task,
    porte_glace: bool,
    structures: Seq<StructureState>,
    r: Option<Cellule>,
) -> bool {
    match task.kind {
        TaskKind::Build { .. } => r == Some(task.target_cell),
        TaskKind::ReturnToBase { .. } => r == Some(task.target_cell),
        TaskKind::Extract { cell } => r == Some(cell),
        TaskKind::HaulIce { source_cell, .. } => r == Some(
            if porte_glace {
                task.target_cell
            } else {
                source_cell
            },
        ),
        TaskKind::RefuelStructure { source, .. } => if porte_glace {
            r == Some(task.target_cell)
        } else {
            match indice_porteur(structures, source, structures.len() as int) {
                None => r is None,
                Some(j) => {
                    let st = structures[j];
                    let l = LIMITE_NAVIGATION as nat;
                    &&& (r is Some <==> interaction_joignable(f, st, structures, position, l))
                    &&& (r matches Some(g) ==> point_interaction_retenu(
                        f,
                        st,
                        structures,
                        position,
                        l,
                        g,
                    ))
                }
            }
        },
    }
}

/// Every structure lies inside the grid with a border around it.
pub open spec fn emprises_interieures(structures: Seq<StructureState>) -> bool {
    forall|i: int|
        0 <= i < structures.len() ==> emprise_interieure(
            #[trigger] structures[i].kind,
            structures[i].anchor,
        )
}

/// The cells a task names lie far enough from the edges of the grid.
pub open spec fn tache_dans_marge(task: Task, m: int) -> bool {
    &&& dans_marge(task.target_cell, m)
    &&& match task.kind {
        TaskKind::Extract { cell } => dans_marge(cell, m),
        TaskKind::HaulIce { source_cell, .. } => dans_marge(source_cell, m),
        _ => true,
    }
}

/// The cell the worker at `position` heads for with `task`.
pub fn cible_tache<F: Fn(Cellule) -> TerrainCell>(
    position: Cellule,
    task: &Task,
    porte_glace: bool,
    structures: &[StructureState],
    terrain_at: &F,
) -> (r: Option<Cellule>)
    requires
        oracle_terrain(terrain_at),
        emprises_interieures(structures@),
        structures_representables(structures@),
        dans_marge(position, 2 * LIMITE_NAVIGATION),
        tache_dans_marge(*task, LIMITE_NAVIGATION as int),
    ensures
        cible_correcte(terrain_at, position, *task, porte_glace, structures@, r),
        r matches Some(c) ==> dans_marge(c, LIMITE_NAVIGATION as int),
{
    match task.kind {
        TaskKind::Build { .. } => Some(task.target_cell),
        TaskKind::ReturnToBase { .. } => Some(task.target_cell),
        TaskKind::Extract { cell } => Some(cell),
        TaskKind::HaulIce { source_cell, .. } => Some(
            if porte_glace {
                task.target_cell
            } else {
                source_cell
            },
        ),
        TaskKind::RefuelStructure { source, .. } => {
            if porte_glace {
                return Some(task.target_cell);
            }
            let mut j: usize = 0;
            while j < structures.len() && structures[j].id != source
                invariant
                    j <= structures@.len(),
                    indice_porteur(structures@, source, j as int) is None,
                decreases structures@.len() - j,
            {
                j += 1;
            }
            if j == structures.len() {
                return None;
            }
            proof {
                assert(indice_porteur(structures@, source, j as int + 1) == Some(j as int));
                lemme_porteur_stable(structures@, source, j as int + 1, structures@.len() as int);
            }
            let st = structures[j];
            assert(emprise_interieure(structures@[j as int].kind, structures@[j as int].anchor));
            let l = limite_navigation();
            proof {
                assert(dans_marge(position, borne_limite(l)));
            }
            let trouve = trouver_chemin_vers_interaction(
                position,
                st.kind,
                st.anchor,
                structures,
                l,
                terrain_at,
            );
            match trouve {
                Some(ch) => {
                    let g = ch.cellules[ch.cellules.len() - 1];
                    proof {
                        let buts = buts_interaction(terrain_at, st, structures@);
                        let occ = occupees_avec(structures@, st.kind, st.anchor);
                        assert(buts =~= Set::new(
                            |v: Cellule|
                                cellule_interaction(terrain_at, st.kind, st.anchor, structures@, v),
                        ));
                        if !buts.contains(position) {
                            let k = ch.cout as nat;
                            assert(but_retenu(terrain_at, occ, position, buts, g, k));
                            assert(chemin_exact(terrain_at, occ, position, ch.cellules@));
                            assert(crate::navigation::distance_exacte(
                                terrain_at,
                                occ,
                                seq![position],
                                ch.cellules@[k as int],
                                k,
                            ));
                            assert(origines_bornees(seq![position], 2 * LIMITE_NAVIGATION)) by {
                                assert(seq![position][0] == position);
                            }
                            lemme_atteint_borne(
                                terrain_at,
                                occ,
                                seq![position],
                                2 * LIMITE_NAVIGATION,
                                k,
                                g,
                            );
                        }
                    }
                    Some(g)
                },
                None => None,
            }
        },
    }
}

proof fn lemme_porteur_stable(structures: Seq<StructureState>, id: StructureId, a: int, b: int)
    requires
        0 <= a <= b,
        indice_porteur(structures, id, a) is Some,
    ensures
        indice_porteur(structures, id, b) == indice_porteur(structures, id, a),
    decreases b - a,
{
    if a < b {
        lemme_porteur_stable(structures, id, a, b - 1);
    }
}

/// What `trouver_chemin_a_star` answers for a walk from `depart` to `arrivee`.
pub open spec fn chemin_a_star_correct<F: Fn(Cellule) -> TerrainCell>(
    f: &F,
    occ: Set<Cellule>,
    depart: Cellule,
    arrivee: Cellule,
    limite_cout: i32,
    r: Option<CheminCellulaire>,
) -> bool {
    &&& depart == arrivee ==> r is Some && r->0.cellules@ == seq![depart] && r->0.cout == 0
    &&& depart != arrivee ==> (r is Some <==> atteint(
        f,
        occ,
        seq![depart],
        borne_limite(limite_cout) as nat,
        arrivee,
    ))
    &&& depart != arrivee && r is Some ==> {
        let ch = r->0;
        &&& chemin_exact(f, occ, depart, ch.cellules@)
        &&& chemin_retenu(f, occ, depart, set![arrivee], ch.cellules@)
        &&& ch.cellules@.len() == ch.cout + 1
        &&& 1 <= ch.cout <= borne_limite(limite_cout)
        &&& ch.cellules@[ch.cout as int] == arrivee
    }
}

/// What a worker with a task does this tick, before air is weighed.
#[derive(Clone, Copy, Debug, PartialEq, Eq, Structural)]
pub enum DecisionOuvrier {
    /// Drop the task.
    Abandonner,
    /// Step to `prochain_pas`, the second cell of a walk of `cout_aller`
    /// steps to the target, from where the walk back to the recharge zone
    /// takes `cout_retour` steps.
    Avancer { prochain_pas: Cellule, cout_aller: i32, cout_retour: i32 },
    /// Work on the task where the worker stands.
    Travailler,
}

/// From `cible` a walk leads back to the recharge zone.
pub open spec fn retour_possible<F: Fn(Cellule) -> TerrainCell>(
    f: &F,
    occ: Set<Cellule>,
    cible: Cellule,
    zone: Seq<Cellule>,
) -> bool {
    zone.len() > 0 && (zone.contains(cible) || but_accessible(
        f,
        occ,
        cible,
        ensemble_de(zone),
        LIMITE_NAVIGATION as nat,
    ))
}

/// What follows from the target `r`: without one the task is dropped; on
/// it the worker works; elsewhere it sets out when it can reach the target
/// and come back from it to the zone, and drops the task otherwise.
pub open spec fn suite_correcte<F: Fn(Cellule) -> TerrainCell>(
    f: &F,
    occ: Set<Cellule>,
    position: Cellule,
    zone: Seq<Cellule>,
    r: Option<Cellule>,
    d: DecisionOuvrier,
) -> bool {
    match r {
        None => d is Abandonner,
        Some(cible) => if cible == position {
            d is Travailler
        } else {
            &&& !(d is Travailler)
            &&& (d is Abandonner <==> !(atteint(
                f,
                occ,
                seq![position],
                LIMITE_NAVIGATION as nat,
                cible,
            ) && retour_possible(f, occ, cible, zone)))
            &&& (d matches DecisionOuvrier::Avancer { prochain_pas, cout_aller, cout_retour } ==> {
                &&& exists|ch: CheminCellulaire|
                    #[trigger] chemin_a_star_correct(
                        f,
                        occ,
                        position,
                        cible,
                        LIMITE_NAVIGATION,
                        Some(ch),
                    ) && ch.cout == cout_aller && ch.cellules@[1] == prochain_pas
                &&& exists|ret: CheminCellulaire|
                    #[trigger] chemin_vers_objectif_correct(
                        f,
                        occ,
                        cible,
                        zone,
                        LIMITE_NAVIGATION,
                        Some(ret),
                    ) && ret.cout == cout_retour
            })
        },
    }
}

/// What the worker at `position` does with `task`: drop it when it names a
/// structure that is gone; otherwise head for its target as
/// `suite_correcte` says.
pub open spec fn decision_correcte<F: Fn(Cellule) -> TerrainCell>(
    f: &F,
    position: Cellule,
    task: Task,
    porte_glace: bool,
    structures: Seq<StructureState>,
    zone: Seq<Cellule>,
    d: DecisionOuvrier,
) -> bool {
    if manque_structure(task.kind, porte_glace, ids_de(structures)) {
        d is Abandonner
    } else {
        exists|r: Option<Cellule>|
            #[trigger] cible_correcte(f, position, task, porte_glace, structures, r) && suite_correcte(
                f,
                cellules_occupees(structures),
                position,
                zone,
                r,
                d,
            )
    }
}

/// What the worker at `position`, carrying ice or not, does with `task`
/// this tick: drop it, step towards its target, or work on it.
pub fn decider_tache<F: Fn(Cellule) -> TerrainCell>(
    position: Cellule,
    task: &Task,
    porte_glace: bool,
    structures: &[StructureState],
    zone_recharge: &ZoneRechargeBase,
    terrain_at: &F,
) -> (d: DecisionOuvrier)
    requires
        oracle_terrain(terrain_at),
        emprises_interieures(structures@),
        structures_representables(structures@),
        dans_marge(position, 2 * LIMITE_NAVIGATION),
        tache_dans_marge(*task, LIMITE_NAVIGATION as int),
    ensures
        decision_correcte(terrain_at, position, *task, porte_glace, structures@, zone_recharge@, d),
        d matches DecisionOuvrier::Avancer { prochain_pas, cout_aller, .. } ==> {
            &&& adjacentes(position, prochain_pas)
            &&& libre(terrain_at, cellules_occupees(structures@), prochain_pas)
            &&& 1 <= cout_aller <= LIMITE_NAVIGATION
        },
{
    let ids = ids_structures(structures);
    if task_needs_missing_structure(task, porte_glace, ids.as_slice()) {
        return DecisionOuvrier::Abandonner;
    }
    let r = cible_tache(position, task, porte_glace, structures, terrain_at);
    let ghost occ = cellules_occupees(structures@);
    let cible = match r {
        Some(c) => c,
        None => {
            return DecisionOuvrier::Abandonner;
        },
    };
    if position == cible {
        return DecisionOuvrier::Travailler;
    }
    let l = limite_navigation();
    let occupees = cellules_occupees_structures(structures);
    proof {
        assert(occupees@ =~= occ);
        assert(dans_marge(position, borne_limite(l)));
    }
    let aller = trouver_chemin_a_star(position, cible, &occupees, l, terrain_at);
    let ch = match aller {
        Some(ch) => ch,
        None => {
            return DecisionOuvrier::Abandonner;
        },
    };
    proof {
        assert(chemin_a_star_correct(terrain_at, occ, position, cible, l, Some(ch)));
    }
    let retour = chemin_vers_recharge_ouvrier(zone_recharge, structures, cible, l, terrain_at);
    let ret = match retour {
        Some(ret) => ret,
        None => {
            proof {
                assert(chemin_vers_objectif_correct(terrain_at, occ, cible, zone_recharge@, l, None));
            }
            return DecisionOuvrier::Abandonner;
        },
    };
    proof {
        assert(chemin_vers_objectif_correct(terrain_at, occ, cible, zone_recharge@, l, Some(ret)));
        lemme_premier_pas(terrain_at, occ, position, ch.cellules@);
    }
    DecisionOuvrier::Avancer { prochain_pas: ch.cellules[1], cout_aller: ch.cout, cout_retour: ret.cout }
}

/// The second cell of a walk of exact distances is a free neighbour of the
/// start.
proof fn lemme_premier_pas<F: Fn(Cellule) -> TerrainCell>(
    f: &F,
    occ: Set<Cellule>,
    depart: Cellule,
    ch: Seq<Cellule>,
)
    requires
        chemin_exact(f, occ, depart, ch),
        ch.len() > 1,
    ensures
        adjacentes(depart, ch[1]),
        libre(f, occ, ch[1]),
{
    let i: int = 0;
    assert(adjacentes(ch[i], ch[i + 1]));
    let j: int = 1;
    assert(crate::navigation::distance_exacte(f, occ, seq![depart], ch[j], j as nat));
    loi_atteintes_libres(f, occ, seq![depart], 1, ch[1]);
}

/// The walk back to the recharge zone from `from`, if one exists within the
/// walking range: its cost in steps.
pub fn cout_retour_ouvrier<F: Fn(Cellule) -> TerrainCell>(
    zone_recharge: &ZoneRechargeBase,
    structures: &[StructureState],
    from: Cellule,
    terrain_at: &F,
) -> (r: Option<i32>)
    requires
        oracle_terrain(terrain_at),
        structures_representables(structures@),
        dans_marge(from, LIMITE_NAVIGATION as int),
    ensures
        exists|ch: Option<CheminCellulaire>|
            #[trigger] chemin_vers_objectif_correct(
                terrain_at,
                cellules_occupees(structures@),
                from,
                zone_recharge@,
                LIMITE_NAVIGATION,
                ch,
            ) && r == (match ch {
                Some(c) => Some(c.cout),
                None => None,
            }),
{
    let l = limite_navigation();
    let ch = chemin_vers_recharge_ouvrier(zone_recharge, structures, from, l, terrain_at);
    proof {
        assert(chemin_vers_objectif_correct(
            terrain_at,
            cellules_occupees(structures@),
            from,
            zone_recharge@,
            LIMITE_NAVIGATION,
            ch,
        ));
    }
    match ch {
        Some(c) => Some(c.cout),
        None => None,
    }
}

/// The step a worker heading home takes from `position`: the second cell of
/// its walk back to the recharge zone; none when no walk leads back or the
/// worker already stands in the zone.
pub fn pas_vers_la_base<F: Fn(Cellule) -> TerrainCell>(
    zone_recharge: &ZoneRechargeBase,
    structures: &[StructureState],
    position: Cellule,
    terrain_at: &F,
) -> (r: Option<Cellule>)
    requires
        oracle_terrain(terrain_at),
        structures_representables(structures@),
        dans_marge(position, LIMITE_NAVIGATION as int),
    ensures
        exists|ch: Option<CheminCellulaire>|
            #[trigger] chemin_vers_objectif_correct(
                terrain_at,
                cellules_occupees(structures@),
                position,
                zone_recharge@,
                LIMITE_NAVIGATION,
                ch,
            ) && r == (if ch is Some && ch->0.cellules@.len() > 1 {
                Some(ch->0.cellules@[1])
            } else {
                None
            }),
        r matches Some(p) ==> adjacentes(position, p) && libre(
            terrain_at,
            cellules_occupees(structures@),
            p,
        ),
{
    let l = limite_navigation();
    let ch = chemin_vers_recharge_ouvrier(zone_recharge, structures, position, l, terrain_at);
    let ghost occ = cellules_occupees(structures@);
    proof {
        assert(chemin_vers_objectif_correct(
            terrain_at,
            occ,
            position,
            zone_recharge@,
            LIMITE_NAVIGATION,
            ch,
        ));
    }
    match ch {
        Some(c) => {
            if c.cellules.len() > 1 {
                proof {
                    if zone_recharge@.len() > 0 && !zone_recharge@.contains(position) {
                        lemme_premier_pas(terrain_at, occ, position, c.cellules@);
                    }
                }
                Some(c.cellules[1])
            } else {
                None
            }
        },
        None => None,
    }
}

} // verus!
