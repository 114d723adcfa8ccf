//! Posting the task board each cycle: building the unbuilt structures,
//! mining the nearest deposits when ice runs low, hauling loose ice to a
//! store, and refuelling the oxygen extractors. Each task is named by the
//! hash of its kind, so that the same job keeps its identifier and its
//! worker from one cycle to the next.
use crate::grille::{Cellule, EnsembleCellules};
use crate::interactions::{
    emprise_interieure, interaction_accessible, meilleure_cellule_interaction_structure,
    meilleure_interaction,
};
use crate::navigation::{borne_limite, oracle_terrain, origines_bornees};
use crate::monde::{
    cellule_de, cellule_representable, chunk_local_to_world_cell, ChunkState, CoordLocale,
    TerrainCell,
};
use crate::promenade::{ecrire_u32, ecrire_u64, octets_u32, octets_u64};
use crate::structures::{
    structures_representables, support_vie_spec, AstronautId, StructureId, StructureKind,
    StructureState, TaskId,
};
use crate::taches::{contient_structure, titulaire, AffectationsActives, Task, TaskKind};
use std::collections::hash_map::DefaultHasher;
use std::hash::Hasher;
use vstd::prelude::*;
use vstd::std_specs::hash::DefaultHasherAdditionalSpecFns;

verus! {

/// What the derived `Hash` of a task kind writes into a hasher, one write
/// each: the variant's index as a 64-bit word, then each field in order.
pub open spec fn ecritures_tache(kind: TaskKind) -> Seq<Seq<u8>> {
    match kind {
        TaskKind::Build { structure } => seq![octets_u64(0), octets_u32(structure.0)],
        TaskKind::Extract { cell } => seq![
            octets_u64(1),
            octets_u32(cell.x as u32),
            octets_u32(cell.y as u32),
        ],
        TaskKind::HaulIce { source_cell, target } => seq![
            octets_u64(2),
            octets_u32(source_cell.x as u32),
            octets_u32(source_cell.y as u32),
            octets_u32(target.0),
        ],
        TaskKind::RefuelStructure { source, target } => seq![
            octets_u64(3),
            octets_u32(source.0),
            octets_u32(target.0),
        ],
        TaskKind::ReturnToBase { target } => seq![octets_u64(4), octets_u32(target.0)],
    }
}

/// The identifier of a task: the standard hasher fed with its kind.
pub open spec fn id_tache(kind: TaskKind) -> TaskId {
    TaskId(DefaultHasher::spec_finish(ecritures_tache(kind)))
}

/// The task of kind `kind`, held by whoever held it last cycle.
pub open spec fn tache(
    aff: Seq<(TaskId, AstronautId)>,
    kind: TaskKind,
    priorite: i32,
    cible: Cellule,
) -> Task {
    Task {
        id: id_tache(kind),
        kind,
        priority: priorite,
        target_cell: cible,
        assigned_to: titulaire(aff, id_tache(kind)),
    }
}

/// The identifier of a task of kind `kind`.
pub fn task_id_of(kind: &TaskKind) -> (id: TaskId)
    ensures
        id == id_tache(*kind),
{
    let mut h = DefaultHasher::new();
    match *kind {
        TaskKind::Build { structure } => {
            ecrire_u64(&mut h, 0);
            ecrire_u32(&mut h, structure.0);
        },
        TaskKind::Extract { cell } => {
            ecrire_u64(&mut h, 1);
            ecrire_u32(&mut h, cell.x as u32);
            ecrire_u32(&mut h, cell.y as u32);
        },
        TaskKind::HaulIce { source_cell, target } => {
            ecrire_u64(&mut h, 2);
            ecrire_u32(&mut h, source_cell.x as u32);
            ecrire_u32(&mut h, source_cell.y as u32);
            ecrire_u32(&mut h, target.0);
        },
        TaskKind::RefuelStructure { source, target } => {
            ecrire_u64(&mut h, 3);
            ecrire_u32(&mut h, source.0);
            ecrire_u32(&mut h, target.0);
        },
        TaskKind::ReturnToBase { target } => {
            ecrire_u64(&mut h, 4);
            ecrire_u32(&mut h, target.0);
        },
    }
    proof {
        assert(h@ =~= ecritures_tache(*kind));
    }
    TaskId(h.finish())
}

/// The task of kind `kind` with its priority and the cell to work from,
/// held by the worker that `assigned_workers` records for it.
pub fn make_task(
    assigned_workers: &AffectationsActives,
    kind: TaskKind,
    priority: i32,
    target_cell: Cellule,
) -> (t: Task)
    ensures
        t == tache(assigned_workers@, kind, priority, target_cell),
{
    let id = task_id_of(&kind);
    Task { id, kind, priority, target_cell, assigned_to: assigned_workers.get(id) }
}

/// The kinds that can hold ice: the lander and the store.
pub open spec fn stocke_glace(kind: StructureKind) -> bool {
    kind == StructureKind::Lander || kind == StructureKind::Storage
}

pub fn peut_stocker_glace(kind: StructureKind) -> (r: bool)
    ensures
        r == stocke_glace(kind),
{
    match kind {
        StructureKind::Lander | StructureKind::Storage => true,
        _ => false,
    }
}

/// `r` is the cell to work on `st` from: one exactly when an interaction
/// cell of `st` can be reached from the origins within `l` steps, and then
/// the best such cell.
pub open spec fn cible_structure<F: Fn(Cellule) -> TerrainCell>(
    f: &F,
    structures: Seq<StructureState>,
    origines: Seq<Cellule>,
    l: nat,
    st: StructureState,
    r: Option<Cellule>,
) -> bool {
    &&& (r is Some <==> interaction_accessible(f, st.kind, st.anchor, structures, origines, l))
    &&& (r matches Some(cellule) ==> exists|k: int|
        #[trigger] meilleure_interaction(f, st.kind, st.anchor, structures, origines, l, cellule, k))
}

/// `j` is the first structure bearing the identifier of structure `i`.
pub open spec fn premier_du_meme_id(structures: Seq<StructureState>, i: int, j: int) -> bool {
    &&& 0 <= j < structures.len()
    &&& structures[j].id == structures[i].id
    &&& forall|m: int| 0 <= m < j ==> structures[m].id != structures[i].id
}

proof fn lemme_cible_trouvee<F: Fn(Cellule) -> TerrainCell>(
    f: &F,
    structures: Seq<StructureState>,
    origines: Seq<Cellule>,
    l: nat,
    i: int,
    trouve: Option<(Cellule, i32)>,
    c: Option<Cellule>,
)
    requires
        0 <= i < structures.len(),
        c == (match trouve {
            Some((cc, _)) => Some(cc),
            None => None,
        }),
        forall|j: int|
            0 <= j < structures.len() && #[trigger] structures[j].id == structures[i].id && (forall|
                m: int,
            | 0 <= m < j ==> structures[m].id != structures[i].id) ==> {
                let st = structures[j];
                &&& (trouve is Some <==> interaction_accessible(
                    f,
                    st.kind,
                    st.anchor,
                    structures,
                    origines,
                    l,
                ))
                &&& (trouve matches Some((cc, k)) ==> meilleure_interaction(
                    f,
                    st.kind,
                    st.anchor,
                    structures,
                    origines,
                    l,
                    cc,
                    k as int,
                ))
            },
    ensures
        forall|j: int| #[trigger]
            premier_du_meme_id(structures, i, j) ==> cible_structure(
                f,
                structures,
                origines,
                l,
                structures[j],
                c,
            ),
{
    assert forall|j: int| #[trigger] premier_du_meme_id(structures, i, j) implies cible_structure(
        f,
        structures,
        origines,
        l,
        structures[j],
        c,
    ) by {
        assert(structures[j].id == structures[i].id);
        assert(forall|m: int| 0 <= m < j ==> structures[m].id != structures[i].id);
        let st = structures[j];
        match trouve {
            Some((cc, k)) => {
                assert(c->0 == cc);
                assert(meilleure_interaction(f, st.kind, st.anchor, structures, origines, l, cc, k as int));
            },
            None => {},
        }
    }
}

/// For each structure, in order, the cell to work on it from, as reached
/// from the origins within `limite_cout` steps; a structure sharing its
/// identifier with an earlier one gets that earlier one's cell.
pub fn cibles_structures<F: Fn(Cellule) -> TerrainCell>(
    structures: &[StructureState],
    origines: &[Cellule],
    limite_cout: i32,
    terrain_at: &F,
) -> (r: Vec<Option<Cellule>>)
    requires
        oracle_terrain(terrain_at),
        forall|i: int|
            0 <= i < structures@.len() ==> emprise_interieure(
                #[trigger] structures@[i].kind,
                structures@[i].anchor,
            ),
        structures_representables(structures@),
        origines_bornees(origines@, borne_limite(limite_cout)),
    ensures
        r@.len() == structures@.len(),
        forall|i: int, j: int|
            0 <= i < structures@.len() && #[trigger] premier_du_meme_id(structures@, i, j)
                ==> cible_structure(
                terrain_at,
                structures@,
                origines@,
                borne_limite(limite_cout) as nat,
                structures@[j],
                r@[i],
            ),
{
    let mut r: Vec<Option<Cellule>> = Vec::new();
    let mut i: usize = 0;
    while i < structures.len()
        invariant
            oracle_terrain(terrain_at),
            forall|i: int|
                0 <= i < structures@.len() ==> emprise_interieure(
                    #[trigger] structures@[i].kind,
                    structures@[i].anchor,
                ),
            structures_representables(structures@),
            origines_bornees(origines@, borne_limite(limite_cout)),
            i <= structures@.len(),
            r@.len() == i,
            forall|ii: int, j: int|
                0 <= ii < i && #[trigger] premier_du_meme_id(structures@, ii, j) ==> cible_structure(
                    terrain_at,
                    structures@,
                    origines@,
                    borne_limite(limite_cout) as nat,
                    structures@[j],
                    r@[ii],
                ),
        decreases structures@.len() - i,
    {
        let id = structures[i].id;
        let trouve = meilleure_cellule_interaction_structure(
            id,
            structures,
            origines,
            limite_cout,
            terrain_at,
        );
        let c = match trouve {
            Some((c, _)) => Some(c),
            None => None,
        };
        proof {
            lemme_cible_trouvee(
                terrain_at,
                structures@,
                origines@,
                borne_limite(limite_cout) as nat,
                i as int,
                trouve,
                c,
            );
        }
        r.push(c);
        i += 1;
    }
    r
}

/// Building tasks, for the first `n` structures: one for each structure not
/// yet built that has a cell to work from.
pub open spec fn taches_construction(
    aff: Seq<(TaskId, AstronautId)>,
    structures: Seq<StructureState>,
    cibles: Seq<Option<Cellule>>,
    n: int,
) -> Seq<Task>
    decreases n,
{
    if n <= 0 {
        Seq::empty()
    } else {
        let prec = taches_construction(aff, structures, cibles, n - 1);
        let st = structures[n - 1];
        if !st.built && cibles[n - 1] is Some {
            prec.push(tache(aff, TaskKind::Build { structure: st.id }, 100, cibles[n - 1]->0))
        } else {
            prec
        }
    }
}

/// The first three cells of `s`, or all of them when there are fewer.
pub open spec fn trois_premiers(s: Seq<Cellule>) -> Seq<Cellule> {
    if s.len() <= 3 {
        s
    } else {
        s.take(3)
    }
}

/// Mining tasks, one per deposit cell, worked on where it lies.
pub open spec fn taches_extraction(aff: Seq<(TaskId, AstronautId)>, cellules: Seq<Cellule>) -> Seq<
    Task,
> {
    Seq::new(
        cellules.len(),
        |i: int| tache(aff, TaskKind::Extract { cell: cellules[i] }, 65, cellules[i]),
    )
}

/// Hauling tasks, one per heap of loose ice, towards the store `stock`.
pub open spec fn taches_transport(
    aff: Seq<(TaskId, AstronautId)>,
    glace: Seq<Cellule>,
    stock: StructureId,
    cible: Cellule,
) -> Seq<Task> {
    Seq::new(
        glace.len(),
        |i: int| tache(aff, TaskKind::HaulIce { source_cell: glace[i], target: stock }, 80, cible),
    )
}

/// A structure of the main network where ice can be stored and worked on.
pub open spec fn stockage_possible(
    st: StructureState,
    cible: Option<Cellule>,
    connectees: Seq<StructureId>,
) -> bool {
    connectees.contains(st.id) && st.built && stocke_glace(st.kind) && cible is Some
}

/// Among the first `n` structures, the first that can store ice.
pub open spec fn indice_stockage(
    structures: Seq<StructureState>,
    cibles: Seq<Option<Cellule>>,
    connectees: Seq<StructureId>,
    n: int,
) -> Option<int>
    decreases n,
{
    if n <= 0 {
        None
    } else {
        match indice_stockage(structures, cibles, connectees, n - 1) {
            Some(i) => Some(i),
            None => if stockage_possible(structures[n - 1], cibles[n - 1], connectees) {
                Some(n - 1)
            } else {
                None
            },
        }
    }
}

/// A built life-support module of the main network that can be worked on.
pub open spec fn support_possible(
    st: StructureState,
    cible: Option<Cellule>,
    connectees: Seq<StructureId>,
) -> bool {
    connectees.contains(st.id) && support_vie_spec(st.kind) && st.built && cible is Some
}

/// Among the first `n` structures, the first life-support module.
pub open spec fn indice_support(
    structures: Seq<StructureState>,
    cibles: Seq<Option<Cellule>>,
    connectees: Seq<StructureId>,
    n: int,
) -> Option<int>
    decreases n,
{
    if n <= 0 {
        None
    } else {
        match indice_support(structures, cibles, connectees, n - 1) {
            Some(i) => Some(i),
            None => if support_possible(structures[n - 1], cibles[n - 1], connectees) {
                Some(n - 1)
            } else {
                None
            },
        }
    }
}

/// A built oxygen extractor of the main network, short of ice, that can be
/// worked on.
pub open spec fn ravitaillable(
    st: StructureState,
    cible: Option<Cellule>,
    connectees: Seq<StructureId>,
    a_court: bool,
) -> bool {
    st.kind == StructureKind::OxygenExtractor && st.built && connectees.contains(st.id) && a_court
        && cible is Some
}

/// Refuelling tasks from the store `source`, for the first `n` structures.
pub open spec fn taches_ravitaillement(
    aff: Seq<(TaskId, AstronautId)>,
    structures: Seq<StructureState>,
    cibles: Seq<Option<Cellule>>,
    connectees: Seq<StructureId>,
    a_ravitailler: Seq<bool>,
    source: StructureId,
    n: int,
) -> Seq<Task>
    decreases n,
{
    if n <= 0 {
        Seq::empty()
    } else {
        let prec = taches_ravitaillement(
            aff,
            structures,
            cibles,
            connectees,
            a_ravitailler,
            source,
            n - 1,
        );
        let st = structures[n - 1];
        if ravitaillable(st, cibles[n - 1], connectees, a_ravitailler[n - 1]) {
            prec.push(
                tache(
                    aff,
                    TaskKind::RefuelStructure { source, target: st.id },
                    90,
                    cibles[n - 1]->0,
                ),
            )
        } else {
            prec
        }
    }
}

/// The board of a cycle: building tasks; then, when ice runs low, mining
/// the first three deposits given; then, when a store can be reached,
/// hauling each heap of loose ice to it and, when the main network holds
/// ice, refuelling the extractors short of it.
pub open spec fn taches_du_cycle(
    aff: Seq<(TaskId, AstronautId)>,
    structures: Seq<StructureState>,
    cibles: Seq<Option<Cellule>>,
    connectees: Seq<StructureId>,
    glace_basse: bool,
    glace_en_reserve: bool,
    glace_libre: Seq<Cellule>,
    gisements: Seq<Cellule>,
    a_ravitailler: Seq<bool>,
) -> Seq<Task> {
    let n = structures.len() as int;
    let construction = taches_construction(aff, structures, cibles, n);
    let extraction = if glace_basse {
        taches_extraction(aff, trois_premiers(gisements))
    } else {
        Seq::empty()
    };
    match indice_stockage(structures, cibles, connectees, n) {
        Some(i) => {
            let transport = taches_transport(aff, glace_libre, structures[i].id, cibles[i]->0);
            let ravitaillement = if glace_en_reserve {
                taches_ravitaillement(
                    aff,
                    structures,
                    cibles,
                    connectees,
                    a_ravitailler,
                    structures[i].id,
                    n,
                )
            } else {
                Seq::empty()
            };
            construction + extraction + transport + ravitaillement
        },
        None => construction + extraction,
    }
}

fn taches_de_construction(
    assigned_workers: &AffectationsActives,
    structures: &[StructureState],
    cibles: &[Option<Cellule>],
) -> (r: Vec<Task>)
    requires
        cibles@.len() == structures@.len(),
    ensures
        r@ == taches_construction(assigned_workers@, structures@, cibles@, structures@.len() as int),
{
    let mut r: Vec<Task> = Vec::new();
    let mut i: usize = 0;
    while i < structures.len()
        invariant
            cibles@.len() == structures@.len(),
            i <= structures@.len(),
            r@ == taches_construction(assigned_workers@, structures@, cibles@, i as int),
        decreases structures@.len() - i,
    {
        let st = structures[i];
        if !st.built {
            match cibles[i] {
                Some(c) => {
                    r.push(make_task(assigned_workers, TaskKind::Build { structure: st.id }, 100, c));
                },
                None => {},
            }
        }
        i += 1;
    }
    r
}

fn taches_d_extraction(assigned_workers: &AffectationsActives, gisements: &[Cellule]) -> (r: Vec<
    Task,
>)
    ensures
        r@ == taches_extraction(assigned_workers@, trois_premiers(gisements@)),
{
    let mut r: Vec<Task> = Vec::new();
    let n: usize = if gisements.len() < 3 {
        gisements.len()
    } else {
        3
    };
    let mut i: usize = 0;
    while i < n
        invariant
            n <= gisements@.len(),
            n == trois_premiers(gisements@).len(),
            i <= n,
            r@ =~= taches_extraction(assigned_workers@, trois_premiers(gisements@)).take(i as int),
        decreases n - i,
    {
        let c = gisements[i];
        r.push(make_task(assigned_workers, TaskKind::Extract { cell: c }, 65, c));
        i += 1;
    }
    proof {
        assert(taches_extraction(assigned_workers@, trois_premiers(gisements@)).take(n as int)
            =~= taches_extraction(assigned_workers@, trois_premiers(gisements@)));
    }
    r
}

fn taches_de_transport(
    assigned_workers: &AffectationsActives,
    glace_libre: &[Cellule],
    stock: StructureId,
    cible: Cellule,
) -> (r: Vec<Task>)
    ensures
        r@ == taches_transport(assigned_workers@, glace_libre@, stock, cible),
{
    let mut r: Vec<Task> = Vec::new();
    let mut i: usize = 0;
    while i < glace_libre.len()
        invariant
            i <= glace_libre@.len(),
            r@ =~= taches_transport(assigned_workers@, glace_libre@, stock, cible).take(i as int),
        decreases glace_libre@.len() - i,
    {
        let kind = TaskKind::HaulIce { source_cell: glace_libre[i], target: stock };
        r.push(make_task(assigned_workers, kind, 80, cible));
        i += 1;
    }
    proof {
        assert(taches_transport(assigned_workers@, glace_libre@, stock, cible).take(
            glace_libre@.len() as int,
        ) =~= taches_transport(assigned_workers@, glace_libre@, stock, cible));
    }
    r
}

fn taches_de_ravitaillement(
    assigned_workers: &AffectationsActives,
    structures: &[StructureState],
    cibles: &[Option<Cellule>],
    connectees: &[StructureId],
    a_ravitailler: &[bool],
    source: StructureId,
) -> (r: Vec<Task>)
    requires
        cibles@.len() == structures@.len(),
        a_ravitailler@.len() == structures@.len(),
    ensures
        r@ == taches_ravitaillement(
            assigned_workers@,
            structures@,
            cibles@,
            connectees@,
            a_ravitailler@,
            source,
            structures@.len() as int,
        ),
{
    let mut r: Vec<Task> = Vec::new();
    let mut i: usize = 0;
    while i < structures.len()
        invariant
            cibles@.len() == structures@.len(),
            a_ravitailler@.len() == structures@.len(),
            i <= structures@.len(),
            r@ == taches_ravitaillement(
                assigned_workers@,
                structures@,
                cibles@,
                connectees@,
                a_ravitailler@,
                source,
                i as int,
            ),
        decreases structures@.len() - i,
    {
        let st = structures[i];
        if st.kind == StructureKind::OxygenExtractor && st.built && contient_structure(
            connectees,
            st.id,
        ) && a_ravitailler[i] {
            match cibles[i] {
                Some(c) => {
                    let kind = TaskKind::RefuelStructure { source, target: st.id };
                    r.push(make_task(assigned_workers, kind, 90, c));
                },
                None => {},
            }
        }
        i += 1;
    }
    r
}

/// The first structure of the main network where ice can be stored and
/// worked on.
pub fn indice_du_stockage(
    structures: &[StructureState],
    cibles: &[Option<Cellule>],
    connectees: &[StructureId],
) -> (r: Option<usize>)
    requires
        cibles@.len() == structures@.len(),
    ensures
        r matches Some(i) ==> indice_stockage(structures@, cibles@, connectees@, structures@.len() as int) == Some(i as int)
            && i < structures@.len() && stockage_possible(structures@[i as int], cibles@[i as int], connectees@),
        r is None ==> indice_stockage(structures@, cibles@, connectees@, structures@.len() as int) is None,
{
    let mut i: usize = 0;
    while i < structures.len()
        invariant
            cibles@.len() == structures@.len(),
            i <= structures@.len(),
            indice_stockage(structures@, cibles@, connectees@, i as int) is None,
        decreases structures@.len() - i,
    {
        let st = structures[i];
        if contient_structure(connectees, st.id) && st.built && peut_stocker_glace(st.kind)
            && cibles[i].is_some() {
            proof {
                lemme_stockage_stable(structures@, cibles@, connectees@, i as int + 1, structures@.len() as int);
            }
            return Some(i);
        }
        i += 1;
    }
    None
}

proof fn lemme_stockage_stable(
    structures: Seq<StructureState>,
    cibles: Seq<Option<Cellule>>,
    connectees: Seq<StructureId>,
    a: int,
    b: int,
)
    requires
        0 <= a <= b,
        indice_stockage(structures, cibles, connectees, a) is Some,
    ensures
        indice_stockage(structures, cibles, connectees, b) == indice_stockage(structures, cibles, connectees, a),
    decreases b - a,
{
    if a < b {
        lemme_stockage_stable(structures, cibles, connectees, a, b - 1);
    }
}

/// The first built life-support module of the main network that can be
/// worked on: the colony's home, from which deposits are ranked.
pub fn support_principal(
    structures: &[StructureState],
    cibles: &[Option<Cellule>],
    connectees: &[StructureId],
) -> (r: Option<usize>)
    requires
        cibles@.len() == structures@.len(),
    ensures
        r matches Some(i) ==> indice_support(structures@, cibles@, connectees@, structures@.len() as int) == Some(i as int),
        r is None ==> indice_support(structures@, cibles@, connectees@, structures@.len() as int) is None,
{
    let mut i: usize = 0;
    while i < structures.len()
        invariant
            cibles@.len() == structures@.len(),
            i <= structures@.len(),
            indice_support(structures@, cibles@, connectees@, i as int) is None,
        decreases structures@.len() - i,
    {
        let st = structures[i];
        if contient_structure(connectees, st.id) && st.kind.supports_life() && st.built
            && cibles[i].is_some() {
            proof {
                lemme_support_stable(structures@, cibles@, connectees@, i as int + 1, structures@.len() as int);
            }
            return Some(i);
        }
        i += 1;
    }
    None
}

proof fn lemme_support_stable(
    structures: Seq<StructureState>,
    cibles: Seq<Option<Cellule>>,
    connectees: Seq<StructureId>,
    a: int,
    b: int,
)
    requires
        0 <= a <= b,
        indice_support(structures, cibles, connectees, a) is Some,
    ensures
        indice_support(structures, cibles, connectees, b) == indice_support(structures, cibles, connectees, a),
    decreases b - a,
{
    if a < b {
        lemme_support_stable(structures, cibles, connectees, a, b - 1);
    }
}

/// The tasks posted this cycle, each held by whoever held it before. The
/// cells to work from come from `cibles_structures`; `connectees` lists the
/// main network; `glace_basse` tells whether the colony's ice runs low,
/// `glace_en_reserve` whether the main network holds some, and
/// `a_ravitailler` which structures are short of ice; `gisements` gives the
/// deposits to mine, nearest first.
pub fn generer_taches(
    assigned_workers: &AffectationsActives,
    structures: &[StructureState],
    cibles: &[Option<Cellule>],
    connectees: &[StructureId],
    glace_basse: bool,
    glace_en_reserve: bool,
    glace_libre: &[Cellule],
    gisements: &[Cellule],
    a_ravitailler: &[bool],
) -> (taches: Vec<Task>)
    requires
        cibles@.len() == structures@.len(),
        a_ravitailler@.len() == structures@.len(),
    ensures
        taches@ == taches_du_cycle(
            assigned_workers@,
            structures@,
            cibles@,
            connectees@,
            glace_basse,
            glace_en_reserve,
            glace_libre@,
            gisements@,
            a_ravitailler@,
        ),
{
    let mut taches = taches_de_construction(assigned_workers, structures, cibles);
    if glace_basse {
        let mut extraction = taches_d_extraction(assigned_workers, gisements);
        taches.append(&mut extraction);
    }
    let ghost debut = taches@;
    proof {
        let n = structures@.len() as int;
        let extraction = if glace_basse {
            taches_extraction(assigned_workers@, trois_premiers(gisements@))
        } else {
            Seq::empty()
        };
        assert(debut =~= taches_construction(assigned_workers@, structures@, cibles@, n) + extraction);
    }
    match indice_du_stockage(structures, cibles, connectees) {
        Some(i) => {
            let stock = structures[i].id;
            let cible = match cibles[i] {
                Some(c) => c,
                None => structures[i].anchor,
            };
            let mut transport = taches_de_transport(assigned_workers, glace_libre, stock, cible);
            taches.append(&mut transport);
            let ghost milieu = taches@;
            if glace_en_reserve {
                let mut ravitaillement = taches_de_ravitaillement(
                    assigned_workers,
                    structures,
                    cibles,
                    connectees,
                    a_ravitailler,
                    stock,
                );
                taches.append(&mut ravitaillement);
            } else {
                proof {
                    assert(milieu + Seq::<Task>::empty() =~= milieu);
                }
            }
        },
        None => {},
    }
    taches
}

/// The chunk holds a deposit with something left at `local`.
pub open spec fn gisement_present(ch: ChunkState, local: CoordLocale) -> bool {
    match ch.emplacement(local) {
        Some(i) => ch.cells@[i].resource matches Some(d) && d.amount != 0,
        None => false,
    }
}

/// The world cells of the deposits listed in `locales` for the chunk `ch`,
/// in that order, leaving out those under loose ice.
pub open spec fn gisements_du_chunk(
    ch: ChunkState,
    locales: Seq<CoordLocale>,
    glace: Set<Cellule>,
) -> Seq<Cellule>
    decreases locales.len(),
{
    if locales.len() == 0 {
        Seq::empty()
    } else {
        let prec = gisements_du_chunk(ch, locales.drop_last(), glace);
        let local = locales.last();
        let c = cellule_de(ch.coord, local);
        if gisement_present(ch, local) && !glace.contains(c) {
            prec.push(c)
        } else {
            prec
        }
    }
}

/// The deposits worth mining, chunk after chunk, each chunk's in the order
/// of its list of resource cells.
pub open spec fn gisements(chunks: Seq<ChunkState>, glace: Set<Cellule>) -> Seq<Cellule>
    decreases chunks.len(),
{
    if chunks.len() == 0 {
        Seq::empty()
    } else {
        gisements(chunks.drop_last(), glace) + gisements_du_chunk(
            chunks.last(),
            chunks.last().resource_cells@,
            glace,
        )
    }
}

/// Every deposit of the chunks lies at a representable world cell.
pub open spec fn gisements_representables(chunks: Seq<ChunkState>) -> bool {
    forall|k: int, m: int|
        0 <= k < chunks.len() && 0 <= m < chunks[k].resource_cells@.len() && #[trigger] gisement_present(
            chunks[k],
            chunks[k].resource_cells@[m],
        ) ==> cellule_representable(chunks[k].coord, chunks[k].resource_cells@[m])
}

/// The cells of the deposits that still hold something and lie under no
/// loose ice, chunk after chunk, in the order of each chunk's resource list.
pub fn gisements_candidats(chunks: &[ChunkState], glace_libre: &[Cellule]) -> (r: Vec<Cellule>)
    requires
        gisements_representables(chunks@),
    ensures
        r@ == gisements(chunks@, glace_libre@.to_set()),
{
    let glace = EnsembleCellules::depuis_cellules(glace_libre);
    let ghost g = glace_libre@.to_set();
    proof {
        assert(glace@ =~= g);
    }
    let mut r: Vec<Cellule> = Vec::new();
    let mut k: usize = 0;
    while k < chunks.len()
        invariant
            k <= chunks@.len(),
            glace@ == g,
            gisements_representables(chunks@),
            r@ == gisements(chunks@.take(k as int), g),
        decreases chunks@.len() - k,
    {
        let ch = &chunks[k];
        let locales = ch.resource_cells();
        let ghost avant = r@;
        let mut m: usize = 0;
        while m < locales.len()
            invariant
                k < chunks@.len(),
                *ch == chunks@[k as int],
                locales@ == ch.resource_cells@,
                m <= locales@.len(),
                glace@ == g,
                gisements_representables(chunks@),
                r@ == avant + gisements_du_chunk(*ch, locales@.take(m as int), g),
            decreases locales@.len() - m,
        {
            let local = locales[m];
            proof {
                assert(locales@.take(m + 1).drop_last() =~= locales@.take(m as int));
            }
            match ch.cell(local) {
                Some(t) => {
                    match t.resource {
                        Some(d) => {
                            if d.amount != 0 {
                                proof {
                                    assert(gisement_present(chunks@[k as int], chunks@[k as int].resource_cells@[m as int]));
                                }
                                let c = chunk_local_to_world_cell(ch.coord, local);
                                if !glace.contient(c) {
                                    r.push(c);
                                }
                            }
                        },
                        None => {},
                    }
                },
                None => {},
            }
            m += 1;
        }
        proof {
            assert(locales@.take(locales@.len() as int) =~= locales@);
            assert(chunks@.take(k + 1).drop_last() =~= chunks@.take(k as int));
        }
        k += 1;
    }
    proof {
        assert(chunks@.take(chunks@.len() as int) =~= chunks@);
    }
    r
}

} // verus!
