//! The task board: what the colony needs done, and which worker takes which
//! task. Tasks are handed out worker by worker (by identifier), each worker
//! taking the free task with the best score.
use crate::grille::{distance_manhattan, manhattan, Cellule};
use crate::structures::{AstronautId, StructureId, TaskId};
use crate::tri_stable::{de_cle, tri_stable_de, trier_stable, CleTri};
use vstd::prelude::*;

verus! {

#[derive(Clone, Copy, Debug, PartialEq, Eq, Hash, Structural)]
pub enum RoleAstronaute {
    Commandant,
    Ingenieur,
    Scientifique,
    Logisticien,
    Civil,
}

/// The name a role is shown under.
pub open spec fn libelle_role(role: RoleAstronaute) -> &'static str {
    match role {
        RoleAstronaute::Commandant => "commandant",
        RoleAstronaute::Ingenieur => "ingenieur",
        RoleAstronaute::Scientifique => "scientifique",
        RoleAstronaute::Logisticien => "logisticien",
        RoleAstronaute::Civil => "civil",
    }
}

impl RoleAstronaute {
    pub fn label(self) -> (r: &'static str)
        ensures
            r == libelle_role(self),
    {
        match self {
            RoleAstronaute::Commandant => "commandant",
            RoleAstronaute::Ingenieur => "ingenieur",
            RoleAstronaute::Scientifique => "scientifique",
            RoleAstronaute::Logisticien => "logisticien",
            RoleAstronaute::Civil => "civil",
        }
    }
}

#[derive(Clone, Copy, Debug, PartialEq, Eq, Hash, Structural)]
pub enum TaskKind {
    Build { structure: StructureId },
    Extract { cell: Cellule },
    HaulIce { source_cell: Cellule, target: StructureId },
    RefuelStructure { source: StructureId, target: StructureId },
    ReturnToBase { target: StructureId },
}

#[derive(Clone, Copy, Debug, PartialEq, Eq, Structural)]
pub struct Task {
    pub id: TaskId,
    pub kind: TaskKind,
    pub priority: i32,
    pub target_cell: Cellule,
    pub assigned_to: Option<AstronautId>,
}

/// What task assignment reads of a worker. `air_suffisant` tells whether the
/// suit holds enough air to set out; the three bonuses are the worker's
/// skills turned into score points.
#[derive(Clone, Copy, Debug, PartialEq, Eq, Structural)]
pub struct WorkerSnapshot {
    pub id: AstronautId,
    pub position: Cellule,
    pub current_task: Option<TaskId>,
    pub air_suffisant: bool,
    pub alive: bool,
    pub role: RoleAstronaute,
    pub bonus_construction: i32,
    pub bonus_transport: i32,
    pub bonus_extraction: i32,
}

pub open spec fn bonus_role_spec(role: RoleAstronaute, task: TaskKind) -> int {
    match (role, task) {
        (RoleAstronaute::Ingenieur, TaskKind::Build { .. }) => 18,
        (RoleAstronaute::Ingenieur, TaskKind::RefuelStructure { .. }) => 10,
        (RoleAstronaute::Scientifique, TaskKind::Extract { .. }) => 18,
        (RoleAstronaute::Logisticien, TaskKind::HaulIce { .. }) => 18,
        (RoleAstronaute::Logisticien, TaskKind::RefuelStructure { .. }) => 12,
        (RoleAstronaute::Commandant, TaskKind::Build { .. }) => 12,
        (RoleAstronaute::Commandant, TaskKind::ReturnToBase { .. }) => 4,
        _ => 0,
    }
}

/// Score points a role earns on a kind of task.
pub fn bonus_role_pour_tache(role: RoleAstronaute, task: &TaskKind) -> (b: i32)
    ensures
        b == bonus_role_spec(role, *task),
        b == (if role == RoleAstronaute::Ingenieur && *task is Build {
            18int
        } else if role == RoleAstronaute::Ingenieur && *task is RefuelStructure {
            10
        } else if role == RoleAstronaute::Scientifique && *task is Extract {
            18
        } else if role == RoleAstronaute::Logisticien && *task is HaulIce {
            18
        } else if role == RoleAstronaute::Logisticien && *task is RefuelStructure {
            12
        } else if role == RoleAstronaute::Commandant && *task is Build {
            12
        } else if role == RoleAstronaute::Commandant && *task is ReturnToBase {
            4
        } else {
            0
        }),
{
    proof {
        loi_bonus_des_roles(*task);
    }
    match (role, task) {
        (RoleAstronaute::Ingenieur, TaskKind::Build { .. }) => 18,
        (RoleAstronaute::Ingenieur, TaskKind::RefuelStructure { .. }) => 10,
        (RoleAstronaute::Scientifique, TaskKind::Extract { .. }) => 18,
        (RoleAstronaute::Logisticien, TaskKind::HaulIce { .. }) => 18,
        (RoleAstronaute::Logisticien, TaskKind::RefuelStructure { .. }) => 12,
        (RoleAstronaute::Commandant, TaskKind::Build { .. }) => 12,
        (RoleAstronaute::Commandant, TaskKind::ReturnToBase { .. }) => 4,
        _ => 0,
    }
}

pub open spec fn bonus_competence_spec(task: TaskKind, w: WorkerSnapshot) -> int {
    match task {
        TaskKind::Build { .. } => w.bonus_construction as int,
        TaskKind::Extract { .. } => w.bonus_extraction as int,
        TaskKind::HaulIce { .. } | TaskKind::RefuelStructure { .. } => w.bonus_transport as int,
        TaskKind::ReturnToBase { .. } => 0,
    }
}

/// Score points the worker's skills earn on a kind of task.
pub fn bonus_competence_pour_tache(task: &TaskKind, worker: &WorkerSnapshot) -> (b: i32)
    ensures
        b == bonus_competence_spec(*task, *worker),
{
    match task {
        TaskKind::Build { .. } => worker.bonus_construction,
        TaskKind::Extract { .. } => worker.bonus_extraction,
        TaskKind::HaulIce { .. } | TaskKind::RefuelStructure { .. } => worker.bonus_transport,
        TaskKind::ReturnToBase { .. } => 0,
    }
}

pub open spec fn bonus_affectation_spec(w: WorkerSnapshot, task: TaskKind) -> int {
    bonus_role_spec(w.role, task) + bonus_competence_spec(task, w)
}

/// A worker's score for a task: ten times ten points per priority level,
/// minus the distance to walk, plus role and skill bonuses.
pub open spec fn score_spec(t: Task, w: WorkerSnapshot) -> int {
    t.priority * 100 - manhattan(t.target_cell, w.position) + bonus_affectation_spec(w, t.kind)
}

/// The score stays within 32-bit integers, as every step computing it.
pub open spec fn score_representable(t: Task, w: WorkerSnapshot) -> bool {
    &&& i32::MIN <= t.priority * 100 <= i32::MAX
    &&& manhattan(t.target_cell, w.position) <= i32::MAX
    &&& i32::MIN <= t.priority * 100 - manhattan(t.target_cell, w.position) <= i32::MAX
    &&& i32::MIN <= bonus_affectation_spec(w, t.kind) <= i32::MAX
    &&& i32::MIN <= score_spec(t, w) <= i32::MAX
}

/// A worker who may take a task: alive, idle, with air enough.
pub open spec fn eligible(w: WorkerSnapshot) -> bool {
    w.alive && w.current_task is None && w.air_suffisant
}

/// A task nobody holds and whose identifier was not handed out already.
pub open spec fn disponible(t: Task, reserves: Set<TaskId>) -> bool {
    t.assigned_to is None && !reserves.contains(t.id)
}

/// Task `a` beats task `b` for worker `w`: higher score, or equal score and
/// shorter walk.
pub open spec fn meilleure(a: Task, b: Task, w: WorkerSnapshot) -> bool {
    score_spec(a, w) > score_spec(b, w) || (score_spec(a, w) == score_spec(b, w) && manhattan(
        a.target_cell,
        w.position,
    ) < manhattan(b.target_cell, w.position))
}

/// Task `i` is the one worker `w` takes: free, beaten by no free task, and
/// beating every free task before it.
pub open spec fn est_choix(tasks: Seq<Task>, reserves: Set<TaskId>, w: WorkerSnapshot, i: int) -> bool {
    &&& 0 <= i < tasks.len()
    &&& disponible(tasks[i], reserves)
    &&& forall|j: int|
        0 <= j < tasks.len() && disponible(#[trigger] tasks[j], reserves) ==> !meilleure(
            tasks[j],
            tasks[i],
            w,
        )
    &&& forall|j: int|
        0 <= j < i && disponible(#[trigger] tasks[j], reserves) ==> meilleure(tasks[i], tasks[j], w)
}

pub proof fn lemme_choix_unique(tasks: Seq<Task>, reserves: Set<TaskId>, w: WorkerSnapshot, i: int, j: int)
    requires
        est_choix(tasks, reserves, w, i),
        est_choix(tasks, reserves, w, j),
    ensures
        i == j,
{
    if i < j {
        assert(meilleure(tasks[j], tasks[i], w));
    } else if j < i {
        assert(meilleure(tasks[i], tasks[j], w));
    }
}

pub open spec fn avec_titulaire(t: Task, id: AstronautId) -> Task {
    Task { assigned_to: Some(id), ..t }
}

/// The board, the identifiers handed out and the assignments made, after
/// the workers of `ws` have been served one after the other.
pub open spec fn affecter(
    tasks: Seq<Task>,
    ws: Seq<WorkerSnapshot>,
) -> (Seq<Task>, Set<TaskId>, Seq<(AstronautId, TaskId)>)
    decreases ws.len(),
{
    if ws.len() == 0 {
        (tasks, Set::empty(), Seq::empty())
    } else {
        let prec = affecter(tasks, ws.drop_last());
        let (t, r, a) = prec;
        let w = ws.last();
        if eligible(w) && exists|i: int| est_choix(t, r, w, i) {
            let i = choose|i: int| est_choix(t, r, w, i);
            (t.update(i, avec_titulaire(t[i], w.id)), r.insert(t[i].id), a.push((w.id, t[i].id)))
        } else {
            prec
        }
    }
}

impl CleTri for Task {
    open spec fn cle_spec(&self) -> int {
        -(self.priority as int)
    }

    proof fn lemme_cle_bornee(&self) {
    }

    fn cle(&self) -> (k: i64) {
        -(self.priority as i64)
    }
}

impl CleTri for WorkerSnapshot {
    open spec fn cle_spec(&self) -> int {
        self.id.0 as int
    }

    proof fn lemme_cle_bornee(&self) {
    }

    fn cle(&self) -> (k: i64) {
        self.id.0 as i64
    }
}

fn score(t: &Task, w: &WorkerSnapshot) -> (r: (i32, i64))
    requires
        score_representable(*t, *w),
    ensures
        r.0 == score_spec(*t, *w),
        r.1 == manhattan(t.target_cell, w.position),
{
    let distance: i64 = distance_manhattan(t.target_cell, w.position);
    let bonus: i64 = bonus_role_pour_tache(w.role, &t.kind) as i64 + bonus_competence_pour_tache(&t.kind, w) as i64;
    let s: i64 = t.priority as i64 * 100 - distance + bonus;
    (s as i32, distance)
}

fn contient_tache(reserves: &Vec<TaskId>, id: TaskId) -> (r: bool)
    ensures
        r == reserves@.contains(id),
{
    let mut i: usize = 0;
    while i < reserves.len()
        invariant
            i <= reserves@.len(),
            forall|j: int| 0 <= j < i ==> reserves@[j] != id,
        decreases reserves@.len() - i,
    {
        if reserves[i] == id {
            assert(reserves@[i as int] == id);
            return true;
        }
        i += 1;
    }
    false
}

/// Every score between these tasks and workers fits in 32-bit integers.
pub open spec fn scores_representables(tasks: Seq<Task>, workers: Seq<WorkerSnapshot>) -> bool {
    forall|i: int, j: int|
        0 <= i < tasks.len() && 0 <= j < workers.len() ==> score_representable(
            #[trigger] tasks[i],
            #[trigger] workers[j],
        )
}

/// Sorts the board by decreasing priority (keeping the order of tasks of
/// equal priority), then serves the workers by increasing identifier
/// (keeping their order on equal identifiers): each eligible worker takes
/// the free task it scores best, ties going to the shorter walk, then to the
/// task listed first. Returns the pairs (worker, task) in that order.
pub fn assign_available_tasks(tasks: &mut Vec<Task>, workers: &[WorkerSnapshot]) -> (assignments: Vec<
    (AstronautId, TaskId),
>)
    requires
        scores_representables(old(tasks)@, workers@),
    ensures
        exists|triees: Seq<Task>, servis: Seq<WorkerSnapshot>|
            #![trigger tri_stable_de(old(tasks)@, triees), tri_stable_de(workers@, servis)]
            tri_stable_de(old(tasks)@, triees) && tri_stable_de(workers@, servis) && final(tasks)@
                == affecter(triees, servis).0 && assignments@ == affecter(triees, servis).2
                && (forall|a: int, b: int|
                0 <= a < b < servis.len() ==> (#[trigger] servis[a]).id.0 <= (
                #[trigger] servis[b]).id.0) && (forall|a: int, b: int|
                0 <= a < b < triees.len() ==> (#[trigger] triees[a]).priority >= (
                #[trigger] triees[b]).priority),
{
    let worker_list = trier_stable(workers);
    let mut ts = trier_stable(tasks.as_slice());
    let ghost t0 = ts@;
    let ghost w0 = worker_list@;
    proof {
        crate::tri_stable::lemme_tri_membres(old(tasks)@, t0);
        crate::tri_stable::lemme_tri_membres(workers@, w0);
        assert forall|i: int, j: int|
            0 <= i < t0.len() && 0 <= j < w0.len() implies score_representable(
            #[trigger] t0[i],
            #[trigger] w0[j],
        ) by {
            assert(old(tasks)@.contains(t0[i]));
            assert(workers@.contains(w0[j]));
            let a = choose|a: int| 0 <= a < old(tasks)@.len() && old(tasks)@[a] == t0[i];
            let b = choose|b: int| 0 <= b < workers@.len() && workers@[b] == w0[j];
            assert(score_representable(old(tasks)@[a], workers@[b]));
        }
        assert(w0.take(0) =~= Seq::<WorkerSnapshot>::empty());
    }
    let mut reserves: Vec<TaskId> = Vec::new();
    let mut assignments: Vec<(AstronautId, TaskId)> = Vec::new();
    let mut k: usize = 0;
    while k < worker_list.len()
        invariant
            k <= w0.len(),
            w0 == worker_list@,
            ts@.len() == t0.len(),
            forall|i: int, j: int|
                0 <= i < t0.len() && 0 <= j < w0.len() ==> score_representable(
                    #[trigger] t0[i],
                    #[trigger] w0[j],
                ),
            forall|i: int|
                0 <= i < ts@.len() ==> #[trigger] ts@[i].priority == t0[i].priority
                    && ts@[i].target_cell == t0[i].target_cell && ts@[i].kind == t0[i].kind,
            ts@ == affecter(t0, w0.take(k as int)).0,
            Set::new(|id: TaskId| reserves@.contains(id)) == affecter(t0, w0.take(k as int)).1,
            assignments@ == affecter(t0, w0.take(k as int)).2,
        decreases w0.len() - k,
    {
        let w = worker_list[k];
        let ghost res = Set::new(|id: TaskId| reserves@.contains(id));
        let ghost ts0 = ts@;
        proof {
            assert(w0.take(k + 1).drop_last() =~= w0.take(k as int));
            assert(w0.take(k + 1).last() == w);
        }
        if w.alive && w.current_task.is_none() && w.air_suffisant {
            let mut meilleur: Option<(usize, i32, i64)> = None;
            let mut i: usize = 0;
            while i < ts.len()
                invariant
                    i <= ts@.len(),
                    ts@ == ts0,
                    ts0.len() == t0.len(),
                    k < w0.len(),
                    w == w0[k as int],
                    res == Set::new(|id: TaskId| reserves@.contains(id)),
                    forall|a: int, b: int|
                        0 <= a < t0.len() && 0 <= b < w0.len() ==> score_representable(
                            #[trigger] t0[a],
                            #[trigger] w0[b],
                        ),
                    forall|a: int|
                        0 <= a < ts0.len() ==> #[trigger] ts0[a].priority == t0[a].priority
                            && ts0[a].target_cell == t0[a].target_cell && ts0[a].kind == t0[a].kind,
                    match meilleur {
                        Some((b, bs, bd)) => {
                            &&& b < i
                            &&& disponible(ts0[b as int], res)
                            &&& bs == score_spec(ts0[b as int], w)
                            &&& bd == manhattan(ts0[b as int].target_cell, w.position)
                            &&& forall|j: int|
                                0 <= j < i && disponible(#[trigger] ts0[j], res) ==> !meilleure(
                                    ts0[j],
                                    ts0[b as int],
                                    w,
                                )
                            &&& forall|j: int|
                                0 <= j < b && disponible(#[trigger] ts0[j], res) ==> meilleure(
                                    ts0[b as int],
                                    ts0[j],
                                    w,
                                )
                        },
                        None => forall|j: int| 0 <= j < i ==> !disponible(#[trigger] ts0[j], res),
                    },
                decreases ts0.len() - i,
            {
                let t = ts[i];
                if !contient_tache(&reserves, t.id) && t.assigned_to.is_none() {
                    proof {
                        assert(score_representable(t0[i as int], w0[k as int]));
                        assert(score_spec(t, w) == score_spec(t0[i as int], w0[k as int]));
                    }
                    let (s, d) = score(&t, &w);
                    match meilleur {
                        Some((_, bs, bd)) => {
                            if !(s < bs || (s == bs && d >= bd)) {
                                meilleur = Some((i, s, d));
                            }
                        },
                        None => {
                            meilleur = Some((i, s, d));
                        },
                    }
                }
                i += 1;
            }
            match meilleur {
                Some((b, _, _)) => {
                    let id = ts[b].id;
                    let mut t = ts[b];
                    t.assigned_to = Some(w.id);
                    ts.set(b, t);
                    let ghost r0v = reserves@;
                    reserves.push(id);
                    assignments.push((w.id, id));
                    proof {
                        let prec = affecter(t0, w0.take(k as int));
                        assert(prec.0 == ts0);
                        assert(est_choix(ts0, res, w, b as int));
                        let c = choose|c: int| est_choix(ts0, res, w, c);
                        lemme_choix_unique(ts0, res, w, b as int, c);
                        assert(ts@ =~= ts0.update(b as int, avec_titulaire(ts0[b as int], w.id)));
                        assert(Set::new(|x: TaskId| reserves@.contains(x)) =~= res.insert(id)) by {
                            assert(reserves@ == r0v.push(id));
                            assert forall|x: TaskId| #[trigger] reserves@.contains(x) <==> (res.contains(x) || x == id) by {
                                assert(res.contains(x) == r0v.contains(x));
                                if x == id {
                                    assert(reserves@[r0v.len() as int] == x);
                                }
                                if r0v.contains(x) {
                                    let m = choose|m: int| 0 <= m < r0v.len() && r0v[m] == x;
                                    assert(reserves@[m] == x);
                                }
                                if reserves@.contains(x) {
                                    let m = choose|m: int| 0 <= m < reserves@.len() && reserves@[m] == x;
                                    if m < r0v.len() {
                                        assert(r0v[m] == x);
                                    }
                                }
                            }
                        }
                    }
                },
                None => {
                    proof {
                        assert forall|c: int| !est_choix(ts0, res, w, c) by {
                            if est_choix(ts0, res, w, c) {
                                assert(disponible(ts0[c], res));
                            }
                        }
                    }
                },
            }
        }
        k += 1;
    }
    proof {
        assert(w0.take(w0.len() as int) =~= w0);
        assert(tri_stable_de(old(tasks)@, t0));
        assert(tri_stable_de(workers@, w0));
        loi_ordre_de_service(workers@, w0);
        loi_ordre_des_taches(old(tasks)@, t0);
    }
    *tasks = ts;
    assignments
}


/// Workers are served by increasing identifier: in any stable sort of the
/// workers, identifiers never go down.
pub proof fn loi_ordre_de_service(workers: Seq<WorkerSnapshot>, servis: Seq<WorkerSnapshot>)
    requires
        tri_stable_de(workers, servis),
    ensures
        forall|a: int, b: int|
            0 <= a < b < servis.len() ==> (#[trigger] servis[a]).id.0 <= (#[trigger] servis[b]).id.0,
{
    assert forall|a: int, b: int| 0 <= a < b < servis.len() implies (#[trigger] servis[a]).id.0 <= (
    #[trigger] servis[b]).id.0 by {
        assert(servis[a].cle_spec() <= servis[b].cle_spec());
    }
}

/// The board is served by decreasing priority: in any stable sort of the
/// tasks, priorities never go up.
pub proof fn loi_ordre_des_taches(tasks: Seq<Task>, triees: Seq<Task>)
    requires
        tri_stable_de(tasks, triees),
    ensures
        forall|a: int, b: int|
            0 <= a < b < triees.len() ==> (#[trigger] triees[a]).priority >= (
            #[trigger] triees[b]).priority,
{
    assert forall|a: int, b: int| 0 <= a < b < triees.len() implies (#[trigger] triees[a]).priority
        >= (#[trigger] triees[b]).priority by {
        assert(triees[a].cle_spec() <= triees[b].cle_spec());
    }
}

/// The score points each role earns, kind of task by kind of task: the
/// engineer 18 on building and 10 on refuelling, the scientist 18 on
/// mining, the logistician 18 on hauling and 12 on refuelling, the
/// commander 12 on building and 4 on returning to base; nothing otherwise.
pub proof fn loi_bonus_des_roles(task: TaskKind)
    ensures
        task is Build ==> bonus_role_spec(RoleAstronaute::Ingenieur, task) == 18
            && bonus_role_spec(RoleAstronaute::Commandant, task) == 12 && bonus_role_spec(
            RoleAstronaute::Scientifique,
            task,
        ) == 0 && bonus_role_spec(RoleAstronaute::Logisticien, task) == 0 && bonus_role_spec(
            RoleAstronaute::Civil,
            task,
        ) == 0,
        task is Extract ==> bonus_role_spec(RoleAstronaute::Scientifique, task) == 18
            && bonus_role_spec(RoleAstronaute::Ingenieur, task) == 0 && bonus_role_spec(
            RoleAstronaute::Commandant,
            task,
        ) == 0 && bonus_role_spec(RoleAstronaute::Logisticien, task) == 0 && bonus_role_spec(
            RoleAstronaute::Civil,
            task,
        ) == 0,
        task is HaulIce ==> bonus_role_spec(RoleAstronaute::Logisticien, task) == 18
            && bonus_role_spec(RoleAstronaute::Ingenieur, task) == 0 && bonus_role_spec(
            RoleAstronaute::Commandant,
            task,
        ) == 0 && bonus_role_spec(RoleAstronaute::Scientifique, task) == 0 && bonus_role_spec(
            RoleAstronaute::Civil,
            task,
        ) == 0,
        task is RefuelStructure ==> bonus_role_spec(RoleAstronaute::Ingenieur, task) == 10
            && bonus_role_spec(RoleAstronaute::Logisticien, task) == 12 && bonus_role_spec(
            RoleAstronaute::Commandant,
            task,
        ) == 0 && bonus_role_spec(RoleAstronaute::Scientifique, task) == 0 && bonus_role_spec(
            RoleAstronaute::Civil,
            task,
        ) == 0,
        task is ReturnToBase ==> bonus_role_spec(RoleAstronaute::Commandant, task) == 4
            && bonus_role_spec(RoleAstronaute::Ingenieur, task) == 0 && bonus_role_spec(
            RoleAstronaute::Scientifique,
            task,
        ) == 0 && bonus_role_spec(RoleAstronaute::Logisticien, task) == 0 && bonus_role_spec(
            RoleAstronaute::Civil,
            task,
        ) == 0,
{
}

/// No task identifier is handed out twice, and every identifier handed out
/// is marked as taken.
pub proof fn loi_pas_de_double_affectation(tasks: Seq<Task>, ws: Seq<WorkerSnapshot>)
    ensures
        forall|a: int, b: int|
            0 <= a < b < affecter(tasks, ws).2.len() ==> (#[trigger] affecter(tasks, ws).2[a]).1
                != (#[trigger] affecter(tasks, ws).2[b]).1,
        forall|a: int|
            0 <= a < affecter(tasks, ws).2.len() ==> affecter(tasks, ws).1.contains(
                (#[trigger] affecter(tasks, ws).2[a]).1,
            ),
    decreases ws.len(),
{
    if ws.len() > 0 {
        loi_pas_de_double_affectation(tasks, ws.drop_last());
        let (t, r, a) = affecter(tasks, ws.drop_last());
        let w = ws.last();
        if eligible(w) && exists|i: int| est_choix(t, r, w, i) {
            let i = choose|i: int| est_choix(t, r, w, i);
            let a2 = a.push((w.id, t[i].id));
            assert(affecter(tasks, ws).2 == a2);
            assert forall|x: int, y: int| 0 <= x < y < a2.len() implies (#[trigger] a2[x]).1 != (
            #[trigger] a2[y]).1 by {
                if y == a.len() {
                    assert(r.contains(a[x].1));
                } else {
                    assert(a2[x] == a[x] && a2[y] == a[y]);
                }
            }
            assert forall|x: int| 0 <= x < a2.len() implies r.insert(t[i].id).contains((#[trigger] a2[x]).1) by {
                if x < a.len() {
                    assert(a2[x] == a[x]);
                }
            }
        }
    }
}

#[derive(Clone, Copy, Debug, PartialEq, Eq, Structural)]
pub enum AstronautStatus {
    Idle,
    Moving,
    Working,
    Returning,
    Dead,
}

/// What the task rules read of an astronaut.
#[derive(Clone, Copy, Debug)]
pub struct Astronaut {
    pub id: AstronautId,
    pub name: &'static str,
    pub current_task: Option<TaskId>,
    pub status: AstronautStatus,
}

/// Which astronaut holds each task.
pub struct AffectationsActives {
    titulaires: Vec<(TaskId, AstronautId)>,
}

impl View for AffectationsActives {
    type V = Seq<(TaskId, AstronautId)>;

    closed spec fn view(&self) -> Seq<(TaskId, AstronautId)> {
        self.titulaires@
    }
}

/// The holder recorded last for `task`, if any.
pub open spec fn titulaire(s: Seq<(TaskId, AstronautId)>, task: TaskId) -> Option<AstronautId>
    decreases s.len(),
{
    if s.len() == 0 {
        None
    } else if s.last().0 == task {
        Some(s.last().1)
    } else {
        titulaire(s.drop_last(), task)
    }
}

impl AffectationsActives {
    pub fn get(&self, task: TaskId) -> (r: Option<AstronautId>)
        ensures
            r == titulaire(self@, task),
    {
        let mut i: usize = self.titulaires.len();
        proof {
            assert(self@.take(i as int) =~= self@);
        }
        while i > 0
            invariant
                i <= self@.len(),
                self@ == self.titulaires@,
                titulaire(self@, task) == titulaire(self@.take(i as int), task),
            decreases i,
        {
            let (t, a) = self.titulaires[i - 1];
            proof {
                assert(self@.take(i as int).drop_last() =~= self@.take(i - 1));
            }
            if t == task {
                return Some(a);
            }
            i -= 1;
        }
        None
    }

    pub fn contains_key(&self, task: TaskId) -> (r: bool)
        ensures
            r == (titulaire(self@, task) is Some),
    {
        self.get(task).is_some()
    }
}

/// The task each living astronaut is working on, as (task, astronaut)
/// pairs in the astronauts' order; when two astronauts hold the same task,
/// the later one counts.
pub fn active_task_assignments(astronauts: &[Astronaut]) -> (r: AffectationsActives)
    ensures
        forall|t: TaskId| #[trigger] titulaire(r@, t) == titulaire(
            actifs(astronauts@),
            t,
        ),
{
    let mut titulaires: Vec<(TaskId, AstronautId)> = Vec::new();
    let mut i: usize = 0;
    while i < astronauts.len()
        invariant
            i <= astronauts@.len(),
            titulaires@ == actifs(astronauts@.take(i as int)),
        decreases astronauts@.len() - i,
    {
        let a = astronauts[i];
        proof {
            assert(astronauts@.take(i + 1).drop_last() =~= astronauts@.take(i as int));
        }
        if a.status != AstronautStatus::Dead {
            match a.current_task {
                Some(t) => {
                    titulaires.push((t, a.id));
                },
                None => {},
            }
        }
        i += 1;
    }
    proof {
        assert(astronauts@.take(astronauts@.len() as int) =~= astronauts@);
    }
    AffectationsActives { titulaires }
}

/// The (task, astronaut) pairs of the living astronauts holding a task.
pub open spec fn actifs(s: Seq<Astronaut>) -> Seq<(TaskId, AstronautId)>
    decreases s.len(),
{
    if s.len() == 0 {
        Seq::empty()
    } else {
        let a = s.last();
        let prec = actifs(s.drop_last());
        if a.status != AstronautStatus::Dead && a.current_task is Some {
            prec.push((a.current_task->0, a.id))
        } else {
            prec
        }
    }
}

/// Whether a task refers to a structure that no longer exists: always for
/// building or returning, only while carrying ice for hauling and refuelling.
pub fn task_needs_missing_structure(
    task: &Task,
    porte_glace: bool,
    structures_presentes: &[StructureId],
) -> (r: bool)
    ensures
        r == match task.kind {
            TaskKind::Build { structure } => !structures_presentes@.contains(structure),
            TaskKind::HaulIce { target, .. } => porte_glace && !structures_presentes@.contains(
                target,
            ),
            TaskKind::RefuelStructure { target, .. } => porte_glace
                && !structures_presentes@.contains(target),
            TaskKind::ReturnToBase { target } => !structures_presentes@.contains(target),
            TaskKind::Extract { .. } => false,
        },
{
    match task.kind {
        TaskKind::Build { structure } => !contient_structure(structures_presentes, structure),
        TaskKind::HaulIce { target, .. } => porte_glace && !contient_structure(
            structures_presentes,
            target,
        ),
        TaskKind::RefuelStructure { target, .. } => porte_glace && !contient_structure(
            structures_presentes,
            target,
        ),
        TaskKind::ReturnToBase { target } => !contient_structure(structures_presentes, target),
        TaskKind::Extract { .. } => false,
    }
}

pub(crate) fn contient_structure(ids: &[StructureId], id: StructureId) -> (r: bool)
    ensures
        r == ids@.contains(id),
{
    let mut i: usize = 0;
    while i < ids.len()
        invariant
            i <= ids@.len(),
            forall|j: int| 0 <= j < i ==> ids@[j] != id,
        decreases ids@.len() - i,
    {
        if ids[i] == id {
            assert(ids@[i as int] == id);
            return true;
        }
        i += 1;
    }
    false
}

} // verus!
