//! Walking on the grid: the four-neighbour distance map from a set of
//! origins, bounded by a cost limit, and the shortest path from a start cell
//! to the nearest of several goals.
//!
//! Terrain is read through a function from cells to `TerrainCell` that the
//! caller supplies; it must answer the same for the same cell.
use crate::grille::{
    abs_int, adjacentes, distance_manhattan, interieure, lemme_voisins_adjacents, manhattan, voisin,
    voisins_cardinaux, CarteCellules, CarteDistances, Cellule, EnsembleCellules,
};
use crate::monde::{marchable, terrain_est_marchable, TerrainCell};
use vstd::prelude::*;

verus! {

/// Units of suit air, counted in quarters of the display unit.
pub const AIR_MAX_COMBINAISON_QUARTS: i32 = 720;

/// Air a worker spends per cell walked, in quarters.
pub const CONSOMMATION_AIR_PAR_CASE_OUVRIER_QUARTS: i32 = 1;

/// Air a worker keeps in reserve for the way back, in quarters.
pub const MARGE_SECURITE_RETOUR_OUVRIER_QUARTS: i32 = 40;

/// The farthest a worker may walk from the base and still come back on a
/// full suit, keeping the safety margin.
pub fn autonomie_aller_retour_max_cases() -> (r: i32)
    ensures
        r == (AIR_MAX_COMBINAISON_QUARTS - MARGE_SECURITE_RETOUR_OUVRIER_QUARTS) / (
        CONSOMMATION_AIR_PAR_CASE_OUVRIER_QUARTS * 2),
        r == 340,
{
    (AIR_MAX_COMBINAISON_QUARTS - MARGE_SECURITE_RETOUR_OUVRIER_QUARTS) / (
    CONSOMMATION_AIR_PAR_CASE_OUVRIER_QUARTS * 2)
}

/// The terrain function answers for every cell, and always the same.
pub open spec fn oracle_terrain<F: Fn(Cellule) -> TerrainCell>(f: &F) -> bool {
    &&& forall|c: Cellule| #[trigger] f.requires((c,))
    &&& forall|c: Cellule, a: TerrainCell, b: TerrainCell|
        #[trigger] f.ensures((c,), a) && #[trigger] f.ensures((c,), b) ==> a == b
}

/// The terrain the function gives for `c`.
pub open spec fn terrain_selon<F: Fn(Cellule) -> TerrainCell>(f: &F, c: Cellule) -> TerrainCell {
    choose|t: TerrainCell| f.ensures((c,), t)
}

pub fn lire_terrain<F: Fn(Cellule) -> TerrainCell>(f: &F, c: Cellule) -> (t: TerrainCell)
    requires
        oracle_terrain(f),
    ensures
        t == terrain_selon(f, c),
{
    let t = f(c);
    assert(f.ensures((c,), t));
    t
}

/// A cell a walker may stand on: not occupied and walkable.
pub open spec fn libre<F: Fn(Cellule) -> TerrainCell>(
    f: &F,
    occ: Set<Cellule>,
    c: Cellule,
) -> bool {
    !occ.contains(c) && marchable(terrain_selon(f, c))
}

/// `c` can be reached in at most `n` steps from one of the origins, walking
/// only on free cells (the origins themselves must be free).
pub open spec fn atteint<F: Fn(Cellule) -> TerrainCell>(
    f: &F,
    occ: Set<Cellule>,
    origines: Seq<Cellule>,
    n: nat,
    c: Cellule,
) -> bool
    decreases n,
{
    if n == 0 {
        origines.contains(c) && libre(f, occ, c)
    } else {
        atteint(f, occ, origines, (n - 1) as nat, c) || (libre(f, occ, c) && exists|b: Cellule|
            #[trigger] adjacentes(b, c) && atteint(f, occ, origines, (n - 1) as nat, b))
    }
}

/// `k` is the length of a shortest walk to `c`.
pub open spec fn distance_exacte<F: Fn(Cellule) -> TerrainCell>(
    f: &F,
    occ: Set<Cellule>,
    origines: Seq<Cellule>,
    c: Cellule,
    k: nat,
) -> bool {
    atteint(f, occ, origines, k, c) && (k == 0 || !atteint(f, occ, origines, (k - 1) as nat, c))
}

/// Every origin lies at least `l + 1` cells inside the representable grid.
pub open spec fn dans_marge(c: Cellule, m: int) -> bool {
    i32::MIN + m + 1 <= c.x <= i32::MAX - m - 1 && i32::MIN + m + 1 <= c.y <= i32::MAX - m - 1
}

pub open spec fn origines_bornees(origines: Seq<Cellule>, l: int) -> bool {
    forall|i: int| 0 <= i < origines.len() ==> dans_marge(#[trigger] origines[i], l)
}

pub proof fn lemme_atteint_monotone<F: Fn(Cellule) -> TerrainCell>(
    f: &F,
    occ: Set<Cellule>,
    origines: Seq<Cellule>,
    a: nat,
    b: nat,
    c: Cellule,
)
    requires
        a <= b,
        atteint(f, occ, origines, a, c),
    ensures
        atteint(f, occ, origines, b, c),
    decreases b,
{
    if a < b {
        lemme_atteint_monotone(f, occ, origines, a, (b - 1) as nat, c);
    }
}

/// Only free cells are reached: a cell that is occupied, blocked or too
/// steep never gets a walking distance.
pub proof fn loi_atteintes_libres<F: Fn(Cellule) -> TerrainCell>(
    f: &F,
    occ: Set<Cellule>,
    origines: Seq<Cellule>,
    n: nat,
    c: Cellule,
)
    requires
        atteint(f, occ, origines, n, c),
    ensures
        libre(f, occ, c),
    decreases n,
{
    if n > 0 && atteint(f, occ, origines, (n - 1) as nat, c) {
        loi_atteintes_libres(f, occ, origines, (n - 1) as nat, c);
    }
}

/// A shortest distance is unique.
pub proof fn lemme_distance_unique<F: Fn(Cellule) -> TerrainCell>(
    f: &F,
    occ: Set<Cellule>,
    origines: Seq<Cellule>,
    c: Cellule,
    a: nat,
    b: nat,
)
    requires
        distance_exacte(f, occ, origines, c, a),
        distance_exacte(f, occ, origines, c, b),
    ensures
        a == b,
{
    if a < b {
        lemme_atteint_monotone(f, occ, origines, a, (b - 1) as nat, c);
    } else if b < a {
        lemme_atteint_monotone(f, occ, origines, b, (a - 1) as nat, c);
    }
}

/// A cell reached in `n` steps lies within `n` cells of an origin, hence
/// inside the margin left by the origins.
pub proof fn lemme_atteint_borne<F: Fn(Cellule) -> TerrainCell>(
    f: &F,
    occ: Set<Cellule>,
    origines: Seq<Cellule>,
    l: int,
    n: nat,
    c: Cellule,
)
    requires
        origines_bornees(origines, l),
        atteint(f, occ, origines, n, c),
        n <= l,
    ensures
        dans_marge(c, l - n),
    decreases n,
{
    if n == 0 {
        let i = choose|i: int| 0 <= i < origines.len() && origines[i] == c;
        assert(dans_marge(origines[i], l));
    } else if atteint(f, occ, origines, (n - 1) as nat, c) {
        lemme_atteint_borne(f, occ, origines, l, (n - 1) as nat, c);
    } else {
        let b = choose|b: Cellule|
            #[trigger] adjacentes(b, c) && atteint(f, occ, origines, (n - 1) as nat, b);
        lemme_atteint_borne(f, occ, origines, l, (n - 1) as nat, b);
    }
}

/// A cell at exact distance `k + 1` has a neighbour at exact distance `k`.
pub proof fn lemme_predecesseur<F: Fn(Cellule) -> TerrainCell>(
    f: &F,
    occ: Set<Cellule>,
    origines: Seq<Cellule>,
    c: Cellule,
    k: nat,
) -> (b: Cellule)
    requires
        distance_exacte(f, occ, origines, c, k + 1),
    ensures
        adjacentes(b, c),
        distance_exacte(f, occ, origines, b, k),
{
    let b = choose|b: Cellule| #[trigger] adjacentes(b, c) && atteint(f, occ, origines, k, b);
    if k > 0 && atteint(f, occ, origines, (k - 1) as nat, b) {
        assert(atteint(f, occ, origines, k, c));
    }
    b
}

/// When no cell lies at exact distance `d`, nothing new is reached beyond `d`.
pub proof fn lemme_couche_vide<F: Fn(Cellule) -> TerrainCell>(
    f: &F,
    occ: Set<Cellule>,
    origines: Seq<Cellule>,
    d: nat,
    m: nat,
    c: Cellule,
)
    requires
        forall|x: Cellule| !#[trigger] distance_exacte(f, occ, origines, x, d),
        d <= m,
        atteint(f, occ, origines, m, c),
    ensures
        d > 0,
        atteint(f, occ, origines, (d - 1) as nat, c),
    decreases m,
{
    if m == d {
        assert(!distance_exacte(f, occ, origines, c, d));
    } else if atteint(f, occ, origines, (m - 1) as nat, c) {
        lemme_couche_vide(f, occ, origines, d, (m - 1) as nat, c);
    } else {
        let b = choose|b: Cellule|
            #[trigger] adjacentes(b, c) && atteint(f, occ, origines, (m - 1) as nat, b);
        lemme_couche_vide(f, occ, origines, d, (m - 1) as nat, b);
        assert(atteint(f, occ, origines, d, c));
        assert(!distance_exacte(f, occ, origines, c, d));
    }
}

/// State of a breadth-first exploration after layer `d`: the map holds
/// exactly the cells reached in `d` steps, each with its exact distance, and
/// the frontier holds exactly the cells at distance `d`.
pub open spec fn etat_couche<F: Fn(Cellule) -> TerrainCell>(
    f: &F,
    occ: Set<Cellule>,
    origines: Seq<Cellule>,
    d: nat,
    carte: Map<Cellule, i32>,
    front: Seq<Cellule>,
) -> bool {
    &&& forall|c: Cellule| #[trigger] carte.contains_key(c) <==> atteint(f, occ, origines, d, c)
    &&& forall|c: Cellule|
        #[trigger] carte.contains_key(c) ==> 0 <= carte[c] <= d && distance_exacte(
            f,
            occ,
            origines,
            c,
            carte[c] as nat,
        )
    &&& forall|c: Cellule| #[trigger] front.contains(c) <==> distance_exacte(f, occ, origines, c, d)
}

/// Adds `v`, a neighbour of a cell at distance `d`, when it is free and new.
fn visiter<F: Fn(Cellule) -> TerrainCell>(
    f: &F,
    occupees: &EnsembleCellules,
    v: Cellule,
    d: i32,
    carte: &mut CarteDistances,
    suivante: &mut Vec<Cellule>,
)
    requires
        oracle_terrain(f),
        0 <= d < i32::MAX,
    ensures
        forall|c: Cellule| #[trigger]
            final(carte)@.contains_key(c) <==> (old(carte)@.contains_key(c) || (c == v && libre(
                f,
                occupees@,
                v,
            ))),
        forall|c: Cellule| #[trigger]
            old(carte)@.contains_key(c) ==> final(carte)@[c] == old(carte)@[c],
        forall|c: Cellule| #[trigger]
            final(carte)@.contains_key(c) && !old(carte)@.contains_key(c) ==> final(carte)@[c] == d
                + 1,
        forall|c: Cellule| #[trigger]
            final(suivante)@.contains(c) <==> (old(suivante)@.contains(c) || (c == v
                && !old(carte)@.contains_key(v) && libre(f, occupees@, v))),
{
    if occupees.contient(v) || carte.contains_key(v) {
        return ;
    }
    let terrain = lire_terrain(f, v);
    if terrain_est_marchable(&terrain) {
        carte.inserer(v, d + 1);
        suivante.push(v);
        proof {
            assert forall|c: Cellule| #[trigger] final(suivante)@.contains(c) <==> (old(
                suivante,
            )@.contains(c) || c == v) by {
                if old(suivante)@.contains(c) {
                    let j = choose|j: int| 0 <= j < old(suivante)@.len() && old(suivante)@[j] == c;
                    assert(final(suivante)@[j] == c);
                }
                if c == v {
                    assert(final(suivante)@[old(suivante)@.len() as int] == c);
                }
            }
        }
    }
}

/// Expands layer `d` of a breadth-first exploration into layer `d + 1`.
fn etendre_couche<F: Fn(Cellule) -> TerrainCell>(
    f: &F,
    occupees: &EnsembleCellules,
    Ghost(origines): Ghost<Seq<Cellule>>,
    Ghost(l): Ghost<int>,
    d: i32,
    front: &Vec<Cellule>,
    carte: &mut CarteDistances,
) -> (suivante: Vec<Cellule>)
    requires
        oracle_terrain(f),
        0 <= d < l <= i32::MAX,
        origines_bornees(origines, l),
        etat_couche(f, occupees@, origines, d as nat, old(carte)@, front@),
    ensures
        etat_couche(f, occupees@, origines, (d + 1) as nat, final(carte)@, suivante@),
{
    let ghost occ = occupees@;
    let ghost dn = d as nat;
    let mut suivante: Vec<Cellule> = Vec::new();
    let mut i: usize = 0;
    while i < front.len()
        invariant
            oracle_terrain(f),
            0 <= d < l <= i32::MAX,
            origines_bornees(origines, l),
            occ == occupees@,
            dn == d,
            i <= front.len(),
            forall|c: Cellule| #[trigger]
                front@.contains(c) <==> distance_exacte(f, occ, origines, c, dn),
            forall|c: Cellule| #[trigger]
                carte@.contains_key(c) <==> (atteint(f, occ, origines, dn, c) || (libre(f, occ, c)
                    && exists|j: int| 0 <= j < i && #[trigger] adjacentes(front@[j], c))),
            forall|c: Cellule|
                #[trigger] carte@.contains_key(c) ==> 0 <= carte@[c] <= d + 1 && distance_exacte(
                    f,
                    occ,
                    origines,
                    c,
                    carte@[c] as nat,
                ),
            forall|c: Cellule| #[trigger]
                suivante@.contains(c) <==> (carte@.contains_key(c) && !atteint(
                    f,
                    occ,
                    origines,
                    dn,
                    c,
                )),
        decreases front.len() - i,
    {
        let u = front[i];
        proof {
            assert(front@.contains(u)) by {
                assert(front@[i as int] == u);
            }
            lemme_atteint_borne(f, occ, origines, l, dn, u);
            lemme_voisins_adjacents(u);
        }
        let ghost carte0 = carte@;
        let ghost suiv0 = suivante@;
        let vs = voisins_cardinaux(u);
        visiter(f, occupees, vs[0], d, carte, &mut suivante);
        let ghost carte1 = carte@;
        visiter(f, occupees, vs[1], d, carte, &mut suivante);
        let ghost carte2 = carte@;
        visiter(f, occupees, vs[2], d, carte, &mut suivante);
        let ghost carte3 = carte@;
        visiter(f, occupees, vs[3], d, carte, &mut suivante);
        proof {
            assert forall|c: Cellule| #[trigger]
                carte@.contains_key(c) <==> (atteint(f, occ, origines, dn, c) || (libre(f, occ, c)
                    && exists|j: int| 0 <= j < i + 1 && #[trigger] adjacentes(front@[j], c))) by {
                if carte@.contains_key(c) && !carte0.contains_key(c) {
                    assert(adjacentes(front@[i as int], c));
                }
                if libre(f, occ, c) && !carte0.contains_key(c) && !atteint(f, occ, origines, dn, c)
                    && exists|j: int| 0 <= j < i + 1 && #[trigger] adjacentes(front@[j], c) {
                    let j = choose|j: int| 0 <= j < i + 1 && #[trigger] adjacentes(front@[j], c);
                    assert(j == i);
                    assert(c == vs@[0] || c == vs@[1] || c == vs@[2] || c == vs@[3]);
                }
            }
            assert forall|c: Cellule| #[trigger] carte@.contains_key(c) implies 0 <= carte@[c] <= d
                + 1 && distance_exacte(f, occ, origines, c, carte@[c] as nat) by {
                if !carte0.contains_key(c) {
                    if carte1.contains_key(c) {
                        assert(carte1[c] == d + 1);
                    } else if carte2.contains_key(c) {
                        assert(carte2[c] == d + 1);
                    } else if carte3.contains_key(c) {
                        assert(carte3[c] == d + 1);
                    }
                    assert(carte@[c] == d + 1);
                    assert(libre(f, occ, c));
                    assert(adjacentes(u, c));
                    assert(atteint(f, occ, origines, dn, u));
                    assert(atteint(f, occ, origines, dn + 1, c));
                    assert(!atteint(f, occ, origines, dn, c));
                    assert(distance_exacte(f, occ, origines, c, (d + 1) as nat));
                } else {
                    assert(carte1.contains_key(c) && carte1[c] == carte0[c]);
                    assert(carte2.contains_key(c) && carte2[c] == carte1[c]);
                    assert(carte3.contains_key(c) && carte3[c] == carte2[c]);
                    assert(carte@[c] == carte0[c]);
                }
            }
        }
        i += 1;
    }
    proof {
        assert forall|c: Cellule| #[trigger]
            atteint(f, occ, origines, dn + 1, c) implies carte@.contains_key(c) by {
            if !atteint(f, occ, origines, dn, c) {
                let b = lemme_predecesseur(f, occ, origines, c, dn);
                assert(front@.contains(b));
                let j = choose|j: int| 0 <= j < front@.len() && front@[j] == b;
                assert(adjacentes(front@[j], c));
            }
        }
        assert forall|c: Cellule| #[trigger]
            carte@.contains_key(c) implies atteint(f, occ, origines, dn + 1, c) by {
            if carte@.contains_key(c) && !atteint(f, occ, origines, dn, c) {
                let j = choose|j: int| 0 <= j < i && #[trigger] adjacentes(front@[j], c);
                let b = front@[j];
                assert(front@.contains(b));
                assert(adjacentes(b, c));
            }
        }
        assert forall|c: Cellule| #[trigger]
            suivante@.contains(c) <==> distance_exacte(f, occ, origines, c, dn + 1) by {
        }
    }
    suivante
}


pub open spec fn borne_limite(limite_cout: i32) -> int {
    if limite_cout < 0 {
        0
    } else {
        limite_cout as int
    }
}

/// Walking distances from the origins to every cell reachable within
/// `limite_cout` steps (a negative limit counts as zero). Origins that are
/// occupied or not walkable are ignored.
pub fn carte_distances_depuis_origines<F: Fn(Cellule) -> TerrainCell>(
    origines: &[Cellule],
    cellules_occupees: &EnsembleCellules,
    limite_cout: i32,
    terrain_at: &F,
) -> (distances: CarteDistances)
    requires
        oracle_terrain(terrain_at),
        origines_bornees(origines@, borne_limite(limite_cout)),
    ensures
        forall|c: Cellule| #[trigger]
            distances@.contains_key(c) <==> atteint(
                terrain_at,
                cellules_occupees@,
                origines@,
                borne_limite(limite_cout) as nat,
                c,
            ),
        forall|c: Cellule| #[trigger]
            distances@.contains_key(c) ==> 0 <= distances@[c] <= borne_limite(limite_cout)
                && distance_exacte(
                terrain_at,
                cellules_occupees@,
                origines@,
                c,
                distances@[c] as nat,
            ),
{
    let ghost occ = cellules_occupees@;
    let ghost orig = origines@;
    let l: i32 = if limite_cout < 0 {
        0
    } else {
        limite_cout
    };
    let mut carte = CarteDistances::new();
    let mut front: Vec<Cellule> = Vec::new();
    let mut i: usize = 0;
    while i < origines.len()
        invariant
            oracle_terrain(terrain_at),
            occ == cellules_occupees@,
            orig == origines@,
            i <= origines.len(),
            forall|c: Cellule| #[trigger]
                carte@.contains_key(c) <==> (libre(terrain_at, occ, c) && exists|j: int|
                    0 <= j < i && orig[j] == c),
            forall|c: Cellule| #[trigger] carte@.contains_key(c) ==> carte@[c] == 0,
            forall|c: Cellule| #[trigger] front@.contains(c) <==> carte@.contains_key(c),
        decreases origines.len() - i,
    {
        let o = origines[i];
        let ghost front0 = front@;
        if !cellules_occupees.contient(o) && !carte.contains_key(o) {
            let t = lire_terrain(terrain_at, o);
            if terrain_est_marchable(&t) {
                carte.inserer(o, 0);
                front.push(o);
                proof {
                    assert forall|c: Cellule| #[trigger] front@.contains(c) <==> (front0.contains(c)
                        || c == o) by {
                        if front0.contains(c) {
                            let j = choose|j: int| 0 <= j < front0.len() && front0[j] == c;
                            assert(front@[j] == c);
                        }
                        if c == o {
                            assert(front@[front0.len() as int] == c);
                        }
                    }
                }
            }
        }
        proof {
            assert forall|c: Cellule| #[trigger] carte@.contains_key(c) <==> (libre(
                terrain_at,
                occ,
                c,
            ) && exists|j: int| 0 <= j < i + 1 && orig[j] == c) by {
                if c == o {
                    assert(orig[i as int] == c);
                }
            }
        }
        i += 1;
    }
    proof {
        assert forall|c: Cellule| #[trigger]
            carte@.contains_key(c) <==> atteint(terrain_at, occ, orig, 0, c) by {
            if orig.contains(c) {
                let j = choose|j: int| 0 <= j < orig.len() && orig[j] == c;
                assert(exists|j: int| 0 <= j < i && orig[j] == c);
            }
        }
    }
    let mut d: i32 = 0;
    while d < l && front.len() > 0
        invariant
            oracle_terrain(terrain_at),
            occ == cellules_occupees@,
            orig == origines@,
            l == borne_limite(limite_cout),
            origines_bornees(orig, l as int),
            0 <= d <= l,
            etat_couche(terrain_at, occ, orig, d as nat, carte@, front@),
        decreases l - d,
    {
        front = etendre_couche(terrain_at, cellules_occupees, Ghost(orig), Ghost(l as int), d, &front, &mut carte);
        d += 1;
    }
    proof {
        if d < l {
            assert forall|x: Cellule| !#[trigger] distance_exacte(terrain_at, occ, orig, x, d as nat) by {
                if distance_exacte(terrain_at, occ, orig, x, d as nat) {
                    assert(front@.contains(x));
                }
            }
            assert forall|c: Cellule| #[trigger]
                carte@.contains_key(c) <==> atteint(terrain_at, occ, orig, l as nat, c) by {
                if atteint(terrain_at, occ, orig, l as nat, c) {
                    lemme_couche_vide(terrain_at, occ, orig, d as nat, l as nat, c);
                    lemme_atteint_monotone(terrain_at, occ, orig, (d - 1) as nat, d as nat, c);
                }
                if carte@.contains_key(c) {
                    lemme_atteint_monotone(terrain_at, occ, orig, d as nat, l as nat, c);
                }
            }
        }
    }
    carte
}


/// A walk on the grid and its length in steps.
#[derive(Clone, Debug)]
pub struct CheminCellulaire {
    pub cellules: Vec<Cellule>,
    pub cout: i32,
}

/// The cells of a sequence, as a set.
pub open spec fn ensemble_de(s: Seq<Cellule>) -> Set<Cellule> {
    Set::new(|c: Cellule| s.contains(c))
}

/// `(a.x, a.y)` comes no later than `(b.x, b.y)` in lexicographic order.
pub open spec fn avant_xy(a: Cellule, b: Cellule) -> bool {
    a.x < b.x || (a.x == b.x && a.y <= b.y)
}

/// `g` is one of the goals nearest to `c` as the taxicab flies.
pub open spec fn but_le_plus_proche(c: Cellule, buts: Set<Cellule>, g: Cellule) -> bool {
    &&& buts.contains(g)
    &&& forall|h: Cellule| #[trigger] buts.contains(h) ==> manhattan(c, g) <= manhattan(c, h)
}

/// Taxicab distance from `c` to the nearest goal (0 without goals).
pub open spec fn eloignement(c: Cellule, buts: Set<Cellule>) -> int {
    if exists|g: Cellule| #[trigger] but_le_plus_proche(c, buts, g) {
        manhattan(c, choose|g: Cellule| #[trigger] but_le_plus_proche(c, buts, g))
    } else {
        0
    }
}

pub proof fn lemme_eloignement(c: Cellule, buts: Set<Cellule>, g: Cellule)
    requires
        but_le_plus_proche(c, buts, g),
    ensures
        eloignement(c, buts) == manhattan(c, g),
{
    let g2 = choose|g2: Cellule| #[trigger] but_le_plus_proche(c, buts, g2);
    assert(but_le_plus_proche(c, buts, g2));
    assert(buts.contains(g) && buts.contains(g2));
}

/// Stepping back towards the start, `p` is preferred to `q`: nearer the
/// goals as the taxicab flies, then no later in `(x, y)` order.
pub open spec fn precede_retour(p: Cellule, q: Cellule, buts: Set<Cellule>) -> bool {
    eloignement(p, buts) < eloignement(q, buts) || (eloignement(p, buts) == eloignement(q, buts)
        && avant_xy(p, q))
}

/// `p` is the step back from `c`, a cell at distance `k` from `depart`: a
/// neighbour at distance `k - 1`, preferred by `precede_retour` to every
/// other such neighbour.
pub open spec fn pas_arriere<F: Fn(Cellule) -> TerrainCell>(
    f: &F,
    occ: Set<Cellule>,
    depart: Cellule,
    buts: Set<Cellule>,
    c: Cellule,
    k: nat,
    p: Cellule,
) -> bool {
    &&& adjacentes(p, c)
    &&& distance_exacte(f, occ, seq![depart], p, (k - 1) as nat)
    &&& forall|q: Cellule|
        adjacentes(q, c) && #[trigger] distance_exacte(f, occ, seq![depart], q, (k - 1) as nat)
            ==> precede_retour(p, q, buts)
}

/// Read backwards from its last cell, `ch` takes at each step the step back
/// that `pas_arriere` names.
pub open spec fn chemin_retenu<F: Fn(Cellule) -> TerrainCell>(
    f: &F,
    occ: Set<Cellule>,
    depart: Cellule,
    buts: Set<Cellule>,
    ch: Seq<Cellule>,
) -> bool {
    forall|i: int|
        1 <= i < ch.len() ==> #[trigger] pas_arriere(f, occ, depart, buts, ch[i], i as nat, ch[i - 1])
}

/// `ch` walks from `depart` one step at a time, its `i`-th cell lying at
/// exact walking distance `i` from `depart`.
pub open spec fn chemin_exact<F: Fn(Cellule) -> TerrainCell>(
    f: &F,
    occ: Set<Cellule>,
    depart: Cellule,
    ch: Seq<Cellule>,
) -> bool {
    &&& ch.len() >= 1
    &&& ch[0] == depart
    &&& forall|i: int| 0 <= i < ch.len() - 1 ==> #[trigger] adjacentes(ch[i], ch[i + 1])
    &&& forall|i: int|
        0 <= i < ch.len() ==> #[trigger] distance_exacte(f, occ, seq![depart], ch[i], i as nat)
}

/// `g` is the goal to head for: among the goals, the nearest on foot, and
/// the least in `(x, y)` order among the nearest.
pub open spec fn but_retenu<F: Fn(Cellule) -> TerrainCell>(
    f: &F,
    occ: Set<Cellule>,
    depart: Cellule,
    objectifs: Set<Cellule>,
    g: Cellule,
    k: nat,
) -> bool {
    &&& objectifs.contains(g)
    &&& distance_exacte(f, occ, seq![depart], g, k)
    &&& forall|h: Cellule|
        #![trigger objectifs.contains(h)]
        objectifs.contains(h) && k > 0 ==> !atteint(f, occ, seq![depart], (k - 1) as nat, h)
    &&& forall|h: Cellule|
        #![trigger objectifs.contains(h)]
        objectifs.contains(h) && distance_exacte(f, occ, seq![depart], h, k) ==> avant_xy(g, h)
}

proof fn lemme_origine_libre<F: Fn(Cellule) -> TerrainCell>(
    f: &F,
    occ: Set<Cellule>,
    depart: Cellule,
    n: nat,
    c: Cellule,
)
    requires
        atteint(f, occ, seq![depart], n, c),
    ensures
        libre(f, occ, depart),
    decreases n,
{
    if n == 0 {
        assert(seq![depart].contains(c));
        assert(c == depart);
    } else if atteint(f, occ, seq![depart], (n - 1) as nat, c) {
        lemme_origine_libre(f, occ, depart, (n - 1) as nat, c);
    } else {
        let b = choose|b: Cellule|
            #[trigger] adjacentes(b, c) && atteint(f, occ, seq![depart], (n - 1) as nat, b);
        lemme_origine_libre(f, occ, depart, (n - 1) as nat, b);
    }
}

fn a_distance(carte: &CarteDistances, c: Cellule, k: i32) -> (r: bool)
    ensures
        r == (carte@.contains_key(c) && carte@[c] == k),
{
    match carte.get(c) {
        Some(v) => v == k,
        None => false,
    }
}

/// The step back from `c`: among its neighbours at distance `k - 1` in the
/// map, the nearest to the goals as the taxicab flies, then the least in
/// `(x, y)` order.
fn pas_en_arriere(carte: &CarteDistances, c: Cellule, k: i32, objectifs: &[Cellule]) -> (r: Option<
    Cellule,
>)
    requires
        interieure(c),
        1 <= k,
        objectifs@.len() > 0,
    ensures
        match r {
            Some(p) => (exists|j: int| 0 <= j < 4 && p == voisin(c, j)) && carte@.contains_key(p)
                && carte@[p] == k - 1 && forall|j: int|
                0 <= j < 4 && #[trigger] carte@.contains_key(voisin(c, j)) && carte@[voisin(c, j)]
                    == k - 1 ==> precede_retour(p, voisin(c, j), ensemble_de(objectifs@)),
            None => forall|j: int|
                0 <= j < 4 ==> !(#[trigger] carte@.contains_key(voisin(c, j)) && carte@[voisin(
                    c,
                    j,
                )] == k - 1),
        },
{
    let ghost buts = ensemble_de(objectifs@);
    let vs = voisins_cardinaux(c);
    let mut meilleur: Option<(Cellule, i64)> = None;
    let mut j: usize = 0;
    while j < 4
        invariant
            j <= 4,
            1 <= k,
            objectifs@.len() > 0,
            buts == ensemble_de(objectifs@),
            forall|jj: int| 0 <= jj < 4 ==> #[trigger] vs@[jj] == voisin(c, jj),
            match meilleur {
                Some((p, hp)) => (exists|jj: int| 0 <= jj < j && p == voisin(c, jj))
                    && carte@.contains_key(p) && carte@[p] == k - 1 && hp == eloignement(p, buts)
                    && forall|jj: int|
                    0 <= jj < j && #[trigger] carte@.contains_key(voisin(c, jj)) && carte@[voisin(
                        c,
                        jj,
                    )] == k - 1 ==> precede_retour(p, voisin(c, jj), buts),
                None => forall|jj: int|
                    0 <= jj < j ==> !(#[trigger] carte@.contains_key(voisin(c, jj)) && carte@[voisin(
                        c,
                        jj,
                    )] == k - 1),
            },
        decreases 4 - j,
    {
        let v = vs[j];
        if a_distance(carte, v, k - 1) {
            let hv = heuristique(v, objectifs);
            let remplacer = match meilleur {
                Some((p, hp)) => hv < hp || (hv == hp && (v.x < p.x || (v.x == p.x && v.y < p.y))),
                None => true,
            };
            if remplacer {
                meilleur = Some((v, hv));
            }
        }
        j += 1;
    }
    match meilleur {
        Some((p, _)) => Some(p),
        None => None,
    }
}

/// What `pas_en_arriere` finds in a map of exact distances is the step back
/// of `pas_arriere`.
proof fn lemme_pas_arriere<F: Fn(Cellule) -> TerrainCell>(
    f: &F,
    occ: Set<Cellule>,
    depart: Cellule,
    buts: Set<Cellule>,
    carte: Map<Cellule, i32>,
    dc: nat,
    c: Cellule,
    k: nat,
    p: Cellule,
)
    requires
        1 <= k <= dc,
        interieure(c),
        forall|x: Cellule| #[trigger] carte.contains_key(x) <==> atteint(f, occ, seq![depart], dc, x),
        forall|x: Cellule| #[trigger]
            carte.contains_key(x) ==> 0 <= carte[x] && distance_exacte(
                f,
                occ,
                seq![depart],
                x,
                carte[x] as nat,
            ),
        exists|j: int| 0 <= j < 4 && p == voisin(c, j),
        carte.contains_key(p),
        carte[p] == k - 1,
        forall|j: int|
            0 <= j < 4 && #[trigger] carte.contains_key(voisin(c, j)) && carte[voisin(c, j)] == k - 1
                ==> precede_retour(p, voisin(c, j), buts),
    ensures
        pas_arriere(f, occ, depart, buts, c, k, p),
{
    lemme_voisins_adjacents(c);
    let j = choose|j: int| 0 <= j < 4 && p == voisin(c, j);
    assert(adjacentes(voisin(c, j), c));
    assert forall|q: Cellule|
        adjacentes(q, c) && #[trigger] distance_exacte(
            f,
            occ,
            seq![depart],
            q,
            (k - 1) as nat,
        ) implies precede_retour(p, q, buts) by {
        assert(adjacentes(c, q));
        lemme_atteint_monotone(f, occ, seq![depart], (k - 1) as nat, dc, q);
        assert(carte.contains_key(q));
        lemme_distance_unique(f, occ, seq![depart], q, (k - 1) as nat, carte[q] as nat);
        if q == voisin(c, 0) {
            assert(carte.contains_key(voisin(c, 0)));
        } else if q == voisin(c, 1) {
            assert(carte.contains_key(voisin(c, 1)));
        } else if q == voisin(c, 2) {
            assert(carte.contains_key(voisin(c, 2)));
        } else {
            assert(carte.contains_key(voisin(c, 3)));
        }
    }
}

/// Walks back from `cible`, at exact distance `k`, to the start, taking at
/// each step the step back of `pas_en_arriere`.
fn reconstruire_chemin<F: Fn(Cellule) -> TerrainCell>(
    f: &F,
    occupees: &EnsembleCellules,
    depart: Cellule,
    Ghost(l): Ghost<int>,
    Ghost(dc): Ghost<nat>,
    carte: &CarteDistances,
    cible: Cellule,
    k: i32,
    objectifs: &[Cellule],
) -> (ch: Vec<Cellule>)
    requires
        objectifs@.len() > 0,
        0 <= k <= dc <= l,
        dans_marge(depart, l),
        forall|c: Cellule| #[trigger]
            carte@.contains_key(c) <==> atteint(f, occupees@, seq![depart], dc, c),
        forall|c: Cellule| #[trigger]
            carte@.contains_key(c) ==> 0 <= carte@[c] && distance_exacte(
                f,
                occupees@,
                seq![depart],
                c,
                carte@[c] as nat,
            ),
        distance_exacte(f, occupees@, seq![depart], cible, k as nat),
    ensures
        chemin_exact(f, occupees@, depart, ch@),
        chemin_retenu(f, occupees@, depart, ensemble_de(objectifs@), ch@),
        ch@.len() == k + 1,
        ch@[k as int] == cible,
{
    let ghost occ = occupees@;
    let ghost orig = seq![depart];
    let ghost buts = ensemble_de(objectifs@);
    assert(origines_bornees(orig, l));
    let mut rev: Vec<Cellule> = Vec::new();
    rev.push(cible);
    let mut cur = cible;
    let mut kk: i32 = k;
    while kk > 0
        invariant
            0 <= kk <= k <= dc <= l,
            origines_bornees(orig, l),
            orig == seq![depart],
            occ == occupees@,
            forall|c: Cellule| #[trigger]
                carte@.contains_key(c) <==> atteint(f, occ, orig, dc, c),
            forall|c: Cellule| #[trigger]
                carte@.contains_key(c) ==> 0 <= carte@[c] && distance_exacte(f, occ, orig, c, carte@[c] as nat),
            rev@.len() == k - kk + 1,
            rev@[rev@.len() - 1] == cur,
            rev@[0] == cible,
            distance_exacte(f, occ, orig, cur, kk as nat),
            forall|j: int|
                0 <= j < rev@.len() ==> #[trigger] distance_exacte(f, occ, orig, rev@[j], (k - j) as nat),
            forall|j: int| 0 <= j < rev@.len() - 1 ==> #[trigger] adjacentes(rev@[j + 1], rev@[j]),
            objectifs@.len() > 0,
            buts == ensemble_de(objectifs@),
            forall|j: int|
                0 <= j < rev@.len() - 1 ==> #[trigger] pas_arriere(
                    f,
                    occ,
                    depart,
                    buts,
                    rev@[j],
                    (k - j) as nat,
                    rev@[j + 1],
                ),
        decreases kk,
    {
        proof {
            lemme_atteint_borne(f, occ, orig, l, kk as nat, cur);
            lemme_voisins_adjacents(cur);
        }
        let ghost b = lemme_predecesseur(f, occ, orig, cur, (kk - 1) as nat);
        proof {
            lemme_atteint_monotone(f, occ, orig, (kk - 1) as nat, dc, b);
            assert(carte@.contains_key(b));
            lemme_distance_unique(f, occ, orig, b, (kk - 1) as nat, carte@[b] as nat);
            assert(adjacentes(cur, b));
        }
        let p: Cellule = match pas_en_arriere(carte, cur, kk, objectifs) {
            Some(p) => p,
            None => {
                proof {
                    assert(adjacentes(cur, b));
                    if b == voisin(cur, 0) {
                        assert(carte@.contains_key(voisin(cur, 0)));
                    } else if b == voisin(cur, 1) {
                        assert(carte@.contains_key(voisin(cur, 1)));
                    } else if b == voisin(cur, 2) {
                        assert(carte@.contains_key(voisin(cur, 2)));
                    } else {
                        assert(carte@.contains_key(voisin(cur, 3)));
                    }
                }
                cur
            },
        };
        proof {
            lemme_pas_arriere(f, occ, depart, buts, carte@, dc, cur, kk as nat, p);
            assert(carte@.contains_key(p) && carte@[p] == kk - 1);
            assert(adjacentes(p, cur));
        }
        rev.push(p);
        cur = p;
        kk = kk - 1;
    }
    let n = rev.len();
    let mut ch: Vec<Cellule> = Vec::new();
    let mut i: usize = 0;
    while i < n
        invariant
            n == rev@.len(),
            n == k + 1,
            i <= n,
            ch@.len() == i,
            forall|j: int| 0 <= j < i ==> ch@[j] == rev@[n - 1 - j],
        decreases n - i,
    {
        ch.push(rev[n - 1 - i]);
        i += 1;
    }
    proof {
        assert forall|j: int| 0 <= j < ch@.len() - 1 implies #[trigger] adjacentes(ch@[j], ch@[j + 1]) by {
            let jj = n - 2 - j;
            assert(adjacentes(rev@[jj + 1], rev@[jj]));
        }
        assert forall|j: int| 0 <= j < ch@.len() implies #[trigger] distance_exacte(f, occ, orig, ch@[j], j as nat) by {
            assert(distance_exacte(f, occ, orig, rev@[n - 1 - j], (k - (n - 1 - j)) as nat));
        }
        assert(distance_exacte(f, occ, orig, ch@[0], 0));
        assert(orig.contains(ch@[0]));
        assert forall|i: int| 1 <= i < ch@.len() implies #[trigger] pas_arriere(
            f,
            occ,
            depart,
            buts,
            ch@[i],
            i as nat,
            ch@[i - 1],
        ) by {
            let jj = n - 1 - i;
            assert(pas_arriere(f, occ, depart, buts, rev@[jj], (k - jj) as nat, rev@[jj + 1]));
        }
    }
    ch
}


/// A state of the A* search: a cell, the steps spent to reach it, and that
/// cost plus the taxicab distance to the nearest goal.
#[derive(Clone, Copy, Debug, PartialEq, Eq, Structural)]
struct EtatOuvert {
    position: Cellule,
    cout: i32,
    score_total: i64,
}

/// `a` leaves the open list before `b`: lower estimate, then lower cost,
/// then lower `x`, then lower `y`.
spec fn avant_etat(a: EtatOuvert, b: EtatOuvert) -> bool {
    a.score_total < b.score_total || (a.score_total == b.score_total && (a.cout < b.cout || (a.cout
        == b.cout && (a.position.x < b.position.x || (a.position.x == b.position.x
        && a.position.y < b.position.y)))))
}

fn passe_avant(a: EtatOuvert, b: EtatOuvert) -> (r: bool)
    ensures
        r == avant_etat(a, b),
{
    a.score_total < b.score_total || (a.score_total == b.score_total && (a.cout < b.cout || (a.cout
        == b.cout && (a.position.x < b.position.x || (a.position.x == b.position.x
        && a.position.y < b.position.y)))))
}

/// A binary heap in a sequence: no state leaves before its parent.
spec fn tas_ordonne(t: Seq<EtatOuvert>) -> bool {
    forall|k: int| 0 < k < t.len() ==> !avant_etat(#[trigger] t[k], t[(k - 1) / 2])
}

/// Exchanging two places keeps the same states.
proof fn lemme_echange(t: Seq<EtatOuvert>, i: int, j: int)
    requires
        0 <= i < t.len(),
        0 <= j < t.len(),
    ensures
        t.update(i, t[j]).update(j, t[i]).to_multiset() == t.to_multiset(),
{
    broadcast use {
        vstd::seq_lib::group_to_multiset_ensures,
        vstd::multiset::group_multiset_axioms,
        vstd::multiset::group_multiset_properties,
    };

    assert(t.update(i, t[j]).update(j, t[i]).to_multiset() =~= t.to_multiset());
}

/// The first state of a heap leaves no later than any other.
proof fn lemme_racine_minimale(t: Seq<EtatOuvert>, k: int)
    requires
        tas_ordonne(t),
        0 <= k < t.len(),
    ensures
        !avant_etat(t[k], t[0]),
    decreases k,
{
    if k > 0 {
        let p = (k - 1) / 2;
        lemme_racine_minimale(t, p);
        assert(!avant_etat(t[k], t[p]));
    }
}

/// Adds `e` to the binary heap `tas`.
fn tas_pousser(tas: &mut Vec<EtatOuvert>, e: EtatOuvert)
    requires
        tas_ordonne(old(tas)@),
    ensures
        tas_ordonne(final(tas)@),
        final(tas)@.to_multiset() == old(tas)@.to_multiset().insert(e),
{
    broadcast use vstd::seq_lib::group_to_multiset_ensures;

    let ghost depart = tas@;
    tas.push(e);
    let n = tas.len();
    let mut i: usize = n - 1;
    while i > 0 && passe_avant(tas[i], tas[(i - 1) / 2])
        invariant
            tas@.len() == n,
            i < n,
            tas@.to_multiset() == depart.to_multiset().insert(e),
            forall|k: int|
                0 < k < n && k != i ==> !avant_etat(#[trigger] tas@[k], tas@[(k - 1) / 2]),
            i > 0 ==> forall|k: int|
                0 < k < n && (k - 1) / 2 == i ==> !avant_etat(#[trigger] tas@[k], tas@[(i - 1) / 2]),
        decreases i,
    {
        let parent = (i - 1) / 2;
        let (a, b) = (tas[i], tas[parent]);
        let ghost t = tas@;
        tas.set(i, b);
        tas.set(parent, a);
        proof {
            lemme_echange(t, i as int, parent as int);
            assert(tas@ == t.update(i as int, t[parent as int]).update(parent as int, t[i as int]));
            assert forall|k: int|
                0 < k < n && k != parent ==> !avant_etat(#[trigger] tas@[k], tas@[(k - 1) / 2]) by {
                if 0 < k < n && k != parent {
                    if k == i {
                    } else if (k - 1) / 2 == i {
                        assert(!avant_etat(t[k], t[(i - 1) / 2]));
                    } else if (k - 1) / 2 == parent {
                        assert(!avant_etat(t[k], t[parent as int]));
                    } else {
                        assert(!avant_etat(t[k], t[(k - 1) / 2]));
                    }
                }
            }
            if parent > 0 {
                assert forall|k: int|
                    0 < k < n && (k - 1) / 2 == parent ==> !avant_etat(
                        #[trigger] tas@[k],
                        tas@[(parent - 1) / 2],
                    ) by {
                    if 0 < k < n && (k - 1) / 2 == parent {
                        assert(!avant_etat(t[parent as int], t[(parent - 1) / 2]));
                        if k != i {
                            assert(!avant_etat(t[k], t[parent as int]));
                        }
                    }
                }
            }
        }
        i = parent;
    }
}

/// Takes a first state out of the binary heap `tas`: one that no other
/// state of the heap leaves before.
fn tas_extraire(tas: &mut Vec<EtatOuvert>) -> (r: Option<EtatOuvert>)
    requires
        tas_ordonne(old(tas)@),
    ensures
        r is None <==> old(tas)@.len() == 0,
        tas_ordonne(final(tas)@),
        r matches Some(m) ==> {
            &&& final(tas)@.to_multiset().insert(m) == old(tas)@.to_multiset()
            &&& forall|k: int| 0 <= k < old(tas)@.len() ==> !avant_etat(#[trigger] old(tas)@[k], m)
        },
{
    broadcast use {
        vstd::seq_lib::group_to_multiset_ensures,
        vstd::multiset::group_multiset_axioms,
        vstd::multiset::group_multiset_properties,
    };

    if tas.len() == 0 {
        return None;
    }
    let ghost depart = tas@;
    proof {
        assert forall|k: int| 0 <= k < depart.len() implies !avant_etat(#[trigger] depart[k], depart[0]) by {
            lemme_racine_minimale(depart, k);
        }
    }
    let dernier = tas.pop().unwrap();
    proof {
        assert(depart =~= tas@.push(dernier));
    }
    if tas.len() == 0 {
        return Some(dernier);
    }
    let sommet = tas[0];
    let ghost avant_mise = tas@;
    tas.set(0, dernier);
    proof {
        assert(sommet == depart[0]);
        assert(tas@.to_multiset().insert(sommet) =~= depart.to_multiset());
    }
    let n = tas.len();
    let mut i: usize = 0;
    let mut fini = false;
    while !fini && i < n / 2
        invariant
            tas@.len() == n,
            i < n,
            tas@.to_multiset().insert(sommet) == depart.to_multiset(),
            forall|k: int|
                0 < k < n && (k - 1) / 2 != i ==> !avant_etat(#[trigger] tas@[k], tas@[(k - 1) / 2]),
            i > 0 ==> forall|k: int|
                0 < k < n && (k - 1) / 2 == i ==> !avant_etat(#[trigger] tas@[k], tas@[(i - 1) / 2]),
            fini ==> forall|k: int|
                0 < k < n && (k - 1) / 2 == i ==> !avant_etat(#[trigger] tas@[k], tas@[i as int]),
        decreases (n - i) * 2 + (if fini { 0int } else { 1int }),
    {
        let g = 2 * i + 1;
        let d = g + 1;
        let m = if d < n && passe_avant(tas[d], tas[g]) {
            d
        } else {
            g
        };
        let (a, b) = (tas[m], tas[i]);
        if passe_avant(a, b) {
            let ghost t = tas@;
            tas.set(m, b);
            tas.set(i, a);
            proof {
                lemme_echange(t, m as int, i as int);
                assert(tas@ == t.update(m as int, t[i as int]).update(i as int, t[m as int]));
                assert forall|k: int|
                    0 < k < n && (k - 1) / 2 != m ==> !avant_etat(#[trigger] tas@[k], tas@[(k - 1) / 2]) by {
                    if 0 < k < n && (k - 1) / 2 != m {
                        if k == m {
                        } else if (k - 1) / 2 == i {
                            assert(k == g || k == d);
                        } else if k == i {
                            assert(!avant_etat(t[m as int], t[(i - 1) / 2]));
                        } else {
                            assert(!avant_etat(t[k], t[(k - 1) / 2]));
                        }
                    }
                }
                assert forall|k: int|
                    0 < k < n && (k - 1) / 2 == m ==> !avant_etat(#[trigger] tas@[k], tas@[(m - 1) / 2]) by {
                    if 0 < k < n && (k - 1) / 2 == m {
                        assert(!avant_etat(t[k], t[m as int]));
                    }
                }
            }
            i = m;
        } else {
            proof {
                assert forall|k: int|
                    0 < k < n && (k - 1) / 2 == i implies !avant_etat(#[trigger] tas@[k], tas@[i as int]) by {
                    assert(k == g || k == d);
                }
            }
            fini = true;
        }
    }
    proof {
        assert forall|k: int| 0 < k < n implies !avant_etat(#[trigger] tas@[k], tas@[(k - 1) / 2]) by {
            if (k - 1) / 2 == i {
                if !fini {
                    assert(2 * i + 1 >= n);
                }
            }
        }
        assert(tas_ordonne(tas@));
        assert forall|k: int| 0 <= k < depart.len() implies !avant_etat(#[trigger] depart[k], sommet) by {
            assert(!avant_etat(depart[k], depart[0]));
        }
    }
    Some(sommet)
}

/// Taxicab distance from `c` to the nearest goal (0 without goals).
fn heuristique(c: Cellule, objectifs: &[Cellule]) -> (h: i64)
    ensures
        0 <= h <= 0x2_0000_0000,
        objectifs@.len() > 0 ==> h == eloignement(c, ensemble_de(objectifs@)),
{
    let mut meilleur: i64 = 0;
    let mut i: usize = 0;
    let ghost mut arg: int = 0;
    while i < objectifs.len()
        invariant
            i <= objectifs@.len(),
            0 <= meilleur <= 0x2_0000_0000,
            i > 0 ==> 0 <= arg < i && meilleur == manhattan(c, objectifs@[arg]),
            forall|j: int| 0 <= j < i ==> meilleur <= manhattan(c, #[trigger] objectifs@[j]),
        decreases objectifs@.len() - i,
    {
        let d = distance_manhattan(c, objectifs[i]);
        if i == 0 || d < meilleur {
            meilleur = d;
            proof {
                arg = i as int;
            }
        }
        i += 1;
    }
    proof {
        if objectifs@.len() > 0 {
            let buts = ensemble_de(objectifs@);
            let g = objectifs@[arg];
            assert(objectifs@.contains(g));
            assert forall|h: Cellule| #[trigger] buts.contains(h) implies manhattan(c, g) <= manhattan(
                c,
                h,
            ) by {
                let j = choose|j: int| 0 <= j < objectifs@.len() && objectifs@[j] == h;
                assert(meilleur <= manhattan(c, objectifs@[j]));
            }
            lemme_eloignement(c, buts, g);
        }
    }
    meilleur
}

/// The walk from `depart` to `c` that the predecessor links `parents` give,
/// read back from `c` in at most `n` links; none when a link is missing or
/// `depart` is not met within `n` links.
pub open spec fn remontee(
    parents: Map<Cellule, Cellule>,
    depart: Cellule,
    c: Cellule,
    n: nat,
) -> Option<Seq<Cellule>>
    decreases n,
{
    if c == depart {
        Some(seq![c])
    } else if n == 0 || !parents.contains_key(c) {
        None
    } else {
        match remontee(parents, depart, parents[c], (n - 1) as nat) {
            Some(s) => Some(s.push(c)),
            None => None,
        }
    }
}

/// `r` with `t` appended to its walk.
pub open spec fn prolonger(r: Option<Seq<Cellule>>, t: Seq<Cellule>) -> Option<Seq<Cellule>> {
    match r {
        Some(s) => Some(s + t),
        None => None,
    }
}

/// A walk given by the predecessor links starts at `depart`, ends at `c`,
/// takes at most `n` steps, and each of its cells after the first is linked
/// to the one before it.
proof fn lemme_remontee(parents: Map<Cellule, Cellule>, depart: Cellule, c: Cellule, n: nat)
    requires
        remontee(parents, depart, c, n) is Some,
    ensures
        ({
            let s = remontee(parents, depart, c, n)->0;
            &&& 1 <= s.len() <= n + 1
            &&& s[0] == depart
            &&& s.last() == c
            &&& forall|i: int|
                0 <= i < s.len() - 1 ==> parents.contains_key(#[trigger] s[i + 1]) && parents[s[i
                    + 1]] == s[i]
        }),
    decreases n,
{
    if c != depart {
        lemme_remontee(parents, depart, parents[c], (n - 1) as nat);
        let t = remontee(parents, depart, parents[c], (n - 1) as nat)->0;
        let s = t.push(c);
        assert forall|i: int| 0 <= i < s.len() - 1 implies parents.contains_key(#[trigger] s[i + 1])
            && parents[s[i + 1]] == s[i] by {
            if i < t.len() - 1 {
                assert(s[i + 1] == t[i + 1] && s[i] == t[i]);
            }
        }
    }
}

/// Follows the recorded predecessors from `arrivee` back to `depart`, at
/// most `l` steps, and gives the walk in forward order.
fn remonter_parents(
    depart: Cellule,
    arrivee: Cellule,
    parents: &CarteCellules,
    l: i32,
) -> (r: Option<Vec<Cellule>>)
    requires
        0 <= l,
    ensures
        match remontee(parents@, depart, arrivee, l as nat) {
            Some(s) => r is Some && r->0@ == s,
            None => r is None,
        },
{
    let ghost p = parents@;
    let mut rev: Vec<Cellule> = Vec::new();
    rev.push(arrivee);
    let mut courant = arrivee;
    let mut pas: i32 = 0;
    let ghost mut suite: Seq<Cellule> = Seq::empty();
    while courant != depart && pas < l
        invariant
            0 <= pas <= l,
            p == parents@,
            remontee(p, depart, arrivee, l as nat) == prolonger(
                remontee(p, depart, courant, (l - pas) as nat),
                suite,
            ),
            rev@.len() == suite.len() + 1,
            forall|j: int|
                0 <= j < rev@.len() ==> #[trigger] rev@[j] == (seq![courant] + suite)[rev@.len() - 1
                    - j],
        decreases l - pas,
    {
        match parents.get(courant) {
            Some(q) => {
                let ghost m = (l - pas) as nat;
                proof {
                    assert(remontee(p, depart, courant, m) == match remontee(
                        p,
                        depart,
                        q,
                        (m - 1) as nat,
                    ) {
                        Some(s) => Some(s.push(courant)),
                        None => None,
                    });
                    match remontee(p, depart, q, (m - 1) as nat) {
                        Some(s) => {
                            assert(s.push(courant) + suite =~= s + (seq![courant] + suite));
                        },
                        None => {},
                    }
                }
                let ghost ancien = seq![courant] + suite;
                rev.push(q);
                courant = q;
                proof {
                    suite = ancien;
                    assert forall|j: int| 0 <= j < rev@.len() implies #[trigger] rev@[j] == (seq![
                        courant,
                    ] + suite)[rev@.len() - 1 - j] by {
                        if j < rev@.len() - 1 {
                            assert(rev@[j] == ancien[rev@.len() - 2 - j]);
                        }
                    }
                }
            },
            None => {
                return None;
            },
        }
        pas += 1;
    }
    if courant != depart {
        return None;
    }
    let n = rev.len();
    let mut ch: Vec<Cellule> = Vec::new();
    let mut i: usize = 0;
    while i < n
        invariant
            n == rev@.len(),
            i <= n,
            ch@.len() == i,
            forall|j: int| 0 <= j < i ==> ch@[j] == rev@[n - 1 - j],
        decreases n - i,
    {
        ch.push(rev[n - 1 - i]);
        i += 1;
    }
    proof {
        assert(ch@ =~= seq![depart] + suite) by {
            assert forall|j: int| 0 <= j < ch@.len() implies ch@[j] == (seq![depart] + suite)[j] by {
                assert(rev@[n - 1 - j] == (seq![courant] + suite)[n - 1 - (n - 1 - j)]);
            }
        }
    }
    Some(ch)
}

/// The A* search towards the goals, in the order of `passe_avant`, stepping
/// on free walkable cells within `l` steps; the walk it finds runs from the
/// start through free cells to a goal. Its caller checks that walk against
/// the distance map before using it.
fn a_etoile<F: Fn(Cellule) -> TerrainCell>(
    depart: Cellule,
    objectifs: &[Cellule],
    buts: &EnsembleCellules,
    cellules_occupees: &EnsembleCellules,
    l: i32,
    terrain_at: &F,
) -> (r: Option<Vec<Cellule>>)
    requires
        oracle_terrain(terrain_at),
        0 <= l,
    ensures
        r matches Some(ch) ==> {
            &&& 1 <= ch@.len() <= l + 1
            &&& ch@[0] == depart
            &&& buts@.contains(ch@.last())
            &&& forall|i: int| 0 <= i < ch@.len() - 1 ==> #[trigger] adjacentes(ch@[i], ch@[i + 1])
            &&& forall|i: int| 1 <= i < ch@.len() ==> #[trigger] libre(terrain_at, cellules_occupees@, ch@[i])
        },
{
    let mut tas: Vec<EtatOuvert> = Vec::new();
    let mut meilleurs = CarteDistances::new();
    let mut parents = CarteCellules::new();
    meilleurs.inserer(depart, 0);
    tas_pousser(
        &mut tas,
        EtatOuvert { position: depart, cout: 0, score_total: heuristique(depart, objectifs) },
    );
    // Each state is pushed on a strict improvement of its cell's cost, far
    // fewer than 2^64 times; the budget only makes the loop's end checkable.
    let mut budget: u64 = u64::MAX;
    while budget > 0
        invariant
            oracle_terrain(terrain_at),
            0 <= l,
            tas_ordonne(tas@),
            forall|v: Cellule| #[trigger]
                parents@.contains_key(v) ==> adjacentes(parents@[v], v) && libre(
                    terrain_at,
                    cellules_occupees@,
                    v,
                ),
        decreases budget,
    {
        budget -= 1;
        let etat = match tas_extraire(&mut tas) {
            Some(e) => e,
            None => {
                return None;
            },
        };
        let pos = etat.position;
        if buts.contient(pos) {
            let r = remonter_parents(depart, pos, &parents, l);
            proof {
                if r is Some {
                    lemme_remontee(parents@, depart, pos, l as nat);
                    let ch = r->0@;
                    assert forall|i: int| 0 <= i < ch.len() - 1 implies #[trigger] adjacentes(
                        ch[i],
                        ch[i + 1],
                    ) by {
                        assert(parents@.contains_key(ch[i + 1]));
                    }
                    assert forall|i: int| 1 <= i < ch.len() implies #[trigger] libre(
                        terrain_at,
                        cellules_occupees@,
                        ch[i],
                    ) by {
                        let j = i - 1;
                        assert(parents@.contains_key(ch[j + 1]));
                    }
                }
            }
            return r;
        }
        let meilleur = match meilleurs.get(pos) {
            Some(v) => v,
            None => i32::MAX,
        };
        if etat.cout > meilleur || etat.cout >= l || etat.cout < 0 || pos.x == i32::MIN || pos.x
            == i32::MAX || pos.y == i32::MIN || pos.y == i32::MAX {
            continue;
        }
        let vs = voisins_cardinaux(pos);
        let mut k: usize = 0;
        while k < 4
            invariant
                oracle_terrain(terrain_at),
                0 <= etat.cout < l,
                tas_ordonne(tas@),
                interieure(pos),
                forall|kk: int| 0 <= kk < 4 ==> #[trigger] vs@[kk] == voisin(pos, kk),
                forall|v: Cellule| #[trigger]
                    parents@.contains_key(v) ==> adjacentes(parents@[v], v) && libre(
                        terrain_at,
                        cellules_occupees@,
                        v,
                    ),
            decreases 4 - k,
        {
            let v = vs[k];
            if !cellules_occupees.contient(v) && terrain_est_marchable(&lire_terrain(terrain_at, v)) {
                let nouveau: i32 = etat.cout + 1;
                let actuel = match meilleurs.get(v) {
                    Some(c) => c,
                    None => i32::MAX,
                };
                if nouveau < actuel {
                    proof {
                        lemme_voisins_adjacents(pos);
                        assert(v == voisin(pos, k as int));
                        assert(adjacentes(pos, v));
                        assert(libre(terrain_at, cellules_occupees@, v));
                    }
                    parents.inserer(v, pos);
                    meilleurs.inserer(v, nouveau);
                    tas_pousser(
                        &mut tas,
                        EtatOuvert {
                            position: v,
                            cout: nouveau,
                            score_total: nouveau as i64 + heuristique(v, objectifs),
                        },
                    );
                }
            }
            k += 1;
        }
    }
    None
}

/// `ch` is the walk of `k` steps from `depart` to `cible` that
/// `chemin_exact` and `chemin_retenu` describe.
pub open spec fn chemin_attendu<F: Fn(Cellule) -> TerrainCell>(
    f: &F,
    occ: Set<Cellule>,
    depart: Cellule,
    buts: Set<Cellule>,
    ch: Seq<Cellule>,
    k: int,
    cible: Cellule,
) -> bool {
    &&& chemin_exact(f, occ, depart, ch)
    &&& chemin_retenu(f, occ, depart, buts, ch)
    &&& ch.len() == k + 1
    &&& ch[k] == cible
}

/// A cell at exact distance `j <= dc` lies in a map of the cells reached in
/// `dc` steps, with `j` as its value.
proof fn lemme_dans_carte<F: Fn(Cellule) -> TerrainCell>(
    f: &F,
    occ: Set<Cellule>,
    depart: Cellule,
    carte: Map<Cellule, i32>,
    dc: nat,
    c: Cellule,
    j: nat,
)
    requires
        j <= dc,
        distance_exacte(f, occ, seq![depart], c, j),
        forall|x: Cellule| #[trigger] carte.contains_key(x) <==> atteint(f, occ, seq![depart], dc, x),
        forall|x: Cellule| #[trigger]
            carte.contains_key(x) ==> 0 <= carte[x] && distance_exacte(
                f,
                occ,
                seq![depart],
                x,
                carte[x] as nat,
            ),
    ensures
        carte.contains_key(c),
        carte[c] == j,
{
    lemme_atteint_monotone(f, occ, seq![depart], j, dc, c);
    assert(carte.contains_key(c));
    lemme_distance_unique(f, occ, seq![depart], c, j, carte[c] as nat);
}

/// Whether `ch` is a walk from `depart` to `cible` of `k` steps whose `i`-th
/// cell lies at distance `i` in the distance map, each of its steps back
/// being the one `pas_en_arriere` takes.
fn chemin_conforme<F: Fn(Cellule) -> TerrainCell>(
    f: &F,
    occupees: &EnsembleCellules,
    depart: Cellule,
    Ghost(l): Ghost<int>,
    Ghost(dc): Ghost<nat>,
    carte: &CarteDistances,
    cible: Cellule,
    k: i32,
    ch: &Vec<Cellule>,
    objectifs: &[Cellule],
) -> (r: bool)
    requires
        objectifs@.len() > 0,
        0 <= k <= dc <= l,
        dans_marge(depart, l),
        forall|c: Cellule| #[trigger]
            carte@.contains_key(c) <==> atteint(f, occupees@, seq![depart], dc, c),
        forall|c: Cellule| #[trigger]
            carte@.contains_key(c) ==> 0 <= carte@[c] && distance_exacte(
                f,
                occupees@,
                seq![depart],
                c,
                carte@[c] as nat,
            ),
    ensures
        r <==> chemin_attendu(f, occupees@, depart, ensemble_de(objectifs@), ch@, k as int, cible),
{
    let ghost occ = occupees@;
    let ghost orig = seq![depart];
    let ghost buts = ensemble_de(objectifs@);
    assert(origines_bornees(orig, l));
    let n = ch.len();
    if n != k as usize + 1 || ch[0] != depart || ch[k as usize] != cible {
        return false;
    }
    let mut i: usize = 0;
    while i < n
        invariant
            n == ch@.len(),
            n == k + 1,
            0 <= k <= dc <= l,
            i <= n,
            objectifs@.len() > 0,
            occ == occupees@,
            orig == seq![depart],
            buts == ensemble_de(objectifs@),
            origines_bornees(orig, l),
            forall|c: Cellule| #[trigger] carte@.contains_key(c) <==> atteint(f, occ, orig, dc, c),
            forall|c: Cellule| #[trigger]
                carte@.contains_key(c) ==> 0 <= carte@[c] && distance_exacte(
                    f,
                    occ,
                    orig,
                    c,
                    carte@[c] as nat,
                ),
            forall|j: int| 0 <= j < i ==> #[trigger] carte@.contains_key(ch@[j]) && carte@[ch@[j]] == j,
            forall|j: int| 0 <= j < i && j + 1 < n ==> #[trigger] adjacentes(ch@[j], ch@[j + 1]),
            forall|j: int|
                1 <= j < i ==> #[trigger] pas_arriere(f, occ, depart, buts, ch@[j], j as nat, ch@[j - 1]),
        decreases n - i,
    {
        let ii: i32 = i as i32;
        assert(ii == i);
        let c = ch[i];
        if !a_distance(carte, c, ii) {
            proof {
                if chemin_attendu(f, occ, depart, buts, ch@, k as int, cible) {
                    let ij = i as int;
                    assert(distance_exacte(f, occ, orig, ch@[ij], ij as nat));
                    lemme_dans_carte(f, occ, depart, carte@, dc, c, ij as nat);
                }
            }
            return false;
        }
        assert(c == ch@[i as int]);
        assert(carte@.contains_key(ch@[i as int]) && carte@[ch@[i as int]] == i);
        if i + 1 < n && distance_manhattan(ch[i], ch[i + 1]) != 1 {
            proof {
                if chemin_attendu(f, occ, depart, buts, ch@, k as int, cible) {
                    let ij = i as int;
                    assert(adjacentes(ch@[ij], ch@[ij + 1]));
                }
            }
            return false;
        }
        if i >= 1 {
            proof {
                lemme_atteint_borne(f, occ, orig, l, dc, c);
            }
            let ghost prec = ch@[i - 1];
            let trouve = pas_en_arriere(carte, c, ii, objectifs);
            proof {
                if chemin_attendu(f, occ, depart, buts, ch@, k as int, cible) {
                    let ij = i as int;
                    assert(pas_arriere(f, occ, depart, buts, ch@[ij], ij as nat, ch@[ij - 1]));
                    lemme_dans_carte(f, occ, depart, carte@, dc, prec, (ij - 1) as nat);
                    lemme_voisins_adjacents(c);
                    assert(adjacentes(c, prec));
                    let jp: int = if prec == voisin(c, 0) {
                        0
                    } else if prec == voisin(c, 1) {
                        1
                    } else if prec == voisin(c, 2) {
                        2
                    } else {
                        3
                    };
                    assert(carte@.contains_key(voisin(c, jp)));
                    match trouve {
                        Some(p) => {
                            assert(precede_retour(p, prec, buts));
                            let jq = choose|jq: int| 0 <= jq < 4 && p == voisin(c, jq);
                            assert(adjacentes(voisin(c, jq), c));
                            assert(distance_exacte(f, occ, orig, p, carte@[p] as nat));
                            assert(precede_retour(prec, p, buts));
                            assert(p == prec);
                        },
                        None => {},
                    }
                }
            }
            match trouve {
                Some(p) => {
                    if p != ch[i - 1] {
                        return false;
                    }
                    proof {
                        lemme_pas_arriere(f, occ, depart, buts, carte@, dc, c, i as nat, p);
                    }
                },
                None => {
                    return false;
                },
            }
        }
        assert forall|j: int| 0 <= j < i + 1 implies #[trigger] carte@.contains_key(ch@[j])
            && carte@[ch@[j]] == j by {}
        i += 1;
    }
    proof {
        assert forall|j: int| 0 <= j < ch@.len() implies #[trigger] distance_exacte(
            f,
            occupees@,
            seq![depart],
            ch@[j],
            j as nat,
        ) by {
            assert(carte@.contains_key(ch@[j]) && carte@[ch@[j]] == j);
        }
        assert forall|j: int| 0 <= j < ch@.len() - 1 implies #[trigger] adjacentes(
            ch@[j],
            ch@[j + 1],
        ) by {}
    }
    true
}

/// Some goal can be reached from `depart` within `l` steps.
pub open spec fn but_accessible<F: Fn(Cellule) -> TerrainCell>(
    f: &F,
    occ: Set<Cellule>,
    depart: Cellule,
    objectifs: Set<Cellule>,
    l: nat,
) -> bool {
    exists|g: Cellule| #[trigger] objectifs.contains(g) && atteint(f, occ, seq![depart], l, g)
}

/// What `trouver_chemin_vers_objectif` answers: nothing without goals; the
/// one-cell walk when it starts on a goal; otherwise a walk exactly when a
/// goal is within reach, and then the shortest walk to the retained goal
/// that `chemin_retenu` names.
pub open spec fn chemin_vers_objectif_correct<F: Fn(Cellule) -> TerrainCell>(
    f: &F,
    occ: Set<Cellule>,
    depart: Cellule,
    objectifs: Seq<Cellule>,
    limite_cout: i32,
    r: Option<CheminCellulaire>,
) -> bool {
    &&& objectifs.len() == 0 ==> r is None
    &&& objectifs.len() > 0 && objectifs.contains(depart) ==> r is Some && r->0.cellules@ == seq![
        depart,
    ] && r->0.cout == 0
    &&& objectifs.len() > 0 && !objectifs.contains(depart) ==> (r is Some <==> but_accessible(
        f,
        occ,
        depart,
        ensemble_de(objectifs),
        borne_limite(limite_cout) as nat,
    ))
    &&& objectifs.len() > 0 && !objectifs.contains(depart) && r is Some ==> {
        let ch = r->0;
        &&& chemin_exact(f, occ, depart, ch.cellules@)
        &&& chemin_retenu(f, occ, depart, ensemble_de(objectifs), ch.cellules@)
        &&& ch.cellules@.len() == ch.cout + 1
        &&& 1 <= ch.cout <= borne_limite(limite_cout)
        &&& but_retenu(
            f,
            occ,
            depart,
            ensemble_de(objectifs),
            ch.cellules@[ch.cout as int],
            ch.cout as nat,
        )
    }
}

/// The shortest walk from `depart` to the nearest of `objectifs`, within
/// `limite_cout` steps (a negative limit counts as zero), stepping only on
/// cells that are walkable and not occupied. When several goals are equally
/// near, the least in `(x, y)` order is chosen. Among the shortest walks to
/// it, the one taken is the walk the A* search leaves in its predecessor
/// links: read back from the goal, each step goes to the neighbour one step
/// nearer the start that lies nearest the goals as the taxicab flies, then
/// least in `(x, y)` order. A start that is itself a goal gives the one-cell
/// walk.
pub fn trouver_chemin_vers_objectif<F: Fn(Cellule) -> TerrainCell>(
    depart: Cellule,
    objectifs: &[Cellule],
    cellules_occupees: &EnsembleCellules,
    limite_cout: i32,
    terrain_at: &F,
) -> (r: Option<CheminCellulaire>)
    requires
        oracle_terrain(terrain_at),
        dans_marge(depart, borne_limite(limite_cout)),
    ensures
        objectifs@.len() == 0 ==> r is None,
        objectifs@.len() > 0 && objectifs@.contains(depart) ==> r is Some && r->0.cellules@ == seq![
            depart,
        ] && r->0.cout == 0,
        objectifs@.len() > 0 && !objectifs@.contains(depart) ==> (r is Some <==> but_accessible(
            terrain_at,
            cellules_occupees@,
            depart,
            ensemble_de(objectifs@),
            borne_limite(limite_cout) as nat,
        )),
        objectifs@.len() > 0 && !objectifs@.contains(depart) && r is Some ==> {
            let ch = r->0;
            &&& chemin_exact(terrain_at, cellules_occupees@, depart, ch.cellules@)
            &&& chemin_retenu(
                terrain_at,
                cellules_occupees@,
                depart,
                ensemble_de(objectifs@),
                ch.cellules@,
            )
            &&& ch.cellules@.len() == ch.cout + 1
            &&& 1 <= ch.cout <= borne_limite(limite_cout)
            &&& but_retenu(
                terrain_at,
                cellules_occupees@,
                depart,
                ensemble_de(objectifs@),
                ch.cellules@[ch.cout as int],
                ch.cout as nat,
            )
        },
{
    let ghost occ = cellules_occupees@;
    let ghost orig = seq![depart];
    let ghost obj = objectifs@;
    if objectifs.len() == 0 {
        return None;
    }
    let buts = EnsembleCellules::depuis_cellules(objectifs);
    if buts.contient(depart) {
        let mut cellules: Vec<Cellule> = Vec::new();
        cellules.push(depart);
        return Some(CheminCellulaire { cellules, cout: 0 });
    }
    if cellules_occupees.contient(depart) || !terrain_est_marchable(
        &lire_terrain(terrain_at, depart),
    ) {
        proof {
            assert forall|g: Cellule| #[trigger] obj.contains(g) implies !atteint(
                terrain_at,
                occ,
                orig,
                borne_limite(limite_cout) as nat,
                g,
            ) by {
                if atteint(terrain_at, occ, orig, borne_limite(limite_cout) as nat, g) {
                    lemme_origine_libre(terrain_at, occ, depart, borne_limite(limite_cout) as nat, g);
                }
            }
        }
        return None;
    }
    let l: i32 = if limite_cout < 0 {
        0
    } else {
        limite_cout
    };
    let mut carte = CarteDistances::new();
    carte.inserer(depart, 0);
    let mut front: Vec<Cellule> = Vec::new();
    front.push(depart);
    proof {
        assert(orig.contains(depart)) by {
            assert(orig[0] == depart);
        }
        assert forall|c: Cellule| #[trigger] carte@.contains_key(c) <==> atteint(
            terrain_at,
            occ,
            orig,
            0,
            c,
        ) by {
            if orig.contains(c) {
                let j = choose|j: int| 0 <= j < orig.len() && orig[j] == c;
                assert(c == depart);
            }
        }
        assert forall|c: Cellule| #[trigger] front@.contains(c) <==> distance_exacte(
            terrain_at,
            occ,
            orig,
            c,
            0,
        ) by {
            if front@.contains(c) {
                let j = choose|j: int| 0 <= j < front@.len() && front@[j] == c;
                assert(c == depart);
            }
            if c == depart {
                assert(front@[0] == c);
            }
        }
        assert forall|i: int| 0 <= i < orig.len() implies dans_marge(#[trigger] orig[i], l as int) by {
        }
        assert forall|g: Cellule| #[trigger] obj.contains(g) implies !atteint(
            terrain_at,
            occ,
            orig,
            0,
            g,
        ) by {
            if atteint(terrain_at, occ, orig, 0, g) {
                let j = choose|j: int| 0 <= j < orig.len() && orig[j] == g;
                assert(g == depart);
            }
        }
    }
    let mut d: i32 = 0;
    while d < l && front.len() > 0
        invariant
            oracle_terrain(terrain_at),
            occ == cellules_occupees@,
            orig == seq![depart],
            obj == objectifs@,
            obj.len() > 0,
            !obj.contains(depart),
            forall|c: Cellule| #[trigger] buts@.contains(c) <==> obj.contains(c),
            l == borne_limite(limite_cout),
            dans_marge(depart, l as int),
            origines_bornees(orig, l as int),
            0 <= d <= l,
            etat_couche(terrain_at, occ, orig, d as nat, carte@, front@),
            forall|g: Cellule| #[trigger] obj.contains(g) ==> !atteint(terrain_at, occ, orig, d as nat, g),
        decreases l - d,
    {
        let suivante = etendre_couche(
            terrain_at,
            cellules_occupees,
            Ghost(orig),
            Ghost(l as int),
            d,
            &front,
            &mut carte,
        );
        let mut meilleur: Option<Cellule> = None;
        let mut j: usize = 0;
        while j < suivante.len()
            invariant
                j <= suivante@.len(),
                forall|c: Cellule| #[trigger] buts@.contains(c) <==> obj.contains(c),
                match meilleur {
                    Some(g) => obj.contains(g) && suivante@.contains(g) && forall|jj: int|
                        0 <= jj < j && obj.contains(#[trigger] suivante@[jj]) ==> avant_xy(
                            g,
                            suivante@[jj],
                        ),
                    None => forall|jj: int| 0 <= jj < j ==> !obj.contains(#[trigger] suivante@[jj]),
                },
            decreases suivante@.len() - j,
        {
            let c = suivante[j];
            if buts.contient(c) {
                let remplacer = match meilleur {
                    Some(g) => c.x < g.x || (c.x == g.x && c.y < g.y),
                    None => true,
                };
                if remplacer {
                    meilleur = Some(c);
                    proof {
                        assert(suivante@[j as int] == c);
                    }
                }
            }
            j += 1;
        }
        match meilleur {
            Some(g) => {
                proof {
                    assert forall|h: Cellule|
                        #![trigger obj.contains(h)]
                        obj.contains(h) && distance_exacte(
                            terrain_at,
                            occ,
                            orig,
                            h,
                            (d + 1) as nat,
                        ) implies avant_xy(g, h) by {
                        assert(suivante@.contains(h));
                        let jj = choose|jj: int| 0 <= jj < suivante@.len() && suivante@[jj] == h;
                        assert(obj.contains(suivante@[jj]));
                    }
                    assert forall|c: Cellule| #[trigger] carte@.contains_key(c) implies 0 <= carte@[c] by {}
                    lemme_atteint_monotone(terrain_at, occ, orig, (d + 1) as nat, l as nat, g);
                    assert(obj.contains(g));
                    assert(ensemble_de(obj).contains(g));
                    assert(but_accessible(terrain_at, occ, depart, ensemble_de(obj), l as nat));
                }
                // The search's walk is kept when it checks out against the
                // distance map; otherwise the walk `chemin_retenu` names is
                // rebuilt from the map.
                let trouve = a_etoile(depart, objectifs, &buts, cellules_occupees, l, terrain_at);
                let conforme = match &trouve {
                    Some(ch) => chemin_conforme(
                        terrain_at,
                        cellules_occupees,
                        depart,
                        Ghost(l as int),
                        Ghost((d + 1) as nat),
                        &carte,
                        g,
                        d + 1,
                        ch,
                        objectifs,
                    ),
                    None => false,
                };
                let cellules = match trouve {
                    Some(ch) if conforme => ch,
                    _ => reconstruire_chemin(
                        terrain_at,
                        cellules_occupees,
                        depart,
                        Ghost(l as int),
                        Ghost((d + 1) as nat),
                        &carte,
                        g,
                        d + 1,
                        objectifs,
                    ),
                };
                return Some(CheminCellulaire { cellules, cout: d + 1 });
            },
            None => {
                proof {
                    assert forall|g: Cellule| #[trigger] obj.contains(g) implies !atteint(
                        terrain_at,
                        occ,
                        orig,
                        (d + 1) as nat,
                        g,
                    ) by {
                        if atteint(terrain_at, occ, orig, (d + 1) as nat, g) {
                            assert(suivante@.contains(g));
                            let jj = choose|jj: int| 0 <= jj < suivante@.len() && suivante@[jj] == g;
                            assert(!obj.contains(suivante@[jj]));
                        }
                    }
                }
            },
        }
        front = suivante;
        d += 1;
    }
    proof {
        assert forall|g: Cellule| #[trigger] obj.contains(g) implies !atteint(
            terrain_at,
            occ,
            orig,
            l as nat,
            g,
        ) by {
            if d < l && atteint(terrain_at, occ, orig, l as nat, g) {
                assert forall|x: Cellule| !#[trigger] distance_exacte(terrain_at, occ, orig, x, d as nat) by {
                    if distance_exacte(terrain_at, occ, orig, x, d as nat) {
                        assert(front@.contains(x));
                    }
                }
                lemme_couche_vide(terrain_at, occ, orig, d as nat, l as nat, g);
                lemme_atteint_monotone(terrain_at, occ, orig, (d - 1) as nat, d as nat, g);
            }
        }
    }
    None
}

/// The shortest walk from `depart` to `arrivee` within `limite_cout` steps;
/// `trouver_chemin_vers_objectif` says which one.
pub fn trouver_chemin_a_star<F: Fn(Cellule) -> TerrainCell>(
    depart: Cellule,
    arrivee: Cellule,
    cellules_occupees: &EnsembleCellules,
    limite_cout: i32,
    terrain_at: &F,
) -> (r: Option<CheminCellulaire>)
    requires
        oracle_terrain(terrain_at),
        dans_marge(depart, borne_limite(limite_cout)),
    ensures
        depart == arrivee ==> r is Some && r->0.cellules@ == seq![depart] && r->0.cout == 0,
        depart != arrivee ==> (r is Some <==> atteint(
            terrain_at,
            cellules_occupees@,
            seq![depart],
            borne_limite(limite_cout) as nat,
            arrivee,
        )),
        depart != arrivee && r is Some ==> {
            let ch = r->0;
            &&& chemin_exact(terrain_at, cellules_occupees@, depart, ch.cellules@)
            &&& chemin_retenu(terrain_at, cellules_occupees@, depart, set![arrivee], ch.cellules@)
            &&& ch.cellules@.len() == ch.cout + 1
            &&& 1 <= ch.cout <= borne_limite(limite_cout)
            &&& ch.cellules@[ch.cout as int] == arrivee
        },
{
    let objectifs = [arrivee];
    let r = trouver_chemin_vers_objectif(depart, &objectifs, cellules_occupees, limite_cout, terrain_at);
    proof {
        assert(objectifs@.contains(arrivee)) by {
            assert(objectifs@[0] == arrivee);
        }
        assert forall|g: Cellule| #[trigger] objectifs@.contains(g) implies g == arrivee by {
            let j = choose|j: int| 0 <= j < objectifs@.len() && objectifs@[j] == g;
        }
        let e = ensemble_de(objectifs@);
        assert(e.contains(arrivee));
        assert(e =~= set![arrivee]);
        if depart != arrivee {
            let l = borne_limite(limite_cout) as nat;
            if atteint(terrain_at, cellules_occupees@, seq![depart], l, arrivee) {
                assert(but_accessible(terrain_at, cellules_occupees@, depart, e, l));
            }
            if but_accessible(terrain_at, cellules_occupees@, depart, e, l) {
                let g = choose|g: Cellule| #[trigger] e.contains(g) && atteint(terrain_at, cellules_occupees@, seq![depart], l, g);
                assert(objectifs@.contains(g));
            }
            if r is Some {
                let ch = r->0;
                assert(e.contains(ch.cellules@[ch.cout as int]));
                assert(objectifs@.contains(ch.cellules@[ch.cout as int]));
            }
        }
    }
    r
}

proof fn lemme_recul_identique<F: Fn(Cellule) -> TerrainCell>(
    f: &F,
    occ: Set<Cellule>,
    depart: Cellule,
    buts: Set<Cellule>,
    a: Seq<Cellule>,
    b: Seq<Cellule>,
    k: int,
    i: int,
)
    requires
        0 <= i <= k,
        a.len() == k + 1,
        b.len() == k + 1,
        chemin_retenu(f, occ, depart, buts, a),
        chemin_retenu(f, occ, depart, buts, b),
        forall|j: int| i <= j <= k ==> a[j] == b[j],
    ensures
        forall|j: int| 0 <= j <= k ==> a[j] == b[j],
    decreases i,
{
    if i > 0 {
        assert(pas_arriere(f, occ, depart, buts, a[i], i as nat, a[i - 1]));
        assert(pas_arriere(f, occ, depart, buts, b[i], i as nat, b[i - 1]));
        assert(precede_retour(a[i - 1], b[i - 1], buts));
        assert(precede_retour(b[i - 1], a[i - 1], buts));
        lemme_recul_identique(f, occ, depart, buts, a, b, k, i - 1);
    }
}

/// The walk is fixed by the terrain, the occupied cells, the start, the
/// goals and the limit alone: two answers that both meet
/// `chemin_vers_objectif_correct` are the same answer.
pub proof fn loi_chemin_determine<F: Fn(Cellule) -> TerrainCell>(
    f: &F,
    occ: Set<Cellule>,
    depart: Cellule,
    objectifs: Seq<Cellule>,
    limite: i32,
    r1: Option<CheminCellulaire>,
    r2: Option<CheminCellulaire>,
)
    requires
        chemin_vers_objectif_correct(f, occ, depart, objectifs, limite, r1),
        chemin_vers_objectif_correct(f, occ, depart, objectifs, limite, r2),
    ensures
        r1 is Some <==> r2 is Some,
        r1 is Some ==> r1->0.cout == r2->0.cout && r1->0.cellules@ == r2->0.cellules@,
{
    if r1 is Some && r2 is Some && objectifs.len() > 0 && !objectifs.contains(depart) {
        let c1 = r1->0;
        let c2 = r2->0;
        let buts = ensemble_de(objectifs);
        let g1 = c1.cellules@[c1.cout as int];
        let g2 = c2.cellules@[c2.cout as int];
        assert(buts.contains(g1) && buts.contains(g2));
        if c1.cout < c2.cout {
            lemme_atteint_monotone(f, occ, seq![depart], c1.cout as nat, (c2.cout - 1) as nat, g1);
        }
        if c2.cout < c1.cout {
            lemme_atteint_monotone(f, occ, seq![depart], c2.cout as nat, (c1.cout - 1) as nat, g2);
        }
        assert(g1 == g2);
        lemme_recul_identique(
            f,
            occ,
            depart,
            buts,
            c1.cellules@,
            c2.cellules@,
            c1.cout as int,
            c1.cout as int,
        );
        assert(c1.cellules@ =~= c2.cellules@);
    }
}

} // verus!
