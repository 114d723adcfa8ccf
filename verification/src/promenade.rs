//! Where a walker heads next: a walkable cell in a ring around the main
//! base, picked by a deterministic score so that each walk is reproducible.
use crate::grille::{Cellule, EnsembleCellules};
use crate::monde::{marchable, terrain_est_marchable, TerrainCell};
use crate::navigation::{lire_terrain, oracle_terrain, terrain_selon};
use crate::structures::{cote, dans_emprise, AstronautId, StructureState};
use std::collections::hash_map::DefaultHasher;
use std::hash::Hasher;
use vstd::prelude::*;
use vstd::std_specs::hash::DefaultHasherAdditionalSpecFns;

verus! {

/// What a walker is doing.
#[derive(Clone, Copy, Debug, PartialEq, Eq, Structural)]
pub enum EtatPromenade {
    Promenade,
    Pause,
    RetourAbri,
    Abri,
}

/// The name a walker's state is shown under.
pub open spec fn libelle_etat(etat: EtatPromenade) -> &'static str {
    match etat {
        EtatPromenade::Promenade => "promenade",
        EtatPromenade::Pause => "pause",
        EtatPromenade::RetourAbri => "retour",
        EtatPromenade::Abri => "abri",
    }
}

impl EtatPromenade {
    pub fn label(self) -> (r: &'static str)
        ensures
            r == libelle_etat(self),
    {
        match self {
            EtatPromenade::Promenade => "promenade",
            EtatPromenade::Pause => "pause",
            EtatPromenade::RetourAbri => "retour",
            EtatPromenade::Abri => "abri",
        }
    }
}

/// The little-endian bytes of a 64-bit word.
pub open spec fn octets_u64(v: u64) -> Seq<u8> {
    seq![
        (v & 0xff) as u8,
        ((v >> 8u64) & 0xff) as u8,
        ((v >> 16u64) & 0xff) as u8,
        ((v >> 24u64) & 0xff) as u8,
        ((v >> 32u64) & 0xff) as u8,
        ((v >> 40u64) & 0xff) as u8,
        ((v >> 48u64) & 0xff) as u8,
        ((v >> 56u64) & 0xff) as u8,
    ]
}

/// The little-endian bytes of a 32-bit word.
pub open spec fn octets_u32(v: u32) -> Seq<u8> {
    seq![
        (v & 0xff) as u8,
        ((v >> 8u32) & 0xff) as u8,
        ((v >> 16u32) & 0xff) as u8,
        ((v >> 24u32) & 0xff) as u8,
    ]
}

/// The score of a cell for a walker: the standard hasher fed with the seed,
/// the walker, its walk counter and the cell, each as one write of its bytes.
pub open spec fn score_cellule(graine: u64, id: AstronautId, compteur: u32, c: Cellule) -> u64 {
    DefaultHasher::spec_finish(
        seq![
            octets_u64(graine),
            octets_u32(id.0),
            octets_u32(compteur),
            octets_u32(c.x as u32),
            octets_u32(c.y as u32),
        ],
    )
}

pub(crate) fn ecrire_u64(h: &mut DefaultHasher, v: u64)
    ensures
        final(h)@ == old(h)@.push(octets_u64(v)),
{
    let b: [u8; 8] = [
        (v & 0xff) as u8,
        ((v >> 8u64) & 0xff) as u8,
        ((v >> 16u64) & 0xff) as u8,
        ((v >> 24u64) & 0xff) as u8,
        ((v >> 32u64) & 0xff) as u8,
        ((v >> 40u64) & 0xff) as u8,
        ((v >> 48u64) & 0xff) as u8,
        ((v >> 56u64) & 0xff) as u8,
    ];
    assert(b@ =~= octets_u64(v));
    h.write(b.as_slice());
}

pub(crate) fn ecrire_u32(h: &mut DefaultHasher, v: u32)
    ensures
        final(h)@ == old(h)@.push(octets_u32(v)),
{
    let b: [u8; 4] = [
        (v & 0xff) as u8,
        ((v >> 8u32) & 0xff) as u8,
        ((v >> 16u32) & 0xff) as u8,
        ((v >> 24u32) & 0xff) as u8,
    ];
    assert(b@ =~= octets_u32(v));
    h.write(b.as_slice());
}

/// The deterministic score of `cell` for the walker `id` on its walk number
/// `compteur`: the lowest score wins.
pub fn score_deterministe_cellule(graine: u64, id: AstronautId, compteur: u32, cell: Cellule) -> (r:
    u64)
    ensures
        r == score_cellule(graine, id, compteur, cell),
{
    let mut h = DefaultHasher::new();
    ecrire_u64(&mut h, graine);
    ecrire_u32(&mut h, id.0);
    ecrire_u32(&mut h, compteur);
    ecrire_u32(&mut h, cell.x as u32);
    ecrire_u32(&mut h, cell.y as u32);
    proof {
        assert(h@ =~= seq![
            octets_u64(graine),
            octets_u32(id.0),
            octets_u32(compteur),
            octets_u32(cell.x as u32),
            octets_u32(cell.y as u32),
        ]);
    }
    h.finish()
}

/// A built structure of the main network.
pub open spec fn principal(st: StructureState) -> bool {
    st.built && st.network_id == Some(0usize)
}

/// The cells under the built structures of the main network.
pub open spec fn occupes_principaux(s: Seq<StructureState>) -> Set<Cellule> {
    Set::new(
        |c: Cellule|
            exists|i: int|
                0 <= i < s.len() && principal(#[trigger] s[i]) && dans_emprise(
                    s[i].kind,
                    s[i].anchor,
                    c,
                ),
    )
}

/// The main base lies far enough from the edges of the grid for the walk
/// ring around it to be representable.
pub open spec fn base_loin_des_bords(s: Seq<StructureState>) -> bool {
    forall|i: int|
        0 <= i < s.len() && principal(#[trigger] s[i]) ==> i32::MIN + 18 <= s[i].anchor.x
            && i32::MIN + 18 <= s[i].anchor.y && s[i].anchor.x + cote(s[i].kind) - 1 <= i32::MAX
            - 18 && s[i].anchor.y + cote(s[i].kind) - 1 <= i32::MAX - 18
}

/// `[x0, x1] x [y0, y1]` is the least box holding every cell of `occ`.
pub open spec fn boite(occ: Set<Cellule>, x0: int, x1: int, y0: int, y1: int) -> bool {
    &&& forall|c: Cellule| #[trigger] occ.contains(c) ==> x0 <= c.x <= x1 && y0 <= c.y <= y1
    &&& exists|c: Cellule| #[trigger] occ.contains(c) && c.x == x0
    &&& exists|c: Cellule| #[trigger] occ.contains(c) && c.x == x1
    &&& exists|c: Cellule| #[trigger] occ.contains(c) && c.y == y0
    &&& exists|c: Cellule| #[trigger] occ.contains(c) && c.y == y1
}

/// How far `v` lies outside `[lo, hi]`.
pub open spec fn ecart(v: int, lo: int, hi: int) -> int {
    if v < lo {
        lo - v
    } else if v > hi {
        v - hi
    } else {
        0
    }
}

/// The walk distance limit, between 4 and 18 cells.
pub open spec fn distance_max_promenade(d: int) -> int {
    if d < 4 {
        4
    } else if d > 18 {
        18
    } else {
        d
    }
}

/// Rings from here on are preferred: the outer three, never nearer than 4.
pub open spec fn distance_preferee_min(d: int) -> int {
    if distance_max_promenade(d) - 3 < 4 {
        4
    } else {
        distance_max_promenade(d) - 3
    }
}

/// Everything the choice of a walk target depends on, besides the terrain.
pub struct CadrePromenade {
    pub occ: Set<Cellule>,
    pub x0: int,
    pub x1: int,
    pub y0: int,
    pub y1: int,
    pub dmax: int,
    pub dpref: int,
    pub graine: u64,
    pub id: AstronautId,
    pub compteur: u32,
}

/// The ring of `c` around the base: its Chebyshev distance to the box.
pub open spec fn anneau(k: CadrePromenade, c: Cellule) -> int {
    let (dx, dy) = (ecart(c.x as int, k.x0, k.x1), ecart(c.y as int, k.y0, k.y1));
    if dx >= dy {
        dx
    } else {
        dy
    }
}

/// A cell a walker may head for: free, walkable, in a ring from 4 to the limit.
pub open spec fn candidate<F: Fn(Cellule) -> TerrainCell>(
    f: &F,
    k: CadrePromenade,
    c: Cellule,
) -> bool {
    !k.occ.contains(c) && 4 <= anneau(k, c) <= k.dmax && marchable(terrain_selon(f, c))
}

/// A candidate in one of the preferred outer rings (`frontiere`) or not.
pub open spec fn classe<F: Fn(Cellule) -> TerrainCell>(
    f: &F,
    k: CadrePromenade,
    frontiere: bool,
    c: Cellule,
) -> bool {
    candidate(f, k, c) && (anneau(k, c) >= k.dpref) == frontiere
}

pub open spec fn frontiere_existe<F: Fn(Cellule) -> TerrainCell>(f: &F, k: CadrePromenade) -> bool {
    exists|c: Cellule| #[trigger] classe(f, k, true, c)
}

/// The cells the target is drawn from: the outer rings when they hold a
/// candidate, the inner ones otherwise.
pub open spec fn dans_vivier<F: Fn(Cellule) -> TerrainCell>(
    f: &F,
    k: CadrePromenade,
    c: Cellule,
) -> bool {
    classe(f, k, frontiere_existe(f, k), c)
}

/// `b` wins over `e`: a lower score, or the same score and first in `(y, x)` order.
pub open spec fn premier(k: CadrePromenade, b: Cellule, e: Cellule) -> bool {
    let (sb, se) = (
        score_cellule(k.graine, k.id, k.compteur, b),
        score_cellule(k.graine, k.id, k.compteur, e),
    );
    sb < se || (sb == se && (b.y < e.y || (b.y == e.y && b.x <= e.x)))
}

/// `b` is the target: in the pool, and winning over every cell of the pool.
pub open spec fn meilleure_cible<F: Fn(Cellule) -> TerrainCell>(
    f: &F,
    k: CadrePromenade,
    b: Cellule,
) -> bool {
    dans_vivier(f, k, b) && forall|e: Cellule| #[trigger] dans_vivier(f, k, e) ==> premier(k, b, e)
}

/// `k` is the setting of a choice for the structures `s`, the limit `d`
/// and the walker: the main base's cells and their box, the limits drawn
/// from `d`, the seed, identity and walk counter.
pub open spec fn cadre_bien_forme(
    s: Seq<StructureState>,
    d: i32,
    graine: u64,
    id: AstronautId,
    compteur: u32,
    k: CadrePromenade,
) -> bool {
    &&& k.occ == occupes_principaux(s)
    &&& boite(k.occ, k.x0, k.x1, k.y0, k.y1)
    &&& k.dmax == distance_max_promenade(d as int)
    &&& k.dpref == distance_preferee_min(d as int)
    &&& k.graine == graine
    &&& k.id == id
    &&& k.compteur == compteur
}

/// A walk target lies in a ring from 4 to at most 18 cells around the main
/// base, outside it, on walkable ground.
pub proof fn loi_cible_dans_l_anneau<F: Fn(Cellule) -> TerrainCell>(
    f: &F,
    s: Seq<StructureState>,
    d: i32,
    graine: u64,
    id: AstronautId,
    compteur: u32,
    k: CadrePromenade,
    c: Cellule,
)
    requires
        cadre_bien_forme(s, d, graine, id, compteur, k),
        dans_vivier(f, k, c),
    ensures
        4 <= anneau(k, c) <= 18,
        !occupes_principaux(s).contains(c),
        marchable(terrain_selon(f, c)),
{
}

/// The setting of a choice: the main base's cells and box, the limits
/// drawn from `d`, and the walker's seed, identity and walk counter.
pub open spec fn cadre_pour(
    s: Seq<StructureState>,
    d: i32,
    graine: u64,
    id: AstronautId,
    compteur: u32,
) -> CadrePromenade {
    choose|k: CadrePromenade| cadre_bien_forme(s, d, graine, id, compteur, k)
}

proof fn lemme_boite_unique(occ: Set<Cellule>, a: (int, int, int, int), b: (int, int, int, int))
    requires
        boite(occ, a.0, a.1, a.2, a.3),
        boite(occ, b.0, b.1, b.2, b.3),
    ensures
        a == b,
{
    let c0 = choose|c: Cellule| #[trigger] occ.contains(c) && c.x == a.0;
    let c1 = choose|c: Cellule| #[trigger] occ.contains(c) && c.x == a.1;
    let c2 = choose|c: Cellule| #[trigger] occ.contains(c) && c.y == a.2;
    let c3 = choose|c: Cellule| #[trigger] occ.contains(c) && c.y == a.3;
    let e0 = choose|c: Cellule| #[trigger] occ.contains(c) && c.x == b.0;
    let e1 = choose|c: Cellule| #[trigger] occ.contains(c) && c.x == b.1;
    let e2 = choose|c: Cellule| #[trigger] occ.contains(c) && c.y == b.2;
    let e3 = choose|c: Cellule| #[trigger] occ.contains(c) && c.y == b.3;
}

/// `c` was scanned before `(x, y)` in row-major order.
pub open spec fn vu(c: Cellule, y: int, x: int) -> bool {
    c.y < y || (c.y == y && c.x < x)
}

spec fn suivi<F: Fn(Cellule) -> TerrainCell>(
    f: &F,
    k: CadrePromenade,
    frontiere: bool,
    y: int,
    x: int,
    best: Option<(Cellule, u64)>,
) -> bool {
    &&& best is None <==> !exists|c: Cellule| #[trigger] classe(f, k, frontiere, c) && vu(c, y, x)
    &&& best is Some ==> {
        let (b, sb) = best->0;
        &&& classe(f, k, frontiere, b)
        &&& vu(b, y, x)
        &&& sb == score_cellule(k.graine, k.id, k.compteur, b)
        &&& forall|e: Cellule| #[trigger] classe(f, k, frontiere, e) && vu(e, y, x) ==> premier(k, b, e)
    }
}

proof fn lemme_suivi_pas<F: Fn(Cellule) -> TerrainCell>(
    f: &F,
    k: CadrePromenade,
    frontiere: bool,
    y: int,
    x: int,
    best: Option<(Cellule, u64)>,
    nouveau: Option<(Cellule, u64)>,
)
    requires
        suivi(f, k, frontiere, y, x, best),
        nouveau == (if classe(f, k, frontiere, Cellule { x: x as i32, y: y as i32 }) && (best is None
            || score_cellule(k.graine, k.id, k.compteur, Cellule { x: x as i32, y: y as i32 })
            < (best->0).1) {
            Some(
                (
                    Cellule { x: x as i32, y: y as i32 },
                    score_cellule(k.graine, k.id, k.compteur, Cellule { x: x as i32, y: y as i32 }),
                ),
            )
        } else {
            best
        }),
        i32::MIN <= x <= i32::MAX,
        i32::MIN <= y <= i32::MAX,
    ensures
        suivi(f, k, frontiere, y, x + 1, nouveau),
{
    let c = Cellule { x: x as i32, y: y as i32 };
    assert forall|e: Cellule| vu(e, y, x + 1) implies vu(e, y, x) || e == c by {}
    if classe(f, k, frontiere, c) {
        assert(vu(c, y, x + 1));
        if best is Some {
            let b = (best->0).0;
            assert forall|e: Cellule| #[trigger] classe(f, k, frontiere, e) && vu(
                e,
                y,
                x + 1,
            ) implies premier(k, (nouveau->0).0, e) by {
                if e != c {
                    assert(premier(k, b, e));
                }
            }
        }
    } else {
        if best is None {
            assert forall|e: Cellule| #[trigger] classe(f, k, frontiere, e) implies !vu(
                e,
                y,
                x + 1,
            ) by {
                if vu(e, y, x + 1) {
                    assert(vu(e, y, x));
                }
            }
        }
    }
}

proof fn lemme_suivi_ligne<F: Fn(Cellule) -> TerrainCell>(
    f: &F,
    k: CadrePromenade,
    frontiere: bool,
    y: int,
    best: Option<(Cellule, u64)>,
)
    requires
        suivi(f, k, frontiere, y, k.x1 + k.dmax + 1, best),
        k.x0 <= k.x1,
        k.dmax >= 0,
    ensures
        suivi(f, k, frontiere, y + 1, k.x0 - k.dmax, best),
{
    assert forall|e: Cellule| #[trigger] classe(f, k, frontiere, e) implies (vu(
        e,
        y + 1,
        k.x0 - k.dmax,
    ) <==> vu(e, y, k.x1 + k.dmax + 1)) by {
        assert(anneau(k, e) <= k.dmax);
    }
}

proof fn lemme_suivi_debut<F: Fn(Cellule) -> TerrainCell>(f: &F, k: CadrePromenade, frontiere: bool)
    requires
        k.x0 <= k.x1,
        k.y0 <= k.y1,
        k.dmax >= 0,
    ensures
        suivi(f, k, frontiere, k.y0 - k.dmax, k.x0 - k.dmax, None),
{
    assert forall|e: Cellule| #[trigger] classe(f, k, frontiere, e) implies !vu(
        e,
        k.y0 - k.dmax,
        k.x0 - k.dmax,
    ) by {
        assert(anneau(k, e) <= k.dmax);
    }
}

proof fn lemme_suivi_fin<F: Fn(Cellule) -> TerrainCell>(
    f: &F,
    k: CadrePromenade,
    frontiere: bool,
    best: Option<(Cellule, u64)>,
)
    requires
        suivi(f, k, frontiere, k.y1 + k.dmax + 1, k.x0 - k.dmax, best),
        k.x0 <= k.x1,
        k.y0 <= k.y1,
        k.dmax >= 0,
    ensures
        best is None <==> !exists|c: Cellule| #[trigger] classe(f, k, frontiere, c),
        best is Some ==> classe(f, k, frontiere, (best->0).0) && forall|e: Cellule| #[trigger]
            classe(f, k, frontiere, e) ==> premier(k, (best->0).0, e),
{
    assert forall|e: Cellule| #[trigger] classe(f, k, frontiere, e) implies vu(
        e,
        k.y1 + k.dmax + 1,
        k.x0 - k.dmax,
    ) by {
        assert(anneau(k, e) <= k.dmax);
    }
}

spec fn occ_partiel(s: Seq<StructureState>, n: int, c: Cellule) -> bool {
    exists|j: int| 0 <= j < n && principal(#[trigger] s[j]) && dans_emprise(s[j].kind, s[j].anchor, c)
}

spec fn pres_des_bords(c: Cellule) -> bool {
    i32::MIN + 18 <= c.x <= i32::MAX - 18 && i32::MIN + 18 <= c.y <= i32::MAX - 18
}

fn ecart_exec(v: i64, lo: i32, hi: i32) -> (r: i64)
    requires
        i32::MIN <= v <= i32::MAX,
    ensures
        r == ecart(v as int, lo as int, hi as int),
{
    if v < lo as i64 {
        lo as i64 - v
    } else if v > hi as i64 {
        v - hi as i64
    } else {
        0
    }
}

/// Where the walker `id` heads on its walk number `compteur`: a free,
/// walkable cell in a ring between 4 and the walk limit around the main
/// base, preferably in the outer three rings, with the lowest score (the
/// first in `(y, x)` order among equals). `distance_max_autorisee` is how
/// many cells the walker's air allows; the limit keeps it between 4 and 18.
pub fn choisir_cible_promenade<F: Fn(Cellule) -> TerrainCell>(
    id: AstronautId,
    compteur: u32,
    distance_max_autorisee: i32,
    structures: &[StructureState],
    graine: u64,
    terrain_at: &F,
) -> (r: Option<Cellule>)
    requires
        oracle_terrain(terrain_at),
        base_loin_des_bords(structures@),
    ensures
        (forall|c: Cellule| !#[trigger] occupes_principaux(structures@).contains(c)) ==> r is None,
        (exists|c: Cellule| #[trigger] occupes_principaux(structures@).contains(c)) ==> {
            let k = cadre_pour(structures@, distance_max_autorisee, graine, id, compteur);
            &&& cadre_bien_forme(structures@, distance_max_autorisee, graine, id, compteur, k)
            &&& (r is Some <==> exists|c: Cellule| #[trigger] dans_vivier(terrain_at, k, c))
            &&& (r is Some ==> meilleure_cible(terrain_at, k, r->0))
        },
{
    let ghost s = structures@;
    let mut occ = EnsembleCellules::new();
    let mut trouve = false;
    let mut x0: i32 = 0;
    let mut x1: i32 = 0;
    let mut y0: i32 = 0;
    let mut y1: i32 = 0;
    let mut i: usize = 0;
    while i < structures.len()
        invariant
            s == structures@,
            i <= s.len(),
            base_loin_des_bords(s),
            forall|c: Cellule| #[trigger] occ@.contains(c) <==> occ_partiel(s, i as int, c),
            trouve ==> boite(occ@, x0 as int, x1 as int, y0 as int, y1 as int),
            !trouve ==> forall|c: Cellule| !#[trigger] occ@.contains(c),
            forall|c: Cellule| #[trigger] occ@.contains(c) ==> pres_des_bords(c),
        decreases s.len() - i,
    {
        let st = structures[i];
        if st.built && st.network_id == Some(0usize) {
            proof {
                assert(principal(s[i as int]));
            }
            let cells = st.occupied_cells();
            let mut m: usize = 0;
            while m < cells.len()
                invariant
                    s == structures@,
                    i < s.len(),
                    st == s[i as int],
                    principal(st),
                    base_loin_des_bords(s),
                    m <= cells@.len(),
                    forall|c: Cellule| #[trigger]
                        cells@.contains(c) <==> dans_emprise(st.kind, st.anchor, c),
                    forall|c: Cellule| #[trigger]
                        occ@.contains(c) <==> (occ_partiel(s, i as int, c) || exists|t: int|
                            0 <= t < m && #[trigger] cells@[t] == c),
                    trouve ==> boite(occ@, x0 as int, x1 as int, y0 as int, y1 as int),
                    !trouve ==> forall|c: Cellule| !#[trigger] occ@.contains(c),
                    forall|c: Cellule| #[trigger] occ@.contains(c) ==> pres_des_bords(c),
                decreases cells@.len() - m,
            {
                let c = cells[m];
                let ghost occ0 = occ@;
                proof {
                    assert(cells@.contains(c));
                    assert(dans_emprise(st.kind, st.anchor, c));
                }
                occ.inserer(c);
                let ghost (ax0, ax1, ay0, ay1) = (x0, x1, y0, y1);
                if !trouve {
                    x0 = c.x;
                    x1 = c.x;
                    y0 = c.y;
                    y1 = c.y;
                    trouve = true;
                } else {
                    if c.x < x0 {
                        x0 = c.x;
                    }
                    if c.x > x1 {
                        x1 = c.x;
                    }
                    if c.y < y0 {
                        y0 = c.y;
                    }
                    if c.y > y1 {
                        y1 = c.y;
                    }
                }
                proof {
                    assert(occ@.contains(c));
                    if ax0 != x0 || !occ0.contains(c) {
                    }
                    assert forall|d: Cellule| #[trigger] occ@.contains(d) implies x0 <= d.x <= x1
                        && y0 <= d.y <= y1 by {
                        if d != c {
                            assert(occ0.contains(d));
                        }
                    }
                    if x0 == c.x {
                        assert(occ@.contains(c) && c.x == x0);
                    } else {
                        let w = choose|w: Cellule| #[trigger] occ0.contains(w) && w.x == ax0;
                        assert(occ@.contains(w));
                    }
                    if x1 == c.x {
                        assert(occ@.contains(c) && c.x == x1);
                    } else {
                        let w = choose|w: Cellule| #[trigger] occ0.contains(w) && w.x == ax1;
                        assert(occ@.contains(w));
                    }
                    if y0 == c.y {
                        assert(occ@.contains(c) && c.y == y0);
                    } else {
                        let w = choose|w: Cellule| #[trigger] occ0.contains(w) && w.y == ay0;
                        assert(occ@.contains(w));
                    }
                    if y1 == c.y {
                        assert(occ@.contains(c) && c.y == y1);
                    } else {
                        let w = choose|w: Cellule| #[trigger] occ0.contains(w) && w.y == ay1;
                        assert(occ@.contains(w));
                    }
                    assert forall|d: Cellule| #[trigger] occ@.contains(d) <==> (occ_partiel(
                        s,
                        i as int,
                        d,
                    ) || exists|t: int| 0 <= t < m + 1 && #[trigger] cells@[t] == d) by {
                        if d == c {
                            assert(cells@[m as int] == d);
                        }
                    }
                    assert forall|d: Cellule| #[trigger] occ@.contains(d) implies pres_des_bords(
                        d,
                    ) by {
                        if d == c {
                            assert(s[i as int].anchor == st.anchor);
                        }
                    }
                }
                m += 1;
            }
            proof {
                assert forall|d: Cellule| #[trigger] occ@.contains(d) <==> occ_partiel(
                    s,
                    i + 1,
                    d,
                ) by {
                    if occ@.contains(d) && !occ_partiel(s, i as int, d) {
                        let t = choose|t: int| 0 <= t < cells@.len() && #[trigger] cells@[t] == d;
                        assert(cells@.contains(d));
                    }
                    if occ_partiel(s, i + 1, d) && !occ_partiel(s, i as int, d) {
                        assert(cells@.contains(d));
                        let t = choose|t: int| 0 <= t < cells@.len() && cells@[t] == d;
                    }
                }
            }
        } else {
            proof {
                assert forall|d: Cellule| #[trigger] occ@.contains(d) <==> occ_partiel(
                    s,
                    i + 1,
                    d,
                ) by {
                    if occ_partiel(s, i + 1, d) {
                        let j = choose|j: int|
                            0 <= j < i + 1 && principal(#[trigger] s[j]) && dans_emprise(
                                s[j].kind,
                                s[j].anchor,
                                d,
                            );
                    }
                }
            }
        }
        i += 1;
    }
    proof {
        assert forall|c: Cellule| #[trigger] occ@.contains(c) <==> occupes_principaux(s).contains(
            c,
        ) by {}
    }
    if !trouve {
        proof {
            assert forall|c: Cellule| !#[trigger] occupes_principaux(structures@).contains(c) by {
                if occupes_principaux(structures@).contains(c) {
                    assert(occ@.contains(c));
                }
            }
        }
        return None;
    }
    let dmax: i32 = if distance_max_autorisee < 4 {
        4
    } else if distance_max_autorisee > 18 {
        18
    } else {
        distance_max_autorisee
    };
    let dpref: i32 = if dmax - 3 < 4 {
        4
    } else {
        dmax - 3
    };
    let ghost k = CadrePromenade {
        occ: occ@,
        x0: x0 as int,
        x1: x1 as int,
        y0: y0 as int,
        y1: y1 as int,
        dmax: dmax as int,
        dpref: dpref as int,
        graine,
        id,
        compteur,
    };
    proof {
        assert(x0 <= x1 && y0 <= y1) by {
            let w = choose|w: Cellule| #[trigger] occ@.contains(w) && w.x == x0;
            let v = choose|v: Cellule| #[trigger] occ@.contains(v) && v.y == y0;
        }
        assert(pres_des_bords(choose|w: Cellule| #[trigger] occ@.contains(w) && w.x == x0));
        assert(pres_des_bords(choose|w: Cellule| #[trigger] occ@.contains(w) && w.x == x1));
        assert(pres_des_bords(choose|w: Cellule| #[trigger] occ@.contains(w) && w.y == y0));
        assert(pres_des_bords(choose|w: Cellule| #[trigger] occ@.contains(w) && w.y == y1));
        lemme_suivi_debut(terrain_at, k, true);
        lemme_suivi_debut(terrain_at, k, false);
    }
    let mut best_f: Option<(Cellule, u64)> = None;
    let mut best_s: Option<(Cellule, u64)> = None;
    let mut y: i64 = y0 as i64 - dmax as i64;
    while y <= y1 as i64 + dmax as i64
        invariant
            oracle_terrain(terrain_at),
            k.occ == occ@,
            k.x0 == x0 && k.x1 == x1 && k.y0 == y0 && k.y1 == y1,
            k.dmax == dmax && k.dpref == dpref,
            k.graine == graine && k.id == id && k.compteur == compteur,
            4 <= dmax <= 18,
            x0 <= x1 && y0 <= y1,
            i32::MIN + 18 <= x0 && x1 <= i32::MAX - 18,
            i32::MIN + 18 <= y0 && y1 <= i32::MAX - 18,
            y0 - dmax <= y <= y1 + dmax + 1,
            suivi(terrain_at, k, true, y as int, x0 - dmax, best_f),
            suivi(terrain_at, k, false, y as int, x0 - dmax, best_s),
        decreases y1 + dmax + 1 - y,
    {
        let mut x: i64 = x0 as i64 - dmax as i64;
        while x <= x1 as i64 + dmax as i64
            invariant
                oracle_terrain(terrain_at),
                k.occ == occ@,
                k.x0 == x0 && k.x1 == x1 && k.y0 == y0 && k.y1 == y1,
                k.dmax == dmax && k.dpref == dpref,
                k.graine == graine && k.id == id && k.compteur == compteur,
                4 <= dmax <= 18,
                x0 <= x1 && y0 <= y1,
                i32::MIN + 18 <= x0 && x1 <= i32::MAX - 18,
                i32::MIN + 18 <= y0 && y1 <= i32::MAX - 18,
                y0 - dmax <= y <= y1 + dmax,
                x0 - dmax <= x <= x1 + dmax + 1,
                suivi(terrain_at, k, true, y as int, x as int, best_f),
                suivi(terrain_at, k, false, y as int, x as int, best_s),
            decreases x1 + dmax + 1 - x,
        {
            let c = Cellule { x: x as i32, y: y as i32 };
            let mut est_candidate = false;
            let mut en_frontiere = false;
            let mut sc: u64 = 0;
            if !occ.contient(c) {
                let ex = ecart_exec(x, x0, x1);
                let ey = ecart_exec(y, y0, y1);
                let da: i64 = if ex >= ey {
                    ex
                } else {
                    ey
                };
                if 4 <= da && da <= dmax as i64 {
                    let t = lire_terrain(terrain_at, c);
                    if terrain_est_marchable(&t) {
                        est_candidate = true;
                        en_frontiere = da >= dpref as i64;
                        sc = score_deterministe_cellule(graine, id, compteur, c);
                    }
                }
            }
            proof {
                assert(est_candidate == candidate(terrain_at, k, c));
                assert(est_candidate ==> en_frontiere == (anneau(k, c) >= k.dpref));
                assert(est_candidate ==> sc == score_cellule(graine, id, compteur, c));
            }
            let ghost (bf0, bs0) = (best_f, best_s);
            if est_candidate {
                if en_frontiere {
                    let remplace = match best_f {
                        None => true,
                        Some(b) => sc < b.1,
                    };
                    if remplace {
                        best_f = Some((c, sc));
                    }
                } else {
                    let remplace = match best_s {
                        None => true,
                        Some(b) => sc < b.1,
                    };
                    if remplace {
                        best_s = Some((c, sc));
                    }
                }
            }
            proof {
                lemme_suivi_pas(terrain_at, k, true, y as int, x as int, bf0, best_f);
                lemme_suivi_pas(terrain_at, k, false, y as int, x as int, bs0, best_s);
            }
            x += 1;
        }
        proof {
            lemme_suivi_ligne(terrain_at, k, true, y as int, best_f);
            lemme_suivi_ligne(terrain_at, k, false, y as int, best_s);
        }
        y += 1;
    }
    proof {
        lemme_suivi_fin(terrain_at, k, true, best_f);
        lemme_suivi_fin(terrain_at, k, false, best_s);
        let k2 = cadre_pour(s, distance_max_autorisee, graine, id, compteur);
        assert(k.occ =~= occupes_principaux(s));
        assert(cadre_bien_forme(s, distance_max_autorisee, graine, id, compteur, k));
        lemme_boite_unique(k.occ, (k.x0, k.x1, k.y0, k.y1), (k2.x0, k2.x1, k2.y0, k2.y1));
        assert(k2 == k);
        if best_f is Some {
            let b = (best_f->0).0;
            assert(classe(terrain_at, k, true, b));
            assert(frontiere_existe(terrain_at, k));
            assert(dans_vivier(terrain_at, k, b));
            assert forall|e: Cellule| #[trigger] dans_vivier(terrain_at, k, e) implies premier(
                k,
                b,
                e,
            ) by {
                assert(classe(terrain_at, k, true, e));
            }
        } else {
            assert(!frontiere_existe(terrain_at, k));
            if best_s is Some {
                let b = (best_s->0).0;
                assert(dans_vivier(terrain_at, k, b));
                assert forall|e: Cellule| #[trigger] dans_vivier(terrain_at, k, e) implies premier(
                    k,
                    b,
                    e,
                ) by {
                    assert(classe(terrain_at, k, false, e));
                }
            } else {
                assert forall|e: Cellule| !#[trigger] dans_vivier(terrain_at, k, e) by {
                    if dans_vivier(terrain_at, k, e) {
                        assert(classe(terrain_at, k, false, e));
                    }
                }
            }
        }
    }
    match best_f {
        Some(b) => Some(b.0),
        None => match best_s {
            Some(b) => Some(b.0),
            None => None,
        },
    }
}

} // verus!
