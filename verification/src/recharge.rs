//! The recharge zone: the walkable cells around the built modules of the
//! main network, where suits are refilled and from which workers set out.
use crate::grille::{distance_manhattan, manhattan, Cellule, EnsembleCellules};
use crate::monde::{marchable, terrain_est_marchable, TerrainCell};
use crate::navigation::{lire_terrain, oracle_terrain, terrain_selon};
use crate::structures::{
    cellules_emprise, cote, dans_emprise, structure_cells, StructureId, StructureKind,
    StructureState,
};
use crate::tri::{avant, trie_strict, trier_sans_doublons, OrdreCellules};
use vstd::prelude::*;

verus! {

/// How far, along x and along y, the zone reaches around the modules.
pub const DISTANCE_ZONE_RECHARGE: i32 = 2;

/// The cells of the zone, sorted by `x` then `y`, each once, with an index.
pub struct ZoneRechargeBase {
    cellules: Vec<Cellule>,
    index: EnsembleCellules,
}

impl ZoneRechargeBase {
    #[verifier::type_invariant]
    spec fn bien_formee(self) -> bool {
        &&& trie_strict(self.cellules@, OrdreCellules::ParXY)
        &&& forall|c: Cellule| #[trigger] self.index@.contains(c) <==> self.cellules@.contains(c)
    }
}

impl View for ZoneRechargeBase {
    type V = Seq<Cellule>;

    closed spec fn view(&self) -> Seq<Cellule> {
        self.cellules@
    }
}

impl ZoneRechargeBase {
    /// The empty zone.
    pub fn vide() -> (z: ZoneRechargeBase)
        ensures
            z@ == Seq::<Cellule>::empty(),
    {
        ZoneRechargeBase { cellules: Vec::new(), index: EnsembleCellules::new() }
    }

    /// The zone made of the given cells.
    pub fn depuis_cellules(cellules: Vec<Cellule>) -> (z: ZoneRechargeBase)
        ensures
            trie_strict(z@, OrdreCellules::ParXY),
            forall|c: Cellule| #[trigger] z@.contains(c) <==> cellules@.contains(c),
    {
        let triees = trier_sans_doublons(&cellules, OrdreCellules::ParXY);
        let index = EnsembleCellules::depuis_cellules(&triees);
        ZoneRechargeBase { cellules: triees, index }
    }

    pub fn contient(&self, cell: Cellule) -> (r: bool)
        ensures
            r == self@.contains(cell),
    {
        proof {
            use_type_invariant(self);
        }
        self.index.contient(cell)
    }

    pub fn cellules(&self) -> (r: &[Cellule])
        ensures
            r@ == self@,
            trie_strict(r@, OrdreCellules::ParXY),
    {
        proof {
            use_type_invariant(self);
        }
        self.cellules.as_slice()
    }

    pub fn est_vide(&self) -> (r: bool)
        ensures
            r == (self@.len() == 0),
    {
        self.cellules.len() == 0
    }

    /// The first cell of the zone, in its order, at least Manhattan
    /// distance from `from`; `None` for the empty zone.
    pub fn cellule_la_plus_proche(&self, from: Cellule) -> (r: Option<Cellule>)
        ensures
            self@.len() == 0 <==> r is None,
            r matches Some(c) ==> exists|i: int|
                0 <= i < self@.len() && self@[i] == c && (forall|j: int|
                    0 <= j < self@.len() ==> manhattan(c, from) <= manhattan(#[trigger] self@[j], from))
                    && (forall|j: int|
                    0 <= j < i ==> manhattan(c, from) < manhattan(#[trigger] self@[j], from)),
    {
        if self.cellules.len() == 0 {
            return None;
        }
        let mut meilleur: usize = 0;
        let mut d_meilleur: i64 = distance_manhattan(self.cellules[0], from);
        let mut i: usize = 1;
        while i < self.cellules.len()
            invariant
                1 <= i <= self@.len(),
                self@ == self.cellules@,
                meilleur < i,
                d_meilleur == manhattan(self@[meilleur as int], from),
                forall|j: int| 0 <= j < i ==> d_meilleur <= manhattan(#[trigger] self@[j], from),
                forall|j: int| 0 <= j < meilleur ==> d_meilleur < manhattan(#[trigger] self@[j], from),
            decreases self@.len() - i,
        {
            let d = distance_manhattan(self.cellules[i], from);
            if d < d_meilleur {
                meilleur = i;
                d_meilleur = d;
            }
            i += 1;
        }
        Some(self.cellules[meilleur])
    }
}

impl Default for ZoneRechargeBase {
    fn default() -> (z: ZoneRechargeBase)
        ensures
            z@ == Seq::<Cellule>::empty(),
    {
        ZoneRechargeBase::vide()
    }
}

/// Whether a position lies in the recharge zone.
pub fn astronaute_dans_zone_recharge(zone_recharge: &ZoneRechargeBase, position: Cellule) -> (r: bool)
    ensures
        r == zone_recharge@.contains(position),
{
    zone_recharge.contient(position)
}

/// The departure cells of the base: the zone's cells in `(x, y)` order.
pub fn cellules_origine_base(zone_recharge: &ZoneRechargeBase) -> (r: Vec<Cellule>)
    ensures
        r@ == zone_recharge@,
        trie_strict(r@, OrdreCellules::ParXY),
{
    let cellules = zone_recharge.cellules();
    let r = trier_sans_doublons(cellules, OrdreCellules::ParXY);
    proof {
        crate::tri::lemme_trie_unique(r@, cellules@, OrdreCellules::ParXY);
    }
    r
}

/// A built structure of the main network (given by its identifiers).
pub open spec fn module_connecte(s: StructureState, reseau: Seq<StructureId>) -> bool {
    s.built && reseau.contains(s.id)
}

/// `c` lies under a built module of the main network.
pub open spec fn sous_module_connecte(
    structures: Seq<StructureState>,
    reseau: Seq<StructureId>,
    c: Cellule,
) -> bool {
    exists|i: int|
        0 <= i < structures.len() && #[trigger] module_connecte(structures[i], reseau)
            && dans_emprise(structures[i].kind, structures[i].anchor, c)
}

/// `c` is at most `DISTANCE_ZONE_RECHARGE` away, along x and along y, from a
/// cell under a connected module.
pub open spec fn proche_module(
    structures: Seq<StructureState>,
    reseau: Seq<StructureId>,
    c: Cellule,
) -> bool {
    exists|o: Cellule|
        #[trigger] sous_module_connecte(structures, reseau, o) && -2 <= c.x - o.x <= 2 && -2 <= c.y
            - o.y <= 2
}

/// `c` belongs to the recharge zone.
pub open spec fn dans_zone<F: Fn(Cellule) -> TerrainCell>(
    f: &F,
    structures: Seq<StructureState>,
    reseau: Seq<StructureId>,
    c: Cellule,
) -> bool {
    &&& proche_module(structures, reseau, c)
    &&& !sous_module_connecte(structures, reseau, c)
    &&& marchable(terrain_selon(f, c))
}

/// The zone's own condition on a cell: walkable and not under a module.
pub open spec fn condition_zone<F: Fn(Cellule) -> TerrainCell>(
    f: &F,
    structures: Seq<StructureState>,
    reseau: Seq<StructureId>,
    c: Cellule,
) -> bool {
    !sous_module_connecte(structures, reseau, c) && marchable(terrain_selon(f, c))
}

pub open spec fn pres(c: Cellule, o: Cellule) -> bool {
    -2 <= c.x - o.x <= 2 && -2 <= c.y - o.y <= 2
}

/// `c` is in the rows of the square around `o` before row `dy`, or in row
/// `dy` before column `dx`.
pub open spec fn pres_partiel(c: Cellule, o: Cellule, dy: int, dx: int) -> bool {
    (-2 <= c.x - o.x <= 2 && -2 <= c.y - o.y < dy) || (c.y - o.y == dy && -2 <= c.x - o.x < dx)
}

pub open spec fn region(modules: Seq<Cellule>, m: int, c: Cellule) -> bool {
    exists|j: int| 0 <= j < m && pres(c, #[trigger] modules[j])
}

/// Every footprint, widened by the zone's reach, fits in the grid.
pub open spec fn structures_avec_marge(structures: Seq<StructureState>) -> bool {
    forall|i: int|
        0 <= i < structures.len() ==> i32::MIN + 2 <= #[trigger] structures[i].anchor.x
            && structures[i].anchor.x + cote(structures[i].kind) + 1 <= i32::MAX && i32::MIN + 2
            <= structures[i].anchor.y && structures[i].anchor.y + cote(structures[i].kind) + 1
            <= i32::MAX
}

fn contient_id(ids: &[StructureId], id: StructureId) -> (r: bool)
    ensures
        r == ids@.contains(id),
{
    let mut i: usize = 0;
    while i < ids.len()
        invariant
            i <= ids@.len(),
            forall|j: int| 0 <= j < i ==> ids@[j] != id,
        decreases ids@.len() - i,
    {
        if ids[i] == id {
            assert(ids@[i as int] == id);
            return true;
        }
        i += 1;
    }
    false
}

/// The recharge zone around the built modules of the main network, whose
/// identifiers are `reseau_principal`: every walkable cell within two cells
/// (along x and along y) of a module cell, not itself under a module.
pub fn calculer_zone_recharge_base<F: Fn(Cellule) -> TerrainCell>(
    structures: &[StructureState],
    reseau_principal: &[StructureId],
    terrain_at: &F,
) -> (z: ZoneRechargeBase)
    requires
        oracle_terrain(terrain_at),
        structures_avec_marge(structures@),
    ensures
        trie_strict(z@, OrdreCellules::ParXY),
        forall|c: Cellule| #[trigger]
            z@.contains(c) <==> dans_zone(terrain_at, structures@, reseau_principal@, c),
{
    let ghost s = structures@;
    let ghost reseau = reseau_principal@;
    // Cells under the connected modules.
    let mut occupes = EnsembleCellules::new();
    let mut modules: Vec<Cellule> = Vec::new();
    let mut i: usize = 0;
    while i < structures.len()
        invariant
            s == structures@,
            reseau == reseau_principal@,
            structures_avec_marge(s),
            i <= s.len(),
            forall|c: Cellule| #[trigger] occupes@.contains(c) <==> modules@.contains(c),
            forall|c: Cellule| #[trigger]
                modules@.contains(c) <==> exists|k: int|
                    0 <= k < i && #[trigger] module_connecte(s[k], reseau) && dans_emprise(
                        s[k].kind,
                        s[k].anchor,
                        c,
                    ),
            forall|j: int|
                0 <= j < modules@.len() ==> i32::MIN + 2 <= #[trigger] modules@[j].x <= i32::MAX
                    - 2 && i32::MIN + 2 <= modules@[j].y <= i32::MAX - 2,
        decreases s.len() - i,
    {
        let st = structures[i];
        if st.built && contient_id(reseau_principal, st.id) {
            assert(s[i as int] == st);
            let cells = structure_cells(st.kind, st.anchor);
            let ghost m0 = modules@;
            let mut j: usize = 0;
            while j < cells.len()
                invariant
                    j <= cells@.len(),
                    forall|c: Cellule| #[trigger]
                        cells@.contains(c) <==> dans_emprise(st.kind, st.anchor, c),
                    i32::MIN + 2 <= st.anchor.x && st.anchor.x + cote(st.kind) + 1 <= i32::MAX
                        && i32::MIN + 2 <= st.anchor.y && st.anchor.y + cote(st.kind) + 1
                        <= i32::MAX,
                    forall|c: Cellule| #[trigger] occupes@.contains(c) <==> modules@.contains(c),
                    forall|c: Cellule| #[trigger]
                        modules@.contains(c) <==> (m0.contains(c) || exists|k: int|
                            0 <= k < j && #[trigger] cells@[k] == c),
                    forall|k: int|
                        0 <= k < modules@.len() ==> i32::MIN + 2 <= #[trigger] modules@[k].x
                            <= i32::MAX - 2 && i32::MIN + 2 <= modules@[k].y <= i32::MAX - 2,
                decreases cells@.len() - j,
            {
                let c = cells[j];
                assert(cells@.contains(c)) by {
                    assert(cells@[j as int] == c);
                }
                occupes.inserer(c);
                let ghost mm = modules@;
                modules.push(c);
                proof {
                    assert forall|x: Cellule| #[trigger] modules@.contains(x) <==> (mm.contains(x)
                        || x == c) by {
                        if mm.contains(x) {
                            let k = choose|k: int| 0 <= k < mm.len() && mm[k] == x;
                            assert(modules@[k] == x);
                        }
                        if x == c {
                            assert(modules@[mm.len() as int] == x);
                        }
                        if modules@.contains(x) {
                            let k = choose|k: int| 0 <= k < modules@.len() && modules@[k] == x;
                            if k < mm.len() {
                                assert(mm[k] == x);
                            }
                        }
                    }
                    assert forall|x: Cellule| #[trigger] modules@.contains(x) <==> (m0.contains(x)
                        || exists|k: int| 0 <= k < j + 1 && #[trigger] cells@[k] == x) by {
                        if x == c {
                            assert(cells@[j as int] == x);
                        }
                    }
                }
                j += 1;
            }
            proof {
                assert forall|c: Cellule| #[trigger] modules@.contains(c) <==> exists|k: int|
                    0 <= k < i + 1 && #[trigger] module_connecte(s[k], reseau) && dans_emprise(
                        s[k].kind,
                        s[k].anchor,
                        c,
                    ) by {
                    if modules@.contains(c) && !m0.contains(c) {
                        let k = choose|k: int| 0 <= k < j && #[trigger] cells@[k] == c;
                        assert(cells@.contains(c));
                        assert(module_connecte(s[i as int], reseau));
                    }
                    if dans_emprise(st.kind, st.anchor, c) {
                        assert(cells@.contains(c));
                        let k = choose|k: int| 0 <= k < cells@.len() && cells@[k] == c;
                    }
                }
            }
        } else {
            proof {
                assert(s[i as int] == st);
                assert forall|c: Cellule| #[trigger] modules@.contains(c) <==> exists|k: int|
                    0 <= k < i + 1 && #[trigger] module_connecte(s[k], reseau) && dans_emprise(
                        s[k].kind,
                        s[k].anchor,
                        c,
                    ) by {
                    if exists|k: int|
                        0 <= k < i + 1 && #[trigger] module_connecte(s[k], reseau) && dans_emprise(
                            s[k].kind,
                            s[k].anchor,
                            c,
                        ) {
                        let k = choose|k: int|
                            0 <= k < i + 1 && #[trigger] module_connecte(s[k], reseau)
                                && dans_emprise(s[k].kind, s[k].anchor, c);
                        assert(k != i);
                    }
                }
            }
        }
        i += 1;
    }
    assert forall|c: Cellule| #[trigger] occupes@.contains(c) <==> sous_module_connecte(s, reseau, c)
        by {
        if occupes@.contains(c) {
            assert(modules@.contains(c));
        }
    }
    // Cells around them.
    let mut vues = EnsembleCellules::new();
    let mut cellules: Vec<Cellule> = Vec::new();
    let mut m: usize = 0;
    while m < modules.len()
        invariant
            oracle_terrain(terrain_at),
            m <= modules@.len(),
            forall|c: Cellule| #[trigger] occupes@.contains(c) <==> sous_module_connecte(s, reseau, c),
            forall|c: Cellule| #[trigger] occupes@.contains(c) <==> modules@.contains(c),
            forall|j: int|
                0 <= j < modules@.len() ==> i32::MIN + 2 <= #[trigger] modules@[j].x <= i32::MAX
                    - 2 && i32::MIN + 2 <= modules@[j].y <= i32::MAX - 2,
            forall|c: Cellule| #[trigger]
                cellules@.contains(c) ==> region(modules@, m as int, c) && condition_zone(
                    terrain_at,
                    s,
                    reseau,
                    c,
                ),
            forall|c: Cellule|
                region(modules@, m as int, c) && condition_zone(terrain_at, s, reseau, c)
                    ==> #[trigger] cellules@.contains(c),
            forall|c: Cellule| #[trigger]
                vues@.contains(c) ==> (cellules@.contains(c) <==> condition_zone(
                    terrain_at,
                    s,
                    reseau,
                    c,
                )),
        decreases modules@.len() - m,
    {
        let origine = modules[m];
        let ghost mods = modules@;
        let mut dy: i32 = -2;
        while dy <= 2
            invariant
                oracle_terrain(terrain_at),
                -2 <= dy <= 3,
                m < mods.len(),
                mods == modules@,
                origine == mods[m as int],
                i32::MIN + 2 <= origine.x <= i32::MAX - 2 && i32::MIN + 2 <= origine.y <= i32::MAX - 2,
                forall|c: Cellule| #[trigger] occupes@.contains(c) <==> sous_module_connecte(s, reseau, c),
                forall|c: Cellule| #[trigger]
                    cellules@.contains(c) ==> (region(mods, m as int, c) || pres_partiel(
                        c,
                        origine,
                        dy as int,
                        -2,
                    )) && condition_zone(terrain_at, s, reseau, c),
                forall|c: Cellule|
                    (region(mods, m as int, c) || pres_partiel(c, origine, dy as int, -2))
                        && condition_zone(terrain_at, s, reseau, c) ==> #[trigger] cellules@.contains(c),
                forall|c: Cellule| #[trigger]
                    vues@.contains(c) ==> (cellules@.contains(c) <==> condition_zone(
                        terrain_at,
                        s,
                        reseau,
                        c,
                    )),
            decreases 3 - dy,
        {
            let mut dx: i32 = -2;
            while dx <= 2
                invariant
                    oracle_terrain(terrain_at),
                    -2 <= dy <= 2,
                    -2 <= dx <= 3,
                    m < mods.len(),
                    origine == mods[m as int],
                    i32::MIN + 2 <= origine.x <= i32::MAX - 2 && i32::MIN + 2 <= origine.y
                        <= i32::MAX - 2,
                    forall|c: Cellule| #[trigger]
                        occupes@.contains(c) <==> sous_module_connecte(s, reseau, c),
                    forall|c: Cellule| #[trigger]
                        cellules@.contains(c) ==> (region(mods, m as int, c) || pres_partiel(
                            c,
                            origine,
                            dy as int,
                            dx as int,
                        )) && condition_zone(terrain_at, s, reseau, c),
                    forall|c: Cellule|
                        (region(mods, m as int, c) || pres_partiel(c, origine, dy as int, dx as int))
                            && condition_zone(terrain_at, s, reseau, c)
                            ==> #[trigger] cellules@.contains(c),
                    forall|c: Cellule| #[trigger]
                        vues@.contains(c) ==> (cellules@.contains(c) <==> condition_zone(
                            terrain_at,
                            s,
                            reseau,
                            c,
                        )),
                decreases 3 - dx,
            {
                let candidate = Cellule { x: origine.x + dx, y: origine.y + dy };
                let ghost cc = cellules@;
                if !occupes.contient(candidate) && vues.inserer(candidate) {
                    let t = lire_terrain(terrain_at, candidate);
                    if terrain_est_marchable(&t) {
                        cellules.push(candidate);
                        proof {
                            assert forall|c: Cellule| #[trigger] cellules@.contains(c) <==> (
                            cc.contains(c) || c == candidate) by {
                                if cc.contains(c) {
                                    let k = choose|k: int| 0 <= k < cc.len() && cc[k] == c;
                                    assert(cellules@[k] == c);
                                }
                                if c == candidate {
                                    assert(cellules@[cc.len() as int] == c);
                                }
                                if cellules@.contains(c) {
                                    let k = choose|k: int|
                                        0 <= k < cellules@.len() && cellules@[k] == c;
                                    if k < cc.len() {
                                        assert(cc[k] == c);
                                    }
                                }
                            }
                        }
                    }
                }
                proof {
                    assert(pres_partiel(candidate, origine, dy as int, dx + 1));
                }
                dx += 1;
            }
            proof {
                assert forall|c: Cellule| pres_partiel(c, origine, dy as int, 3) <==> pres_partiel(
                    c,
                    origine,
                    dy + 1,
                    -2,
                ) by {}
            }
            dy += 1;
        }
        proof {
            assert forall|c: Cellule| region(mods, m + 1, c) <==> (region(mods, m as int, c)
                || pres_partiel(c, origine, 3, -2)) by {
                if pres_partiel(c, origine, 3, -2) {
                    assert(pres(c, mods[m as int]));
                }
                if region(mods, m + 1, c) && !region(mods, m as int, c) {
                    let j = choose|j: int| 0 <= j < m + 1 && pres(c, #[trigger] mods[j]);
                    assert(j == m);
                }
            }
        }
        m += 1;
    }
    let z = ZoneRechargeBase::depuis_cellules(cellules);
    proof {
        assert forall|c: Cellule| #[trigger] z@.contains(c) <==> dans_zone(terrain_at, s, reseau, c)
            by {
            if proche_module(s, reseau, c) {
                let o = choose|o: Cellule|
                    #[trigger] sous_module_connecte(s, reseau, o) && -2 <= c.x - o.x <= 2 && -2 <= c.y
                        - o.y <= 2;
                assert(occupes@.contains(o));
                assert(modules@.contains(o));
                let j = choose|j: int| 0 <= j < modules@.len() && modules@[j] == o;
                assert(pres(c, modules@[j]));
            }
            if cellules@.contains(c) {
                let j = choose|j: int| 0 <= j < modules@.len() && pres(c, #[trigger] modules@[j]);
                assert(modules@.contains(modules@[j]));
                assert(occupes@.contains(modules@[j]));
            }
        }
    }
    z
}

/// `position` lies under a built life-support module of the main network.
pub open spec fn sur_module_support(structures: Seq<StructureState>, position: Cellule) -> bool {
    exists|i: int|
        0 <= i < structures.len() && #[trigger] structures[i].built && crate::structures::support_vie_spec(
            structures[i].kind,
        ) && dans_emprise(structures[i].kind, structures[i].anchor, position)
            && structures[i].network_id == Some(0usize)
}

/// Whether `position` lies under a built life-support module of the main network.
pub fn position_sur_module_support(structures: &[StructureState], position: Cellule) -> (r: bool)
    requires
        crate::structures::structures_representables(structures@),
    ensures
        r == sur_module_support(structures@, position),
{
    let mut i: usize = 0;
    while i < structures.len()
        invariant
            i <= structures@.len(),
            crate::structures::structures_representables(structures@),
            forall|j: int|
                0 <= j < i ==> !(#[trigger] structures@[j].built
                    && crate::structures::support_vie_spec(structures@[j].kind) && dans_emprise(
                    structures@[j].kind,
                    structures@[j].anchor,
                    position,
                ) && structures@[j].network_id == Some(0usize)),
        decreases structures@.len() - i,
    {
        let s = structures[i];
        if s.built && s.kind.supports_life() && s.network_id == Some(0usize) {
            assert(structures@[i as int].representable());
            let cells = s.occupied_cells();
            let mut k: usize = 0;
            while k < cells.len()
                invariant
                    k <= cells@.len(),
                    forall|m: int| 0 <= m < k ==> #[trigger] cells@[m] != position,
                    forall|c: Cellule| #[trigger] cells@.contains(c) <==> dans_emprise(s.kind, s.anchor, c),
                    s == structures@[i as int],
                    s.built && crate::structures::support_vie_spec(s.kind) && s.network_id == Some(0usize),
                    i < structures@.len(),
                decreases cells@.len() - k,
            {
                if cells[k] == position {
                    proof {
                        assert(cells@.contains(position));
                        assert(structures@[i as int].built);
                    }
                    return true;
                }
                k += 1;
            }
            proof {
                if dans_emprise(s.kind, s.anchor, position) {
                    assert(cells@.contains(position));
                    let m = choose|m: int| 0 <= m < cells@.len() && cells@[m] == position;
                }
            }
        }
        i += 1;
    }
    false
}

/// A shortest walk from `from` back to the recharge zone, within the cost
/// limit, around the structures.
pub fn chemin_vers_recharge_ouvrier<F: Fn(Cellule) -> TerrainCell>(
    zone_recharge: &ZoneRechargeBase,
    structures: &[StructureState],
    from: Cellule,
    limite_cout: i32,
    terrain_at: &F,
) -> (r: Option<crate::navigation::CheminCellulaire>)
    requires
        oracle_terrain(terrain_at),
        crate::navigation::dans_marge(from, crate::navigation::borne_limite(limite_cout)),
        crate::structures::structures_representables(structures@),
    ensures
        crate::navigation::chemin_vers_objectif_correct(
            terrain_at,
            crate::structures::cellules_occupees(structures@),
            from,
            zone_recharge@,
            limite_cout,
            r,
        ),
{
    let objectifs = cellules_origine_base(zone_recharge);
    if objectifs.len() == 0 {
        return None;
    }
    let occupees = crate::structures::cellules_occupees_structures(structures);
    proof {
        assert(occupees@ =~= crate::structures::cellules_occupees(structures@));
    }
    crate::navigation::trouver_chemin_vers_objectif(
        from,
        objectifs.as_slice(),
        &occupees,
        limite_cout,
        terrain_at,
    )
}

} // verus!
