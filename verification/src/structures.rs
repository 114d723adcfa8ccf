//! The colony's structures: their kinds and fixed characteristics, the cells
//! they cover, and when two of them are linked into one network.
use crate::grille::{abs_int, adjacentes, manhattan, Cellule, EnsembleCellules};
use vstd::prelude::*;

verus! {

#[derive(Clone, Copy, Debug, Default, PartialEq, Eq, Hash, Structural)]
pub struct StructureId(pub u32);

#[derive(Clone, Copy, Debug, Default, PartialEq, Eq, Hash, Structural)]
pub struct AstronautId(pub u32);

#[derive(Clone, Copy, Debug, Default, PartialEq, Eq, Hash, Structural)]
pub struct TaskId(pub u64);

#[derive(Clone, Copy, Debug, PartialEq, Eq, Hash, Structural)]
pub enum StructureKind {
    Lander,
    Habitat,
    SolarArray,
    OxygenExtractor,
    Storage,
    Tube,
}

/// The size of a footprint in cells, along x and along y.
#[derive(Clone, Copy, Debug, PartialEq, Eq, Structural)]
pub struct Emprise {
    pub x: u32,
    pub y: u32,
}

/// The characteristics of a kind of structure that the colony rules read.
#[derive(Clone, Copy, Debug)]
pub struct DefinitionStructure {
    pub kind: StructureKind,
    pub libelle: &'static str,
    pub emprise: Emprise,
    pub relais_reseau: bool,
    pub support_vie: bool,
    pub capacite_lits: u32,
}

/// Side of the square footprint of a kind.
pub open spec fn cote(kind: StructureKind) -> int {
    match kind {
        StructureKind::Storage | StructureKind::Tube => 1,
        _ => 2,
    }
}

pub open spec fn support_vie_spec(kind: StructureKind) -> bool {
    kind == StructureKind::Lander || kind == StructureKind::Habitat
}

pub open spec fn lits_spec(kind: StructureKind) -> u32 {
    match kind {
        StructureKind::Lander | StructureKind::Habitat => 4,
        _ => 0,
    }
}

/// The name a kind is shown under.
pub open spec fn libelle_spec(kind: StructureKind) -> &'static str {
    match kind {
        StructureKind::Lander => "Lander",
        StructureKind::Habitat => "Habitat",
        StructureKind::SolarArray => "Solar Array",
        StructureKind::OxygenExtractor => "O2 Extractor",
        StructureKind::Storage => "Storage",
        StructureKind::Tube => "Tube",
    }
}

pub fn definition_structure(kind: StructureKind) -> (d: DefinitionStructure)
    ensures
        d.kind == kind,
        d.libelle == libelle_spec(kind),
        d.emprise.x == cote(kind),
        d.emprise.y == cote(kind),
        d.relais_reseau,
        d.support_vie == support_vie_spec(kind),
        d.support_vie <==> (kind == StructureKind::Lander || kind == StructureKind::Habitat),
        d.capacite_lits == lits_spec(kind),
{
    match kind {
        StructureKind::Lander => DefinitionStructure {
            kind,
            libelle: "Lander",
            emprise: Emprise { x: 2, y: 2 },
            relais_reseau: true,
            support_vie: true,
            capacite_lits: 4,
        },
        StructureKind::Habitat => DefinitionStructure {
            kind,
            libelle: "Habitat",
            emprise: Emprise { x: 2, y: 2 },
            relais_reseau: true,
            support_vie: true,
            capacite_lits: 4,
        },
        StructureKind::SolarArray => DefinitionStructure {
            kind,
            libelle: "Solar Array",
            emprise: Emprise { x: 2, y: 2 },
            relais_reseau: true,
            support_vie: false,
            capacite_lits: 0,
        },
        StructureKind::OxygenExtractor => DefinitionStructure {
            kind,
            libelle: "O2 Extractor",
            emprise: Emprise { x: 2, y: 2 },
            relais_reseau: true,
            support_vie: false,
            capacite_lits: 0,
        },
        StructureKind::Storage => DefinitionStructure {
            kind,
            libelle: "Storage",
            emprise: Emprise { x: 1, y: 1 },
            relais_reseau: true,
            support_vie: false,
            capacite_lits: 0,
        },
        StructureKind::Tube => DefinitionStructure {
            kind,
            libelle: "Tube",
            emprise: Emprise { x: 1, y: 1 },
            relais_reseau: true,
            support_vie: false,
            capacite_lits: 0,
        },
    }
}

impl StructureKind {
    /// Every kind, in the order the construction bar lists them.
    pub fn all() -> (r: [StructureKind; 6])
        ensures
            r@ == seq![
                StructureKind::Habitat,
                StructureKind::SolarArray,
                StructureKind::OxygenExtractor,
                StructureKind::Storage,
                StructureKind::Tube,
                StructureKind::Lander,
            ],
    {
        let r = [
            StructureKind::Habitat,
            StructureKind::SolarArray,
            StructureKind::OxygenExtractor,
            StructureKind::Storage,
            StructureKind::Tube,
            StructureKind::Lander,
        ];
        assert(r@ =~= seq![
            StructureKind::Habitat,
            StructureKind::SolarArray,
            StructureKind::OxygenExtractor,
            StructureKind::Storage,
            StructureKind::Tube,
            StructureKind::Lander,
        ]);
        r
    }

    pub fn label(self) -> (r: &'static str)
        ensures
            r == libelle_spec(self),
    {
        definition_structure(self).libelle
    }

    pub fn footprint(self) -> (e: Emprise)
        ensures
            e.x == cote(self),
            e.y == cote(self),
    {
        definition_structure(self).emprise
    }

    pub fn relay(self) -> (r: bool)
        ensures
            r,
    {
        definition_structure(self).relais_reseau
    }

    pub fn supports_life(self) -> (r: bool)
        ensures
            r == support_vie_spec(self),
            r <==> (self == StructureKind::Lander || self == StructureKind::Habitat),
    {
        definition_structure(self).support_vie
    }
}

/// What the colony rules read of a structure.
#[derive(Clone, Copy, Debug, PartialEq, Eq, Structural)]
pub struct StructureState {
    pub id: StructureId,
    pub kind: StructureKind,
    pub anchor: Cellule,
    pub built: bool,
    pub network_id: Option<usize>,
}

/// The footprint fits in the grid: its far corner is representable.
pub open spec fn emprise_representable(kind: StructureKind, anchor: Cellule) -> bool {
    anchor.x + cote(kind) - 1 <= i32::MAX && anchor.y + cote(kind) - 1 <= i32::MAX
}

/// `c` lies under a structure of kind `kind` anchored at `anchor`.
pub open spec fn dans_emprise(kind: StructureKind, anchor: Cellule, c: Cellule) -> bool {
    anchor.x <= c.x < anchor.x + cote(kind) && anchor.y <= c.y < anchor.y + cote(kind)
}

/// The cells of a footprint, row by row from the anchor (`y` outer, `x` inner).
pub open spec fn cellules_emprise(kind: StructureKind, anchor: Cellule) -> Seq<Cellule> {
    Seq::new(
        (cote(kind) * cote(kind)) as nat,
        |i: int|
            Cellule {
                x: (anchor.x + i % cote(kind)) as i32,
                y: (anchor.y + i / cote(kind)) as i32,
            },
    )
}

pub proof fn lemme_cellules_emprise(kind: StructureKind, anchor: Cellule)
    requires
        emprise_representable(kind, anchor),
    ensures
        forall|c: Cellule| #[trigger]
            cellules_emprise(kind, anchor).contains(c) <==> dans_emprise(kind, anchor, c),
{
    let s = cellules_emprise(kind, anchor);
    let n = cote(kind);
    assert forall|c: Cellule| #[trigger] s.contains(c) <==> dans_emprise(kind, anchor, c) by {
        if dans_emprise(kind, anchor, c) {
            let i = (c.y - anchor.y) * n + (c.x - anchor.x);
            assert(s[i] == c);
        }
    }
}

/// The cells covered by a structure of kind `kind` anchored at `anchor`.
pub fn structure_cells(kind: StructureKind, anchor: Cellule) -> (cells: Vec<Cellule>)
    requires
        emprise_representable(kind, anchor),
    ensures
        cells@ == cellules_emprise(kind, anchor),
        forall|c: Cellule| #[trigger] cells@.contains(c) <==> dans_emprise(kind, anchor, c),
{
    let footprint = kind.footprint();
    let mut cells: Vec<Cellule> = Vec::new();
    let mut y: u32 = 0;
    while y < footprint.y
        invariant
            footprint.x == cote(kind),
            footprint.y == cote(kind),
            emprise_representable(kind, anchor),
            y <= footprint.y,
            cells@ == cellules_emprise(kind, anchor).subrange(0, y * footprint.x as int),
        decreases footprint.y - y,
    {
        let mut x: u32 = 0;
        while x < footprint.x
            invariant
                footprint.x == cote(kind),
                footprint.y == cote(kind),
                emprise_representable(kind, anchor),
                y < footprint.y,
                x <= footprint.x,
                cells@ == cellules_emprise(kind, anchor).subrange(0, y * footprint.x + x),
            decreases footprint.x - x,
        {
            let c = Cellule { x: anchor.x + x as i32, y: anchor.y + y as i32 };
            proof {
                let n = cote(kind);
                let i = y * n + x;
                assert(i % n == x && i / n == y) by (nonlinear_arith)
                    requires
                        i == y * n + x,
                        0 <= x < n,
                        0 <= y,
                ;
                assert(i < n * n) by (nonlinear_arith)
                    requires
                        i == y * n + x,
                        0 <= x < n,
                        0 <= y < n,
                ;
                assert(cellules_emprise(kind, anchor)[i] == c);
            }
            cells.push(c);
            proof {
                assert(cells@ =~= cellules_emprise(kind, anchor).subrange(
                    0,
                    y * footprint.x + x + 1,
                ));
            }
            x += 1;
        }
        proof {
            assert(y * footprint.x + footprint.x == (y + 1) * footprint.x) by (nonlinear_arith);
        }
        y += 1;
    }
    proof {
        assert(cellules_emprise(kind, anchor).len() == footprint.y * footprint.x) by (
        nonlinear_arith)
            requires
                footprint.x == cote(kind),
                footprint.y == cote(kind),
        ;
        assert(cells@ =~= cellules_emprise(kind, anchor));
        lemme_cellules_emprise(kind, anchor);
    }
    cells
}

impl StructureState {
    pub open spec fn representable(&self) -> bool {
        emprise_representable(self.kind, self.anchor)
    }

    pub fn occupied_cells(&self) -> (cells: Vec<Cellule>)
        requires
            self.representable(),
        ensures
            cells@ == cellules_emprise(self.kind, self.anchor),
            forall|c: Cellule| #[trigger]
                cells@.contains(c) <==> dans_emprise(self.kind, self.anchor, c),
    {
        structure_cells(self.kind, self.anchor)
    }
}

/// Every structure's footprint fits in the grid.
pub open spec fn structures_representables(structures: Seq<StructureState>) -> bool {
    forall|i: int| 0 <= i < structures.len() ==> #[trigger] structures[i].representable()
}

/// `c` lies under one of the structures.
pub open spec fn couverte(structures: Seq<StructureState>, c: Cellule) -> bool {
    exists|i: int|
        0 <= i < structures.len() && dans_emprise(
            #[trigger] structures[i].kind,
            structures[i].anchor,
            c,
        )
}

/// Every cell covered by one of the structures.
pub fn cellules_occupees_structures(structures: &[StructureState]) -> (occ: EnsembleCellules)
    requires
        structures_representables(structures@),
    ensures
        forall|c: Cellule| #[trigger] occ@.contains(c) <==> couverte(structures@, c),
{
    let mut occ = EnsembleCellules::new();
    let mut i: usize = 0;
    while i < structures.len()
        invariant
            i <= structures@.len(),
            structures_representables(structures@),
            forall|c: Cellule| #[trigger]
                occ@.contains(c) <==> couverte(structures@.subrange(0, i as int), c),
        decreases structures@.len() - i,
    {
        let s = structures[i];
        assert(structures@[i as int].representable());
        let cells = s.occupied_cells();
        let ghost occ0 = occ@;
        let mut j: usize = 0;
        while j < cells.len()
            invariant
                j <= cells@.len(),
                forall|c: Cellule| #[trigger] cells@.contains(c) <==> dans_emprise(s.kind, s.anchor, c),
                forall|c: Cellule| #[trigger]
                    occ@.contains(c) <==> (occ0.contains(c) || exists|k: int|
                        0 <= k < j && #[trigger] cells@[k] == c),
            decreases cells@.len() - j,
        {
            occ.inserer(cells[j]);
            proof {
                assert forall|c: Cellule| #[trigger] occ@.contains(c) <==> (occ0.contains(c)
                    || exists|k: int| 0 <= k < j + 1 && #[trigger] cells@[k] == c) by {
                    if c == cells@[j as int] {
                        assert(cells@[j as int] == c);
                    }
                }
            }
            j += 1;
        }
        proof {
            let pre = structures@.subrange(0, i as int);
            let post = structures@.subrange(0, i + 1);
            assert forall|c: Cellule| #[trigger] occ@.contains(c) <==> couverte(post, c) by {
                if occ@.contains(c) {
                    if occ0.contains(c) {
                        let k = choose|k: int|
                            0 <= k < pre.len() && dans_emprise(
                                #[trigger] pre[k].kind,
                                pre[k].anchor,
                                c,
                            );
                        assert(post[k] == pre[k]);
                    } else {
                        let k = choose|k: int| 0 <= k < j && #[trigger] cells@[k] == c;
                        assert(cells@.contains(c));
                        assert(post[i as int] == s);
                    }
                }
                if couverte(post, c) {
                    let k = choose|k: int|
                        0 <= k < post.len() && dans_emprise(
                            #[trigger] post[k].kind,
                            post[k].anchor,
                            c,
                        );
                    if k < i {
                        assert(pre[k] == post[k]);
                    } else {
                        assert(cells@.contains(c));
                        let m = choose|m: int| 0 <= m < cells@.len() && cells@[m] == c;
                    }
                }
            }
        }
        i += 1;
    }
    assert(structures@.subrange(0, structures@.len() as int) =~= structures@);
    occ
}

/// Two footprints share an edge.
pub open spec fn se_touchent(
    a_kind: StructureKind,
    a_anchor: Cellule,
    b_kind: StructureKind,
    b_anchor: Cellule,
) -> bool {
    exists|a: Cellule, b: Cellule|
        dans_emprise(a_kind, a_anchor, a) && dans_emprise(b_kind, b_anchor, b) && #[trigger]
            adjacentes(a, b)
}

/// The cell between `a` and `b`, two cells apart along a row or a column.
pub open spec fn pont(a: Cellule, b: Cellule) -> Cellule {
    Cellule {
        x: (a.x + (if b.x > a.x { 1int } else if b.x < a.x { -1int } else { 0int })) as i32,
        y: (a.y + (if b.y > a.y { 1int } else if b.y < a.y { -1int } else { 0int })) as i32,
    }
}

/// Two cells are linked: they share an edge, or they are two apart along a
/// row or column with a free cell between them (a short bridge).
pub open spec fn lien(a: Cellule, b: Cellule, occ: Set<Cellule>) -> bool {
    manhattan(a, b) == 1 || (manhattan(a, b) == 2 && (a.x == b.x || a.y == b.y) && !occ.contains(
        pont(a, b),
    ))
}

pub open spec fn relies(
    kind_a: StructureKind,
    anchor_a: Cellule,
    kind_b: StructureKind,
    anchor_b: Cellule,
    occ: Set<Cellule>,
) -> bool {
    exists|a: Cellule, b: Cellule|
        dans_emprise(kind_a, anchor_a, a) && dans_emprise(kind_b, anchor_b, b) && #[trigger] lien(
            a,
            b,
            occ,
        )
}

fn lien_exec(a: Cellule, b: Cellule, occ: &EnsembleCellules) -> (r: bool)
    ensures
        r == lien(a, b, occ@),
{
    let dx: i64 = b.x as i64 - a.x as i64;
    let dy: i64 = b.y as i64 - a.y as i64;
    let distance: i64 = (if dx < 0 { -dx } else { dx }) + (if dy < 0 { -dy } else { dy });
    if distance == 1 {
        return true;
    }
    if distance != 2 || (dx != 0 && dy != 0) {
        return false;
    }
    let sx: i64 = if dx > 0 { 1 } else if dx < 0 { -1 } else { 0 };
    let sy: i64 = if dy > 0 { 1 } else if dy < 0 { -1 } else { 0 };
    let p = Cellule { x: (a.x as i64 + sx) as i32, y: (a.y as i64 + sy) as i32 };
    assert(p == pont(a, b));
    !occ.contient(p)
}

/// Whether some cell of the first footprint and some cell of the second are
/// linked (adjacent, or bridged by one free cell).
pub fn structures_connectees_par_proximite(
    kind_a: StructureKind,
    anchor_a: Cellule,
    kind_b: StructureKind,
    anchor_b: Cellule,
    cellules_occupees: &EnsembleCellules,
) -> (r: bool)
    requires
        emprise_representable(kind_a, anchor_a),
        emprise_representable(kind_b, anchor_b),
    ensures
        r == relies(kind_a, anchor_a, kind_b, anchor_b, cellules_occupees@),
{
    let cellules_a = structure_cells(kind_a, anchor_a);
    let cellules_b = structure_cells(kind_b, anchor_b);
    let mut i: usize = 0;
    while i < cellules_a.len()
        invariant
            i <= cellules_a@.len(),
            forall|c: Cellule| #[trigger] cellules_a@.contains(c) <==> dans_emprise(kind_a, anchor_a, c),
            forall|c: Cellule| #[trigger] cellules_b@.contains(c) <==> dans_emprise(kind_b, anchor_b, c),
            forall|p: int, q: int|
                0 <= p < i && 0 <= q < cellules_b@.len() ==> !#[trigger] lien(
                    cellules_a@[p],
                    #[trigger] cellules_b@[q],
                    cellules_occupees@,
                ),
        decreases cellules_a@.len() - i,
    {
        let mut j: usize = 0;
        while j < cellules_b.len()
            invariant
                i < cellules_a@.len(),
                j <= cellules_b@.len(),
                forall|c: Cellule| #[trigger] cellules_a@.contains(c) <==> dans_emprise(kind_a, anchor_a, c),
                forall|c: Cellule| #[trigger] cellules_b@.contains(c) <==> dans_emprise(kind_b, anchor_b, c),
                forall|q: int|
                    0 <= q < j ==> !#[trigger] lien(cellules_a@[i as int], cellules_b@[q], cellules_occupees@),
            decreases cellules_b@.len() - j,
        {
            if lien_exec(cellules_a[i], cellules_b[j], cellules_occupees) {
                proof {
                    assert(cellules_a@.contains(cellules_a@[i as int]));
                    assert(cellules_b@.contains(cellules_b@[j as int]));
                    assert(lien(cellules_a@[i as int], cellules_b@[j as int], cellules_occupees@));
                }
                return true;
            }
            j += 1;
        }
        i += 1;
    }
    proof {
        assert forall|a: Cellule, b: Cellule|
            dans_emprise(kind_a, anchor_a, a) && dans_emprise(kind_b, anchor_b, b) implies !#[trigger] lien(
            a,
            b,
            cellules_occupees@,
        ) by {
            assert(cellules_a@.contains(a));
            assert(cellules_b@.contains(b));
            let p = choose|p: int| 0 <= p < cellules_a@.len() && cellules_a@[p] == a;
            let q = choose|q: int| 0 <= q < cellules_b@.len() && cellules_b@[q] == b;
            assert(!lien(cellules_a@[p], cellules_b@[q], cellules_occupees@));
        }
    }
    false
}

/// Whether the two footprints share an edge.
pub fn footprints_touch(
    a_kind: StructureKind,
    a_anchor: Cellule,
    b_kind: StructureKind,
    b_anchor: Cellule,
) -> (r: bool)
    requires
        emprise_representable(a_kind, a_anchor),
        emprise_representable(b_kind, b_anchor),
    ensures
        r == se_touchent(a_kind, a_anchor, b_kind, b_anchor),
{
    let a_cells = structure_cells(a_kind, a_anchor);
    let b_cells = structure_cells(b_kind, b_anchor);
    let mut i: usize = 0;
    while i < a_cells.len()
        invariant
            i <= a_cells@.len(),
            forall|c: Cellule| #[trigger] a_cells@.contains(c) <==> dans_emprise(a_kind, a_anchor, c),
            forall|c: Cellule| #[trigger] b_cells@.contains(c) <==> dans_emprise(b_kind, b_anchor, c),
            forall|p: int, q: int|
                0 <= p < i && 0 <= q < b_cells@.len() ==> !#[trigger] adjacentes(
                    a_cells@[p],
                    #[trigger] b_cells@[q],
                ),
        decreases a_cells@.len() - i,
    {
        let mut j: usize = 0;
        while j < b_cells.len()
            invariant
                i < a_cells@.len(),
                j <= b_cells@.len(),
                forall|c: Cellule| #[trigger] a_cells@.contains(c) <==> dans_emprise(a_kind, a_anchor, c),
                forall|c: Cellule| #[trigger] b_cells@.contains(c) <==> dans_emprise(b_kind, b_anchor, c),
                forall|q: int| 0 <= q < j ==> !#[trigger] adjacentes(a_cells@[i as int], b_cells@[q]),
            decreases b_cells@.len() - j,
        {
            let a = a_cells[i];
            let b = b_cells[j];
            let dx: i64 = a.x as i64 - b.x as i64;
            let dy: i64 = a.y as i64 - b.y as i64;
            if (if dx < 0 { -dx } else { dx }) + (if dy < 0 { -dy } else { dy }) == 1 {
                proof {
                    assert(a_cells@.contains(a_cells@[i as int]));
                    assert(b_cells@.contains(b_cells@[j as int]));
                    assert(adjacentes(a, b));
                }
                return true;
            }
            j += 1;
        }
        i += 1;
    }
    proof {
        assert forall|a: Cellule, b: Cellule|
            dans_emprise(a_kind, a_anchor, a) && dans_emprise(b_kind, b_anchor, b) implies !#[trigger] adjacentes(
            a,
            b,
        ) by {
            assert(a_cells@.contains(a));
            assert(b_cells@.contains(b));
            let p = choose|p: int| 0 <= p < a_cells@.len() && a_cells@[p] == a;
            let q = choose|q: int| 0 <= q < b_cells@.len() && b_cells@[q] == b;
            assert(!adjacentes(a_cells@[p], b_cells@[q]));
        }
    }
    false
}

/// Hands out structure identifiers one after the other.
#[derive(Debug, Default)]
pub struct StructureIdAllocator {
    next: u32,
}

impl StructureIdAllocator {
    pub closed spec fn prochain(&self) -> u32 {
        self.next
    }

    pub fn new() -> (a: StructureIdAllocator)
        ensures
            a.prochain() == 0,
    {
        StructureIdAllocator { next: 0 }
    }

    pub fn allocate(&mut self) -> (id: StructureId)
        requires
            old(self).prochain() < u32::MAX,
        ensures
            id.0 == old(self).prochain(),
            final(self).prochain() == old(self).prochain() + 1,
    {
        let id = StructureId(self.next);
        self.next = self.next + 1;
        id
    }
}

/// Identifiers handed out one after the other are all different.
pub proof fn loi_identifiants_distincts(a: StructureIdAllocator, b: StructureIdAllocator, ia: StructureId, ib: StructureId)
    requires
        ia.0 == a.prochain(),
        ib.0 == b.prochain(),
        a.prochain() < b.prochain(),
    ensures
        ia != ib,
{
}

/// Whether a new structure would join the main network: it is linked to a
/// built structure of network 0, or no such structure exists yet.
pub fn structure_rejoint_reseau_principal(
    kind: StructureKind,
    anchor: Cellule,
    structures: &[StructureState],
) -> (r: bool)
    requires
        emprise_representable(kind, anchor),
        structures_representables(structures@),
    ensures
        r == ((forall|i: int|
            0 <= i < structures@.len() ==> !(#[trigger] structures@[i].built
                && structures@[i].network_id == Some(0usize))) || exists|i: int|
            0 <= i < structures@.len() && #[trigger] structures@[i].built
                && structures@[i].network_id == Some(0usize) && relies(
                kind,
                anchor,
                structures@[i].kind,
                structures@[i].anchor,
                cellules_occupees(structures@),
            )),
{
    let mut a_primaire = false;
    let mut k: usize = 0;
    while k < structures.len()
        invariant
            k <= structures@.len(),
            a_primaire == exists|i: int|
                0 <= i < k && #[trigger] structures@[i].built && structures@[i].network_id == Some(
                    0usize,
                ),
        decreases structures@.len() - k,
    {
        if structures[k].built && structures[k].network_id == Some(0usize) {
            a_primaire = true;
        }
        k += 1;
    }
    if !a_primaire {
        return true;
    }
    let occ = cellules_occupees_structures(structures);
    proof {
        assert(occ@ =~= cellules_occupees(structures@));
    }
    let mut i: usize = 0;
    while i < structures.len()
        invariant
            i <= structures@.len(),
            emprise_representable(kind, anchor),
            structures_representables(structures@),
            occ@ == cellules_occupees(structures@),
            a_primaire,
            exists|i: int|
                0 <= i < structures@.len() && #[trigger] structures@[i].built
                    && structures@[i].network_id == Some(0usize),
            forall|j: int|
                0 <= j < i ==> !(#[trigger] structures@[j].built && structures@[j].network_id
                    == Some(0usize) && relies(
                    kind,
                    anchor,
                    structures@[j].kind,
                    structures@[j].anchor,
                    occ@,
                )),
        decreases structures@.len() - i,
    {
        let s = structures[i];
        if s.built && s.network_id == Some(0usize) {
            assert(structures@[i as int].representable());
            if structures_connectees_par_proximite(kind, anchor, s.kind, s.anchor, &occ) {
                return true;
            }
        }
        i += 1;
    }
    false
}

/// The set of cells covered by the structures.
pub open spec fn cellules_occupees(structures: Seq<StructureState>) -> Set<Cellule> {
    Set::new(|c: Cellule| couverte(structures, c))
}

/// Exactly the lander and the habitat support life: no other kind makes a
/// network a life-support one, nor refills a suit.
pub proof fn loi_support_vie(kind: StructureKind)
    ensures
        support_vie_spec(kind) <==> (kind == StructureKind::Lander || kind == StructureKind::Habitat),
        !support_vie_spec(StructureKind::OxygenExtractor),
        !support_vie_spec(StructureKind::SolarArray),
        !support_vie_spec(StructureKind::Storage),
        !support_vie_spec(StructureKind::Tube),
{
}

/// Two cells of a row or column that are two apart are linked exactly when
/// the cell between them is free; cells sharing an edge are always linked,
/// and cells farther apart, or diagonal, never.
pub proof fn loi_pont_libre(a: Cellule, b: Cellule, occ: Set<Cellule>)
    ensures
        b.y == a.y && b.x == a.x + 2 ==> (lien(a, b, occ) <==> !occ.contains(
            Cellule { x: (a.x + 1) as i32, y: a.y },
        )),
        b.y == a.y && b.x == a.x - 2 ==> (lien(a, b, occ) <==> !occ.contains(
            Cellule { x: (a.x - 1) as i32, y: a.y },
        )),
        b.x == a.x && b.y == a.y + 2 ==> (lien(a, b, occ) <==> !occ.contains(
            Cellule { x: a.x, y: (a.y + 1) as i32 },
        )),
        b.x == a.x && b.y == a.y - 2 ==> (lien(a, b, occ) <==> !occ.contains(
            Cellule { x: a.x, y: (a.y - 1) as i32 },
        )),
        abs_int(a.x - b.x) + abs_int(a.y - b.y) == 1 ==> lien(a, b, occ),
        abs_int(a.x - b.x) + abs_int(a.y - b.y) >= 3 ==> !lien(a, b, occ),
        abs_int(a.x - b.x) == 1 && abs_int(a.y - b.y) == 1 ==> !lien(a, b, occ),
        a == b ==> !lien(a, b, occ),
{
}

/// Two one-cell structures two cells apart along a row are linked exactly
/// when the cell between them is free.
pub proof fn loi_pont_entre_structures(
    kind_a: StructureKind,
    a: Cellule,
    kind_b: StructureKind,
    occ: Set<Cellule>,
)
    requires
        cote(kind_a) == 1,
        cote(kind_b) == 1,
        a.x + 2 <= i32::MAX,
    ensures
        relies(kind_a, a, kind_b, Cellule { x: (a.x + 2) as i32, y: a.y }, occ) <==> !occ.contains(
            Cellule { x: (a.x + 1) as i32, y: a.y },
        ),
{
    let b = Cellule { x: (a.x + 2) as i32, y: a.y };
    let m = Cellule { x: (a.x + 1) as i32, y: a.y };
    loi_pont_libre(a, b, occ);
    if relies(kind_a, a, kind_b, b, occ) {
        let (ca, cb) = choose|ca: Cellule, cb: Cellule|
            dans_emprise(kind_a, a, ca) && dans_emprise(kind_b, b, cb) && #[trigger] lien(ca, cb, occ);
        assert(ca.x == a.x && ca.y == a.y);
        assert(cb.x == b.x && cb.y == b.y);
        assert(ca == a && cb == b);
    }
    if !occ.contains(m) {
        assert(dans_emprise(kind_a, a, a));
        assert(dans_emprise(kind_b, b, b));
        assert(lien(a, b, occ));
    }
}

} // verus!
