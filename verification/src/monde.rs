//! The world is cut into square chunks of `CHUNK_SIZE_CELLS` cells a side.
//! This module converts between world cells and (chunk, local cell) pairs,
//! and holds what the simulation reads of a terrain cell.
use crate::grille::Cellule;
use vstd::prelude::*;

verus! {

pub const CHUNK_SIZE_CELLS: i32 = 32;

#[derive(Clone, Copy, Debug, Default, PartialEq, Eq, Hash, Structural)]
pub struct ChunkCoord {
    pub x: i32,
    pub y: i32,
}

/// A cell position inside a chunk.
#[derive(Clone, Copy, Debug, Default, PartialEq, Eq, Hash, Structural)]
pub struct CoordLocale {
    pub x: u32,
    pub y: u32,
}

#[derive(Clone, Copy, Debug, PartialEq, Eq, Hash, Structural)]
pub enum ResourceKind {
    Ice,
}

#[derive(Clone, Copy, Debug, PartialEq, Eq, Structural)]
pub struct ResourceDeposit {
    pub kind: ResourceKind,
    pub amount: u16,
}

/// What the colony logic reads of a terrain cell. Whether the slope is
/// gentle enough to walk on is decided where the slope is measured.
#[derive(Clone, Copy, Debug, PartialEq, Eq, Structural)]
pub struct TerrainCell {
    pub pente_marchable: bool,
    pub constructible: bool,
    pub resource: Option<ResourceDeposit>,
    pub blocked: bool,
}

pub open spec fn marchable(t: TerrainCell) -> bool {
    !t.blocked && t.pente_marchable
}

/// A cell can be walked on when nothing blocks it and its slope is gentle.
pub fn terrain_est_marchable(terrain: &TerrainCell) -> (r: bool)
    ensures
        r == marchable(*terrain),
{
    !terrain.blocked && terrain.pente_marchable
}

/// The chunk holding a world cell (floor division by the chunk size).
pub open spec fn chunk_de(c: Cellule) -> ChunkCoord {
    ChunkCoord { x: (c.x as int / 32) as i32, y: (c.y as int / 32) as i32 }
}

/// The place of a world cell inside its chunk (Euclidean remainder).
pub open spec fn locale_de(c: Cellule) -> CoordLocale {
    CoordLocale { x: (c.x as int % 32) as u32, y: (c.y as int % 32) as u32 }
}

pub open spec fn cellule_de(coord: ChunkCoord, local: CoordLocale) -> Cellule {
    Cellule { x: (coord.x * 32 + local.x) as i32, y: (coord.y * 32 + local.y) as i32 }
}

pub open spec fn locale_valide(local: CoordLocale) -> bool {
    local.x < 32 && local.y < 32
}

/// A world cell is the sum of its chunk origin and its local position.
pub open spec fn cellule_representable(coord: ChunkCoord, local: CoordLocale) -> bool {
    i32::MIN <= coord.x * 32 + local.x <= i32::MAX && i32::MIN <= coord.y * 32 + local.y
        <= i32::MAX
}

fn division_chunk(v: i32) -> (r: (i32, u32))
    ensures
        r.0 == v as int / 32,
        r.1 == v as int % 32,
{
    let decale: i64 = v as i64 + 2147483648;
    let q: i64 = decale / 32;
    let reste: i64 = decale % 32;
    assert(v as int / 32 == q - 67108864 && v as int % 32 == reste) by (nonlinear_arith)
        requires
            decale == v + 2147483648,
            q == decale / 32,
            reste == decale % 32,
            decale >= 0,
    ;
    ((q - 67108864) as i32, reste as u32)
}

/// Splits a world cell into its chunk and its position inside the chunk.
pub fn world_cell_to_chunk(cell: Cellule) -> (r: (ChunkCoord, CoordLocale))
    ensures
        r.0 == chunk_de(cell),
        r.1 == locale_de(cell),
        locale_valide(r.1),
        cell.x == r.0.x * 32 + r.1.x,
        cell.y == r.0.y * 32 + r.1.y,
{
    let (cx, lx) = division_chunk(cell.x);
    let (cy, ly) = division_chunk(cell.y);
    (ChunkCoord { x: cx, y: cy }, CoordLocale { x: lx, y: ly })
}

/// The world cell at position `local` inside chunk `coord`.
pub fn chunk_local_to_world_cell(coord: ChunkCoord, local: CoordLocale) -> (c: Cellule)
    requires
        cellule_representable(coord, local),
    ensures
        c == cellule_de(coord, local),
{
    let x: i64 = coord.x as i64 * 32 + local.x as i64;
    let y: i64 = coord.y as i64 * 32 + local.y as i64;
    Cellule { x: x as i32, y: y as i32 }
}

/// Splitting a cell and putting it back together gives the same cell.
pub proof fn loi_aller_retour_cellule(c: Cellule)
    ensures
        cellule_representable(chunk_de(c), locale_de(c)),
        locale_valide(locale_de(c)),
        cellule_de(chunk_de(c), locale_de(c)) == c,
{
}

/// A valid local position inside a chunk is recovered from the world cell it names.
pub proof fn loi_aller_retour_chunk(coord: ChunkCoord, local: CoordLocale)
    requires
        locale_valide(local),
        cellule_representable(coord, local),
    ensures
        chunk_de(cellule_de(coord, local)) == coord,
        locale_de(cellule_de(coord, local)) == local,
{
    let c = cellule_de(coord, local);
    assert((coord.x * 32 + local.x) / 32 == coord.x && (coord.x * 32 + local.x) % 32 == local.x)
        by (nonlinear_arith)
        requires
            0 <= local.x < 32,
    ;
    assert((coord.y * 32 + local.y) / 32 == coord.y && (coord.y * 32 + local.y) % 32 == local.y)
        by (nonlinear_arith)
        requires
            0 <= local.y < 32,
    ;
}

/// The index of a local cell in a chunk's row-major cell list.
pub open spec fn indice_local(local: CoordLocale) -> int {
    local.y * 32 + local.x
}

/// What the colony logic reads of a generated chunk: its terrain cells in
/// row-major order, and the local cells that still hold a resource.
pub struct ChunkState {
    pub coord: ChunkCoord,
    pub cells: Vec<TerrainCell>,
    pub resource_cells: Vec<CoordLocale>,
}

/// The cell at `local` after extraction: its deposit loses what was taken,
/// and disappears once empty.
pub open spec fn apres_extraction(t: TerrainCell, pris: int) -> TerrainCell {
    let reste = t.resource->0.amount - pris;
    TerrainCell {
        resource: if reste == 0 {
            None
        } else {
            Some(ResourceDeposit { kind: t.resource->0.kind, amount: reste as u16 })
        },
        ..t
    }
}

/// The ice a cell holds.
pub open spec fn montant(t: TerrainCell) -> int {
    match t.resource {
        Some(d) => d.amount as int,
        None => 0,
    }
}

/// Extraction creates nothing: what is taken and what is left add up to
/// what the deposit held, and the deposit is gone exactly when all was taken.
pub proof fn loi_extraction_sans_creation(t: TerrainCell, pris: int)
    requires
        t.resource is Some,
        0 <= pris <= t.resource->0.amount,
    ensures
        montant(apres_extraction(t, pris)) + pris == montant(t),
        apres_extraction(t, pris).resource is None <==> pris == t.resource->0.amount,
        apres_extraction(t, pris).constructible == t.constructible,
        apres_extraction(t, pris).blocked == t.blocked,
        apres_extraction(t, pris).pente_marchable == t.pente_marchable,
{
}

pub open spec fn autre_locale(local: CoordLocale) -> spec_fn(CoordLocale) -> bool {
    |e: CoordLocale| e != local
}

impl ChunkState {
    /// Where `local` lies in `cells`, if it lies inside the chunk.
    pub open spec fn emplacement(&self, local: CoordLocale) -> Option<int> {
        if locale_valide(local) && indice_local(local) < self.cells@.len() {
            Some(indice_local(local))
        } else {
            None
        }
    }

    /// The terrain cell at `local`, when `local` is inside the chunk.
    pub fn cell(&self, local: CoordLocale) -> (r: Option<&TerrainCell>)
        ensures
            r == (match self.emplacement(local) {
                Some(i) => Some(&self.cells@[i]),
                None => None,
            }),
    {
        if local.x >= 32 || local.y >= 32 {
            return None;
        }
        let index: usize = local.y as usize * 32 + local.x as usize;
        if index < self.cells.len() {
            Some(&self.cells[index])
        } else {
            None
        }
    }

    pub fn resource_cells(&self) -> (r: &[CoordLocale])
        ensures
            r@ == self.resource_cells@,
    {
        self.resource_cells.as_slice()
    }

    /// Takes up to `amount` from the deposit at `local` and returns what was
    /// taken. An emptied deposit disappears, and so does its cell from the
    /// list of resource cells.
    pub fn extract_resource(&mut self, local: CoordLocale, amount: u16) -> (extracted: u16)
        ensures
            final(self).coord == old(self).coord,
            ({
                let e = old(self).emplacement(local);
                if e is None || old(self).cells@[e->0].resource is None {
                    &&& extracted == 0
                    &&& final(self).cells@ == old(self).cells@
                    &&& final(self).resource_cells@ == old(self).resource_cells@
                } else {
                    let i = e->0;
                    let dispo = old(self).cells@[i].resource->0.amount;
                    &&& extracted == (if dispo < amount { dispo } else { amount })
                    &&& final(self).cells@ == old(self).cells@.update(
                        i,
                        apres_extraction(old(self).cells@[i], extracted as int),
                    )
                    &&& final(self).resource_cells@ == (if dispo == extracted {
                        old(self).resource_cells@.filter(autre_locale(local))
                    } else {
                        old(self).resource_cells@
                    })
                }
            }),
    {
        if local.x >= 32 || local.y >= 32 {
            return 0;
        }
        let index: usize = local.y as usize * 32 + local.x as usize;
        if index >= self.cells.len() {
            return 0;
        }
        let mut cellule = self.cells[index];
        let depot = match cellule.resource {
            Some(d) => d,
            None => {
                return 0;
            },
        };
        let extracted: u16 = if depot.amount < amount {
            depot.amount
        } else {
            amount
        };
        let reste: u16 = depot.amount - extracted;
        let depleted = reste == 0;
        cellule.resource = if depleted {
            None
        } else {
            Some(ResourceDeposit { kind: depot.kind, amount: reste })
        };
        self.cells.set(index, cellule);
        if depleted {
            let ghost p = autre_locale(local);
            let mut gardees: Vec<CoordLocale> = Vec::new();
            let mut j: usize = 0;
            while j < self.resource_cells.len()
                invariant
                    j <= self.resource_cells@.len(),
                    p == autre_locale(local),
                    gardees@ == self.resource_cells@.take(j as int).filter(p),
                decreases self.resource_cells@.len() - j,
            {
                proof {
                    crate::tri_stable::lemme_filtre_take(self.resource_cells@, j as int, p);
                }
                let e = self.resource_cells[j];
                if e != local {
                    gardees.push(e);
                }
                j += 1;
            }
            proof {
                assert(self.resource_cells@.take(self.resource_cells@.len() as int)
                    =~= self.resource_cells@);
            }
            self.resource_cells = gardees;
        }
        extracted
    }
}

} // verus!
