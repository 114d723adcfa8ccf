//! Cells of the planetary grid, their neighbourhood, and the two hashed
//! containers (a set of cells and a map from cells to costs) that the
//! navigation and placement logic is built on.
use std::collections::{HashMap, HashSet};
use vstd::prelude::*;

verus! {

broadcast use vstd::std_specs::hash::group_hash_axioms;

/// A cell of the infinite planetary grid.
#[derive(Clone, Copy, Debug, PartialEq, Eq, Hash, Structural)]
pub struct Cellule {
    pub x: i32,
    pub y: i32,
}

impl Cellule {
    pub fn new(x: i32, y: i32) -> (c: Cellule)
        ensures
            c.x == x,
            c.y == y,
    {
        Cellule { x, y }
    }
}

pub open spec fn abs_int(v: int) -> int {
    if v < 0 { -v } else { v }
}

/// Manhattan (taxicab) distance between two cells.
pub open spec fn manhattan(a: Cellule, b: Cellule) -> int {
    abs_int(a.x - b.x) + abs_int(a.y - b.y)
}

/// Two cells share an edge.
pub open spec fn adjacentes(a: Cellule, b: Cellule) -> bool {
    manhattan(a, b) == 1
}

/// A cell whose four neighbours are representable.
pub open spec fn interieure(c: Cellule) -> bool {
    i32::MIN < c.x < i32::MAX && i32::MIN < c.y < i32::MAX
}

/// The `k`-th cardinal neighbour, in the order +X, -X, +Y, -Y.
pub open spec fn voisin(c: Cellule, k: int) -> Cellule {
    if k == 0 {
        Cellule { x: (c.x + 1) as i32, y: c.y }
    } else if k == 1 {
        Cellule { x: (c.x - 1) as i32, y: c.y }
    } else if k == 2 {
        Cellule { x: c.x, y: (c.y + 1) as i32 }
    } else {
        Cellule { x: c.x, y: (c.y - 1) as i32 }
    }
}

pub proof fn lemme_voisins_adjacents(c: Cellule)
    requires
        interieure(c),
    ensures
        forall|k: int| 0 <= k < 4 ==> #[trigger] adjacentes(c, voisin(c, k)),
        forall|k: int| 0 <= k < 4 ==> #[trigger] adjacentes(voisin(c, k), c),
        forall|b: Cellule|
            adjacentes(c, b) ==> (b == voisin(c, 0) || b == voisin(c, 1) || b == voisin(c, 2) || b
                == voisin(c, 3)),
{
}

/// The four cardinal neighbours of `cellule`, in the order +X, -X, +Y, -Y.
pub fn voisins_cardinaux(cellule: Cellule) -> (v: [Cellule; 4])
    requires
        interieure(cellule),
    ensures
        forall|k: int| 0 <= k < 4 ==> #[trigger] v@[k] == voisin(cellule, k),
{
    [
        Cellule { x: cellule.x + 1, y: cellule.y },
        Cellule { x: cellule.x - 1, y: cellule.y },
        Cellule { x: cellule.x, y: cellule.y + 1 },
        Cellule { x: cellule.x, y: cellule.y - 1 },
    ]
}

/// Manhattan distance between two cells, computed exactly in 64 bits.
pub fn distance_manhattan(a: Cellule, b: Cellule) -> (d: i64)
    ensures
        d == manhattan(a, b),
{
    let dx: i64 = a.x as i64 - b.x as i64;
    let dy: i64 = a.y as i64 - b.y as i64;
    let ax: i64 = if dx < 0 { -dx } else { dx };
    let ay: i64 = if dy < 0 { -dy } else { dy };
    ax + ay
}

/// The hash key of a cell: its two coordinates side by side in 64 bits.
pub open spec fn cle_cellule(c: Cellule) -> u64 {
    ((c.x as u32 as u64) << 32u64) | (c.y as u32 as u64)
}

pub proof fn lemme_cle_injective(a: Cellule, b: Cellule)
    ensures
        cle_cellule(a) == cle_cellule(b) <==> a == b,
{
    let (x1, y1, x2, y2) = (a.x, a.y, b.x, b.y);
    assert(((x1 as u32 as u64) << 32u64) | (y1 as u32 as u64) == ((x2 as u32 as u64) << 32u64) | (
    y2 as u32 as u64) ==> x1 == x2 && y1 == y2) by (bit_vector);
}

pub(crate) fn cle(c: Cellule) -> (k: u64)
    ensures
        k == cle_cellule(c),
{
    ((c.x as u32 as u64) << 32u64) | (c.y as u32 as u64)
}

/// A finite set of cells.
pub struct EnsembleCellules {
    cles: HashSet<u64>,
}

impl View for EnsembleCellules {
    type V = Set<Cellule>;

    closed spec fn view(&self) -> Set<Cellule> {
        Set::new(|c: Cellule| self.cles@.contains(cle_cellule(c)))
    }
}

impl EnsembleCellules {
    pub fn new() -> (e: EnsembleCellules)
        ensures
            e@ == Set::<Cellule>::empty(),
    {
        let e = EnsembleCellules { cles: HashSet::new() };
        assert(e@ =~= Set::<Cellule>::empty());
        e
    }

    pub fn contient(&self, c: Cellule) -> (r: bool)
        ensures
            r == self@.contains(c),
    {
        let k = cle(c);
        self.cles.contains(&k)
    }

    /// Adds `c`; returns whether it was absent.
    pub fn inserer(&mut self, c: Cellule) -> (nouveau: bool)
        ensures
            final(self)@ == old(self)@.insert(c),
            nouveau == !old(self)@.contains(c),
    {
        let k = cle(c);
        let r = self.cles.insert(k);
        proof {
            assert forall|d: Cellule| #[trigger] final(self)@.contains(d) == old(self)@.insert(
                c,
            ).contains(d) by {
                lemme_cle_injective(c, d);
            }
            assert(final(self)@ =~= old(self)@.insert(c));
        }
        r
    }

    pub fn depuis_cellules(cellules: &[Cellule]) -> (e: EnsembleCellules)
        ensures
            forall|c: Cellule| #[trigger] e@.contains(c) <==> cellules@.contains(c),
    {
        let mut e = EnsembleCellules::new();
        let mut i: usize = 0;
        while i < cellules.len()
            invariant
                i <= cellules.len(),
                forall|c: Cellule|
                    #[trigger] e@.contains(c) <==> exists|j: int|
                        0 <= j < i && #[trigger] cellules@[j] == c,
            decreases cellules.len() - i,
        {
            e.inserer(cellules[i]);
            proof {
                assert forall|c: Cellule| #[trigger] e@.contains(c) <==> exists|j: int|
                    0 <= j < i + 1 && #[trigger] cellules@[j] == c by {
                    if c == cellules@[i as int] {
                        assert(cellules@[i as int] == c);
                    }
                }
            }
            i += 1;
        }
        e
    }
}

/// A finite map from cells to walking costs.
pub struct CarteDistances {
    couts: HashMap<u64, i32>,
}

impl View for CarteDistances {
    type V = Map<Cellule, i32>;

    closed spec fn view(&self) -> Map<Cellule, i32> {
        Map::new(
            |c: Cellule| self.couts@.contains_key(cle_cellule(c)),
            |c: Cellule| self.couts@[cle_cellule(c)],
        )
    }
}

impl CarteDistances {
    pub fn new() -> (m: CarteDistances)
        ensures
            m@ == Map::<Cellule, i32>::empty(),
    {
        let m = CarteDistances { couts: HashMap::new() };
        assert(m@ =~= Map::<Cellule, i32>::empty());
        m
    }

    pub fn contains_key(&self, c: Cellule) -> (r: bool)
        ensures
            r == self@.contains_key(c),
    {
        let k = cle(c);
        self.couts.contains_key(&k)
    }

    pub fn get(&self, c: Cellule) -> (r: Option<i32>)
        ensures
            r == (if self@.contains_key(c) {
                Some(self@[c])
            } else {
                None
            }),
    {
        let k = cle(c);
        match self.couts.get(&k) {
            Some(v) => Some(*v),
            None => None,
        }
    }

    pub fn inserer(&mut self, c: Cellule, v: i32)
        ensures
            final(self)@ == old(self)@.insert(c, v),
    {
        let k = cle(c);
        self.couts.insert(k, v);
        proof {
            assert forall|d: Cellule| #[trigger]
                final(self)@.contains_key(d) == old(self)@.insert(c, v).contains_key(d) by {
                lemme_cle_injective(c, d);
            }
            assert forall|d: Cellule| #[trigger]
                final(self)@.contains_key(d) implies final(self)@[d] == old(self)@.insert(c, v)[d] by {
                lemme_cle_injective(c, d);
            }
            assert(final(self)@ =~= old(self)@.insert(c, v));
        }
    }
}

/// A finite map from cells to cells.
pub struct CarteCellules {
    liens: HashMap<u64, Cellule>,
}

impl View for CarteCellules {
    type V = Map<Cellule, Cellule>;

    closed spec fn view(&self) -> Map<Cellule, Cellule> {
        Map::new(
            |c: Cellule| self.liens@.contains_key(cle_cellule(c)),
            |c: Cellule| self.liens@[cle_cellule(c)],
        )
    }
}

impl CarteCellules {
    pub fn new() -> (m: CarteCellules)
        ensures
            m@ == Map::<Cellule, Cellule>::empty(),
    {
        let m = CarteCellules { liens: HashMap::new() };
        assert(m@ =~= Map::<Cellule, Cellule>::empty());
        m
    }

    pub fn get(&self, c: Cellule) -> (r: Option<Cellule>)
        ensures
            r == (if self@.contains_key(c) {
                Some(self@[c])
            } else {
                None
            }),
    {
        let k = cle(c);
        match self.liens.get(&k) {
            Some(v) => Some(*v),
            None => None,
        }
    }

    pub fn inserer(&mut self, c: Cellule, v: Cellule)
        ensures
            final(self)@ == old(self)@.insert(c, v),
    {
        let k = cle(c);
        self.liens.insert(k, v);
        proof {
            assert forall|d: Cellule| #[trigger]
                final(self)@.contains_key(d) == old(self)@.insert(c, v).contains_key(d) by {
                lemme_cle_injective(c, d);
            }
            assert forall|d: Cellule| #[trigger]
                final(self)@.contains_key(d) implies final(self)@[d] == old(self)@.insert(c, v)[d] by {
                lemme_cle_injective(c, d);
            }
            assert(final(self)@ =~= old(self)@.insert(c, v));
        }
    }
}

} // verus!
