//! Sorting cells without repetition by the orders the colony uses: by
//! coordinates, or by distance to a reference cell and then by coordinates.
use crate::grille::{distance_manhattan, manhattan, Cellule};
use vstd::prelude::*;

verus! {

/// An order on cells. Each compares a triple of integers lexicographically.
#[derive(Clone, Copy, Debug, PartialEq, Eq, Structural)]
pub enum OrdreCellules {
    /// By `x`, then by `y`.
    ParXY,
    /// By distance to the cell, then by `x`, then by `y`.
    ParDistanceXY(Cellule),
    /// By distance to the cell, then by `y`, then by `x`.
    ParDistanceYX(Cellule),
}

pub open spec fn cle_tri(c: Cellule, ordre: OrdreCellules) -> (int, int, int) {
    match ordre {
        OrdreCellules::ParXY => (0, c.x as int, c.y as int),
        OrdreCellules::ParDistanceXY(r) => (manhattan(c, r), c.x as int, c.y as int),
        OrdreCellules::ParDistanceYX(r) => (manhattan(c, r), c.y as int, c.x as int),
    }
}

pub open spec fn lex_lt(a: (int, int, int), b: (int, int, int)) -> bool {
    a.0 < b.0 || (a.0 == b.0 && (a.1 < b.1 || (a.1 == b.1 && a.2 < b.2)))
}

/// `a` comes strictly before `b`.
pub open spec fn avant(a: Cellule, b: Cellule, ordre: OrdreCellules) -> bool {
    lex_lt(cle_tri(a, ordre), cle_tri(b, ordre))
}

/// Strictly increasing in the order, hence without repetition.
pub open spec fn trie_strict(s: Seq<Cellule>, ordre: OrdreCellules) -> bool {
    forall|i: int, j: int| 0 <= i < j < s.len() ==> avant(#[trigger] s[i], #[trigger] s[j], ordre)
}

pub proof fn lemme_ordre_total(a: Cellule, b: Cellule, ordre: OrdreCellules)
    ensures
        a == b || avant(a, b, ordre) || avant(b, a, ordre),
        !(avant(a, b, ordre) && avant(b, a, ordre)),
        !avant(a, a, ordre),
{
}

fn cle_exec(c: Cellule, ordre: OrdreCellules) -> (k: (i64, i32, i32))
    ensures
        k.0 == cle_tri(c, ordre).0,
        k.1 == cle_tri(c, ordre).1,
        k.2 == cle_tri(c, ordre).2,
{
    match ordre {
        OrdreCellules::ParXY => (0, c.x, c.y),
        OrdreCellules::ParDistanceXY(r) => (distance_manhattan(c, r), c.x, c.y),
        OrdreCellules::ParDistanceYX(r) => (distance_manhattan(c, r), c.y, c.x),
    }
}

pub fn precede(a: Cellule, b: Cellule, ordre: OrdreCellules) -> (r: bool)
    ensures
        r == avant(a, b, ordre),
{
    let ka = cle_exec(a, ordre);
    let kb = cle_exec(b, ordre);
    ka.0 < kb.0 || (ka.0 == kb.0 && (ka.1 < kb.1 || (ka.1 == kb.1 && ka.2 < kb.2)))
}

/// Inserts `c` at its place in a strictly sorted vector, unless present.
pub fn inserer_trie(v: &mut Vec<Cellule>, c: Cellule, ordre: OrdreCellules)
    requires
        trie_strict(old(v)@, ordre),
    ensures
        trie_strict(final(v)@, ordre),
        forall|x: Cellule| #[trigger]
            final(v)@.contains(x) <==> (old(v)@.contains(x) || x == c),
{
    let mut i: usize = 0;
    while i < v.len() && precede(v[i], c, ordre)
        invariant
            i <= v@.len(),
            v@ == old(v)@,
            forall|j: int| 0 <= j < i ==> avant(#[trigger] v@[j], c, ordre),
        decreases v@.len() - i,
    {
        i += 1;
    }
    if i < v.len() && v[i] == c {
        return ;
    }
    proof {
        if i < v@.len() {
            lemme_ordre_total(v@[i as int], c, ordre);
        }
    }
    let ghost v0 = v@;
    v.insert(i, c);
    proof {
        assert(v@ == v0.insert(i as int, c));
        assert forall|a: int, b: int| 0 <= a < b < v@.len() implies avant(
            #[trigger] v@[a],
            #[trigger] v@[b],
            ordre,
        ) by {
            if b < i {
            } else if b == i {
            } else if a < i {
                assert(avant(v0[a], c, ordre));
                assert(v@[b] == v0[b - 1]);
                if i < v0.len() {
                    assert(b - 1 >= i);
                    if b - 1 > i {
                        assert(avant(v0[i as int], v0[b - 1], ordre));
                    }
                }
            } else if a == i {
                assert(v@[b] == v0[b - 1]);
                if b - 1 > i {
                    assert(avant(v0[i as int], v0[b - 1], ordre));
                }
            } else {
                assert(v@[a] == v0[a - 1] && v@[b] == v0[b - 1]);
            }
        }
        assert forall|x: Cellule| #[trigger] v@.contains(x) <==> (v0.contains(x) || x == c) by {
            if v@.contains(x) {
                let k = choose|k: int| 0 <= k < v@.len() && v@[k] == x;
                if k < i {
                    assert(v0[k] == x);
                } else if k > i {
                    assert(v0[k - 1] == x);
                }
            }
            if v0.contains(x) {
                let k = choose|k: int| 0 <= k < v0.len() && v0[k] == x;
                if k < i {
                    assert(v@[k] == x);
                } else {
                    assert(v@[k + 1] == x);
                }
            }
            if x == c {
                assert(v@[i as int] == x);
            }
        }
    }
}

/// The cells of `cellules`, each once, in increasing order.
pub fn trier_sans_doublons(cellules: &[Cellule], ordre: OrdreCellules) -> (r: Vec<Cellule>)
    ensures
        trie_strict(r@, ordre),
        forall|x: Cellule| #[trigger] r@.contains(x) <==> cellules@.contains(x),
{
    let mut r: Vec<Cellule> = Vec::new();
    let mut i: usize = 0;
    while i < cellules.len()
        invariant
            i <= cellules@.len(),
            trie_strict(r@, ordre),
            forall|x: Cellule| #[trigger]
                r@.contains(x) <==> exists|j: int| 0 <= j < i && #[trigger] cellules@[j] == x,
        decreases cellules@.len() - i,
    {
        inserer_trie(&mut r, cellules[i], ordre);
        proof {
            assert forall|x: Cellule| #[trigger] r@.contains(x) <==> exists|j: int|
                0 <= j < i + 1 && #[trigger] cellules@[j] == x by {
                if x == cellules@[i as int] {
                    assert(cellules@[i as int] == x);
                }
            }
        }
        i += 1;
    }
    r
}

/// Two strictly sorted sequences with the same elements are equal.
pub proof fn lemme_trie_unique(a: Seq<Cellule>, b: Seq<Cellule>, ordre: OrdreCellules)
    requires
        trie_strict(a, ordre),
        trie_strict(b, ordre),
        forall|x: Cellule| #[trigger] a.contains(x) <==> b.contains(x),
    ensures
        a == b,
    decreases a.len(),
{
    if a.len() == 0 {
        if b.len() > 0 {
            assert(b.contains(b[0]));
            assert(a.contains(b[0]));
            let k = choose|k: int| 0 <= k < a.len() && a[k] == b[0];
        }
        assert(a =~= b);
    } else if b.len() == 0 {
        assert(a.contains(a[0]));
        assert(b.contains(a[0]));
        let k = choose|k: int| 0 <= k < b.len() && b[k] == a[0];
    } else {
        let (a0, b0) = (a[0], b[0]);
        assert(a.contains(a0));
        assert(b.contains(b0));
        assert(a.contains(b0));
        assert(b.contains(a0));
        let i = choose|i: int| 0 <= i < b.len() && b[i] == a0;
        let j = choose|j: int| 0 <= j < a.len() && a[j] == b0;
        if i > 0 {
            assert(avant(b[0], b[i], ordre));
            if j > 0 {
                assert(avant(a[0], a[j], ordre));
                lemme_ordre_total(a0, b0, ordre);
            }
        }
        assert(a0 == b0);
        let (ra, rb) = (a.drop_first(), b.drop_first());
        assert forall|x: Cellule| #[trigger] ra.contains(x) <==> rb.contains(x) by {
            if ra.contains(x) {
                let k = choose|k: int| 0 <= k < ra.len() && ra[k] == x;
                assert(a[k + 1] == x);
                assert(a.contains(x));
                assert(b.contains(x));
                let m = choose|m: int| 0 <= m < b.len() && b[m] == x;
                assert(avant(a[0], a[k + 1], ordre));
                if m == 0 {
                    lemme_ordre_total(a0, x, ordre);
                }
                assert(rb[m - 1] == x);
            }
            if rb.contains(x) {
                let k = choose|k: int| 0 <= k < rb.len() && rb[k] == x;
                assert(b[k + 1] == x);
                assert(b.contains(x));
                assert(a.contains(x));
                let m = choose|m: int| 0 <= m < a.len() && a[m] == x;
                assert(avant(b[0], b[k + 1], ordre));
                if m == 0 {
                    lemme_ordre_total(b0, x, ordre);
                }
                assert(ra[m - 1] == x);
            }
        }
        assert(trie_strict(ra, ordre)) by {
            assert forall|p: int, q: int| 0 <= p < q < ra.len() implies avant(
                #[trigger] ra[p],
                #[trigger] ra[q],
                ordre,
            ) by {
                assert(avant(a[p + 1], a[q + 1], ordre));
            }
        }
        assert(trie_strict(rb, ordre)) by {
            assert forall|p: int, q: int| 0 <= p < q < rb.len() implies avant(
                #[trigger] rb[p],
                #[trigger] rb[q],
                ordre,
            ) by {
                assert(avant(b[p + 1], b[q + 1], ordre));
            }
        }
        lemme_trie_unique(ra, rb, ordre);
        assert(a =~= seq![a0] + ra);
        assert(b =~= seq![b0] + rb);
        assert(a =~= b);
    }
}

} // verus!
