//! The life-support cycle: which oxygen extractors are weighed for power,
//! and in which order. The energy each one needs and the ice it holds are
//! measured by the caller, who powers them in this order while the energy
//! lasts.
use crate::reseaux::identifiants_distincts;
use crate::structures::{StructureId, StructureKind, StructureState};
use crate::taches::contient_structure;
use vstd::prelude::*;

verus! {

/// A built oxygen extractor of the main network.
pub open spec fn extracteur_candidat(st: StructureState, connectees: Seq<StructureId>) -> bool {
    connectees.contains(st.id) && st.built && st.kind == StructureKind::OxygenExtractor
}

/// Structure `i` comes before structure `j`: lower identifier, then earlier
/// in the list.
pub open spec fn avant_par_id(s: Seq<StructureState>, i: int, j: int) -> bool {
    s[i].id.0 < s[j].id.0 || (s[i].id.0 == s[j].id.0 && i < j)
}

/// `r` lists, by increasing identifier (ties in list order), exactly the
/// structures of `s` that are candidate extractors.
pub open spec fn candidats_corrects(
    s: Seq<StructureState>,
    connectees: Seq<StructureId>,
    r: Seq<usize>,
) -> bool {
    &&& s.len() <= usize::MAX
    &&& forall|k: int|
        0 <= k < r.len() ==> #[trigger] r[k] < s.len() && extracteur_candidat(s[r[k] as int], connectees)
    &&& forall|i: int|
        0 <= i < s.len() && extracteur_candidat(#[trigger] s[i], connectees) ==> r.contains(i as usize)
    &&& forall|a: int, b: int| 0 <= a < b < r.len() ==> avant_par_id(s, #[trigger] r[a] as int, #[trigger] r[b] as int)
}

/// The built oxygen extractors of the main network, as places in
/// `structures`, by increasing identifier.
pub fn extracteurs_candidats(structures: &[StructureState], connectees: &[StructureId]) -> (r: Vec<
    usize,
>)
    ensures
        candidats_corrects(structures@, connectees@, r@),
{
    let mut r: Vec<usize> = Vec::new();
    let mut i: usize = 0;
    while i < structures.len()
        invariant
            i <= structures@.len(),
            forall|k: int|
                0 <= k < r@.len() ==> #[trigger] r@[k] < i && extracteur_candidat(
                    structures@[r@[k] as int],
                    connectees@,
                ),
            forall|m: int|
                0 <= m < i && extracteur_candidat(#[trigger] structures@[m], connectees@)
                    ==> r@.contains(m as usize),
            forall|a: int, b: int|
                0 <= a < b < r@.len() ==> avant_par_id(structures@, #[trigger] r@[a] as int, #[trigger] r@[b] as int),
        decreases structures@.len() - i,
    {
        let st = structures[i];
        if st.built && st.kind == StructureKind::OxygenExtractor && contient_structure(connectees, st.id) {
            let mut p: usize = 0;
            while p < r.len() && structures[r[p]].id.0 <= st.id.0
                invariant
                    p <= r@.len(),
                    i < structures@.len(),
                    st == structures@[i as int],
                    forall|k: int| 0 <= k < r@.len() ==> #[trigger] r@[k] < i,
                    forall|k: int| 0 <= k < p ==> structures@[#[trigger] r@[k] as int].id.0 <= st.id.0,
                decreases r@.len() - p,
            {
                p += 1;
            }
            let ghost avant = r@;
            r.insert(p, i);
            proof {
                assert(r@ == avant.insert(p as int, i));
                assert forall|a: int, b: int| 0 <= a < b < r@.len() implies avant_par_id(
                    structures@,
                    #[trigger] r@[a] as int,
                    #[trigger] r@[b] as int,
                ) by {
                    if b < p {
                        assert(r@[a] == avant[a] && r@[b] == avant[b]);
                    } else if b == p {
                        assert(r@[a] == avant[a]);
                        assert(structures@[avant[a] as int].id.0 <= st.id.0);
                    } else if a == p {
                        assert(r@[b] == avant[b - 1]);
                        assert(structures@[avant[p as int] as int].id.0 > st.id.0);
                        if b - 1 > p {
                            assert(avant_par_id(structures@, avant[p as int] as int, avant[b - 1] as int));
                        }
                    } else if a < p {
                        assert(r@[a] == avant[a] && r@[b] == avant[b - 1]);
                    } else {
                        assert(r@[a] == avant[a - 1] && r@[b] == avant[b - 1]);
                    }
                }
                assert forall|m: int|
                    0 <= m < i + 1 && extracteur_candidat(#[trigger] structures@[m], connectees@)
                        implies r@.contains(m as usize) by {
                    if m < i {
                        let k = choose|k: int| 0 <= k < avant.len() && avant[k] == m as usize;
                        if k < p {
                            assert(r@[k] == m as usize);
                        } else {
                            assert(r@[k + 1] == m as usize);
                        }
                    } else {
                        assert(r@[p as int] == i);
                    }
                }
            }
        } else {
            proof {
                assert forall|m: int|
                    0 <= m < i + 1 && extracteur_candidat(#[trigger] structures@[m], connectees@)
                        implies r@.contains(m as usize) by {
                    if m == i {
                        assert(st.built && st.kind == StructureKind::OxygenExtractor);
                    }
                }
            }
        }
        i += 1;
    }
    r
}

/// The structures at the places `r` of `s`.
pub open spec fn structures_aux(s: Seq<StructureState>, r: Seq<usize>) -> Seq<StructureState> {
    r.map_values(|i: usize| s[i as int])
}

pub open spec fn ids_croissants(a: Seq<StructureState>) -> bool {
    forall|x: int, y: int| 0 <= x < y < a.len() ==> #[trigger] a[x].id.0 < #[trigger] a[y].id.0
}

/// Two sequences in strictly increasing order of identifier that hold the
/// same structures are the same sequence.
proof fn lemme_tries_egales(a: Seq<StructureState>, b: Seq<StructureState>)
    requires
        ids_croissants(a),
        ids_croissants(b),
        forall|x: StructureState| a.contains(x) <==> b.contains(x),
    ensures
        a == b,
    decreases a.len(),
{
    if a.len() == 0 {
        if b.len() > 0 {
            assert(b.contains(b[0]));
        }
        assert(a =~= b);
    } else {
        assert(a.contains(a[0]));
        assert(b.contains(a[0]));
        let j = choose|j: int| 0 <= j < b.len() && b[j] == a[0];
        assert(b.contains(b[0]));
        let i = choose|i: int| 0 <= i < a.len() && a[i] == b[0];
        if j > 0 {
            assert(b[0].id.0 < b[j].id.0);
            if i > 0 {
                assert(a[0].id.0 < a[i].id.0);
            }
        }
        assert(a[0] == b[0]);
        let a2 = a.drop_first();
        let b2 = b.drop_first();
        assert forall|x: StructureState| a2.contains(x) <==> b2.contains(x) by {
            if a2.contains(x) {
                let k = choose|k: int| 0 <= k < a2.len() && a2[k] == x;
                assert(a[k + 1] == x);
                assert(a[0].id.0 < a[k + 1].id.0);
                assert(a.contains(x));
                assert(b.contains(x));
                let m = choose|m: int| 0 <= m < b.len() && b[m] == x;
                assert(m != 0);
                assert(b2[m - 1] == x);
            }
            if b2.contains(x) {
                let k = choose|k: int| 0 <= k < b2.len() && b2[k] == x;
                assert(b[k + 1] == x);
                assert(b[0].id.0 < b[k + 1].id.0);
                assert(b.contains(x));
                assert(a.contains(x));
                let m = choose|m: int| 0 <= m < a.len() && a[m] == x;
                assert(m != 0);
                assert(a2[m - 1] == x);
            }
        }
        lemme_tries_egales(a2, b2);
        assert(a =~= b) by {
            assert forall|k: int| 0 <= k < a.len() implies a[k] == b[k] by {
                if k > 0 {
                    assert(a2[k - 1] == b2[k - 1]);
                }
            }
        }
    }
}

/// What `candidats_corrects` lists, each identifier borne once: the
/// candidate structures of `s`, by strictly increasing identifier.
proof fn lemme_candidats_tries(s: Seq<StructureState>, connectees: Seq<StructureId>, r: Seq<usize>)
    requires
        identifiants_distincts(s),
        candidats_corrects(s, connectees, r),
    ensures
        ids_croissants(structures_aux(s, r)),
        forall|x: StructureState|
            structures_aux(s, r).contains(x) <==> (s.contains(x) && extracteur_candidat(x, connectees)),
{
    let a = structures_aux(s, r);
    assert forall|x: int, y: int| 0 <= x < y < a.len() implies #[trigger] a[x].id.0 < #[trigger] a[y].id.0 by {
        assert(avant_par_id(s, r[x] as int, r[y] as int));
        assert(r[x] < s.len() && r[y] < s.len());
        if r[x] == r[y] {
        } else {
            assert(s[r[x] as int].id != s[r[y] as int].id);
        }
    }
    assert forall|x: StructureState|
        a.contains(x) <==> (s.contains(x) && extracteur_candidat(x, connectees)) by {
        if a.contains(x) {
            let k = choose|k: int| 0 <= k < a.len() && a[k] == x;
            assert(r[k] < s.len());
            assert(s[r[k] as int] == x);
        }
        if s.contains(x) && extracteur_candidat(x, connectees) {
            let i = choose|i: int| 0 <= i < s.len() && s[i] == x;
            assert(extracteur_candidat(s[i], connectees));
            assert(r.contains(i as usize));
            let k = choose|k: int| 0 <= k < r.len() && r[k] == i as usize;
            assert((i as usize) as int == i);
            assert(a[k] == s[r[k] as int]);
            assert(a[k] == x);
        }
    }
}

/// The extractors weighed for power, and their order, do not depend on the
/// order in which the structures are listed: two listings of the same
/// structures, each identifier borne once, give the same extractors in the
/// same order.
pub proof fn loi_ordre_des_extracteurs(
    s1: Seq<StructureState>,
    s2: Seq<StructureState>,
    connectees: Seq<StructureId>,
    r1: Seq<usize>,
    r2: Seq<usize>,
)
    requires
        s1.to_multiset() == s2.to_multiset(),
        identifiants_distincts(s1),
        identifiants_distincts(s2),
        candidats_corrects(s1, connectees, r1),
        candidats_corrects(s2, connectees, r2),
    ensures
        structures_aux(s1, r1) == structures_aux(s2, r2),
{
    broadcast use vstd::seq_lib::group_to_multiset_ensures;

    lemme_candidats_tries(s1, connectees, r1);
    lemme_candidats_tries(s2, connectees, r2);
    assert forall|x: StructureState| s1.contains(x) <==> s2.contains(x) by {
        vstd::seq_lib::to_multiset_contains(s1, x);
        vstd::seq_lib::to_multiset_contains(s2, x);
    }
    lemme_tries_egales(structures_aux(s1, r1), structures_aux(s2, r2));
}

} // verus!
