//! Life-support networks. Two built structures whose footprints are linked
//! (adjacent, or bridged by one free cell) share a network, and so do
//! structures joined by a chain of such links. Networks come out with those
//! holding a life-support module first, then the larger ones first.
use crate::grille::{Cellule, EnsembleCellules};
use crate::structures::{
    cellules_occupees, cellules_occupees_structures, dans_emprise, lien, relies,
    structures_connectees_par_proximite, structures_representables, support_vie_spec,
    StructureId, StructureKind, StructureState,
};
use crate::tri::lex_lt;
use crate::tri_stable::lemme_filtre_take;
use vstd::prelude::*;

verus! {

/// No two structures carry the same identifier.
pub open spec fn identifiants_distincts(s: Seq<StructureState>) -> bool {
    forall|i: int, j: int|
        0 <= i < s.len() && 0 <= j < s.len() && i != j ==> #[trigger] s[i].id != #[trigger] s[j].id
}

/// Built structures `i` and `j` are linked directly. (Every kind relays.)
pub open spec fn arete(s: Seq<StructureState>, i: usize, j: usize) -> bool {
    &&& i < s.len()
    &&& j < s.len()
    &&& i != j
    &&& s[i as int].built
    &&& s[j as int].built
    &&& relies(
        s[i as int].kind,
        s[i as int].anchor,
        s[j as int].kind,
        s[j as int].anchor,
        cellules_occupees(s),
    )
}

/// No link leaves the set `e` of structure indices.
pub open spec fn ferme(s: Seq<StructureState>, e: Set<usize>) -> bool {
    forall|i: usize, j: usize| #[trigger] e.contains(i) && #[trigger] arete(s, i, j) ==> e.contains(j)
}

/// `j` is reached from `i` through a chain of links: every set of indices
/// that holds `i` and that no link leaves holds `j`.
pub open spec fn connectes(s: Seq<StructureState>, i: usize, j: usize) -> bool {
    forall|e: Set<usize>| #[trigger] ferme(s, e) && e.contains(i) ==> e.contains(j)
}

proof fn lemme_lien_symetrique(a: Cellule, b: Cellule, occ: Set<Cellule>)
    requires
        lien(a, b, occ),
    ensures
        lien(b, a, occ),
{
    if crate::grille::manhattan(a, b) == 2 {
        assert(crate::structures::pont(a, b) == crate::structures::pont(b, a));
    }
}

proof fn lemme_relies_symetrique(
    ka: StructureKind,
    aa: Cellule,
    kb: StructureKind,
    ab: Cellule,
    occ: Set<Cellule>,
)
    requires
        relies(ka, aa, kb, ab, occ),
    ensures
        relies(kb, ab, ka, aa, occ),
{
    let (a, b) = choose|a: Cellule, b: Cellule|
        dans_emprise(ka, aa, a) && dans_emprise(kb, ab, b) && #[trigger] lien(a, b, occ);
    lemme_lien_symetrique(a, b, occ);
}

proof fn lemme_arete_symetrique(s: Seq<StructureState>, i: usize, j: usize)
    requires
        arete(s, i, j),
    ensures
        arete(s, j, i),
{
    lemme_relies_symetrique(
        s[i as int].kind,
        s[i as int].anchor,
        s[j as int].kind,
        s[j as int].anchor,
        cellules_occupees(s),
    );
}

/// Linked structures are reached from one another.
pub proof fn lemme_connectes_arete(s: Seq<StructureState>, a: usize, i: usize, j: usize)
    requires
        connectes(s, a, i),
        arete(s, i, j),
    ensures
        connectes(s, a, j),
{
    assert forall|e: Set<usize>| #[trigger] ferme(s, e) && e.contains(a) implies e.contains(j) by {
        assert(e.contains(i));
    }
}

/// Being reached is symmetric.
pub proof fn lemme_connectes_symetrique(s: Seq<StructureState>, i: usize, j: usize)
    requires
        connectes(s, i, j),
    ensures
        connectes(s, j, i),
{
    assert forall|e: Set<usize>| #[trigger] ferme(s, e) && e.contains(j) implies e.contains(i) by {
        if !e.contains(i) {
            let c = Set::new(|x: usize| !e.contains(x));
            assert forall|x: usize, y: usize| #[trigger] c.contains(x) && #[trigger] arete(
                s,
                x,
                y,
            ) implies c.contains(y) by {
                if e.contains(y) {
                    lemme_arete_symetrique(s, x, y);
                }
            }
            assert(ferme(s, c));
            assert(c.contains(i));
        }
    }
}

/// Being reached is transitive.
pub proof fn lemme_connectes_transitif(s: Seq<StructureState>, i: usize, j: usize, k: usize)
    requires
        connectes(s, i, j),
        connectes(s, j, k),
    ensures
        connectes(s, i, k),
{
    assert forall|e: Set<usize>| #[trigger] ferme(s, e) && e.contains(i) implies e.contains(k) by {
        assert(e.contains(j));
    }
}

pub open spec fn ensemble_visites(v: Seq<bool>) -> Set<usize> {
    Set::new(|i: usize| i < v.len() && v[i as int])
}

pub open spec fn ensemble_indices(c: Seq<usize>) -> Set<usize> {
    Set::new(|i: usize| c.contains(i))
}

proof fn lemme_distincts_bornes(c: Seq<usize>, n: usize)
    requires
        c.no_duplicates(),
        forall|k: int| 0 <= k < c.len() ==> #[trigger] c[k] < n,
    ensures
        c.len() <= n,
{
    let t = c.map_values(|x: usize| x as int);
    c.lemma_no_duplicates_injective(|x: usize| x as int);
    t.unique_seq_to_set();
    vstd::set_lib::lemma_int_range(0, n as int);
    assert forall|x: int| #[trigger] t.to_set().contains(x) implies vstd::set_lib::set_int_range(
        0,
        n as int,
    ).contains(x) by {
        let k = choose|k: int| 0 <= k < t.len() && t[k] == x;
        assert(c[k] < n);
    }
    vstd::set_lib::lemma_len_subset(t.to_set(), vstd::set_lib::set_int_range(0, n as int));
}

/// The structures linked to `i`, by increasing index.
pub open spec fn voisins_dfs(s: Seq<StructureState>, i: usize) -> Seq<usize> {
    Seq::new(s.len(), |j: int| j as usize).filter(|j: usize| arete(s, i, j))
}

/// The structures a depth-first walk visits, in order, within `pas` steps:
/// each step takes the top of the stack `pile`, skips it when `vis` marks it,
/// and otherwise visits and marks it and stacks the structures linked to it
/// by increasing index (so the highest comes out next).
pub open spec fn ordre_dfs(s: Seq<StructureState>, pile: Seq<usize>, vis: Seq<bool>, pas: nat) -> Seq<
    usize,
>
    decreases pas,
{
    if pas == 0 || pile.len() == 0 {
        Seq::empty()
    } else {
        let i = pile.last();
        let reste = pile.drop_last();
        if vis[i as int] {
            ordre_dfs(s, reste, vis, (pas - 1) as nat)
        } else {
            seq![i] + ordre_dfs(s, reste + voisins_dfs(s, i), vis.update(i as int, true), (pas - 1) as nat)
        }
    }
}

/// From `f` steps on, the walk gives `ordre`.
pub open spec fn stable_apres(
    s: Seq<StructureState>,
    pile: Seq<usize>,
    vis: Seq<bool>,
    ordre: Seq<usize>,
    f: nat,
) -> bool {
    forall|g: nat| g >= f ==> #[trigger] ordre_dfs(s, pile, vis, g) == ordre
}

/// `ordre` is everything the walk from `pile` visits: with enough steps the
/// walk gives exactly `ordre`, and more steps add nothing.
pub open spec fn dfs_complet(s: Seq<StructureState>, pile: Seq<usize>, vis: Seq<bool>, ordre: Seq<usize>) -> bool {
    exists|f: nat| #[trigger] stable_apres(s, pile, vis, ordre, f)
}

/// No structure marked.
pub open spec fn aucun_marque(n: nat) -> Seq<bool> {
    Seq::new(n, |i: int| false)
}

/// The walk only reads the marks of the structures it can reach: two
/// markings that agree on a set closed under links, holding the stack, give
/// the same walk.
proof fn lemme_dfs_independant(
    s: Seq<StructureState>,
    pile: Seq<usize>,
    v1: Seq<bool>,
    v2: Seq<bool>,
    c: Set<usize>,
    g: nat,
)
    requires
        ferme(s, c),
        v1.len() == v2.len(),
        forall|k: int| 0 <= k < pile.len() ==> c.contains(#[trigger] pile[k]),
        forall|x: usize| #[trigger] c.contains(x) ==> x < v1.len() && v1[x as int] == v2[x as int],
    ensures
        ordre_dfs(s, pile, v1, g) == ordre_dfs(s, pile, v2, g),
    decreases g,
{
    if g > 0 && pile.len() > 0 {
        let i = pile.last();
        let reste = pile.drop_last();
        assert(c.contains(pile[pile.len() - 1]));
        if v1[i as int] {
            lemme_dfs_independant(s, reste, v1, v2, c, (g - 1) as nat);
        } else {
            let vs = voisins_dfs(s, i);
            Seq::new(s.len(), |j: int| j as usize).filter_lemma(|j: usize| arete(s, i, j));
            let p2 = reste + vs;
            assert forall|k: int| 0 <= k < p2.len() implies c.contains(#[trigger] p2[k]) by {
                if k < reste.len() {
                    assert(p2[k] == pile[k]);
                } else {
                    assert(p2[k] == vs[k - reste.len()]);
                    assert(arete(s, i, vs[k - reste.len()]));
                }
            }
            let (w1, w2) = (v1.update(i as int, true), v2.update(i as int, true));
            assert forall|x: usize| #[trigger] c.contains(x) implies x < w1.len() && w1[x as int]
                == w2[x as int] by {}
            lemme_dfs_independant(s, p2, w1, w2, c, (g - 1) as nat);
        }
    }
}

/// The indices reached from `depart` that were not yet visited, by a
/// depth-first walk along the links; they are marked visited.
fn composante(
    structures: &[StructureState],
    occ: &EnsembleCellules,
    depart: usize,
    visites: &mut Vec<bool>,
) -> (comp: Vec<usize>)
    requires
        structures_representables(structures@),
        occ@ == cellules_occupees(structures@),
        old(visites)@.len() == structures@.len(),
        depart < structures@.len(),
        structures@[depart as int].built,
        !old(visites)@[depart as int],
        ferme(structures@, ensemble_visites(old(visites)@)),
    ensures
        final(visites)@.len() == structures@.len(),
        forall|i: usize|
            i < structures@.len() ==> (#[trigger] final(visites)@[i as int] <==> (old(
                visites,
            )@[i as int] || comp@.contains(i))),
        comp@.no_duplicates(),
        comp@.len() > 0,
        comp@[0] == depart,
        forall|x: usize| #[trigger]
            comp@.contains(x) ==> x < structures@.len() && !old(visites)@[x as int]
                && structures@[x as int].built && connectes(structures@, depart, x),
        ferme(structures@, ensemble_indices(comp@)),
        dfs_complet(structures@, seq![depart], old(visites)@, comp@),
{
    let n = structures.len();
    let ghost s = structures@;
    let ghost v0 = visites@;
    let ghost mut etapes: nat = 0;
    let mut comp: Vec<usize> = Vec::new();
    let mut pile: Vec<usize> = Vec::new();
    pile.push(depart);
    proof {
        assert(pile@ =~= seq![depart]);
        assert forall|g: nat| #[trigger] ordre_dfs(s, seq![depart], v0, etapes + g) == comp@
            + ordre_dfs(s, pile@, visites@, g) by {
            assert(comp@ + ordre_dfs(s, pile@, visites@, g) =~= ordre_dfs(s, pile@, visites@, g));
        }
    }
    while pile.len() > 0
        invariant
            n == s.len(),
            structures@ == s,
            occ@ == cellules_occupees(s),
            structures_representables(s),
            v0.len() == n,
            depart < n,
            s[depart as int].built,
            !v0[depart as int],
            ferme(s, ensemble_visites(v0)),
            visites@.len() == n,
            forall|i: usize|
                i < n ==> (#[trigger] visites@[i as int] <==> (v0[i as int] || comp@.contains(i))),
            comp@.no_duplicates(),
            comp@.len() == 0 ==> pile@ == seq![depart],
            comp@.len() > 0 ==> comp@[0] == depart,
            forall|k: int| 0 <= k < comp@.len() ==> #[trigger] comp@[k] < n,
            forall|x: usize| #[trigger]
                comp@.contains(x) ==> x < n && !v0[x as int] && s[x as int].built && connectes(
                    s,
                    depart,
                    x,
                ),
            forall|x: usize| #[trigger]
                pile@.contains(x) ==> x < n && s[x as int].built && connectes(s, depart, x),
            forall|x: usize, y: usize| #[trigger]
                comp@.contains(x) && #[trigger] arete(s, x, y) ==> visites@[y as int]
                    || pile@.contains(y),
            forall|g: nat|
                #[trigger] ordre_dfs(s, seq![depart], v0, etapes + g) == comp@ + ordre_dfs(
                    s,
                    pile@,
                    visites@,
                    g,
                ),
        decreases n - comp@.len(), pile@.len(),
    {
        let ghost pile0 = pile@;
        let ghost vis_avant = visites@;
        let ghost comp_avant = comp@;
        let i = pile.pop().unwrap();
        proof {
            assert(pile0 == pile@.push(i));
            assert(pile0.contains(i)) by {
                assert(pile0[pile0.len() - 1] == i);
            }
            assert forall|y: usize| #[trigger] pile0.contains(y) && y != i implies pile@.contains(
                y,
            ) by {
                let k = choose|k: int| 0 <= k < pile0.len() && pile0[k] == y;
                assert(pile@[k] == y);
            }
            assert forall|y: usize| #[trigger] pile@.contains(y) implies pile0.contains(y) by {
                let k = choose|k: int| 0 <= k < pile@.len() && pile@[k] == y;
                assert(pile0[k] == y);
            }
        }
        if visites[i] {
            proof {
                lemme_distincts_bornes(comp@, n);
                assert(pile0.last() == i && pile0.drop_last() == pile@);
                assert forall|g: nat| #[trigger]
                    ordre_dfs(s, seq![depart], v0, (etapes + 1) + g) == comp@ + ordre_dfs(
                        s,
                        pile@,
                        visites@,
                        g,
                    ) by {
                    assert(ordre_dfs(s, seq![depart], v0, etapes + (g + 1)) == comp@ + ordre_dfs(
                        s,
                        pile0,
                        visites@,
                        g + 1,
                    ));
                }
                etapes = etapes + 1;
            }
            continue;
        }
        let ghost comp0 = comp@;
        proof {
            assert(!comp0.contains(i));
            lemme_distincts_bornes(comp0.push(i), n);
        }
        visites.set(i, true);
        comp.push(i);
        proof {
            assert(comp@ == comp0.push(i));
            assert forall|x: usize| #[trigger] comp@.contains(x) implies comp0.contains(x) || x
                == i by {
                let k = choose|k: int| 0 <= k < comp@.len() && comp@[k] == x;
                if k < comp0.len() {
                    assert(comp0[k] == x);
                }
            }
            assert forall|x: usize| comp0.contains(x) implies #[trigger] comp@.contains(x) by {
                let k = choose|k: int| 0 <= k < comp0.len() && comp0[k] == x;
                assert(comp@[k] == x);
            }
            assert(comp@[comp@.len() - 1] == i);
        }
        let ghost rang = Seq::new(n as nat, |k: int| k as usize);
        let ghost lie = |k: usize| arete(s, i, k);
        let ghost reste = pile@;
        proof {
            assert(pile0.last() == i && pile0.drop_last() == reste);
            assert(rang.take(0).filter(lie) =~= Seq::<usize>::empty()) by {
                reveal_with_fuel(Seq::filter, 1);
            }
            assert(pile@ =~= reste + rang.take(0).filter(lie));
        }
        let mut j: usize = 0;
        while j < n
            invariant
                n == s.len(),
                structures@ == s,
                occ@ == cellules_occupees(s),
                structures_representables(s),
                rang == Seq::new(n as nat, |k: int| k as usize),
                lie == (|k: usize| arete(s, i, k)),
                pile@ == reste + rang.take(j as int).filter(lie),
                i < n,
                s[i as int].built,
                connectes(s, depart, i),
                comp@.contains(i),
                j <= n,
                forall|x: usize| #[trigger]
                    pile@.contains(x) ==> x < n && s[x as int].built && connectes(s, depart, x),
                forall|x: usize, y: usize| #[trigger]
                    comp@.contains(x) && #[trigger] arete(s, x, y) && x != i ==> visites@[y as int]
                        || pile@.contains(y),
                forall|y: usize| y < j && #[trigger] arete(s, i, y) ==> pile@.contains(y),
            decreases n - j,
        {
            let si = structures[i];
            let sj = structures[j];
            proof {
                lemme_filtre_take(rang, j as int, lie);
                assert(rang[j as int] == j);
            }
            let ghost pile_j = pile@;
            if j != i && sj.built && si.kind.relay() && sj.kind.relay() {
                proof {
                    assert(s[i as int].representable());
                    assert(s[j as int].representable());
                }
                if structures_connectees_par_proximite(si.kind, si.anchor, sj.kind, sj.anchor, occ) {
                    let ghost p0 = pile@;
                    pile.push(j);
                    proof {
                        assert(arete(s, i, j));
                        lemme_connectes_arete(s, depart, i, j);
                        assert(pile@ == p0.push(j));
                        assert forall|x: usize| #[trigger] pile@.contains(x) implies p0.contains(x)
                            || x == j by {
                            let k = choose|k: int| 0 <= k < pile@.len() && pile@[k] == x;
                            if k < p0.len() {
                                assert(p0[k] == x);
                            }
                        }
                        assert forall|x: usize| p0.contains(x) implies #[trigger] pile@.contains(
                            x,
                        ) by {
                            let k = choose|k: int| 0 <= k < p0.len() && p0[k] == x;
                            assert(pile@[k] == x);
                        }
                        assert(pile@[pile@.len() - 1] == j);
                    }
                }
            }
            proof {
                if arete(s, i, j) {
                    assert(pile@ == pile_j.push(j));
                    assert(pile@ =~= reste + rang.take(j + 1).filter(lie));
                } else {
                    assert(pile@ == pile_j);
                    assert(pile@ =~= reste + rang.take(j + 1).filter(lie));
                }
            }
            j += 1;
        }
        proof {
            assert(rang.take(n as int) =~= rang);
            assert(pile@ == reste + voisins_dfs(s, i));
            assert(visites@ == vis_avant.update(i as int, true));
            assert(comp@ == comp_avant.push(i));
            assert forall|g: nat| #[trigger]
                ordre_dfs(s, seq![depart], v0, (etapes + 1) + g) == comp@ + ordre_dfs(
                    s,
                    pile@,
                    visites@,
                    g,
                ) by {
                assert(ordre_dfs(s, seq![depart], v0, etapes + (g + 1)) == comp_avant + ordre_dfs(
                    s,
                    pile0,
                    vis_avant,
                    g + 1,
                ));
                assert(ordre_dfs(s, pile0, vis_avant, g + 1) == seq![i] + ordre_dfs(
                    s,
                    pile@,
                    visites@,
                    g,
                ));
                assert(comp_avant + (seq![i] + ordre_dfs(s, pile@, visites@, g)) =~= comp@
                    + ordre_dfs(s, pile@, visites@, g));
            }
            etapes = etapes + 1;
        }
    }
    proof {
        let c = ensemble_indices(comp@);
        assert forall|x: usize, y: usize| #[trigger] c.contains(x) && #[trigger] arete(
            s,
            x,
            y,
        ) implies c.contains(y) by {
            assert(comp@.contains(x));
            assert(visites@[y as int]);
            if v0[y as int] {
                lemme_arete_symetrique(s, x, y);
                assert(ensemble_visites(v0).contains(y));
            }
        }
        assert forall|g: nat| g >= etapes implies #[trigger] ordre_dfs(s, seq![depart], v0, g)
            == comp@ by {
            let h = (g - etapes) as nat;
            assert(ordre_dfs(s, seq![depart], v0, etapes + h) == comp@ + ordre_dfs(
                s,
                pile@,
                visites@,
                h,
            ));
            assert(comp@ + ordre_dfs(s, pile@, visites@, h) =~= comp@);
        }
        assert(stable_apres(s, seq![depart], v0, comp@, etapes));
    }
    comp
}

/// A life-support network: the structures it joins, and whether one of
/// them is a life-support module. Its reserves are kept beside it.
#[derive(Clone, Debug)]
pub struct LifeSupportNetwork {
    pub network_id: usize,
    pub structures: Vec<StructureId>,
    pub connected_life_support: bool,
}

/// The index of the structure carrying `id`.
pub open spec fn position(s: Seq<StructureState>, id: StructureId) -> int {
    choose|i: int| 0 <= i < s.len() && s[i].id == id
}

/// `id` is the identifier of a built structure.
pub open spec fn identifiant_bati(s: Seq<StructureState>, id: StructureId) -> bool {
    exists|i: usize| i < s.len() && s[i as int].built && #[trigger] s[i as int].id == id
}

/// The indices of the structures carrying the identifiers `ids`.
pub open spec fn indices_de(s: Seq<StructureState>, ids: Seq<StructureId>) -> Seq<usize> {
    ids.map_values(|id: StructureId| position(s, id) as usize)
}

/// Network `r` holds structure `i`.
pub open spec fn dans_reseau(s: Seq<StructureState>, r: LifeSupportNetwork, i: usize) -> bool {
    r.structures@.contains(s[i as int].id)
}

/// The order of networks: those holding a life-support module first, then
/// the larger ones, then the one whose earliest structure comes first.
pub open spec fn cle_reseau(s: Seq<StructureState>, r: LifeSupportNetwork) -> (int, int, int) {
    (
        if r.connected_life_support { 0 } else { 1 },
        -(r.structures@.len() as int),
        position(s, r.structures@[0]),
    )
}

/// `r` lists the networks of the built structures of `s`: each built
/// structure lies in exactly one of them, two built structures share one
/// exactly when a chain of links joins them, each network is flagged when it
/// holds a life-support module, lists its earliest structure first and the
/// others in the order a depth-first walk from it visits them, and the
/// networks come in the order of `cle_reseau`, numbered from 0.
pub open spec fn reseaux_corrects(s: Seq<StructureState>, r: Seq<LifeSupportNetwork>) -> bool {
    &&& forall|n: int| 0 <= n < r.len() ==> #[trigger] r[n].network_id == n
    &&& forall|n: int|
        0 <= n < r.len() ==> #[trigger] r[n].structures@.len() > 0
            && r[n].structures@.no_duplicates()
    &&& forall|n: int, m: int|
        0 <= n < r.len() && 0 <= m < r[n].structures@.len() ==> identifiant_bati(
            s,
            #[trigger] r[n].structures@[m],
        )
    &&& forall|i: usize|
        i < s.len() && s[i as int].built ==> exists|n: int|
            0 <= n < r.len() && #[trigger] dans_reseau(s, r[n], i)
    &&& forall|i: usize, n1: int, n2: int|
        i < s.len() && 0 <= n1 < r.len() && 0 <= n2 < r.len() && #[trigger] dans_reseau(
            s,
            r[n1],
            i,
        ) && #[trigger] dans_reseau(s, r[n2], i) ==> n1 == n2
    &&& forall|n: int, i: usize, j: usize|
        0 <= n < r.len() && i < s.len() && j < s.len() && s[i as int].built && s[j as int].built
            && #[trigger] dans_reseau(s, r[n], i) ==> (#[trigger] dans_reseau(s, r[n], j)
            <==> connectes(s, i, j))
    &&& forall|n: int|
        0 <= n < r.len() ==> (#[trigger] r[n].connected_life_support <==> exists|i: usize|
            i < s.len() && s[i as int].built && #[trigger] dans_reseau(s, r[n], i)
                && support_vie_spec(s[i as int].kind))
    &&& forall|n: int, i: usize|
        0 <= n < r.len() && i < s.len() && s[i as int].built && #[trigger] dans_reseau(
            s,
            r[n],
            i,
        ) ==> position(s, r[n].structures@[0]) <= i
    &&& forall|a: int, b: int|
        0 <= a < b < r.len() ==> lex_lt(
            #[trigger] cle_reseau(s, r[a]),
            #[trigger] cle_reseau(s, r[b]),
        )
    &&& forall|n: int|
        0 <= n < r.len() ==> dfs_complet(
            s,
            seq![indices_de(s, r[n].structures@)[0]],
            aucun_marque(s.len()),
            indices_de(s, #[trigger] r[n].structures@),
        )
}

spec fn composantes_ok(
    s: Seq<StructureState>,
    cs: Seq<Vec<usize>>,
    vs: Seq<bool>,
    vis: Seq<bool>,
    borne: int,
) -> bool {
    &&& vis.len() == s.len()
    &&& cs.len() == vs.len()
    &&& forall|k: int|
        0 <= k < cs.len() ==> #[trigger] cs[k]@.len() > 0 && cs[k]@.no_duplicates() && cs[k]@[0]
            < borne && ferme(s, ensemble_indices(cs[k]@))
    &&& forall|k: int, x: usize|
        0 <= k < cs.len() && #[trigger] cs[k]@.contains(x) ==> x < s.len() && s[x as int].built
            && connectes(s, cs[k]@[0], x) && cs[k]@[0] <= x
    &&& forall|k1: int, k2: int, x: usize|
        0 <= k1 < cs.len() && 0 <= k2 < cs.len() && #[trigger] cs[k1]@.contains(x)
            && #[trigger] cs[k2]@.contains(x) ==> k1 == k2
    &&& forall|i: usize|
        i < s.len() ==> (#[trigger] vis[i as int] <==> exists|k: int|
            0 <= k < cs.len() && #[trigger] cs[k]@.contains(i))
    &&& forall|k: int|
        0 <= k < cs.len() ==> (#[trigger] vs[k] <==> exists|x: usize|
            #[trigger] cs[k]@.contains(x) && support_vie_spec(s[x as int].kind))
    &&& forall|i: usize| i < borne && i < s.len() && s[i as int].built ==> #[trigger] vis[i as int]
    &&& ferme(s, ensemble_visites(vis))
    &&& forall|k: int|
        0 <= k < cs.len() ==> dfs_complet(s, seq![cs[k]@[0]], aucun_marque(s.len()), #[trigger] cs[k]@)
}

spec fn cle_composante(cs: Seq<Vec<usize>>, vs: Seq<bool>, k: int) -> (int, int, int) {
    (if vs[k] { 0 } else { 1 }, -(cs[k]@.len() as int), cs[k]@[0] as int)
}

spec fn ordre_ok(cs: Seq<Vec<usize>>, vs: Seq<bool>, ordre: Seq<usize>) -> bool {
    &&& ordre.len() == cs.len()
    &&& ordre.no_duplicates()
    &&& forall|p: int| 0 <= p < ordre.len() ==> #[trigger] ordre[p] < cs.len()
    &&& forall|k: usize| k < cs.len() ==> #[trigger] ordre.contains(k)
    &&& forall|a: int, b: int|
        0 <= a < b < ordre.len() ==> lex_lt(
            cle_composante(cs, vs, #[trigger] ordre[a] as int),
            cle_composante(cs, vs, #[trigger] ordre[b] as int),
        )
}

fn precede_cle(
    vie_a: bool,
    taille_a: usize,
    premier_a: usize,
    vie_b: bool,
    taille_b: usize,
    premier_b: usize,
) -> (r: bool)
    ensures
        r == lex_lt(
            (if vie_a { 0 } else { 1 }, -(taille_a as int), premier_a as int),
            (if vie_b { 0 } else { 1 }, -(taille_b as int), premier_b as int),
        ),
{
    let ra: u8 = if vie_a { 0 } else { 1 };
    let rb: u8 = if vie_b { 0 } else { 1 };
    ra < rb || (ra == rb && (taille_a > taille_b || (taille_a == taille_b && premier_a < premier_b)))
}

fn contient_support_vie(structures: &[StructureState], comp: &Vec<usize>) -> (r: bool)
    requires
        forall|k: int| 0 <= k < comp@.len() ==> #[trigger] comp@[k] < structures@.len(),
    ensures
        r <==> exists|x: usize| #[trigger]
            comp@.contains(x) && support_vie_spec(structures@[x as int].kind),
{
    let mut m: usize = 0;
    while m < comp.len()
        invariant
            m <= comp@.len(),
            forall|k: int| 0 <= k < comp@.len() ==> #[trigger] comp@[k] < structures@.len(),
            forall|k: int| 0 <= k < m ==> !support_vie_spec(structures@[#[trigger] comp@[k] as int].kind),
        decreases comp@.len() - m,
    {
        if structures[comp[m]].kind.supports_life() {
            assert(comp@.contains(comp@[m as int]));
            return true;
        }
        m += 1;
    }
    proof {
        assert forall|x: usize| #[trigger] comp@.contains(x) implies !support_vie_spec(
            structures@[x as int].kind,
        ) by {
            let k = choose|k: int| 0 <= k < comp@.len() && comp@[k] == x;
        }
    }
    false
}

proof fn lemme_ajout_composante(
    s: Seq<StructureState>,
    cs: Seq<Vec<usize>>,
    vs: Seq<bool>,
    vis0: Seq<bool>,
    vis1: Seq<bool>,
    comp: Vec<usize>,
    vie: bool,
    d: usize,
)
    requires
        composantes_ok(s, cs, vs, vis0, d as int),
        d < s.len(),
        s[d as int].built,
        !vis0[d as int],
        vis1.len() == s.len(),
        forall|i: usize|
            i < s.len() ==> (#[trigger] vis1[i as int] <==> (vis0[i as int] || comp@.contains(i))),
        comp@.no_duplicates(),
        comp@.len() > 0,
        comp@[0] == d,
        forall|x: usize| #[trigger]
            comp@.contains(x) ==> x < s.len() && !vis0[x as int] && s[x as int].built
                && connectes(s, d, x),
        ferme(s, ensemble_indices(comp@)),
        vie <==> exists|x: usize| #[trigger]
            comp@.contains(x) && support_vie_spec(s[x as int].kind),
        dfs_complet(s, seq![d], vis0, comp@),
    ensures
        composantes_ok(s, cs.push(comp), vs.push(vie), vis1, d + 1),
{
    let cs1 = cs.push(comp);
    let f = choose|f: nat| #[trigger] stable_apres(s, seq![d], vis0, comp@, f);
    assert forall|g: nat| g >= f implies #[trigger] ordre_dfs(s, seq![d], aucun_marque(s.len()), g)
        == comp@ by {
        let c = ensemble_indices(comp@);
        assert(comp@.contains(comp@[0]));
        assert forall|k: int| 0 <= k < seq![d].len() implies c.contains(#[trigger] seq![d][k]) by {}
        lemme_dfs_independant(s, seq![d], vis0, aucun_marque(s.len()), c, g);
    }
    assert(stable_apres(s, seq![d], aucun_marque(s.len()), comp@, f));
    assert forall|k: int| 0 <= k < cs1.len() implies dfs_complet(
        s,
        seq![cs1[k]@[0]],
        aucun_marque(s.len()),
        #[trigger] cs1[k]@,
    ) by {
        if k < cs.len() {
            assert(cs1[k] == cs[k]);
        } else {
            assert(cs1[k] == comp);
        }
    }
    let vs1 = vs.push(vie);
    let nk = cs.len() as int;
    assert(cs1[nk] == comp);
    assert forall|k: int| 0 <= k < cs1.len() implies #[trigger] cs1[k]@.len() > 0
        && cs1[k]@.no_duplicates() && cs1[k]@[0] < d + 1 && ferme(
        s,
        ensemble_indices(cs1[k]@),
    ) by {
        if k < nk {
            assert(cs1[k] == cs[k]);
        }
    }
    assert forall|k: int, x: usize| 0 <= k < cs1.len() && #[trigger] cs1[k]@.contains(
        x,
    ) implies x < s.len() && s[x as int].built && connectes(s, cs1[k]@[0], x) && cs1[k]@[0]
        <= x by {
        if k < nk {
            assert(cs1[k] == cs[k]);
        } else {
            if x < d {
                assert(vis0[x as int]);
            }
        }
    }
    assert forall|k1: int, k2: int, x: usize|
        0 <= k1 < cs1.len() && 0 <= k2 < cs1.len() && #[trigger] cs1[k1]@.contains(x)
            && #[trigger] cs1[k2]@.contains(x) implies k1 == k2 by {
        if k1 < nk && k2 < nk {
            assert(cs1[k1] == cs[k1] && cs1[k2] == cs[k2]);
        } else if k1 < nk {
            assert(cs1[k1] == cs[k1]);
            assert(x < s.len());
            assert(vis0[x as int]);
        } else if k2 < nk {
            assert(cs1[k2] == cs[k2]);
            assert(x < s.len());
            assert(vis0[x as int]);
        }
    }
    assert forall|i: usize| i < s.len() implies (#[trigger] vis1[i as int] <==> exists|k: int|
        0 <= k < cs1.len() && #[trigger] cs1[k]@.contains(i)) by {
        if vis0[i as int] {
            let k = choose|k: int| 0 <= k < cs.len() && #[trigger] cs[k]@.contains(i);
            assert(cs1[k] == cs[k]);
        }
        if comp@.contains(i) {
            assert(cs1[nk]@.contains(i));
        }
        if exists|k: int| 0 <= k < cs1.len() && #[trigger] cs1[k]@.contains(i) {
            let k = choose|k: int| 0 <= k < cs1.len() && #[trigger] cs1[k]@.contains(i);
            if k < nk {
                assert(cs1[k] == cs[k]);
            }
        }
    }
    assert forall|k: int| 0 <= k < cs1.len() implies (#[trigger] vs1[k] <==> exists|x: usize|
        #[trigger] cs1[k]@.contains(x) && support_vie_spec(s[x as int].kind)) by {
        if k < nk {
            assert(cs1[k] == cs[k]);
            assert(vs1[k] == vs[k]);
        }
    }
    assert forall|i: usize| i < d + 1 && i < s.len() && s[i as int].built implies #[trigger] vis1[i
        as int] by {
        if i == d {
            assert(comp@[0] == d);
            assert(comp@.contains(d));
        }
    }
    let e1 = ensemble_visites(vis1);
    assert forall|x: usize, y: usize| #[trigger] e1.contains(x) && #[trigger] arete(
        s,
        x,
        y,
    ) implies e1.contains(y) by {
        if vis0[x as int] {
            assert(ensemble_visites(vis0).contains(x));
            assert(ensemble_visites(vis0).contains(y));
        } else {
            assert(ensemble_indices(comp@).contains(x));
            assert(ensemble_indices(comp@).contains(y));
        }
    }
}

proof fn lemme_insertion_ordre(
    cs: Seq<Vec<usize>>,
    vs: Seq<bool>,
    ordre: Seq<usize>,
    p: int,
    comp: Vec<usize>,
    vie: bool,
)
    requires
        ordre_ok(cs, vs, ordre),
        cs.len() == vs.len(),
        cs.len() < usize::MAX,
        0 <= p <= ordre.len(),
        comp@.len() > 0,
        forall|k: int| 0 <= k < cs.len() ==> #[trigger] cs[k]@.len() > 0 && cs[k]@[0] < comp@[0],
        forall|a: int|
            0 <= a < p ==> lex_lt(
                cle_composante(cs, vs, #[trigger] ordre[a] as int),
                (if vie { 0 } else { 1 }, -(comp@.len() as int), comp@[0] as int),
            ),
        p < ordre.len() ==> !lex_lt(
            cle_composante(cs, vs, ordre[p] as int),
            (if vie { 0 } else { 1 }, -(comp@.len() as int), comp@[0] as int),
        ),
    ensures
        ordre_ok(cs.push(comp), vs.push(vie), ordre.insert(p, cs.len() as usize)),
{
    let cs1 = cs.push(comp);
    let vs1 = vs.push(vie);
    let nk = cs.len() as usize;
    let o1 = ordre.insert(p, nk);
    let cle_new = (if vie { 0int } else { 1int }, -(comp@.len() as int), comp@[0] as int);
    assert(cle_composante(cs1, vs1, nk as int) == cle_new) by {
        assert(cs1[nk as int] == comp);
    }
    assert forall|k: int| 0 <= k < cs.len() implies #[trigger] cle_composante(cs1, vs1, k)
        == cle_composante(cs, vs, k) by {
        assert(cs1[k] == cs[k]);
        assert(vs1[k] == vs[k]);
    }
    if p < ordre.len() {
        let kp = ordre[p] as int;
        assert(cs[kp]@[0] < comp@[0]);
        assert(lex_lt(cle_new, cle_composante(cs, vs, kp)));
    }
    assert forall|q: int| 0 <= q < ordre.len() implies ordre[q] != nk by {
        assert(ordre[q] < cs.len());
    }
    assert forall|a: int| 0 <= a < o1.len() implies #[trigger] o1[a] < cs1.len() by {
        if a < p {
            assert(o1[a] == ordre[a]);
        } else if a > p {
            assert(o1[a] == ordre[a - 1]);
        }
    }
    assert forall|k: usize| k < cs1.len() implies #[trigger] o1.contains(k) by {
        if k == nk {
            assert(o1[p] == nk);
        } else {
            assert(ordre.contains(k));
            let q = choose|q: int| 0 <= q < ordre.len() && ordre[q] == k;
            if q < p {
                assert(o1[q] == k);
            } else {
                assert(o1[q + 1] == k);
            }
        }
    }
    assert forall|a: int, b: int| 0 <= a < o1.len() && 0 <= b < o1.len() && a != b implies o1[a]
        != o1[b] by {
        if a != p && b != p {
            let a0 = if a < p { a } else { a - 1 };
            let b0 = if b < p { b } else { b - 1 };
            assert(o1[a] == ordre[a0]);
            assert(o1[b] == ordre[b0]);
        } else if a == p {
            let b0 = if b < p { b } else { b - 1 };
            assert(o1[b] == ordre[b0]);
        } else {
            let a0 = if a < p { a } else { a - 1 };
            assert(o1[a] == ordre[a0]);
        }
    }
    assert forall|a: int, b: int| 0 <= a < b < o1.len() implies lex_lt(
        cle_composante(cs1, vs1, #[trigger] o1[a] as int),
        cle_composante(cs1, vs1, #[trigger] o1[b] as int),
    ) by {
        if b < p {
            assert(o1[a] == ordre[a] && o1[b] == ordre[b]);
            assert(lex_lt(
                cle_composante(cs, vs, ordre[a] as int),
                cle_composante(cs, vs, ordre[b] as int),
            ));
        } else if b == p {
            assert(o1[a] == ordre[a]);
            assert(lex_lt(cle_composante(cs, vs, ordre[a] as int), cle_new));
        } else if a < p {
            assert(o1[a] == ordre[a] && o1[b] == ordre[b - 1]);
            assert(lex_lt(cle_composante(cs, vs, ordre[a] as int), cle_new));
            let kp = ordre[p] as int;
            if b - 1 > p {
                assert(lex_lt(
                    cle_composante(cs, vs, ordre[p] as int),
                    cle_composante(cs, vs, ordre[b - 1] as int),
                ));
            }
            assert(lex_lt(cle_new, cle_composante(cs, vs, ordre[b - 1] as int)));
        } else if a == p {
            assert(o1[b] == ordre[b - 1]);
            if b - 1 > p {
                assert(lex_lt(
                    cle_composante(cs, vs, ordre[p] as int),
                    cle_composante(cs, vs, ordre[b - 1] as int),
                ));
            }
        } else {
            assert(o1[a] == ordre[a - 1] && o1[b] == ordre[b - 1]);
            assert(lex_lt(
                cle_composante(cs, vs, ordre[a - 1] as int),
                cle_composante(cs, vs, ordre[b - 1] as int),
            ));
        }
    }
}

spec fn reseau_de(
    s: Seq<StructureState>,
    c: Seq<usize>,
    vie: bool,
    p: int,
    r: LifeSupportNetwork,
) -> bool {
    &&& r.network_id == p
    &&& r.connected_life_support == vie
    &&& r.structures@.len() == c.len()
    &&& forall|t: int| 0 <= t < c.len() ==> #[trigger] r.structures@[t] == s[c[t] as int].id
}

spec fn correspond(
    s: Seq<StructureState>,
    cs: Seq<Vec<usize>>,
    vs: Seq<bool>,
    ordre: Seq<usize>,
    r: Seq<LifeSupportNetwork>,
    q: int,
) -> bool {
    &&& r.len() == q
    &&& forall|p: int|
        0 <= p < q ==> reseau_de(s, cs[ordre[p] as int]@, vs[ordre[p] as int], p, #[trigger] r[p])
}

proof fn lemme_dans_reseau(
    s: Seq<StructureState>,
    cs: Seq<Vec<usize>>,
    vs: Seq<bool>,
    vis: Seq<bool>,
    ordre: Seq<usize>,
    r: Seq<LifeSupportNetwork>,
    p: int,
    i: usize,
)
    requires
        identifiants_distincts(s),
        composantes_ok(s, cs, vs, vis, s.len() as int),
        ordre_ok(cs, vs, ordre),
        correspond(s, cs, vs, ordre, r, ordre.len() as int),
        0 <= p < r.len(),
        i < s.len(),
    ensures
        dans_reseau(s, r[p], i) <==> cs[ordre[p] as int]@.contains(i),
{
    let c = cs[ordre[p] as int]@;
    let ids = r[p].structures@;
    assert(r[p].network_id == p);
    assert(ordre[p] < cs.len());
    if ids.contains(s[i as int].id) {
        let m = choose|m: int| 0 <= m < ids.len() && ids[m] == s[i as int].id;
        assert(ids[m] == s[c[m] as int].id);
        assert(c.contains(c[m]));
        assert(c[m] < s.len());
        assert(c[m] == i);
    }
    if c.contains(i) {
        let m = choose|m: int| 0 <= m < c.len() && c[m] == i;
        assert(ids[m] == s[i as int].id);
    }
}

proof fn lemme_reseaux_corrects(
    s: Seq<StructureState>,
    cs: Seq<Vec<usize>>,
    vs: Seq<bool>,
    vis: Seq<bool>,
    ordre: Seq<usize>,
    r: Seq<LifeSupportNetwork>,
)
    requires
        identifiants_distincts(s),
        composantes_ok(s, cs, vs, vis, s.len() as int),
        ordre_ok(cs, vs, ordre),
        correspond(s, cs, vs, ordre, r, ordre.len() as int),
        cs.len() <= usize::MAX,
    ensures
        reseaux_corrects(s, r),
{
    assert forall|n: int| 0 <= n < r.len() implies #[trigger] r[n].network_id == n by {}
    assert forall|n: int| 0 <= n < r.len() implies #[trigger] r[n].structures@.len() > 0
        && r[n].structures@.no_duplicates() by {
        assert(r[n].network_id == n);
        let c = cs[ordre[n] as int]@;
        let ids = r[n].structures@;
        assert(ordre[n] < cs.len());
        assert forall|a: int, b: int| 0 <= a < ids.len() && 0 <= b < ids.len() && a != b implies ids[a]
            != ids[b] by {
            assert(ids[a] == s[c[a] as int].id);
            assert(ids[b] == s[c[b] as int].id);
            assert(c.contains(c[a]) && c.contains(c[b]));
        }
    }
    assert forall|n: int, m: int| 0 <= n < r.len() && 0 <= m < r[n].structures@.len() implies identifiant_bati(
        s,
        #[trigger] r[n].structures@[m],
    ) by {
        assert(r[n].network_id == n);
        let c = cs[ordre[n] as int]@;
        assert(ordre[n] < cs.len());
        assert(r[n].structures@[m] == s[c[m] as int].id);
        assert(c.contains(c[m]));
        assert(s[c[m] as int].id == r[n].structures@[m]);
    }
    assert forall|i: usize| i < s.len() && s[i as int].built implies exists|n: int|
        0 <= n < r.len() && #[trigger] dans_reseau(s, r[n], i) by {
        assert(vis[i as int]);
        let k = choose|k: int| 0 <= k < cs.len() && #[trigger] cs[k]@.contains(i);
        assert(ordre.contains(k as usize));
        let p = choose|p: int| 0 <= p < ordre.len() && ordre[p] == k as usize;
        lemme_dans_reseau(s, cs, vs, vis, ordre, r, p, i);
        assert(ordre[p] as int == k);
        assert(dans_reseau(s, r[p], i));
    }
    assert forall|i: usize, n1: int, n2: int|
        i < s.len() && 0 <= n1 < r.len() && 0 <= n2 < r.len() && #[trigger] dans_reseau(
            s,
            r[n1],
            i,
        ) && #[trigger] dans_reseau(s, r[n2], i) implies n1 == n2 by {
        lemme_dans_reseau(s, cs, vs, vis, ordre, r, n1, i);
        lemme_dans_reseau(s, cs, vs, vis, ordre, r, n2, i);
        assert(ordre[n1] < cs.len() && ordre[n2] < cs.len());
        assert(ordre[n1] == ordre[n2]);
    }
    assert forall|n: int, i: usize, j: usize|
        0 <= n < r.len() && i < s.len() && j < s.len() && s[i as int].built && s[j as int].built
            && #[trigger] dans_reseau(s, r[n], i) implies (#[trigger] dans_reseau(s, r[n], j)
        <==> connectes(s, i, j)) by {
        lemme_dans_reseau(s, cs, vs, vis, ordre, r, n, i);
        lemme_dans_reseau(s, cs, vs, vis, ordre, r, n, j);
        let k = ordre[n] as int;
        assert(0 <= k < cs.len());
        let c = cs[k]@;
        assert(connectes(s, c[0], i));
        if c.contains(j) {
            assert(connectes(s, c[0], j));
            lemme_connectes_symetrique(s, c[0], i);
            lemme_connectes_transitif(s, i, c[0], j);
        }
        if connectes(s, i, j) {
            assert(ferme(s, ensemble_indices(c)));
            assert(ensemble_indices(c).contains(i));
            assert(ensemble_indices(c).contains(j));
        }
    }
    assert forall|n: int| 0 <= n < r.len() implies (#[trigger] r[n].connected_life_support
        <==> exists|i: usize|
        i < s.len() && s[i as int].built && #[trigger] dans_reseau(s, r[n], i) && support_vie_spec(
            s[i as int].kind,
        )) by {
        assert(r[n].network_id == n);
        let k = ordre[n] as int;
        assert(0 <= k < cs.len());
        let c = cs[k]@;
        if r[n].connected_life_support {
            assert(vs[k]);
            let x = choose|x: usize| #[trigger] c.contains(x) && support_vie_spec(s[x as int].kind);
            lemme_dans_reseau(s, cs, vs, vis, ordre, r, n, x);
        }
        if exists|i: usize|
            i < s.len() && s[i as int].built && #[trigger] dans_reseau(s, r[n], i)
                && support_vie_spec(s[i as int].kind) {
            let i = choose|i: usize|
                i < s.len() && s[i as int].built && #[trigger] dans_reseau(s, r[n], i)
                    && support_vie_spec(s[i as int].kind);
            lemme_dans_reseau(s, cs, vs, vis, ordre, r, n, i);
            assert(c.contains(i));
        }
    }
    assert forall|n: int| 0 <= n < r.len() implies #[trigger] position(s, r[n].structures@[0])
        == cs[ordre[n] as int]@[0] by {
        assert(r[n].network_id == n);
        let k = ordre[n] as int;
        assert(0 <= k < cs.len());
        let c = cs[k]@;
        assert(c.contains(c[0]));
        assert(r[n].structures@[0] == s[c[0] as int].id);
        let i0 = position(s, r[n].structures@[0]);
        assert(0 <= c[0] < s.len() && s[c[0] as int].id == r[n].structures@[0]);
        assert(0 <= i0 < s.len() && s[i0].id == r[n].structures@[0]);
    }
    assert forall|n: int, i: usize|
        0 <= n < r.len() && i < s.len() && s[i as int].built && #[trigger] dans_reseau(
            s,
            r[n],
            i,
        ) implies position(s, r[n].structures@[0]) <= i by {
        lemme_dans_reseau(s, cs, vs, vis, ordre, r, n, i);
        assert(position(s, r[n].structures@[0]) == cs[ordre[n] as int]@[0]);
        assert(ordre[n] < cs.len());
    }
    assert forall|n: int| 0 <= n < r.len() implies #[trigger] cle_reseau(s, r[n])
        == cle_composante(cs, vs, ordre[n] as int) by {
        assert(r[n].network_id == n);
        assert(position(s, r[n].structures@[0]) == cs[ordre[n] as int]@[0]);
    }
    assert forall|a: int, b: int| 0 <= a < b < r.len() implies lex_lt(
        #[trigger] cle_reseau(s, r[a]),
        #[trigger] cle_reseau(s, r[b]),
    ) by {
        assert(lex_lt(
            cle_composante(cs, vs, ordre[a] as int),
            cle_composante(cs, vs, ordre[b] as int),
        ));
    }
    assert forall|n: int| 0 <= n < r.len() implies dfs_complet(
        s,
        seq![indices_de(s, r[n].structures@)[0]],
        aucun_marque(s.len()),
        indices_de(s, #[trigger] r[n].structures@),
    ) by {
        assert(r[n].network_id == n);
        let k = ordre[n] as int;
        assert(0 <= k < cs.len());
        let c = cs[k]@;
        let ids = r[n].structures@;
        assert forall|t: int| 0 <= t < c.len() implies #[trigger] indices_de(s, ids)[t] == c[t] by {
            assert(ids[t] == s[c[t] as int].id);
            assert(c.contains(c[t]));
            let i0 = position(s, ids[t]);
            assert(0 <= c[t] < s.len() && s[c[t] as int].id == ids[t]);
            assert(0 <= i0 < s.len() && s[i0].id == ids[t]);
        }
        assert(indices_de(s, ids) =~= c);
        assert(dfs_complet(s, seq![c[0]], aucun_marque(s.len()), c));
    }
}

/// The life-support networks of the built structures, as `reseaux_corrects`
/// describes them. Reserves are shared out among them by the caller.
pub fn compute_life_support_networks(structures: &[StructureState]) -> (reseaux: Vec<
    LifeSupportNetwork,
>)
    requires
        structures_representables(structures@),
        identifiants_distincts(structures@),
    ensures
        reseaux_corrects(structures@, reseaux@),
{
    let n = structures.len();
    let ghost s = structures@;
    let occ = cellules_occupees_structures(structures);
    proof {
        assert(occ@ =~= cellules_occupees(s));
    }
    let mut visites: Vec<bool> = Vec::new();
    while visites.len() < n
        invariant
            visites@.len() <= n,
            forall|i: int| 0 <= i < visites@.len() ==> !#[trigger] visites@[i],
        decreases n - visites@.len(),
    {
        visites.push(false);
    }
    proof {
        assert(ensemble_visites(visites@) =~= Set::<usize>::empty());
    }
    let mut comps: Vec<Vec<usize>> = Vec::new();
    let mut vies: Vec<bool> = Vec::new();
    let mut tailles: Vec<usize> = Vec::new();
    let mut premiers: Vec<usize> = Vec::new();
    let mut ordre: Vec<usize> = Vec::new();
    let mut d: usize = 0;
    while d < n
        invariant
            n == s.len(),
            structures@ == s,
            structures_representables(s),
            occ@ == cellules_occupees(s),
            d <= n,
            comps@.len() <= d,
            composantes_ok(s, comps@, vies@, visites@, d as int),
            ordre_ok(comps@, vies@, ordre@),
            tailles@.len() == comps@.len(),
            premiers@.len() == comps@.len(),
            forall|k: int|
                0 <= k < comps@.len() ==> #[trigger] tailles@[k] == comps@[k]@.len()
                    && premiers@[k] == comps@[k]@[0],
        decreases n - d,
    {
        if structures[d].built && !visites[d] {
            let ghost vis0 = visites@;
            let comp = composante(structures, &occ, d, &mut visites);
            proof {
                assert forall|k: int| 0 <= k < comp@.len() implies #[trigger] comp@[k]
                    < structures@.len() by {
                    assert(comp@.contains(comp@[k]));
                }
            }
            let vie = contient_support_vie(structures, &comp);
            let ghost cv = comp@;
            let taille = comp.len();
            let k_new = comps.len();
            let mut p: usize = 0;
            while p < ordre.len() && precede_cle(
                vies[ordre[p]],
                tailles[ordre[p]],
                premiers[ordre[p]],
                vie,
                taille,
                d,
            )
                invariant
                    p <= ordre@.len(),
                    ordre_ok(comps@, vies@, ordre@),
                    tailles@.len() == comps@.len(),
                    premiers@.len() == comps@.len(),
                    vies@.len() == comps@.len(),
                    forall|k: int|
                        0 <= k < comps@.len() ==> #[trigger] tailles@[k] == comps@[k]@.len()
                            && premiers@[k] == comps@[k]@[0],
                    comp@.len() == taille,
                    comp@.len() > 0,
                    comp@[0] == d,
                    forall|a: int|
                        0 <= a < p ==> lex_lt(
                            cle_composante(comps@, vies@, #[trigger] ordre@[a] as int),
                            (if vie { 0 } else { 1 }, -(comp@.len() as int), comp@[0] as int),
                        ),
                decreases ordre@.len() - p,
            {
                proof {
                    assert(ordre@[p as int] < comps@.len());
                }
                p += 1;
            }
            proof {
                if p < ordre@.len() {
                    assert(ordre@[p as int] < comps@.len());
                }
                lemme_insertion_ordre(comps@, vies@, ordre@, p as int, comp, vie);
                lemme_ajout_composante(s, comps@, vies@, vis0, visites@, comp, vie, d);
            }
            let ghost (t0, p0, c0) = (tailles@, premiers@, comps@);
            ordre.insert(p, k_new);
            comps.push(comp);
            vies.push(vie);
            tailles.push(taille);
            premiers.push(d);
            proof {
                assert forall|k: int| 0 <= k < comps@.len() implies #[trigger] tailles@[k]
                    == comps@[k]@.len() && premiers@[k] == comps@[k]@[0] by {
                    if k == comps@.len() - 1 {
                        assert(comps@[k]@ == cv);
                        assert(tailles@[k] == taille);
                        assert(premiers@[k] == d);
                    } else {
                        assert(tailles@[k] == t0[k] && premiers@[k] == p0[k] && comps@[k] == c0[k]);
                    }
                }
            }
        }
        d += 1;
    }
    let mut reseaux: Vec<LifeSupportNetwork> = Vec::new();
    let mut q: usize = 0;
    while q < ordre.len()
        invariant
            n == s.len(),
            structures@ == s,
            composantes_ok(s, comps@, vies@, visites@, n as int),
            ordre_ok(comps@, vies@, ordre@),
            q <= ordre@.len(),
            correspond(s, comps@, vies@, ordre@, reseaux@, q as int),
        decreases ordre@.len() - q,
    {
        let k = ordre[q];
        proof {
            assert(k < comps@.len());
        }
        let c = &comps[k];
        let mut ids: Vec<StructureId> = Vec::new();
        let mut m: usize = 0;
        while m < c.len()
            invariant
                n == s.len(),
                structures@ == s,
                c@ == comps@[k as int]@,
                composantes_ok(s, comps@, vies@, visites@, n as int),
                k < comps@.len(),
                m <= c@.len(),
                ids@.len() == m,
                forall|t: int| 0 <= t < m ==> #[trigger] ids@[t] == s[c@[t] as int].id,
            decreases c@.len() - m,
        {
            proof {
                assert(c@.contains(c@[m as int]));
            }
            ids.push(structures[c[m]].id);
            m += 1;
        }
        let ghost r0 = reseaux@;
        reseaux.push(
            LifeSupportNetwork { network_id: q, structures: ids, connected_life_support: vies[k] },
        );
        proof {
            assert(reseau_de(s, comps@[k as int]@, vies@[k as int], q as int, reseaux@[q as int]));
            assert forall|p: int| 0 <= p < q + 1 implies reseau_de(
                s,
                comps@[ordre@[p] as int]@,
                vies@[ordre@[p] as int],
                p,
                #[trigger] reseaux@[p],
            ) by {
                if p < q {
                    assert(reseaux@[p] == r0[p]);
                }
            }
        }
        q += 1;
    }
    proof {
        lemme_reseaux_corrects(s, comps@, vies@, visites@, ordre@, reseaux@);
    }
    reseaux
}

fn reseau_contient(reseau: &LifeSupportNetwork, id: StructureId) -> (r: bool)
    ensures
        r == reseau.structures@.contains(id),
{
    let mut m: usize = 0;
    while m < reseau.structures.len()
        invariant
            m <= reseau.structures@.len(),
            forall|t: int| 0 <= t < m ==> #[trigger] reseau.structures@[t] != id,
        decreases reseau.structures@.len() - m,
    {
        if reseau.structures[m].0 == id.0 {
            assert(reseau.structures@[m as int] == id);
            return true;
        }
        m += 1;
    }
    false
}

fn numero_reseau(reseaux: &Vec<LifeSupportNetwork>, id: StructureId) -> (r: Option<usize>)
    ensures
        match r {
            Some(n) => n < reseaux@.len() && reseaux@[n as int].structures@.contains(id),
            None => forall|m: int|
                0 <= m < reseaux@.len() ==> !(#[trigger] reseaux@[m]).structures@.contains(id),
        },
{
    let mut n: usize = 0;
    while n < reseaux.len()
        invariant
            n <= reseaux@.len(),
            forall|m: int| 0 <= m < n ==> !(#[trigger] reseaux@[m]).structures@.contains(id),
        decreases reseaux@.len() - n,
    {
        if reseau_contient(&reseaux[n], id) {
            return Some(n);
        }
        n += 1;
    }
    None
}

/// Recomputes the networks and numbers each structure with the network
/// that holds it; a structure in none of them gets no number.
pub fn recompute_life_support(structures: &mut Vec<StructureState>) -> (reseaux: Vec<
    LifeSupportNetwork,
>)
    requires
        structures_representables(old(structures)@),
        identifiants_distincts(old(structures)@),
    ensures
        reseaux_corrects(old(structures)@, reseaux@),
        final(structures)@.len() == old(structures)@.len(),
        forall|i: int|
            0 <= i < old(structures)@.len() ==> {
                let (a, b) = (old(structures)@[i], #[trigger] final(structures)@[i]);
                b.id == a.id && b.kind == a.kind && b.anchor == a.anchor && b.built == a.built
            },
        forall|i: usize|
            i < old(structures)@.len() && (#[trigger] final(structures)@[i as int]).network_id is Some
                ==> final(structures)@[i as int].network_id->0 < reseaux@.len() && dans_reseau(
                old(structures)@,
                reseaux@[final(structures)@[i as int].network_id->0 as int],
                i,
            ),
        forall|i: usize, n: usize|
            i < old(structures)@.len() && n < reseaux@.len() && #[trigger] dans_reseau(
                old(structures)@,
                reseaux@[n as int],
                i,
            ) ==> final(structures)@[i as int].network_id == Some(n),
{
    let ghost s = structures@;
    let reseaux = compute_life_support_networks(structures.as_slice());
    let mut numerotees: Vec<StructureState> = Vec::new();
    let mut i: usize = 0;
    while i < structures.len()
        invariant
            structures@ == s,
            reseaux_corrects(s, reseaux@),
            i <= s.len(),
            numerotees@.len() == i,
            forall|k: int|
                0 <= k < i ==> {
                    let (a, b) = (s[k], #[trigger] numerotees@[k]);
                    b.id == a.id && b.kind == a.kind && b.anchor == a.anchor && b.built == a.built
                },
            forall|k: usize|
                k < i && (#[trigger] numerotees@[k as int]).network_id is Some
                    ==> numerotees@[k as int].network_id->0 < reseaux@.len() && dans_reseau(
                    s,
                    reseaux@[numerotees@[k as int].network_id->0 as int],
                    k,
                ),
            forall|k: usize, n: usize|
                k < i && n < reseaux@.len() && #[trigger] dans_reseau(s, reseaux@[n as int], k)
                    ==> numerotees@[k as int].network_id == Some(n),
        decreases s.len() - i,
    {
        let mut st = structures[i];
        let numero = numero_reseau(&reseaux, st.id);
        st.network_id = numero;
        let ghost avant = numerotees@;
        numerotees.push(st);
        proof {
            assert(numerotees@[i as int] == st);
            assert forall|k: usize| k < i + 1 && (#[trigger] numerotees@[k as int]).network_id is Some
                implies numerotees@[k as int].network_id->0 < reseaux@.len() && dans_reseau(
                s,
                reseaux@[numerotees@[k as int].network_id->0 as int],
                k,
            ) by {
                if k < i {
                    assert(numerotees@[k as int] == avant[k as int]);
                }
            }
            assert forall|k: usize, m: usize|
                k < i + 1 && m < reseaux@.len() && #[trigger] dans_reseau(s, reseaux@[m as int], k)
                    implies numerotees@[k as int].network_id == Some(m) by {
                if k < i {
                    assert(numerotees@[k as int] == avant[k as int]);
                } else if numero is Some {
                    assert(dans_reseau(s, reseaux@[numero->0 as int], k));
                } else {
                    assert(!reseaux@[m as int].structures@.contains(st.id));
                }
            }
            assert forall|k: int| 0 <= k < i + 1 implies {
                let (a, b) = (s[k], #[trigger] numerotees@[k]);
                b.id == a.id && b.kind == a.kind && b.anchor == a.anchor && b.built == a.built
            } by {
                if k < i {
                    assert(numerotees@[k] == avant[k]);
                }
            }
        }
        i += 1;
    }
    *structures = numerotees;
    reseaux
}

} // verus!
