//! Streaming of chunks around the camera focus: which chunks are required
//! and in what order, how many are taken from a queue each frame, and which
//! chunks still need their terrain or their decorations.
use crate::grille::{cle, cle_cellule, lemme_cle_injective, Cellule};
use crate::monde::ChunkCoord;
use crate::tri::{avant, inserer_trie, trie_strict, OrdreCellules};
use crate::tri_stable::lemme_filtre_take;
use std::collections::{HashMap, HashSet, VecDeque};
use vstd::prelude::*;

verus! {

broadcast use vstd::std_specs::hash::group_hash_axioms;

/// The cell with the same coordinates as a chunk (chunks are ordered as cells).
pub open spec fn comme_cellule(k: ChunkCoord) -> Cellule {
    Cellule { x: k.x, y: k.y }
}

/// `k` lies in the square of half-side `rayon` around `centre`.
pub open spec fn dans_carre(k: ChunkCoord, centre: ChunkCoord, rayon: int) -> bool {
    centre.x - rayon <= k.x <= centre.x + rayon && centre.y - rayon <= k.y <= centre.y + rayon
}

/// `a` comes before `b`: nearer to `centre` (taxicab), then lower `y`, then lower `x`.
pub open spec fn avant_chunk(a: ChunkCoord, b: ChunkCoord, centre: ChunkCoord) -> bool {
    avant(comme_cellule(a), comme_cellule(b), OrdreCellules::ParDistanceYX(comme_cellule(centre)))
}

/// Every chunk of the square can be named and its distance key fits in 32 bits.
pub open spec fn carre_representable(centre: ChunkCoord, rayon: i32) -> bool {
    rayon > i32::MIN && 2 * rayon <= i32::MAX && (rayon >= 0 ==> (i32::MIN <= centre.x - rayon
        && centre.x + rayon <= i32::MAX && i32::MIN <= centre.y - rayon && centre.y + rayon
        <= i32::MAX))
}

spec fn deja_vu(c: Cellule, centre: ChunkCoord, rayon: int, dx: int, dy: int) -> bool {
    let (x, y) = (c.x - centre.x, c.y - centre.y);
    (-rayon <= x < dx && -rayon <= y <= rayon) || (x == dx && -rayon <= y < dy)
}

/// The chunks of the square of half-side `rayon` around `centre`, nearest
/// first, then by `y`, then by `x`. A negative radius requires nothing.
pub fn coordonnees_chunks_requises(centre: ChunkCoord, rayon: i32) -> (coords: Vec<ChunkCoord>)
    requires
        carre_representable(centre, rayon),
    ensures
        forall|i: int, j: int|
            0 <= i < j < coords@.len() ==> avant_chunk(
                #[trigger] coords@[i],
                #[trigger] coords@[j],
                centre,
            ),
        forall|k: ChunkCoord| #[trigger] coords@.contains(k) <==> dans_carre(k, centre, rayon as int),
{
    let ordre = OrdreCellules::ParDistanceYX(Cellule { x: centre.x, y: centre.y });
    let mut cellules: Vec<Cellule> = Vec::new();
    if rayon >= 0 {
        let mut dx: i32 = -rayon;
        while dx <= rayon
            invariant
                0 <= rayon,
                carre_representable(centre, rayon),
                -rayon <= dx <= rayon + 1,
                ordre == OrdreCellules::ParDistanceYX(comme_cellule(centre)),
                trie_strict(cellules@, ordre),
                forall|c: Cellule| #[trigger]
                    cellules@.contains(c) <==> deja_vu(c, centre, rayon as int, dx as int, -rayon),
            decreases rayon + 1 - dx,
        {
            let mut dy: i32 = -rayon;
            while dy <= rayon
                invariant
                    0 <= rayon,
                    carre_representable(centre, rayon),
                    -rayon <= dx <= rayon,
                    -rayon <= dy <= rayon + 1,
                    ordre == OrdreCellules::ParDistanceYX(comme_cellule(centre)),
                    trie_strict(cellules@, ordre),
                    forall|c: Cellule| #[trigger]
                        cellules@.contains(c) <==> deja_vu(
                            c,
                            centre,
                            rayon as int,
                            dx as int,
                            dy as int,
                        ),
                decreases rayon + 1 - dy,
            {
                let c = Cellule { x: centre.x + dx, y: centre.y + dy };
                inserer_trie(&mut cellules, c, ordre);
                dy += 1;
            }
            proof {
                assert forall|c: Cellule| #[trigger] cellules@.contains(c) <==> deja_vu(
                    c,
                    centre,
                    rayon as int,
                    dx + 1,
                    -rayon,
                ) by {}
            }
            dx += 1;
        }
    }
    let mut coords: Vec<ChunkCoord> = Vec::new();
    let mut i: usize = 0;
    while i < cellules.len()
        invariant
            i <= cellules@.len(),
            coords@.len() == i,
            forall|t: int| 0 <= t < i ==> comme_cellule(#[trigger] coords@[t]) == cellules@[t],
        decreases cellules@.len() - i,
    {
        coords.push(ChunkCoord { x: cellules[i].x, y: cellules[i].y });
        i += 1;
    }
    proof {
        assert forall|a: int, b: int| 0 <= a < b < coords@.len() implies avant_chunk(
            #[trigger] coords@[a],
            #[trigger] coords@[b],
            centre,
        ) by {
            assert(avant(cellules@[a], cellules@[b], ordre));
        }
        assert forall|k: ChunkCoord| #[trigger] coords@.contains(k) <==> dans_carre(
            k,
            centre,
            rayon as int,
        ) by {
            if coords@.contains(k) {
                let t = choose|t: int| 0 <= t < coords@.len() && coords@[t] == k;
                assert(cellules@[t] == comme_cellule(k));
                assert(cellules@.contains(comme_cellule(k)));
            }
            if dans_carre(k, centre, rayon as int) {
                assert(cellules@.contains(comme_cellule(k)));
                let t = choose|t: int| 0 <= t < cellules@.len() && cellules@[t] == comme_cellule(k);
                assert(coords@[t] == k);
            }
        }
    }
    coords
}

/// `s` lists the square of half-side `rayon` around `centre` in the order of
/// `avant_chunk`, as `coordonnees_chunks_requises` answers.
pub open spec fn plan_requis(s: Seq<ChunkCoord>, centre: ChunkCoord, rayon: int) -> bool {
    &&& forall|i: int, j: int|
        0 <= i < j < s.len() ==> avant_chunk(#[trigger] s[i], #[trigger] s[j], centre)
    &&& forall|k: ChunkCoord| #[trigger] s.contains(k) <==> dans_carre(k, centre, rayon)
}

/// The required chunks are fixed by the centre and the radius alone: two
/// lists that both answer the plan are the same list.
pub proof fn loi_plan_requis_unique(a: Seq<ChunkCoord>, b: Seq<ChunkCoord>, centre: ChunkCoord, rayon: int)
    requires
        plan_requis(a, centre, rayon),
        plan_requis(b, centre, rayon),
    ensures
        a == b,
{
    let ordre = OrdreCellules::ParDistanceYX(comme_cellule(centre));
    let ca = a.map_values(|k: ChunkCoord| comme_cellule(k));
    let cb = b.map_values(|k: ChunkCoord| comme_cellule(k));
    assert forall|x: Cellule| #[trigger] ca.contains(x) <==> cb.contains(x) by {
        let k = ChunkCoord { x: x.x, y: x.y };
        if ca.contains(x) {
            let i = choose|i: int| 0 <= i < ca.len() && ca[i] == x;
            assert(a[i] == k);
            assert(a.contains(k));
            assert(b.contains(k));
            let j = choose|j: int| 0 <= j < b.len() && b[j] == k;
            assert(cb[j] == x);
        }
        if cb.contains(x) {
            let i = choose|i: int| 0 <= i < cb.len() && cb[i] == x;
            assert(b[i] == k);
            assert(b.contains(k));
            assert(a.contains(k));
            let j = choose|j: int| 0 <= j < a.len() && a[j] == k;
            assert(ca[j] == x);
        }
    }
    assert(trie_strict(ca, ordre)) by {
        assert forall|i: int, j: int| 0 <= i < j < ca.len() implies avant(
            #[trigger] ca[i],
            #[trigger] ca[j],
            ordre,
        ) by {
            assert(avant_chunk(a[i], a[j], centre));
        }
    }
    assert(trie_strict(cb, ordre)) by {
        assert forall|i: int, j: int| 0 <= i < j < cb.len() implies avant(
            #[trigger] cb[i],
            #[trigger] cb[j],
            ordre,
        ) by {
            assert(avant_chunk(b[i], b[j], centre));
        }
    }
    crate::tri::lemme_trie_unique(ca, cb, ordre);
    assert(ca.len() == a.len() && cb.len() == b.len());
    assert forall|i: int| 0 <= i < a.len() implies a[i] == b[i] by {
        assert(ca[i] == comme_cellule(a[i]));
        assert(cb[i] == comme_cellule(b[i]));
        assert(ca[i] == cb[i]);
    }
    assert(a =~= b);
}

/// With a radius of zero or more, the plan starts with the centre itself.
pub proof fn loi_centre_en_premier(s: Seq<ChunkCoord>, centre: ChunkCoord, rayon: int)
    requires
        plan_requis(s, centre, rayon),
        rayon >= 0,
    ensures
        s.len() > 0,
        s[0] == centre,
{
    assert(dans_carre(centre, centre, rayon));
    assert(s.contains(centre));
    let i = choose|i: int| 0 <= i < s.len() && s[i] == centre;
    if i > 0 {
        assert(avant_chunk(s[0], s[i], centre));
    }
}

/// How many chunks a queue of `longueur` gives under a budget.
pub open spec fn nombre_preleve(longueur: int, budget: int) -> int {
    if budget < longueur {
        budget
    } else {
        longueur
    }
}

/// Takes up to `budget` chunks from the front of the queue, in order.
pub fn prelever_budget(file: &mut VecDeque<ChunkCoord>, budget: usize) -> (pris: Vec<ChunkCoord>)
    ensures
        pris@ == old(file)@.take(nombre_preleve(old(file)@.len() as int, budget as int)),
        final(file)@ == old(file)@.skip(nombre_preleve(old(file)@.len() as int, budget as int)),
        pris@ + final(file)@ == old(file)@,
{
    let ghost depart = file@;
    let mut coords: Vec<ChunkCoord> = Vec::new();
    let mut k: usize = 0;
    while k < budget && file.len() > 0
        invariant
            k <= budget,
            coords@.len() == k,
            coords@ + file@ == depart,
        decreases budget - k,
    {
        let ghost avant_pop = file@;
        let c = file.pop_front().unwrap();
        proof {
            assert(avant_pop == seq![c] + file@);
            assert(coords@.push(c) + file@ =~= coords@ + avant_pop);
        }
        coords.push(c);
        k += 1;
    }
    proof {
        let m = nombre_preleve(depart.len() as int, budget as int);
        assert(coords@.len() == m);
        assert(coords@ =~= depart.take(m));
        assert(file@ =~= depart.skip(m));
    }
    coords
}

/// The hash key of a chunk.
pub open spec fn cle_chunk(k: ChunkCoord) -> u64 {
    cle_cellule(comme_cellule(k))
}

proof fn lemme_cle_chunk_injective(a: ChunkCoord, b: ChunkCoord)
    ensures
        cle_chunk(a) == cle_chunk(b) <==> a == b,
{
    lemme_cle_injective(comme_cellule(a), comme_cellule(b));
}

fn cle_de_chunk(k: ChunkCoord) -> (r: u64)
    ensures
        r == cle_chunk(k),
{
    cle(Cellule { x: k.x, y: k.y })
}

/// What the streaming logic reads of a chunk's visuals: whether its terrain
/// mesh is up, and whether its decorations have been set up.
#[derive(Clone, Copy, Debug, PartialEq, Eq, Structural)]
pub struct EtatVisuelChunk {
    pub terrain_charge: bool,
    pub decors_initialises: bool,
}

/// The visual state of each chunk that has one.
pub struct ChunkVisuals {
    entrees: HashMap<u64, EtatVisuelChunk>,
}

impl View for ChunkVisuals {
    type V = Map<ChunkCoord, EtatVisuelChunk>;

    closed spec fn view(&self) -> Map<ChunkCoord, EtatVisuelChunk> {
        Map::new(
            |k: ChunkCoord| self.entrees@.contains_key(cle_chunk(k)),
            |k: ChunkCoord| self.entrees@[cle_chunk(k)],
        )
    }
}

impl ChunkVisuals {
    pub fn new() -> (v: ChunkVisuals)
        ensures
            v@ == Map::<ChunkCoord, EtatVisuelChunk>::empty(),
    {
        let v = ChunkVisuals { entrees: HashMap::new() };
        assert(v@ =~= Map::<ChunkCoord, EtatVisuelChunk>::empty());
        v
    }

    pub fn get(&self, k: ChunkCoord) -> (r: Option<EtatVisuelChunk>)
        ensures
            r == (if self@.contains_key(k) {
                Some(self@[k])
            } else {
                None
            }),
    {
        let c = cle_de_chunk(k);
        match self.entrees.get(&c) {
            Some(e) => Some(*e),
            None => None,
        }
    }

    pub fn inserer(&mut self, k: ChunkCoord, e: EtatVisuelChunk)
        ensures
            final(self)@ == old(self)@.insert(k, e),
    {
        let c = cle_de_chunk(k);
        self.entrees.insert(c, e);
        proof {
            assert forall|d: ChunkCoord| #[trigger]
                final(self)@.contains_key(d) == old(self)@.insert(k, e).contains_key(d) by {
                lemme_cle_chunk_injective(k, d);
            }
            assert forall|d: ChunkCoord| #[trigger] final(self)@.contains_key(d) implies
                final(self)@[d] == old(self)@.insert(k, e)[d] by {
                lemme_cle_chunk_injective(k, d);
            }
            assert(final(self)@ =~= old(self)@.insert(k, e));
        }
    }

    /// Removes the entry of `k` and hands it back.
    pub fn retirer(&mut self, k: ChunkCoord) -> (r: Option<EtatVisuelChunk>)
        ensures
            final(self)@ == old(self)@.remove(k),
            r == (if old(self)@.contains_key(k) {
                Some(old(self)@[k])
            } else {
                None
            }),
    {
        let c = cle_de_chunk(k);
        let r = self.entrees.remove(&c);
        proof {
            assert forall|d: ChunkCoord| #[trigger]
                final(self)@.contains_key(d) == old(self)@.remove(k).contains_key(d) by {
                lemme_cle_chunk_injective(k, d);
            }
            assert forall|d: ChunkCoord| #[trigger] final(self)@.contains_key(d) implies
                final(self)@[d] == old(self)@.remove(k)[d] by {
                lemme_cle_chunk_injective(k, d);
            }
            assert(final(self)@ =~= old(self)@.remove(k));
        }
        r
    }
}

/// A finite set of chunks.
pub struct EnsembleChunks {
    cles: HashSet<u64>,
}

impl View for EnsembleChunks {
    type V = Set<ChunkCoord>;

    closed spec fn view(&self) -> Set<ChunkCoord> {
        Set::new(|k: ChunkCoord| self.cles@.contains(cle_chunk(k)))
    }
}

impl EnsembleChunks {
    pub fn new() -> (e: EnsembleChunks)
        ensures
            e@ == Set::<ChunkCoord>::empty(),
    {
        let e = EnsembleChunks { cles: HashSet::new() };
        assert(e@ =~= Set::<ChunkCoord>::empty());
        e
    }

    pub fn contient(&self, k: ChunkCoord) -> (r: bool)
        ensures
            r == self@.contains(k),
    {
        let c = cle_de_chunk(k);
        self.cles.contains(&c)
    }

    pub fn inserer(&mut self, k: ChunkCoord)
        ensures
            final(self)@ == old(self)@.insert(k),
    {
        let c = cle_de_chunk(k);
        self.cles.insert(c);
        proof {
            assert forall|d: ChunkCoord| #[trigger] final(self)@.contains(d) == old(self)@.insert(
                k,
            ).contains(d) by {
                lemme_cle_chunk_injective(k, d);
            }
            assert(final(self)@ =~= old(self)@.insert(k));
        }
    }

    /// The set of the chunks listed.
    pub fn depuis_coords(coords: &[ChunkCoord]) -> (e: EnsembleChunks)
        ensures
            forall|k: ChunkCoord| #[trigger] e@.contains(k) <==> coords@.contains(k),
    {
        let mut e = EnsembleChunks::new();
        let mut i: usize = 0;
        while i < coords.len()
            invariant
                i <= coords@.len(),
                forall|k: ChunkCoord| #[trigger]
                    e@.contains(k) <==> exists|j: int| 0 <= j < i && #[trigger] coords@[j] == k,
            decreases coords@.len() - i,
        {
            e.inserer(coords[i]);
            proof {
                assert forall|k: ChunkCoord| #[trigger] e@.contains(k) <==> exists|j: int|
                    0 <= j < i + 1 && #[trigger] coords@[j] == k by {
                    if k == coords@[i as int] {
                        assert(coords@[i as int] == k);
                    }
                }
            }
            i += 1;
        }
        e
    }
}

/// The terrain of `k` still has to be built.
pub open spec fn terrain_manquant(v: Map<ChunkCoord, EtatVisuelChunk>) -> spec_fn(ChunkCoord) -> bool {
    |k: ChunkCoord| !(v.contains_key(k) && v[k].terrain_charge)
}

/// The terrain of `k` is up and its decorations are still to be set up.
pub open spec fn decors_manquants(v: Map<ChunkCoord, EtatVisuelChunk>) -> spec_fn(ChunkCoord) -> bool {
    |k: ChunkCoord| v.contains_key(k) && v[k].terrain_charge && !v[k].decors_initialises
}

/// The required chunks whose terrain is not up yet, in the required order.
pub fn reconstruire_file_terrains_requise(
    required_coords: &[ChunkCoord],
    visuals: &ChunkVisuals,
) -> (file: VecDeque<ChunkCoord>)
    ensures
        file@ == required_coords@.filter(terrain_manquant(visuals@)),
{
    let ghost p = terrain_manquant(visuals@);
    let mut file: VecDeque<ChunkCoord> = VecDeque::new();
    let mut i: usize = 0;
    while i < required_coords.len()
        invariant
            i <= required_coords@.len(),
            p == terrain_manquant(visuals@),
            file@ == required_coords@.take(i as int).filter(p),
        decreases required_coords@.len() - i,
    {
        let k = required_coords[i];
        proof {
            lemme_filtre_take(required_coords@, i as int, p);
        }
        let charge = match visuals.get(k) {
            Some(e) => e.terrain_charge,
            None => false,
        };
        if !charge {
            file.push_back(k);
        }
        i += 1;
    }
    assert(required_coords@.take(required_coords@.len() as int) =~= required_coords@);
    file
}

/// The required chunks whose terrain is up and whose decorations are not,
/// in the required order.
pub fn reconstruire_file_decors_requise(
    required_coords: &[ChunkCoord],
    visuals: &ChunkVisuals,
) -> (file: VecDeque<ChunkCoord>)
    ensures
        file@ == required_coords@.filter(decors_manquants(visuals@)),
{
    let ghost p = decors_manquants(visuals@);
    let mut file: VecDeque<ChunkCoord> = VecDeque::new();
    let mut i: usize = 0;
    while i < required_coords.len()
        invariant
            i <= required_coords@.len(),
            p == decors_manquants(visuals@),
            file@ == required_coords@.take(i as int).filter(p),
        decreases required_coords@.len() - i,
    {
        let k = required_coords[i];
        proof {
            lemme_filtre_take(required_coords@, i as int, p);
        }
        let manquant = match visuals.get(k) {
            Some(e) => e.terrain_charge && !e.decors_initialises,
            None => false,
        };
        if manquant {
            file.push_back(k);
        }
        i += 1;
    }
    assert(required_coords@.take(required_coords@.len() as int) =~= required_coords@);
    file
}

/// The streaming queues: the plan around the last centre, and the chunks
/// still waiting for their terrain and for their decorations.
pub struct FileAttenteStreamingChunks {
    pub centre_planifie: Option<ChunkCoord>,
    pub coords_requis: Vec<ChunkCoord>,
    pub ensemble_requis: EnsembleChunks,
    pub terrains: VecDeque<ChunkCoord>,
    pub decors: VecDeque<ChunkCoord>,
}

impl FileAttenteStreamingChunks {
    pub fn new() -> (f: FileAttenteStreamingChunks)
        ensures
            f.centre_planifie is None,
            f.coords_requis@ == Seq::<ChunkCoord>::empty(),
            f.ensemble_requis@ == Set::<ChunkCoord>::empty(),
            f.terrains@ == Seq::<ChunkCoord>::empty(),
            f.decors@ == Seq::<ChunkCoord>::empty(),
    {
        FileAttenteStreamingChunks {
            centre_planifie: None,
            coords_requis: Vec::new(),
            ensemble_requis: EnsembleChunks::new(),
            terrains: VecDeque::new(),
            decors: VecDeque::new(),
        }
    }
}

fn file_contient(file: &VecDeque<ChunkCoord>, coord: ChunkCoord) -> (r: bool)
    ensures
        r == file@.contains(coord),
{
    let mut i: usize = 0;
    while i < file.len()
        invariant
            i <= file@.len(),
            forall|j: int| 0 <= j < i ==> #[trigger] file@[j] != coord,
        decreases file@.len() - i,
    {
        if file[i] == coord {
            return true;
        }
        i += 1;
    }
    false
}

/// The decorations of `coord` are set up.
pub open spec fn decors_prets(v: Map<ChunkCoord, EtatVisuelChunk>, coord: ChunkCoord) -> bool {
    v.contains_key(coord) && v[coord].decors_initialises
}

/// Queues `coord` for its decorations, unless they are set up or it is queued already.
pub fn pousser_decors_si_necessaire(
    file: &mut FileAttenteStreamingChunks,
    visuals: &ChunkVisuals,
    coord: ChunkCoord,
)
    ensures
        final(file).decors@ == (if !decors_prets(visuals@, coord) && !old(file).decors@.contains(
            coord,
        ) {
            old(file).decors@.push(coord)
        } else {
            old(file).decors@
        }),
        final(file).centre_planifie == old(file).centre_planifie,
        final(file).coords_requis@ == old(file).coords_requis@,
        final(file).ensemble_requis@ == old(file).ensemble_requis@,
        final(file).terrains@ == old(file).terrains@,
{
    let prets = match visuals.get(coord) {
        Some(e) => e.decors_initialises,
        None => false,
    };
    if !prets && !file_contient(&file.decors, coord) {
        file.decors.push_back(coord);
    }
}

/// The chunks of `actifs` that leave the plan: outside the new square, and
/// with visuals to take down.
pub open spec fn a_retirer(
    v: Map<ChunkCoord, EtatVisuelChunk>,
    centre: ChunkCoord,
    rayon: int,
) -> spec_fn(ChunkCoord) -> bool {
    |k: ChunkCoord| !dans_carre(k, centre, rayon) && v.contains_key(k)
}

/// Plans the streaming around `centre`: the chunks of `actifs` that are no
/// longer required lose their visuals (they are returned, in the order of
/// `actifs`, for their entities to be taken down), and the queues are
/// rebuilt from the required chunks.
pub fn planifier_streaming_chunks(
    centre: ChunkCoord,
    rayon: i32,
    actifs: &[ChunkCoord],
    visuals: &mut ChunkVisuals,
    file: &mut FileAttenteStreamingChunks,
) -> (retires: Vec<ChunkCoord>)
    requires
        carre_representable(centre, rayon),
        actifs@.no_duplicates(),
    ensures
        final(file).centre_planifie == Some(centre),
        forall|i: int, j: int|
            0 <= i < j < final(file).coords_requis@.len() ==> avant_chunk(
                #[trigger] final(file).coords_requis@[i],
                #[trigger] final(file).coords_requis@[j],
                centre,
            ),
        forall|k: ChunkCoord| #[trigger]
            final(file).coords_requis@.contains(k) <==> dans_carre(k, centre, rayon as int),
        forall|k: ChunkCoord| #[trigger]
            final(file).ensemble_requis@.contains(k) <==> dans_carre(k, centre, rayon as int),
        retires@ == actifs@.filter(a_retirer(old(visuals)@, centre, rayon as int)),
        forall|k: ChunkCoord| #[trigger]
            final(visuals)@.contains_key(k) <==> old(visuals)@.contains_key(k) && !(actifs@.contains(
                k,
            ) && !dans_carre(k, centre, rayon as int)),
        forall|k: ChunkCoord| #[trigger]
            final(visuals)@.contains_key(k) ==> final(visuals)@[k] == old(visuals)@[k],
        final(file).terrains@ == final(file).coords_requis@.filter(terrain_manquant(final(visuals)@)),
        final(file).decors@ == final(file).coords_requis@.filter(decors_manquants(final(visuals)@)),
{
    let requis = coordonnees_chunks_requises(centre, rayon);
    let ghost v0 = visuals@;
    let ghost p = a_retirer(v0, centre, rayon as int);
    let mut retires: Vec<ChunkCoord> = Vec::new();
    let mut i: usize = 0;
    while i < actifs.len()
        invariant
            i <= actifs@.len(),
            actifs@.no_duplicates(),
            p == a_retirer(v0, centre, rayon as int),
            retires@ == actifs@.take(i as int).filter(p),
            forall|k: ChunkCoord| #[trigger]
                visuals@.contains_key(k) <==> v0.contains_key(k) && !(actifs@.take(
                    i as int,
                ).contains(k) && !dans_carre(k, centre, rayon as int)),
            forall|k: ChunkCoord| #[trigger] visuals@.contains_key(k) ==> visuals@[k] == v0[k],
            forall|k: ChunkCoord| #[trigger]
                requis@.contains(k) <==> dans_carre(k, centre, rayon as int),
        decreases actifs@.len() - i,
    {
        let k = actifs[i];
        proof {
            lemme_filtre_take(actifs@, i as int, p);
            assert(!actifs@.take(i as int).contains(k)) by {
                if actifs@.take(i as int).contains(k) {
                    let j = choose|j: int| 0 <= j < i && actifs@.take(i as int)[j] == k;
                    assert(actifs@[j] == actifs@[i as int]);
                }
            }
            let t0 = actifs@.take(i as int);
            let t1 = actifs@.take(i + 1);
            assert forall|x: ChunkCoord| #[trigger] t1.contains(x) <==> (t0.contains(x) || x == k) by {
                if t1.contains(x) {
                    let j = choose|j: int| 0 <= j < t1.len() && t1[j] == x;
                    if j < i {
                        assert(t0[j] == x);
                    }
                }
                if t0.contains(x) {
                    let j = choose|j: int| 0 <= j < t0.len() && t0[j] == x;
                    assert(t1[j] == x);
                }
                if x == k {
                    assert(t1[i as int] == x);
                }
            }
        }
        let requis_k = coord_dans_carre(k, centre, rayon);
        if !requis_k {
            match visuals.retirer(k) {
                Some(_) => {
                    retires.push(k);
                },
                None => {},
            }
        }
        i += 1;
    }
    proof {
        assert(actifs@.take(actifs@.len() as int) =~= actifs@);
    }
    let ensemble = EnsembleChunks::depuis_coords(requis.as_slice());
    let terrains = reconstruire_file_terrains_requise(requis.as_slice(), visuals);
    let decors = reconstruire_file_decors_requise(requis.as_slice(), visuals);
    file.centre_planifie = Some(centre);
    file.coords_requis = requis;
    file.ensemble_requis = ensemble;
    file.terrains = terrains;
    file.decors = decors;
    retires
}

fn coord_dans_carre(k: ChunkCoord, centre: ChunkCoord, rayon: i32) -> (r: bool)
    ensures
        r == dans_carre(k, centre, rayon as int),
{
    let (kx, ky, cx, cy, r) = (k.x as i64, k.y as i64, centre.x as i64, centre.y as i64, rayon as i64);
    cx - r <= kx && kx <= cx + r && cy - r <= ky && ky <= cy + r
}

/// What to do with a chunk taken from the terrain queue.
#[derive(Clone, Copy, Debug, PartialEq, Eq, Structural)]
pub enum ActionTerrain {
    /// It is no longer required.
    Ignorer,
    /// Its terrain is up: only its decorations may need queueing.
    TerrainPresent,
    /// Its terrain mesh has to be built.
    Construire,
}

/// The decision for a chunk taken from the terrain queue.
pub fn decider_terrain(
    file: &FileAttenteStreamingChunks,
    visuals: &ChunkVisuals,
    coord: ChunkCoord,
) -> (a: ActionTerrain)
    ensures
        a == (if !file.ensemble_requis@.contains(coord) {
            ActionTerrain::Ignorer
        } else if visuals@.contains_key(coord) && visuals@[coord].terrain_charge {
            ActionTerrain::TerrainPresent
        } else {
            ActionTerrain::Construire
        }),
{
    if !file.ensemble_requis.contient(coord) {
        return ActionTerrain::Ignorer;
    }
    match visuals.get(coord) {
        Some(e) => {
            if e.terrain_charge {
                ActionTerrain::TerrainPresent
            } else {
                ActionTerrain::Construire
            }
        },
        None => ActionTerrain::Construire,
    }
}

/// Records that the terrain of `coord` is up, and queues its decorations
/// when needed.
pub fn terrain_construit(
    file: &mut FileAttenteStreamingChunks,
    visuals: &mut ChunkVisuals,
    coord: ChunkCoord,
)
    ensures
        final(visuals)@ == old(visuals)@.insert(
            coord,
            EtatVisuelChunk {
                terrain_charge: true,
                decors_initialises: decors_prets(old(visuals)@, coord),
            },
        ),
        final(file).decors@ == (if !decors_prets(old(visuals)@, coord)
            && !old(file).decors@.contains(coord) {
            old(file).decors@.push(coord)
        } else {
            old(file).decors@
        }),
        final(file).centre_planifie == old(file).centre_planifie,
        final(file).coords_requis@ == old(file).coords_requis@,
        final(file).ensemble_requis@ == old(file).ensemble_requis@,
        final(file).terrains@ == old(file).terrains@,
{
    let prets = match visuals.get(coord) {
        Some(e) => e.decors_initialises,
        None => false,
    };
    visuals.inserer(coord, EtatVisuelChunk { terrain_charge: true, decors_initialises: prets });
    pousser_decors_si_necessaire(file, visuals, coord);
}

/// Whether a chunk taken from the decoration queue gets its decorations now:
/// it is required and they are not set up yet.
pub fn decider_decors(
    file: &FileAttenteStreamingChunks,
    visuals: &ChunkVisuals,
    coord: ChunkCoord,
) -> (r: bool)
    ensures
        r == (file.ensemble_requis@.contains(coord) && !decors_prets(visuals@, coord)),
{
    if !file.ensemble_requis.contient(coord) {
        return false;
    }
    match visuals.get(coord) {
        Some(e) => !e.decors_initialises,
        None => true,
    }
}

/// Records that the decorations of `coord` are set up.
pub fn decors_generes(visuals: &mut ChunkVisuals, coord: ChunkCoord)
    ensures
        final(visuals)@ == old(visuals)@.insert(
            coord,
            EtatVisuelChunk {
                terrain_charge: old(visuals)@.contains_key(coord) && old(
                    visuals,
                )@[coord].terrain_charge,
                decors_initialises: true,
            },
        ),
{
    let charge = match visuals.get(coord) {
        Some(e) => e.terrain_charge,
        None => false,
    };
    visuals.inserer(coord, EtatVisuelChunk { terrain_charge: charge, decors_initialises: true });
}

} // verus!
