//! Stable sorting by an integer key: the result is in increasing key order
//! and, for every key, keeps the elements bearing it in the order they came in.
use vstd::prelude::*;

verus! {

broadcast use vstd::seq_lib::group_seq_properties;

/// An element that carries an integer sort key.
pub trait CleTri: Sized + Copy {
    spec fn cle_spec(&self) -> int;

    proof fn lemme_cle_bornee(&self)
        ensures
            i64::MIN <= self.cle_spec() <= i64::MAX,
    ;

    fn cle(&self) -> (k: i64)
        ensures
            k == self.cle_spec(),
    ;
}

pub open spec fn de_cle<T: CleTri>(v: int) -> spec_fn(T) -> bool {
    |x: T| x.cle_spec() == v
}

pub open spec fn croissant<T: CleTri>(s: Seq<T>) -> bool {
    forall|a: int, b: int| 0 <= a < b < s.len() ==> #[trigger] s[a].cle_spec() <= #[trigger] s[b].cle_spec()
}

/// `r` is `s` sorted stably by key.
pub open spec fn tri_stable_de<T: CleTri>(s: Seq<T>, r: Seq<T>) -> bool {
    &&& croissant(r)
    &&& forall|v: int| #[trigger] r.filter(de_cle::<T>(v)) == s.filter(de_cle::<T>(v))
}

pub proof fn lemme_filtre_take<T>(s: Seq<T>, i: int, p: spec_fn(T) -> bool)
    requires
        0 <= i < s.len(),
    ensures
        s.take(i + 1).filter(p) == (if p(s[i]) {
            s.take(i).filter(p).push(s[i])
        } else {
            s.take(i).filter(p)
        }),
{
    assert(s.take(i + 1).drop_last() =~= s.take(i));
    reveal_with_fuel(Seq::filter, 1);
}

proof fn lemme_filtre_tous<T>(s: Seq<T>, p: spec_fn(T) -> bool)
    requires
        forall|i: int| 0 <= i < s.len() ==> p(#[trigger] s[i]),
    ensures
        s.filter(p) == s,
    decreases s.len(),
{
    reveal_with_fuel(Seq::filter, 1);
    if s.len() > 0 {
        lemme_filtre_tous(s.drop_last(), p);
        assert(s.drop_last().push(s.last()) =~= s);
    }
}

proof fn lemme_filtre_aucun<T>(s: Seq<T>, p: spec_fn(T) -> bool)
    requires
        forall|i: int| 0 <= i < s.len() ==> !p(#[trigger] s[i]),
    ensures
        s.filter(p) == Seq::<T>::empty(),
    decreases s.len(),
{
    reveal_with_fuel(Seq::filter, 1);
    if s.len() > 0 {
        lemme_filtre_aucun(s.drop_last(), p);
    }
    assert(s.filter(p) =~= Seq::<T>::empty());
}

/// The distinct keys of `s`, in increasing order.
fn cles_distinctes<T: CleTri>(s: &[T]) -> (k: Vec<i64>)
    ensures
        forall|a: int, b: int| 0 <= a < b < k@.len() ==> #[trigger] k@[a] < #[trigger] k@[b],
        forall|v: int| #[trigger]
            k@.contains(v as i64) && i64::MIN <= v <= i64::MAX <==> exists|i: int|
                0 <= i < s@.len() && #[trigger] s@[i].cle_spec() == v,
{
    let mut k: Vec<i64> = Vec::new();
    let mut i: usize = 0;
    while i < s.len()
        invariant
            i <= s@.len(),
            forall|a: int, b: int| 0 <= a < b < k@.len() ==> #[trigger] k@[a] < #[trigger] k@[b],
            forall|v: int| #[trigger]
                k@.contains(v as i64) && i64::MIN <= v <= i64::MAX <==> exists|j: int|
                    0 <= j < i && #[trigger] s@[j].cle_spec() == v,
            forall|j: int| 0 <= j < k@.len() ==> exists|m: int|
                0 <= m < i && #[trigger] s@[m].cle_spec() == #[trigger] k@[j],
        decreases s@.len() - i,
    {
        let c = s[i].cle();
        let mut p: usize = 0;
        while p < k.len() && k[p] < c
            invariant
                p <= k@.len(),
                forall|j: int| 0 <= j < p ==> #[trigger] k@[j] < c,
            decreases k@.len() - p,
        {
            p += 1;
        }
        if p < k.len() && k[p] == c {
        } else {
            let ghost k0 = k@;
            k.insert(p, c);
            proof {
                assert(k@ == k0.insert(p as int, c));
                assert forall|a: int, b: int| 0 <= a < b < k@.len() implies #[trigger] k@[a]
                    < #[trigger] k@[b] by {
                    if b < p {
                    } else if b == p {
                    } else if a < p {
                        assert(k@[b] == k0[b - 1]);
                        if b - 1 > p {
                            assert(k0[p as int] < k0[b - 1]);
                        }
                    } else if a == p {
                        assert(k@[b] == k0[b - 1]);
                        if b - 1 > p {
                            assert(k0[p as int] < k0[b - 1]);
                        }
                    } else {
                        assert(k@[a] == k0[a - 1] && k@[b] == k0[b - 1]);
                    }
                }
                assert forall|x: i64| #[trigger] k@.contains(x) <==> (k0.contains(x) || x == c) by {
                    if k@.contains(x) {
                        let m = choose|m: int| 0 <= m < k@.len() && k@[m] == x;
                        if m < p {
                            assert(k0[m] == x);
                        } else if m > p {
                            assert(k0[m - 1] == x);
                        }
                    }
                    if k0.contains(x) {
                        let m = choose|m: int| 0 <= m < k0.len() && k0[m] == x;
                        if m < p {
                            assert(k@[m] == x);
                        } else {
                            assert(k@[m + 1] == x);
                        }
                    }
                    if x == c {
                        assert(k@[p as int] == x);
                    }
                }
                assert forall|j: int| 0 <= j < k@.len() implies exists|m: int|
                    0 <= m < i + 1 && #[trigger] s@[m].cle_spec() == #[trigger] k@[j] by {
                    if j < p {
                        assert(k@[j] == k0[j]);
                    } else if j == p {
                        assert(s@[i as int].cle_spec() == k@[j]);
                    } else {
                        assert(k@[j] == k0[j - 1]);
                    }
                }
            }
        }
        proof {
            assert forall|v: int| #[trigger] k@.contains(v as i64) && i64::MIN <= v <= i64::MAX
                <==> exists|j: int| 0 <= j < i + 1 && #[trigger] s@[j].cle_spec() == v by {
                if v == c as int {
                    assert(s@[i as int].cle_spec() == v);
                    if p < k@.len() && k@[p as int] == c {
                        assert(k@.contains(c));
                    } else {
                        assert(k@.contains(c));
                    }
                }
            }
            assert forall|j: int| 0 <= j < k@.len() implies exists|m: int|
                0 <= m < i + 1 && #[trigger] s@[m].cle_spec() == #[trigger] k@[j] by {
                let m = choose|m: int| 0 <= m < i + 1 && #[trigger] s@[m].cle_spec() == k@[j];
            }
        }
        i += 1;
    }
    k
}

/// `s` sorted stably by key, in increasing order.
pub fn trier_stable<T: CleTri>(s: &[T]) -> (r: Vec<T>)
    ensures
        tri_stable_de(s@, r@),
{
    let cles = cles_distinctes(s);
    let mut r: Vec<T> = Vec::new();
    let mut ki: usize = 0;
    while ki < cles.len()
        invariant
            ki <= cles@.len(),
            forall|a: int, b: int| 0 <= a < b < cles@.len() ==> #[trigger] cles@[a] < #[trigger] cles@[b],
            forall|v: int| #[trigger]
                cles@.contains(v as i64) && i64::MIN <= v <= i64::MAX <==> exists|i: int|
                    0 <= i < s@.len() && #[trigger] s@[i].cle_spec() == v,
            croissant(r@),
            forall|a: int| 0 <= a < r@.len() ==> exists|j: int|
                0 <= j < ki && #[trigger] cles@[j] == #[trigger] r@[a].cle_spec(),
            forall|j: int| 0 <= j < ki ==> #[trigger] r@.filter(de_cle::<T>(cles@[j] as int)) == s@.filter(
                de_cle::<T>(cles@[j] as int),
            ),
        decreases cles@.len() - ki,
    {
        let c = cles[ki];
        let ghost r0 = r@;
        let ghost p = de_cle::<T>(c as int);
        let mut i: usize = 0;
        while i < s.len()
            invariant
                i <= s@.len(),
                ki < cles@.len(),
                c == cles@[ki as int],
                p == de_cle::<T>(c as int),
                r@ == r0 + s@.take(i as int).filter(p),
            decreases s@.len() - i,
        {
            let x = s[i];
            proof {
                lemme_filtre_take(s@, i as int, p);
            }
            if x.cle() == c {
                r.push(x);
                proof {
                    assert(r@ =~= r0 + s@.take(i + 1).filter(p));
                }
            } else {
                proof {
                    assert(r@ =~= r0 + s@.take(i + 1).filter(p));
                }
            }
            i += 1;
        }
        proof {
            assert(s@.take(s@.len() as int) =~= s@);
            let bloc = s@.filter(p);
            assert forall|a: int| 0 <= a < bloc.len() implies #[trigger] bloc[a].cle_spec() == c by {
                s@.lemma_filter_pred(p, a);
            }
            assert forall|a: int, b: int| 0 <= a < b < r@.len() implies #[trigger] r@[a].cle_spec()
                <= #[trigger] r@[b].cle_spec() by {
                if b >= r0.len() && a < r0.len() {
                    let j = choose|j: int| 0 <= j < ki && #[trigger] cles@[j] == #[trigger] r0[a].cle_spec();
                    assert(r@[b] == bloc[b - r0.len()]);
                } else if a >= r0.len() {
                    assert(r@[a] == bloc[a - r0.len()]);
                    assert(r@[b] == bloc[b - r0.len()]);
                } else {
                    assert(r@[a] == r0[a] && r@[b] == r0[b]);
                }
            }
            assert forall|a: int| 0 <= a < r@.len() implies exists|j: int|
                0 <= j < ki + 1 && #[trigger] cles@[j] == #[trigger] r@[a].cle_spec() by {
                if a >= r0.len() {
                    assert(r@[a] == bloc[a - r0.len()]);
                    assert(cles@[ki as int] == r@[a].cle_spec());
                } else {
                    assert(r@[a] == r0[a]);
                    let j = choose|j: int| 0 <= j < ki && #[trigger] cles@[j] == #[trigger] r0[a].cle_spec();
                }
            }
            assert forall|j: int| 0 <= j < ki + 1 implies #[trigger] r@.filter(de_cle::<T>(cles@[j] as int)) == s@.filter(
                de_cle::<T>(cles@[j] as int),
            ) by {
                let q = de_cle::<T>(cles@[j] as int);
                Seq::filter_distributes_over_add(r0, bloc, q);
                if j < ki {
                    lemme_filtre_aucun(bloc, q);
                    assert(r@.filter(q) =~= r0.filter(q));
                } else {
                    assert forall|a: int| 0 <= a < r0.len() implies !q(#[trigger] r0[a]) by {
                        let jj = choose|jj: int| 0 <= jj < ki && #[trigger] cles@[jj] == #[trigger] r0[a].cle_spec();
                    }
                    lemme_filtre_aucun(r0, q);
                    lemme_filtre_tous(bloc, q);
                    assert(r@.filter(q) =~= bloc);
                }
            }
        }
        ki += 1;
    }
    proof {
        assert forall|v: int| #[trigger] r@.filter(de_cle::<T>(v)) == s@.filter(de_cle::<T>(v)) by {
            let q = de_cle::<T>(v);
            if exists|i: int| 0 <= i < s@.len() && #[trigger] s@[i].cle_spec() == v {
                let i = choose|i: int| 0 <= i < s@.len() && #[trigger] s@[i].cle_spec() == v;
                s@[i].lemme_cle_bornee();
                assert(cles@.contains(v as i64));
                let j = choose|j: int| 0 <= j < cles@.len() && cles@[j] == v as i64;
                assert(cles@[j] as int == v);
                assert(r@.filter(de_cle::<T>(cles@[j] as int)) == s@.filter(de_cle::<T>(cles@[j] as int)));
            } else {
                lemme_filtre_aucun(s@, q);
                assert forall|a: int| 0 <= a < r@.len() implies !q(#[trigger] r@[a]) by {
                    let j = choose|j: int| 0 <= j < cles@.len() && #[trigger] cles@[j] == #[trigger] r@[a].cle_spec();
                    if r@[a].cle_spec() == v {
                        r@[a].lemme_cle_bornee();
                        assert(cles@[j] == v as i64);
                        assert(cles@.contains(v as i64));
                        assert(exists|i: int| 0 <= i < s@.len() && #[trigger] s@[i].cle_spec() == v);
                    }
                }
                lemme_filtre_aucun(r@, q);
            }
        }
    }
    r
}


/// The elements of a stable sort all come from the sorted sequence.
pub proof fn lemme_tri_membres<T: CleTri>(s: Seq<T>, r: Seq<T>)
    requires
        tri_stable_de(s, r),
    ensures
        forall|i: int| 0 <= i < r.len() ==> s.contains(#[trigger] r[i]),
{
    assert forall|i: int| 0 <= i < r.len() implies s.contains(#[trigger] r[i]) by {
        let p = de_cle::<T>(r[i].cle_spec());
        r.lemma_filter_contains(p, i);
        assert(r.filter(p) == s.filter(p));
        s.lemma_filter_contains_rev(p, r[i]);
    }
}

} // verus!
