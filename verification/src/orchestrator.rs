//! Pair enumeration for the linking phase: every unordered pair of a
//! duplicate group, canonicalized by lexicographic path order and
//! visited exactly once.

use vstd::prelude::*;
use crate::utils::{bytes_eq, clone_bytes};
use crate::hashcache::paths_distinct;

verus! {

/// Position `i` witnesses that `a` comes strictly before `b` in
/// lexicographic order: the strings agree before `i`, and at `i` either
/// `a` has the smaller byte or `a` has ended while `b` goes on.
pub open spec fn lex_witness(a: Seq<u8>, b: Seq<u8>, i: int) -> bool {
    &&& 0 <= i <= a.len()
    &&& i <= b.len()
    &&& (forall|j: int| 0 <= j < i ==> a[j] == b[j])
    &&& ((i < a.len() && i < b.len() && a[i] < b[i]) || (i == a.len() && i < b.len()))
}

/// Lexicographic byte-string order: `a` comes strictly before `b`.
#[verifier::opaque]
pub open spec fn lex_lt(a: Seq<u8>, b: Seq<u8>) -> bool {
    exists|i: int| lex_witness(a, b, i)
}

proof fn lemma_lex_trichotomy_from(a: Seq<u8>, b: Seq<u8>, k: int)
    requires
        0 <= k <= a.len(),
        k <= b.len(),
        forall|j: int| 0 <= j < k ==> a[j] == b[j],
    ensures
        a == b || lex_lt(a, b) || lex_lt(b, a),
    decreases a.len() - k,
{
    reveal(lex_lt);
    if k == a.len() {
        if k == b.len() {
            assert(a =~= b);
        } else {
            assert(lex_witness(a, b, k));
        }
    } else if k == b.len() {
        assert(lex_witness(b, a, k));
    } else if a[k] < b[k] {
        assert(lex_witness(a, b, k));
    } else if a[k] > b[k] {
        assert(lex_witness(b, a, k));
    } else {
        lemma_lex_trichotomy_from(a, b, k + 1);
    }
}

/// Law: lexicographic order is trichotomous — two byte strings are
/// equal, or one comes strictly before the other.
pub proof fn lemma_lex_trichotomy(a: Seq<u8>, b: Seq<u8>)
    ensures
        a == b || lex_lt(a, b) || lex_lt(b, a),
{
    lemma_lex_trichotomy_from(a, b, 0);
}

/// Compares two byte strings lexicographically.
pub fn bytes_lt(a: &Vec<u8>, b: &Vec<u8>) -> (r: bool)
    ensures
        r == lex_lt(a@, b@),
{
    let mut i: usize = 0;
    loop
        invariant
            i <= a.len(),
            i <= b.len(),
            forall|j: int| 0 <= j < i ==> a@[j] == b@[j],
        decreases a@.len() - i,
    {
        if i == a.len() {
            if i < b.len() {
                proof {
                    reveal(lex_lt);
                    assert(lex_witness(a@, b@, i as int));
                    assert(lex_lt(a@, b@));
                }
                return true;
            } else {
                proof {
                    reveal(lex_lt);
                    assert forall|w: int| !lex_witness(a@, b@, w) by {
                        if lex_witness(a@, b@, w) {
                            assert(0 <= w < i ==> a@[w] == b@[w]);
                        }
                    }
                    assert(!lex_lt(a@, b@));
                }
                return false;
            }
        }
        if i == b.len() {
            proof {
                reveal(lex_lt);
                assert forall|w: int| !lex_witness(a@, b@, w) by {
                    if lex_witness(a@, b@, w) {
                        assert(0 <= w < i ==> a@[w] == b@[w]);
                    }
                }
                assert(!lex_lt(a@, b@));
            }
            return false;
        }
        let ca = a[i];
        let cb = b[i];
        if ca < cb {
            proof {
                reveal(lex_lt);
                assert(lex_witness(a@, b@, i as int));
                assert(lex_lt(a@, b@));
            }
            return true;
        }
        if ca > cb {
            proof {
                reveal(lex_lt);
                assert forall|w: int| !lex_witness(a@, b@, w) by {
                    if lex_witness(a@, b@, w) {
                        if 0 <= w < i {
                            assert(a@[w] == b@[w]);
                        } else if w > i {
                            assert(a@[i as int] == b@[i as int]);
                        }
                    }
                }
                assert(!lex_lt(a@, b@));
            }
            return false;
        }
        i += 1;
    }
}

/// The canonical form of an unordered pair: the lexicographically
/// smaller path first.
#[verifier::opaque]
pub open spec fn canon_pair(a: Seq<u8>, b: Seq<u8>) -> (Seq<u8>, Seq<u8>) {
    if lex_lt(a, b) {
        (a, b)
    } else {
        (b, a)
    }
}

/// The owned pair `p` is the canonical form of the unordered pair
/// `{a, b}`.
pub open spec fn pair_matches(p: (Vec<u8>, Vec<u8>), a: Seq<u8>, b: Seq<u8>) -> bool {
    (p.0@, p.1@) == canon_pair(a, b)
}


/// The pair is the canonical form of two distinct paths of the group.
pub open spec fn pair_from(pr: (Vec<u8>, Vec<u8>), g: Seq<Vec<u8>>) -> bool {
    exists|i: int, j: int| 0 <= i < j < g.len() && pair_matches(pr, (#[trigger] g[i])@, (#[trigger] g[j])@)
}

/// The canonical pair of `{a, b}` occurs in the result.
pub open spec fn pair_present(r: Seq<(Vec<u8>, Vec<u8>)>, a: Seq<u8>, b: Seq<u8>) -> bool {
    exists|p: int| 0 <= p < r.len() && pair_matches(#[trigger] r[p], a, b)
}

/// Every returned pair is the canonical form of two distinct paths of
/// the group.
pub open spec fn pairs_sound(r: Seq<(Vec<u8>, Vec<u8>)>, g: Seq<Vec<u8>>) -> bool {
    forall|p: int| 0 <= p < r.len() ==> pair_from(#[trigger] r[p], g)
}

/// Every unordered pair of distinct group paths has its canonical form
/// in the result.
pub open spec fn pairs_complete(r: Seq<(Vec<u8>, Vec<u8>)>, g: Seq<Vec<u8>>) -> bool {
    forall|i: int, j: int|
        0 <= i < j < g.len() ==> pair_present(r, (#[trigger] g[i])@, (#[trigger] g[j])@)
}

/// No pair occurs twice in the result.
pub open spec fn pairs_unique(r: Seq<(Vec<u8>, Vec<u8>)>) -> bool {
    forall|p: int, q: int|
        0 <= p < q < r.len() ==> ((#[trigger] r[p]).0@ != (#[trigger] r[q]).0@ || r[p].1@
            != r[q].1@)
}

/// Every returned pair puts the lexicographically smaller path first.
pub open spec fn pairs_ordered(r: Seq<(Vec<u8>, Vec<u8>)>) -> bool {
    forall|p: int| 0 <= p < r.len() ==> lex_lt((#[trigger] r[p]).0@, r[p].1@)
}

/// The index pair `(i1, j1)` is enumerated before `(i, j)` when pairs
/// are visited in increasing first then second index.
spec fn pair_index_before(i1: int, j1: int, i: int, j: int) -> bool {
    i1 < i || (i1 == i && j1 < j)
}

/// The canonical pairs of all index pairs enumerated before `(i, j)`
/// occur in the result.
spec fn pairs_complete_upto(r: Seq<(Vec<u8>, Vec<u8>)>, g: Seq<Vec<u8>>, i: int, j: int) -> bool {
    forall|i1: int, j1: int|
        0 <= i1 < j1 < g.len() && pair_index_before(i1, j1, i, j) ==> pair_present(
            r,
            (#[trigger] g[i1])@,
            (#[trigger] g[j1])@,
        )
}

proof fn lemma_present_push(r0: Seq<(Vec<u8>, Vec<u8>)>, pr: (Vec<u8>, Vec<u8>), a: Seq<u8>, b: Seq<u8>)
    requires
        pair_present(r0, a, b),
    ensures
        pair_present(r0.push(pr), a, b),
{
    let p = choose|p: int| 0 <= p < r0.len() && pair_matches(#[trigger] r0[p], a, b);
    assert(r0.push(pr)[p] == r0[p]);
    assert(pair_matches(r0.push(pr)[p], a, b));
}

proof fn lemma_sound_push(g: Seq<Vec<u8>>, r0: Seq<(Vec<u8>, Vec<u8>)>, pr: (Vec<u8>, Vec<u8>))
    requires
        pairs_sound(r0, g),
        pair_from(pr, g),
    ensures
        pairs_sound(r0.push(pr), g),
{
    let r1 = r0.push(pr);
    assert forall|p: int| 0 <= p < r1.len() implies pair_from(#[trigger] r1[p], g) by {
        if p < r0.len() {
            assert(r1[p] == r0[p]);
            assert(pair_from(r0[p], g));
        } else {
            assert(r1[p] == pr);
        }
    }
}

proof fn lemma_complete_push(
    g: Seq<Vec<u8>>,
    r0: Seq<(Vec<u8>, Vec<u8>)>,
    pr: (Vec<u8>, Vec<u8>),
    i: int,
    j: int,
)
    requires
        0 <= i < j < g.len(),
        pair_matches(pr, g[i]@, g[j]@),
        pairs_complete_upto(r0, g, i, j),
    ensures
        pairs_complete_upto(r0.push(pr), g, i, j + 1),
{
    let r1 = r0.push(pr);
    assert forall|i1: int, j1: int|
        0 <= i1 < j1 < g.len() && pair_index_before(i1, j1, i, j + 1) implies pair_present(
            r1,
            (#[trigger] g[i1])@,
            (#[trigger] g[j1])@,
        ) by {
        if i1 == i && j1 == j {
            assert(r1[r0.len() as int] == pr);
            assert(pair_matches(r1[r0.len() as int], g[i1]@, g[j1]@));
            assert(pair_present(r1, g[i1]@, g[j1]@));
        } else {
            assert(pair_index_before(i1, j1, i, j));
            lemma_present_push(r0, pr, g[i1]@, g[j1]@);
        }
    }
}

proof fn lemma_complete_skip(
    g: Seq<Vec<u8>>,
    r: Seq<(Vec<u8>, Vec<u8>)>,
    i: int,
    j: int,
)
    requires
        0 <= i < j < g.len(),
        pair_present(r, g[i]@, g[j]@),
        pairs_complete_upto(r, g, i, j),
    ensures
        pairs_complete_upto(r, g, i, j + 1),
{
    assert forall|i1: int, j1: int|
        0 <= i1 < j1 < g.len() && pair_index_before(i1, j1, i, j + 1) implies pair_present(
            r,
            (#[trigger] g[i1])@,
            (#[trigger] g[j1])@,
        ) by {
        if i1 == i && j1 == j {
            assert(pair_present(r, g[i1]@, g[j1]@));
        } else {
            assert(pair_index_before(i1, j1, i, j));
        }
    }
}

proof fn lemma_complete_advance(g: Seq<Vec<u8>>, r: Seq<(Vec<u8>, Vec<u8>)>, i: int, n: int)
    requires
        n == g.len(),
        0 <= i < n,
        pairs_complete_upto(r, g, i, n),
    ensures
        pairs_complete_upto(r, g, i + 1, i + 2),
{
    assert forall|i1: int, j1: int|
        0 <= i1 < j1 < g.len() && pair_index_before(i1, j1, i + 1, i + 2) implies pair_present(
            r,
            (#[trigger] g[i1])@,
            (#[trigger] g[j1])@,
        ) by {
        assert(pair_index_before(i1, j1, i, n));
    }
}

proof fn lemma_complete_finish(g: Seq<Vec<u8>>, r: Seq<(Vec<u8>, Vec<u8>)>, n: int)
    requires
        n == g.len(),
        pairs_complete_upto(r, g, n, n + 1),
    ensures
        pairs_complete(r, g),
{
    assert forall|i: int, j: int| 0 <= i < j < g.len() implies pair_present(
        r,
        (#[trigger] g[i])@,
        (#[trigger] g[j])@,
    ) by {
        assert(pair_index_before(i, j, n, n + 1));
    }
}

/// Reports whether the canonical pair `(a, b)` is already in the list.
fn pair_in(r: &Vec<(Vec<u8>, Vec<u8>)>, a: &Vec<u8>, b: &Vec<u8>) -> (found: bool)
    requires
        lex_lt(a@, b@),
    ensures
        found == pair_present(r@, a@, b@),
{
    let mut q: usize = 0;
    while q < r.len()
        invariant
            lex_lt(a@, b@),
            q <= r@.len(),
            forall|t: int| 0 <= t < q ==> ((#[trigger] r@[t]).0@ != a@ || r@[t].1@ != b@),
        decreases r@.len() - q,
    {
        if bytes_eq(&r[q].0, a) && bytes_eq(&r[q].1, b) {
            proof {
                reveal(canon_pair);
                assert((r@[q as int].0@, r@[q as int].1@) == (a@, b@));
                assert(canon_pair(a@, b@) == (a@, b@));
                assert(pair_matches(r@[q as int], a@, b@));
            }
            return true;
        }
        q += 1;
    }
    proof {
        reveal(canon_pair);
        assert(canon_pair(a@, b@) == (a@, b@));
        assert forall|p: int| 0 <= p < r@.len() implies !pair_matches(
            #[trigger] r@[p],
            a@,
            b@,
        ) by {
            assert(r@[p].0@ != a@ || r@[p].1@ != b@);
        }
    }
    false
}

/// Enumerates every unordered pair of distinct paths in a duplicate
/// group, exactly once, each canonicalized so the lexicographically
/// smaller path comes first.
pub fn duplicate_pairs(group: &Vec<Vec<u8>>) -> (r: Vec<(Vec<u8>, Vec<u8>)>)
    requires
        paths_distinct(group@),
    ensures
        pairs_ordered(r@),
        pairs_sound(r@, group@),
        pairs_complete(r@, group@),
        pairs_unique(r@),
{
    let ghost g = group@;
    let n = group.len();
    let mut r: Vec<(Vec<u8>, Vec<u8>)> = Vec::new();
    let mut i: usize = 0;
    while i < n
        invariant
            g == group@,
            paths_distinct(g),
            n == g.len(),
            i <= n,
            pairs_ordered(r@),
            pairs_sound(r@, g),
            pairs_complete_upto(r@, g, i as int, i as int + 1),
            pairs_unique(r@),
        decreases n - i,
    {
        let mut j: usize = i + 1;
        while j < n
            invariant
                g == group@,
                paths_distinct(g),
                n == g.len(),
                i < n,
                i + 1 <= j <= n,
                pairs_ordered(r@),
                pairs_sound(r@, g),
                pairs_complete_upto(r@, g, i as int, j as int),
                pairs_unique(r@),
            decreases n - j,
        {
            let lt = bytes_lt(&group[i], &group[j]);
            let (x, y) = if lt {
                (&group[i], &group[j])
            } else {
                (&group[j], &group[i])
            };
            proof {
                reveal(canon_pair);
                assert(g[i as int]@ != g[j as int]@);
                lemma_lex_trichotomy(g[i as int]@, g[j as int]@);
                assert((x@, y@) == canon_pair(g[i as int]@, g[j as int]@));
                assert(lex_lt(x@, y@));
            }
            if !pair_in(&r, x, y) {
                let pr = (clone_bytes(x), clone_bytes(y));
                let ghost r0 = r@;
                proof {
                    assert(pair_matches(pr, g[i as int]@, g[j as int]@));
                    assert(pair_from(pr, g));
                    lemma_sound_push(g, r0, pr);
                    lemma_complete_push(g, r0, pr, i as int, j as int);
                }
                r.push(pr);
                proof {
                    assert(r@ == r0.push(pr));
                    assert forall|p: int| 0 <= p < r@.len() implies lex_lt(
                        (#[trigger] r@[p]).0@,
                        r@[p].1@,
                    ) by {
                        if p < r0.len() {
                            assert(r@[p] == r0[p]);
                        } else {
                            assert(r@[p] == pr);
                        }
                    }
                    assert forall|p: int, q: int| 0 <= p < q < r@.len() implies ((
                    #[trigger] r@[p]).0@ != (#[trigger] r@[q]).0@ || r@[p].1@ != r@[q].1@) by {
                        reveal(canon_pair);
                        if q < r0.len() {
                            assert(r@[p] == r0[p] && r@[q] == r0[q]);
                        } else {
                            assert(r@[p] == r0[p] && r@[q] == pr);
                            assert(!pair_present(r0, x@, y@));
                            assert(canon_pair(x@, y@) == (x@, y@));
                            if r@[p].0@ == pr.0@ && r@[p].1@ == pr.1@ {
                                assert(pair_matches(r0[p], x@, y@));
                                assert(false);
                            }
                        }
                    }
                }
            } else {
                proof {
                    reveal(canon_pair);
                    assert(pair_present(r@, x@, y@));
                    let p = choose|p: int|
                        0 <= p < r@.len() && pair_matches(#[trigger] r@[p], x@, y@);
                    assert(canon_pair(x@, y@) == (x@, y@));
                    assert(pair_matches(r@[p], g[i as int]@, g[j as int]@));
                    assert(pair_present(r@, g[i as int]@, g[j as int]@));
                    lemma_complete_skip(g, r@, i as int, j as int);
                }
            }
            j += 1;
        }
        proof {
            lemma_complete_advance(g, r@, i as int, n as int);
        }
        i += 1;
    }
    proof {
        lemma_complete_finish(g, r@, n as int);
    }
    r
}

} // verus!
