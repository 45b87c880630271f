//! Tours and their inversion-table encoding.
//!
//! A tour over `n` cities is a permutation of `0..n`. Its chromosome holds,
//! for every city `i`, how many larger cities stand before `i` in the tour.
//! Position `i` of a chromosome therefore ranges over `[0, n - i)`, and any
//! choice of values within those ranges is the chromosome of exactly one tour.

use vstd::prelude::*;
use vstd::seq_lib::*;
use vstd::set_lib::*;

verus! {

/// A tour: every entry names a city below the length, and none occurs twice.
/// The length is one that a vector can have.
pub open spec fn is_permutation(tour: Seq<usize>) -> bool {
    &&& tour.len() <= usize::MAX
    &&& forall|k: int| 0 <= k < tour.len() ==> #[trigger] tour[k] < tour.len()
    &&& tour.no_duplicates()
}

/// A chromosome: the value at position `i` lies in `[0, n - i)`. The length
/// is one that a vector can have.
pub open spec fn is_chromosome(genes: Seq<usize>) -> bool {
    &&& genes.len() <= usize::MAX
    &&& forall|i: int| 0 <= i < genes.len() ==> #[trigger] genes[i] + i < genes.len()
}

/// How many entries larger than `city` stand before the first occurrence of
/// `city` (before the end, where it does not occur).
pub open spec fn inversions(tour: Seq<usize>, city: usize) -> nat
    decreases tour.len(),
{
    if tour.len() == 0 || tour[0] == city {
        0
    } else if tour[0] > city {
        1 + inversions(tour.drop_first(), city)
    } else {
        inversions(tour.drop_first(), city)
    }
}

/// The chromosome of a tour.
pub open spec fn encode(tour: Seq<usize>) -> Seq<usize> {
    Seq::new(tour.len(), |i: int| inversions(tour, i as usize) as usize)
}

/// The cities `from..genes.len()` in the order the chromosome gives them:
/// city `i` goes where exactly `genes[i]` larger cities stand before it.
pub open spec fn place_from(genes: Seq<usize>, from: nat) -> Seq<usize>
    decreases genes.len() - from,
{
    if from >= genes.len() {
        Seq::empty()
    } else {
        place_from(genes, from + 1).insert(genes[from as int] as int, from as usize)
    }
}

/// The tour of a chromosome.
pub open spec fn decode(genes: Seq<usize>) -> Seq<usize> {
    place_from(genes, 0)
}

/// Encodes a tour as its chromosome. There is no tour of no cities to
/// encode.
pub fn invert(perm: &Vec<usize>) -> (inverse: Vec<usize>)
    requires
        perm.len() > 0,
    ensures
        inverse@ == encode(perm@),
        is_permutation(perm@) ==> is_chromosome(inverse@),
{
    let n = perm.len();
    let mut inverse: Vec<usize> = Vec::new();
    let mut i: usize = 0;
    while i < n
        invariant
            n == perm.len(),
            i <= n,
            inverse.len() == i,
            forall|k: int| 0 <= k < i ==> inverse[k] == inversions(perm@, k as usize),
        decreases n - i,
    {
        let mut inv: usize = 0;
        let mut m: usize = 0;
        proof {
            assert(perm@.subrange(0, n as int) =~= perm@);
        }
        while m < n && perm[m] != i
            invariant
                n == perm.len(),
                m <= n,
                inv <= m,
                inv + inversions(perm@.subrange(m as int, n as int), i) == inversions(perm@, i),
            decreases n - m,
        {
            proof {
                let rest = perm@.subrange(m as int, n as int);
                assert(rest.drop_first() =~= perm@.subrange(m + 1, n as int));
            }
            if perm[m] > i {
                inv += 1;
            }
            m += 1;
        }
        inverse.push(inv);
        i += 1;
    }
    proof {
        assert(inverse@ =~= encode(perm@)) by {
            assert forall|k: int| 0 <= k < n implies inverse@[k] == encode(perm@)[k] by {
                lemma_inversions_bound(perm@, k as usize);
            }
        }
        if is_permutation(perm@) {
            lemma_encode_valid(perm@);
        }
    }
    inverse
}

/// Decodes a chromosome into its tour. There is no chromosome of no genes
/// to decode.
pub fn revert(inv: &Vec<usize>) -> (perm: Vec<usize>)
    requires
        inv.len() > 0,
        is_chromosome(inv@),
    ensures
        perm@ == decode(inv@),
        perm.len() == inv.len(),
        is_permutation(perm@),
{
    let n = inv.len();
    let mut pos: Vec<usize> = vec![0; n];
    let mut i: usize = n;
    // pos[m] - 1 is where city m stands among the cities placed so far.
    while i > 0
        invariant
            n == inv.len(),
            i <= n,
            pos.len() == n,
            is_chromosome(inv@),
            forall|m: int|
                i <= m < n ==> 1 <= #[trigger] pos[m] <= n - i && place_from(inv@, i as nat)[pos[m]
                    - 1] == m,
        decreases i,
    {
        i -= 1;
        let at = inv[i];
        assert(inv@[i as int] + i < n);
        proof {
            lemma_place_from(inv@, (i + 1) as nat);
        }
        let ghost before = pos@;
        let ghost rest = place_from(inv@, (i + 1) as nat);
        let mut m: usize = i + 1;
        while m < n
            invariant
                n == inv.len(),
                i < m <= n,
                pos.len() == n,
                before.len() == n,
                at + i < n,
                forall|k: int| i < k < n ==> 1 <= #[trigger] before[k] <= n - i - 1,
                forall|k: int|
                    i < k < m ==> #[trigger] pos[k] == if before[k] >= at + 1 {
                        before[k] + 1
                    } else {
                        before[k] as int
                    },
                forall|k: int| m <= k < n ==> #[trigger] pos[k] == before[k],
            decreases n - m,
        {
            if pos[m] >= at + 1 {
                pos[m] += 1;
            }
            m += 1;
        }
        pos[i] = at + 1;
        proof {
            let placed = place_from(inv@, i as nat);
            assert(placed == rest.insert(at as int, i));
            assert forall|k: int| i <= k < n implies 1 <= #[trigger] pos[k] <= n - i
                && placed[pos[k] - 1] == k by {
                if k > i {
                    assert(rest[before[k] - 1] == k);
                }
            }
        }
    }
    proof {
        lemma_place_from(inv@, 0);
    }
    let mut perm: Vec<usize> = vec![0; n];
    let mut c: usize = 0;
    while c < n
        invariant
            n == inv.len(),
            c <= n,
            pos.len() == n,
            perm.len() == n,
            decode(inv@).len() == n,
            decode(inv@).no_duplicates(),
            forall|m: int| 0 <= m < n ==> 1 <= #[trigger] pos[m] <= n && decode(inv@)[pos[m] - 1] == m,
            forall|m: int| 0 <= m < c ==> perm[pos[m] - 1] == m,
        decreases n - c,
    {
        let j = pos[c] - 1;
        perm[j] = c;
        c += 1;
    }
    proof {
        let tour = decode(inv@);
        assert forall|j: int| 0 <= j < n implies perm@[j] == tour[j] by {
            let city = tour[j] as int;
            assert(tour[pos[city] - 1] == city);
        }
        assert(perm@ =~= tour);
    }
    perm
}

/// Tells whether `genes` is a chromosome.
pub fn is_valid_chromosome(genes: &Vec<usize>) -> (valid: bool)
    ensures
        valid == is_chromosome(genes@),
{
    let n = genes.len();
    let mut i: usize = 0;
    while i < n
        invariant
            n == genes.len(),
            i <= n,
            forall|k: int| 0 <= k < i ==> #[trigger] genes[k] + k < n,
        decreases n - i,
    {
        if genes[i] >= n - i {
            return false;
        }
        i += 1;
    }
    true
}

/// Tells whether `tour` is a tour.
pub fn is_valid_tour(tour: &Vec<usize>) -> (valid: bool)
    ensures
        valid == is_permutation(tour@),
{
    let n = tour.len();
    let mut seen: Vec<bool> = vec![false; n];
    let mut i: usize = 0;
    while i < n
        invariant
            n == tour.len(),
            i <= n,
            seen.len() == n,
            forall|k: int| 0 <= k < i ==> #[trigger] tour[k] < n,
            forall|a: int, b: int| 0 <= a < i && 0 <= b < i && a != b ==> tour[a] != tour[b],
            forall|c: int|
                0 <= c < n ==> (#[trigger] seen[c] <==> exists|k: int|
                    0 <= k < i && tour[k] == c),
        decreases n - i,
    {
        let city = tour[i];
        if city >= n {
            return false;
        }
        if seen[city] {
            proof {
                let k = choose|k: int| 0 <= k < i && tour[k] == city;
                assert(tour[k] == tour[i as int]);
            }
            return false;
        }
        let ghost before = seen@;
        seen[city] = true;
        proof {
            assert forall|c: int| 0 <= c < n implies (#[trigger] seen[c] <==> exists|k: int|
                0 <= k < i + 1 && tour[k] == c) by {
                if c == city {
                    assert(tour[i as int] == c);
                } else if before[c] {
                    let k = choose|k: int| 0 <= k < i && tour[k] == c;
                    assert(0 <= k < i + 1 && tour[k] == c);
                }
            }
        }
        i += 1;
    }
    true
}

/// Decoding the chromosome of a tour gives the tour back.
pub proof fn lemma_decode_encode(tour: Seq<usize>)
    requires
        is_permutation(tour),
    ensures
        decode(encode(tour)) == tour,
{
    lemma_place_encoded(tour, 0);
    lemma_keep_all(tour);
}

/// Encoding the tour of a chromosome gives the chromosome back.
pub proof fn lemma_encode_decode(genes: Seq<usize>)
    requires
        is_chromosome(genes),
    ensures
        encode(decode(genes)) == genes,
{
    lemma_place_from(genes, 0);
    assert forall|i: int| 0 <= i < genes.len() implies encode(decode(genes))[i] == genes[i] by {
        lemma_placed_inversions(genes, 0, i);
    }
    assert(encode(decode(genes)) =~= genes);
}

/// The chromosome of a tour is a chromosome.
pub proof fn lemma_encode_valid(tour: Seq<usize>)
    requires
        is_permutation(tour),
    ensures
        is_chromosome(encode(tour)),
{
    lemma_place_encoded(tour, 0);
}

/// The tour of a chromosome is a tour.
pub proof fn lemma_decode_valid(genes: Seq<usize>)
    requires
        is_chromosome(genes),
    ensures
        is_permutation(decode(genes)),
        decode(genes).len() == genes.len(),
{
    lemma_place_from(genes, 0);
}

/// No city is missing from a tour.
pub proof fn lemma_permutation_covers(tour: Seq<usize>, city: usize)
    requires
        is_permutation(tour),
        city < tour.len(),
    ensures
        tour.contains(city),
{
    let n = tour.len() as int;
    let wide = tour.map_values(|c: usize| c as int);
    assert(wide.no_duplicates()) by {
        assert forall|a: int, b: int|
            0 <= a < wide.len() && 0 <= b < wide.len() && a != b implies wide[a] != wide[b] by {
            assert(tour[a] != tour[b]);
        }
    }
    wide.unique_seq_to_set();
    lemma_int_range(0, n);
    assert(wide.to_set().subset_of(set_int_range(0, n))) by {
        assert forall|v: int| wide.to_set().contains(v) implies set_int_range(0, n).contains(
            v,
        ) by {
            let k = choose|k: int| 0 <= k < wide.len() && wide[k] == v;
            assert(tour[k] < tour.len());
        }
    }
    lemma_len_subset(wide.to_set(), set_int_range(0, n));
    lemma_subset_equality(wide.to_set(), set_int_range(0, n));
    assert(set_int_range(0, n).contains(city as int));
    assert(wide.to_set().contains(city as int));
    let k = choose|k: int| 0 <= k < wide.len() && wide[k] == city as int;
    assert(tour[k] == city);
}

/// The cities of a tour in any other order are a tour.
pub proof fn lemma_rearranged_tour(tour: Seq<usize>, other: Seq<usize>)
    requires
        is_permutation(tour),
        other.to_multiset() == tour.to_multiset(),
    ensures
        is_permutation(other),
{
    to_multiset_len(tour);
    to_multiset_len(other);
    assert forall|k: int| 0 <= k < other.len() implies #[trigger] other[k] < other.len() by {
        assert(other.contains(other[k]));
        to_multiset_contains(other, other[k]);
        to_multiset_contains(tour, other[k]);
        let m = choose|m: int| 0 <= m < tour.len() && tour[m] == other[k];
        assert(tour[m] < tour.len());
    }
    tour.lemma_multiset_has_no_duplicates();
    other.lemma_multiset_has_no_duplicates_conv();
}

/// What placing the cities `from..n` of a chromosome yields: each of them
/// exactly once, and nothing else.
pub proof fn lemma_place_from(genes: Seq<usize>, from: nat)
    requires
        is_chromosome(genes),
        from <= genes.len(),
    ensures
        place_from(genes, from).len() == genes.len() - from,
        forall|k: int|
            0 <= k < genes.len() - from ==> from <= #[trigger] place_from(genes, from)[k]
                < genes.len(),
        place_from(genes, from).no_duplicates(),
    decreases genes.len() - from,
{
    if from < genes.len() {
        lemma_place_from(genes, from + 1);
        let rest = place_from(genes, from + 1);
        let at = genes[from as int] as int;
        let placed = place_from(genes, from);
        assert(genes[from as int] + from < genes.len());
        assert(placed == rest.insert(at, from as usize));
        assert forall|k: int| 0 <= k < placed.len() implies from <= #[trigger] placed[k]
            < genes.len() by {
            if k < at {
                assert(placed[k] == rest[k]);
            } else if k > at {
                assert(placed[k] == rest[k - 1]);
            }
        }
        assert forall|a: int, b: int|
            0 <= a < placed.len() && 0 <= b < placed.len() && a != b implies placed[a]
            != placed[b] by {
            let ra = if a < at { a } else { a - 1 };
            let rb = if b < at { b } else { b - 1 };
            if a != at {
                assert(placed[a] == rest[ra]);
            }
            if b != at {
                assert(placed[b] == rest[rb]);
            }
        }
    }
}

/// An inversion count never exceeds the length of the tour.
pub proof fn lemma_inversions_bound(tour: Seq<usize>, city: usize)
    ensures
        inversions(tour, city) <= tour.len(),
    decreases tour.len(),
{
    if tour.len() != 0 && tour[0] != city {
        lemma_inversions_bound(tour.drop_first(), city);
    }
}

/// The entries of `tour` that are at least `from`, in their order.
spec fn keep_from(tour: Seq<usize>, from: int) -> Seq<usize>
    decreases tour.len(),
{
    if tour.len() == 0 {
        Seq::empty()
    } else if tour[0] >= from {
        seq![tour[0]] + keep_from(tour.drop_first(), from)
    } else {
        keep_from(tour.drop_first(), from)
    }
}

proof fn lemma_keep_all(tour: Seq<usize>)
    ensures
        keep_from(tour, 0) == tour,
    decreases tour.len(),
{
    if tour.len() != 0 {
        lemma_keep_all(tour.drop_first());
        assert(seq![tour[0]] + tour.drop_first() =~= tour);
    }
}

proof fn lemma_keep_none(tour: Seq<usize>, from: int)
    requires
        forall|k: int| 0 <= k < tour.len() ==> tour[k] < from,
    ensures
        keep_from(tour, from) == Seq::<usize>::empty(),
    decreases tour.len(),
{
    if tour.len() != 0 {
        assert forall|k: int| 0 <= k < tour.drop_first().len() implies tour.drop_first()[k]
            < from by {
            assert(tour.drop_first()[k] == tour[k + 1]);
        }
        lemma_keep_none(tour.drop_first(), from);
    }
}

proof fn lemma_keep_skips_absent(tour: Seq<usize>, city: usize)
    requires
        !tour.contains(city),
    ensures
        keep_from(tour, city as int) == keep_from(tour, city + 1),
    decreases tour.len(),
{
    if tour.len() != 0 {
        let rest = tour.drop_first();
        assert(tour[0] != city);
        assert forall|k: int| 0 <= k < rest.len() implies rest[k] != city by {
            assert(rest[k] == tour[k + 1]);
        }
        lemma_keep_skips_absent(rest, city);
    }
}

proof fn lemma_inversions_within_kept(tour: Seq<usize>, city: usize)
    ensures
        inversions(tour, city) <= keep_from(tour, city + 1).len(),
    decreases tour.len(),
{
    if tour.len() != 0 {
        lemma_inversions_within_kept(tour.drop_first(), city);
        if tour[0] == city {
        } else if tour[0] > city {
        }
    }
}

/// Keeping one city more puts it where its inversion count says.
proof fn lemma_keep_inserts(tour: Seq<usize>, city: usize)
    requires
        tour.no_duplicates(),
        tour.contains(city),
    ensures
        inversions(tour, city) <= keep_from(tour, city + 1).len(),
        keep_from(tour, city as int) == keep_from(tour, city + 1).insert(
            inversions(tour, city) as int,
            city,
        ),
    decreases tour.len(),
{
    lemma_inversions_within_kept(tour, city);
    let rest = tour.drop_first();
    let there = choose|k: int| 0 <= k < tour.len() && tour[k] == city;
    assert(rest.no_duplicates()) by {
        assert forall|a: int, b: int|
            0 <= a < rest.len() && 0 <= b < rest.len() && a != b implies rest[a] != rest[b] by {
            assert(rest[a] == tour[a + 1] && rest[b] == tour[b + 1]);
        }
    }
    if tour[0] == city {
        assert(!rest.contains(city)) by {
            if rest.contains(city) {
                let k = choose|k: int| 0 <= k < rest.len() && rest[k] == city;
                assert(rest[k] == tour[k + 1]);
            }
        }
        lemma_keep_skips_absent(rest, city);
        let kept = keep_from(rest, city + 1);
        assert(seq![city] + kept =~= kept.insert(0, city));
    } else {
        assert(rest[there - 1] == city);
        lemma_keep_inserts(rest, city);
        let kept = keep_from(rest, city + 1);
        let at = inversions(rest, city) as int;
        if tour[0] > city {
            assert(seq![tour[0]] + kept.insert(at, city) =~= (seq![tour[0]] + kept).insert(
                at + 1,
                city,
            ));
        }
    }
}

/// Placing the cities `from..n` of a tour's chromosome gives back the tour
/// without its cities below `from`.
proof fn lemma_place_encoded(tour: Seq<usize>, from: nat)
    requires
        is_permutation(tour),
        from <= tour.len(),
    ensures
        place_from(encode(tour), from) == keep_from(tour, from as int),
        keep_from(tour, from as int).len() == tour.len() - from,
        forall|i: int| from <= i < tour.len() ==> #[trigger] encode(tour)[i] + i < tour.len(),
    decreases tour.len() - from,
{
    if from >= tour.len() {
        lemma_keep_none(tour, from as int);
    } else {
        lemma_place_encoded(tour, from + 1);
        lemma_permutation_covers(tour, from as usize);
        lemma_keep_inserts(tour, from as usize);
    }
}

/// A smaller city put anywhere leaves the inversion count of a larger one.
proof fn lemma_insert_smaller(tour: Seq<usize>, at: int, small: usize, city: usize)
    requires
        0 <= at <= tour.len(),
        small < city,
    ensures
        inversions(tour.insert(at, small), city) == inversions(tour, city),
    decreases tour.len(),
{
    let grown = tour.insert(at, small);
    if at == 0 {
        assert(grown.drop_first() =~= tour);
    } else {
        assert(grown[0] == tour[0]);
        assert(grown.drop_first() =~= tour.drop_first().insert(at - 1, small));
        if tour[0] != city {
            lemma_insert_smaller(tour.drop_first(), at - 1, small, city);
        }
    }
}

/// A city put among larger ones has as many inversions as stand before it.
proof fn lemma_insert_smallest(tour: Seq<usize>, at: int, city: usize)
    requires
        0 <= at <= tour.len(),
        forall|k: int| 0 <= k < tour.len() ==> tour[k] > city,
    ensures
        inversions(tour.insert(at, city), city) == at,
    decreases tour.len(),
{
    let grown = tour.insert(at, city);
    if at != 0 {
        let rest = tour.drop_first();
        assert(grown[0] == tour[0]);
        assert(grown.drop_first() =~= rest.insert(at - 1, city));
        assert forall|k: int| 0 <= k < rest.len() implies rest[k] > city by {
            assert(rest[k] == tour[k + 1]);
        }
        lemma_insert_smallest(rest, at - 1, city);
    }
}

/// The cities placed so far have the inversion counts the chromosome holds.
proof fn lemma_placed_inversions(genes: Seq<usize>, from: nat, city: int)
    requires
        is_chromosome(genes),
        from <= city < genes.len(),
    ensures
        inversions(place_from(genes, from), city as usize) == genes[city],
    decreases genes.len() - from,
{
    let rest = place_from(genes, from + 1);
    let at = genes[from as int] as int;
    lemma_place_from(genes, from + 1);
    assert(genes[from as int] + from < genes.len());
    if city == from {
        lemma_insert_smallest(rest, at, from as usize);
    } else {
        lemma_placed_inversions(genes, from + 1, city);
        lemma_insert_smaller(rest, at, from as usize, city as usize);
    }
}

} // verus!
