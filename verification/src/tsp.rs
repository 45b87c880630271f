//! The world the search runs in: the distances between the cities, and the
//! length of a closed tour through them.

use vstd::prelude::*;

verus! {

/// The distance from every city to every other, in whole units of the
/// caller's choosing. City `i` is row `i` and column `i`.
pub struct DistanceTable {
    rows: Vec<Vec<u64>>,
}

/// The rows of a table as sequences.
pub open spec fn grid(rows: Seq<Vec<u64>>) -> Seq<Seq<u64>> {
    Seq::new(rows.len(), |i: int| rows[i]@)
}

/// Whether there are as many columns in every row as there are rows.
pub open spec fn is_square(grid: Seq<Seq<u64>>) -> bool {
    forall|i: int| 0 <= i < grid.len() ==> (#[trigger] grid[i]).len() == grid.len()
}

impl View for DistanceTable {
    type V = Seq<Seq<u64>>;

    closed spec fn view(&self) -> Seq<Seq<u64>> {
        grid(self.rows@)
    }
}

impl DistanceTable {
    /// The invariant of a table: it is square.
    pub open spec fn wf(&self) -> bool {
        is_square(self@)
    }

    /// The number of cities.
    pub open spec fn size(&self) -> nat {
        self@.len()
    }

    /// Makes a table of `rows`, unless they are not square.
    pub fn new(rows: Vec<Vec<u64>>) -> (table: Option<DistanceTable>)
        ensures
            table.is_some() == is_square(grid(rows@)),
            table.is_some() ==> table.unwrap()@ == grid(rows@) && table.unwrap().wf(),
    {
        let n = rows.len();
        let mut i: usize = 0;
        while i < n
            invariant
                n == rows.len(),
                i <= n,
                forall|k: int| 0 <= k < i ==> (#[trigger] grid(rows@)[k]).len() == n,
            decreases n - i,
        {
            if rows[i].len() != n {
                assert(grid(rows@)[i as int].len() != n);
                return None;
            }
            i += 1;
        }
        Some(DistanceTable { rows })
    }

    /// The number of cities.
    pub fn len(&self) -> (n: usize)
        ensures
            n == self.size(),
    {
        self.rows.len()
    }

    /// The distance from city `from` to city `to`.
    pub fn distance(&self, from: usize, to: usize) -> (d: u64)
        requires
            self.wf(),
            from < self.size(),
            to < self.size(),
        ensures
            d == self@[from as int][to as int],
    {
        assert(self@[from as int].len() == self@.len());
        self.rows[from][to]
    }
}

/// The leg of a closed tour that starts at its position `k`: from the city
/// there to the next one, and from the last city back to the first.
pub open spec fn leg(table: Seq<Seq<u64>>, tour: Seq<usize>, k: int) -> nat {
    table[tour[k] as int][tour[(k + 1) % (tour.len() as int)] as int] as nat
}

/// The sum of the first `legs` legs of a closed tour.
pub open spec fn legs_sum(table: Seq<Seq<u64>>, tour: Seq<usize>, legs: nat) -> nat
    decreases legs,
{
    if legs == 0 {
        0
    } else {
        legs_sum(table, tour, (legs - 1) as nat) + leg(table, tour, legs - 1)
    }
}

/// The length of a closed tour: the sum of all its legs.
pub open spec fn tour_length(table: Seq<Seq<u64>>, tour: Seq<usize>) -> nat {
    legs_sum(table, tour, tour.len())
}

/// No sum of legs exceeds as many times the largest distance.
pub proof fn lemma_legs_sum_bound(table: Seq<Seq<u64>>, tour: Seq<usize>, legs: nat)
    ensures
        legs_sum(table, tour, legs) <= legs * u64::MAX,
    decreases legs,
{
    if legs != 0 {
        lemma_legs_sum_bound(table, tour, (legs - 1) as nat);
        assert((legs - 1) * u64::MAX + u64::MAX == legs * u64::MAX) by (nonlinear_arith);
    }
}

/// The length of the closed tour that visits the cities in the order of
/// `sequence`.
pub fn total_distance(table: &DistanceTable, sequence: &Vec<usize>) -> (distance: u128)
    requires
        table.wf(),
        sequence.len() == table.size(),
        forall|k: int| 0 <= k < sequence.len() ==> sequence[k] < table.size(),
    ensures
        distance == tour_length(table@, sequence@),
{
    let n = sequence.len();
    let mut distance: u128 = 0;
    let mut i: usize = 0;
    while i < n
        invariant
            table.wf(),
            n == sequence.len(),
            n == table.size(),
            forall|k: int| 0 <= k < n ==> sequence[k] < n,
            i <= n,
            distance == legs_sum(table@, sequence@, i as nat),
        decreases n - i,
    {
        let next = if i + 1 == n {
            0
        } else {
            i + 1
        };
        let one = sequence[i];
        let two = sequence[next];
        let d = table.distance(one, two);
        proof {
            assert(next == (i + 1) % (n as int)) by {
                if i + 1 == n {
                    assert((n as int) % (n as int) == 0) by (nonlinear_arith)
                        requires
                            n > 0,
                    ;
                } else {
                    assert((i + 1) % (n as int) == i + 1) by (nonlinear_arith)
                        requires
                            0 <= i + 1 < n,
                    ;
                }
            }
            lemma_legs_sum_bound(table@, sequence@, i as nat);
            assert(i * u64::MAX + u64::MAX <= u128::MAX) by (nonlinear_arith)
                requires
                    0 <= i <= u64::MAX,
            ;
        }
        distance += d as u128;
        i += 1;
    }
    distance
}

} // verus!
