//! Tip selection: a random walk over admitted transactions, in which a step
//! goes to a neighbour with a probability proportional to its weight.

use crate::entropy::random_below;
use crate::ledger::TangleView;
use crate::node::ids;
use crate::tangle::Tangle;
use vstd::hash_set::StringHashSet;
use vstd::prelude::*;

verus! {

broadcast use vstd::hash_set::group_hash_set_axioms;

/// The sum of a list of weights.
pub open spec fn total_weight(weights: Seq<u32>) -> nat
    decreases weights.len(),
{
    if weights.len() == 0 {
        0
    } else {
        total_weight(weights.drop_last()) + weights.last() as nat
    }
}

/// A sum of weights is at most their number times the largest weight.
pub proof fn lemma_total_weight_bound(weights: Seq<u32>)
    ensures
        total_weight(weights) <= weights.len() * 0xffff_ffff,
    decreases weights.len(),
{
    if weights.len() > 0 {
        lemma_total_weight_bound(weights.drop_last());
        assert((weights.len() - 1) * 0xffff_ffff + 0xffff_ffff == weights.len() * 0xffff_ffff)
            by (nonlinear_arith);
    }
}

/// The sum over a prefix is at most the sum over the whole list.
pub proof fn lemma_total_weight_prefix(weights: Seq<u32>, n: int)
    requires
        0 <= n <= weights.len(),
    ensures
        total_weight(weights.take(n)) <= total_weight(weights),
    decreases weights.len(),
{
    if n == weights.len() {
        assert(weights.take(n) =~= weights);
    } else {
        lemma_total_weight_prefix(weights.drop_last(), n);
        assert(weights.drop_last().take(n) =~= weights.take(n));
    }
}

/// Where the sum is zero, every weight is zero.
pub proof fn lemma_total_weight_zero(weights: Seq<u32>)
    requires
        total_weight(weights) == 0,
    ensures
        forall|i: int| 0 <= i < weights.len() ==> #[trigger] weights[i] == 0,
    decreases weights.len(),
{
    if weights.len() > 0 {
        lemma_total_weight_zero(weights.drop_last());
        assert forall|i: int| 0 <= i < weights.len() implies #[trigger] weights[i] == 0 by {
            if i < weights.len() - 1 {
                assert(weights.drop_last()[i] == weights[i]);
            }
        }
    }
}

/// A list of candidates as a mathematical value.
pub open spec fn candidates_view(candidates: Seq<(String, u32)>) -> Seq<(Seq<char>, u32)> {
    candidates.map_values(|candidate: (String, u32)| (candidate.0@, candidate.1))
}

/// The weights of a list of candidates.
pub open spec fn weights_of(candidates: Seq<(Seq<char>, u32)>) -> Seq<u32> {
    candidates.map_values(|candidate: (Seq<char>, u32)| candidate.1)
}

/// The choice that the draw `draw` makes among weights: the first position
/// at which the running sum exceeds the draw. There is one such position
/// for a draw below the total, and none for another.
pub open spec fn chosen(weights: Seq<u32>, draw: nat, index: int) -> bool {
    &&& 0 <= index < weights.len()
    &&& total_weight(weights.take(index)) <= draw < total_weight(weights.take(index + 1))
}

/// A draw chooses at most one position.
pub proof fn lemma_chosen_unique(weights: Seq<u32>, draw: nat, first: int, second: int)
    requires
        chosen(weights, draw, first),
        chosen(weights, draw, second),
    ensures
        first == second,
{
    if first < second {
        lemma_total_weight_prefix(weights.take(second), first + 1);
        assert(weights.take(second).take(first + 1) =~= weights.take(first + 1));
    } else if second < first {
        lemma_total_weight_prefix(weights.take(first), second + 1);
        assert(weights.take(first).take(second + 1) =~= weights.take(second + 1));
    }
}

/// The total weight of a list of candidates.
pub fn total_of(candidates: &Vec<(String, u32)>) -> (total: u128)
    ensures
        total == total_weight(weights_of(candidates_view(candidates@))),
{
    let ghost weights = weights_of(candidates_view(candidates@));
    let mut total: u128 = 0;
    let mut i: usize = 0;
    while i < candidates.len()
        invariant
            i <= candidates@.len(),
            weights == weights_of(candidates_view(candidates@)),
            total == total_weight(weights.take(i as int)),
        decreases candidates@.len() - i,
    {
        proof {
            lemma_total_weight_bound(weights.take(i + 1));
            assert(weights.take(i + 1).drop_last() =~= weights.take(i as int));
            assert((i + 1) * 0xffff_ffff <= 0x1_0000_0000_0000_0000 * 0xffff_ffff)
                by (nonlinear_arith)
                requires
                    i + 1 <= 0x1_0000_0000_0000_0000,
            ;
        }
        total = total + candidates[i].1 as u128;
        i += 1;
    }
    assert(weights.take(i as int) =~= weights);
    total
}

/// The candidate that a draw chooses: the first whose running total of
/// weights exceeds the draw. There is none if the draw is not below the total
/// weight.
pub fn select_by_weight(candidates: &Vec<(String, u32)>, draw: u128) -> (choice: Option<usize>)
    ensures
        match choice {
            Some(index) => chosen(
                weights_of(candidates_view(candidates@)),
                draw as nat,
                index as int,
            ),
            None => draw >= total_weight(weights_of(candidates_view(candidates@))),
        },
{
    let ghost weights = weights_of(candidates_view(candidates@));
    let mut running: u128 = 0;
    let mut i: usize = 0;
    while i < candidates.len()
        invariant
            i <= candidates@.len(),
            weights == weights_of(candidates_view(candidates@)),
            running == total_weight(weights.take(i as int)),
            running <= draw,
        decreases candidates@.len() - i,
    {
        proof {
            lemma_total_weight_bound(weights.take(i + 1));
            assert(weights.take(i + 1).drop_last() =~= weights.take(i as int));
            assert((i + 1) * 0xffff_ffff <= 0x1_0000_0000_0000_0000 * 0xffff_ffff)
                by (nonlinear_arith)
                requires
                    i + 1 <= 0x1_0000_0000_0000_0000,
            ;
        }
        running = running + candidates[i].1 as u128;
        if running > draw {
            return Some(i);
        }
        i += 1;
    }
    assert(weights.take(i as int) =~= weights);
    None
}

impl TangleView {
    /// Whether a walk that has visited `visited` may step to `id`: a
    /// transaction is admitted under it, and the walk has not been there.
    pub open spec fn eligible(self, visited: Set<Seq<char>>, id: Seq<char>) -> bool {
        self.admitted(id) && !visited.contains(id)
    }

    /// The candidates among `neighbors`: those that are eligible, in their
    /// order, each with the weight of its transaction.
    pub open spec fn candidates(self, neighbors: Seq<Seq<char>>, visited: Set<Seq<char>>) -> Seq<
        (Seq<char>, u32),
    >
        decreases neighbors.len(),
    {
        if neighbors.len() == 0 {
            Seq::empty()
        } else if self.eligible(visited, neighbors.last()) {
            self.candidates(neighbors.drop_last(), visited).push(
                (neighbors.last(), self.weight(neighbors.last())),
            )
        } else {
            self.candidates(neighbors.drop_last(), visited)
        }
    }

    /// A step of the walk: from an admitted transaction to a neighbour that
    /// is admitted and has a weight above zero.
    pub open spec fn walk_step(self, from: Seq<char>, to: Seq<char>) -> bool {
        &&& self.admitted(from)
        &&& self.neighbors(from).contains(to)
        &&& self.admitted(to)
        &&& self.weight(to) > 0
    }

    /// A trail of the walk: steps from one id to the next, none visited
    /// twice.
    pub open spec fn walk_trail(self, trail: Seq<Seq<char>>) -> bool {
        &&& trail.len() >= 1
        &&& trail.no_duplicates()
        &&& forall|i: int|
            0 <= i < trail.len() - 1 ==> self.walk_step(#[trigger] trail[i], trail[i + 1])
    }

    /// The walk cannot go on from `id` after `trail`: no transaction is
    /// admitted under it, or none of its neighbours off the trail has an
    /// admitted transaction of a weight above zero.
    pub open spec fn walk_ends(self, trail: Seq<Seq<char>>, id: Seq<char>) -> bool {
        !self.admitted(id) || forall|n: Seq<char>| #[trigger]
            self.neighbors(id).contains(n) && self.admitted(n) && !trail.contains(n)
                ==> self.weight(n) == 0
    }

    /// Whether a walk from `start` can end at `end`: some trail leads from
    /// the one to the other, and the walk cannot go on from there.
    pub open spec fn walk_reaches(self, start: Seq<char>, end: Seq<char>) -> bool {
        exists|trail: Seq<Seq<char>>|
            #![trigger self.walk_trail(trail)]
            self.walk_trail(trail) && trail[0] == start && trail.last() == end && self.walk_ends(
                trail,
                end,
            )
    }
}

/// What the candidates are: each is an eligible neighbour with the weight of
/// its transaction, and each eligible neighbour is among them.
pub proof fn lemma_candidates(t: TangleView, neighbors: Seq<Seq<char>>, visited: Set<Seq<char>>)
    ensures
        forall|j: int|
            0 <= j < t.candidates(neighbors, visited).len() ==> {
                let candidate = #[trigger] t.candidates(neighbors, visited)[j];
                &&& neighbors.contains(candidate.0)
                &&& t.eligible(visited, candidate.0)
                &&& candidate.1 == t.weight(candidate.0)
            },
        forall|n: Seq<char>| #[trigger]
            neighbors.contains(n) && t.eligible(visited, n) ==> t.candidates(
                neighbors,
                visited,
            ).contains((n, t.weight(n))),
    decreases neighbors.len(),
{
    let all = t.candidates(neighbors, visited);
    if neighbors.len() > 0 {
        let rest = t.candidates(neighbors.drop_last(), visited);
        lemma_candidates(t, neighbors.drop_last(), visited);
        let last = neighbors.last();
        assert forall|j: int| 0 <= j < all.len() implies {
            let candidate = #[trigger] all[j];
            &&& neighbors.contains(candidate.0)
            &&& t.eligible(visited, candidate.0)
            &&& candidate.1 == t.weight(candidate.0)
        } by {
            if j < rest.len() {
                assert(all[j] == rest[j]);
                let i = choose|i: int|
                    0 <= i < neighbors.drop_last().len() && neighbors.drop_last()[i] == rest[j].0;
                assert(neighbors[i] == rest[j].0);
            } else {
                assert(neighbors[neighbors.len() - 1] == last);
            }
        }
        assert forall|n: Seq<char>| #[trigger]
            neighbors.contains(n) && t.eligible(visited, n) implies all.contains(
            (n, t.weight(n)),
        ) by {
            let i = choose|i: int| 0 <= i < neighbors.len() && neighbors[i] == n;
            if i < neighbors.len() - 1 {
                assert(neighbors.drop_last()[i] == n);
                assert(neighbors.drop_last().contains(n));
                let j = choose|j: int| 0 <= j < rest.len() && rest[j] == (n, t.weight(n));
                assert(all[j] == (n, t.weight(n)));
            } else {
                assert(all[all.len() - 1] == (n, t.weight(n)));
            }
        }
    }
}

/// A walk that cannot leave its start ends there: where no transaction is
/// admitted under the start, or none of its other neighbours has an admitted
/// transaction of a weight above zero, the start is the only id that the
/// walk reaches.
pub proof fn lemma_walk_stays(t: TangleView, start: Seq<char>, end: Seq<char>)
    requires
        t.walk_reaches(start, end),
        t.walk_ends(seq![start], start),
    ensures
        end == start,
{
    let trail = choose|trail: Seq<Seq<char>>|
        #![trigger t.walk_trail(trail)]
        t.walk_trail(trail) && trail[0] == start && trail.last() == end && t.walk_ends(trail, end);
    if trail.len() > 1 {
        assert(t.walk_step(trail[0], trail[0int + 1]));
        let first = seq![start];
        if first.contains(trail[1]) {
            let i = choose|i: int| 0 <= i < first.len() && first[i] == trail[1];
            assert(trail[0] == trail[1]);
        }
        assert(t.neighbors(start).contains(trail[1]) && t.admitted(trail[1]) && !first.contains(
            trail[1],
        ));
    }
}

impl Tangle {
    /// The candidates for the next step of a walk that stands at `current`
    /// and has visited `visited`.
    pub fn walk_candidates(&self, current: &str, visited: &StringHashSet) -> (candidates: Vec<
        (String, u32),
    >)
        ensures
            candidates_view(candidates@) == self@.candidates(self@.neighbors(current@), visited@),
    {
        let neighbors = self.get_neighbors(current);
        let ghost listed = ids(neighbors@);
        let mut candidates: Vec<(String, u32)> = Vec::new();
        let mut i: usize = 0;
        assert(candidates_view(candidates@) =~= self@.candidates(listed.take(0), visited@));
        while i < neighbors.len()
            invariant
                i <= neighbors@.len(),
                listed == ids(neighbors@),
                candidates_view(candidates@) == self@.candidates(listed.take(i as int), visited@),
            decreases neighbors@.len() - i,
        {
            let neighbor = &neighbors[i];
            assert(listed.take(i + 1).drop_last() =~= listed.take(i as int));
            assert(listed.take(i + 1).last() == neighbor@);
            if !visited.contains(neighbor.as_str()) {
                match self.transactions.get(neighbor.as_str()) {
                    Some(transaction) => {
                        let ghost before = candidates_view(candidates@);
                        candidates.push((neighbor.clone(), transaction.weight));
                        assert(candidates_view(candidates@) =~= before.push(
                            (neighbor@, transaction.weight),
                        ));
                    },
                    None => {},
                }
            }
            i += 1;
        }
        assert(listed.take(i as int) =~= listed);
        candidates
    }

    /// Walks from `start_id` over admitted transactions and returns the id
    /// at which the walk ends.
    ///
    /// At an admitted transaction the walk marks it as visited, draws among
    /// its admitted, unvisited neighbours with a chance proportional to the
    /// weight of each, and steps there. It ends where no transaction is
    /// admitted, and where the weights to draw from sum to zero.
    pub fn weighted_random_walk(&self, start_id: &str) -> (tip: Option<String>)
        ensures
            tip matches Some(end) && self@.walk_reaches(start_id@, end@),
            self@.walk_ends(seq![start_id@], start_id@) ==> (tip matches Some(end) && end@
                == start_id@),
    {
        let mut current = start_id.to_owned();
        let mut visited = StringHashSet::new();
        let ghost mut trail: Seq<Seq<char>> = seq![start_id@];
        loop
            invariant
                self@.walk_trail(trail),
                trail[0] == start_id@,
                trail.last() == current@,
                visited@ == trail.drop_last().to_set(),
                visited@.finite(),
                visited@.len() <= usize::MAX,
            decreases usize::MAX - visited@.len(),
        {
            if !self.transactions.contains_key(current.as_str()) {
                return Some(current);
            }
            let ghost before = visited@;
            visited.insert(current.clone());
            proof {
                // Each step visits one more id, and a set holds no more
                // than `usize::MAX` of them.
                assert(visited@.len() == visited.spec_len());
                assert(!before.contains(current@)) by {
                    if before.contains(current@) {
                        let i = choose|i: int|
                            0 <= i < trail.drop_last().len() && trail.drop_last()[i] == current@;
                        assert(trail[i] == trail[trail.len() - 1]);
                    }
                }
                assert(visited@ =~= trail.to_set()) by {
                    assert(trail =~= trail.drop_last().push(current@));
                    assert forall|id: Seq<char>| trail.to_set().contains(id) implies
                        visited@.contains(id) by {
                        let i = choose|i: int| 0 <= i < trail.len() && trail[i] == id;
                        if i < trail.len() - 1 {
                            assert(trail.drop_last()[i] == id);
                        }
                    }
                    assert forall|id: Seq<char>| visited@.contains(id) implies
                        trail.to_set().contains(id) by {
                        if id != current@ {
                            let i = choose|i: int|
                                0 <= i < trail.drop_last().len() && trail.drop_last()[i] == id;
                            assert(trail[i] == id);
                        } else {
                            assert(trail[trail.len() - 1] == id);
                        }
                    }
                }
            }
            let candidates = self.walk_candidates(current.as_str(), &visited);
            let total = total_of(&candidates);
            let ghost options = candidates_view(candidates@);
            proof {
                lemma_candidates(self@, self@.neighbors(current@), visited@);
            }
            if total == 0 {
                proof {
                    lemma_total_weight_zero(weights_of(options));
                    assert forall|n: Seq<char>| #[trigger]
                        self@.neighbors(current@).contains(n) && self@.admitted(n)
                            && !trail.contains(n) implies self@.weight(n) == 0 by {
                        assert(self@.eligible(visited@, n));
                        let j = choose|j: int|
                            0 <= j < options.len() && options[j] == (n, self@.weight(n));
                        assert(weights_of(options)[j] == self@.weight(n));
                    }
                }
                return Some(current);
            }
            let draw = random_below(total);
            let index = match select_by_weight(&candidates, draw) {
                Some(index) => index,
                // Not reached: the draw lies below the total weight.
                None => {
                    return Some(current);
                },
            };
            let next = candidates[index].0.clone();
            proof {
                let weights = weights_of(options);
                assert(weights.take(index + 1).drop_last() =~= weights.take(index as int));
                assert(weights.take(index + 1).last() == weights[index as int]);
                assert(options[index as int].0 == next@);
                assert(self@.eligible(visited@, next@));
                assert(self@.walk_step(current@, next@));
                let longer = trail.push(next@);
                assert(!trail.contains(next@));
                assert forall|i: int, j: int|
                    0 <= i < longer.len() && 0 <= j < longer.len() && i != j implies longer[i]
                    != longer[j] by {
                    if i < trail.len() {
                        assert(trail.contains(longer[i]));
                    }
                    if j < trail.len() {
                        assert(trail.contains(longer[j]));
                    }
                }
                assert(longer.drop_last() =~= trail);
                trail = longer;
            }
            current = next;
        }
    }
}

} // verus!
