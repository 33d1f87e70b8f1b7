//! Breadth-first search over states, generation by generation.

use crate::state::State;
use rand::seq::SliceRandom;
use vstd::prelude::*;

verus! {

/// The sink that a successor generator pushes into.
#[derive(Debug)]
pub struct SearchCollector<R> {
    container: Vec<State<R>>,
}

impl<R> SearchCollector<R> {
    /// The states pushed so far, in the order of the pushes.
    pub closed spec fn view(self) -> Seq<State<R>> {
        self.container@
    }

    /// A collector that holds the states of `container`.
    fn wrap(container: Vec<State<R>>) -> (collector: Self)
        ensures
            collector@ == container@,
    {
        Self { container }
    }

    fn unwrap(self) -> (container: Vec<State<R>>)
        ensures
            container@ == self@,
    {
        self.container
    }

    /// Adds `state` behind the states pushed so far.
    pub fn push(&mut self, state: State<R>)
        ensures
            final(self)@ == old(self)@.push(state),
    {
        self.container.push(state);
    }
}

/// The values of `all` whose verdict is true, in order.
pub open spec fn picks<T>(all: Seq<T>, verdicts: Seq<bool>) -> Seq<T>
    decreases all.len(),
{
    if all.len() == 0 || verdicts.len() != all.len() {
        Seq::empty()
    } else if verdicts.last() {
        picks(all.drop_last(), verdicts.drop_last()).push(all.last())
    } else {
        picks(all.drop_last(), verdicts.drop_last())
    }
}

/// `chosen` holds, in order, the states of `all` for which `test` answered
/// true, when it was asked about each of them once.
pub open spec fn selected<R, G: FnMut(&State<R>) -> bool>(
    test: G,
    all: Seq<State<R>>,
    chosen: Seq<State<R>>,
) -> bool {
    exists|verdicts: Seq<bool>|
        {
            &&& verdicts.len() == all.len()
            &&& forall|i: int|
                0 <= i < all.len() ==> call_ensures(test, (&all[i],), #[trigger] verdicts[i])
            &&& chosen == picks(all, verdicts)
        }
}

/// `test` answered false for each state of `all`.
pub open spec fn barren<R, G: FnMut(&State<R>) -> bool>(test: G, all: Seq<State<R>>) -> bool {
    forall|i: int| 0 <= i < all.len() ==> call_ensures(test, (&#[trigger] all[i],), false)
}

/// Asks `test` about each state of `all` and keeps those for which it
/// answers true.
fn select<R, G>(all: &Vec<State<R>>, test: &mut G) -> (chosen: Vec<State<R>>) where
    G: FnMut(&State<R>) -> bool,

    requires
        forall|state: &State<R>| call_requires(*old(test), (state,)),
    ensures
        *final(test) == *old(test),
        selected(*old(test), all@, chosen@),
        chosen@.len() == 0 ==> barren(*old(test), all@),
{
    let mut chosen: Vec<State<R>> = Vec::new();
    let ghost mut verdicts: Seq<bool> = Seq::empty();
    let mut i: usize = 0;
    while i < all.len()
        invariant
            *test == *old(test),
            forall|state: &State<R>| call_requires(*test, (state,)),
            i <= all@.len(),
            verdicts.len() == i,
            forall|j: int| 0 <= j < i ==> call_ensures(*test, (&all@[j],), #[trigger] verdicts[j]),
            chosen@ == picks(all@.take(i as int), verdicts),
            chosen@.len() == 0 ==> forall|j: int| 0 <= j < i ==> !#[trigger] verdicts[j],
        decreases all.len() - i,
    {
        let verdict = test(&all[i]);
        proof {
            let grown = all@.take(i + 1);
            assert(grown.drop_last() =~= all@.take(i as int));
            assert(verdicts.push(verdict).drop_last() =~= verdicts);
            assert(grown.last() == all@[i as int]);
            verdicts = verdicts.push(verdict);
        }
        if verdict {
            chosen.push(all[i].clone());
        }
        i = i + 1;
    }
    proof {
        assert(all@.take(all@.len() as int) =~= all@);
        if chosen@.len() == 0 {
            assert forall|j: int| 0 <= j < all@.len() implies call_ensures(
                *test,
                (&#[trigger] all@[j],),
                false,
            ) by {
                assert(!verdicts[j]);
            }
        }
    }
    chosen
}

/// `rand`'s `SliceRandom::shuffle`, driven by `rand::thread_rng()`: the
/// states come out in an order that chance picks, each as often as it was
/// there before.
#[verifier::external_body]
fn shuffle_states<R>(states: &mut Vec<State<R>>)
    ensures
        final(states)@.to_multiset() == old(states)@.to_multiset(),
{
    states.shuffle(&mut rand::thread_rng());
}

/// The frontier that the control hook may shrink or reorder before the next
/// generation starts from it.
#[derive(Debug)]
pub struct SearchState<R> {
    depth: u64,
    container: Vec<State<R>>,
}

impl<R> SearchState<R> {
    /// The states of the frontier, in order.
    pub closed spec fn view(self) -> Seq<State<R>> {
        self.container@
    }

    /// The number of the generation that made this frontier, counted from 1.
    pub closed spec fn generation(self) -> u64 {
        self.depth
    }

    /// The frontier of the states of `container`, made by generation `depth`.
    fn wrap(container: Vec<State<R>>, depth: u64) -> (frontier: Self)
        ensures
            frontier@ == container@,
            frontier.generation() == depth,
    {
        Self { container, depth }
    }

    /// The states of the frontier.
    fn unwrap(self) -> (container: Vec<State<R>>)
        ensures
            container@ == self@,
    {
        self.container
    }

    /// The number of states in the frontier.
    pub fn count(&self) -> (n: usize)
        ensures
            n == self@.len(),
    {
        self.container.len()
    }

    /// The states of the frontier, in order.
    pub fn states(&self) -> (states: &[State<R>])
        ensures
            states@ == self@,
    {
        self.container.as_slice()
    }

    /// The number of the generation that made this frontier, counted from 1.
    pub fn depth(&self) -> (depth: u64)
        ensures
            depth == self.generation(),
    {
        self.depth
    }

    /// Empties the frontier.
    pub fn clear(&mut self)
        ensures
            final(self)@ == Seq::<State<R>>::empty(),
            final(self).generation() == old(self).generation(),
    {
        self.container.clear();
    }

    /// Keeps the first `max` states, or all of them where there are fewer.
    pub fn truncate(&mut self, max: usize)
        ensures
            final(self)@ == (if max <= old(self)@.len() {
                old(self)@.take(max as int)
            } else {
                old(self)@
            }),
            final(self).generation() == old(self).generation(),
    {
        self.container.truncate(max);
    }

    /// Puts the states into an order picked by chance.
    pub fn shuffle(&mut self)
        ensures
            final(self)@.to_multiset() == old(self)@.to_multiset(),
            final(self).generation() == old(self).generation(),
    {
        shuffle_states(&mut self.container);
    }

    /// Keeps, in order, the states for which `condition` answers true.
    pub fn retain<F>(&mut self, condition: F) where F: FnMut(&State<R>) -> bool
        requires
            forall|state: &State<R>| call_requires(condition, (state,)),
        ensures
            selected(condition, old(self)@, final(self)@),
            final(self).generation() == old(self).generation(),
    {
        let mut condition = condition;
        let kept = select(&self.container, &mut condition);
        self.container = kept;
    }
}

/// One generation of a search: the frontier it started from, what the
/// collector held before and after each call of the generator, and the
/// frontier that the control hook left.
pub struct Round<R> {
    pub current: Seq<State<R>>,
    pub steps: Seq<Seq<State<R>>>,
    pub following: Seq<State<R>>,
}

impl<R> Round<R> {
    /// The states that the generator pushed in this generation, in order.
    pub open spec fn pushed(self) -> Seq<State<R>> {
        self.steps.last()
    }

    /// The generation started from a frontier that was not empty, with an
    /// empty collector, and has one step for each state of its frontier.
    pub open spec fn shaped(self) -> bool {
        &&& self.current.len() > 0
        &&& self.steps.len() == self.current.len() + 1
        &&& self.steps[0] == Seq::<State<R>>::empty()
    }
}

/// The generations follow on one another from the frontier `initial`.
pub open spec fn chained<R>(rounds: Seq<Round<R>>, initial: Seq<State<R>>) -> bool {
    &&& forall|i: int| 0 <= i < rounds.len() ==> (#[trigger] rounds[i]).shaped()
    &&& rounds.len() > 0 ==> rounds[0].current == initial
    &&& forall|i: int|
        0 < i < rounds.len() ==> (#[trigger] rounds[i]).current == rounds[i - 1].following
}

/// `j` is a place below `n`.
spec fn below(j: int, n: int) -> bool {
    0 <= j < n
}

/// `j` is the place of a state in the frontier of generation `i`.
pub open spec fn within<R>(rounds: Seq<Round<R>>, i: int, j: int) -> bool {
    0 <= i < rounds.len() && 0 <= j < rounds[i].current.len()
}

/// Searches breadth first from the frontier `current`. In each generation
/// `advance` is called once on each state of the frontier, in order, with a
/// collector that gathers what the calls push; `goal` is asked about each
/// pushed state, in order. Where it answers true for any, those states are
/// the result. Otherwise `control` gets the pushed states, and what it leaves
/// is the next frontier. An empty frontier ends the search with no result,
/// and so does the end of the generation count.
///
/// The contract speaks of the generations that the search went through:
/// every one but the last found no state that `goal` accepted and was handed
/// to `control`; the last either gave the result, or was as barren as the
/// others and left an empty frontier or spent the generation count.
pub fn search<R, F, G, C>(current: Vec<State<R>>, advance: F, goal: G, control: C) -> (solutions:
    Vec<State<R>>) where
    F: FnMut(&State<R>, &mut SearchCollector<R>),
    G: FnMut(&State<R>) -> bool,
    C: FnMut(&mut SearchState<R>),

    requires
        forall|state: &State<R>, collector: &mut SearchCollector<R>|
            call_requires(advance, (state, collector)),
        forall|state: &State<R>| call_requires(goal, (state,)),
        forall|frontier: &mut SearchState<R>| call_requires(control, (frontier,)),
    ensures
        exists|rounds: Seq<Round<R>>|
            {
                &&& #[trigger] chained(rounds, current@)
                &&& forall|i: int, j: int| #[trigger]
                    within(rounds, i, j) ==> exists|collector: &mut SearchCollector<R>|
                        {
                            &&& collector@ == rounds[i].steps[j]
                            &&& final(collector)@ == rounds[i].steps[j + 1]
                            &&& #[trigger] call_ensures(
                                advance,
                                (&rounds[i].current[j], collector),
                                (),
                            )
                        }
                &&& forall|i: int|
                    0 <= i < rounds.len() - 1 ==> barren(goal, (#[trigger] rounds[i]).pushed())
                &&& forall|i: int|
                    0 <= i < rounds.len() - 1 ==> exists|frontier: &mut SearchState<R>|
                        {
                            &&& frontier@ == (#[trigger] rounds[i]).pushed()
                            &&& frontier.generation() == i + 1
                            &&& final(frontier)@ == rounds[i].following
                            &&& #[trigger] call_ensures(control, (frontier,), ())
                        }
                &&& if rounds.len() == 0 {
                    current@.len() == 0 && solutions@.len() == 0
                } else {
                    let last = rounds.last();
                    ||| solutions@.len() > 0 && selected(goal, last.pushed(), solutions@)
                    ||| {
                        &&& solutions@.len() == 0
                        &&& barren(goal, last.pushed())
                        &&& exists|frontier: &mut SearchState<R>|
                            {
                                &&& frontier@ == last.pushed()
                                &&& frontier.generation() == rounds.len()
                                &&& final(frontier)@ == last.following
                                &&& #[trigger] call_ensures(control, (frontier,), ())
                            }
                        &&& (last.following.len() == 0 || rounds.len() == u64::MAX)
                    }
                }
            },
{
    let ghost initial = current@;
    let mut front = current;
    let mut expand = advance;
    let mut test = goal;
    let mut hook = control;
    let mut next: Vec<State<R>> = Vec::new();
    let mut depth: u64 = 0;
    let ghost mut rounds: Seq<Round<R>> = Seq::empty();
    loop
        invariant
            initial == current@,
            expand == advance,
            test == goal,
            hook == control,
            forall|state: &State<R>, collector: &mut SearchCollector<R>|
                call_requires(advance, (state, collector)),
            forall|state: &State<R>| call_requires(goal, (state,)),
            forall|frontier: &mut SearchState<R>| call_requires(control, (frontier,)),
            rounds.len() == depth,
            chained(rounds, initial),
            depth == 0 ==> front@ == initial,
            depth > 0 ==> front@ == rounds.last().following,
            forall|i: int, j: int| #[trigger]
                within(rounds, i, j) ==> exists|collector: &mut SearchCollector<R>|
                    {
                        &&& collector@ == rounds[i].steps[j]
                        &&& final(collector)@ == rounds[i].steps[j + 1]
                        &&& #[trigger] call_ensures(
                            advance,
                            (&rounds[i].current[j], collector),
                            (),
                        )
                    },
            forall|i: int| 0 <= i < rounds.len() ==> barren(goal, (#[trigger] rounds[i]).pushed()),
            forall|i: int|
                0 <= i < rounds.len() ==> exists|frontier: &mut SearchState<R>|
                    {
                        &&& frontier@ == (#[trigger] rounds[i]).pushed()
                        &&& frontier.generation() == i + 1
                        &&& final(frontier)@ == rounds[i].following
                        &&& #[trigger] call_ensures(control, (frontier,), ())
                    },
        decreases u64::MAX - depth,
    {
        if depth == u64::MAX || front.is_empty() {
            proof {
                if rounds.len() > 0 {
                    assert(rounds[rounds.len() - 1] == rounds.last());
                }
            }
            return Vec::new();
        }
        depth = depth + 1;
        next.clear();
        let mut collector = SearchCollector::wrap(next);
        let ghost mut steps: Seq<Seq<State<R>>> = seq![collector@];
        let mut i: usize = 0;
        while i < front.len()
            invariant
                expand == advance,
                forall|state: &State<R>, collector: &mut SearchCollector<R>|
                    call_requires(advance, (state, collector)),
                i <= front@.len(),
                steps.len() == i + 1,
                steps[0] == Seq::<State<R>>::empty(),
                steps[i as int] == collector@,
                forall|j: int| #[trigger]
                    below(j, i as int) ==> exists|collector: &mut SearchCollector<R>|
                        {
                            &&& collector@ == steps[j]
                            &&& final(collector)@ == steps[j + 1]
                            &&& #[trigger] call_ensures(advance, (&front@[j], collector), ())
                        },
            decreases front.len() - i,
        {
            let ghost before = steps;
            expand(&front[i], &mut collector);
            proof {
                steps = steps.push(collector@);
                assert(forall|j: int| 0 <= j <= i ==> steps[j] == before[j]);
                assert forall|j: int| #[trigger] below(j, i + 1) implies exists|
                    collector: &mut SearchCollector<R>,
                |
                    {
                        &&& collector@ == steps[j]
                        &&& final(collector)@ == steps[j + 1]
                        &&& #[trigger] call_ensures(advance, (&front@[j], collector), ())
                    } by {
                    if j < i {
                        assert(below(j, i as int));
                    }
                }
            }
            i = i + 1;
        }
        next = collector.unwrap();
        let solutions = select(&next, &mut test);
        let ghost before = rounds;
        let found = !solutions.is_empty();
        if !found {
            let mut frontier = SearchState::wrap(next, depth);
            hook(&mut frontier);
            next = frontier.unwrap();
        }
        proof {
            let round = Round { current: front@, steps, following: next@ };
            rounds = rounds.push(round);
            assert(forall|k: int| 0 <= k < before.len() ==> rounds[k] == before[k]);
            assert(rounds.last() == round);
            assert forall|k: int, j: int| #[trigger] within(rounds, k, j) implies exists|
                collector: &mut SearchCollector<R>,
            |
                {
                    &&& collector@ == rounds[k].steps[j]
                    &&& final(collector)@ == rounds[k].steps[j + 1]
                    &&& #[trigger] call_ensures(advance, (&rounds[k].current[j], collector), ())
                } by {
                if k < before.len() {
                    assert(within(before, k, j));
                } else {
                    assert(below(j, front@.len() as int));
                }
            }
        }
        if found {
            proof {
                assert(rounds.last().pushed() == next@);
                assert(chained(rounds, initial));
            }
            return solutions;
        }
        std::mem::swap(&mut next, &mut front);
    }
}

/// A generation in which the generator pushes nothing ends the search, and
/// without a solution, where the control hook hands on no state that was not
/// pushed.
pub proof fn lemma_exhausted_search_is_empty<R, G, C>(
    goal: G,
    control: C,
    initial: Seq<State<R>>,
    rounds: Seq<Round<R>>,
    solutions: Seq<State<R>>,
    at: int,
) where G: FnMut(&State<R>) -> bool, C: FnMut(&mut SearchState<R>)
    requires
        chained(rounds, initial),
        forall|i: int|
            0 <= i < rounds.len() - 1 ==> exists|frontier: &mut SearchState<R>|
                {
                    &&& frontier@ == (#[trigger] rounds[i]).pushed()
                    &&& frontier.generation() == i + 1
                    &&& final(frontier)@ == rounds[i].following
                    &&& #[trigger] call_ensures(control, (frontier,), ())
                },
        rounds.len() > 0 ==> solutions.len() == 0 || selected(
            goal,
            rounds.last().pushed(),
            solutions,
        ),
        forall|frontier: &mut SearchState<R>, k: int| #[trigger]
            call_ensures(control, (frontier,), ()) && 0 <= k < final(frontier)@.len()
                ==> frontier@.contains(#[trigger] final(frontier)@[k]),
        0 <= at < rounds.len(),
        rounds[at].pushed().len() == 0,
    ensures
        at == rounds.len() - 1,
        solutions.len() == 0,
{
    if at < rounds.len() - 1 {
        let frontier = choose|frontier: &mut SearchState<R>|
            {
                &&& frontier@ == rounds[at].pushed()
                &&& frontier.generation() == at + 1
                &&& final(frontier)@ == rounds[at].following
                &&& #[trigger] call_ensures(control, (frontier,), ())
            };
        assert(rounds[at + 1].shaped());
        assert(rounds[at + 1].current == rounds[at].following);
        assert(frontier@.contains(final(frontier)@[0]));
    }
}

/// Verdicts that agree with a test of the value alone pick what the test
/// filters.
proof fn lemma_picks_filter<T>(all: Seq<T>, verdicts: Seq<bool>, accepts: spec_fn(T) -> bool)
    requires
        verdicts.len() == all.len(),
        forall|i: int| 0 <= i < all.len() ==> #[trigger] verdicts[i] == accepts(all[i]),
    ensures
        picks(all, verdicts) == all.filter(accepts),
    decreases all.len(),
{
    reveal(Seq::filter);
    if all.len() > 0 {
        lemma_picks_filter(all.drop_last(), verdicts.drop_last(), accepts);
    }
}

/// Where the goal is a test of the state alone, the solutions of a search
/// are the states that its last generation pushed and the test accepts, in
/// the order of the pushes, and no generation before it pushed a state that
/// the test accepts.
pub proof fn lemma_solutions_are_shallowest<R, G>(
    goal: G,
    accepts: spec_fn(State<R>) -> bool,
    rounds: Seq<Round<R>>,
    solutions: Seq<State<R>>,
) where G: FnMut(&State<R>) -> bool
    requires
        forall|state: State<R>, verdict: bool| #[trigger]
            call_ensures(goal, (&state,), verdict) ==> verdict == accepts(state),
        rounds.len() > 0,
        forall|i: int| 0 <= i < rounds.len() - 1 ==> barren(goal, (#[trigger] rounds[i]).pushed()),
        selected(goal, rounds.last().pushed(), solutions),
    ensures
        solutions == rounds.last().pushed().filter(accepts),
        forall|i: int, k: int|
            0 <= i < rounds.len() - 1 && 0 <= k < rounds[i].pushed().len() ==> !accepts(
                #[trigger] rounds[i].pushed()[k],
            ),
{
    let pushed = rounds.last().pushed();
    let verdicts = choose|verdicts: Seq<bool>|
        {
            &&& verdicts.len() == pushed.len()
            &&& forall|i: int|
                0 <= i < pushed.len() ==> call_ensures(goal, (&pushed[i],), #[trigger] verdicts[i])
            &&& solutions == picks(pushed, verdicts)
        };
    lemma_picks_filter(pushed, verdicts, accepts);
    assert forall|i: int, k: int|
        0 <= i < rounds.len() - 1 && 0 <= k < rounds[i].pushed().len() implies !accepts(
        #[trigger] rounds[i].pushed()[k],
    ) by {
        assert(barren(goal, rounds[i].pushed()));
        assert(call_ensures(goal, (&rounds[i].pushed()[k],), false));
    }
}

} // verus!
