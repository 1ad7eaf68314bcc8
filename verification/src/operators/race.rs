use vstd::prelude::*;

use crate::operators;
use crate::operators::merge;
use crate::operators::merge::{MergeArm, Merged};
use crate::operators::referee::MergeProgress;
use crate::signal;
use crate::signal::ChannelSignal;
use crate::stage;
use crate::stage::{Inbound, Outcome};

verus! {

/// The two sources of a merge.
pub enum Side {
    /// The subject that is merged.
    Left,
    /// The subject that it is merged with.
    Right,
}

/// Two arms that run against each other: how far the merge has come, and which
/// arms still run.
pub struct Race {
    /// How far the merge has come.
    pub progress: MergeProgress,
    /// Whether the first arm runs.
    pub left: bool,
    /// Whether the second arm runs.
    pub right: bool,
}

impl Race {
    /// Both arms run.
    pub open spec fn start() -> Self {
        Race { progress: MergeProgress::initial(), left: true, right: true }
    }

    /// Whether the arm on `side` runs.
    pub open spec fn runs(self, side: Side) -> bool {
        match side {
            Side::Left => self.left,
            Side::Right => self.right,
        }
    }

    /// One arm takes a step, which for an end of its source is a single claim.
    pub open spec fn step<T, E>(self, side: Side, inbound: Inbound<T, E>) -> (
        Race,
        Outcome<ChannelSignal<T, E>>,
    ) {
        if !self.runs(side) {
            (self, Outcome::skip())
        } else {
            let outcome = merge::merged(inbound, merge::granted(self.progress, inbound));
            let progress = merge::progressed(self.progress, inbound);
            (
                match side {
                    Side::Left => Race { progress, left: !outcome.stop, right: self.right },
                    Side::Right => Race { progress, left: self.left, right: !outcome.stop },
                },
                Outcome { emit: outcome.emit, stop: false },
            )
        }
    }
}

/// The race of two arms as one machine, fed what arrives on either side.
pub open spec fn merge_machine<T, E>() -> spec_fn(Race, (Side, Inbound<T, E>)) -> (
    Race,
    Outcome<ChannelSignal<T, E>>,
) {
    |race: Race, arrival: (Side, Inbound<T, E>)| race.step(arrival.0, arrival.1)
}

/// What the arms emit, in order. `arrivals` lists what arrives on either side
/// in the order in which the arms' steps take effect on the output.
pub open spec fn race_output<T, E>(race: Race, arrivals: Seq<(Side, Inbound<T, E>)>) -> Seq<
    ChannelSignal<T, E>,
> {
    stage::run(merge_machine::<T, E>(), race, arrivals)
}

/// What arrives on one side.
pub open spec fn on_side<T, E>(arrivals: Seq<(Side, Inbound<T, E>)>, side: Side) -> Seq<
    Inbound<T, E>,
>
    decreases arrivals.len(),
{
    if arrivals.len() == 0 {
        Seq::empty()
    } else if arrivals[0].0 == side {
        seq![arrivals[0].1] + on_side(arrivals.drop_first(), side)
    } else {
        on_side(arrivals.drop_first(), side)
    }
}

/// The values that arrive on either side, in order of arrival.
pub open spec fn interleaved<T, E>(arrivals: Seq<(Side, Inbound<T, E>)>) -> Seq<T>
    decreases arrivals.len(),
{
    if arrivals.len() == 0 {
        Seq::empty()
    } else {
        match arrivals[0].1 {
            Inbound::Signal(Some(Ok(t))) => seq![t] + interleaved(arrivals.drop_first()),
            _ => interleaved(arrivals.drop_first()),
        }
    }
}

/// What becomes of a source, for the arm that reads from it.
pub enum Course<T, E> {
    /// It may give more.
    Open,
    /// It completed.
    Completed,
    /// The arm lost it: it is lagging or gone, or the wait was called off.
    Broken(Inbound<T, E>),
}

impl<T, E> Course<T, E> {
    /// What breaks an arm off is no signal of its source.
    pub open spec fn valid(self) -> bool {
        self matches Course::Broken(break_off) ==> !(break_off is Signal)
    }
}

/// What reaches an arm whose source gives `values` and then takes `course`.
pub open spec fn source<T, E>(values: Seq<T>, course: Course<T, E>) -> Seq<Inbound<T, E>> {
    match course {
        Course::Open => stage::incoming(values),
        Course::Completed => stage::incoming(values).push(Inbound::Signal(None)),
        Course::Broken(break_off) => stage::incoming(values).push(break_off),
    }
}

/// Where the race stands after `arrivals`.
pub open spec fn race_after<T, E>(race: Race, arrivals: Seq<(Side, Inbound<T, E>)>) -> Race
    decreases arrivals.len(),
{
    if arrivals.len() == 0 {
        race
    } else {
        race_after(race.step(arrivals[0].0, arrivals[0].1).0, arrivals.drop_first())
    }
}

/// The race stands where the sources have taken the courses `left` and `right`,
/// and none has failed.
spec fn standing<T, E>(race: Race, left: Course<T, E>, right: Course<T, E>) -> bool {
    &&& race.left == (left is Open)
    &&& race.right == (right is Open)
    &&& !race.progress.terminated
    &&& race.progress.remaining == (if left is Completed {
        0int
    } else {
        1
    }) + (if right is Completed {
        0int
    } else {
        1
    })
}

/// The course of a source that had taken `at` and then takes `to`.
spec fn onward<T, E>(at: Course<T, E>, to: Course<T, E>) -> Course<T, E> {
    if at is Open {
        to
    } else {
        at
    }
}

proof fn lemma_source_tail<T, E>(values: Seq<T>, course: Course<T, E>)
    requires
        source(values, course).len() > 0,
    ensures
        ({
            let all = source(values, course);
            if values.len() > 0 {
                &&& all[0] == Inbound::Signal(Some(Ok::<T, E>(values[0])))
                &&& all.drop_first() == source(values.drop_first(), course)
            } else {
                &&& all.drop_first() == source(values, Course::<T, E>::Open)
                &&& match course {
                    Course::Open => false,
                    Course::Completed => all[0] == Inbound::<T, E>::Signal(None),
                    Course::Broken(break_off) => all[0] == break_off,
                }
            }
        }),
{
    let all = source(values, course);
    if values.len() > 0 {
        assert(all.drop_first() =~= source(values.drop_first(), course));
    } else {
        assert(all.drop_first() =~= source(values, Course::<T, E>::Open));
    }
}

proof fn lemma_race_of_values<T, E>(
    race: Race,
    arrivals: Seq<(Side, Inbound<T, E>)>,
    left_values: Seq<T>,
    right_values: Seq<T>,
    left_at: Course<T, E>,
    right_at: Course<T, E>,
    left: Course<T, E>,
    right: Course<T, E>,
)
    requires
        standing(race, left_at, right_at),
        left.valid(),
        right.valid(),
        !(left_at is Open) ==> left_values.len() == 0 && left is Open,
        !(right_at is Open) ==> right_values.len() == 0 && right is Open,
        on_side(arrivals, Side::Left) == source(left_values, left),
        on_side(arrivals, Side::Right) == source(right_values, right),
    ensures
        race_output(race, arrivals) == signal::nexts::<T, E>(interleaved(arrivals)) + (if onward(
            left_at,
            left,
        ) is Completed && onward(right_at, right) is Completed && !(left_at is Completed
            && right_at is Completed) {
            seq![None]
        } else {
            Seq::empty()
        }),
        standing(race_after(race, arrivals), onward(left_at, left), onward(right_at, right)),
    decreases arrivals.len(),
{
    let output = race_output(race, arrivals);
    if arrivals.len() == 0 {
        assert(source(left_values, left).len() == 0);
        assert(source(right_values, right).len() == 0);
        assert(output =~= signal::nexts::<T, E>(interleaved(arrivals)) + Seq::empty());
    } else {
        let (side, inbound) = arrivals[0];
        let rest = arrivals.drop_first();
        let (next, outcome) = race.step(side, inbound);
        match side {
            Side::Left => {
                assert(on_side(arrivals, Side::Left)[0] == inbound);
                assert(on_side(arrivals, Side::Left).drop_first() =~= on_side(rest, Side::Left));
                lemma_source_tail(left_values, left);
                if left_values.len() > 0 {
                    lemma_race_of_values(
                        next,
                        rest,
                        left_values.drop_first(),
                        right_values,
                        left_at,
                        right_at,
                        left,
                        right,
                    );
                } else {
                    lemma_race_of_values(
                        next,
                        rest,
                        left_values,
                        right_values,
                        left,
                        right_at,
                        Course::Open,
                        right,
                    );
                }
            },
            Side::Right => {
                assert(on_side(arrivals, Side::Right)[0] == inbound);
                assert(on_side(arrivals, Side::Right).drop_first() =~= on_side(rest, Side::Right));
                lemma_source_tail(right_values, right);
                if right_values.len() > 0 {
                    lemma_race_of_values(
                        next,
                        rest,
                        left_values,
                        right_values.drop_first(),
                        left_at,
                        right_at,
                        left,
                        right,
                    );
                } else {
                    lemma_race_of_values(
                        next,
                        rest,
                        left_values,
                        right_values,
                        left_at,
                        right,
                        left,
                        Course::Open,
                    );
                }
            },
        }
        let later = race_output(next, rest);
        assert(output == outcome.emit + later);
        let values = signal::nexts::<T, E>(interleaved(arrivals));
        let others = signal::nexts::<T, E>(interleaved(rest));
        let end = if onward(left_at, left) is Completed && onward(right_at, right) is Completed
            && !(left_at is Completed && right_at is Completed) {
            seq![None::<Result<T, E>>]
        } else {
            Seq::empty()
        };
        if let Inbound::Signal(Some(Ok(t))) = inbound {
            assert(values =~= seq![Some(Ok::<T, E>(t))] + others);
            assert(later == others + end);
            assert(output =~= values + end);
        } else {
            assert(values == others);
            if (side is Left && !(right_at is Open)) || (side is Right && !(left_at is Open)) {
                // The last arm has stopped: nothing can have arrived after that.
                if rest.len() > 0 {
                    assert(on_side(rest, rest[0].0).len() > 0);
                }
                assert(others =~= Seq::empty());
                assert(later =~= Seq::empty());
                assert(output =~= values + end);
            } else {
                assert(later == others + end);
                assert(output =~= values + end);
            }
        }
    }
}

/// `merge` emits the values of both sources in order of arrival, and completes
/// once both have completed: as long as one has not, be it that it is lagging
/// or lost, there is no end. All of it gets onto the output's channel.
pub proof fn law_merge_completes_after_both<T, E>(
    arrivals: Seq<(Side, Inbound<T, E>)>,
    left_values: Seq<T>,
    right_values: Seq<T>,
    left: Course<T, E>,
    right: Course<T, E>,
)
    requires
        left.valid(),
        right.valid(),
        on_side(arrivals, Side::Left) == source(left_values, left),
        on_side(arrivals, Side::Right) == source(right_values, right),
    ensures
        race_output(Race::start(), arrivals) == if left is Completed && right is Completed {
            signal::nexts::<T, E>(interleaved(arrivals)).push(None)
        } else {
            signal::nexts::<T, E>(interleaved(arrivals))
        },
        operators::absorbed(Seq::empty(), race_output(Race::start(), arrivals)) == race_output(
            Race::start(),
            arrivals,
        ),
{
    lemma_race_of_values(
        Race::start(),
        arrivals,
        left_values,
        right_values,
        Course::Open,
        Course::Open,
        left,
        right,
    );
    let emitted = signal::nexts::<T, E>(interleaved(arrivals));
    if left is Completed && right is Completed {
        assert(emitted + seq![None] =~= emitted.push(None));
    } else {
        assert(emitted + Seq::empty() =~= emitted);
    }
    let output = race_output(Race::start(), arrivals);
    operators::lemma_absorbed_whole(Seq::empty(), output);
    assert(Seq::empty() + output =~= output);
}

proof fn lemma_race_concat<T, E>(
    race: Race,
    first: Seq<(Side, Inbound<T, E>)>,
    second: Seq<(Side, Inbound<T, E>)>,
)
    ensures
        race_output(race, first + second) == race_output(race, first) + race_output(
            race_after(race, first),
            second,
        ),
    decreases first.len(),
{
    if first.len() == 0 {
        assert(first + second =~= second);
        assert(race_output(race, first) + race_output(race, second) =~= race_output(race, second));
    } else {
        let (next, outcome) = race.step(first[0].0, first[0].1);
        assert((first + second).drop_first() =~= first.drop_first() + second);
        lemma_race_concat(next, first.drop_first(), second);
        let middle = race_output(next, first.drop_first());
        let last = race_output(race_after(race, first), second);
        assert(outcome.emit + (middle + last) =~= (outcome.emit + middle) + last);
    }
}

/// An error of either source is forwarded at once and ends the merge, also
/// where the other source has completed or is lagging or lost: on the output it
/// follows the values that arrived before it, and nothing that arrives
/// afterwards, on either side, gets onto the output any more.
pub proof fn law_merge_forwards_first_error<T, E>(
    before: Seq<(Side, Inbound<T, E>)>,
    side: Side,
    error: E,
    after: Seq<(Side, Inbound<T, E>)>,
    left_values: Seq<T>,
    right_values: Seq<T>,
    left_course: Course<T, E>,
    right_course: Course<T, E>,
)
    requires
        left_course.valid(),
        right_course.valid(),
        on_side(before, Side::Left) == source(left_values, left_course),
        on_side(before, Side::Right) == source(right_values, right_course),
        side is Left ==> left_course is Open,
        side is Right ==> right_course is Open,
    ensures
        operators::absorbed(
            Seq::empty(),
            race_output(
                Race::start(),
                before.push((side, Inbound::Signal(Some(Err(error))))) + after,
            ),
        ) == signal::nexts::<T, E>(interleaved(before)).push(Some(Err(error))),
{
    let failure = (side, Inbound::Signal(Some(Err::<T, E>(error))));
    let arrivals = before.push(failure) + after;
    assert(arrivals =~= before + (seq![failure] + after));
    lemma_race_of_values(
        Race::start(),
        before,
        left_values,
        right_values,
        Course::Open,
        Course::Open,
        left_course,
        right_course,
    );
    lemma_race_concat(Race::start(), before, seq![failure] + after);
    let race = race_after(Race::start(), before);
    assert((seq![failure] + after)[0] == failure);
    assert((seq![failure] + after).drop_first() =~= after);
    let next = race.step(side, failure.1).0;
    let values = signal::nexts::<T, E>(interleaved(before));
    assert(values + Seq::empty() =~= values);
    let closing = values.push(Some(Err(error)));
    assert(race_output(Race::start(), arrivals) =~= closing + race_output(next, after));
    operators::lemma_absorbed_concat(Seq::empty(), closing, race_output(next, after));
    operators::lemma_absorbed_whole(Seq::empty(), closing);
    assert(Seq::empty() + closing =~= closing);
    assert(signal::ended(closing));
}

/// Each arm that runs counts among the sources that have not completed, and so
/// does one that failed.
spec fn accounted(race: Race) -> bool {
    race.progress.remaining >= (if race.left {
        1int
    } else {
        0
    }) + (if race.right {
        1int
    } else {
        0
    }) + (if race.progress.terminated {
        1int
    } else {
        0
    })
}

proof fn lemma_one_end<T, E>(race: Race, arrivals: Seq<(Side, Inbound<T, E>)>)
    requires
        accounted(race),
    ensures
        forall|i: int, j: int|
            #![trigger race_output(race, arrivals)[i], race_output(race, arrivals)[j]]
            0 <= i < j < race_output(race, arrivals).len() ==> !(signal::ends(
                race_output(race, arrivals)[i],
            ) && signal::ends(race_output(race, arrivals)[j])),
        race.progress.terminated || (!race.left && !race.right) ==> forall|i: int|
            0 <= i < race_output(race, arrivals).len() ==> !signal::ends(
                #[trigger] race_output(race, arrivals)[i],
            ),
    decreases arrivals.len(),
{
    if arrivals.len() > 0 {
        let (side, inbound) = arrivals[0];
        let (next, outcome) = race.step(side, inbound);
        let rest = arrivals.drop_first();
        lemma_one_end(next, rest);
        let output = race_output(race, arrivals);
        let later = race_output(next, rest);
        assert(output == outcome.emit + later);
        assert(outcome.emit.len() <= 1);
        assert(forall|i: int|
            outcome.emit.len() <= i < output.len() ==> #[trigger] output[i] == later[i
                - outcome.emit.len()]);
    }
}

/// Whatever arrives in whatever order, the arms of a merge put at most one end
/// on the output between them: one error, or one completion, never both.
pub proof fn law_merge_ends_once<T, E>(arrivals: Seq<(Side, Inbound<T, E>)>)
    ensures
        forall|i: int, j: int|
            #![trigger race_output(Race::start(), arrivals)[i], race_output(Race::start(), arrivals)[j]]
            0 <= i < j < race_output(Race::start(), arrivals).len() ==> !(signal::ends(
                race_output(Race::start(), arrivals)[i],
            ) && signal::ends(race_output(Race::start(), arrivals)[j])),
{
    lemma_one_end(Race::start(), arrivals);
}

proof fn lemma_completion_needs_both<T, E>(
    race: Race,
    arrivals: Seq<(Side, Inbound<T, E>)>,
    left_done: bool,
    right_done: bool,
)
    requires
        left_done ==> !race.left,
        right_done ==> !race.right,
        race.progress.remaining == (if left_done {
            0int
        } else {
            1
        }) + (if right_done {
            0int
        } else {
            1
        }),
        race_output(race, arrivals).contains(None),
    ensures
        left_done || on_side(arrivals, Side::Left).contains(Inbound::Signal(None)),
        right_done || on_side(arrivals, Side::Right).contains(Inbound::Signal(None)),
    decreases arrivals.len(),
{
    if arrivals.len() > 0 {
        let (side, inbound) = arrivals[0];
        let (next, outcome) = race.step(side, inbound);
        let rest = arrivals.drop_first();
        let later = race_output(next, rest);
        let here = on_side(arrivals, side);
        let there = on_side(rest, side);
        assert(here == seq![inbound] + there);
        assert(here[0] == inbound);
        assert forall|x: Inbound<T, E>| there.contains(x) implies here.contains(x) by {
            let i = choose|i: int| 0 <= i < there.len() && there[i] == x;
            assert(here[i + 1] == x);
        }
        let completes = race.runs(side) && inbound == Inbound::<T, E>::Signal(None);
        let output = race_output(race, arrivals);
        let at = choose|i: int| 0 <= i < output.len() && output[i] == None::<Result<T, E>>;
        if at >= outcome.emit.len() {
            assert(later[at - outcome.emit.len()] == output[at]);
            lemma_completion_needs_both(
                next,
                rest,
                left_done || (completes && side is Left),
                right_done || (completes && side is Right),
            );
        } else {
            assert(outcome.emit[at] == output[at]);
        }
    }
}

/// A merge never completes unless both sources have: where one is lagging or
/// lost, the completion of the other does not complete the merge.
pub proof fn law_merge_completion_needs_both<T, E>(arrivals: Seq<(Side, Inbound<T, E>)>)
    ensures
        race_output(Race::start(), arrivals).contains(None) ==> on_side(
            arrivals,
            Side::Left,
        ).contains(Inbound::Signal(None)) && on_side(arrivals, Side::Right).contains(
            Inbound::Signal(None),
        ),
{
    if race_output(Race::start(), arrivals).contains(None) {
        lemma_completion_needs_both(Race::start(), arrivals, false, false);
    }
}

/// Where an arm is lagging or lost, or was cancelled, the other goes on: all of
/// its values still reach the output, beside those that the first arm passed on
/// before; and the merge does not complete.
pub proof fn law_merge_goes_on_without_a_lost_arm<T, E>(
    arrivals: Seq<(Side, Inbound<T, E>)>,
    left_values: Seq<T>,
    right_values: Seq<T>,
    left: Course<T, E>,
    right: Course<T, E>,
)
    requires
        left.valid(),
        right.valid(),
        left is Broken || right is Broken,
        on_side(arrivals, Side::Left) == source(left_values, left),
        on_side(arrivals, Side::Right) == source(right_values, right),
    ensures
        operators::absorbed(Seq::empty(), race_output(Race::start(), arrivals)) == signal::nexts::<
            T,
            E,
        >(interleaved(arrivals)),
{
    law_merge_completes_after_both(arrivals, left_values, right_values, left, right);
}

/// One arm handles one arrival.
pub struct Turn<T, E> {
    /// Which arm it is.
    pub side: Side,
    /// What arrived.
    pub inbound: Inbound<T, E>,
    /// The arm before.
    pub before: MergeArm,
    /// The arm after.
    pub after: MergeArm,
    /// What the arm did.
    pub outcome: Outcome<ChannelSignal<T, E>>,
}

/// The arms take `turns`, starting as `left` and `right`, each as long as it
/// runs and each turn as [`MergeArm::on_inbound`] takes it.
pub open spec fn plays<T, E>(
    turns: Seq<Turn<T, E>>,
    left: MergeArm,
    right: MergeArm,
    left_runs: bool,
    right_runs: bool,
) -> bool
    decreases turns.len(),
{
    turns.len() == 0 || {
        let turn = turns[0];
        let rest = turns.drop_first();
        &&& merge::acts(turn.before, turn.inbound, turn.after, turn.outcome)
        &&& match turn.side {
            Side::Left => {
                &&& left_runs
                &&& turn.before == left
                &&& plays(rest, turn.after, right, !turn.outcome.stop, right_runs)
            },
            Side::Right => {
                &&& right_runs
                &&& turn.before == right
                &&& plays(rest, left, turn.after, left_runs, !turn.outcome.stop)
            },
        }
    }
}

/// What arrives over the turns, in order.
pub open spec fn arrived<T, E>(turns: Seq<Turn<T, E>>) -> Seq<(Side, Inbound<T, E>)> {
    turns.map_values(|turn: Turn<T, E>| (turn.side, turn.inbound))
}

/// What the arms pass on over the turns, in order.
pub open spec fn passed_on<T, E>(turns: Seq<Turn<T, E>>) -> Seq<ChannelSignal<T, E>>
    decreases turns.len(),
{
    if turns.len() == 0 {
        Seq::empty()
    } else {
        turns[0].outcome.emit + passed_on(turns.drop_first())
    }
}

/// The claims that both arms make over the turns, in order.
pub open spec fn claimed<T, E>(turns: Seq<Turn<T, E>>) -> Seq<(bool, bool)>
    decreases turns.len(),
{
    if turns.len() == 0 {
        Seq::empty()
    } else {
        turns[0].after.claims().skip(turns[0].before.claims().len() as int) + claimed(
            turns.drop_first(),
        )
    }
}

/// The claims were made one after the other on one progress, which was `held`
/// at first: each is answered as [`MergeProgress::claim`] answers it.
pub open spec fn answered(held: MergeProgress, claims: Seq<(bool, bool)>) -> bool
    decreases claims.len(),
{
    claims.len() == 0 || {
        &&& claims[0].1 == held.grants(claims[0].0)
        &&& answered(held.after(claims[0].0), claims.drop_first())
    }
}

/// Whether the bells of a progress have rung, after `claims` on it.
pub open spec fn rung(claims: Seq<(bool, bool)>) -> bool {
    exists|i: int| 0 <= i < claims.len() && (#[trigger] claims[i]).1
}

proof fn lemma_turn_claims<T, E>(turns: Seq<Turn<T, E>>)
    requires
        turns.len() > 0,
        merge::acts(turns[0].before, turns[0].inbound, turns[0].after, turns[0].outcome),
    ensures
        match merge::ending(turns[0].inbound) {
            Some(failed) => {
                &&& claimed(turns).len() > 0
                &&& claimed(turns)[0] == (failed, turns[0].after.claims().last().1)
                &&& claimed(turns).drop_first() == claimed(turns.drop_first())
            },
            None => claimed(turns) == claimed(turns.drop_first()),
        },
{
    let turn = turns[0];
    let made = turn.after.claims().skip(turn.before.claims().len() as int);
    match merge::ending(turn.inbound) {
        Some(failed) => {
            assert(made =~= seq![(failed, turn.after.claims().last().1)]);
            assert(claimed(turns).drop_first() =~= claimed(turns.drop_first()));
        },
        None => {
            assert(made =~= Seq::empty());
            assert(claimed(turns) =~= claimed(turns.drop_first()));
        },
    }
}

proof fn lemma_turns_are_race<T, E>(
    turns: Seq<Turn<T, E>>,
    left: MergeArm,
    right: MergeArm,
    race: Race,
)
    requires
        plays(turns, left, right, race.left, race.right),
        answered(race.progress, claimed(turns)),
    ensures
        passed_on(turns) == race_output(race, arrived(turns)),
    decreases turns.len(),
{
    let arrivals = arrived(turns);
    if turns.len() == 0 {
        assert(race_output(race, arrivals) =~= Seq::empty());
    } else {
        let turn = turns[0];
        let rest = turns.drop_first();
        let next = race.step(turn.side, turn.inbound).0;
        lemma_turn_claims(turns);
        assert(turn.outcome == merge::merged(turn.inbound, merge::granted(race.progress, turn.inbound)));
        match turn.side {
            Side::Left => lemma_turns_are_race(rest, turn.after, right, next),
            Side::Right => lemma_turns_are_race(rest, left, turn.after, next),
        }
        assert(arrivals[0] == (turn.side, turn.inbound));
        assert(arrivals.drop_first() =~= arrived(rest));
    }
}

/// The arms of a merge run the race: for any turns that they take, where their
/// claims are made on the one progress that they share, what they pass on is
/// what [`Race`] says.
pub proof fn law_arms_run_the_race<T, E>(
    turns: Seq<Turn<T, E>>,
    left: MergeArm,
    right: MergeArm,
)
    requires
        merge::paired(left, right),
        plays(turns, left, right, true, true),
        answered(left.initial(), claimed(turns)),
    ensures
        passed_on(turns) == race_output(Race::start(), arrived(turns)),
{
    lemma_turns_are_race(turns, left, right, Race::start());
}

/// For the arms of a merge: as long as neither source fails, the output gets
/// the values of both in order of arrival, also those that arrive where the
/// other arm is lagging or lost, and it completes, after the last of them,
/// exactly once both sources have completed.
pub proof fn law_arms_complete_after_both<T, E>(
    turns: Seq<Turn<T, E>>,
    left: MergeArm,
    right: MergeArm,
    left_values: Seq<T>,
    right_values: Seq<T>,
    left_course: Course<T, E>,
    right_course: Course<T, E>,
)
    requires
        merge::paired(left, right),
        plays(turns, left, right, true, true),
        answered(left.initial(), claimed(turns)),
        left_course.valid(),
        right_course.valid(),
        on_side(arrived(turns), Side::Left) == source(left_values, left_course),
        on_side(arrived(turns), Side::Right) == source(right_values, right_course),
    ensures
        operators::absorbed(Seq::empty(), passed_on(turns)) == if left_course is Completed
            && right_course is Completed {
            signal::nexts::<T, E>(interleaved(arrived(turns))).push(None)
        } else {
            signal::nexts::<T, E>(interleaved(arrived(turns)))
        },
{
    law_arms_run_the_race(turns, left, right);
    law_merge_completes_after_both(
        arrived(turns),
        left_values,
        right_values,
        left_course,
        right_course,
    );
}

/// For the arms of a merge: the first error of either source gets onto the
/// output after the values that arrived before it, and the output ends there,
/// whatever the arms do afterwards.
pub proof fn law_arms_forward_first_error<T, E>(
    turns: Seq<Turn<T, E>>,
    left: MergeArm,
    right: MergeArm,
    before: Seq<(Side, Inbound<T, E>)>,
    side: Side,
    error: E,
    after: Seq<(Side, Inbound<T, E>)>,
    left_values: Seq<T>,
    right_values: Seq<T>,
    left_course: Course<T, E>,
    right_course: Course<T, E>,
)
    requires
        merge::paired(left, right),
        plays(turns, left, right, true, true),
        answered(left.initial(), claimed(turns)),
        arrived(turns) == before.push((side, Inbound::Signal(Some(Err(error))))) + after,
        left_course.valid(),
        right_course.valid(),
        on_side(before, Side::Left) == source(left_values, left_course),
        on_side(before, Side::Right) == source(right_values, right_course),
        side is Left ==> left_course is Open,
        side is Right ==> right_course is Open,
    ensures
        operators::absorbed(Seq::empty(), passed_on(turns)) == signal::nexts::<T, E>(
            interleaved(before),
        ).push(Some(Err(error))),
{
    law_arms_run_the_race(turns, left, right);
    law_merge_forwards_first_error(
        before,
        side,
        error,
        after,
        left_values,
        right_values,
        left_course,
        right_course,
    );
}

proof fn lemma_error_rings<T, E>(
    turns: Seq<Turn<T, E>>,
    left: MergeArm,
    right: MergeArm,
    left_runs: bool,
    right_runs: bool,
    held: MergeProgress,
    i: int,
)
    requires
        plays(turns, left, right, left_runs, right_runs),
        answered(held, claimed(turns)),
        !held.terminated,
        0 <= i < turns.len(),
        merge::ending(turns[i].inbound) == Some(true),
    ensures
        rung(claimed(turns)),
    decreases turns.len(),
{
    let turn = turns[0];
    let rest = turns.drop_first();
    lemma_turn_claims(turns);
    if merge::ending(turn.inbound) == Some(true) {
        assert(claimed(turns)[0].1);
    } else {
        assert(turns[i] == rest[i - 1]);
        let next = merge::progressed(held, turn.inbound);
        match turn.side {
            Side::Left => lemma_error_rings(
                rest,
                turn.after,
                right,
                !turn.outcome.stop,
                right_runs,
                next,
                i - 1,
            ),
            Side::Right => lemma_error_rings(
                rest,
                left,
                turn.after,
                left_runs,
                !turn.outcome.stop,
                next,
                i - 1,
            ),
        }
        let later = claimed(rest);
        let j = choose|j: int| 0 <= j < later.len() && (#[trigger] later[j]).1;
        if merge::ending(turn.inbound) is Some {
            assert(claimed(turns)[j + 1] == later[j]);
        } else {
            assert(claimed(turns)[j] == later[j]);
        }
    }
}

/// An arm whose source fails makes a claim that rings the bell of the other
/// arm, unless it has rung already; and an arm whose wait the bell calls off
/// stops, without passing anything on or claiming anything, even if its own
/// source never emits again.
pub proof fn law_error_calls_off_the_other_arm<T: Clone, E: Clone>(
    whole: Merged<T, E>,
    capacity: usize,
    turns: Seq<Turn<T, E>>,
    i: int,
    before: MergeArm,
    after: MergeArm,
    outcome: Outcome<ChannelSignal<T, E>>,
)
    requires
        merge::ready(whole, capacity),
        plays(turns, whole.left.stage, whole.right.stage, true, true),
        answered(whole.left.stage.initial(), claimed(turns)),
        0 <= i < turns.len(),
        merge::ending(turns[i].inbound) == Some(true),
        merge::acts(before, Inbound::Cancelled, after, outcome),
    ensures
        rung(claimed(turns)),
        whole.left.bell.origin() == whole.right.stage.handle(),
        whole.right.bell.origin() == whole.left.stage.handle(),
        outcome == Outcome::<ChannelSignal<T, E>>::halt(),
        after.claims() == before.claims(),
{
    lemma_error_rings(
        turns,
        whole.left.stage,
        whole.right.stage,
        true,
        true,
        MergeProgress::initial(),
        i,
    );
}

} // verus!
