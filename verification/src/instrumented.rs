//! The instrumented mode: a sort as a sequence of steps, each of which makes
//! one exchange and reports it, so that whoever drives the steps may deliver
//! the report and pause before asking for the next.

use crate::sequence::{apply_swaps, lemma_apply_concat, swapped};
use vstd::prelude::*;

verus! {

/// `ev` reports the exchange of positions `i` and `j` that led to `after`:
/// each position with a clone of what it now holds.
pub open spec fn reports<T: Clone>(ev: [(usize, T); 2], after: Seq<T>, i: int, j: int) -> bool {
    &&& ev@[0].0 == i
    &&& cloned(after[i], ev@[0].1)
    &&& ev@[1].0 == j
    &&& cloned(after[j], ev@[1].1)
}

/// `events` reports the exchanges `swaps` made on `s`, one event for each
/// exchange and in the same order, each with what the sequence held right
/// after its exchange.
pub open spec fn recorded<T: Clone>(
    events: Seq<[(usize, T); 2]>,
    s: Seq<T>,
    swaps: Seq<(int, int)>,
) -> bool {
    &&& events.len() == swaps.len()
    &&& forall|k: int|
        0 <= k < swaps.len() ==> reports(
            #[trigger] events[k],
            apply_swaps(s, swaps.take(k + 1)),
            swaps[k].0,
            swaps[k].1,
        )
}

/// A clone of a `T` is always equal to what it was cloned from.
pub open spec fn clones_are_equal<T: Clone>() -> bool {
    forall|a: T, b: T| #[trigger] cloned(a, b) ==> a == b
}

/// `mirror` brought up to date with one report: both positions named in it
/// hold the values reported for them, the second position written last.
pub open spec fn replayed<T>(mirror: Seq<T>, ev: [(usize, T); 2]) -> Seq<T> {
    mirror.update(ev@[0].0 as int, ev@[0].1).update(ev@[1].0 as int, ev@[1].1)
}

/// `mirror` brought up to date with every report of `events` in turn.
pub open spec fn replayed_all<T>(mirror: Seq<T>, events: Seq<[(usize, T); 2]>) -> Seq<T>
    decreases events.len(),
{
    if events.len() == 0 {
        mirror
    } else {
        replayed_all(replayed(mirror, events[0]), events.drop_first())
    }
}

/// The report of an exchange of positions `i` and `j` that `v` has just
/// undergone.
pub fn swap_event<T: Clone>(v: &Vec<T>, i: usize, j: usize) -> (ev: [(usize, T); 2])
    requires
        i < v@.len(),
        j < v@.len(),
    ensures
        reports(ev, v@, i as int, j as int),
{
    [(i, v[i].clone()), (j, v[j].clone())]
}

/// A sort in progress that is advanced one exchange at a time.
pub trait Instrumented<T: Clone>: Sized {
    /// The run is in a state that its algorithm can reach.
    spec fn wf(&self) -> bool;

    /// What the sequence holds now.
    spec fn data(&self) -> Seq<T>;

    /// The exchanges that the run has still to make, in order.
    spec fn pending(&self) -> Seq<(int, int)>;

    /// Makes the next exchange and returns its report, or returns `None`
    /// once the sort is complete.
    fn next_event(&mut self) -> (ev: Option<[(usize, T); 2]>)
        requires
            old(self).wf(),
        ensures
            final(self).wf(),
            match ev {
                None => {
                    &&& old(self).pending().len() == 0
                    &&& final(self).pending().len() == 0
                    &&& final(self).data() == old(self).data()
                },
                Some(e) => {
                    &&& old(self).pending().len() > 0
                    &&& final(self).pending() == old(self).pending().drop_first()
                    &&& final(self).data() == swapped(
                        old(self).data(),
                        old(self).pending()[0].0,
                        old(self).pending()[0].1,
                    )
                    &&& reports(
                        e,
                        final(self).data(),
                        old(self).pending()[0].0,
                        old(self).pending()[0].1,
                    )
                },
            },
    ;

    /// Gives the sequence back as it stands.
    fn into_data(self) -> (v: Vec<T>)
        requires
            self.wf(),
        ensures
            v@ == self.data(),
    ;
}

/// Applying one exchange more.
pub proof fn lemma_apply_take_next<T>(s: Seq<T>, swaps: Seq<(int, int)>, k: int)
    requires
        0 <= k < swaps.len(),
    ensures
        apply_swaps(s, swaps.take(k + 1)) == swapped(
            apply_swaps(s, swaps.take(k)),
            swaps[k].0,
            swaps[k].1,
        ),
{
    let one = seq![swaps[k]];
    assert(swaps.take(k + 1) =~= swaps.take(k) + one);
    lemma_apply_concat(s, swaps.take(k), one);
    assert(one.drop_first() =~= Seq::<(int, int)>::empty());
    assert(apply_swaps(apply_swaps(s, swaps.take(k)), one) == swapped(
        apply_swaps(s, swaps.take(k)),
        swaps[k].0,
        swaps[k].1,
    )) by {
        reveal_with_fuel(apply_swaps, 2);
    }
}

/// What is recorded of exchanges is, from the second report on, what is
/// recorded of the exchanges after the first, made on the sequence after the
/// first.
pub proof fn lemma_recorded_rest<T: Clone>(
    events: Seq<[(usize, T); 2]>,
    s: Seq<T>,
    swaps: Seq<(int, int)>,
)
    requires
        recorded(events, s, swaps),
        swaps.len() > 0,
    ensures
        reports(events[0], swapped(s, swaps[0].0, swaps[0].1), swaps[0].0, swaps[0].1),
        recorded(
            events.drop_first(),
            swapped(s, swaps[0].0, swaps[0].1),
            swaps.drop_first(),
        ),
{
    let after = swapped(s, swaps[0].0, swaps[0].1);
    let rest = swaps.drop_first();
    assert(apply_swaps(s, swaps.take(1)) == after) by {
        assert(swaps.take(1).drop_first() =~= Seq::<(int, int)>::empty());
        reveal_with_fuel(apply_swaps, 2);
    }
    assert forall|k: int| 0 <= k < rest.len() implies reports(
        #[trigger] events.drop_first()[k],
        apply_swaps(after, rest.take(k + 1)),
        rest[k].0,
        rest[k].1,
    ) by {
        assert(events.drop_first()[k] == events[k + 1]);
        assert(swaps.take(k + 2).drop_first() =~= rest.take(k + 1));
        assert(swaps.take(k + 2)[0] == swaps[0]);
        assert(rest[k] == swaps[k + 1]);
    }
}

/// Runs `run` to its end, appends the report of each exchange to `log` as it
/// is made, and returns the sorted sequence.
pub fn record<T: Clone, R: Instrumented<T>>(run: R, log: &mut Vec<[(usize, T); 2]>) -> (v: Vec<T>)
    requires
        run.wf(),
    ensures
        v@ == apply_swaps(run.data(), run.pending()),
        final(log)@.len() == old(log)@.len() + run.pending().len(),
        final(log)@.take(old(log)@.len() as int) == old(log)@,
        recorded(final(log)@.skip(old(log)@.len() as int), run.data(), run.pending()),
{
    let ghost s = run.data();
    let ghost swaps = run.pending();
    let ghost before = log@;
    let ghost done: int = 0;
    let mut run = run;
    loop
        invariant_except_break
            0 <= done <= swaps.len(),
            run.pending() == swaps.skip(done),
            log@.len() == before.len() + done,
        invariant
            run.wf(),
            run.data() == apply_swaps(s, swaps.take(done)),
            log@.take(before.len() as int) == before,
            recorded(log@.skip(before.len() as int), s, swaps.take(done)),
        ensures
            done == swaps.len(),
            log@.len() == before.len() + done,
        decreases swaps.len() - done,
    {
        let ghost earlier = log@;
        match run.next_event() {
            None => {
                break ;
            },
            Some(ev) => {
                log.push(ev);
                proof {
                    assert(swaps.skip(done)[0] == swaps[done]);
                    assert(swaps.skip(done).drop_first() =~= swaps.skip(done + 1));
                    lemma_apply_take_next(s, swaps, done);
                    assert(log@.take(before.len() as int) =~= earlier.take(before.len() as int));
                    let now = log@.skip(before.len() as int);
                    let was = earlier.skip(before.len() as int);
                    assert(now =~= was.push(ev));
                    assert forall|k: int| 0 <= k < done + 1 implies reports(
                        #[trigger] now[k],
                        apply_swaps(s, swaps.take(done + 1).take(k + 1)),
                        swaps.take(done + 1)[k].0,
                        swaps.take(done + 1)[k].1,
                    ) by {
                        assert(swaps.take(done + 1).take(k + 1) =~= swaps.take(k + 1));
                        if k < done {
                            assert(now[k] == was[k]);
                            assert(swaps.take(done).take(k + 1) =~= swaps.take(k + 1));
                        }
                    }
                    done = done + 1;
                }
            },
        }
    }
    proof {
        assert(swaps.take(done) =~= swaps);
    }
    run.into_data()
}

} // verus!
