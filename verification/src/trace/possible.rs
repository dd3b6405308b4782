//! What the choices of a run can and cannot bring about.
use super::choice::{
    is_interleaving, merged, ordered_batch, pick, released, shuffled,
    unordered_batch, unordered_state, version_shown,
};
use super::{before, fits, flat, lemma_before_grows};
use crate::nondet::{choose_spec, draw_spec};
use vstd::prelude::*;

verus! {

proof fn lemma_first_choice(choices: Seq<usize>, i: int, n: nat)
    requires
        n > 0,
        draw_spec(choices, i) < n,
    ensures
        choose_spec(choices, i, n) == draw_spec(choices, i),
{
    let c = draw_spec(choices, i) as int;
    vstd::arithmetic::div_mod::lemma_small_mod(c as nat, n);
}

proof fn lemma_pick_in_order<T>(s: Seq<T>, n: nat, from: int)
    requires
        n <= s.len(),
    ensures
        pick(s, n, Seq::empty(), from).0 == s.take(n as int),
        pick(s, n, Seq::empty(), from).1 == s.skip(n as int),
    decreases n,
{
    if n > 0 {
        lemma_first_choice(Seq::empty(), from, s.len());
        lemma_pick_in_order(s.remove(0), (n - 1) as nat, from + 1);
        assert(s.remove(0) =~= s.skip(1));
        assert(seq![s[0]] + s.skip(1).take(n - 1) =~= s.take(n as int));
        assert(s.skip(1).skip(n - 1) =~= s.skip(n as int));
    } else {
        assert(s.take(0) =~= Seq::empty());
        assert(s.skip(0) =~= s);
    }
}

/// Where no choices are made nothing is reordered: a list stays as it is, and of two lists that
/// are merged the first one comes first.
pub proof fn law_no_choices_no_reordering<T>(s: Seq<T>, b: Seq<T>, from: int)
    ensures
        shuffled(s, Seq::empty(), from) == s,
        merged(s, b, Seq::empty(), from) == s + b,
    decreases s.len(),
{
    lemma_pick_in_order(s, s.len(), from);
    assert(s.take(s.len() as int) =~= s);
    if s.len() == 0 {
        assert(s + b =~= b);
    } else if b.len() == 0 {
        assert(s + b =~= s);
    } else {
        lemma_first_choice(Seq::empty(), from, 2);
        law_no_choices_no_reordering(s.skip(1), b, from + 1);
        assert(seq![s[0]] + (s.skip(1) + b) =~= s + b);
    }
}

/// Where no choices are made nothing is delayed: each batch is what arrives in its round, and each
/// snapshot shows the newest version.
pub proof fn law_no_choices_no_delay<T>(t: Seq<Seq<T>>, i: int)
    requires
        0 <= i < t.len(),
    ensures
        ordered_batch(t, Seq::empty(), i) == t[i],
        unordered_batch(t, Seq::empty(), i) == t[i],
        t[0].len() > 0 ==> version_shown(t, Seq::empty(), i) == before(t, i + 1).len() - 1,
{
    lemma_all_released(t, i);
    lemma_all_released(t, i - 1);
    super::lemma_flat_take(t, i, 0);
    super::lemma_flat_take(t, i, t[i].len() as int);
    assert(t[i].take(t[i].len() as int) =~= t[i]);
    assert(before(t, i + 1) == before(t, i) + t[i]);
    let whole = flat(t).take((before(t, i).len() + t[i].len()) as int);
    assert(ordered_batch(t, Seq::empty(), i) =~= whole.skip(before(t, i).len() as int));
    assert(whole.skip(before(t, i).len() as int) =~= t[i]);
    lemma_nothing_waits(t, i);
    let none = Seq::<usize>::empty();
    let used = unordered_state(t, none, i).1;
    lemma_first_choice(none, used as int, t[i].len() + 1);
    assert(unordered_state(t, none, i).0 + t[i] =~= t[i]);
    lemma_pick_in_order(t[i], t[i].len(), used as int + 1);
    if t[0].len() > 0 {
        lemma_newest_shown(t, i);
    }
}

proof fn lemma_all_released<T>(t: Seq<Seq<T>>, i: int)
    requires
        -1 <= i < t.len(),
    ensures
        released(t, Seq::empty(), i) == before(t, i + 1).len(),
    decreases i + 1,
{
    if i >= 0 {
        lemma_all_released(t, i - 1);
        lemma_before_grows(t, i, i + 1);
        let waiting = before(t, i + 1).len() - released(t, Seq::empty(), i - 1);
        lemma_first_choice(Seq::empty(), i, (waiting + 1) as nat);
    }
}

proof fn lemma_nothing_waits<T>(t: Seq<Seq<T>>, i: int)
    requires
        0 <= i <= t.len(),
    ensures
        unordered_state(t, Seq::empty(), i).0 == Seq::<T>::empty(),
    decreases i,
{
    if i > 0 {
        let none = Seq::<usize>::empty();
        lemma_nothing_waits(t, i - 1);
        let (waiting, used) = unordered_state(t, none, i - 1);
        let all = waiting + t[i - 1];
        lemma_first_choice(none, used as int, all.len() + 1);
        lemma_pick_in_order(all, all.len(), used as int + 1);
        assert(all.skip(all.len() as int) =~= Seq::empty());
    }
}

proof fn lemma_newest_shown<T>(t: Seq<Seq<T>>, i: int)
    requires
        0 <= i < t.len(),
        t[0].len() > 0,
    ensures
        version_shown(t, Seq::empty(), i) == before(t, i + 1).len() - 1,
    decreases i,
{
    if i > 0 {
        lemma_newest_shown(t, i - 1);
    }
    lemma_before_grows(t, 1, i + 1);
    lemma_before_grows(t, i, i + 1);
    reveal_with_fuel(before, 2);
    assert(before(t, 1) =~= t[0]);
    let newest = before(t, i + 1).len() - 1;
    let oldest = version_shown(t, Seq::empty(), i - 1);
    if i < t.len() - 1 {
        lemma_first_choice(Seq::empty(), i, (newest - oldest + 1) as nat);
    }
}

/// Whether these choices cut a stream into these batches.
pub open spec fn gives_batches<T>(t: Seq<Seq<T>>, choices: Seq<usize>, r: Seq<Seq<T>>) -> bool {
    forall|i: int| 0 <= i < t.len() ==> #[trigger] ordered_batch(t, choices, i) == r[i]
}

/// Whether these choices show these versions of a changing value.
pub open spec fn shows_versions<T>(t: Seq<Seq<T>>, choices: Seq<usize>, shown: Seq<int>) -> bool {
    forall|i: int| 0 <= i < t.len() ==> #[trigger] version_shown(t, choices, i) == shown[i]
}

/// Elements can be delayed in every way that keeps their order: whatever cut of the stream into
/// batches lets no element through before it arrives, some choices give just these batches.
pub proof fn law_every_batching_is_possible<T>(t: Seq<Seq<T>>, r: Seq<Seq<T>>)
    requires
        fits(t),
        r.len() == t.len(),
        flat(r) == flat(t),
        forall|i: int| 0 <= i <= t.len() ==> (#[trigger] before(r, i)).is_prefix_of(before(t, i)),
    ensures
        exists|choices: Seq<usize>| #[trigger] gives_batches(t, choices, r),
{
    let choices = Seq::new(
        t.len(),
        |i: int| (before(t, i + 1).len() - before(r, i + 1).len()) as usize,
    );
    assert forall|i: int| 0 <= i < t.len() implies #[trigger] ordered_batch(t, choices, i)
        == r[i] by {
        lemma_released_as_told(t, r, choices, i);
        lemma_released_as_told(t, r, choices, i - 1);
        super::lemma_flat_take(r, i, 0);
        super::lemma_flat_take(r, i, r[i].len() as int);
        assert(r[i].take(r[i].len() as int) =~= r[i]);
        assert(before(r, i + 1) == before(r, i) + r[i]);
        let whole = flat(r).take((before(r, i).len() + r[i].len()) as int);
        assert(ordered_batch(t, choices, i) =~= whole.skip(before(r, i).len() as int));
        assert(whole.skip(before(r, i).len() as int) =~= r[i]);
    }
    assert(gives_batches(t, choices, r));
}

proof fn lemma_released_as_told<T>(t: Seq<Seq<T>>, r: Seq<Seq<T>>, choices: Seq<usize>, i: int)
    requires
        fits(t),
        r.len() == t.len(),
        flat(r) == flat(t),
        forall|i: int| 0 <= i <= t.len() ==> (#[trigger] before(r, i)).is_prefix_of(before(t, i)),
        choices == Seq::new(
            t.len(),
            |i: int| (before(t, i + 1).len() - before(r, i + 1).len()) as usize,
        ),
        -1 <= i < t.len(),
    ensures
        released(t, choices, i) == before(r, i + 1).len(),
    decreases i + 1,
{
    if i >= 0 {
        lemma_released_as_told(t, r, choices, i - 1);
        lemma_before_grows(r, i, i + 1);
        lemma_before_grows(t, i + 1, t.len() as int);
        assert(before(r, i + 1).is_prefix_of(before(t, i + 1)));
        let waiting = before(t, i + 1).len() - released(t, choices, i - 1);
        lemma_first_choice(choices, i, (waiting + 1) as nat);
    }
}

proof fn lemma_merged_later<T>(a: Seq<T>, b: Seq<T>, c: usize, choices: Seq<usize>, from: int)
    requires
        from >= 0,
    ensures
        merged(a, b, seq![c] + choices, from + 1) == merged(a, b, choices, from),
    decreases a.len() + b.len(),
{
    if a.len() > 0 && b.len() > 0 {
        assert(draw_spec(seq![c] + choices, from + 1) == draw_spec(choices, from));
        lemma_merged_later(a.skip(1), b, c, choices, from + 1);
        lemma_merged_later(a, b.skip(1), c, choices, from + 1);
    }
}

proof fn lemma_interleaved_alone<T>(a: Seq<T>, b: Seq<T>, r: Seq<T>)
    requires
        is_interleaving(a, b, r),
    ensures
        r.len() == a.len() + b.len(),
        a.len() == 0 ==> r == b,
        b.len() == 0 ==> r == a,
    decreases r.len(),
{
    if r.len() > 0 {
        if a.len() > 0 && a[0] == r[0] && is_interleaving(a.skip(1), b, r.skip(1)) {
            lemma_interleaved_alone(a.skip(1), b, r.skip(1));
            if b.len() == 0 {
                assert(seq![r[0]] + r.skip(1) =~= r);
                assert(seq![a[0]] + a.skip(1) =~= a);
            }
        } else {
            lemma_interleaved_alone(a, b.skip(1), r.skip(1));
            if a.len() == 0 {
                assert(seq![r[0]] + r.skip(1) =~= r);
                assert(seq![b[0]] + b.skip(1) =~= b);
            }
        }
    } else {
        assert(r =~= a);
        assert(r =~= b);
    }
}

/// Two lists can be merged in every way that keeps their orders.
pub proof fn law_every_merge_is_possible<T>(a: Seq<T>, b: Seq<T>, r: Seq<T>)
    requires
        is_interleaving(a, b, r),
    ensures
        exists|choices: Seq<usize>| #[trigger] merged(a, b, choices, 0) == r,
    decreases r.len(),
{
    lemma_interleaved_alone(a, b, r);
    if a.len() == 0 || b.len() == 0 {
        assert(merged(a, b, Seq::empty(), 0) == r);
    } else if a[0] == r[0] && is_interleaving(a.skip(1), b, r.skip(1)) {
        law_every_merge_is_possible(a.skip(1), b, r.skip(1));
        let later = choose|choices: Seq<usize>| #[trigger]
            merged(a.skip(1), b, choices, 0) == r.skip(1);
        let choices = seq![0usize] + later;
        lemma_first_choice(choices, 0, 2);
        lemma_merged_later(a.skip(1), b, 0, later, 0);
        assert(seq![r[0]] + r.skip(1) =~= r);
        assert(merged(a, b, choices, 0) == r);
    } else {
        law_every_merge_is_possible(a, b.skip(1), r.skip(1));
        let later = choose|choices: Seq<usize>| #[trigger]
            merged(a, b.skip(1), choices, 0) == r.skip(1);
        let choices = seq![1usize] + later;
        lemma_first_choice(choices, 0, 2);
        lemma_merged_later(a, b.skip(1), 1, later, 0);
        assert(seq![r[0]] + r.skip(1) =~= r);
        assert(merged(a, b, choices, 0) == r);
    }
}

/// Snapshots can lag behind in every way: whatever versions never go back, have come by then, and
/// end with the newest one, some choices show just these.
pub proof fn law_every_snapshot_is_possible<T>(t: Seq<Seq<T>>, shown: Seq<int>)
    requires
        fits(t),
        t.len() > 0,
        t[0].len() > 0,
        shown.len() == t.len(),
        forall|i: int|
            0 <= i < shown.len() ==> 0 <= #[trigger] shown[i] < before(t, i + 1).len(),
        forall|i: int, j: int|
            0 <= i <= j < shown.len() ==> #[trigger] shown[i] <= #[trigger] shown[j],
        shown.last() == flat(t).len() - 1,
    ensures
        exists|choices: Seq<usize>| #[trigger] shows_versions(t, choices, shown),
{
    let choices = Seq::new(t.len(), |i: int| (before(t, i + 1).len() - 1 - shown[i]) as usize);
    assert forall|i: int| 0 <= i < t.len() implies #[trigger] version_shown(t, choices, i)
        == shown[i] by {
        lemma_shown_as_told(t, shown, choices, i);
    }
    assert(shows_versions(t, choices, shown));
}

proof fn lemma_shown_as_told<T>(t: Seq<Seq<T>>, shown: Seq<int>, choices: Seq<usize>, i: int)
    requires
        fits(t),
        shown.len() == t.len(),
        forall|i: int|
            0 <= i < shown.len() ==> 0 <= #[trigger] shown[i] < before(t, i + 1).len(),
        forall|i: int, j: int|
            0 <= i <= j < shown.len() ==> #[trigger] shown[i] <= #[trigger] shown[j],
        shown.last() == flat(t).len() - 1,
        choices == Seq::new(t.len(), |i: int| (before(t, i + 1).len() - 1 - shown[i]) as usize),
        0 <= i < t.len(),
    ensures
        version_shown(t, choices, i) == shown[i],
    decreases i,
{
    if i > 0 {
        lemma_shown_as_told(t, shown, choices, i - 1);
        assert(shown[i - 1] <= shown[i]);
    }
    lemma_before_grows(t, i + 1, t.len() as int);
    let newest = before(t, i + 1).len() - 1;
    let oldest = version_shown(t, choices, i - 1);
    if i < t.len() - 1 {
        assert(0 <= shown[i] < before(t, i + 1).len());
        lemma_first_choice(choices, i, (newest - oldest + 1) as nat);
    }
}

} // verus!
