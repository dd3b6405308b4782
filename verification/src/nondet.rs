//! Non-determinism as data: the choices that a run makes.
use vstd::prelude::*;

verus! {

/// The choices that resolve a point of non-determinism, one after the other. Where no
/// choice is given, what happens is what is most natural: nothing is delayed or
/// reordered.
pub struct NonDet {
    pub choices: Vec<usize>,
}

/// The choice with the given number.
pub open spec fn draw_spec(choices: Seq<usize>, i: int) -> usize {
    if 0 <= i < choices.len() {
        choices[i]
    } else {
        0
    }
}

/// The choice with the given number, out of `n` possibilities.
pub open spec fn choose_spec(choices: Seq<usize>, i: int, n: nat) -> int {
    draw_spec(choices, i) as int % n as int
}

impl View for NonDet {
    type V = Seq<usize>;

    open spec fn view(&self) -> Seq<usize> {
        self.choices@
    }
}

impl NonDet {
    /// No choices: a run in which everything happens at once and in order.
    pub fn none() -> (r: Self)
        ensures
            r@ == Seq::<usize>::empty(),
    {
        NonDet { choices: Vec::new() }
    }

    pub fn new(choices: Vec<usize>) -> (r: Self)
        ensures
            r@ == choices@,
    {
        NonDet { choices }
    }

    pub fn dup(&self) -> (r: Self)
        ensures
            r@ == self@,
    {
        NonDet { choices: crate::trace::copy_list(&self.choices) }
    }

    /// The choice with the given number, out of `n` possibilities.
    pub fn choose_below(&self, i: usize, n: usize) -> (r: usize)
        requires
            n > 0,
        ensures
            r == choose_spec(self@, i as int, n as nat),
            r < n,
    {
        let c: usize = if i < self.choices.len() {
            self.choices[i]
        } else {
            0
        };
        c % n
    }
}

} // verus!
