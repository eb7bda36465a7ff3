//! The calls that leave this library: what is said of them here is taken
//! from the documentation and the source of what is called, and is not
//! proved.

use vstd::prelude::*;
use rand::rngs::ThreadRng;
use rand::seq::SliceRandom;
use rayon::iter::{IntoParallelIterator, IntoParallelRefIterator, ParallelIterator};
use crate::card::Card;

verus! {

/// The random number generator of `rand` that each thread has for itself.
/// It is carried from where it is made to where it is used; nothing is
/// known of what it holds.
#[verifier::external_type_specification]
#[verifier::external_body]
pub struct ExThreadRng(ThreadRng);

/// Hands out the calling thread's random number generator, as `rand::rng`
/// does. Nothing is claimed of it. Where the operating system gives the
/// generator no seed, `rand` stops the program.
#[verifier::external_body]
pub(crate) fn thread_rng() -> (rng: ThreadRng) {
    rand::rng()
}

/// Shuffles a list of cards in place with `SliceRandom::shuffle`, which
/// only ever swaps entries: afterwards the list holds the same cards, each
/// as often as before. In what order is left open.
#[verifier::external_body]
pub(crate) fn shuffle_cards(cards: &mut Vec<Card>, rng: &mut ThreadRng)
    ensures
        final(cards)@.to_multiset() == old(cards)@.to_multiset(),
{
    cards.shuffle(rng);
}

/// Applies a function to every item of a list on rayon's worker threads,
/// with `par_iter`, `map` and `collect`. As many results come back as there
/// were items, in the order of the items, each the function's result for
/// its item.
#[verifier::external_body]
pub(crate) fn par_map<T: Sync, R: Send, F: Fn(&T) -> R + Sync + Send>(items: &Vec<T>, f: F) -> (results:
    Vec<R>)
    requires
        forall|i: int| 0 <= i < items@.len() ==> call_requires(f, (&#[trigger] items@[i],)),
    ensures
        results@.len() == items@.len(),
        forall|i: int|
            0 <= i < items@.len() ==> call_ensures(f, (&items@[i],), #[trigger] results@[i]),
{
    items.par_iter().map(f).collect()
}

/// Applies a function to each of the numbers below `count` on rayon's
/// worker threads, with `into_par_iter`, `map` and `collect` on the range
/// of those numbers. As many results come back as there were numbers, in
/// ascending order of the numbers, each the function's result for its number.
#[verifier::external_body]
pub(crate) fn par_repeat<R: Send, F: Fn(usize) -> R + Sync + Send>(count: usize, f: F) -> (results: Vec<
    R,
>)
    requires
        forall|i: usize| i < count ==> call_requires(f, (i,)),
    ensures
        results@.len() == count,
        forall|i: int| 0 <= i < count ==> call_ensures(f, (i as usize,), #[trigger] results@[i]),
{
    (0..count).into_par_iter().map(f).collect()
}

/// Appends one character to a text with `String::push`: afterwards the
/// text is what it was, followed by the character.
#[verifier::external_body]
pub(crate) fn push_char(s: &mut String, c: char)
    ensures
        final(s)@ == old(s)@.push(c),
{
    s.push(c);
}

} // verus!
