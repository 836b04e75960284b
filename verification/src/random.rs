//! Draws from the generator of the running thread.
//!
//! What a draw gives is left to chance. [`drawn`] and [`shuffled`] say that a value is one
//! that the generator gave when it was asked: nothing else makes them hold.

use rand::seq::SliceRandom;
use rand::Rng;
use vstd::prelude::*;

verus! {

/// `rand::seq::SliceRandom::shuffle` with `rand::thread_rng`: the items are put in
/// another order. Which one is left to chance.
#[verifier::external_body]
pub(crate) fn shuffle(items: Vec<usize>) -> (res: Vec<usize>)
    ensures
        res@.to_multiset() == items@.to_multiset(),
{
    let mut items = items;
    items.shuffle(&mut rand::thread_rng());
    items
}

/// `rand::Rng::gen_range` of `rand::thread_rng` on `0..bound`: a number below
/// `bound`. Which one is left to chance. It panics on an empty range.
#[verifier::external_body]
pub(crate) fn draw_below(bound: usize) -> (draw: usize)
    requires
        0 < bound,
    ensures
        draw < bound,
{
    rand::thread_rng().gen_range(0..bound)
}

/// The generator gave `draw` when it was asked for a number below `bound`.
pub closed spec fn drawn(bound: usize, draw: usize) -> bool {
    call_ensures(draw_below, (bound,), draw)
}

/// The generator put the items of `before` in the order of `after`.
pub closed spec fn shuffled(before: Seq<usize>, after: Seq<usize>) -> bool {
    exists|b: Vec<usize>, a: Vec<usize>|
        b@ == before && a@ == after && #[trigger] call_ensures(shuffle, (b,), a)
}

fn ask<A, R, F: Fn(A) -> R>(generator: F, question: A) -> (answer: R)
    requires
        call_requires(generator, (question,)),
    ensures
        call_ensures(generator, (question,), answer),
{
    generator(question)
}

/// A number below `bound` from the generator.
pub(crate) fn draw(bound: usize) -> (draw: usize)
    requires
        0 < bound,
    ensures
        draw < bound,
        drawn(bound, draw),
{
    ask(draw_below, bound)
}

/// The items in an order from the generator.
pub(crate) fn shuffle_items(items: Vec<usize>) -> (res: Vec<usize>)
    ensures
        res@.to_multiset() == items@.to_multiset(),
        shuffled(items@, res@),
{
    ask(shuffle, items)
}

/// A number is drawn only by a call of the generator with the bound.
pub(crate) proof fn law_draws_are_calls(bound: usize, draw: usize)
    ensures
        drawn(bound, draw) <==> call_ensures(draw_below, (bound,), draw),
        drawn(bound, draw) && 0 < bound ==> draw < bound,
{
}

/// An order comes only from a call of the generator on the items.
pub(crate) proof fn law_orders_are_calls(before: Seq<usize>, after: Seq<usize>)
    ensures
        shuffled(before, after) <==> exists|b: Vec<usize>, a: Vec<usize>|
            b@ == before && a@ == after && #[trigger] call_ensures(shuffle, (b,), a),
        shuffled(before, after) ==> before.to_multiset() == after.to_multiset(),
{
}

} // verus!
