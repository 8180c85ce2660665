use grid_2d::{Grid, Size};
use rand::seq::SliceRandom;
use rand::Rng;
use rand_isaac::Isaac64Rng;
use std::num::NonZeroU32;
use crate::grid::{window_from_example, MAX_SIDE};
use crate::sewer::{example_grid, EXAMPLE_SIDE, PATTERN_SIDE};
use vstd::prelude::*;
use wfc::overlapping::OverlappingPatterns;
use wfc::{retry, wrap, ForbidNothing, RunOwn};

verus! {

/// The random stream threaded through every stage of the generator.
#[verifier::external_type_specification]
#[verifier::external_body]
pub struct ExIsaac64Rng(Isaac64Rng);

/// Relies on rand's `Rng::gen_range` over `lo..hi`: a value in that range
/// (it panics on an empty range, which `requires` rules out).
#[verifier::external_body]
pub(crate) fn random_below(rng: &mut Isaac64Rng, lo: usize, hi: usize) -> (r: usize)
    requires
        lo < hi,
    ensures
        lo <= r < hi,
{
    rng.gen_range(lo..hi)
}

/// Relies on rand's `SliceRandom::shuffle`: the slice is permuted in place.
#[verifier::external_body]
pub(crate) fn shuffle<T>(v: &mut Vec<T>, rng: &mut Isaac64Rng)
    ensures
        final(v)@.to_multiset() == old(v)@.to_multiset(),
        final(v)@.len() == old(v)@.len(),
{
    v.shuffle(rng)
}

/// Relies on rand's `SliceRandom::choose` on `v[from..]`: one of its items,
/// or nothing when it is empty.
#[verifier::external_body]
pub(crate) fn choose_from<T: Copy>(v: &Vec<T>, from: usize, rng: &mut Isaac64Rng) -> (r: Option<T>)
    requires
        from <= v@.len(),
    ensures
        r.is_none() == (from == v@.len()),
        r matches Some(x) ==> exists|k: int| from <= k < v@.len() && v@[k] == x,
{
    v[from..].choose(rng).copied()
}

/// Relies on std's `slice::sort`: the same items in ascending order.
#[verifier::external_body]
pub(crate) fn sort_pairs(v: &mut Vec<(u128, usize)>)
    ensures
        final(v)@.to_multiset() == old(v)@.to_multiset(),
        final(v)@.len() == old(v)@.len(),
        forall|i: int, j: int|
            0 <= i < j < final(v)@.len() ==> final(v)@[i].0 < final(v)@[j].0 || (final(v)@[i].0
                == final(v)@[j].0 && final(v)@[i].1 <= final(v)@[j].1),
{
    v.sort()
}

/// Relies on wfc's overlapping-pattern solver (`OverlappingPatterns` over
/// all eight orientations, `RunOwn` with wrap-around on both axes, retried
/// until it finds no contradiction): it returns one cell per output
/// position, row by row, each the top-left value of the pattern chosen
/// there, so that every `pattern`-square window of the output, wrapping
/// round, is a rotated or reflected window of the example, wrapping round.
/// It is called only on the library's example, whose open top rows tile
/// every size, so a contradiction-free assignment always exists and the
/// retries end.
#[verifier::external_body]
pub(crate) fn synthesize(
    example: Vec<bool>,
    example_width: u32,
    example_height: u32,
    width: u32,
    height: u32,
    pattern: u32,
    rng: &mut Isaac64Rng,
) -> (r: Vec<bool>)
    requires
        example@ == example_grid(),
        example_width == EXAMPLE_SIDE,
        example_height == EXAMPLE_SIDE,
        pattern == PATTERN_SIDE,
        pattern <= width <= MAX_SIDE,
        pattern <= height <= MAX_SIDE,
    ensures
        r@.len() == width * height,
        forall|x: int, y: int|
            0 <= x < width && 0 <= y < height ==> #[trigger] window_from_example(
                r@,
                width as int,
                height as int,
                x,
                y,
                example@,
                example_width as int,
                example_height as int,
                pattern as int,
            ),
{
    let input = Grid::new_iterator(Size::new(example_width, example_height), example.into_iter());
    let patterns = OverlappingPatterns::new_all_orientations(input, NonZeroU32::new(pattern).unwrap());
    let stats = patterns.global_stats();
    let run = RunOwn::new_wrap_forbid(Size::new(width, height), &stats, wrap::WrapXY, ForbidNothing, rng);
    let wave = run.collapse_retrying(retry::Forever, rng);
    wave.grid().iter().map(|c| *patterns.pattern_top_left_value(c.chosen_pattern_id().unwrap())).collect()
}

} // verus!
