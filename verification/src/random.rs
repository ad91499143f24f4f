//! Randomness, drawn from the `rand` crate's thread-local generator.
//!
//! Everything in the engine that is left to chance goes through the few
//! functions of this module. Their bodies call into `rand` and are not
//! verified; their contracts state only what holds of every draw.

use rand::rngs::ThreadRng;
use rand::Rng;
use vstd::prelude::*;

verus! {

/// `rand::rngs::ThreadRng`, the handle to the generator of the current thread.
/// The engine only passes it on.
#[verifier::external_type_specification]
#[verifier::external_body]
pub struct ExThreadRng(ThreadRng);

/// `rand::thread_rng`: the handle to the current thread's generator.
/// Nothing is claimed of the handle.
pub assume_specification[ rand::thread_rng ]() -> (rng: ThreadRng)
;

/// `Rng::gen_range(0, bound)`: a draw from `[0, bound)`.
///
/// The contract only says that the draw is below `bound`. An empty range
/// makes `rand` panic, so `bound` must be positive.
#[verifier::external_body]
pub(crate) fn random_below(rng: &mut ThreadRng, bound: u64) -> (drawn: u64)
    requires
        bound > 0,
    ensures
        drawn < bound,
{
    rng.gen_range(0, bound)
}

/// `Rng::gen`: a draw from `rand`'s `Standard` distribution of `u8`.
/// Nothing is claimed of the value.
#[verifier::external_body]
fn sample_u8(rng: &mut ThreadRng) -> (drawn: u8) {
    rng.gen()
}

/// `Rng::gen`: a draw from `rand`'s `Standard` distribution of `u16`.
/// Nothing is claimed of the value.
#[verifier::external_body]
fn sample_u16(rng: &mut ThreadRng) -> (drawn: u16) {
    rng.gen()
}

/// `Rng::gen`: a draw from `rand`'s `Standard` distribution of `u32`.
/// Nothing is claimed of the value.
#[verifier::external_body]
fn sample_u32(rng: &mut ThreadRng) -> (drawn: u32) {
    rng.gen()
}

/// `Rng::gen`: a draw from `rand`'s `Standard` distribution of `u64`.
/// Nothing is claimed of the value.
#[verifier::external_body]
fn sample_u64(rng: &mut ThreadRng) -> (drawn: u64) {
    rng.gen()
}

/// `Rng::gen`: a draw from `rand`'s `Standard` distribution of `bool`.
/// Nothing is claimed of the value.
#[verifier::external_body]
fn sample_bool(rng: &mut ThreadRng) -> (drawn: bool) {
    rng.gen()
}

/// `Rng::gen`: a draw from `rand`'s `Standard` distribution of `u128`.
/// Nothing is claimed of the value.
#[verifier::external_body]
fn sample_u128(rng: &mut ThreadRng) -> (drawn: u128) {
    rng.gen()
}

/// `Rng::gen`: a draw from `rand`'s `Standard` distribution of `usize`.
/// Nothing is claimed of the value.
#[verifier::external_body]
fn sample_usize(rng: &mut ThreadRng) -> (drawn: usize) {
    rng.gen()
}

/// `Rng::gen`: a draw from `rand`'s `Standard` distribution of `i8`.
/// Nothing is claimed of the value.
#[verifier::external_body]
fn sample_i8(rng: &mut ThreadRng) -> (drawn: i8) {
    rng.gen()
}

/// `Rng::gen`: a draw from `rand`'s `Standard` distribution of `i16`.
/// Nothing is claimed of the value.
#[verifier::external_body]
fn sample_i16(rng: &mut ThreadRng) -> (drawn: i16) {
    rng.gen()
}

/// `Rng::gen`: a draw from `rand`'s `Standard` distribution of `i32`.
/// Nothing is claimed of the value.
#[verifier::external_body]
fn sample_i32(rng: &mut ThreadRng) -> (drawn: i32) {
    rng.gen()
}

/// `Rng::gen`: a draw from `rand`'s `Standard` distribution of `i64`.
/// Nothing is claimed of the value.
#[verifier::external_body]
fn sample_i64(rng: &mut ThreadRng) -> (drawn: i64) {
    rng.gen()
}

/// `Rng::gen`: a draw from `rand`'s `Standard` distribution of `i128`.
/// Nothing is claimed of the value.
#[verifier::external_body]
fn sample_i128(rng: &mut ThreadRng) -> (drawn: i128) {
    rng.gen()
}

/// `Rng::gen`: a draw from `rand`'s `Standard` distribution of `isize`.
/// Nothing is claimed of the value.
#[verifier::external_body]
fn sample_isize(rng: &mut ThreadRng) -> (drawn: isize) {
    rng.gen()
}

/// `Rng::gen`: a draw from `rand`'s `Standard` distribution of `char`.
/// Nothing is claimed of the value.
#[verifier::external_body]
fn sample_char(rng: &mut ThreadRng) -> (drawn: char) {
    rng.gen()
}

/// A position drawn from `[0, bound)`.
pub fn random_index(rng: &mut ThreadRng, bound: usize) -> (drawn: usize)
    requires
        bound > 0,
    ensures
        drawn < bound,
{
    random_below(rng, bound as u64) as usize
}

/// A gene type that the engine can sample.
///
/// The engine asks nothing of the value that `random` returns; a host
/// implements it for its own gene type with whatever distribution suits the
/// problem.
pub trait RandomGene: Sized {
    /// Draws one gene.
    fn random(rng: &mut ThreadRng) -> Self;
}

impl RandomGene for u8 {
    fn random(rng: &mut ThreadRng) -> Self {
        sample_u8(rng)
    }
}

impl RandomGene for u16 {
    fn random(rng: &mut ThreadRng) -> Self {
        sample_u16(rng)
    }
}

impl RandomGene for u32 {
    fn random(rng: &mut ThreadRng) -> Self {
        sample_u32(rng)
    }
}

impl RandomGene for u64 {
    fn random(rng: &mut ThreadRng) -> Self {
        sample_u64(rng)
    }
}

impl RandomGene for bool {
    fn random(rng: &mut ThreadRng) -> Self {
        sample_bool(rng)
    }
}

impl RandomGene for u128 {
    fn random(rng: &mut ThreadRng) -> Self {
        sample_u128(rng)
    }
}

impl RandomGene for usize {
    fn random(rng: &mut ThreadRng) -> Self {
        sample_usize(rng)
    }
}

impl RandomGene for i8 {
    fn random(rng: &mut ThreadRng) -> Self {
        sample_i8(rng)
    }
}

impl RandomGene for i16 {
    fn random(rng: &mut ThreadRng) -> Self {
        sample_i16(rng)
    }
}

impl RandomGene for i32 {
    fn random(rng: &mut ThreadRng) -> Self {
        sample_i32(rng)
    }
}

impl RandomGene for i64 {
    fn random(rng: &mut ThreadRng) -> Self {
        sample_i64(rng)
    }
}

impl RandomGene for i128 {
    fn random(rng: &mut ThreadRng) -> Self {
        sample_i128(rng)
    }
}

impl RandomGene for isize {
    fn random(rng: &mut ThreadRng) -> Self {
        sample_isize(rng)
    }
}

impl RandomGene for char {
    fn random(rng: &mut ThreadRng) -> Self {
        sample_char(rng)
    }
}

} // verus!
