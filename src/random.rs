use vstd::prelude::*;

use crate::grid::PixelWorld;
use crate::granular::granular_tick;

verus! {

/// Relies on rand::random (rand 0.8): a value drawn from the thread-local
/// generator; nothing is promised of which one.
pub assume_specification<T>[ rand::random::<T> ]() -> (r: T)
    where
        rand::distributions::Standard: rand::distributions::Distribution<T>,
;

/// `n` independent fair coins.
pub fn coin_flips(n: usize) -> (r: Vec<bool>)
    ensures
        r@.len() == n,
{
    let mut r: Vec<bool> = Vec::new();
    let mut i: usize = 0;
    while i < n
        invariant
            i <= n,
            r@.len() == i,
        decreases n - i,
    {
        let c: bool = rand::random::<bool>();
        r.push(c);
        i += 1;
    }
    r
}

/// `n` draws, each true when a fresh random number taken modulo a hundred
/// falls below `percent`: never for zero, always from a hundred up.
pub fn chance_flags(n: usize, percent: u32) -> (r: Vec<bool>)
    ensures
        r@.len() == n,
        percent == 0 ==> forall|i: int| 0 <= i < n ==> !#[trigger] r@[i],
        percent >= 100 ==> forall|i: int| 0 <= i < n ==> #[trigger] r@[i],
{
    let mut r: Vec<bool> = Vec::new();
    let mut i: usize = 0;
    while i < n
        invariant
            i <= n,
            r@.len() == i,
            percent == 0 ==> forall|j: int| 0 <= j < i ==> !#[trigger] r@[j],
            percent >= 100 ==> forall|j: int| 0 <= j < i ==> #[trigger] r@[j],
        decreases n - i,
    {
        let draw: u32 = rand::random::<u32>();
        r.push(draw % 100 < percent);
        i += 1;
    }
    r
}

impl PixelWorld {
    /// One tick of the granular rule with fresh fair coins for the diagonal
    /// choices.
    pub fn update_sand(&mut self)
        requires
            old(self).wf(),
        ensures
            final(self).wf(),
            final(self).w() == old(self).w(),
            final(self).h() == old(self).h(),
            exists|coins: Seq<bool>|
                coins.len() == old(self).w() * old(self).h() && final(self).cells()
                    == granular_tick(old(self).cells(), old(self).w(), old(self).h(), coins),
            final(self).cells().to_multiset() == old(self).cells().to_multiset(),
            old(self).dirty_follows(&*final(self)),
    {
        let coins = coin_flips(self.width * self.height);
        self.update_sand_with(&coins);
    }
}

} // verus!
