//! The source of random draws.
//!
//! A [`Sampler`] holds a table of draws from the unit interval and a cursor
//! that walks it cyclically. Everything that shades a pixel takes its
//! randomness from a sampler, so each result is a function of the table and of
//! the cursor's position when the computation began.

use crate::scalar::{Scalar, SCALE};
use rand::Rng;
use vstd::prelude::*;

verus! {

/// The mathematical state of a sampler: its table and the index of the draw
/// that comes next.
pub struct Stream {
    pub table: Seq<Scalar>,
    pub cursor: int,
}

impl Stream {
    /// The table is not empty, the cursor points into it, and every draw lies
    /// in the unit interval, one excluded.
    pub open spec fn wf(self) -> bool {
        &&& self.table.len() > 0
        &&& 0 <= self.cursor < self.table.len()
        &&& forall|i: int| 0 <= i < self.table.len() ==> 0 <= (#[trigger] self.table[i]).raw < SCALE
    }

    /// The draw that comes next.
    pub open spec fn peek(self) -> Scalar {
        self.table[self.cursor]
    }

    /// The state after `k` draws were taken.
    pub open spec fn advance(self, k: int) -> Stream {
        Stream { table: self.table, cursor: (self.cursor + k) % (self.table.len() as int) }
    }

    /// The state with the cursor moved to position `pos`, counted cyclically.
    pub open spec fn at(self, pos: int) -> Stream {
        Stream { table: self.table, cursor: pos % (self.table.len() as int) }
    }
}

/// Advancing keeps a stream well formed, and steps add up.
pub proof fn lemma_advance(s: Stream, j: int, k: int)
    requires
        s.wf(),
        0 <= j,
        0 <= k,
    ensures
        s.advance(j).wf(),
        s.advance(0) == s,
        s.advance(j).advance(k) == s.advance(j + k),
{
    let n = s.table.len() as int;
    vstd::arithmetic::div_mod::lemma_mod_bound(s.cursor + j, n);
    vstd::arithmetic::div_mod::lemma_small_mod(s.cursor as nat, n as nat);
    vstd::arithmetic::div_mod::lemma_add_mod_noop(s.cursor + j, k, n);
    vstd::arithmetic::div_mod::lemma_small_mod((k % n) as nat, n as nat);
    vstd::arithmetic::div_mod::lemma_mod_bound(k, n);
    vstd::arithmetic::div_mod::lemma_add_mod_noop((s.cursor + j) % n, k, n);
    vstd::arithmetic::div_mod::lemma_mod_twice(s.cursor + j, n);
    assert(((s.cursor + j) % n + k) % n == (s.cursor + j + k) % n);
}

/// Moving the cursor keeps a stream well formed.
pub proof fn lemma_at(s: Stream, pos: int)
    requires
        s.wf(),
        0 <= pos,
    ensures
        s.at(pos).wf(),
{
    vstd::arithmetic::div_mod::lemma_mod_bound(pos, s.table.len() as int);
}

/// Draws an integer from `0..bound` with the thread-local generator of the
/// `rand` crate (`Rng::gen_range`). The generator samples the half-open range,
/// so the result is at least zero and below `bound`; nothing else is known of
/// it, and two calls may differ.
#[verifier::external_body]
fn uniform_below(bound: i64) -> (r: i64)
    requires
        bound > 0,
    ensures
        0 <= r < bound,
{
    rand::thread_rng().gen_range(0..bound)
}

/// A cyclic table of draws from the unit interval.
pub struct Sampler {
    draws: Vec<Scalar>,
    next: usize,
}

impl View for Sampler {
    type V = Stream;

    /// The table and the place of the cursor.
    closed spec fn view(&self) -> Stream {
        Stream { table: self.draws@, cursor: self.next as int }
    }
}

impl Sampler {
    /// Every sampler is well formed.
    #[verifier::type_invariant]
    pub open spec fn inv(self) -> bool {
        self@.wf()
    }

    /// A sampler over the given draws, starting at the first.
    ///
    /// Fails if the table is empty or holds a value outside the unit
    /// interval.
    pub fn from_draws(draws: Vec<Scalar>) -> (r: Option<Sampler>)
        ensures
            r is Some <==> (Stream { table: draws@, cursor: 0 }).wf(),
            r matches Some(s) ==> s@ == (Stream { table: draws@, cursor: 0 }),
    {
        if draws.len() == 0 {
            return None;
        }
        let mut i: usize = 0;
        while i < draws.len()
            invariant
                i <= draws.len(),
                forall|j: int| 0 <= j < i ==> 0 <= (#[trigger] draws@[j]).raw < SCALE,
            decreases draws.len() - i,
        {
            if draws[i].raw < 0 || draws[i].raw >= SCALE {
                return None;
            }
            i += 1;
        }
        Some(Sampler { draws, next: 0 })
    }

    /// A sampler over `len` fresh random draws, starting at the first.
    ///
    /// Fails if `len` is zero.
    pub fn random(len: usize) -> (r: Option<Sampler>)
        ensures
            r is Some <==> len > 0,
            r matches Some(s) ==> s@.wf() && s@.table.len() == len && s@.cursor == 0,
    {
        if len == 0 {
            return None;
        }
        let mut draws: Vec<Scalar> = Vec::new();
        let mut i: usize = 0;
        while i < len
            invariant
                i <= len,
                draws@.len() == i,
                forall|j: int| 0 <= j < i ==> 0 <= (#[trigger] draws@[j]).raw < SCALE,
            decreases len - i,
        {
            draws.push(Scalar::new(uniform_below(SCALE)));
            i += 1;
        }
        Some(Sampler { draws, next: 0 })
    }

    /// A second sampler with the same table and the cursor at the same
    /// place.
    pub fn duplicate(&self) -> (r: Sampler)
        ensures
            r@ == self@,
    {
        proof {
            use_type_invariant(self);
        }
        let mut draws: Vec<Scalar> = Vec::new();
        let mut i: usize = 0;
        while i < self.draws.len()
            invariant
                i <= self.draws@.len(),
                draws@ == self.draws@.subrange(0, i as int),
            decreases self.draws@.len() - i,
        {
            draws.push(self.draws[i]);
            i += 1;
        }
        assert(draws@ == self.draws@);
        Sampler { draws, next: self.next }
    }

    /// Number of draws in the table.
    pub fn len(&self) -> (n: usize)
        ensures
            n == self@.table.len(),
            n > 0,
    {
        proof {
            use_type_invariant(self);
        }
        self.draws.len()
    }

    /// Takes the next draw, a value in the unit interval with one excluded,
    /// and moves the cursor on by one place, back to the start after the last.
    pub fn next_unit(&mut self) -> (r: Scalar)
        ensures
            r == old(self)@.peek(),
            0 <= r.raw < SCALE,
            final(self)@ == old(self)@.advance(1),
    {
        proof {
            use_type_invariant(&*self);
            lemma_advance(self@, 1, 0);
            let n = self.draws@.len() as int;
            if self.next + 1 == n {
                vstd::arithmetic::div_mod::lemma_mod_self_0(n);
            } else {
                vstd::arithmetic::div_mod::lemma_small_mod((self.next + 1) as nat, n as nat);
            }
        }
        let r = self.draws[self.next];
        let n: usize = self.draws.len();
        if self.next + 1 == n {
            self.next = 0;
        } else {
            self.next = self.next + 1;
        }
        r
    }

    /// Moves the cursor to position `pos`, counted cyclically.
    pub fn seek(&mut self, pos: u64)
        ensures
            final(self)@ == old(self)@.at(pos as int),
    {
        proof {
            use_type_invariant(&*self);
            lemma_at(self@, pos as int);
        }
        let n: u64 = self.draws.len() as u64;
        self.next = (pos % n) as usize;
    }
}

} // verus!
