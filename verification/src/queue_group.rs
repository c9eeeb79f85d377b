use vstd::prelude::*;

use crate::subscription::SubscriptionId;
use vstd::arithmetic::div_mod::{lemma_mod_equivalence, lemma_mod_mod, lemma_small_mod};

verus! {

/// The counter after one more selection: one up, wrapping to zero after
/// `usize::MAX`.
pub open spec fn bumped(c: usize) -> usize {
    if c == usize::MAX {
        0
    } else {
        (c + 1) as usize
    }
}

/// The counter after `k` more selections starting from `c`.
pub open spec fn bumped_by(c: usize, k: nat) -> usize {
    ((c as nat + k) % (usize::MAX as nat + 1)) as usize
}

pub proof fn lemma_bumped_by_step(c: usize, k: nat)
    ensures
        bumped(bumped_by(c, k)) == bumped_by(c, k + 1),
        bumped_by(c, 0) == c,
{
    let m = usize::MAX as nat + 1;
    let x = c as nat + k;
    assert(bumped_by(c, 0) == c) by {
        assert((c as nat) % m == c as nat) by (nonlinear_arith)
            requires
                (c as nat) < m,
        ;
    }
    assert((x % m + 1) % m == (x + 1) % m) by (nonlinear_arith)
        requires
            m > 0,
    ;
    assert((x % m + 1) % m == if x % m + 1 == m { 0 } else { x % m + 1 }) by (nonlinear_arith)
        requires
            m > 0,
            x % m < m,
    ;
}

/// Fairness: starting from any counter, `n` successive selections among `n`
/// members pick every member, unless the counter wraps on the way at a
/// group size that does not divide the counter's range.
pub proof fn lemma_round_robin_covers(c: usize, n: nat, idx: nat)
    requires
        0 < n,
        idx < n,
        c as nat + n <= usize::MAX as nat + 1 || (usize::MAX as nat + 1) % n == 0,
    ensures
        exists|j: nat| j < n && #[trigger] ((bumped_by(c, j) as int) % (n as int)) == idx as int,
{
    let m = usize::MAX as nat + 1;
    let r = (c as int) % (n as int);
    let j = ((idx as int) + (n as int) - r) % (n as int);
    assert(0 <= j < n) by (nonlinear_arith)
        requires
            n > 0,
            j == ((idx as int) + (n as int) - r) % (n as int),
    ;
    let jn = j as nat;
    assert(((c as int) + j) % (n as int) == idx as int) by (nonlinear_arith)
        requires
            n > 0,
            0 <= idx < n,
            0 <= r < n,
            r == (c as int) % (n as int),
            j == ((idx as int) + (n as int) - r) % (n as int),
    ;
    let x = c as nat + jn;
    assert((bumped_by(c, jn) as int) == (x % m) as int);
    if c as nat + n <= m {
        assert(x % m == x) by (nonlinear_arith)
            requires
                x < m,
        ;
    } else {
        let q = m / n;
        assert(m == n * q) by (nonlinear_arith)
            requires
                n > 0,
                m % n == 0,
                q == m / n,
        ;
        assert(q > 0) by (nonlinear_arith)
            requires
                m == n * q,
                m > 0,
                n > 0,
        ;
        lemma_mod_mod(x as int, n as int, q as int);
    }
    assert(((bumped_by(c, jn) as int) % (n as int)) == idx as int);
}

/// The member position that the selection at counter `bumped_by(c, j)`
/// picks among `n` members is `(c + j) % n`, when the counter does not wrap
/// or the group size divides the counter's range.
proof fn lemma_bumped_by_mod(c: usize, n: nat, j: nat)
    requires
        0 < n,
        j < n,
        c as nat + n <= usize::MAX as nat + 1 || (usize::MAX as nat + 1) % n == 0,
    ensures
        (bumped_by(c, j) as int) % (n as int) == ((c as int) + (j as int)) % (n as int),
{
    let m = usize::MAX as nat + 1;
    let x = c as nat + j;
    assert((bumped_by(c, j) as int) == (x % m) as int);
    if c as nat + n <= m {
        lemma_small_mod(x, m);
    } else {
        let q = m / n;
        assert(m == n * q) by (nonlinear_arith)
            requires
                n > 0,
                m % n == 0,
                q == m / n,
        ;
        assert(q > 0) by (nonlinear_arith)
            requires
                m == n * q,
                m > 0,
                n > 0,
        ;
        lemma_mod_mod(x as int, n as int, q as int);
    }
}

/// Round robin: `n` successive selections among `n` members pick each member
/// exactly once (distinct positions, so every position once), unless the
/// counter wraps on the way at a group size that does not divide the
/// counter's range.
pub proof fn lemma_round_robin_exactly_once(c: usize, n: nat, j1: nat, j2: nat)
    requires
        0 < n,
        j1 < n,
        j2 < n,
        j1 != j2,
        c as nat + n <= usize::MAX as nat + 1 || (usize::MAX as nat + 1) % n == 0,
    ensures
        (bumped_by(c, j1) as int) % (n as int) != (bumped_by(c, j2) as int) % (n as int),
{
    lemma_bumped_by_mod(c, n, j1);
    lemma_bumped_by_mod(c, n, j2);
    let x1 = (c as int) + (j1 as int);
    let x2 = (c as int) + (j2 as int);
    lemma_mod_equivalence(x1, x2, n as int);
    lemma_mod_equivalence(x2, x1, n as int);
    if j1 < j2 {
        lemma_small_mod((j2 - j1) as nat, n);
        assert(x2 - x1 == j2 - j1);
    } else {
        lemma_small_mod((j1 - j2) as nat, n);
        assert(x1 - x2 == j1 - j2);
    }
}

/// Round-robin selector for queue group members.
///
/// When multiple subscribers share a queue group, only one
/// receives each message. This rotates through members fairly.
#[derive(Debug)]
pub struct QueueGroupSelector {
    counter: usize,
}

impl QueueGroupSelector {
    /// How many selections have been made, modulo `usize::MAX + 1`.
    pub closed spec fn counter(&self) -> usize {
        self.counter
    }

    pub fn new() -> (s: QueueGroupSelector)
        ensures
            s.counter() == 0,
    {
        QueueGroupSelector { counter: 0 }
    }

    /// Pick the next member from the list. Returns None if members is empty:
    /// otherwise the member at the counter modulo the number of members, and
    /// the counter moves on by one.
    pub fn select<'a>(&mut self, members: &'a [SubscriptionId]) -> (r: Option<&'a SubscriptionId>)
        ensures
            members@.len() == 0 ==> r is None && final(self).counter() == old(self).counter(),
            members@.len() > 0 ==> (r matches Some(m) && *m == members@[(old(self).counter() as int)
                % (members@.len() as int)]) && final(self).counter() == bumped(old(self).counter()),
    {
        if members.len() == 0 {
            return None;
        }
        let idx = self.counter % members.len();
        self.counter = if self.counter == usize::MAX {
            0
        } else {
            self.counter + 1
        };
        Some(&members[idx])
    }

    /// Return the index of the next member for a group of `len` items: the
    /// counter modulo `len` (modulo 1 when `len` is 0); the counter moves on.
    pub fn select_index(&mut self, len: usize) -> (r: usize)
        ensures
            r == old(self).counter() % (if len == 0 { 1 } else { len }),
            final(self).counter() == bumped(old(self).counter()),
    {
        let m = if len == 0 {
            1
        } else {
            len
        };
        let idx = self.counter % m;
        self.counter = if self.counter == usize::MAX {
            0
        } else {
            self.counter + 1
        };
        idx
    }
}

impl Default for QueueGroupSelector {
    fn default() -> (s: Self)
        ensures
            s.counter() == 0,
    {
        Self::new()
    }
}

} // verus!
