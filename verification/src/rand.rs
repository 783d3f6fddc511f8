//! A small deterministic xorshift generator, and the random choices built on it.
use vstd::prelude::*;

verus! {

/// A xorshift generator. Its state is never zero: from zero it would only
/// ever produce zero.
pub struct Random {
    state: usize,
}

/// One xorshift step.
pub open spec fn xorshift(x: usize) -> usize {
    let a = x ^ (x << 13usize);
    let b = a ^ (a >> 7usize);
    b ^ (b << 17usize)
}

/// The identity arrangement `0, 1, ..., n - 1`.
pub open spec fn identity_seq(n: nat) -> Seq<usize> {
    Seq::new(n, |i: int| i as usize)
}

/// `s` with the entries at `i` and `j` exchanged.
pub open spec fn swapped(s: Seq<usize>, i: int, j: int) -> Seq<usize> {
    s.update(i, s[j]).update(j, s[i])
}

/// The arrangement of `0..n` that `gen_perm` produces from state `st` once the
/// positions `1..k` have been visited, with the state reached then.
pub open spec fn shuffle_prefix(st: usize, n: nat, k: nat) -> (Seq<usize>, usize)
    decreases k,
{
    if k <= 1 {
        (identity_seq(n), st)
    } else {
        let (s, st1) = shuffle_prefix(st, n, (k - 1) as nat);
        let st2 = xorshift(st1);
        let pos = (st2 % (k as usize)) as int;
        (swapped(s, k - 1, pos), st2)
    }
}

/// `s` holds each of `0..n` exactly once.
pub open spec fn is_permutation(s: Seq<usize>, n: nat) -> bool {
    &&& s.len() == n
    &&& forall|i: int| 0 <= i < n ==> #[trigger] s[i] < n
    &&& forall|i: int, j: int| 0 <= i < j < n ==> s[i] != s[j]
    &&& forall|v: usize| v < n ==> #[trigger] s.contains(v)
}

proof fn lemma_xorshift_nonzero(x: usize)
    requires
        x != 0,
    ensures
        xorshift(x) != 0,
{
    let a = x ^ (x << 13usize);
    assert(a != 0) by (bit_vector)
        requires
            x != 0,
            a == x ^ (x << 13usize),
    ;
    let b = a ^ (a >> 7usize);
    assert(b != 0) by (bit_vector)
        requires
            a != 0,
            b == a ^ (a >> 7usize),
    ;
    let c = b ^ (b << 17usize);
    assert(c != 0) by (bit_vector)
        requires
            b != 0,
            c == b ^ (b << 17usize),
    ;
}

impl Random {
    #[verifier::type_invariant]
    spec fn inv(self) -> bool {
        self.state != 0
    }

    /// The current state of the generator.
    pub closed spec fn state(&self) -> usize {
        self.state
    }

    /// Advances the generator by one xorshift step and returns the new state.
    pub fn next(&mut self) -> (r: usize)
        ensures
            final(self).state() == xorshift(old(self).state()),
            r == final(self).state(),
            r != 0,
    {
        proof {
            use_type_invariant(&*self);
            lemma_xorshift_nonzero(self.state);
        }
        let mut x = self.state;
        x ^= x << 13;
        x ^= x >> 7;
        x ^= x << 17;
        self.state = x;
        x
    }

    /// A number in `from..to`, taken from the next state.
    pub fn next_in_range(&mut self, from: usize, to: usize) -> (r: usize)
        requires
            from < to,
        ensures
            final(self).state() == xorshift(old(self).state()),
            r == from + xorshift(old(self).state()) % ((to - from) as usize),
            from <= r < to,
    {
        from + self.next() % (to - from)
    }

    /// A generator starting from `seed`, which must not be zero.
    pub fn new(seed: usize) -> (r: Self)
        requires
            seed != 0,
        ensures
            r.state() == seed,
    {
        Self { state: seed }
    }

    /// A random arrangement of `0..n`: the positions `1..n` are visited in
    /// turn, each exchanged with a position drawn at random at or below it.
    pub fn gen_perm(&mut self, n: usize) -> (r: Vec<usize>)
        ensures
            is_permutation(r@, n as nat),
            (r@, final(self).state()) == shuffle_prefix(old(self).state(), n as nat, if n <= 1 {
                1nat
            } else {
                n as nat
            }),
    {
        let mut res: Vec<usize> = Vec::new();
        for i in 0..n
            invariant
                res@ == identity_seq(n as nat).take(i as int),
        {
            res.push(i);
            assert(res@ =~= identity_seq(n as nat).take(i + 1));
        }
        assert(res@ =~= identity_seq(n as nat));
        let ghost st0 = self.state();
        assert(is_permutation(res@, n as nat)) by {
            assert forall|v: usize| v < n implies #[trigger] res@.contains(v) by {
                assert(res@[v as int] == v);
            }
        }
        if n > 1 {
            for i in 1..n
                invariant
                    n > 1,
                    (res@, self.state()) == shuffle_prefix(st0, n as nat, i as nat),
                    is_permutation(res@, n as nat),
            {
                let pos = self.next_in_range(0, i + 1);
                let ghost s = res@;
                let a = res[i];
                let b = res[pos];
                res.set(i, b);
                res.set(pos, a);
                assert(res@ == swapped(s, i as int, pos as int));
                assert(is_permutation(res@, n as nat)) by {
                    assert forall|v: usize| v < n implies #[trigger] res@.contains(v) by {
                        assert(s.contains(v));
                        let j0 = choose|j: int| 0 <= j < s.len() && s[j] == v;
                        if j0 == i {
                            assert(res@[pos as int] == v);
                        } else if j0 == pos {
                            assert(res@[i as int] == v);
                        } else {
                            assert(res@[j0] == v);
                        }
                    }
                }
            }
        }
        res
    }
}

} // verus!
