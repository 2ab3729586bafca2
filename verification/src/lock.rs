//! The distributed lock's contract: at most one holder per key, and a
//! fencing token that grows with every acquisition, so stale holders
//! can be rejected by downstream writes.

use vstd::prelude::*;

verus! {

/// Proof of one acquisition: the locked key and its fencing number.
#[derive(Clone, Copy, PartialEq, Eq, Structural, Debug)]
pub struct LockToken {
    pub key: u64,
    pub fencing: u64,
}

/// Model of the cluster-wide lock service.
pub struct DistLock {
    pub held: Vec<u64>,
    pub next_fencing: u64,
}

impl DistLock {
    /// Each key is held at most once.
    pub open spec fn wf(&self) -> bool {
        forall|i: int, j: int|
            0 <= i < j < self.held@.len() ==> self.held@[i] != self.held@[j]
    }

    /// Whether `key` is currently held.
    pub open spec fn spec_is_held(&self, key: u64) -> bool {
        self.held@.contains(key)
    }

    pub fn new() -> (r: Self)
        ensures
            r.wf(),
            r.held@ == Seq::<u64>::empty(),
            r.next_fencing == 0,
    {
        DistLock { held: Vec::new(), next_fencing: 0 }
    }

    /// Acquires `key`: hands out a token exactly when no one holds the
    /// key; fencing numbers grow with every acquisition.
    pub fn lock(&mut self, key: u64) -> (r: Option<LockToken>)
        requires
            old(self).wf(),
            old(self).next_fencing < u64::MAX,
        ensures
            final(self).wf(),
            match r {
                Some(t) => {
                    &&& !old(self).spec_is_held(key)
                    &&& t.key == key
                    &&& t.fencing == old(self).next_fencing
                    &&& final(self).held@ == old(self).held@.push(key)
                    &&& final(self).next_fencing == old(self).next_fencing + 1
                },
                None => old(self).spec_is_held(key) && *final(self) == *old(self),
            },
    {
        let mut i: usize = 0;
        while i < self.held.len()
            invariant
                *self == *old(self),
                self.wf(),
                i <= self.held@.len(),
                forall|j: int| 0 <= j < i ==> self.held@[j] != key,
            decreases self.held@.len() - i,
        {
            if self.held[i] == key {
                return None;
            }
            i = i + 1;
        }
        let token = LockToken { key, fencing: self.next_fencing };
        let ghost held0 = self.held@;
        self.held.push(key);
        self.next_fencing = self.next_fencing + 1;
        proof {
            assert forall|a: int, b: int|
                0 <= a < b < self.held@.len() implies self.held@[a] != self.held@[b] by {
                if b == self.held@.len() - 1 {
                    assert(held0[a] != key);
                }
            }
        }
        Some(token)
    }

    /// Releases the key of a token. Keys other than the token's stay as
    /// they are; the token's key is no longer held afterwards.
    pub fn unlock(&mut self, token: LockToken)
        requires
            old(self).wf(),
        ensures
            final(self).wf(),
            !final(self).spec_is_held(token.key),
            forall|k: u64|
                k != token.key ==> final(self).spec_is_held(k) == old(self).spec_is_held(k),
            final(self).next_fencing == old(self).next_fencing,
    {
        let ghost held0 = self.held@;
        let mut i: usize = 0;
        while i < self.held.len()
            invariant
                *self == *old(self),
                self.wf(),
                held0 == old(self).held@,
                i <= self.held@.len(),
                self.held@ == held0,
                forall|j: int| 0 <= j < i ==> self.held@[j] != token.key,
            decreases self.held@.len() - i,
        {
            if self.held[i] == token.key {
                let _ = self.held.remove(i);
                proof {
                    assert(self.held@ =~= held0.remove(i as int));
                    assert(forall|j: int| 0 <= j < i ==> #[trigger] self.held@[j] == held0[j]);
                    assert(forall|j: int|
                        i <= j < self.held@.len() ==> #[trigger] self.held@[j] == held0[j + 1]);
                    assert forall|a: int, b: int|
                        0 <= a < b < self.held@.len() implies self.held@[a] != self.held@[b] by {
                        if a < i && b < i {
                        } else if a < i {
                            assert(self.held@[b] == held0[b + 1]);
                        } else {
                            assert(self.held@[a] == held0[a + 1]);
                            assert(self.held@[b] == held0[b + 1]);
                        }
                    }
                    assert(!self.held@.contains(token.key)) by {
                        if self.held@.contains(token.key) {
                            let j = choose|j: int|
                                0 <= j < self.held@.len() && self.held@[j] == token.key;
                            if j < i {
                            } else {
                                assert(held0[j + 1] == token.key);
                                assert(held0[i as int] == token.key);
                            }
                        }
                    }
                    assert forall|k: u64|
                        k != token.key implies final(self).spec_is_held(k) == old(
                        self,
                    ).spec_is_held(k) by {
                        if held0.contains(k) {
                            let j = choose|j: int| 0 <= j < held0.len() && held0[j] == k;
                            if j < i {
                                assert(self.held@[j] == k);
                            } else {
                                assert(j != i);
                                assert(self.held@[j - 1] == k);
                            }
                        } else {
                            if self.held@.contains(k) {
                                let j = choose|j: int|
                                    0 <= j < self.held@.len() && self.held@[j] == k;
                                if j < i {
                                    assert(held0[j] == k);
                                } else {
                                    assert(held0[j + 1] == k);
                                }
                            }
                        }
                    }
                }
                return ;
            }
            i = i + 1;
        }
        proof {
            assert(!self.held@.contains(token.key)) by {
                if self.held@.contains(token.key) {
                    let j = choose|j: int|
                        0 <= j < self.held@.len() && self.held@[j] == token.key;
                }
            }
        }
    }
}

} // verus!
