//! The part of the user interface that the state machine owns: a registry
//! of notices keyed by screen position.  Drawing them is left to the caller.

use vstd::prelude::*;

verus! {

/// A notice the interface can show at some position.
#[derive(Clone, Copy, PartialEq, Eq, Structural, Debug)]
pub enum Notice {
    Help,
    InvalidBoard,
    Solved,
    NoSolution,
}

/// The registry of notices currently on display, keyed by `(column, row)`.
pub struct Ui {
    pub msgs: Vec<((u16, u16), Notice)>,
}

impl Ui {
    /// Each position holds at most one notice.
    pub open spec fn wf(self) -> bool {
        forall|k1: int, k2: int|
            0 <= k1 < k2 < self.msgs@.len() ==> (#[trigger] self.msgs@[k1]).0
                != (#[trigger] self.msgs@[k2]).0
    }

    /// Some notice is registered at `at`.
    pub open spec fn has_at(self, at: (u16, u16)) -> bool {
        exists|k: int| 0 <= k < self.msgs@.len() && (#[trigger] self.msgs@[k]).0 == at
    }

    /// The notice `n` is registered at `at`.
    pub open spec fn stores(self, at: (u16, u16), n: Notice) -> bool {
        exists|k: int| 0 <= k < self.msgs@.len() && #[trigger] self.msgs@[k] == (at, n)
    }

    /// True when a notice is registered at `at`.
    pub fn has(&self, at: (u16, u16)) -> (r: bool)
        ensures
            r == self.has_at(at),
    {
        let mut k: usize = 0;
        while k < self.msgs.len()
            invariant
                k <= self.msgs@.len(),
                forall|x: int| 0 <= x < k ==> (#[trigger] self.msgs@[x]).0 != at,
            decreases self.msgs@.len() - k,
        {
            if self.msgs[k].0.0 == at.0 && self.msgs[k].0.1 == at.1 {
                proof {
                    assert((self.msgs@[k as int]).0 == at);
                }
                return true;
            }
            k = k + 1;
        }
        false
    }

    /// Register `n` at `at`, replacing whatever notice was there.
    pub fn add_msg(&mut self, at: (u16, u16), n: Notice)
        requires
            old(self).wf(),
        ensures
            final(self).wf(),
            final(self).stores(at, n),
            final(self).has_at(at),
            forall|p: (u16, u16), m: Notice|
                p != at ==> (final(self).stores(p, m) == old(self).stores(p, m)),
            forall|p: (u16, u16)| p != at ==> (final(self).has_at(p) == old(self).has_at(p)),
    {
        self.remove_msg(at);
        let ghost mid = *self;
        let ghost s0 = self.msgs@;
        self.msgs.push((at, n));
        proof {
            assert(self.msgs@[s0.len() as int] == (at, n));
            assert forall|p: (u16, u16), m: Notice| p != at implies (final(self).stores(p, m)
                == old(self).stores(p, m)) by {
                if final(self).stores(p, m) {
                    let k = choose|k: int|
                        0 <= k < self.msgs@.len() && #[trigger] self.msgs@[k] == (p, m);
                    assert(k < s0.len());
                    assert(s0[k] == (p, m));
                    assert(mid.stores(p, m));
                }
                if old(self).stores(p, m) {
                    assert(mid.stores(p, m));
                    let k = choose|k: int| 0 <= k < s0.len() && #[trigger] s0[k] == (p, m);
                    assert(self.msgs@[k] == (p, m));
                }
            }
            assert forall|p: (u16, u16)| p != at implies (final(self).has_at(p) == old(
                self,
            ).has_at(p)) by {
                if final(self).has_at(p) {
                    let k = choose|k: int|
                        0 <= k < self.msgs@.len() && (#[trigger] self.msgs@[k]).0 == p;
                    assert(k < s0.len());
                    assert((s0[k]).0 == p);
                    assert(mid.has_at(p));
                }
                if old(self).has_at(p) {
                    assert(mid.has_at(p));
                    let k = choose|k: int| 0 <= k < s0.len() && (#[trigger] s0[k]).0 == p;
                    assert((self.msgs@[k]).0 == p);
                }
            }
            assert forall|k1: int, k2: int|
                0 <= k1 < k2 < self.msgs@.len() implies (#[trigger] self.msgs@[k1]).0
                != (#[trigger] self.msgs@[k2]).0 by {
                if k2 == s0.len() {
                    assert((s0[k1]).0 != at) by {
                        if (s0[k1]).0 == at {
                            assert(mid.has_at(at));
                        }
                    }
                }
            }
        }
    }

    /// Drop the notice registered at `at`, if any.
    pub fn remove_msg(&mut self, at: (u16, u16))
        requires
            old(self).wf(),
        ensures
            final(self).wf(),
            !final(self).has_at(at),
            forall|p: (u16, u16), m: Notice|
                p != at ==> (final(self).stores(p, m) == old(self).stores(p, m)),
            forall|p: (u16, u16)| p != at ==> (final(self).has_at(p) == old(self).has_at(p)),
    {
        let ghost s0 = self.msgs@;
        let mut k: usize = 0;
        while k < self.msgs.len()
            invariant
                old(self).wf(),
                self.msgs@ == s0,
                s0 == old(self).msgs@,
                k <= s0.len(),
                forall|x: int| 0 <= x < k ==> (#[trigger] s0[x]).0 != at,
            decreases s0.len() - k,
        {
            if self.msgs[k].0.0 == at.0 && self.msgs[k].0.1 == at.1 {
                proof {
                    assert((s0[k as int]).0 == at);
                }
                self.msgs.remove(k);
                proof {
                    let ki = k as int;
                    assert(self.msgs@ == s0.remove(ki));
                    assert forall|x: int|
                        0 <= x < self.msgs@.len() implies #[trigger] self.msgs@[x] == (if x < ki {
                        s0[x]
                    } else {
                        s0[x + 1]
                    }) by {}
                    assert(!final(self).has_at(at)) by {
                        if final(self).has_at(at) {
                            let y = choose|y: int|
                                0 <= y < self.msgs@.len() && (#[trigger] self.msgs@[y]).0 == at;
                            if y < ki {
                                assert((s0[y]).0 != at);
                            } else {
                                assert((s0[y + 1]).0 == at);
                                assert((s0[ki]).0 == at);
                            }
                        }
                    }
                    assert forall|p: (u16, u16), m: Notice| p != at implies (final(self).stores(
                        p,
                        m,
                    ) == old(self).stores(p, m)) by {
                        if final(self).stores(p, m) {
                            let y = choose|y: int|
                                0 <= y < self.msgs@.len() && #[trigger] self.msgs@[y] == (p, m);
                            if y < ki {
                                assert(s0[y] == (p, m));
                            } else {
                                assert(s0[y + 1] == (p, m));
                            }
                        }
                        if old(self).stores(p, m) {
                            let y = choose|y: int| 0 <= y < s0.len() && #[trigger] s0[y] == (p, m);
                            if y < ki {
                                assert(self.msgs@[y] == (p, m));
                            } else {
                                assert(y != ki);
                                assert(self.msgs@[y - 1] == (p, m));
                            }
                        }
                    }
                    assert forall|p: (u16, u16)| p != at implies (final(self).has_at(p) == old(
                        self,
                    ).has_at(p)) by {
                        if final(self).has_at(p) {
                            let y = choose|y: int|
                                0 <= y < self.msgs@.len() && (#[trigger] self.msgs@[y]).0 == p;
                            if y < ki {
                                assert((s0[y]).0 == p);
                            } else {
                                assert((s0[y + 1]).0 == p);
                            }
                        }
                        if old(self).has_at(p) {
                            let y = choose|y: int| 0 <= y < s0.len() && (#[trigger] s0[y]).0 == p;
                            if y < ki {
                                assert((self.msgs@[y]).0 == p);
                            } else {
                                assert(y != ki);
                                assert((self.msgs@[y - 1]).0 == p);
                            }
                        }
                    }
                }
                return ;
            }
            k = k + 1;
        }
        proof {
            assert(!final(self).has_at(at));
        }
    }
}

impl Default for Ui {
    fn default() -> (r: Self)
        ensures
            r.wf(),
            r.msgs@.len() == 0,
            forall|p: (u16, u16)| !r.has_at(p),
    {
        Ui { msgs: Vec::new() }
    }
}

} // verus!
