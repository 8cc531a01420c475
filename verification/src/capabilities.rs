//! The registration point for host capabilities: named handlers that an
//! embedder installs, replaces and withdraws. The core itself installs
//! none. Names are kept in ascending order, each at most once.
use vstd::prelude::*;
use crate::lexical::{lemma_lex_antisym, lemma_lex_total, lemma_lex_trans, lex_le, lex_le_exec};
use crate::text::{copy_string, owned, string_eq};

verus! {

/// Names in strictly ascending order.
pub open spec fn strictly_ascending(ns: Seq<Seq<char>>) -> bool {
    forall|i: int, j: int| #![trigger ns[i], ns[j]] 0 <= i < j < ns.len() ==> lex_le(ns[i], ns[j]) && ns[i] != ns[j]
}

/// The handler bound to `name` in an entry list with distinct names.
pub open spec fn lookup<H>(entries: Seq<(Seq<char>, H)>, name: Seq<char>) -> Option<H> {
    if exists|i: int| 0 <= i < entries.len() && entries[i].0 == name {
        Some(entries[choose|i: int| 0 <= i < entries.len() && entries[i].0 == name].1)
    } else {
        None
    }
}

/// Installed capabilities, each under its surface-form name.
pub struct CapabilityRegistry<H> {
    entries: Vec<(String, H)>,
}

impl<H> CapabilityRegistry<H> {
    /// The (name, handler) entries in ascending name order.
    pub closed spec fn view(&self) -> Seq<(Seq<char>, H)> {
        Seq::new(self.entries@.len(), |i: int| (self.entries@[i].0@, self.entries@[i].1))
    }

    /// The installed names in ascending order.
    pub open spec fn names(&self) -> Seq<Seq<char>> {
        Seq::new(self@.len(), |i: int| self@[i].0)
    }

    pub open spec fn wf(&self) -> bool {
        strictly_ascending(self.names())
    }

    /// A registry with nothing installed.
    pub fn new() -> (r: Self)
        ensures
            r.wf(),
            r@ == Seq::<(Seq<char>, H)>::empty(),
    {
        let r = CapabilityRegistry { entries: Vec::new() };
        proof {
            assert(r@ =~= Seq::<(Seq<char>, H)>::empty());
        }
        r
    }

    /// Where `name` stands or would stand: the first index whose name is
    /// not below `name`.
    fn position(&self, name: &str) -> (p: usize)
        requires
            self.wf(),
        ensures
            p <= self@.len(),
            forall|j: int| 0 <= j < p ==> lex_le(self.names()[j], name@) && self.names()[j] != name@,
            p < self@.len() ==> (self.names()[p as int] == name@ || !lex_le(self.names()[p as int], name@)),
    {
        let mut p: usize = 0;
        while p < self.entries.len()
            invariant
                p <= self.entries@.len(),
                self@.len() == self.entries@.len(),
                forall|j: int| 0 <= j < p ==> lex_le(self.names()[j], name@) && self.names()[j] != name@,
            decreases self.entries.len() - p,
        {
            let below = lex_le_exec(self.entries[p].0.as_str(), name) && !string_eq(&self.entries[p].0, name);
            proof {
                assert(self.names()[p as int] == self.entries@[p as int].0@);
            }
            if !below {
                return p;
            }
            p += 1;
        }
        p
    }

    proof fn lemma_lookup_at(&self, k: int)
        requires
            self.wf(),
            0 <= k < self@.len(),
        ensures
            lookup(self@, self@[k].0) == Some(self@[k].1),
    {
        assert(self@[k].0 == self.names()[k]);
        assert(exists|i: int| 0 <= i < self@.len() && self@[i].0 == self@[k].0);
        let i = choose|i: int| 0 <= i < self@.len() && self@[i].0 == self@[k].0;
        assert(self@[i].0 == self.names()[i]);
        if i < k {
            assert(self.names()[i] != self.names()[k]);
        } else if k < i {
            assert(self.names()[k] != self.names()[i]);
        }
    }

    /// Installs `handler` under `name`, replacing any handler already there.
    pub fn register_capability(&mut self, name: &str, handler: H)
        requires
            old(self).wf(),
        ensures
            final(self).wf(),
            lookup(final(self)@, name@) == Some(handler),
            forall|n: Seq<char>| n != name@ ==> #[trigger] lookup(final(self)@, n) == lookup(old(self)@, n),
    {
        let p = self.position(name);
        let ghost ov = self@;
        let ghost on = self.names();
        if p < self.entries.len() && string_eq(&self.entries[p].0, name) {
            self.entries.set(p, (owned(name), handler));
            proof {
                assert(self@ =~= ov.update(p as int, (name@, handler)));
                assert(self.names() =~= on);
                self.lemma_lookup_at(p as int);
                assert forall|n: Seq<char>| n != name@ implies #[trigger] lookup(self@, n) == lookup(ov, n) by {
                    if exists|i: int| 0 <= i < ov.len() && ov[i].0 == n {
                        let i = choose|i: int| 0 <= i < ov.len() && ov[i].0 == n;
                        assert(self@[i] == ov[i]);
                        self.lemma_lookup_at(i);
                        let j = choose|j: int| 0 <= j < ov.len() && ov[j].0 == n;
                        if i != j {
                            assert(on[i] == on[j]);
                        }
                    } else {
                        assert forall|i: int| 0 <= i < self@.len() implies self@[i].0 != n by {
                            if i != p {
                                assert(self@[i] == ov[i]);
                            }
                        }
                    }
                }
            }
        } else {
            proof {
                if p < ov.len() {
                    assert(!lex_le(on[p as int], name@));
                    lemma_lex_total(on[p as int], name@);
                }
                assert forall|j: int| p <= j < on.len() implies lex_le(name@, on[j]) && on[j] != name@ by {
                    if j > p {
                        lemma_lex_trans(name@, on[p as int], on[j]);
                        if on[j] == name@ {
                            lemma_lex_antisym(on[p as int], name@);
                        }
                    }
                }
            }
            self.entries.insert(p, (owned(name), handler));
            proof {
                assert(self@ =~= ov.insert(p as int, (name@, handler)));
                let nn = self.names();
                assert(nn =~= on.insert(p as int, name@));
                assert forall|a: int, b: int| 0 <= a < b < nn.len() implies lex_le(nn[a], nn[b]) && nn[a] != nn[b] by {
                    if a < p && b > p {
                        assert(nn[a] == on[a] && nn[b] == on[b - 1]);
                        lemma_lex_trans(on[a], name@, on[b - 1]);
                        if on[a] == on[b - 1] {
                            lemma_lex_antisym(on[a], name@);
                        }
                    } else if a < p && b == p {
                        assert(nn[a] == on[a] && nn[b] == name@);
                    } else if a == p {
                        assert(nn[a] == name@ && nn[b] == on[b - 1]);
                    } else if a > p {
                        assert(nn[a] == on[a - 1] && nn[b] == on[b - 1]);
                    } else {
                        assert(nn[a] == on[a] && nn[b] == on[b]);
                    }
                }
                self.lemma_lookup_at(p as int);
                assert forall|n: Seq<char>| n != name@ implies #[trigger] lookup(self@, n) == lookup(ov, n) by {
                    if exists|i: int| 0 <= i < ov.len() && ov[i].0 == n {
                        let i = choose|i: int| 0 <= i < ov.len() && ov[i].0 == n;
                        let k = if i < p { i } else { i + 1 };
                        assert(self@[k] == ov[i]);
                        self.lemma_lookup_at(k);
                        let j = choose|j: int| 0 <= j < ov.len() && ov[j].0 == n;
                        if i != j {
                            assert(on[i] == on[j]);
                        }
                    } else {
                        assert forall|i: int| 0 <= i < self@.len() implies self@[i].0 != n by {
                            if i < p {
                                assert(self@[i] == ov[i]);
                            } else if i > p {
                                assert(self@[i] == ov[i - 1]);
                            }
                        }
                    }
                }
            }
        }
    }

    /// Withdraws the capability installed under `name`, if any.
    pub fn unregister_capability(&mut self, name: &str)
        requires
            old(self).wf(),
        ensures
            final(self).wf(),
            lookup(final(self)@, name@) is None,
            forall|n: Seq<char>| n != name@ ==> #[trigger] lookup(final(self)@, n) == lookup(old(self)@, n),
    {
        let p = self.position(name);
        let ghost ov = self@;
        let ghost on = self.names();
        if p < self.entries.len() && string_eq(&self.entries[p].0, name) {
            self.entries.remove(p);
            proof {
                assert(self@ =~= ov.remove(p as int));
                let nn = self.names();
                assert(nn =~= on.remove(p as int));
                assert forall|a: int, b: int| 0 <= a < b < nn.len() implies lex_le(nn[a], nn[b]) && nn[a] != nn[b] by {
                    if b < p {
                        assert(nn[a] == on[a] && nn[b] == on[b]);
                    } else if a < p {
                        assert(nn[a] == on[a] && nn[b] == on[b + 1]);
                    } else {
                        assert(nn[a] == on[a + 1] && nn[b] == on[b + 1]);
                    }
                }
                assert forall|i: int| 0 <= i < self@.len() implies self@[i].0 != name@ by {
                    if i < p {
                        assert(self@[i] == ov[i]);
                        assert(on[i] != on[p as int]);
                    } else {
                        assert(self@[i] == ov[i + 1]);
                        assert(on[p as int] != on[i + 1]);
                    }
                }
                assert forall|n: Seq<char>| n != name@ implies #[trigger] lookup(self@, n) == lookup(ov, n) by {
                    if exists|i: int| 0 <= i < ov.len() && ov[i].0 == n {
                        let i = choose|i: int| 0 <= i < ov.len() && ov[i].0 == n;
                        assert(i != p);
                        let k = if i < p { i } else { i - 1 };
                        assert(self@[k] == ov[i]);
                        self.lemma_lookup_at(k);
                        let j = choose|j: int| 0 <= j < ov.len() && ov[j].0 == n;
                        if i < j {
                            assert(on[i] != on[j]);
                        } else if j < i {
                            assert(on[j] != on[i]);
                        }
                    } else {
                        assert forall|i: int| 0 <= i < self@.len() implies self@[i].0 != n by {
                            if i < p {
                                assert(self@[i] == ov[i]);
                            } else {
                                assert(self@[i] == ov[i + 1]);
                            }
                        }
                    }
                }
            }
        } else {
            proof {
                assert forall|i: int| 0 <= i < ov.len() implies ov[i].0 != name@ by {
                    assert(ov[i].0 == on[i]);
                    if p < ov.len() {
                        assert(ov[p as int].0 == on[p as int]);
                    }
                    if i > p && p < ov.len() && on[i] == name@ {
                        assert(lex_le(on[p as int], on[i]));
                    }
                }
            }
        }
    }

    /// Whether a capability is installed under `name`.
    pub fn capability_installed(&self, name: &str) -> (r: bool)
        requires
            self.wf(),
        ensures
            r == lookup(self@, name@) is Some,
    {
        let p = self.position(name);
        let found = p < self.entries.len() && string_eq(&self.entries[p].0, name);
        proof {
            if !found {
                assert forall|i: int| 0 <= i < self@.len() implies self@[i].0 != name@ by {
                    assert(self@[i].0 == self.names()[i]);
                    if i > p && p < self@.len() && self.names()[i] == name@ {
                        assert(lex_le(self.names()[p as int], self.names()[i]));
                    }
                }
            } else {
                assert(self@[p as int].0 == name@);
            }
        }
        found
    }

    /// The installed names in ascending order.
    pub fn installed_capabilities(&self) -> (r: Vec<String>)
        ensures
            crate::lexical::texts(r@) == self.names(),
    {
        let mut out: Vec<String> = Vec::new();
        let mut i: usize = 0;
        while i < self.entries.len()
            invariant
                i <= self.entries@.len(),
                self@.len() == self.entries@.len(),
                crate::lexical::texts(out@) == self.names().take(i as int),
            decreases self.entries.len() - i,
        {
            let ghost before = out@;
            out.push(copy_string(&self.entries[i].0));
            proof {
                assert(crate::lexical::texts(before).len() == i);
                assert forall|k: int| 0 <= k < i implies #[trigger] crate::lexical::texts(out@)[k] == self.names()[k] by {
                    assert(out@[k] == before[k]);
                    assert(crate::lexical::texts(before)[k] == self.names().take(i as int)[k]);
                }
                assert(crate::lexical::texts(out@) =~= self.names().take(i + 1));
            }
            i += 1;
        }
        proof {
            assert(self.names().take(i as int) =~= self.names());
        }
        out
    }
}

} // verus!
