//! A longest-prefix-match table from IP prefixes to lists of rule positions.

use vstd::prelude::*;
use crate::policy::IpAddress;

verus! {

/// The positions stored under one `(prefix, mask length)`.
pub struct PrefixGroup {
    prefix: IpAddress,
    len: u8,
    ids: Vec<usize>,
}

/// A table keyed by `(prefix, mask length)`. A lookup yields the entry with
/// the longest mask whose prefix covers the address.
pub struct PrefixTable {
    groups: Vec<PrefixGroup>,
    model: Ghost<Map<(IpAddress, u8), Seq<usize>>>,
}

impl View for PrefixTable {
    type V = Map<(IpAddress, u8), Seq<usize>>;

    closed spec fn view(&self) -> Map<(IpAddress, u8), Seq<usize>> {
        self.model@
    }
}

impl PrefixTable {
    /// The table is well formed: its entries are exactly its groups, and no
    /// key has two groups.
    pub closed spec fn wf(&self) -> bool {
        &&& forall|j: int| 0 <= j < self.groups@.len() ==> {
            &&& self.model@.contains_key(#[trigger] self.key(j))
            &&& self.model@[self.key(j)] == self.groups@[j].ids@
        }
        &&& forall|k: (IpAddress, u8)| #[trigger] self.model@.contains_key(k) ==> exists|j: int| 0 <= j < self.groups@.len() && self.key(j) == k
        &&& forall|a: int, b: int| 0 <= a < b < self.groups@.len() ==> self.key(a) != self.key(b)
    }

    closed spec fn key(&self, j: int) -> (IpAddress, u8) {
        (self.groups@[j].prefix, self.groups@[j].len)
    }

    /// Whether `len` bits of `ip` are a prefix stored in the table.
    pub open spec fn covers(&self, ip: IpAddress, len: u8) -> bool {
        self@.contains_key((ip.masked(len as nat), len))
    }

    /// A table without entries.
    pub fn new() -> (t: PrefixTable)
        ensures
            t.wf(),
            t@ == Map::<(IpAddress, u8), Seq<usize>>::empty(),
    {
        PrefixTable { groups: Vec::new(), model: Ghost(Map::empty()) }
    }

    /// The number of prefixes stored.
    pub fn len(&self) -> (n: usize)
        requires
            self.wf(),
        ensures
            n == self@.dom().len(),
            self@.dom().finite(),
    {
        proof {
            self.lemma_domain_size(self.groups@.len() as int);
            assert(self.keys_upto(self.groups@.len() as int) =~= self@.dom());
        }
        self.groups.len()
    }

    closed spec fn keys_upto(&self, n: int) -> Set<(IpAddress, u8)> {
        Set::new(|k: (IpAddress, u8)| exists|j: int| 0 <= j < n && self.key(j) == k)
    }

    proof fn lemma_domain_size(&self, n: int)
        requires
            self.wf(),
            0 <= n <= self.groups@.len(),
        ensures
            self.keys_upto(n).finite(),
            self.keys_upto(n).len() == n,
        decreases n,
    {
        if n == 0 {
            assert(self.keys_upto(0) =~= Set::empty());
        } else {
            self.lemma_domain_size(n - 1);
            assert(self.keys_upto(n) =~= self.keys_upto(n - 1).insert(self.key(n - 1)));
            assert(!self.keys_upto(n - 1).contains(self.key(n - 1)));
        }
    }

    /// The position of the group stored under `(prefix, len)`.
    fn find(&self, prefix: IpAddress, len: u8) -> (slot: Option<usize>)
        requires
            self.wf(),
        ensures
            match slot {
                Some(j) => j < self.groups@.len() && self.key(j as int) == (prefix, len),
                None => !self@.contains_key((prefix, len)),
            },
    {
        let mut j: usize = 0;
        while j < self.groups.len()
            invariant
                j <= self.groups@.len(),
                forall|i: int| 0 <= i < j ==> self.key(i) != (prefix, len),
            decreases self.groups@.len() - j,
        {
            if self.groups[j].prefix == prefix && self.groups[j].len == len {
                return Some(j);
            }
            j += 1;
        }
        None
    }

    /// The list stored under exactly `(prefix, len)`, if there is one.
    pub fn exact_match(&self, prefix: IpAddress, len: u8) -> (ids: Option<&Vec<usize>>)
        requires
            self.wf(),
        ensures
            match ids {
                Some(v) => self@.contains_key((prefix, len)) && v@ == self@[(prefix, len)],
                None => !self@.contains_key((prefix, len)),
            },
    {
        match self.find(prefix, len) {
            Some(j) => Some(&self.groups[j].ids),
            None => None,
        }
    }

    /// Appends `id` to the list stored under `(prefix, len)`; a prefix that
    /// is new to the table starts with the list of `id` alone.
    pub fn add(&mut self, prefix: IpAddress, len: u8, id: usize)
        requires
            old(self).wf(),
        ensures
            final(self).wf(),
            final(self)@ == old(self)@.insert(
                (prefix, len),
                (if old(self)@.contains_key((prefix, len)) {
                    old(self)@[(prefix, len)]
                } else {
                    Seq::empty()
                }).push(id),
            ),
    {
        let ghost before = *self;
        match self.find(prefix, len) {
            Some(j) => {
                let ghost grown = self.model@[(prefix, len)].push(id);
                self.groups[j].ids.push(id);
                self.model = Ghost(self.model@.insert((prefix, len), grown));
                proof {
                    assert forall|i: int| 0 <= i < self.groups@.len() implies {
                        &&& self.model@.contains_key(#[trigger] self.key(i))
                        &&& self.model@[self.key(i)] == self.groups@[i].ids@
                    } by {
                        assert(self.key(i) == before.key(i));
                        assert(before.model@.contains_key(before.key(i)));
                        if i != j {
                            assert(before.key(i) != before.key(j as int));
                        }
                    }
                    assert forall|a: int, b: int| 0 <= a < b < self.groups@.len() implies self.key(a) != self.key(b) by {
                        assert(self.key(a) == before.key(a));
                        assert(self.key(b) == before.key(b));
                    }
                    assert forall|k: (IpAddress, u8)| #[trigger] self.model@.contains_key(k) implies exists|i: int| 0 <= i < self.groups@.len() && self.key(i) == k by {
                        if k == (prefix, len) {
                            assert(self.key(j as int) == k);
                        } else {
                            let i = choose|i: int| 0 <= i < before.groups@.len() && before.key(i) == k;
                            assert(self.key(i) == k);
                        }
                    }
                }
            },
            None => {
                let mut ids: Vec<usize> = Vec::new();
                ids.push(id);
                let ghost fresh = ids@;
                self.groups.push(PrefixGroup { prefix, len, ids });
                self.model = Ghost(self.model@.insert((prefix, len), fresh));
                proof {
                    assert(fresh == Seq::<usize>::empty().push(id));
                    let last = self.groups@.len() - 1;
                    assert(self.key(last) == (prefix, len));
                    assert forall|i: int| 0 <= i < self.groups@.len() implies {
                        &&& self.model@.contains_key(#[trigger] self.key(i))
                        &&& self.model@[self.key(i)] == self.groups@[i].ids@
                    } by {
                        if i < last {
                            assert(self.key(i) == before.key(i));
                            assert(before.model@.contains_key(before.key(i)));
                        }
                    }
                    assert forall|a: int, b: int| 0 <= a < b < self.groups@.len() implies self.key(a) != self.key(b) by {
                        assert(self.key(a) == before.key(a));
                        assert(before.model@.contains_key(before.key(a)));
                        if b < last {
                            assert(self.key(b) == before.key(b));
                        }
                    }
                    assert forall|k: (IpAddress, u8)| #[trigger] self.model@.contains_key(k) implies exists|i: int| 0 <= i < self.groups@.len() && self.key(i) == k by {
                        if k == (prefix, len) {
                            assert(self.key(last) == k);
                        } else {
                            let i = choose|i: int| 0 <= i < before.groups@.len() && before.key(i) == k;
                            assert(self.key(i) == k);
                        }
                    }
                }
            },
        }
    }

    /// The entry with the longest mask whose prefix covers `ip`: its prefix,
    /// its mask length and its list.
    pub fn longest_match(&self, ip: IpAddress) -> (hit: Option<(IpAddress, u8, &Vec<usize>)>)
        requires
            self.wf(),
        ensures
            match hit {
                Some((prefix, len, ids)) => {
                    &&& prefix == ip.masked(len as nat)
                    &&& self.covers(ip, len)
                    &&& ids@ == self@[(prefix, len)]
                    &&& forall|l: u8| self.covers(ip, l) ==> l <= len
                },
                None => forall|l: u8| !self.covers(ip, l),
            },
    {
        let mut best: Option<usize> = None;
        let mut j: usize = 0;
        while j < self.groups.len()
            invariant
                j <= self.groups@.len(),
                self.wf(),
                match best {
                    Some(b) => {
                        &&& b < j
                        &&& self.groups@[b as int].prefix == ip.masked(self.groups@[b as int].len as nat)
                        &&& forall|i: int| 0 <= i < j && self.groups@[i].prefix == ip.masked(self.groups@[i].len as nat)
                                ==> self.groups@[i].len <= self.groups@[b as int].len
                    },
                    None => forall|i: int| 0 <= i < j ==> self.groups@[i].prefix != ip.masked(self.groups@[i].len as nat),
                },
            decreases self.groups@.len() - j,
        {
            let g = &self.groups[j];
            if ip.mask(g.len) == g.prefix {
                let better = match best {
                    Some(b) => self.groups[b].len < g.len,
                    None => true,
                };
                if better {
                    best = Some(j);
                }
            }
            j += 1;
        }
        match best {
            Some(b) => {
                let g = &self.groups[b];
                proof {
                    assert(self.key(b as int) == (g.prefix, g.len));
                    assert forall|l: u8| self.covers(ip, l) implies l <= g.len by {
                        let k = (ip.masked(l as nat), l);
                        let i = choose|i: int| 0 <= i < self.groups@.len() && self.key(i) == k;
                        assert(self.groups@[i].prefix == ip.masked(self.groups@[i].len as nat));
                    }
                }
                Some((g.prefix, g.len, &g.ids))
            },
            None => {
                proof {
                    assert forall|l: u8| !self.covers(ip, l) by {
                        if self.covers(ip, l) {
                            let k = (ip.masked(l as nat), l);
                            let i = choose|i: int| 0 <= i < self.groups@.len() && self.key(i) == k;
                            assert(self.groups@[i].prefix == ip.masked(self.groups@[i].len as nat));
                        }
                    }
                }
                None
            },
        }
    }
}

} // verus!
