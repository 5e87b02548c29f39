use vstd::prelude::*;

verus! {

/// One live connection: its key (the remote `host:port`), the host alone, and
/// what the connection is served from.
pub struct ClientEntry<T> {
    key: String,
    ip: String,
    value: T,
}

/// The streaming clients, at most one entry per key, kept in the order in
/// which they came.
pub struct ClientRegistry<T> {
    entries: Vec<ClientEntry<T>>,
}

/// The keys present after `ks` are inserted in turn into a registry holding `s`.
pub open spec fn insert_keys(s: Set<Seq<char>>, ks: Seq<Seq<char>>) -> Set<Seq<char>>
    decreases ks.len(),
{
    if ks.len() == 0 {
        s
    } else {
        insert_keys(s, ks.drop_last()).insert(ks.last())
    }
}

/// The keys present after `ks` are removed in turn from a registry holding `s`.
pub open spec fn remove_keys(s: Set<Seq<char>>, ks: Seq<Seq<char>>) -> Set<Seq<char>>
    decreases ks.len(),
{
    if ks.len() == 0 {
        s
    } else {
        remove_keys(s, ks.drop_last()).remove(ks.last())
    }
}

impl<T> ClientRegistry<T> {
    /// The keys, in order of entry.
    pub closed spec fn keys(&self) -> Seq<Seq<char>> {
        self.entries@.map_values(|e: ClientEntry<T>| e.key@)
    }

    /// The hosts, position by position with `keys`.
    pub closed spec fn ips(&self) -> Seq<Seq<char>> {
        self.entries@.map_values(|e: ClientEntry<T>| e.ip@)
    }

    /// The values, position by position with `keys`.
    pub closed spec fn values(&self) -> Seq<T> {
        self.entries@.map_values(|e: ClientEntry<T>| e.value)
    }

    pub open spec fn has_key(&self, k: Seq<char>) -> bool {
        self.keys().contains(k)
    }

    pub open spec fn has_ip(&self, ip: Seq<char>) -> bool {
        self.ips().contains(ip)
    }

    pub open spec fn key_set(&self) -> Set<Seq<char>> {
        self.keys().to_set()
    }

    pub open spec fn wf(&self) -> bool {
        &&& self.keys().no_duplicates()
        &&& self.keys().len() == self.ips().len()
        &&& self.keys().len() == self.values().len()
    }

    pub fn new() -> (r: Self)
        ensures
            r.wf(),
            r.keys() == Seq::<Seq<char>>::empty(),
            r.ips() == Seq::<Seq<char>>::empty(),
            r.values() == Seq::<T>::empty(),
    {
        let r = ClientRegistry { entries: Vec::new() };
        proof {
            assert(r.values() =~= Seq::<T>::empty());
            assert(r.keys() =~= Seq::<Seq<char>>::empty());
            assert(r.ips() =~= Seq::<Seq<char>>::empty());
        }
        r
    }

    pub fn len(&self) -> (r: usize)
        requires
            self.wf(),
        ensures
            r == self.keys().len(),
    {
        self.entries.len()
    }

    /// The position of `key`, if it is present.
    fn find(&self, key: &String) -> (r: Option<usize>)
        requires
            self.wf(),
        ensures
            match r {
                Some(i) => i < self.keys().len() && self.keys()[i as int] == key@,
                None => !self.has_key(key@),
            },
    {
        let mut i: usize = 0;
        while i < self.entries.len()
            invariant
                i <= self.entries@.len(),
                self.keys().len() == self.entries@.len(),
                forall|j: int| 0 <= j < i ==> self.keys()[j] != key@,
            decreases self.entries@.len() - i,
        {
            if self.entries[i].key == *key {
                return Some(i);
            }
            i = i + 1;
        }
        None
    }

    /// Registers `value` under `key` for a connection from `ip`; an entry
    /// already under `key` is replaced in place.
    pub fn insert(&mut self, key: String, ip: String, value: T)
        requires
            old(self).wf(),
        ensures
            final(self).wf(),
            old(self).has_key(key@) ==> {
                let i = old(self).keys().index_of(key@);
                &&& final(self).keys() == old(self).keys()
                &&& final(self).ips() == old(self).ips().update(i, ip@)
                &&& final(self).values() == old(self).values().update(i, value)
            },
            !old(self).has_key(key@) ==> {
                &&& final(self).keys() == old(self).keys().push(key@)
                &&& final(self).ips() == old(self).ips().push(ip@)
                &&& final(self).values() == old(self).values().push(value)
            },
            final(self).key_set() == old(self).key_set().insert(key@),
    {
        let ghost k = key@;
        let ghost ipv = ip@;
        let ghost val = value;
        let ghost old_keys = self.keys();
        let ghost old_ips = self.ips();
        let ghost old_vals = self.values();
        match self.find(&key) {
            Some(i) => {
                self.entries.set(i, ClientEntry { key, ip, value });
                proof {
                    assert(old_keys.index_of(k) == i) by {
                        old_keys.index_of_first_ensures(k);
                    }
                    assert(self.keys() =~= old_keys);
                    assert(self.ips() =~= old_ips.update(i as int, ipv));
                    assert(self.values() =~= old_vals.update(i as int, val));
                    assert(self.key_set() =~= old_keys.to_set().insert(k)) by {
                        assert(old_keys.contains(k));
                    }
                }
            },
            None => {
                self.entries.push(ClientEntry { key, ip, value });
                proof {
                    assert(self.keys() =~= old_keys.push(k));
                    assert(self.ips() =~= old_ips.push(ipv));
                    assert(self.values() =~= old_vals.push(val));
                    assert forall|a: int, b: int|
                        0 <= a < b < self.keys().len() implies self.keys()[a] != self.keys()[b] by {
                        if b == old_keys.len() {
                            assert(old_keys.contains(old_keys[a]));
                        }
                    }
                    old_keys.lemma_push_to_set_commute(k);
                }
            },
        }
    }

    /// Drops the entry under `key`, if any, and hands back its value.
    pub fn remove(&mut self, key: &String) -> (r: Option<T>)
        requires
            old(self).wf(),
        ensures
            final(self).wf(),
            old(self).has_key(key@) ==> {
                let i = old(self).keys().index_of(key@);
                &&& r == Some(old(self).values()[i])
                &&& final(self).keys() == old(self).keys().remove(i)
                &&& final(self).ips() == old(self).ips().remove(i)
                &&& final(self).values() == old(self).values().remove(i)
            },
            !old(self).has_key(key@) ==> {
                &&& r is None
                &&& final(self).keys() == old(self).keys()
                &&& final(self).ips() == old(self).ips()
                &&& final(self).values() == old(self).values()
            },
            final(self).key_set() == old(self).key_set().remove(key@),
    {
        let ghost k = key@;
        let ghost old_keys = self.keys();
        let ghost old_ips = self.ips();
        let ghost old_vals = self.values();
        match self.find(key) {
            Some(i) => {
                let e = self.entries.remove(i);
                proof {
                    assert(old_keys.index_of(k) == i) by {
                        old_keys.index_of_first_ensures(k);
                    }
                    assert(self.keys() =~= old_keys.remove(i as int));
                    assert(self.ips() =~= old_ips.remove(i as int));
                    assert(self.values() =~= old_vals.remove(i as int));
                    assert forall|x: Seq<char>| self.keys().contains(x) <==> (old_keys.contains(x)
                        && x != k) by {
                        if old_keys.contains(x) && x != k {
                            let j = choose|j: int| 0 <= j < old_keys.len() && old_keys[j] == x;
                            if j < i {
                                assert(self.keys()[j] == x);
                            } else {
                                assert(self.keys()[j - 1] == x);
                            }
                        }
                        if self.keys().contains(x) {
                            let j = choose|j: int| 0 <= j < self.keys().len() && self.keys()[j] == x;
                            if j < i {
                                assert(old_keys[j] == x);
                            } else {
                                assert(old_keys[j + 1] == x);
                            }
                        }
                    }
                    assert(self.key_set() =~= old_keys.to_set().remove(k));
                }
                Some(e.value)
            },
            None => {
                proof {
                    assert(old_keys.to_set().remove(k) =~= old_keys.to_set());
                }
                None
            },
        }
    }

    /// Whether some entry comes from `ip`.
    pub fn contains_ip(&self, ip: &String) -> (r: bool)
        requires
            self.wf(),
        ensures
            r == self.has_ip(ip@),
    {
        let mut i: usize = 0;
        while i < self.entries.len()
            invariant
                i <= self.entries@.len(),
                self.ips().len() == self.entries@.len(),
                forall|j: int| 0 <= j < i ==> self.ips()[j] != ip@,
            decreases self.entries@.len() - i,
        {
            if self.entries[i].ip == *ip {
                assert(self.ips()[i as int] == ip@);
                return true;
            }
            i = i + 1;
        }
        false
    }

    /// Whether an entry is present under `key`.
    pub fn contains_key(&self, key: &String) -> (r: bool)
        requires
            self.wf(),
        ensures
            r == self.has_key(key@),
    {
        self.find(key).is_some()
    }

    /// The value at position `i`, for a walk over every client.
    pub fn value_at(&self, i: usize) -> (r: &T)
        requires
            self.wf(),
            i < self.keys().len(),
        ensures
            *r == self.values()[i as int],
    {
        &self.entries[i].value
    }

    /// The value under `key`, if it is present.
    pub fn get(&self, key: &String) -> (r: Option<&T>)
        requires
            self.wf(),
        ensures
            r is Some <==> self.has_key(key@),
            r matches Some(v) ==> *v == self.values()[self.keys().index_of(key@)],
    {
        match self.find(key) {
            Some(i) => {
                proof {
                    self.keys().index_of_first_ensures(key@);
                }
                Some(&self.entries[i].value)
            },
            None => None,
        }
    }
}

proof fn lemma_insert_keys_union(s: Set<Seq<char>>, ks: Seq<Seq<char>>)
    ensures
        insert_keys(s, ks) == s.union(ks.to_set()),
    decreases ks.len(),
{
    if ks.len() > 0 {
        lemma_insert_keys_union(s, ks.drop_last());
        lemma_to_set_drop_last(ks);
        assert(insert_keys(s, ks) =~= s.union(ks.to_set()));
    } else {
        assert(ks.to_set() =~= Set::<Seq<char>>::empty());
        assert(insert_keys(s, ks) =~= s.union(ks.to_set()));
    }
}

proof fn lemma_remove_keys_difference(s: Set<Seq<char>>, ks: Seq<Seq<char>>)
    ensures
        remove_keys(s, ks) == s.difference(ks.to_set()),
    decreases ks.len(),
{
    if ks.len() > 0 {
        lemma_remove_keys_difference(s, ks.drop_last());
        lemma_to_set_drop_last(ks);
        assert(remove_keys(s, ks) =~= s.difference(ks.to_set()));
    } else {
        assert(ks.to_set() =~= Set::<Seq<char>>::empty());
        assert(remove_keys(s, ks) =~= s.difference(ks.to_set()));
    }
}

proof fn lemma_to_set_drop_last(ks: Seq<Seq<char>>)
    requires
        ks.len() > 0,
    ensures
        ks.to_set() == ks.drop_last().to_set().insert(ks.last()),
{
    let d = ks.drop_last();
    assert forall|x: Seq<char>| ks.contains(x) <==> (d.contains(x) || x == ks.last()) by {
        if ks.contains(x) {
            let j = choose|j: int| 0 <= j < ks.len() && ks[j] == x;
            if j < ks.len() - 1 {
                assert(d[j] == x);
            }
        }
        if d.contains(x) {
            let j = choose|j: int| 0 <= j < d.len() && d[j] == x;
            assert(ks[j] == x);
        }
        if x == ks.last() {
            assert(ks[ks.len() - 1] == x);
        }
    }
    assert(ks.to_set() =~= d.to_set().insert(ks.last()));
}

/// Inserting a run of keys and then removing the same keys, in any order,
/// leaves exactly the keys that were there before and are not among them: no
/// entry stays behind. Every inserted key is present once the inserts are done.
pub proof fn lemma_insert_remove_round_trip(
    start: Set<Seq<char>>,
    ins: Seq<Seq<char>>,
    rem: Seq<Seq<char>>,
)
    requires
        ins.to_set() == rem.to_set(),
    ensures
        remove_keys(insert_keys(start, ins), rem) == start.difference(ins.to_set()),
        forall|k: Seq<char>| ins.contains(k) ==> insert_keys(start, ins).contains(k),
{
    lemma_insert_keys_union(start, ins);
    lemma_remove_keys_difference(insert_keys(start, ins), rem);
    assert(remove_keys(insert_keys(start, ins), rem) =~= start.difference(ins.to_set()));
}

} // verus!
