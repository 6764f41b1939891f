//! The expiring key-value store: a map from key to value-with-optional-
//! deadline, kept consistent with an expiration index of (deadline, key)
//! pairs. Time enters only as an argument, a monotonic instant in
//! milliseconds, so every operation is a pure step of a state machine;
//! the lock, the wake signal and the background task that drive it live
//! outside the library.

use vstd::prelude::*;

verus! {

/// Entry in the key-value store.
pub struct Entry {
    /// Stored data.
    pub data: Vec<u8>,
    /// Instant at which the entry expires and should be removed from the
    /// database; `None` means it never expires.
    pub expires_at: Option<u64>,
}

/// The store's state: entries, plus one (deadline, key) pair for every
/// entry that carries a deadline.
pub struct State {
    pub entries: Vec<(String, Entry)>,
    pub expirations: Vec<(u64, String)>,
}

/// What one entry denotes: its bytes and its optional deadline.
pub type EntryData = (Seq<u8>, Option<u64>);

/// The map a sequence of entries denotes; later entries would win, but
/// the store keeps keys unique.
pub open spec fn entries_map(s: Seq<(String, Entry)>) -> Map<Seq<char>, EntryData>
    decreases s.len(),
{
    if s.len() == 0 {
        Map::empty()
    } else {
        entries_map(s.drop_last()).insert(
            s.last().0@,
            (s.last().1.data@, s.last().1.expires_at),
        )
    }
}

/// No two entries share a key.
pub open spec fn keys_unique(s: Seq<(String, Entry)>) -> bool {
    forall|i: int, j: int| 0 <= i < j < s.len() ==> s[i].0@ != s[j].0@
}

/// No two index pairs share a key.
pub open spec fn exp_keys_unique(e: Seq<(u64, String)>) -> bool {
    forall|i: int, j: int| 0 <= i < j < e.len() ==> e[i].1@ != e[j].1@
}

/// An entry that has not expired by `now`.
pub open spec fn live(e: EntryData, now: u64) -> bool {
    match e.1 {
        Option::Some(d) => d > now,
        Option::None => true,
    }
}

impl View for State {
    type V = Map<Seq<char>, EntryData>;

    open spec fn view(&self) -> Map<Seq<char>, EntryData> {
        entries_map(self.entries@)
    }
}

impl State {
    /// Index consistency: the expiration index holds exactly one
    /// (deadline, key) pair for each entry that has a deadline — no
    /// orphans, no omissions — and keys are unique on both sides.
    pub open spec fn inv(self) -> bool {
        &&& keys_unique(self.entries@)
        &&& exp_keys_unique(self.expirations@)
        &&& (forall|i: int|
            0 <= i < self.expirations@.len() ==> self@.contains_key(
                #[trigger] self.expirations@[i].1@,
            ) && self@[self.expirations@[i].1@].1 == Some(self.expirations@[i].0))
        &&& (forall|k: Seq<char>|
            #![trigger self@[k]]
            self@.contains_key(k) && self@[k].1 is Some ==> exists|i: int|
                0 <= i < self.expirations@.len() && #[trigger] self.expirations@[i].1@ == k
                    && self.expirations@[i].0 == self@[k].1->0)
    }

    /// The earliest deadline the index tracks, if any: the next instant
    /// at which some key is due to expire.
    pub open spec fn spec_next_deadline(self) -> Option<u64> {
        if self.expirations@.len() == 0 {
            None
        } else {
            Some(min_deadline(self.expirations@))
        }
    }
}

/// The smallest deadline in a non-empty index.
pub open spec fn min_deadline(e: Seq<(u64, String)>) -> u64
    recommends
        e.len() > 0,
    decreases e.len(),
{
    if e.len() <= 1 {
        e[0].0
    } else if e.last().0 < min_deadline(e.drop_last()) {
        e.last().0
    } else {
        min_deadline(e.drop_last())
    }
}

/// The minimum is one of the deadlines, and no deadline is smaller.
pub proof fn lemma_min_deadline(e: Seq<(u64, String)>)
    requires
        e.len() > 0,
    ensures
        exists|i: int| #![trigger e[i]] 0 <= i < e.len() && e[i].0 == min_deadline(e),
        forall|i: int| #![trigger e[i]] 0 <= i < e.len() ==> e[i].0 >= min_deadline(e),
    decreases e.len(),
{
    if e.len() <= 1 {
        assert(e[0].0 == min_deadline(e));
    } else {
        lemma_min_deadline(e.drop_last());
        assert(forall|i: int| #![trigger e.drop_last()[i]] 0 <= i < e.len() - 1 ==> e[i]
            == e.drop_last()[i]);
        if e.last().0 < min_deadline(e.drop_last()) {
            assert(e[e.len() - 1].0 == min_deadline(e));
        } else {
            let i = choose|i: int|
                #![trigger e.drop_last()[i]]
                0 <= i < e.drop_last().len() && e.drop_last()[i].0 == min_deadline(e.drop_last());
            assert(e[i] == e.drop_last()[i]);
            assert(e[i].0 == min_deadline(e));
        }
        assert forall|i: int| #![trigger e[i]] 0 <= i < e.len() implies e[i].0 >= min_deadline(
            e,
        ) by {
            if i < e.len() - 1 {
                assert(e.drop_last()[i].0 >= min_deadline(e.drop_last()));
            }
        }
    }
}

/// Membership in `entries_map`: a key is present exactly when some
/// entry holds it, and with unique keys each entry is read back intact.
pub proof fn lemma_entries_map_membership(s: Seq<(String, Entry)>)
    ensures
        forall|k: Seq<char>|
            #![trigger entries_map(s).contains_key(k)]
            entries_map(s).contains_key(k) <==> (exists|i: int|
                #![trigger s[i]]
                0 <= i < s.len() && s[i].0@ == k),
        keys_unique(s) ==> forall|i: int|
            0 <= i < s.len() ==> entries_map(s)[#[trigger] s[i].0@] == (
                s[i].1.data@,
                s[i].1.expires_at,
            ),
    decreases s.len(),
{
    if s.len() > 0 {
        lemma_entries_map_membership(s.drop_last());
        assert forall|k: Seq<char>| #![trigger entries_map(s).contains_key(k)]
            entries_map(s).contains_key(k) <==> (exists|i: int|
            #![trigger s[i]]
            0 <= i < s.len() && s[i].0@ == k) by {
            if entries_map(s).contains_key(k) {
                if k == s.last().0@ {
                    assert(s[s.len() - 1].0@ == k);
                } else {
                    assert(entries_map(s.drop_last()).contains_key(k));
                    let i = choose|i: int|
                        #![trigger s.drop_last()[i]]
                        0 <= i < s.drop_last().len() && s.drop_last()[i].0@ == k;
                    assert(s[i] == s.drop_last()[i]);
                    assert(s[i].0@ == k);
                }
            } else {
                if exists|i: int| #![trigger s[i]] 0 <= i < s.len() && s[i].0@ == k {
                    let i = choose|i: int| #![trigger s[i]] 0 <= i < s.len() && s[i].0@ == k;
                    if i < s.len() - 1 {
                        assert(s.drop_last()[i] == s[i]);
                        assert(s.drop_last()[i].0@ == k);
                        assert(entries_map(s.drop_last()).contains_key(k));
                    }
                    assert(false);
                }
            }
        }
        if keys_unique(s) {
            assert(keys_unique(s.drop_last()));
            assert forall|i: int| 0 <= i < s.len() implies entries_map(s)[#[trigger] s[i].0@]
                == (s[i].1.data@, s[i].1.expires_at) by {
                if i < s.len() - 1 {
                    assert(s.drop_last()[i] == s[i]);
                    assert(s[i].0@ != s.last().0@);
                }
            }
        }
    }
}

/// Removing the entry at `i` removes exactly its key from the map.
pub proof fn lemma_entries_map_remove(s: Seq<(String, Entry)>, i: int)
    requires
        keys_unique(s),
        0 <= i < s.len(),
    ensures
        entries_map(s.remove(i)) =~= entries_map(s).remove(s[i].0@),
        keys_unique(s.remove(i)),
    decreases s.len(),
{
    lemma_entries_map_membership(s);
    lemma_entries_map_membership(s.drop_last());
    if i == s.len() - 1 {
        assert(s.remove(i) =~= s.drop_last());
        assert(!entries_map(s.drop_last()).contains_key(s[i].0@)) by {
            if entries_map(s.drop_last()).contains_key(s[i].0@) {
                let j = choose|j: int|
                    #![trigger s.drop_last()[j]]
                    0 <= j < s.drop_last().len() && s.drop_last()[j].0@ == s[i].0@;
                assert(s[j] == s.drop_last()[j]);
                assert(s[j].0@ == s[i].0@);
            }
        }
        assert(entries_map(s.remove(i)) =~= entries_map(s).remove(s[i].0@));
    } else {
        assert(keys_unique(s.drop_last()));
        lemma_entries_map_remove(s.drop_last(), i);
        assert(s.remove(i).drop_last() =~= s.drop_last().remove(i));
        assert(s.remove(i).last() == s.last());
        assert(entries_map(s.remove(i)) == entries_map(s.drop_last().remove(i)).insert(
            s.last().0@,
            (s.last().1.data@, s.last().1.expires_at),
        ));
        assert(s[i].0@ != s.last().0@);
        assert(entries_map(s.remove(i)) =~= entries_map(s).remove(s[i].0@));
        lemma_entries_map_membership(s.remove(i));
    }
}

} // verus!

verus! {

/// Index of the entry holding `key`, if any.
fn find_entry(entries: &Vec<(String, Entry)>, key: &String) -> (r: Option<usize>)
    ensures
        match r {
            Option::Some(i) => i < entries@.len() && entries@[i as int].0@ == key@,
            Option::None => forall|i: int| #![trigger entries@[i]]
                0 <= i < entries@.len() ==> entries@[i].0@ != key@,
        },
{
    let n = entries.len();
    for i in 0..n
        invariant
            n == entries@.len(),
            forall|a: int| #![trigger entries@[a]] 0 <= a < i ==> entries@[a].0@ != key@,
        decreases n - i,
    {
        if entries[i].0 == *key {
            return Some(i);
        }
    }
    None
}

/// Index of the expiration pair holding `key`, if any.
fn find_exp(exp: &Vec<(u64, String)>, key: &String) -> (r: Option<usize>)
    ensures
        match r {
            Option::Some(i) => i < exp@.len() && exp@[i as int].1@ == key@,
            Option::None => forall|i: int| #![trigger exp@[i]]
                0 <= i < exp@.len() ==> exp@[i].1@ != key@,
        },
{
    let n = exp.len();
    for i in 0..n
        invariant
            n == exp@.len(),
            forall|a: int| #![trigger exp@[a]] 0 <= a < i ==> exp@[a].1@ != key@,
        decreases n - i,
    {
        if exp[i].1 == *key {
            return Some(i);
        }
    }
    None
}

/// What the deadline of a freshly set entry is: the current instant
/// plus the requested time to live, if one was requested.
pub open spec fn spec_deadline(expire: Option<u64>, now: u64) -> Option<u64> {
    match expire {
        Option::Some(d) => Some((now + d) as u64),
        Option::None => None,
    }
}

impl State {
    /// A fresh, empty store.
    pub fn new() -> (r: State)
        ensures
            r.inv(),
            r@ =~= Map::<Seq<char>, EntryData>::empty(),
            r.spec_next_deadline() is None,
    {
        State { entries: Vec::new(), expirations: Vec::new() }
    }

    /// Removes the entry at index `j` together with its expiration pair,
    /// if it has one.
    fn remove_entry_and_pair(&mut self, j: usize) -> (r: Entry)
        requires
            old(self).inv(),
            j < old(self).entries@.len(),
        ensures
            final(self).inv(),
            final(self)@ =~= old(self)@.remove(old(self).entries@[j as int].0@),
            r.data@ == old(self).entries@[j as int].1.data@,
            r.expires_at == old(self).entries@[j as int].1.expires_at,
            r.expires_at is None ==> final(self).expirations@ == old(self).expirations@,
            r.expires_at matches Some(d) ==> exists|p: int|
                #![trigger old(self).expirations@[p]]
                0 <= p < old(self).expirations@.len() && old(self).expirations@[p].0 == d
                    && old(self).expirations@[p].1@ == old(self).entries@[j as int].0@
                    && final(self).expirations@ == old(self).expirations@.remove(p),
    {
        proof {
            lemma_entries_map_membership(self.entries@);
            lemma_entries_map_remove(self.entries@, j as int);
        }
        let ghost old_entries = self.entries@;
        let ghost old_exp = self.expirations@;
        let ghost key = self.entries@[j as int].0@;
        let (k, e) = self.entries.remove(j);
        let has_deadline = e.expires_at.is_some();
        if has_deadline {
            match find_exp(&self.expirations, &k) {
                Some(p) => {
                    proof {
                        assert(old_exp[p as int].0 == old(self)@[key].1->0);
                    }
                    self.expirations.remove(p);
                    proof {
                        let ne = self.expirations@;
                        assert(ne == old_exp.remove(p as int));
                        assert forall|a: int| #![trigger ne[a]] 0 <= a < ne.len() implies ne[a]
                            == (if a < p { old_exp[a] } else { old_exp[a + 1] }) by {}
                        assert(exp_keys_unique(ne));
                        assert(self.inv()) by {
                            assert forall|i: int|
                                0 <= i < ne.len() implies self@.contains_key(
                                #[trigger] ne[i].1@,
                            ) && self@[ne[i].1@].1 == Some(ne[i].0) by {
                                let a = if i < p { i } else { i + 1 };
                                assert(ne[i] == old_exp[a]);
                                assert(old_exp[a].1@ != key);
                            }
                            assert forall|kk: Seq<char>|
                                #![trigger self@[kk]]
                                self@.contains_key(kk) && self@[kk].1 is Some implies exists|i: int|
                                0 <= i < ne.len() && #[trigger] ne[i].1@ == kk && ne[i].0
                                    == self@[kk].1->0 by {
                                let q = choose|q: int|
                                    0 <= q < old_exp.len() && #[trigger] old_exp[q].1@ == kk
                                        && old_exp[q].0 == old(self)@[kk].1->0;
                                assert(kk != key);
                                assert(q != p);
                                let w = if q < p { q } else { q - 1 };
                                assert(ne[w] == old_exp[q]);
                            }
                        }
                    }
                },
                None => {
                    proof {
                        let d = old(self).entries@[j as int].1.expires_at->0;
                        assert(old(self)@.contains_key(key) && old(self)@[key].1 is Some);
                        assert(false);
                    }
                },
            }
        } else {
            proof {
                assert(self.inv()) by {
                    assert forall|i: int|
                        0 <= i < self.expirations@.len() implies self@.contains_key(
                        #[trigger] self.expirations@[i].1@,
                    ) && self@[self.expirations@[i].1@].1 == Some(self.expirations@[i].0) by {
                        assert(old_exp[i].1@ != key);
                    }
                    assert forall|kk: Seq<char>|
                        #![trigger self@[kk]]
                        self@.contains_key(kk) && self@[kk].1 is Some implies exists|i: int|
                        0 <= i < self.expirations@.len() && #[trigger] self.expirations@[i].1@
                            == kk && self.expirations@[i].0 == self@[kk].1->0 by {
                        assert(old(self)@.contains_key(kk) && old(self)@[kk].1 == self@[kk].1);
                    }
                }
            }
        }
        e
    }

    /// Removes both the map entry and the index pair for `key`
    /// atomically, returning the stored bytes if the key was present.
    pub fn delete(&mut self, key: &String) -> (r: Option<Vec<u8>>)
        requires
            old(self).inv(),
        ensures
            final(self).inv(),
            final(self)@ =~= old(self)@.remove(key@),
            match r {
                Option::Some(v) => old(self)@.contains_key(key@) && v@ == old(self)@[key@].0,
                Option::None => !old(self)@.contains_key(key@),
            },
    {
        proof {
            lemma_entries_map_membership(self.entries@);
        }
        match find_entry(&self.entries, key) {
            Some(j) => {
                let e = self.remove_entry_and_pair(j);
                Some(e.data)
            },
            None => {
                proof {
                    assert(!old(self)@.contains_key(key@));
                    assert(final(self)@ =~= old(self)@.remove(key@));
                }
                None
            },
        }
    }
}

} // verus!

verus! {

impl State {
    /// Returns the value stored under `key` when one is present and has
    /// not expired by `now`. An entry whose deadline has passed is never
    /// returned, whether or not the reaper has already swept it.
    pub fn get(&self, key: &String, now: u64) -> (r: Option<Vec<u8>>)
        requires
            self.inv(),
        ensures
            match r {
                Option::Some(v) => self@.contains_key(key@) && live(self@[key@], now) && v@
                    == self@[key@].0,
                Option::None => !(self@.contains_key(key@) && live(self@[key@], now)),
            },
    {
        proof {
            lemma_entries_map_membership(self.entries@);
        }
        match find_entry(&self.entries, key) {
            Some(i) => {
                let e = &self.entries[i].1;
                let expired = match e.expires_at {
                    Some(d) => d <= now,
                    None => false,
                };
                if expired {
                    None
                } else {
                    Some(vstd::slice::slice_to_vec(e.data.as_slice()))
                }
            },
            None => None,
        }
    }

    /// The earliest tracked deadline: what the reaper should sleep
    /// until.
    pub fn next_expiration(&self) -> (r: Option<u64>)
        ensures
            r == self.spec_next_deadline(),
    {
        let n = self.expirations.len();
        if n == 0 {
            return None;
        }
        let mut m = self.expirations[0].0;
        proof {
            assert(self.expirations@.subrange(0, 1).len() == 1);
            assert(self.expirations@.subrange(0, 1)[0] == self.expirations@[0]);
            assert(m == min_deadline(self.expirations@.subrange(0, 1)));
        }
        for i in 1..n
            invariant
                1 <= i <= n,
                n == self.expirations@.len(),
                m == min_deadline(self.expirations@.subrange(0, i as int)),
            decreases n - i,
        {
            let d = self.expirations[i].0;
            proof {
                let pre = self.expirations@.subrange(0, i as int);
                let ext = self.expirations@.subrange(0, i + 1);
                assert(ext.drop_last() =~= pre);
                assert(ext.last() == self.expirations@[i as int]);
            }
            if d < m {
                m = d;
            }
        }
        proof {
            assert(self.expirations@.subrange(0, n as int) =~= self.expirations@);
        }
        Some(m)
    }

    /// Inserts or overwrites `key`. A stale index pair for an
    /// overwritten entry never survives: it is removed before the new
    /// pair, if any, is inserted. Returns whether the new deadline is
    /// now the earliest tracked one (or the first one ever), i.e.
    /// whether the reaper must be woken.
    pub fn set(&mut self, key: String, value: Vec<u8>, expire: Option<u64>, now: u64) -> (notify:
        bool)
        requires
            old(self).inv(),
            expire matches Some(d) ==> now + d <= u64::MAX,
        ensures
            final(self).inv(),
            final(self)@ =~= old(self)@.insert(key@, (value@, spec_deadline(expire, now))),
            notify == (match expire {
                Option::Some(d) => match old(self).spec_next_deadline() {
                    Option::Some(t) => t > now + d,
                    Option::None => true,
                },
                Option::None => false,
            }),
    {
        let mut notify = false;
        let expires_at: Option<u64> = match expire {
            Some(d) => {
                let when = now + d;
                notify = match self.next_expiration() {
                    Some(t) => t > when,
                    None => true,
                };
                Some(when)
            },
            None => None,
        };
        let ghost mid = old(self)@.remove(key@);
        match find_entry(&self.entries, &key) {
            Some(j) => {
                let _old_entry = self.remove_entry_and_pair(j);
                proof {
                    lemma_entries_map_membership(old(self).entries@);
                }
            },
            None => {
                proof {
                    lemma_entries_map_membership(self.entries@);
                    assert(self@ =~= mid);
                }
            },
        }
        proof {
            lemma_entries_map_membership(self.entries@);
            assert(!self@.contains_key(key@));
        }
        let ghost pre_entries = self.entries@;
        let ghost pre_exp = self.expirations@;
        self.entries.push((key, Entry { data: value, expires_at }));
        proof {
            let s = self.entries@;
            assert(s.drop_last() =~= pre_entries);
            assert(keys_unique(s)) by {
                lemma_entries_map_membership(pre_entries);
                assert forall|i: int, j2: int| 0 <= i < j2 < s.len() implies s[i].0@
                    != s[j2].0@ by {
                    if j2 == s.len() - 1 {
                        assert(s[i] == pre_entries[i]);
                        assert(entries_map(pre_entries).contains_key(s[i].0@));
                    } else {
                        assert(s[i] == pre_entries[i]);
                        assert(s[j2] == pre_entries[j2]);
                    }
                }
            }
        }
        let ghost key_view = self.entries@.last().0@;
        match &self.entries[self.entries.len() - 1].1.expires_at {
            Some(d) => {
                let dd = *d;
                let k2 = self.entries[self.entries.len() - 1].0.clone();
                proof {
                    assert(k2@ == key_view);
                }
                self.expirations.push((dd, k2));
                proof {
                    let s = self.entries@;
                    let e = self.expirations@;
                    assert(e.drop_last() =~= pre_exp);
                    lemma_entries_map_membership(pre_entries);
                    assert(self@ == entries_map(pre_entries).insert(
                        key_view,
                        (s.last().1.data@, s.last().1.expires_at),
                    ));
                    assert(exp_keys_unique(e)) by {
                        assert forall|i: int, j2: int| 0 <= i < j2 < e.len() implies e[i].1@
                            != e[j2].1@ by {
                            if j2 == e.len() - 1 {
                                assert(e[i] == pre_exp[i]);
                                assert(entries_map(pre_entries).contains_key(e[i].1@));
                            } else {
                                assert(e[i] == pre_exp[i]);
                                assert(e[j2] == pre_exp[j2]);
                            }
                        }
                    }
                    assert(self.inv()) by {
                        assert forall|i: int|
                            0 <= i < e.len() implies self@.contains_key(#[trigger] e[i].1@)
                            && self@[e[i].1@].1 == Some(e[i].0) by {
                            if i < e.len() - 1 {
                                assert(e[i] == pre_exp[i]);
                                assert(entries_map(pre_entries).contains_key(e[i].1@));
                                assert(e[i].1@ != key_view);
                            }
                        }
                        assert forall|kk: Seq<char>|
                            #![trigger self@[kk]]
                            self@.contains_key(kk) && self@[kk].1 is Some implies exists|i: int|
                            0 <= i < e.len() && #[trigger] e[i].1@ == kk && e[i].0
                                == self@[kk].1->0 by {
                            if kk == key_view {
                                assert(e[e.len() - 1].1@ == kk);
                            } else {
                                let q = choose|q: int|
                                    0 <= q < pre_exp.len() && #[trigger] pre_exp[q].1@ == kk
                                        && pre_exp[q].0 == entries_map(pre_entries)[kk].1->0;
                                assert(e[q] == pre_exp[q]);
                            }
                        }
                    }
                    assert(final(self)@ =~= old(self)@.insert(
                        key@,
                        (value@, spec_deadline(expire, now)),
                    ));
                }
            },
            None => {
                proof {
                    let s = self.entries@;
                    lemma_entries_map_membership(pre_entries);
                    assert(self.inv()) by {
                        assert forall|i: int|
                            0 <= i < self.expirations@.len() implies self@.contains_key(
                            #[trigger] self.expirations@[i].1@,
                        ) && self@[self.expirations@[i].1@].1 == Some(
                            self.expirations@[i].0,
                        ) by {
                            assert(entries_map(pre_entries).contains_key(
                                self.expirations@[i].1@,
                            ));
                            assert(self.expirations@[i].1@ != key_view);
                        }
                        assert forall|kk: Seq<char>|
                            #![trigger self@[kk]]
                            self@.contains_key(kk) && self@[kk].1 is Some implies exists|i: int|
                            0 <= i < self.expirations@.len() && #[trigger] self.expirations@[i].1@
                                == kk && self.expirations@[i].0 == self@[kk].1->0 by {
                            assert(kk != key_view);
                            assert(entries_map(pre_entries).contains_key(kk));
                        }
                    }
                    assert(final(self)@ =~= old(self)@.insert(
                        key@,
                        (value@, spec_deadline(expire, now)),
                    ));
                }
            },
        }
        notify
    }
}

} // verus!

verus! {

impl State {
    /// Removes every entry whose deadline has passed by `now`, map and
    /// index together, and returns the earliest deadline still tracked,
    /// if any; such a deadline always lies in the future, so the caller
    /// can sleep until it (or until woken) without missing an eviction.
    pub fn purge_expired_keys(&mut self, now: u64) -> (r: Option<u64>)
        requires
            old(self).inv(),
        ensures
            final(self).inv(),
            forall|k: Seq<char>|
                #![trigger final(self)@.contains_key(k)]
                final(self)@.contains_key(k) <==> (old(self)@.contains_key(k) && live(
                    old(self)@[k],
                    now,
                )),
            forall|k: Seq<char>|
                #![trigger final(self)@[k]]
                final(self)@.contains_key(k) ==> final(self)@[k] == old(self)@[k],
            r == final(self).spec_next_deadline(),
            r matches Some(t) ==> t > now,
    {
        let mut i: usize = 0;
        while i < self.expirations.len()
            invariant
                self.inv(),
                i <= self.expirations@.len(),
                forall|a: int|
                    #![trigger self.expirations@[a]]
                    0 <= a < i ==> self.expirations@[a].0 > now,
                forall|k: Seq<char>|
                    #![trigger self@.contains_key(k)]
                    self@.contains_key(k) ==> old(self)@.contains_key(k) && self@[k] == old(
                        self,
                    )@[k],
                forall|k: Seq<char>|
                    #![trigger old(self)@.contains_key(k)]
                    old(self)@.contains_key(k) && live(old(self)@[k], now) ==> self@.contains_key(
                        k,
                    ),
            decreases self.expirations@.len() - i,
        {
            if self.expirations[i].0 <= now {
                let kk = self.expirations[i].1.clone();
                let ghost pre = *self;
                proof {
                    lemma_entries_map_membership(self.entries@);
                    assert(pre@.contains_key(kk@));
                }
                match find_entry(&self.entries, &kk) {
                    Some(j) => {
                        let _e = self.remove_entry_and_pair(j);
                        proof {
                            assert(pre.entries@[j as int].0@ == kk@);
                            assert(_e.expires_at == pre@[kk@].1);
                            assert(_e.expires_at is Some);
                            let p = choose|p: int|
                                #![trigger pre.expirations@[p]]
                                0 <= p < pre.expirations@.len() && pre.expirations@[p].0
                                    == _e.expires_at->0 && pre.expirations@[p].1@
                                    == pre.entries@[j as int].0@ && self.expirations@
                                    == pre.expirations@.remove(p);
                            assert(pre.expirations@[i as int].1@ == kk@);
                            assert(p == i);
                            assert forall|a: int|
                                #![trigger self.expirations@[a]]
                                0 <= a < i implies self.expirations@[a].0 > now by {
                                assert(self.expirations@[a] == pre.expirations@[a]);
                            }
                            assert forall|k: Seq<char>|
                                #![trigger old(self)@.contains_key(k)]
                                old(self)@.contains_key(k) && live(old(self)@[k], now) implies self@.contains_key(
                                k,
                            ) by {
                                if k == kk@ {
                                    assert(pre@[kk@].1 == Some(pre.expirations@[i as int].0));
                                    assert(pre@[kk@] == old(self)@[k]);
                                    assert(!live(old(self)@[k], now));
                                } else {
                                    assert(pre@.contains_key(k));
                                }
                            }
                        }
                    },
                    None => {
                        proof {
                            assert(false);
                        }
                    },
                }
            } else {
                i += 1;
            }
        }
        let r = self.next_expiration();
        proof {
            if self.expirations@.len() > 0 {
                lemma_min_deadline(self.expirations@);
                let w = choose|w: int|
                    #![trigger self.expirations@[w]]
                    0 <= w < self.expirations@.len() && self.expirations@[w].0 == min_deadline(
                        self.expirations@,
                    );
                assert(self.expirations@[w].0 > now);
            }
            assert forall|k: Seq<char>|
                #![trigger self@.contains_key(k)]
                self@.contains_key(k) implies (old(self)@.contains_key(k) && live(
                old(self)@[k],
                now,
            )) by {
                if self@[k].1 is Some {
                    let q = choose|q: int|
                        0 <= q < self.expirations@.len() && #[trigger] self.expirations@[q].1@
                            == k && self.expirations@[q].0 == self@[k].1->0;
                    assert(self.expirations@[q].0 > now);
                }
            }
        }
        r
    }
}

} // verus!

verus! {

/// TTL correctness for reads: in the map a set leaves behind, the key
/// reads back exactly the stored value while its deadline has not
/// passed, and reads as absent from the deadline on — whether or not
/// any reaping happened in between, since `get`'s contract never
/// returns an entry whose deadline has passed and `purge_expired_keys`
/// never removes one whose deadline has not.
pub proof fn lemma_ttl_read(
    m: Map<Seq<char>, EntryData>,
    key: Seq<char>,
    value: Seq<u8>,
    when: u64,
    now: u64,
)
    ensures
        ({
            let m2 = m.insert(key, (value, Some(when)));
            &&& (now < when ==> m2.contains_key(key) && live(m2[key], now) && m2[key].0 == value)
            &&& (now >= when ==> !live(m2[key], now))
        }),
{
}

} // verus!
