//! A map of environment variables, from name to value.
use vstd::prelude::*;

verus! {

/// Environment variables: each name has one value.
#[derive(Debug, Clone)]
pub struct EnvMap {
    entries: Vec<(String, String)>,
}

/// No two entries share a name.
pub open spec fn distinct_keys(s: Seq<(String, String)>) -> bool {
    forall|i: int, j: int| 0 <= i < j < s.len() ==> s[i].0@ != s[j].0@
}

/// The map that a list of entries with distinct names describes.
pub open spec fn entries_map(s: Seq<(String, String)>) -> Map<Seq<char>, Seq<char>> {
    Map::new(
        |k: Seq<char>| exists|i: int| 0 <= i < s.len() && s[i].0@ == k,
        |k: Seq<char>| s[choose|i: int| 0 <= i < s.len() && s[i].0@ == k].1@,
    )
}

/// The names of a list of entries, in order.
pub open spec fn entry_keys(s: Seq<(String, String)>) -> Seq<Seq<char>> {
    s.map_values(|p: (String, String)| p.0@)
}

/// Each entry of a list with distinct names is in its map.
pub proof fn lemma_entries_map_at(s: Seq<(String, String)>, i: int)
    requires
        distinct_keys(s),
        0 <= i < s.len(),
    ensures
        entries_map(s).contains_key(s[i].0@),
        entries_map(s)[s[i].0@] == s[i].1@,
{
    let k = s[i].0@;
    assert(exists|j: int| 0 <= j < s.len() && s[j].0@ == k);
    let j = choose|j: int| 0 <= j < s.len() && s[j].0@ == k;
    assert(i == j);
}

/// The map of a list with distinct names has those names as its domain,
/// one per entry.
pub proof fn lemma_entries_map_len(s: Seq<(String, String)>)
    requires
        distinct_keys(s),
    ensures
        entries_map(s).dom() == entry_keys(s).to_set(),
        entries_map(s).dom().finite(),
        entries_map(s).len() == s.len(),
{
    let ks = entry_keys(s);
    assert(entries_map(s).dom() =~= ks.to_set()) by {
        assert forall|k: Seq<char>| entries_map(s).dom().contains(k) implies ks.to_set().contains(
            k,
        ) by {
            let i = choose|i: int| 0 <= i < s.len() && s[i].0@ == k;
            assert(ks[i] == k);
        }
        assert forall|k: Seq<char>| ks.to_set().contains(k) implies entries_map(
            s,
        ).dom().contains(k) by {
            let i = choose|i: int| 0 <= i < ks.len() && ks[i] == k;
            assert(s[i].0@ == k);
        }
    }
    assert(ks.no_duplicates()) by {
        assert forall|i: int, j: int| 0 <= i < ks.len() && 0 <= j < ks.len() && i != j implies ks[i]
            != ks[j] by {
            if i < j {
            } else {
            }
        }
    }
    ks.unique_seq_to_set();
}

impl View for EnvMap {
    type V = Map<Seq<char>, Seq<char>>;

    closed spec fn view(&self) -> Map<Seq<char>, Seq<char>> {
        entries_map(self.entries@)
    }
}

impl EnvMap {
    /// The map is well formed: no name occurs twice.
    pub closed spec fn wf(&self) -> bool {
        distinct_keys(self.entries@)
    }

    /// The entries in the order they were first inserted.
    pub closed spec fn entry_seq(&self) -> Seq<(String, String)> {
        self.entries@
    }

    /// A well-formed map is the map of its entries, one per variable.
    pub proof fn lemma_view(&self)
        requires
            self.wf(),
        ensures
            distinct_keys(self.entry_seq()),
            self@ == entries_map(self.entry_seq()),
            self@.dom().finite(),
            self@.len() == self.entry_seq().len(),
    {
        lemma_entries_map_len(self.entries@);
    }

    /// An empty map.
    pub fn new() -> (r: EnvMap)
        ensures
            r.wf(),
            r@ == Map::<Seq<char>, Seq<char>>::empty(),
    {
        let r = EnvMap { entries: Vec::new() };
        assert(r@ =~= Map::<Seq<char>, Seq<char>>::empty());
        r
    }

    /// The number of variables.
    pub fn len(&self) -> (r: usize)
        requires
            self.wf(),
        ensures
            r == self@.len(),
    {
        proof {
            lemma_entries_map_len(self.entries@);
        }
        self.entries.len()
    }

    /// Whether there are no variables.
    pub fn is_empty(&self) -> (r: bool)
        requires
            self.wf(),
        ensures
            r == (self@.len() == 0),
    {
        self.len() == 0
    }

    /// The entries, each name once, in the order they were first inserted.
    pub fn entries(&self) -> (r: &Vec<(String, String)>)
        ensures
            r@ == self.entry_seq(),
    {
        &self.entries
    }

    fn position(&self, key: &String) -> (r: Option<usize>)
        requires
            self.wf(),
        ensures
            r matches Some(i) ==> i < self.entries@.len() && self.entries@[i as int].0@ == key@,
            r is None ==> !self@.contains_key(key@),
    {
        let mut i: usize = 0;
        while i < self.entries.len()
            invariant
                i <= self.entries@.len(),
                forall|j: int| 0 <= j < i ==> self.entries@[j].0@ != key@,
            decreases self.entries.len() - i,
        {
            if self.entries[i].0 == *key {
                return Some(i);
            }
            i = i + 1;
        }
        None
    }

    /// The value of a variable, if it is set.
    pub fn get(&self, key: &str) -> (r: Option<&String>)
        requires
            self.wf(),
        ensures
            r is Some <==> self@.contains_key(key@),
            r matches Some(v) ==> v@ == self@[key@],
    {
        let k = String::from_str(key);
        match self.position(&k) {
            Some(i) => {
                proof {
                    lemma_entries_map_at(self.entries@, i as int);
                }
                Some(&self.entries[i].1)
            },
            None => None,
        }
    }

    /// Whether a variable is set.
    pub fn contains_key(&self, key: &str) -> (r: bool)
        requires
            self.wf(),
        ensures
            r == self@.contains_key(key@),
    {
        self.get(key).is_some()
    }

    /// Sets a variable, replacing any value it had.
    pub fn insert(&mut self, key: String, value: String)
        requires
            old(self).wf(),
        ensures
            final(self).wf(),
            final(self)@ == old(self)@.insert(key@, value@),
    {
        let ghost old_entries = self.entries@;
        let ghost k = key@;
        let ghost v = value@;
        match self.position(&key) {
            Some(i) => {
                self.entries.set(i, (key, value));
                proof {
                    let s = self.entries@;
                    assert(distinct_keys(s)) by {
                        assert forall|a: int, b: int| 0 <= a < b < s.len() implies s[a].0@
                            != s[b].0@ by {
                            assert(old_entries[a].0@ != old_entries[b].0@);
                        }
                    }
                    assert forall|key2: Seq<char>|
                        #![trigger entries_map(s).contains_key(key2)]
                        entries_map(s).contains_key(key2) == old_entries_map_insert(
                            old_entries,
                            k,
                            v,
                        ).contains_key(key2) by {
                        if key2 == k {
                            lemma_entries_map_at(s, i as int);
                        } else {
                            if entries_map(old_entries).contains_key(key2) {
                                let j = choose|j: int|
                                    0 <= j < old_entries.len() && old_entries[j].0@ == key2;
                                assert(s[j].0@ == key2);
                            }
                            if entries_map(s).contains_key(key2) {
                                let j = choose|j: int| 0 <= j < s.len() && s[j].0@ == key2;
                                assert(old_entries[j].0@ == key2);
                            }
                        }
                    }
                    assert(entries_map(s) =~= entries_map(old_entries).insert(k, v)) by {
                        assert forall|key2: Seq<char>| #[trigger]
                            entries_map(s).contains_key(key2) implies entries_map(s)[key2]
                            == entries_map(old_entries).insert(k, v)[key2] by {
                            let j = choose|j: int| 0 <= j < s.len() && s[j].0@ == key2;
                            lemma_entries_map_at(s, j);
                            if j != i {
                                lemma_entries_map_at(old_entries, j);
                            }
                        }
                    }
                }
            },
            None => {
                self.entries.push((key, value));
                proof {
                    let s = self.entries@;
                    assert(distinct_keys(s)) by {
                        assert forall|a: int, b: int| 0 <= a < b < s.len() implies s[a].0@
                            != s[b].0@ by {
                            if b == s.len() - 1 {
                                lemma_entries_map_at(old_entries, a);
                            }
                        }
                    }
                    assert(entries_map(s) =~= entries_map(old_entries).insert(k, v)) by {
                        assert forall|key2: Seq<char>|
                            entries_map(s).contains_key(key2) <==> entries_map(
                                old_entries,
                            ).insert(k, v).contains_key(key2) by {
                            if entries_map(old_entries).contains_key(key2) {
                                let j = choose|j: int|
                                    0 <= j < old_entries.len() && old_entries[j].0@ == key2;
                                assert(s[j].0@ == key2);
                            }
                            if key2 == k {
                                assert(s[s.len() - 1].0@ == k);
                            }
                            if entries_map(s).contains_key(key2) && key2 != k {
                                let j = choose|j: int| 0 <= j < s.len() && s[j].0@ == key2;
                                assert(old_entries[j].0@ == key2);
                            }
                        }
                        assert forall|key2: Seq<char>| #[trigger]
                            entries_map(s).contains_key(key2) implies entries_map(s)[key2]
                            == entries_map(old_entries).insert(k, v)[key2] by {
                            let j = choose|j: int| 0 <= j < s.len() && s[j].0@ == key2;
                            lemma_entries_map_at(s, j);
                            if j != s.len() - 1 {
                                lemma_entries_map_at(old_entries, j);
                            }
                        }
                    }
                }
            },
        }
    }

    /// A map holding the given pairs; where a name occurs twice the later
    /// value wins.
    pub fn from_pairs(pairs: Vec<(String, String)>) -> (r: EnvMap)
        ensures
            r.wf(),
            r@ == pairs_map(pairs@),
    {
        let mut r = EnvMap::new();
        let ghost ps = pairs@;
        for i in 0..pairs.len()
            invariant
                r.wf(),
                ps == pairs@,
                r@ == pairs_map(ps.take(i as int)),
        {
            let p = &pairs[i];
            proof {
                assert(ps.take(i + 1).drop_last() =~= ps.take(i as int));
                assert(ps.take(i + 1).last() == ps[i as int]);
            }
            r.insert(p.0.clone(), p.1.clone());
        }
        assert(ps.take(ps.len() as int) =~= ps);
        r
    }

    /// A copy of the map.
    pub fn copy(&self) -> (r: EnvMap)
        requires
            self.wf(),
        ensures
            r.wf(),
            r@ == self@,
    {
        let mut entries: Vec<(String, String)> = Vec::new();
        for i in 0..self.entries.len()
            invariant
                entries@.len() == i,
                forall|j: int| 0 <= j < i ==> entries@[j] == self.entries@[j],
        {
            let e = &self.entries[i];
            entries.push((e.0.clone(), e.1.clone()));
        }
        assert(entries@ =~= self.entries@);
        EnvMap { entries }
    }
}

/// The map that a list of pairs describes, later pairs overriding earlier ones.
pub open spec fn pairs_map(ps: Seq<(String, String)>) -> Map<Seq<char>, Seq<char>>
    decreases ps.len(),
{
    if ps.len() == 0 {
        Map::empty()
    } else {
        pairs_map(ps.drop_last()).insert(ps.last().0@, ps.last().1@)
    }
}

spec fn old_entries_map_insert(
    s: Seq<(String, String)>,
    k: Seq<char>,
    v: Seq<char>,
) -> Map<Seq<char>, Seq<char>> {
    entries_map(s).insert(k, v)
}

/// Every variable of `overrides`, over those of `base`: where both set a name,
/// the value from `overrides` wins.
pub fn merge(base: &EnvMap, overrides: &EnvMap) -> (r: EnvMap)
    requires
        base.wf(),
        overrides.wf(),
    ensures
        r.wf(),
        r@ == base@.union_prefer_right(overrides@),
{
    let mut merged = base.copy();
    let entries = overrides.entries();
    proof {
        overrides.lemma_view();
    }
    for i in 0..entries.len()
        invariant
            merged.wf(),
            entries@ == overrides.entry_seq(),
            distinct_keys(entries@),
            overrides@ == entries_map(entries@),
            merged@ == base@.union_prefer_right(entries_map(entries@.take(i as int))),
    {
        let e = &entries[i];
        merged.insert(e.0.clone(), e.1.clone());
        proof {
            let t = entries@.take(i + 1);
            let t0 = entries@.take(i as int);
            assert(distinct_keys(t));
            assert(distinct_keys(t0));
            assert(entries_map(t) =~= entries_map(t0).insert(e.0@, e.1@)) by {
                assert forall|k: Seq<char>|
                    entries_map(t).contains_key(k) <==> entries_map(t0).insert(
                        e.0@,
                        e.1@,
                    ).contains_key(k) by {
                    if entries_map(t).contains_key(k) {
                        let j = choose|j: int| 0 <= j < t.len() && t[j].0@ == k;
                        if j < i {
                            assert(t0[j].0@ == k);
                        }
                    }
                    if entries_map(t0).contains_key(k) {
                        let j = choose|j: int| 0 <= j < t0.len() && t0[j].0@ == k;
                        assert(t[j].0@ == k);
                    }
                    if k == e.0@ {
                        assert(t[i as int].0@ == k);
                    }
                }
                assert forall|k: Seq<char>| #[trigger]
                    entries_map(t).contains_key(k) implies entries_map(t)[k] == entries_map(
                    t0,
                ).insert(e.0@, e.1@)[k] by {
                    let j = choose|j: int| 0 <= j < t.len() && t[j].0@ == k;
                    lemma_entries_map_at(t, j);
                    if j < i {
                        lemma_entries_map_at(t0, j);
                    }
                }
            }
            assert(merged@ =~= base@.union_prefer_right(entries_map(t)));
        }
    }
    assert(entries@.take(entries@.len() as int) =~= entries@);
    merged
}

} // verus!
