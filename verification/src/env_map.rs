//! A snapshot of environment variables, kept in key order, and the layering of
//! overrides over it.
//!
//! The map is an association list sorted by key (the order of `BTreeMap<String,
//! _>`: lexicographic by character). Its view is a `Map` from key to value.

use vstd::prelude::*;

use crate::text::{chars_of, trim, trimmed};

verus! {

/// `a` sorts strictly before `b`: lexicographic order by character, a proper
/// prefix first.
pub open spec fn seq_lt(a: Seq<char>, b: Seq<char>) -> bool
    decreases a.len(),
{
    if b.len() == 0 {
        false
    } else if a.len() == 0 {
        true
    } else if a[0] != b[0] {
        a[0] < b[0]
    } else {
        seq_lt(a.drop_first(), b.drop_first())
    }
}

/// No key sorts before itself.
pub proof fn lemma_seq_lt_irreflexive(a: Seq<char>)
    ensures
        !seq_lt(a, a),
    decreases a.len(),
{
    if a.len() > 0 {
        lemma_seq_lt_irreflexive(a.drop_first());
    }
}

/// Of two different keys, exactly one sorts first.
pub proof fn lemma_seq_lt_total(a: Seq<char>, b: Seq<char>)
    ensures
        a != b ==> (seq_lt(a, b) || seq_lt(b, a)),
        !(seq_lt(a, b) && seq_lt(b, a)),
    decreases a.len(),
{
    if a.len() > 0 && b.len() > 0 && a[0] == b[0] {
        lemma_seq_lt_total(a.drop_first(), b.drop_first());
        if a != b {
            assert(a.drop_first() != b.drop_first()) by {
                if a.drop_first() == b.drop_first() {
                    assert(a =~= seq![a[0]] + a.drop_first());
                    assert(b =~= seq![b[0]] + b.drop_first());
                }
            }
        }
    } else if a.len() == 0 && b.len() == 0 {
        assert(a =~= b);
    }
}

/// The key order is transitive.
pub proof fn lemma_seq_lt_transitive(a: Seq<char>, b: Seq<char>, c: Seq<char>)
    requires
        seq_lt(a, b),
        seq_lt(b, c),
    ensures
        seq_lt(a, c),
    decreases a.len(),
{
    if a.len() > 0 && a[0] == b[0] && b[0] == c[0] {
        lemma_seq_lt_transitive(a.drop_first(), b.drop_first(), c.drop_first());
    }
}

/// Whether `a` sorts strictly before `b`.
fn chars_lt(a: &Vec<char>, b: &Vec<char>) -> (lt: bool)
    ensures
        lt == seq_lt(a@, b@),
{
    let mut i: usize = 0;
    assert(a@.skip(0) == a@ && b@.skip(0) == b@);
    while i < a.len() && i < b.len() && a[i] == b[i]
        invariant
            i <= a@.len(),
            i <= b@.len(),
            seq_lt(a@, b@) == seq_lt(a@.skip(i as int), b@.skip(i as int)),
        decreases a@.len() - i,
    {
        assert(a@.skip(i as int).drop_first() == a@.skip(i + 1));
        assert(b@.skip(i as int).drop_first() == b@.skip(i + 1));
        i = i + 1;
    }
    if i == b.len() {
        false
    } else if i == a.len() {
        true
    } else {
        a[i] < b[i]
    }
}

/// The map that `entries` describes, later entries winning.
pub open spec fn entries_map(entries: Seq<(String, String)>) -> Map<Seq<char>, Seq<char>>
    decreases entries.len(),
{
    if entries.len() == 0 {
        Map::empty()
    } else {
        entries_map(entries.drop_last()).insert(entries.last().0@, entries.last().1@)
    }
}

/// The keys of `entries`, in order.
pub open spec fn entry_keys(entries: Seq<(String, String)>) -> Seq<Seq<char>> {
    entries.map_values(|e: (String, String)| e.0@)
}

/// Keys strictly increasing.
pub open spec fn sorted_keys(keys: Seq<Seq<char>>) -> bool {
    forall|i: int, j: int| 0 <= i < j < keys.len() ==> seq_lt(#[trigger] keys[i], #[trigger] keys[j])
}

/// Distinct positions of strictly increasing keys hold distinct keys.
pub proof fn lemma_sorted_distinct(keys: Seq<Seq<char>>, i: int, j: int)
    requires
        sorted_keys(keys),
        0 <= i < keys.len(),
        0 <= j < keys.len(),
        i != j,
    ensures
        keys[i] != keys[j],
{
    if i < j {
        assert(seq_lt(keys[i], keys[j]));
        lemma_seq_lt_irreflexive(keys[i]);
    } else {
        assert(seq_lt(keys[j], keys[i]));
        lemma_seq_lt_irreflexive(keys[j]);
    }
}

/// With keys strictly increasing, the map has exactly the listed keys, each
/// bound to its entry's value.
pub proof fn lemma_entries_map(entries: Seq<(String, String)>)
    requires
        sorted_keys(entry_keys(entries)),
    ensures
        forall|k: Seq<char>|
            #[trigger] entries_map(entries).contains_key(k) <==> entry_keys(entries).contains(k),
        forall|i: int|
            0 <= i < entries.len() ==> #[trigger] entries_map(entries).contains_key(entries[i].0@)
                && entries_map(entries)[entries[i].0@] == entries[i].1@,
    decreases entries.len(),
{
    let keys = entry_keys(entries);
    if entries.len() > 0 {
        let n = entries.len() - 1;
        let front = entries.drop_last();
        let fkeys = entry_keys(front);
        assert(fkeys =~= keys.drop_last());
        lemma_entries_map(front);
        let last = entries.last();
        assert(keys[n] == last.0@);
        assert(entries_map(entries) == entries_map(front).insert(last.0@, last.1@));
        assert forall|k: Seq<char>| #[trigger]
            entries_map(entries).contains_key(k) <==> keys.contains(k) by {
            if k == last.0@ {
                assert(keys.contains(k));
            } else {
                if keys.contains(k) {
                    let i = choose|i: int| 0 <= i < keys.len() && keys[i] == k;
                    assert(i < n);
                    assert(fkeys[i] == k);
                    assert(fkeys.contains(k));
                }
                if fkeys.contains(k) {
                    let i = choose|i: int| 0 <= i < fkeys.len() && fkeys[i] == k;
                    assert(keys[i] == k);
                }
            }
        }
        assert forall|i: int| 0 <= i < entries.len() implies #[trigger] entries_map(
            entries,
        ).contains_key(entries[i].0@) && entries_map(entries)[entries[i].0@] == entries[i].1@ by {
            if i < n {
                assert(keys[i] == entries[i].0@);
                lemma_sorted_distinct(keys, i, n);
                assert(front[i] == entries[i]);
            }
        }
    } else {
        assert forall|k: Seq<char>| #[trigger]
            entries_map(entries).contains_key(k) <==> keys.contains(k) by {
            assert(keys.len() == 0);
        }
    }
}

/// A snapshot of the environment: names to values, kept sorted by name.
#[derive(Debug)]
pub struct EnvMap {
    entries: Vec<(String, String)>,
}

impl Clone for EnvMap {
    fn clone(&self) -> (out: Self)
        ensures
            out@ == self@,
            out.key_seq() == self.key_seq(),
    {
        proof {
            use_type_invariant(self);
        }
        let mut entries: Vec<(String, String)> = Vec::new();
        let mut i: usize = 0;
        while i < self.entries.len()
            invariant
                i <= self.entries@.len(),
                entries@ == self.entries@.take(i as int),
            decreases self.entries@.len() - i,
        {
            let k = self.entries[i].0.clone();
            let v = self.entries[i].1.clone();
            entries.push((k, v));
            i = i + 1;
            assert(entries@ =~= self.entries@.take(i as int));
        }
        assert(self.entries@.take(self.entries@.len() as int) == self.entries@);
        EnvMap { entries }
    }
}

impl View for EnvMap {
    type V = Map<Seq<char>, Seq<char>>;

    closed spec fn view(&self) -> Map<Seq<char>, Seq<char>> {
        entries_map(self.entries@)
    }
}

impl EnvMap {
    /// The map's invariant: names strictly increasing.
    #[verifier::type_invariant]
    closed spec fn wf(&self) -> bool {
        sorted_keys(entry_keys(self.entries@))
    }

    /// The names, in increasing order.
    pub closed spec fn key_seq(&self) -> Seq<Seq<char>> {
        entry_keys(self.entries@)
    }

    /// An empty snapshot.
    pub fn new() -> (m: EnvMap)
        ensures
            m@ == Map::<Seq<char>, Seq<char>>::empty(),
    {
        EnvMap { entries: Vec::new() }
    }

    /// The number of names.
    pub fn len(&self) -> (n: usize)
        ensures
            n == self@.len(),
    {
        proof {
            use_type_invariant(self);
            lemma_entries_map(self.entries@);
            self.lemma_len();
        }
        self.entries.len()
    }

    proof fn lemma_len(&self)
        requires
            self.wf(),
        ensures
            self@.len() == self.entries@.len(),
            self@.dom().finite(),
    {
        lemma_entries_map(self.entries@);
        let keys = entry_keys(self.entries@);
        assert(self@.dom() =~= keys.to_set());
        assert(keys.no_duplicates()) by {
            assert forall|i: int, j: int| 0 <= i < keys.len() && 0 <= j < keys.len() && i != j
                implies keys[i] != keys[j] by {
                if i < j {
                    assert(seq_lt(keys[i], keys[j]));
                    lemma_seq_lt_irreflexive(keys[i]);
                } else {
                    assert(seq_lt(keys[j], keys[i]));
                    lemma_seq_lt_irreflexive(keys[j]);
                }
            }
        }
        keys.unique_seq_to_set();
    }

    /// The value stored under `key`, if any.
    pub fn get(&self, key: &str) -> (r: Option<&String>)
        ensures
            match r {
                Some(v) => self@.contains_key(key@) && v@ == self@[key@],
                None => !self@.contains_key(key@),
            },
    {
        proof {
            use_type_invariant(self);
            lemma_entries_map(self.entries@);
        }
        let k = chars_of(key);
        let mut i: usize = 0;
        while i < self.entries.len()
            invariant
                self.wf(),
                i <= self.entries@.len(),
                k@ == key@,
                forall|j: int| 0 <= j < i ==> (#[trigger] self.entries@[j]).0@ != key@,
            decreases self.entries@.len() - i,
        {
            let name = chars_of(self.entries[i].0.as_str());
            if !chars_lt(&name, &k) && !chars_lt(&k, &name) {
                proof {
                    lemma_seq_lt_total(name@, k@);
                    assert(self.entries@[i as int].0@ == key@);
                    lemma_entries_map(self.entries@);
                    assert(entries_map(self.entries@).contains_key(self.entries@[i as int].0@));
                }
                return Some(&self.entries[i].1);
            }
            proof {
                lemma_seq_lt_irreflexive(k@);
            }
            i = i + 1;
        }
        proof {
            if entry_keys(self.entries@).contains(key@) {
                let j = choose|j: int|
                    0 <= j < entry_keys(self.entries@).len() && entry_keys(self.entries@)[j]
                        == key@;
                assert(self.entries@[j].0@ == key@);
            }
        }
        None
    }

    /// Binds `key` to `value`, replacing any earlier value.
    pub fn insert(&mut self, key: String, value: String)
        ensures
            final(self)@ == old(self)@.insert(key@, value@),
    {
        proof {
            use_type_invariant(&*self);
        }
        let mut entries: Vec<(String, String)> = Vec::new();
        std::mem::swap(&mut entries, &mut self.entries);
        let ghost before = entries@;
        proof {
            lemma_entries_map(before);
        }
        let k = chars_of(key.as_str());
        let n = entries.len();
        let mut p: usize = 0;
        while p < n && chars_lt(&chars_of(entries[p].0.as_str()), &k)
            invariant
                entries@ == before,
                sorted_keys(entry_keys(before)),
                n == before.len(),
                p <= n,
                k@ == key@,
                forall|j: int| 0 <= j < p ==> seq_lt((#[trigger] before[j]).0@, key@),
            decreases n - p,
        {
            p = p + 1;
        }
        proof {
            assert forall|j: int| p <= j < n implies !seq_lt((#[trigger] before[j]).0@, key@) by {
                if j > p {
                    assert(seq_lt(entry_keys(before)[p as int], entry_keys(before)[j]));
                    if seq_lt(before[j].0@, key@) {
                        lemma_seq_lt_transitive(before[p as int].0@, before[j].0@, key@);
                    }
                }
            }
        }
        if p < n && !chars_lt(&k, &chars_of(entries[p].0.as_str())) {
            proof {
                lemma_seq_lt_total(before[p as int].0@, key@);
            }
            let ghost old_entries = entries@;
            entries.set(p, (key, value));
            proof {
                let after = entries@;
                assert(entry_keys(after) == entry_keys(old_entries)) by {
                    assert(entry_keys(after) =~= entry_keys(old_entries));
                }
                lemma_entries_map(after);
                assert(entries_map(after) =~= entries_map(before).insert(key@, value@)) by {
                    assert forall|kk: Seq<char>| #[trigger]
                        entries_map(after).contains_key(kk) implies entries_map(after)[kk]
                        == entries_map(before).insert(key@, value@)[kk] by {
                        let i = choose|i: int|
                            0 <= i < entry_keys(after).len() && entry_keys(after)[i] == kk;
                        assert(after[i].0@ == kk);
                        lemma_entries_map(before);
                        assert(entries_map(after).contains_key(after[i].0@));
                        if i != p {
                            assert(after[i] == before[i]);
                            assert(entry_keys(before)[i] == before[i].0@);
                            assert(entry_keys(before)[p as int] == before[p as int].0@);
                            lemma_sorted_distinct(entry_keys(before), i, p as int);
                            assert(kk != key@);
                            assert(entries_map(before).contains_key(before[i].0@));
                        }
                    }
                    assert forall|kk: Seq<char>|
                        entries_map(before).insert(key@, value@).contains_key(kk) implies
                        #[trigger] entries_map(after).contains_key(kk) by {
                        if kk != key@ {
                            assert(entry_keys(before).contains(kk));
                        } else {
                            assert(entry_keys(after)[p as int] == key@);
                        }
                    }
                }
            }
        } else {
            proof {
                if p < n {
                    lemma_seq_lt_total(before[p as int].0@, key@);
                }
            }
            entries.insert(p, (key, value));
            proof {
                let after = entries@;
                assert(after == before.insert(p as int, (key, value)));
                assert forall|i: int, j: int| 0 <= i < j < after.len() implies seq_lt(
                    #[trigger] entry_keys(after)[i],
                    #[trigger] entry_keys(after)[j],
                ) by {
                    let ei = entry_keys(after)[i];
                    let ej = entry_keys(after)[j];
                    if j < p {
                        assert(ei == entry_keys(before)[i] && ej == entry_keys(before)[j]);
                    } else if j == p {
                        assert(ei == before[i].0@);
                    } else if i < p {
                        assert(ei == before[i].0@ && ej == before[j - 1].0@);
                        assert(seq_lt(key@, before[j - 1].0@)) by {
                            lemma_seq_lt_total(before[j - 1].0@, key@);
                            if j - 1 > p {
                                assert(seq_lt(entry_keys(before)[p as int], entry_keys(before)[j - 1]));
                                lemma_seq_lt_transitive(key@, before[p as int].0@, before[j - 1].0@);
                            }
                        }
                        lemma_seq_lt_transitive(ei, key@, ej);
                    } else if i == p {
                        assert(ej == before[j - 1].0@);
                        lemma_seq_lt_total(before[j - 1].0@, key@);
                        if j - 1 > p {
                            assert(seq_lt(entry_keys(before)[p as int], entry_keys(before)[j - 1]));
                            lemma_seq_lt_transitive(key@, before[p as int].0@, before[j - 1].0@);
                        }
                    } else {
                        assert(ei == entry_keys(before)[i - 1] && ej == entry_keys(before)[j - 1]);
                    }
                }
                lemma_entries_map(after);
                assert(!entry_keys(before).contains(key@)) by {
                    if entry_keys(before).contains(key@) {
                        let i = choose|i: int|
                            0 <= i < entry_keys(before).len() && entry_keys(before)[i] == key@;
                        assert(before[i].0@ == key@);
                        lemma_seq_lt_irreflexive(key@);
                        if i >= p {
                            if i > p {
                                assert(seq_lt(entry_keys(before)[p as int], entry_keys(before)[i]));
                                lemma_seq_lt_total(before[p as int].0@, key@);
                            }
                        }
                    }
                }
                assert(entries_map(after) =~= entries_map(before).insert(key@, value@)) by {
                    assert forall|kk: Seq<char>| #[trigger]
                        entries_map(after).contains_key(kk) implies entries_map(after)[kk]
                        == entries_map(before).insert(key@, value@)[kk] by {
                        let i = choose|i: int|
                            0 <= i < entry_keys(after).len() && entry_keys(after)[i] == kk;
                        assert(after[i].0@ == kk);
                        lemma_entries_map(before);
                        assert(entries_map(after).contains_key(after[i].0@));
                        if i < p {
                            assert(after[i] == before[i]);
                            assert(entry_keys(before)[i] == kk);
                            assert(kk != key@);
                            assert(entries_map(before).contains_key(before[i].0@));
                        } else if i > p {
                            assert(after[i] == before[i - 1]);
                            assert(entry_keys(before)[i - 1] == kk);
                            assert(kk != key@);
                            assert(entries_map(before).contains_key(before[i - 1].0@));
                        }
                    }
                    assert forall|kk: Seq<char>|
                        entries_map(before).insert(key@, value@).contains_key(kk) implies
                        #[trigger] entries_map(after).contains_key(kk) by {
                        if kk != key@ {
                            assert(entry_keys(before).contains(kk));
                            let i = choose|i: int|
                                0 <= i < entry_keys(before).len() && entry_keys(before)[i] == kk;
                            if i < p {
                                assert(entry_keys(after)[i] == kk);
                            } else {
                                assert(entry_keys(after)[i + 1] == kk);
                            }
                        } else {
                            assert(entry_keys(after)[p as int] == key@);
                        }
                    }
                }
            }
        }
        self.entries = entries;
    }
}

impl EnvMap {
    /// Drops `key` and its value, if present.
    pub fn remove(&mut self, key: &str)
        ensures
            final(self)@ == old(self)@.remove(key@),
    {
        proof {
            use_type_invariant(&*self);
        }
        let mut entries: Vec<(String, String)> = Vec::new();
        std::mem::swap(&mut entries, &mut self.entries);
        let ghost before = entries@;
        proof {
            lemma_entries_map(before);
        }
        let k = chars_of(key);
        let mut i: usize = 0;
        while i < entries.len()
            invariant
                entries@ == before,
                old(self)@ == entries_map(before),
                sorted_keys(entry_keys(before)),
                i <= before.len(),
                k@ == key@,
                forall|j: int| 0 <= j < i ==> (#[trigger] before[j]).0@ != key@,
            decreases before.len() - i,
        {
            let name = chars_of(entries[i].0.as_str());
            if !chars_lt(&name, &k) && !chars_lt(&k, &name) {
                proof {
                    lemma_seq_lt_total(name@, k@);
                }
                entries.remove(i);
                proof {
                    lemma_entries_map(before);
                    let after = entries@;
                    assert(after == before.remove(i as int));
                    let keys = entry_keys(before);
                    let akeys = entry_keys(after);
                    assert forall|a: int, b: int| 0 <= a < b < after.len() implies seq_lt(
                        #[trigger] akeys[a],
                        #[trigger] akeys[b],
                    ) by {
                        let a1 = if a < i { a } else { a + 1 };
                        let b1 = if b < i { b } else { b + 1 };
                        assert(akeys[a] == keys[a1] && akeys[b] == keys[b1]);
                    }
                    lemma_entries_map(after);
                    assert(entries_map(after) =~= entries_map(before).remove(key@)) by {
                        assert forall|kk: Seq<char>| #[trigger]
                            entries_map(after).contains_key(kk) implies kk != key@
                            && entries_map(before).contains_key(kk) && entries_map(after)[kk]
                            == entries_map(before)[kk] by {
                            let a = choose|a: int| 0 <= a < akeys.len() && akeys[a] == kk;
                            let a1 = if a < i { a } else { a + 1 };
                            assert(after[a] == before[a1]);
                            assert(keys[a1] == kk && keys[i as int] == key@);
                            lemma_sorted_distinct(keys, a1, i as int);
                            assert(entries_map(after).contains_key(after[a].0@));
                            assert(entries_map(before).contains_key(before[a1].0@));
                        }
                        assert forall|kk: Seq<char>|
                            entries_map(before).remove(key@).contains_key(kk) implies
                            #[trigger] entries_map(after).contains_key(kk) by {
                            let b = choose|b: int| 0 <= b < keys.len() && keys[b] == kk;
                            assert(b != i);
                            if b < i {
                                assert(akeys[b] == kk);
                            } else {
                                assert(akeys[b - 1] == kk);
                            }
                        }
                    }
                }
                self.entries = entries;
                return;
            }
            proof {
                lemma_seq_lt_irreflexive(k@);
            }
            i = i + 1;
        }
        proof {
            assert(!entry_keys(before).contains(key@)) by {
                if entry_keys(before).contains(key@) {
                    let j = choose|j: int|
                        0 <= j < entry_keys(before).len() && entry_keys(before)[j] == key@;
                    assert(before[j].0@ == key@);
                }
            }
            assert(entries_map(before) =~= entries_map(before).remove(key@));
        }
        self.entries = entries;
    }
}

impl EnvMap {
    /// The names, in increasing order.
    pub fn keys(&self) -> (ks: Vec<String>)
        ensures
            ks@.map_values(|k: String| k@) == self.key_seq(),
            sorted_keys(self.key_seq()),
            forall|k: Seq<char>| #[trigger] self@.contains_key(k) <==> self.key_seq().contains(k),
    {
        proof {
            use_type_invariant(self);
            lemma_entries_map(self.entries@);
        }
        let mut ks: Vec<String> = Vec::new();
        let mut i: usize = 0;
        while i < self.entries.len()
            invariant
                i <= self.entries@.len(),
                ks@.len() == i,
                forall|j: int| 0 <= j < i ==> (#[trigger] ks@[j])@ == self.entries@[j].0@,
            decreases self.entries@.len() - i,
        {
            ks.push(self.entries[i].0.clone());
            i = i + 1;
        }
        assert(ks@.map_values(|k: String| k@) =~= entry_keys(self.entries@));
        ks
    }

    /// A snapshot holding `pairs`, later duplicates winning.
    pub fn from_pairs(pairs: Vec<(String, String)>) -> (m: EnvMap)
        ensures
            m@ == overlay(Map::empty(), pairs@),
    {
        get_env_map(EnvMap::new(), pairs)
    }
}

/// `base` with each of `overrides` bound in turn, so later ones win.
pub open spec fn overlay(base: Map<Seq<char>, Seq<char>>, overrides: Seq<(String, String)>) -> Map<
    Seq<char>,
    Seq<char>,
>
    decreases overrides.len(),
{
    if overrides.len() == 0 {
        base
    } else {
        overlay(base, overrides.drop_last()).insert(overrides.last().0@, overrides.last().1@)
    }
}

/// Layers `overrides` (argv-provided flags) over the `base` snapshot of the
/// environment. The snapshot is taken by value, so the caller's copy and the
/// process environment are untouched.
pub fn get_env_map(base: EnvMap, overrides: Vec<(String, String)>) -> (m: EnvMap)
    ensures
        m@ == overlay(base@, overrides@),
{
    let mut m = base;
    let mut i: usize = 0;
    while i < overrides.len()
        invariant
            i <= overrides@.len(),
            m@ == overlay(base@, overrides@.take(i as int)),
        decreases overrides@.len() - i,
    {
        let k = overrides[i].0.clone();
        let v = overrides[i].1.clone();
        m.insert(k, v);
        proof {
            assert(overrides@.take(i + 1).drop_last() == overrides@.take(i as int));
        }
        i = i + 1;
    }
    assert(overrides@.take(overrides@.len() as int) == overrides@);
    m
}

/// The value of `key` with surrounding whitespace trimmed; a missing name and
/// a value that trims to nothing both read as `None`.
pub fn env_value(env: &EnvMap, key: &str) -> (r: Option<String>)
    ensures
        match r {
            Some(v) => env@.contains_key(key@) && v@ == trimmed(env@[key@]) && v@.len() > 0,
            None => !env@.contains_key(key@) || trimmed(env@[key@]).len() == 0,
        },
{
    match env.get(key) {
        Some(v) => {
            let t = trim(v.as_str());
            let tc = chars_of(t.as_str());
            if tc.len() == 0 {
                None
            } else {
                Some(t)
            }
        },
        None => None,
    }
}

/// What layering overrides gives back: a name that some override binds reads as
/// the value of the last such override; any other name keeps its value (or its
/// absence) from the base snapshot.
pub proof fn lemma_overlay_lookup(
    base: Map<Seq<char>, Seq<char>>,
    overrides: Seq<(String, String)>,
    k: Seq<char>,
)
    ensures
        (forall|i: int| 0 <= i < overrides.len() ==> (#[trigger] overrides[i]).0@ != k) ==> {
            &&& overlay(base, overrides).contains_key(k) == base.contains_key(k)
            &&& base.contains_key(k) ==> overlay(base, overrides)[k] == base[k]
        },
        forall|i: int|
            0 <= i < overrides.len() && (#[trigger] overrides[i]).0@ == k && (forall|j: int|
                i < j < overrides.len() ==> (#[trigger] overrides[j]).0@ != k) ==> {
                &&& overlay(base, overrides).contains_key(k)
                &&& overlay(base, overrides)[k] == overrides[i].1@
            },
    decreases overrides.len(),
{
    if overrides.len() > 0 {
        let front = overrides.drop_last();
        lemma_overlay_lookup(base, front, k);
        assert forall|i: int|
            0 <= i < overrides.len() && (#[trigger] overrides[i]).0@ == k && (forall|j: int|
                i < j < overrides.len() ==> (#[trigger] overrides[j]).0@ != k) implies {
            &&& overlay(base, overrides).contains_key(k)
            &&& overlay(base, overrides)[k] == overrides[i].1@
        } by {
            if i < overrides.len() - 1 {
                assert(front[i] == overrides[i]);
                assert(overrides[overrides.len() - 1].0@ != k);
                assert forall|j: int| i < j < front.len() implies (#[trigger] front[j]).0@ != k by {
                    assert(front[j] == overrides[j]);
                }
            }
        }
        if forall|i: int| 0 <= i < overrides.len() ==> (#[trigger] overrides[i]).0@ != k {
            assert forall|i: int| 0 <= i < front.len() implies (#[trigger] front[i]).0@ != k by {
                assert(front[i] == overrides[i]);
            }
            assert(overrides[overrides.len() - 1].0@ != k);
        }
    }
}

/// A name is bound after layering exactly when the base binds it or some
/// override does.
pub proof fn lemma_overlay_dom(
    base: Map<Seq<char>, Seq<char>>,
    overrides: Seq<(String, String)>,
    k: Seq<char>,
)
    ensures
        overlay(base, overrides).contains_key(k) <==> (base.contains_key(k) || exists|i: int|
            0 <= i < overrides.len() && (#[trigger] overrides[i]).0@ == k),
    decreases overrides.len(),
{
    if overrides.len() > 0 {
        let front = overrides.drop_last();
        lemma_overlay_dom(base, front, k);
        if exists|i: int| 0 <= i < front.len() && (#[trigger] front[i]).0@ == k {
            let i = choose|i: int| 0 <= i < front.len() && (#[trigger] front[i]).0@ == k;
            assert(overrides[i] == front[i]);
        }
        if exists|i: int| 0 <= i < overrides.len() && (#[trigger] overrides[i]).0@ == k {
            let i = choose|i: int| 0 <= i < overrides.len() && (#[trigger] overrides[i]).0@ == k;
            if i < overrides.len() - 1 {
                assert(front[i] == overrides[i]);
            }
        }
    }
}

} // verus!
