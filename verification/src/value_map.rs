//! The parameter values that an application returns: a map from names to
//! values in which a later pair with the same name replaces an earlier one.

use vstd::prelude::*;

verus! {

/// The map that a sequence of name/value entries stands for: each entry in
/// turn is inserted, so a later entry wins over an earlier one of its name.
pub open spec fn entries_map(s: Seq<(String, String)>) -> Map<Seq<char>, Seq<char>>
    decreases s.len(),
{
    if s.len() == 0 {
        Map::empty()
    } else {
        entries_map(s.drop_last()).insert(s.last().0@, s.last().1@)
    }
}

/// No two entries carry the same name.
pub open spec fn names_distinct(s: Seq<(String, String)>) -> bool {
    forall|i: int, j: int| 0 <= i < j < s.len() ==> s[i].0@ != s[j].0@
}

/// The names of an entry sequence are the keys of its map, and each entry's
/// value is the map's value under its name.
pub proof fn lemma_entries_map_index(s: Seq<(String, String)>)
    requires
        names_distinct(s),
    ensures
        forall|k: Seq<char>|
            #![trigger entries_map(s).dom().contains(k)]
            entries_map(s).dom().contains(k) <==> exists|i: int| 0 <= i < s.len() && s[i].0@ == k,
        forall|i: int| 0 <= i < s.len() ==> #[trigger] entries_map(s)[s[i].0@] == s[i].1@,
    decreases s.len(),
{
    if s.len() > 0 {
        let p = s.drop_last();
        assert(names_distinct(p));
        lemma_entries_map_index(p);
        assert forall|k: Seq<char>|
            #![trigger entries_map(s).dom().contains(k)]
            entries_map(s).dom().contains(k) <==> exists|i: int|
                0 <= i < s.len() && s[i].0@ == k by {
            if entries_map(s).dom().contains(k) {
                if k == s.last().0@ {
                    assert(s[s.len() - 1].0@ == k);
                } else {
                    assert(entries_map(p).dom().contains(k));
                    let i = choose|i: int| 0 <= i < p.len() && p[i].0@ == k;
                    assert(s[i] == p[i]);
                }
            }
            if exists|i: int| 0 <= i < s.len() && s[i].0@ == k {
                let i = choose|i: int| 0 <= i < s.len() && s[i].0@ == k;
                if i < s.len() - 1 {
                    assert(p[i] == s[i]);
                    assert(entries_map(p).dom().contains(k));
                }
            }
        }
        assert forall|i: int| 0 <= i < s.len() implies #[trigger] entries_map(s)[s[i].0@]
            == s[i].1@ by {
            if i < s.len() - 1 {
                assert(p[i] == s[i]);
                assert(entries_map(p)[p[i].0@] == p[i].1@);
            }
        }
    }
}

/// Replacing the entry of a name that occurs gives the map with that name
/// bound to the new value.
proof fn lemma_entries_map_update(s: Seq<(String, String)>, i: int, e: (String, String))
    requires
        names_distinct(s),
        0 <= i < s.len(),
        s[i].0@ == e.0@,
    ensures
        entries_map(s.update(i, e)) == entries_map(s).insert(e.0@, e.1@),
        names_distinct(s.update(i, e)),
    decreases s.len(),
{
    let t = s.update(i, e);
    if i == s.len() - 1 {
        assert(t.drop_last() =~= s.drop_last());
        assert(entries_map(t) =~= entries_map(s).insert(e.0@, e.1@));
    } else {
        let p = s.drop_last();
        assert(t.drop_last() =~= p.update(i, e));
        lemma_entries_map_update(p, i, e);
        assert(s.last().0@ != e.0@);
        assert(entries_map(t) =~= entries_map(s).insert(e.0@, e.1@));
    }
}

/// A map from parameter names to values, kept as entries with distinct names.
pub struct ValueMap {
    entries: Vec<(String, String)>,
}

impl View for ValueMap {
    type V = Map<Seq<char>, Seq<char>>;

    closed spec fn view(&self) -> Map<Seq<char>, Seq<char>> {
        entries_map(self.entries@)
    }
}

impl ValueMap {
    #[verifier::type_invariant]
    spec fn distinct(&self) -> bool {
        names_distinct(self.entries@)
    }

    /// The empty map.
    pub fn new() -> (r: Self)
        ensures
            r@ == Map::<Seq<char>, Seq<char>>::empty(),
    {
        ValueMap { entries: Vec::new() }
    }

    /// The number of names in the map.
    pub fn len(&self) -> (n: usize)
        ensures
            n == self@.dom().len(),
    {
        proof {
            use_type_invariant(self);
            lemma_entries_map_len(self.entries@);
        }
        self.entries.len()
    }

    /// Binds `name` to `value`, replacing an earlier value of `name`.
    pub fn insert(&mut self, name: String, value: String)
        ensures
            final(self)@ == old(self)@.insert(name@, value@),
    {
        proof {
            use_type_invariant(&*self);
        }
        let mut entries: Vec<(String, String)> = Vec::new();
        std::mem::swap(&mut entries, &mut self.entries);
        let ghost old_entries = entries@;
        assert(old_entries == old(self).entries@);
        let n = entries.len();
        let mut i: usize = 0;
        while i < n
            invariant
                n == entries@.len(),
                entries@ == old_entries,
                names_distinct(old_entries),
                0 <= i <= n,
                forall|j: int| 0 <= j < i ==> entries@[j].0@ != name@,
            ensures
                0 <= i <= n,
                entries@ == old_entries,
                forall|j: int| 0 <= j < i ==> entries@[j].0@ != name@,
                i < n ==> entries@[i as int].0@ == name@,
            decreases n - i,
        {
            if entries[i].0 == name {
                break;
            }
            i += 1;
        }
        let ghost e = (name, value);
        if i < n {
            proof {
                lemma_entries_map_update(old_entries, i as int, e);
            }
            entries.set(i, (name, value));
            assert(entries@ == old_entries.update(i as int, e));
        } else {
            proof {
                assert(names_distinct(old_entries.push(e)));
                assert(old_entries.push(e).drop_last() =~= old_entries);
            }
            entries.push((name, value));
        }
        self.entries = entries;
    }

    /// The value bound to `name`, if any.
    pub fn get(&self, name: &String) -> (r: Option<&String>)
        ensures
            r is Some <==> self@.dom().contains(name@),
            r matches Some(v) ==> v@ == self@[name@],
    {
        proof {
            use_type_invariant(self);
        }
        let n = self.entries.len();
        let mut i: usize = 0;
        while i < n
            invariant
                n == self.entries@.len(),
                names_distinct(self.entries@),
                0 <= i <= n,
                forall|j: int| 0 <= j < i ==> self.entries@[j].0@ != name@,
            decreases n - i,
        {
            if self.entries[i].0 == *name {
                proof {
                    lemma_entries_map_index(self.entries@);
                    assert(self.entries@[i as int].0@ == name@);
                }
                return Some(&self.entries[i].1);
            }
            i += 1;
        }
        proof {
            lemma_entries_map_index(self.entries@);
        }
        None
    }

    /// The entries of the map, each name once.
    pub fn into_entries(self) -> (r: Vec<(String, String)>)
        ensures
            entries_map(r@) == self@,
            names_distinct(r@),
    {
        proof {
            use_type_invariant(&self);
        }
        self.entries
    }
}

/// A map built from entries with distinct names has as many keys as entries.
proof fn lemma_entries_map_len(s: Seq<(String, String)>)
    requires
        names_distinct(s),
    ensures
        entries_map(s).dom().finite(),
        entries_map(s).dom().len() == s.len(),
    decreases s.len(),
{
    if s.len() > 0 {
        let p = s.drop_last();
        assert(names_distinct(p));
        lemma_entries_map_len(p);
        lemma_entries_map_index(p);
        assert(!entries_map(p).dom().contains(s.last().0@)) by {
            if entries_map(p).dom().contains(s.last().0@) {
                let i = choose|i: int| 0 <= i < p.len() && p[i].0@ == s.last().0@;
                assert(s[i] == p[i]);
            }
        }
    }
}

} // verus!
