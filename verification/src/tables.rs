//! Cost tables for the weighted distance: a per-character table for
//! insertion and deletion costs, and a per-character-pair table for
//! substitution costs. Each table is modelled as a map from its key to a
//! fixed-point cost.

use vstd::prelude::*;

verus! {

/// The map described by a sequence of key/value entries, later entries
/// overriding earlier ones.
pub open spec fn map_of<K, V>(entries: Seq<(K, V)>) -> Map<K, V>
    decreases entries.len(),
{
    if entries.len() == 0 {
        Map::empty()
    } else {
        map_of(entries.drop_last()).insert(entries.last().0, entries.last().1)
    }
}

proof fn lemma_map_of_contains<K, V>(entries: Seq<(K, V)>, k: K)
    ensures
        map_of(entries).contains_key(k) <==> (exists|i: int|
            0 <= i < entries.len() && entries[i].0 == k),
    decreases entries.len(),
{
    if entries.len() == 0 {
    } else {
        let e1 = entries.drop_last();
        lemma_map_of_contains(e1, k);
        if entries.last().0 == k {
            assert(entries[entries.len() - 1].0 == k);
        } else {
            if exists|i: int| 0 <= i < entries.len() && entries[i].0 == k {
                let i = choose|i: int| 0 <= i < entries.len() && entries[i].0 == k;
                assert(i < entries.len() - 1);
                assert(e1[i].0 == k);
            }
        }
    }
}

proof fn lemma_map_of_get<K, V>(entries: Seq<(K, V)>, k: K, i: int)
    requires
        0 <= i < entries.len(),
        entries[i].0 == k,
        forall|t: int| i < t < entries.len() ==> entries[t].0 != k,
    ensures
        map_of(entries).contains_key(k),
        map_of(entries)[k] == entries[i].1,
    decreases entries.len(),
{
    if i == entries.len() - 1 {
    } else {
        assert(entries[entries.len() - 1].0 != k);
        let e1 = entries.drop_last();
        assert(e1[i].0 == k);
        assert forall|t: int| i < t < e1.len() implies e1[t].0 != k by {
            assert(e1[t] == entries[t]);
        }
        lemma_map_of_get(e1, k, i);
    }
}

/// A table of per-character costs, for the insertion or the deletion role.
/// Costs are fixed-point numbers in thousandths; see `COST_ONE`.
pub struct CostTable {
    entries: Vec<(char, u64)>,
}

impl View for CostTable {
    type V = Map<char, u64>;

    closed spec fn view(&self) -> Map<char, u64> {
        map_of(self.entries@)
    }
}

impl CostTable {
    /// An empty table, holding no entry at all.
    pub fn new() -> (t: CostTable)
        ensures
            t@ == Map::<char, u64>::empty(),
    {
        CostTable { entries: Vec::new() }
    }

    /// Sets the cost of `c`, replacing any earlier entry for it.
    pub fn insert(&mut self, c: char, cost: u64)
        ensures
            final(self)@ == old(self)@.insert(c, cost),
    {
        self.entries.push((c, cost));
        proof {
            assert(self.entries@.drop_last() =~= old(self).entries@);
        }
    }

    /// The cost recorded for `c`, or `None` when the table has no entry.
    pub fn get(&self, c: char) -> (r: Option<u64>)
        ensures
            r == (if self@.contains_key(c) {
                Some(self@[c])
            } else {
                None::<u64>
            }),
    {
        let mut i = self.entries.len();
        while i > 0
            invariant
                i <= self.entries@.len(),
                forall|t: int| i <= t < self.entries@.len() ==> self.entries@[t].0 != c,
            decreases i,
        {
            i = i - 1;
            let e = self.entries[i];
            if e.0 == c {
                proof {
                    lemma_map_of_get(self.entries@, c, i as int);
                }
                return Some(e.1);
            }
        }
        proof {
            lemma_map_of_contains(self.entries@, c);
        }
        None
    }

    /// True when the table has an entry for `c`.
    pub fn contains(&self, c: char) -> (r: bool)
        ensures
            r == self@.contains_key(c),
    {
        self.get(c).is_some()
    }
}

/// The same pair-keyed map with every key reversed: the entry for `(x, y)`
/// becomes the entry for `(y, x)`.
pub open spec fn flip_pair_map(m: Map<(char, char), u64>) -> Map<(char, char), u64> {
    Map::new(|p: (char, char)| m.contains_key((p.1, p.0)), |p: (char, char)| m[(p.1, p.0)])
}

proof fn lemma_map_of_flip(orig: Seq<((char, char), u64)>, flip: Seq<((char, char), u64)>)
    requires
        flip.len() == orig.len(),
        forall|k: int|
            0 <= k < orig.len() ==> flip[k] == (
                ((#[trigger] orig[k]).0.1, orig[k].0.0),
                orig[k].1,
            ),
    ensures
        map_of(flip) == flip_pair_map(map_of(orig)),
    decreases orig.len(),
{
    if orig.len() == 0 {
        assert(map_of(flip) =~= flip_pair_map(map_of(orig)));
    } else {
        let o1 = orig.drop_last();
        let f1 = flip.drop_last();
        assert forall|k: int| 0 <= k < o1.len() implies f1[k] == (
            ((#[trigger] o1[k]).0.1, o1[k].0.0),
            o1[k].1,
        ) by {
            assert(o1[k] == orig[k]);
            assert(f1[k] == flip[k]);
        }
        lemma_map_of_flip(o1, f1);
        assert(orig.last() == orig[orig.len() - 1]);
        assert(flip.last() == flip[orig.len() - 1]);
        assert(map_of(flip) =~= flip_pair_map(map_of(orig)));
    }
}

/// A table of per-character-pair substitution costs, keyed by the ordered
/// pair (character replaced, character written). Costs are fixed-point
/// numbers in thousandths; see `COST_ONE`.
pub struct SubstTable {
    entries: Vec<((char, char), u64)>,
}

impl View for SubstTable {
    type V = Map<(char, char), u64>;

    closed spec fn view(&self) -> Map<(char, char), u64> {
        map_of(self.entries@)
    }
}

impl SubstTable {
    /// An empty table, holding no entry at all.
    pub fn new() -> (t: SubstTable)
        ensures
            t@ == Map::<(char, char), u64>::empty(),
    {
        SubstTable { entries: Vec::new() }
    }

    /// Sets the cost of substituting `to` for `from`, replacing any earlier
    /// entry for that pair.
    pub fn insert(&mut self, from: char, to: char, cost: u64)
        ensures
            final(self)@ == old(self)@.insert((from, to), cost),
    {
        self.entries.push(((from, to), cost));
        proof {
            assert(self.entries@.drop_last() =~= old(self).entries@);
        }
    }

    /// The cost recorded for the pair `(from, to)`, or `None` when the
    /// table has no entry for it.
    pub fn get(&self, from: char, to: char) -> (r: Option<u64>)
        ensures
            r == (if self@.contains_key((from, to)) {
                Some(self@[(from, to)])
            } else {
                None::<u64>
            }),
    {
        let mut i = self.entries.len();
        while i > 0
            invariant
                i <= self.entries@.len(),
                forall|t: int| i <= t < self.entries@.len() ==> self.entries@[t].0 != (from, to),
            decreases i,
        {
            i = i - 1;
            let e = self.entries[i];
            if e.0.0 == from && e.0.1 == to {
                proof {
                    assert(e.0 == (from, to));
                    lemma_map_of_get(self.entries@, (from, to), i as int);
                }
                return Some(e.1);
            }
        }
        proof {
            lemma_map_of_contains(self.entries@, (from, to));
        }
        None
    }

    /// True when the table has an entry for the pair `(from, to)`.
    pub fn contains(&self, from: char, to: char) -> (r: bool)
        ensures
            r == self@.contains_key((from, to)),
    {
        self.get(from, to).is_some()
    }

    /// The same table with every pair reversed: what this table records for
    /// `(x, y)`, the result records for `(y, x)`.
    pub fn flipped(&self) -> (t: SubstTable)
        ensures
            t@ == flip_pair_map(self@),
    {
        let mut entries: Vec<((char, char), u64)> = Vec::new();
        let mut i: usize = 0;
        while i < self.entries.len()
            invariant
                i <= self.entries@.len(),
                entries@.len() == i,
                forall|k: int|
                    0 <= k < i ==> entries@[k] == (
                        ((#[trigger] self.entries@[k]).0.1, self.entries@[k].0.0),
                        self.entries@[k].1,
                    ),
            decreases self.entries@.len() - i,
        {
            let e = self.entries[i];
            entries.push(((e.0.1, e.0.0), e.1));
            i = i + 1;
        }
        let t = SubstTable { entries };
        proof {
            lemma_map_of_flip(self.entries@, t.entries@);
        }
        t
    }
}

} // verus!
