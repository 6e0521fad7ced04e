//! Label mappings: the key/value sets attached to cluster resources.
//!
//! `LabelMap` stores each key at most once and is viewed in specifications
//! as a `Map<Seq<char>, Seq<char>>` from key text to value text.

use vstd::prelude::*;

verus! {

/// A mapping from label keys to label values; each key is held at most once.
#[derive(Debug, Clone)]
pub struct LabelMap {
    entries: Vec<(String, String)>,
}

/// The mathematical map described by a sequence of key/value pairs,
/// later pairs winning.
pub open spec fn map_of(entries: Seq<(String, String)>) -> Map<Seq<char>, Seq<char>>
    decreases entries.len(),
{
    if entries.len() == 0 {
        Map::empty()
    } else {
        map_of(entries.drop_last()).insert(entries.last().0@, entries.last().1@)
    }
}

/// No two pairs of the sequence share a key.
pub open spec fn distinct_keys(entries: Seq<(String, String)>) -> bool {
    forall|i: int, j: int|
        0 <= i < j < entries.len() ==> entries[i].0@ != entries[j].0@
}

pub proof fn lemma_map_of_contains(entries: Seq<(String, String)>, k: Seq<char>)
    ensures
        map_of(entries).contains_key(k) <==> exists|i: int|
            0 <= i < entries.len() && entries[i].0@ == k,
    decreases entries.len(),
{
    if entries.len() > 0 {
        lemma_map_of_contains(entries.drop_last(), k);
        if entries.last().0@ == k {
            assert(entries[entries.len() - 1].0@ == k);
        } else {
            if map_of(entries).contains_key(k) {
                let i = choose|i: int| 0 <= i < entries.drop_last().len()
                    && entries.drop_last()[i].0@ == k;
                assert(entries[i].0@ == k);
            }
            if exists|i: int| 0 <= i < entries.len() && entries[i].0@ == k {
                let i = choose|i: int| 0 <= i < entries.len() && entries[i].0@ == k;
                assert(entries.drop_last()[i].0@ == k);
            }
        }
    }
}

pub proof fn lemma_map_of_value(entries: Seq<(String, String)>, i: int)
    requires
        distinct_keys(entries),
        0 <= i < entries.len(),
    ensures
        map_of(entries).contains_key(entries[i].0@),
        map_of(entries)[entries[i].0@] == entries[i].1@,
    decreases entries.len(),
{
    lemma_map_of_contains(entries, entries[i].0@);
    if i < entries.len() - 1 {
        assert(entries.last().0@ != entries[i].0@);
        assert(entries.drop_last()[i] == entries[i]);
        lemma_map_of_value(entries.drop_last(), i);
    }
}

pub proof fn lemma_map_of_len(entries: Seq<(String, String)>)
    requires
        distinct_keys(entries),
    ensures
        map_of(entries).dom().finite(),
        map_of(entries).dom().len() == entries.len(),
    decreases entries.len(),
{
    if entries.len() > 0 {
        lemma_map_of_len(entries.drop_last());
        lemma_map_of_contains(entries.drop_last(), entries.last().0@);
        assert(forall|i: int|
            0 <= i < entries.drop_last().len() ==> entries.drop_last()[i].0@
                != entries.last().0@);
        assert(!map_of(entries.drop_last()).contains_key(entries.last().0@));
        vstd::set::axiom_set_insert_len(
            map_of(entries.drop_last()).dom(),
            entries.last().0@,
        );
        assert(map_of(entries).dom() =~= map_of(entries.drop_last()).dom().insert(
            entries.last().0@,
        ));
    } else {
        assert(map_of(entries).dom() =~= Set::<Seq<char>>::empty());
    }
}

pub proof fn lemma_map_of_push_new(pre: Seq<(String, String)>, k: String, v: String)
    requires
        distinct_keys(pre),
        forall|i: int| 0 <= i < pre.len() ==> pre[i].0@ != k@,
    ensures
        distinct_keys(pre.push((k, v))),
        map_of(pre.push((k, v))) == map_of(pre).insert(k@, v@),
{
    let post = pre.push((k, v));
    assert(post.drop_last() =~= pre);
    assert forall|a: int, b: int| 0 <= a < b < post.len() implies post[a].0@ != post[b].0@ by {
        if b < post.len() - 1 {
            assert(post[a] == pre[a] && post[b] == pre[b]);
        } else {
            assert(post[a] == pre[a]);
        }
    }
}

pub proof fn lemma_map_of_remove(pre: Seq<(String, String)>, pos: int)
    requires
        distinct_keys(pre),
        0 <= pos < pre.len(),
    ensures
        distinct_keys(pre.remove(pos)),
        map_of(pre.remove(pos)) == map_of(pre).remove(pre[pos].0@),
    decreases pre.len(),
{
    let k = pre[pos].0@;
    let post = pre.remove(pos);
    assert forall|a: int, b: int| 0 <= a < b < post.len() implies post[a].0@ != post[b].0@ by {
        let fa: int = if a < pos { a } else { a + 1 };
        let fb: int = if b < pos { b } else { b + 1 };
        assert(post[a] == pre[fa] && post[b] == pre[fb]);
    }
    if pos == pre.len() - 1 {
        assert(post =~= pre.drop_last());
        lemma_map_of_contains(pre.drop_last(), k);
        assert forall|i: int| 0 <= i < pre.drop_last().len() implies pre.drop_last()[i].0@ != k by {
            assert(pre.drop_last()[i] == pre[i]);
        }
        assert(!map_of(pre.drop_last()).contains_key(k));
        assert(map_of(pre.drop_last()) =~= map_of(pre.drop_last()).insert(
            pre.last().0@,
            pre.last().1@,
        ).remove(k));
    } else {
        assert(post.drop_last() =~= pre.drop_last().remove(pos));
        assert(post.last() == pre.last());
        assert forall|a: int, b: int|
            0 <= a < b < pre.drop_last().len() implies pre.drop_last()[a].0@
            != pre.drop_last()[b].0@ by {
            assert(pre.drop_last()[a] == pre[a] && pre.drop_last()[b] == pre[b]);
        }
        lemma_map_of_remove(pre.drop_last(), pos);
        assert(pre.drop_last()[pos] == pre[pos]);
        assert(map_of(post) == map_of(pre.drop_last()).remove(k).insert(
            pre.last().0@,
            pre.last().1@,
        ));
        assert(pre.last().0@ != k);
        assert(map_of(pre.drop_last()).remove(k).insert(pre.last().0@, pre.last().1@)
            =~= map_of(pre.drop_last()).insert(pre.last().0@, pre.last().1@).remove(k));
    }
}

pub proof fn lemma_map_of_update(pre: Seq<(String, String)>, pos: int, k: String, v: String)
    requires
        distinct_keys(pre),
        0 <= pos < pre.len(),
        pre[pos].0@ == k@,
    ensures
        distinct_keys(pre.remove(pos).push((k, v))),
        map_of(pre.remove(pos).push((k, v))) == map_of(pre).insert(k@, v@),
{
    lemma_map_of_remove(pre, pos);
    let mid = pre.remove(pos);
    assert forall|i: int| 0 <= i < mid.len() implies mid[i].0@ != k@ by {
        let fi: int = if i < pos { i } else { i + 1 };
        assert(mid[i] == pre[fi]);
    }
    lemma_map_of_push_new(mid, k, v);
    assert(map_of(pre).remove(k@).insert(k@, v@) =~= map_of(pre).insert(k@, v@));
}

impl View for LabelMap {
    type V = Map<Seq<char>, Seq<char>>;

    closed spec fn view(&self) -> Map<Seq<char>, Seq<char>> {
        map_of(self.entries@)
    }
}

impl LabelMap {
    /// The pairs in their stored order; the order matters only to callers
    /// that render the mapping as text.
    pub closed spec fn pairs(&self) -> Seq<(String, String)> {
        self.entries@
    }

    pub closed spec fn wf(&self) -> bool {
        distinct_keys(self.entries@)
    }

    pub fn new() -> (r: LabelMap)
        ensures
            r@ == Map::<Seq<char>, Seq<char>>::empty(),
            r.wf(),
            r.pairs().len() == 0,
    {
        LabelMap { entries: Vec::new() }
    }

    /// The position of the pair holding `k`, if one does.
    fn position_of(&self, k: &str) -> (r: Option<usize>)
        ensures
            match r {
                Some(i) => 0 <= i < self.entries@.len() && self.entries@[i as int].0@ == k@,
                None => forall|i: int| 0 <= i < self.entries@.len() ==> self.entries@[i].0@ != k@,
            },
    {
        let key = k.to_owned();
        let n = self.entries.len();
        let mut i: usize = 0;
        while i < n
            invariant
                0 <= i <= n,
                n == self.entries@.len(),
                key@ == k@,
                forall|j: int| 0 <= j < i ==> self.entries@[j].0@ != k@,
            decreases n - i,
        {
            if self.entries[i].0 == key {
                return Some(i);
            }
            i = i + 1;
        }
        None
    }

    pub fn contains_key(&self, k: &str) -> (r: bool)
        ensures
            r == self@.contains_key(k@),
    {
        proof {
            lemma_map_of_contains(self.entries@, k@);
        }
        self.position_of(k).is_some()
    }

    pub fn get<'a>(&'a self, k: &str) -> (r: Option<&'a String>)
        requires
            self.wf(),
        ensures
            r is Some <==> self@.contains_key(k@),
            r matches Some(v) ==> self@[k@] == v@,
    {
        proof {
            lemma_map_of_contains(self.entries@, k@);
        }
        match self.position_of(k) {
            Some(i) => {
                proof {
                    lemma_map_of_value(self.entries@, i as int);
                }
                Some(&self.entries[i].1)
            },
            None => None,
        }
    }

    /// Inserts or replaces the value held under `k`.
    pub fn insert(&mut self, k: String, v: String)
        requires
            old(self).wf(),
        ensures
            final(self).wf(),
            final(self)@ == old(self)@.insert(k@, v@),
    {
        let ghost pre = self.entries@;
        match self.position_of(k.as_str()) {
            Some(i) => {
                let ghost pos = i as int;
                let ghost kg = k;
                let ghost vg = v;
                let _ = self.entries.remove(i);
                self.entries.push((k, v));
                proof {
                    lemma_map_of_update(pre, pos, kg, vg);
                    assert(self.entries@ =~= pre.remove(pos).push((kg, vg)));
                }
            },
            None => {
                let ghost kg = k;
                let ghost vg = v;
                self.entries.push((k, v));
                proof {
                    lemma_map_of_push_new(pre, kg, vg);
                    assert(self.entries@ =~= pre.push((kg, vg)));
                }
            },
        }
    }

    /// Removes the pair holding `k`, handing back its value.
    pub fn remove(&mut self, k: &str) -> (r: Option<String>)
        requires
            old(self).wf(),
        ensures
            final(self).wf(),
            final(self)@ == old(self)@.remove(k@),
            r is Some <==> old(self)@.contains_key(k@),
            r matches Some(v) ==> old(self)@[k@] == v@,
    {
        let ghost pre = self.entries@;
        proof {
            lemma_map_of_contains(pre, k@);
        }
        match self.position_of(k) {
            Some(i) => {
                proof {
                    lemma_map_of_value(pre, i as int);
                    lemma_map_of_remove(pre, i as int);
                }
                let pair = self.entries.remove(i);
                Some(pair.1)
            },
            None => {
                proof {
                    assert(map_of(pre) =~= map_of(pre).remove(k@));
                }
                None
            },
        }
    }

    /// How many keys the mapping holds.
    pub fn len(&self) -> (r: usize)
        requires
            self.wf(),
        ensures
            r == self@.dom().len(),
            self@.dom().finite(),
    {
        proof {
            lemma_map_of_len(self.entries@);
        }
        self.entries.len()
    }

    pub fn is_empty(&self) -> (r: bool)
        requires
            self.wf(),
        ensures
            r == (self@ == Map::<Seq<char>, Seq<char>>::empty()),
    {
        proof {
            lemma_map_of_len(self.entries@);
            if self.entries@.len() == 0 {
                assert(self@ =~= Map::<Seq<char>, Seq<char>>::empty());
            } else {
                lemma_map_of_value(self.entries@, 0);
            }
        }
        self.entries.is_empty()
    }

    /// The pair at position `i`, for callers that walk the mapping in order.
    pub fn pair_at(&self, i: usize) -> (r: (&String, &String))
        requires
            i < self.pairs().len(),
        ensures
            r.0 == self.pairs()[i as int].0,
            r.1 == self.pairs()[i as int].1,
    {
        let pair = &self.entries[i];
        (&pair.0, &pair.1)
    }

    /// How many pairs the mapping stores; equal to the number of keys.
    pub fn pair_count(&self) -> (r: usize)
        ensures
            r == self.pairs().len(),
    {
        self.entries.len()
    }
}

} // verus!
