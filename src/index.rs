//! The in-memory index: each live key and the position of its latest record,
//! kept in ascending key order, with ordered scans over a snapshot of it.
use vstd::prelude::*;
use vstd::slice::slice_to_vec;

use crate::config::IteratorConfig;
use crate::order::{compare, has_prefix, lemma_cmp_zero, lemma_lt_total, lemma_lt_trans, lex_lt, starts_with};
use crate::record::RecordPos;

verus! {

#[derive(Clone, Copy, Debug, PartialEq, Eq, Structural)]
pub enum IndexType {
    BTree,
}

/// Keys strictly ascending.
pub open spec fn ascending(items: Seq<(Vec<u8>, RecordPos)>) -> bool {
    forall|i: int, j: int|
        0 <= i < j < items.len() ==> lex_lt(#[trigger] items[i].0@, #[trigger] items[j].0@)
}

/// Keys strictly descending.
pub open spec fn descending(items: Seq<(Vec<u8>, RecordPos)>) -> bool {
    forall|i: int, j: int|
        0 <= i < j < items.len() ==> lex_lt(#[trigger] items[j].0@, #[trigger] items[i].0@)
}

pub open spec fn ordered(items: Seq<(Vec<u8>, RecordPos)>, reverse: bool) -> bool {
    if reverse {
        descending(items)
    } else {
        ascending(items)
    }
}

pub open spec fn unique(items: Seq<(Vec<u8>, RecordPos)>) -> bool {
    forall|i: int, j: int|
        0 <= i < items.len() && 0 <= j < items.len() && i != j ==> #[trigger] items[i].0@
            != #[trigger] items[j].0@
}

pub open spec fn has_key(items: Seq<(Vec<u8>, RecordPos)>, k: Seq<u8>) -> bool {
    exists|i: int| 0 <= i < items.len() && #[trigger] items[i].0@ == k
}

/// The map from key to position that a list of entries stands for.
pub open spec fn entries_map(items: Seq<(Vec<u8>, RecordPos)>) -> Map<Seq<u8>, RecordPos> {
    Map::new(
        |k: Seq<u8>| has_key(items, k),
        |k: Seq<u8>| items[choose|i: int| 0 <= i < items.len() && #[trigger] items[i].0@ == k].1,
    )
}

pub proof fn lemma_ordered_unique(items: Seq<(Vec<u8>, RecordPos)>, reverse: bool)
    requires
        ordered(items, reverse),
    ensures
        unique(items),
{
    assert forall|i: int, j: int|
        0 <= i < items.len() && 0 <= j < items.len() && i != j implies #[trigger] items[i].0@
        != #[trigger] items[j].0@ by {
        lemma_lt_total(items[i].0@, items[j].0@);
        if i < j {
            assert(lex_lt(items[i].0@, items[j].0@) || lex_lt(items[j].0@, items[i].0@));
        } else {
            assert(lex_lt(items[j].0@, items[i].0@) || lex_lt(items[i].0@, items[j].0@));
        }
    }
}

pub proof fn lemma_map_at(items: Seq<(Vec<u8>, RecordPos)>, i: int)
    requires
        unique(items),
        0 <= i < items.len(),
    ensures
        entries_map(items).contains_key(items[i].0@),
        entries_map(items)[items[i].0@] == items[i].1,
{
    let k = items[i].0@;
    assert(has_key(items, k));
    let j = choose|j: int| 0 <= j < items.len() && #[trigger] items[j].0@ == k;
    assert(j == i);
}

/// A list of distinct entries stands for `m` when each entry is in `m` and
/// each key of `m` has an entry.
pub proof fn lemma_map_eq(items: Seq<(Vec<u8>, RecordPos)>, m: Map<Seq<u8>, RecordPos>)
    requires
        unique(items),
        forall|i: int|
            0 <= i < items.len() ==> m.contains_key(#[trigger] items[i].0@) && m[items[i].0@]
                == items[i].1,
        forall|k: Seq<u8>| m.contains_key(k) ==> has_key(items, k),
    ensures
        entries_map(items) == m,
{
    assert forall|k: Seq<u8>| #[trigger] entries_map(items).contains_key(k) implies m.contains_key(k)
        && entries_map(items)[k] == m[k] by {
        let i = choose|i: int| 0 <= i < items.len() && #[trigger] items[i].0@ == k;
        lemma_map_at(items, i);
    }
    assert(entries_map(items) =~= m);
}

/// The ordered-map index.
pub struct BTree {
    pub items: Vec<(Vec<u8>, RecordPos)>,
}

impl BTree {
    pub open spec fn wf(&self) -> bool {
        ascending(self.items@)
    }

    pub open spec fn view(&self) -> Map<Seq<u8>, RecordPos> {
        entries_map(self.items@)
    }

    pub fn new() -> (r: BTree)
        ensures
            r.wf(),
            r@ == Map::<Seq<u8>, RecordPos>::empty(),
    {
        let r = BTree { items: Vec::new() };
        assert(r@ =~= Map::<Seq<u8>, RecordPos>::empty());
        r
    }

    /// The first entry whose key is not below `key`, and whether its key is `key`.
    fn find(&self, key: &[u8]) -> (r: (usize, bool))
        requires
            self.wf(),
        ensures
            r.0 <= self.items@.len(),
            forall|j: int| 0 <= j < r.0 ==> lex_lt(#[trigger] self.items@[j].0@, key@),
            forall|j: int|
                r.0 <= j < self.items@.len() ==> !lex_lt(#[trigger] self.items@[j].0@, key@),
            r.1 == has_key(self.items@, key@),
            r.1 ==> r.0 < self.items@.len() && self.items@[r.0 as int].0@ == key@,
            !r.1 ==> forall|j: int|
                r.0 <= j < self.items@.len() ==> lex_lt(key@, #[trigger] self.items@[j].0@),
    {
        let ghost s = self.items@;
        let mut lo: usize = 0;
        let mut hi: usize = self.items.len();
        while lo < hi
            invariant
                s == self.items@,
                ascending(s),
                lo <= hi <= s.len(),
                forall|j: int| 0 <= j < lo ==> lex_lt(#[trigger] s[j].0@, key@),
                forall|j: int| hi <= j < s.len() ==> !lex_lt(#[trigger] s[j].0@, key@),
            decreases hi - lo,
        {
            let mid = lo + (hi - lo) / 2;
            let c = compare(self.items[mid].0.as_slice(), key);
            if c < 0 {
                proof {
                    assert forall|j: int| 0 <= j < mid + 1 implies lex_lt(#[trigger] s[j].0@, key@) by {
                        if j < mid {
                            lemma_lt_trans(s[j].0@, s[mid as int].0@, key@);
                        }
                    }
                }
                lo = mid + 1;
            } else {
                proof {
                    assert forall|j: int| mid <= j < s.len() implies !lex_lt(#[trigger] s[j].0@, key@) by {
                        if j > mid && lex_lt(s[j].0@, key@) {
                            lemma_lt_trans(s[mid as int].0@, s[j].0@, key@);
                        }
                    }
                }
                hi = mid;
            }
        }
        let found = lo < self.items.len() && compare(self.items[lo].0.as_slice(), key) == 0;
        proof {
            if lo < s.len() {
                lemma_cmp_zero(s[lo as int].0@, key@);
                lemma_lt_total(s[lo as int].0@, key@);
            }
            if !found {
                assert forall|j: int| lo <= j < s.len() implies lex_lt(key@, #[trigger] s[j].0@) by {
                    if j > lo {
                        lemma_lt_trans(key@, s[lo as int].0@, s[j].0@);
                    }
                }
                assert forall|j: int| 0 <= j < s.len() implies #[trigger] s[j].0@ != key@ by {
                    lemma_lt_total(s[j].0@, key@);
                }
            }
        }
        (lo, found)
    }

    /// Points `key` at `pos`.
    pub fn put(&mut self, key: Vec<u8>, pos: RecordPos)
        requires
            old(self).wf(),
        ensures
            final(self).wf(),
            final(self)@ == old(self)@.insert(key@, pos),
    {
        let ghost s = self.items@;
        let ghost m = self@.insert(key@, pos);
        let (p, found) = self.find(key.as_slice());
        let ghost k = key@;
        proof {
            lemma_ordered_unique(s, false);
        }
        if found {
            self.items.remove(p);
            self.items.insert(p, (key, pos));
            let ghost t = self.items@;
            assert(t =~= s.update(p as int, t[p as int]));
            assert forall|i: int| 0 <= i < t.len() implies #[trigger] t[i].0@ == s[i].0@ by {
            }
            assert(ascending(t));
            proof {
                lemma_ordered_unique(t, false);
                assert forall|i: int| 0 <= i < t.len() implies m.contains_key(#[trigger] t[i].0@)
                    && m[t[i].0@] == t[i].1 by {
                    if i != p {
                        lemma_map_at(s, i);
                    }
                }
                assert forall|k2: Seq<u8>| m.contains_key(k2) implies has_key(t, k2) by {
                    if k2 == k {
                        assert(t[p as int].0@ == k);
                    } else {
                        let i = choose|i: int| 0 <= i < s.len() && #[trigger] s[i].0@ == k2;
                        assert(t[i].0@ == k2);
                    }
                }
                lemma_map_eq(t, m);
            }
        } else {
            self.items.insert(p, (key, pos));
            let ghost t = self.items@;
            assert(t == s.insert(p as int, t[p as int]));
            assert(t[p as int].0@ == k);
            assert forall|i: int, j: int| 0 <= i < j < t.len() implies lex_lt(
                #[trigger] t[i].0@,
                #[trigger] t[j].0@,
            ) by {
                if i < p {
                    assert(t[i] == s[i]);
                } else if i > p {
                    assert(t[i] == s[i - 1]);
                }
                if j < p {
                    assert(t[j] == s[j]);
                } else if j > p {
                    assert(t[j] == s[j - 1]);
                }
                if j < p {
                } else if j == p {
                } else if i < p {
                    lemma_lt_trans(s[i].0@, k, s[j - 1].0@);
                } else if i == p {
                } else {
                    assert(lex_lt(s[i - 1].0@, s[j - 1].0@));
                }
            }
            proof {
                lemma_ordered_unique(t, false);
                assert forall|i: int| 0 <= i < t.len() implies m.contains_key(#[trigger] t[i].0@)
                    && m[t[i].0@] == t[i].1 by {
                    if i < p {
                        lemma_map_at(s, i);
                    } else if i > p {
                        lemma_map_at(s, i - 1);
                    }
                }
                assert forall|k2: Seq<u8>| m.contains_key(k2) implies has_key(t, k2) by {
                    if k2 == k {
                        assert(t[p as int].0@ == k);
                    } else {
                        let i = choose|i: int| 0 <= i < s.len() && #[trigger] s[i].0@ == k2;
                        if i < p {
                            assert(t[i].0@ == k2);
                        } else {
                            assert(t[i + 1].0@ == k2);
                        }
                    }
                }
                lemma_map_eq(t, m);
            }
        }
    }

    /// The position of `key`, if it is present.
    pub fn get(&self, key: &[u8]) -> (r: Option<RecordPos>)
        requires
            self.wf(),
        ensures
            r == (if self@.contains_key(key@) {
                Some(self@[key@])
            } else {
                None
            }),
    {
        let (p, found) = self.find(key);
        if found {
            proof {
                lemma_ordered_unique(self.items@, false);
                lemma_map_at(self.items@, p as int);
            }
            Some(self.items[p].1)
        } else {
            None
        }
    }

    /// Removes `key`, if it is present.
    pub fn delete(&mut self, key: &[u8])
        requires
            old(self).wf(),
        ensures
            final(self).wf(),
            final(self)@ == old(self)@.remove(key@),
    {
        let ghost s = self.items@;
        let ghost m = self@.remove(key@);
        let ghost k = key@;
        proof {
            lemma_ordered_unique(s, false);
        }
        let (p, found) = self.find(key);
        if found {
            self.items.remove(p);
            let ghost t = self.items@;
            assert forall|i: int, j: int| 0 <= i < j < t.len() implies lex_lt(
                #[trigger] t[i].0@,
                #[trigger] t[j].0@,
            ) by {
                let i2 = if i < p { i } else { i + 1 };
                let j2 = if j < p { j } else { j + 1 };
                assert(t[i] == s[i2] && t[j] == s[j2]);
            }
            proof {
                lemma_ordered_unique(t, false);
                assert forall|i: int| 0 <= i < t.len() implies m.contains_key(#[trigger] t[i].0@)
                    && m[t[i].0@] == t[i].1 by {
                    let i2 = if i < p { i } else { i + 1 };
                    assert(t[i] == s[i2]);
                    lemma_map_at(s, i2);
                }
                assert forall|k2: Seq<u8>| m.contains_key(k2) implies has_key(t, k2) by {
                    let i = choose|i: int| 0 <= i < s.len() && #[trigger] s[i].0@ == k2;
                    if i < p {
                        assert(t[i].0@ == k2);
                    } else {
                        assert(t[i - 1].0@ == k2);
                    }
                }
                lemma_map_eq(t, m);
            }
        } else {
            proof {
                assert(self@ =~= m);
            }
        }
    }

    /// A snapshot of the entries in the order that `config` asks for.
    pub fn iterator(&self, config: IteratorConfig) -> (r: BTreeIterator)
        requires
            self.wf(),
        ensures
            r.wf(),
            r.current_index == 0,
            r.config.prefix@ == config.prefix@,
            r.config.reverse == config.reverse,
            entries_map(r.items@) == self@,
            ordered(r.items@, config.reverse),
    {
        let ghost s = self.items@;
        let n = self.items.len();
        let reverse = config.reverse;
        let mut out: Vec<(Vec<u8>, RecordPos)> = Vec::new();
        let mut i: usize = 0;
        while i < n
            invariant
                s == self.items@,
                n == s.len(),
                ascending(s),
                i <= n,
                out@.len() == i,
                forall|j: int|
                    0 <= j < i ==> (#[trigger] out@[j]).0@ == s[snapshot_src(n as int, reverse, j)].0@,
                forall|j: int|
                    0 <= j < i ==> (#[trigger] out@[j]).1 == s[snapshot_src(n as int, reverse, j)].1,
            decreases n - i,
        {
            let src = if reverse { n - 1 - i } else { i };
            assert(src == snapshot_src(n as int, reverse, i as int));
            let key = slice_to_vec(self.items[src].0.as_slice());
            let pos: RecordPos = self.items[src].1;
            out.push((key, pos));
            i = i + 1;
        }
        let ghost t = out@;
        let ghost src = |j: int| snapshot_src(n as int, reverse, j);
        assert(ordered(t, reverse)) by {
            assert forall|a: int, b: int| 0 <= a < b < t.len() implies (if reverse {
                lex_lt(#[trigger] t[b].0@, #[trigger] t[a].0@)
            } else {
                lex_lt(t[a].0@, t[b].0@)
            }) by {
                if reverse {
                    assert(t[a].0@ == s[n - 1 - a].0@);
                    assert(t[b].0@ == s[n - 1 - b].0@);
                } else {
                    assert(t[a].0@ == s[a].0@);
                    assert(t[b].0@ == s[b].0@);
                }
            }
        }
        proof {
            lemma_ordered_unique(s, false);
            lemma_ordered_unique(t, reverse);
            assert forall|j: int| 0 <= j < t.len() implies self@.contains_key(#[trigger] t[j].0@)
                && self@[t[j].0@] == t[j].1 by {
                lemma_map_at(s, src(j));
            }
            assert forall|k: Seq<u8>| self@.contains_key(k) implies has_key(t, k) by {
                let i = choose|i: int| 0 <= i < s.len() && #[trigger] s[i].0@ == k;
                let j = if reverse { n - 1 - i } else { i };
                assert(t[j].0@ == k);
            }
            lemma_map_eq(t, self@);
        }
        BTreeIterator { items: out, current_index: 0, config }
    }
}

/// Where entry `j` of a snapshot of `n` entries is taken from.
pub open spec fn snapshot_src(n: int, reverse: bool, j: int) -> int {
    if reverse {
        n - 1 - j
    } else {
        j
    }
}

/// The index of the first entry at or after `i` whose key begins with `p`,
/// or the number of entries where there is none.
pub open spec fn next_match(items: Seq<(Vec<u8>, RecordPos)>, p: Seq<u8>, i: int) -> int
    decreases items.len() - i,
{
    if i < 0 || i >= items.len() {
        items.len() as int
    } else if starts_with(items[i].0@, p) {
        i
    } else {
        next_match(items, p, i + 1)
    }
}

/// Whether key `a` comes before `key` in the scan's direction.
pub open spec fn before(a: Seq<u8>, key: Seq<u8>, reverse: bool) -> bool {
    if reverse {
        lex_lt(key, a)
    } else {
        lex_lt(a, key)
    }
}

/// An ordered scan over a snapshot of the index.
pub struct BTreeIterator {
    pub items: Vec<(Vec<u8>, RecordPos)>,
    pub current_index: usize,
    pub config: IteratorConfig,
}

impl BTreeIterator {
    pub open spec fn wf(&self) -> bool {
        ordered(self.items@, self.config.reverse) && self.current_index <= self.items@.len()
    }

    /// Goes back to the first entry.
    pub fn rewind(&mut self)
        requires
            old(self).wf(),
        ensures
            final(self).wf(),
            final(self).current_index == 0,
            final(self).items == old(self).items,
            final(self).config == old(self).config,
    {
        self.current_index = 0;
    }

    /// Goes to the first entry whose key is not before `key` in the scan's
    /// direction: at or above it ascending, at or below it descending.
    pub fn seek(&mut self, key: Vec<u8>)
        requires
            old(self).wf(),
        ensures
            final(self).wf(),
            final(self).items == old(self).items,
            final(self).config == old(self).config,
            forall|j: int|
                0 <= j < final(self).current_index ==> before(
                    #[trigger] final(self).items@[j].0@,
                    key@,
                    final(self).config.reverse,
                ),
            forall|j: int|
                final(self).current_index <= j < final(self).items@.len() ==> !before(
                    #[trigger] final(self).items@[j].0@,
                    key@,
                    final(self).config.reverse,
                ),
    {
        let ghost s = self.items@;
        let reverse = self.config.reverse;
        let mut lo: usize = 0;
        let mut hi: usize = self.items.len();
        while lo < hi
            invariant
                s == self.items@,
                reverse == self.config.reverse,
                ordered(s, reverse),
                lo <= hi <= s.len(),
                forall|j: int| 0 <= j < lo ==> before(#[trigger] s[j].0@, key@, reverse),
                forall|j: int| hi <= j < s.len() ==> !before(#[trigger] s[j].0@, key@, reverse),
            decreases hi - lo,
        {
            let mid = lo + (hi - lo) / 2;
            let c = compare(self.items[mid].0.as_slice(), key.as_slice());
            let is_before = if reverse { c > 0 } else { c < 0 };
            proof {
                crate::order::lemma_cmp_antisym(s[mid as int].0@, key@, 0);
            }
            if is_before {
                proof {
                    assert forall|j: int| 0 <= j < mid + 1 implies before(#[trigger] s[j].0@, key@, reverse) by {
                        if j < mid {
                            if reverse {
                                lemma_lt_trans(key@, s[mid as int].0@, s[j].0@);
                            } else {
                                lemma_lt_trans(s[j].0@, s[mid as int].0@, key@);
                            }
                        }
                    }
                }
                lo = mid + 1;
            } else {
                proof {
                    assert forall|j: int| mid <= j < s.len() implies !before(#[trigger] s[j].0@, key@, reverse) by {
                        if j > mid && before(s[j].0@, key@, reverse) {
                            if reverse {
                                lemma_lt_trans(key@, s[j].0@, s[mid as int].0@);
                            } else {
                                lemma_lt_trans(s[mid as int].0@, s[j].0@, key@);
                            }
                        }
                    }
                }
                hi = mid;
            }
        }
        self.current_index = lo;
    }

    /// The next entry whose key begins with the configured prefix, if any.
    pub fn next(&mut self) -> (r: Option<(Vec<u8>, RecordPos)>)
        requires
            old(self).wf(),
        ensures
            final(self).wf(),
            final(self).items == old(self).items,
            final(self).config == old(self).config,
            ({
                let s = old(self).items@;
                let j = next_match(s, old(self).config.prefix@, old(self).current_index as int);
                j < s.len() ==> r is Some && r.unwrap().0@ == s[j].0@ && r.unwrap().1 == s[j].1
                    && final(self).current_index == j + 1
            }),
            ({
                let s = old(self).items@;
                let j = next_match(s, old(self).config.prefix@, old(self).current_index as int);
                j >= s.len() ==> r is None && final(self).current_index == s.len()
            }),
    {
        let ghost s = self.items@;
        let ghost pre = self.config.prefix@;
        let ghost j0 = next_match(s, pre, self.current_index as int);
        assert(pre == old(self).config.prefix@);
        assert(j0 == next_match(old(self).items@, old(self).config.prefix@, old(self).current_index as int));
        while self.current_index < self.items.len()
            invariant
                s == self.items@,
                pre == self.config.prefix@,
                self.current_index <= s.len(),
                j0 == next_match(s, pre, self.current_index as int),
                j0 == next_match(
                    old(self).items@,
                    old(self).config.prefix@,
                    old(self).current_index as int,
                ),
                self.items == old(self).items,
                self.config == old(self).config,
                ordered(s, self.config.reverse),
            decreases s.len() - self.current_index,
        {
            let i = self.current_index;
            self.current_index = i + 1;
            if has_prefix(self.items[i].0.as_slice(), self.config.prefix.as_slice()) {
                assert(next_match(s, pre, i as int) == i as int);
                let key = slice_to_vec(self.items[i].0.as_slice());
                let pos: RecordPos = self.items[i].1;
                assert(pos == s[i as int].1);
                return Some((key, pos));
            }
        }
        None
    }
}

/// Makes an empty index of the given kind.
pub fn new_index(index_type: IndexType) -> (r: BTree)
    ensures
        r.wf(),
        r@ == Map::<Seq<u8>, RecordPos>::empty(),
{
    match index_type {
        IndexType::BTree => BTree::new(),
    }
}

/// With an empty prefix every entry matches: a scan yields the entries one
/// by one, in the snapshot's order.
pub proof fn law_empty_prefix_scan(items: Seq<(Vec<u8>, RecordPos)>, p: Seq<u8>, i: int)
    requires
        p.len() == 0,
        0 <= i < items.len(),
    ensures
        next_match(items, p, i) == i,
{
    assert(items[i].0@.subrange(0, 0) =~= p);
}

} // verus!
