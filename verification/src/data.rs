use vstd::prelude::*;

use crate::id::Id;
use crate::message::{views_of, Entry, EntryV};
use crate::sequence_num::SequenceNumber;

verus! {

/// One author's value within a sequence group: `(author, value)`.
pub type AuthorRow = Vec<(Id, String)>;

/// All values stored under one key, grouped by sequence number and sorted
/// ascending by it: `(seq, authors)`.
pub type SeqRows = Vec<(u64, AuthorRow)>;

pub open spec fn inner_has(inner: Seq<(Id, String)>, id: Id) -> bool {
    exists|i: int| 0 <= i < inner.len() && inner[i].0 == id
}

pub open spec fn inner_idx(inner: Seq<(Id, String)>, id: Id) -> int {
    choose|i: int| 0 <= i < inner.len() && inner[i].0 == id
}

pub open spec fn inner_at(inner: Seq<(Id, String)>, id: Id) -> Seq<char> {
    inner[inner_idx(inner, id)].1@
}

pub open spec fn mid_has(mid: Seq<(u64, AuthorRow)>, s: u64) -> bool {
    exists|i: int| 0 <= i < mid.len() && mid[i].0 == s
}

pub open spec fn mid_idx(mid: Seq<(u64, AuthorRow)>, s: u64) -> int {
    choose|i: int| 0 <= i < mid.len() && mid[i].0 == s
}

pub open spec fn mid_at(mid: Seq<(u64, AuthorRow)>, s: u64) -> Seq<(Id, String)> {
    mid[mid_idx(mid, s)].1@
}

pub open spec fn outer_has(outer: Seq<(String, SeqRows)>, k: Seq<char>) -> bool {
    exists|i: int| 0 <= i < outer.len() && outer[i].0@ == k
}

pub open spec fn outer_idx(outer: Seq<(String, SeqRows)>, k: Seq<char>) -> int {
    choose|i: int| 0 <= i < outer.len() && outer[i].0@ == k
}

pub open spec fn outer_at(outer: Seq<(String, SeqRows)>, k: Seq<char>) -> Seq<(u64, AuthorRow)> {
    outer[outer_idx(outer, k)].1@
}

/// Authors within a sequence group are sorted strictly ascending by their
/// tag, so each author appears at most once.
pub open spec fn wf_inner(inner: Seq<(Id, String)>) -> bool {
    forall|i: int, j: int| 0 <= i < j < inner.len() ==> inner[i].0.tmp < inner[j].0.tmp
}

/// Sequence groups under a key are sorted strictly ascending by sequence
/// number and are never empty.
pub open spec fn wf_mid(mid: Seq<(u64, AuthorRow)>) -> bool {
    &&& forall|i: int, j: int| 0 <= i < j < mid.len() ==> mid[i].0 < mid[j].0
    &&& forall|i: int| 0 <= i < mid.len() ==> wf_inner(#[trigger] mid[i].1@)
    &&& forall|i: int| 0 <= i < mid.len() ==> (#[trigger] mid[i].1@).len() > 0
}

pub open spec fn wf_outer(outer: Seq<(String, SeqRows)>) -> bool {
    &&& forall|i: int, j: int| 0 <= i < j < outer.len() ==> outer[i].0@ != outer[j].0@
    &&& forall|i: int| 0 <= i < outer.len() ==> wf_mid(#[trigger] outer[i].1@)
    &&& forall|i: int| 0 <= i < outer.len() ==> (#[trigger] outer[i].1@).len() > 0
}

/// The entries of one sequence group, as they are emitted: authors in
/// ascending tag order, all with the group's sequence number.
pub open spec fn group_entries(k: Seq<char>, g: (u64, AuthorRow)) -> Seq<EntryV> {
    Seq::new(g.1@.len(), |i: int| EntryV { id: g.1@[i].0, seq: g.0, key: k, val: g.1@[i].1@ })
}

/// The entries of the groups with index `j` and above, newest group first.
pub open spec fn flat_desc(k: Seq<char>, mid: Seq<(u64, AuthorRow)>, j: int) -> Seq<EntryV>
    decreases mid.len() - j,
{
    if j < 0 || j >= mid.len() {
        Seq::empty()
    } else {
        flat_desc(k, mid, j + 1) + group_entries(k, mid[j])
    }
}

/// The local store: values authored by this node and by trusted peers,
/// keyed by `key`, then sequence number, then author.
pub struct Data {
    incorporated_data: Vec<(String, SeqRows)>,
}

impl Data {
    pub closed spec fn wf(self) -> bool {
        wf_outer(self.incorporated_data@)
    }

    /// The sequence groups stored under `k` (empty if the key is absent).
    pub closed spec fn mid_of(self, k: Seq<char>) -> Seq<(u64, AuthorRow)> {
        if outer_has(self.incorporated_data@, k) {
            outer_at(self.incorporated_data@, k)
        } else {
            Seq::empty()
        }
    }

    /// Is some value stored under `(k, s, id)`? This is the authoritative
    /// presence test used to stop gossip loops.
    pub open spec fn contains_triple(self, k: Seq<char>, s: u64, id: Id) -> bool {
        mid_has(self.mid_of(k), s) && inner_has(mid_at(self.mid_of(k), s), id)
    }

    /// The value stored under `(k, s, id)`, meaningful when
    /// `contains_triple(k, s, id)` holds.
    pub open spec fn value_at(self, k: Seq<char>, s: u64, id: Id) -> Seq<char> {
        inner_at(mid_at(self.mid_of(k), s), id)
    }

    /// Is any value stored under `(k, s)`, whatever the author?
    pub open spec fn contains_seq(self, k: Seq<char>, s: u64) -> bool {
        mid_has(self.mid_of(k), s)
    }

    /// The sequence number the node assigns next under `k`: zero for a
    /// fresh key, one past the newest stored group otherwise.
    pub closed spec fn next_seq_spec(self, k: Seq<char>) -> int {
        if self.mid_of(k).len() == 0 {
            0
        } else {
            self.mid_of(k).last().0 + 1
        }
    }

    /// Every entry stored under `k`, newest sequence group first and authors
    /// in ascending tag order within a group.
    pub open spec fn entries_desc(self, k: Seq<char>) -> Seq<EntryV> {
        flat_desc(k, self.mid_of(k), 0)
    }

    pub fn new() -> (r: Self)
        ensures
            r.wf(),
            forall|k: Seq<char>, s: u64, id: Id| !r.contains_triple(k, s, id),
            forall|k: Seq<char>| r.entries_desc(k) == Seq::<EntryV>::empty(),
    {
        let r = Self { incorporated_data: Vec::new() };
        proof {
            assert forall|k: Seq<char>| r.entries_desc(k) == Seq::<EntryV>::empty() by {
                assert(r.mid_of(k) =~= Seq::<(u64, AuthorRow)>::empty());
            }
        }
        r
    }

    fn find_key_idx(&self, key: &String) -> (r: Option<usize>)
        ensures
            match r {
                Some(i) => i < self.incorporated_data@.len()
                    && self.incorporated_data@[i as int].0@ == key@
                    && outer_has(self.incorporated_data@, key@),
                None => !outer_has(self.incorporated_data@, key@),
            },
    {
        let n = self.incorporated_data.len();
        for i in 0..n
            invariant
                n == self.incorporated_data@.len(),
                forall|m: int| 0 <= m < i ==> self.incorporated_data@[m].0@ != key@,
        {
            if self.incorporated_data[i].0.eq(key) {
                return Some(i);
            }
        }
        None
    }

    /// Does this node already hold a copy of this entry's identifying
    /// triple `(key, seq, author)`?
    pub fn contains(&self, entry: &Entry) -> (r: bool)
        requires
            self.wf(),
        ensures
            r == self.contains_triple(entry@.key, entry@.seq, entry@.id),
    {
        let idx = match self.find_key_idx(&entry.key) {
            Some(i) => i,
            None => {
                return false;
            },
        };
        proof {
            lemma_outer_unique(self.incorporated_data@, entry.key@, idx as int);
        }
        let mid = &self.incorporated_data[idx].1;
        let m = mid.len();
        for j in 0..m
            invariant
                m == mid@.len(),
                mid@ == self.mid_of(entry@.key),
                wf_mid(mid@),
                forall|t: int| 0 <= t < j ==> mid@[t].0 != entry@.seq,
        {
            if mid[j].0 == entry.seq.num {
                proof {
                    lemma_mid_unique(mid@, entry@.seq, j as int);
                }
                let inner = &mid[j].1;
                let c = inner.len();
                for t in 0..c
                    invariant
                        c == inner@.len(),
                        inner@ == mid_at(self.mid_of(entry@.key), entry@.seq),
                        mid_has(self.mid_of(entry@.key), entry@.seq),
                        forall|u: int| 0 <= u < t ==> inner@[u].0 != entry@.id,
                {
                    if inner[t].0 == entry.id {
                        return true;
                    }
                }
                return false;
            }
        }
        false
    }
}

/// Write `val` under `id`, keeping authors sorted; an existing value for
/// the same author is overwritten.
fn insert_into_inner(inner: &mut AuthorRow, id: Id, val: String)
    requires
        wf_inner(old(inner)@),
    ensures
        wf_inner(final(inner)@),
        final(inner)@.len() > 0,
        forall|x: Id| inner_has(final(inner)@, x) <==> inner_has(old(inner)@, x) || x == id,
        inner_at(final(inner)@, id) == val@,
        forall|x: Id|
            inner_has(old(inner)@, x) && x != id ==> inner_at(final(inner)@, x) == inner_at(
                old(inner)@,
                x,
            ),
{
    let ghost pre = inner@;
    let c = inner.len();
    let mut t: usize = 0;
    while t < c && inner[t].0.tmp < id.tmp
        invariant
            t <= c,
            c == inner@.len(),
            inner@ == pre,
            forall|u: int| 0 <= u < t ==> pre[u].0.tmp < id.tmp,
        decreases c - t,
    {
        t += 1;
    }
    if t < c && inner[t].0.tmp == id.tmp {
        let _ = inner.remove(t);
        inner.insert(t, (id, val));
        proof {
            assert(pre[t as int].0 == id);
            assert(inner@ =~= pre.update(t as int, (id, val)));
            assert forall|x: Id| inner_has(inner@, x) implies inner_has(pre, x) || x == id by {
                let i = choose|i: int| 0 <= i < inner@.len() && inner@[i].0 == x;
                if i != t {
                    assert(pre[i].0 == x);
                }
            }
            assert forall|x: Id| inner_has(pre, x) implies inner_has(inner@, x) by {
                let i = inner_idx(pre, x);
                if i == t {
                    assert(inner@[t as int].0 == x);
                } else {
                    assert(inner@[i].0 == x);
                }
            }
            lemma_inner_unique(inner@, id, t as int);
            assert forall|x: Id| inner_has(pre, x) && x != id implies inner_at(inner@, x)
                == inner_at(pre, x) by {
                let i = inner_idx(pre, x);
                assert(pre[i].0 == x);
                assert(i != t);
                lemma_inner_unique(pre, x, i);
                lemma_inner_unique(inner@, x, i);
            }
        }
    } else {
        inner.insert(t, (id, val));
        proof {
            assert(t == c || pre[t as int].0.tmp > id.tmp);
            assert(inner@ =~= pre.insert(t as int, (id, val)));
            assert forall|u: int, v: int| 0 <= u < v < inner@.len() implies inner@[u].0.tmp
                < inner@[v].0.tmp by {
                assert(u < t ==> inner@[u] == pre[u]);
                assert(u > t ==> inner@[u] == pre[u - 1]);
                assert(v < t ==> inner@[v] == pre[v]);
                assert(v > t ==> inner@[v] == pre[v - 1]);
            }
            assert forall|x: Id| inner_has(inner@, x) implies inner_has(pre, x) || x == id by {
                let i = choose|i: int| 0 <= i < inner@.len() && inner@[i].0 == x;
                if i < t {
                    assert(pre[i].0 == x);
                } else if i > t {
                    assert(pre[i - 1].0 == x);
                }
            }
            assert forall|x: Id| inner_has(pre, x) implies inner_has(inner@, x) by {
                let i = inner_idx(pre, x);
                if i < t {
                    assert(inner@[i].0 == x);
                } else {
                    assert(inner@[i + 1].0 == x);
                }
            }
            lemma_inner_unique(inner@, id, t as int);
            assert forall|x: Id| inner_has(pre, x) && x != id implies inner_at(inner@, x)
                == inner_at(pre, x) by {
                let i = inner_idx(pre, x);
                assert(pre[i].0 == x);
                lemma_inner_unique(pre, x, i);
                if i < t {
                    lemma_inner_unique(inner@, x, i);
                } else {
                    assert(inner@[i + 1].0 == x);
                    lemma_inner_unique(inner@, x, i + 1);
                }
            }
        }
    }
}

/// Write `val` under `(s, id)`, keeping sequence groups sorted. When every
/// stored group is older than `s`, the new group lands at the end.
fn insert_into_mid(mid: &mut SeqRows, s: u64, id: Id, val: String)
    requires
        wf_mid(old(mid)@),
    ensures
        wf_mid(final(mid)@),
        final(mid)@.len() > 0,
        forall|s2: u64| mid_has(final(mid)@, s2) <==> mid_has(old(mid)@, s2) || s2 == s,
        inner_has(mid_at(final(mid)@, s), id),
        inner_at(mid_at(final(mid)@, s), id) == val@,
        forall|x: Id|
            inner_has(mid_at(final(mid)@, s), x) <==> (mid_has(old(mid)@, s) && inner_has(
                mid_at(old(mid)@, s),
                x,
            )) || x == id,
        forall|s2: u64|
            mid_has(old(mid)@, s2) && s2 != s ==> mid_at(final(mid)@, s2) == mid_at(old(mid)@, s2),
        mid_has(old(mid)@, s) ==> forall|x: Id|
            inner_has(mid_at(old(mid)@, s), x) && x != id ==> inner_at(mid_at(final(mid)@, s), x)
                == inner_at(mid_at(old(mid)@, s), x),
        (forall|s2: u64| mid_has(old(mid)@, s2) ==> s2 < s) ==> (final(mid)@.len() == old(mid)@.len()
            + 1 && final(mid)@.drop_last() == old(mid)@ && final(mid)@.last().0 == s
            && final(mid)@.last().1@ == seq_singleton_row(id, val)),
{
    let ghost pre = mid@;
    let m = mid.len();
    let mut j: usize = 0;
    while j < m && mid[j].0 < s
        invariant
            j <= m,
            m == mid@.len(),
            mid@ == pre,
            forall|t: int| 0 <= t < j ==> pre[t].0 < s,
        decreases m - j,
    {
        j += 1;
    }
    if j < m && mid[j].0 == s {
        let mut grp = mid.remove(j);
        proof {
            lemma_mid_unique(pre, s, j as int);
        }
        insert_into_inner(&mut grp.1, id, val);
        let ghost newrow = grp.1@;
        mid.insert(j, grp);
        proof {
            assert(mid@ =~= pre.update(j as int, (s, grp.1)));
            assert(mid@[j as int].1@ == newrow);
            assert forall|u: int| 0 <= u < mid@.len() implies mid@[u].0 == pre[u].0 && (u != j
                ==> mid@[u] == pre[u]) by {}
            assert forall|u: int| 0 <= u < mid@.len() implies wf_inner(#[trigger] mid@[u].1@)
                && mid@[u].1@.len() > 0 by {
                if u != j {
                    assert(mid@[u] == pre[u]);
                } else {
                    assert(mid@[u].1@ == newrow);
                }
            }
            assert(wf_mid(mid@));
            assert forall|s2: u64| mid_has(mid@, s2) implies mid_has(pre, s2) by {
                let i = choose|i: int| 0 <= i < mid@.len() && mid@[i].0 == s2;
                assert(pre[i].0 == s2);
            }
            assert forall|s2: u64| mid_has(pre, s2) implies mid_has(mid@, s2) by {
                let i = mid_idx(pre, s2);
                assert(mid@[i].0 == s2);
            }
            lemma_mid_unique(mid@, s, j as int);
            assert(mid_at(mid@, s) == newrow);
            lemma_mid_unique(pre, s, j as int);
            assert(mid_at(pre, s) == pre[j as int].1@);
            assert(inner_has(mid_at(mid@, s), id));
            assert(inner_at(mid_at(mid@, s), id) == val@);
            assert forall|s2: u64| mid_has(pre, s2) && s2 != s implies mid_at(mid@, s2) == mid_at(
                pre,
                s2,
            ) by {
                let i = mid_idx(pre, s2);
                assert(pre[i].0 == s2);
                lemma_mid_unique(pre, s2, i);
                assert(i != j);
                lemma_mid_unique(mid@, s2, i);
            }
            // the freshness clause is vacuous: s itself was present
            assert(mid_has(pre, s));
        }
    } else {
        proof {
            assert(j == m || pre[j as int].0 > s);
        }
        let mut inner: AuthorRow = Vec::new();
        inner.push((id, val));
        proof {
            assert(inner@ =~= seq_singleton_row(id, val));
        }
        mid.insert(j, (s, inner));
        proof {
            assert(mid@ =~= pre.insert(j as int, (s, inner)));
            assert forall|u: int, v: int| 0 <= u < v < mid@.len() implies mid@[u].0
                < mid@[v].0 by {
                assert(u < j ==> mid@[u] == pre[u]);
                assert(u > j ==> mid@[u] == pre[u - 1]);
                assert(v < j ==> mid@[v] == pre[v]);
                assert(v > j ==> mid@[v] == pre[v - 1]);
            }
            assert forall|u: int| 0 <= u < mid@.len() implies wf_inner(#[trigger] mid@[u].1@)
                && mid@[u].1@.len() > 0 by {
                if u < j {
                    assert(mid@[u] == pre[u]);
                } else if u > j {
                    assert(mid@[u] == pre[u - 1]);
                } else {
                    assert(mid@[u].1@ == seq_singleton_row(id, val));
                }
            }
            assert(wf_mid(mid@));
            assert forall|s2: u64| mid_has(mid@, s2) implies mid_has(pre, s2) || s2 == s by {
                let i = choose|i: int| 0 <= i < mid@.len() && mid@[i].0 == s2;
                if i < j {
                    assert(pre[i].0 == s2);
                } else if i > j {
                    assert(pre[i - 1].0 == s2);
                }
            }
            assert forall|s2: u64| mid_has(pre, s2) implies mid_has(mid@, s2) by {
                let i = mid_idx(pre, s2);
                if i < j {
                    assert(mid@[i].0 == s2);
                } else {
                    assert(mid@[i + 1].0 == s2);
                }
            }
            lemma_mid_unique(mid@, s, j as int);
            assert(mid_at(mid@, s) == seq_singleton_row(id, val));
            assert(seq_singleton_row(id, val)[0].0 == id);
            assert(inner_has(mid_at(mid@, s), id));
            lemma_inner_unique(seq_singleton_row(id, val), id, 0);
            assert(inner_at(mid_at(mid@, s), id) == val@);
            assert(!mid_has(pre, s));
            assert forall|s2: u64| mid_has(pre, s2) && s2 != s implies mid_at(mid@, s2) == mid_at(
                pre,
                s2,
            ) by {
                let i = mid_idx(pre, s2);
                assert(pre[i].0 == s2);
                lemma_mid_unique(pre, s2, i);
                if i < j {
                    lemma_mid_unique(mid@, s2, i);
                } else {
                    assert(mid@[i + 1].0 == s2);
                    lemma_mid_unique(mid@, s2, i + 1);
                }
            }
            if forall|s2: u64| mid_has(pre, s2) ==> s2 < s {
                if (j as int) < pre.len() {
                    assert(mid_has(pre, pre[j as int].0));
                    assert(false);
                }
                assert(mid@.drop_last() =~= pre);
                assert(mid@.last().1@ == seq_singleton_row(id, val));
            }
        }
    }
}

/// The single row a fresh author group starts with.
pub open spec fn seq_singleton_row(id: Id, val: String) -> Seq<(Id, String)> {
    seq![(id, val)]
}

/// Appending a strictly newer group puts its entries at the front of the
/// newest-first listing.
pub proof fn lemma_push_desc(k: Seq<char>, mid: Seq<(u64, AuthorRow)>, g: (u64, AuthorRow), j: int)
    requires
        0 <= j <= mid.len(),
    ensures
        flat_desc(k, mid.push(g), j) == group_entries(k, g) + flat_desc(k, mid, j),
    decreases mid.len() - j,
{
    let newmid = mid.push(g);
    if j == mid.len() {
        assert(flat_desc(k, newmid, j + 1) =~= Seq::<EntryV>::empty());
        assert(flat_desc(k, newmid, j) =~= group_entries(k, g) + flat_desc(k, mid, j));
    } else {
        lemma_push_desc(k, mid, g, j + 1);
        assert(newmid[j] == mid[j]);
        assert(flat_desc(k, newmid, j) =~= group_entries(k, g) + flat_desc(k, mid, j));
    }
}

/// How one insertion changes the store: exactly the entry's identifying
/// triple becomes present, its value is the entry's value, every other
/// stored value is untouched, and an entry whose sequence number is fresher
/// than everything stored under its key becomes the newest entry.
pub open spec fn insert_post(pre: Data, post: Data, e: EntryV) -> bool {
    &&& post.wf()
    &&& forall|k: Seq<char>, s: u64, id: Id|
        post.contains_triple(k, s, id) <==> pre.contains_triple(k, s, id) || (k == e.key && s
            == e.seq && id == e.id)
    &&& post.value_at(e.key, e.seq, e.id) == e.val
    &&& forall|k: Seq<char>, s: u64, id: Id|
        pre.contains_triple(k, s, id) && !(k == e.key && s == e.seq && id == e.id)
            ==> post.value_at(k, s, id) == pre.value_at(k, s, id)
    &&& forall|k: Seq<char>| k != e.key ==> post.mid_of(k) == pre.mid_of(k)
    &&& (forall|s: u64| pre.contains_seq(e.key, s) ==> s < e.seq) ==> post.entries_desc(e.key)
        == seq![e] + pre.entries_desc(e.key)
}

impl Data {
    /// Store the entry under its `(key, seq, author)` triple; an existing
    /// value for the same triple is overwritten, so insertion is idempotent.
    pub fn insert(&mut self, entry: Entry)
        requires
            old(self).wf(),
        ensures
            insert_post(*old(self), *final(self), entry@),
    {
        let ghost pre = *self;
        let ghost outer0 = self.incorporated_data@;
        let kidx = self.find_key_idx(&entry.key);
        let Entry { id, seq, key, val } = entry;
        let ghost e = entry@;
        match kidx {
            None => {
                let mut inner: AuthorRow = Vec::new();
                inner.push((id, val));
                let mut mid: SeqRows = Vec::new();
                mid.push((seq.num, inner));
                let ghost newmid = mid@;
                self.incorporated_data.push((key, mid));
                proof {
                    let outer2 = self.incorporated_data@;
                    let n0 = outer0.len() as int;
                    assert(outer2[n0].1@ == newmid);
                    assert(newmid[0].1@ =~= seq_singleton_row(id, val));
                    assert(wf_mid(newmid));
                    assert forall|i: int, j: int| 0 <= i < j < outer2.len() implies outer2[i].0@
                        != outer2[j].0@ by {
                        if j < n0 {
                            assert(outer2[i] == outer0[i] && outer2[j] == outer0[j]);
                        } else {
                            assert(outer2[i] == outer0[i]);
                            assert(outer2[j].0@ == key@);
                        }
                    }
                    assert(wf_outer(outer2));
                    lemma_outer_unique(outer2, key@, n0);
                    assert(self.mid_of(key@) == newmid);
                    assert forall|k: Seq<char>| k != e.key implies self.mid_of(k) == pre.mid_of(
                        k,
                    ) by {
                        if outer_has(outer0, k) {
                            let i = outer_idx(outer0, k);
                            lemma_outer_unique(outer0, k, i);
                            assert(outer2[i] == outer0[i]);
                            lemma_outer_unique(outer2, k, i);
                        } else {
                            if outer_has(outer2, k) {
                                let i = outer_idx(outer2, k);
                                assert(i != n0);
                                assert(outer0[i].0@ == k);
                                assert(false);
                            }
                        }
                    }
                    lemma_mid_unique(newmid, seq.num, 0);
                    lemma_inner_unique(seq_singleton_row(id, val), id, 0);
                    assert forall|s2: u64| mid_has(newmid, s2) implies s2 == seq.num by {
                        let i = choose|i: int| 0 <= i < newmid.len() && newmid[i].0 == s2;
                        assert(i == 0);
                    }
                    assert forall|x: Id| inner_has(seq_singleton_row(id, val), x) implies x
                        == id by {
                        let i = choose|i: int|
                            0 <= i < seq_singleton_row(id, val).len() && seq_singleton_row(
                                id,
                                val,
                            )[i].0 == x;
                        assert(i == 0);
                    }
                    assert(!outer_has(outer0, e.key));
                    assert(pre.mid_of(e.key) =~= Seq::<(u64, AuthorRow)>::empty());
                    assert(self.contains_triple(e.key, e.seq, e.id));
                    assert(self.value_at(e.key, e.seq, e.id) == e.val);
                    assert(flat_desc(e.key, newmid, 1) =~= Seq::<EntryV>::empty());
                    assert(group_entries(e.key, newmid[0]) =~= seq![e]);
                    assert(self.entries_desc(e.key) =~= seq![e] + pre.entries_desc(e.key));
                }
            },
            Some(ki) => {
                proof {
                    lemma_outer_unique(outer0, key@, ki as int);
                }
                let mut pair = self.incorporated_data.swap_remove(ki);
                let ghost outer1 = self.incorporated_data@;
                let ghost oldmid = pair.1@;
                insert_into_mid(&mut pair.1, seq.num, id, val);
                let ghost newmid = pair.1@;
                self.incorporated_data.push(pair);
                proof {
                    let outer2 = self.incorporated_data@;
                    let n0 = outer0.len() as int;
                    let n1 = outer1.len() as int;
                    assert(n1 == n0 - 1);
                    assert(oldmid == pre.mid_of(e.key));
                    assert(wf_mid(oldmid));
                    // each slot of outer1 carries an element of outer0 away from ki
                    assert forall|i: int| 0 <= i < n1 implies #[trigger] from_slot(
                        outer0,
                        outer1,
                        ki as int,
                        i,
                    ) by {
                        if i == ki as int {
                            assert((ki as int) != n0 - 1);
                            assert(outer1[i] == outer0[n0 - 1]);
                        } else {
                            assert(outer1[i] == outer0[i]);
                        }
                    }
                    assert forall|i: int, j: int| 0 <= i < j < outer2.len() implies outer2[i].0@
                        != outer2[j].0@ by {
                        if j < n1 {
                            assert(from_slot(outer0, outer1, ki as int, i));
                            let oi = choose|o: int|
                                0 <= o < outer0.len() && o != ki as int && outer1[i]
                                    == #[trigger] outer0[o] && (i == o || (i == ki as int && o
                                    == outer0.len() - 1));
                            assert(from_slot(outer0, outer1, ki as int, j));
                            let oj = choose|o: int|
                                0 <= o < outer0.len() && o != ki as int && outer1[j]
                                    == #[trigger] outer0[o] && (j == o || (j == ki as int && o
                                    == outer0.len() - 1));
                            assert(outer2[i] == outer0[oi] && outer2[j] == outer0[oj]);
                            assert(oi != oj);
                        } else {
                            assert(outer2[j].0@ == key@);
                            assert(from_slot(outer0, outer1, ki as int, i));
                            let oi = choose|o: int|
                                0 <= o < outer0.len() && o != ki as int && outer1[i]
                                    == #[trigger] outer0[o] && (i == o || (i == ki as int && o
                                    == outer0.len() - 1));
                            assert(outer0[oi].0@ != outer0[ki as int].0@);
                        }
                    }
                    assert forall|i: int| 0 <= i < outer2.len() implies wf_mid(
                        #[trigger] outer2[i].1@,
                    ) && outer2[i].1@.len() > 0 by {
                        if i < n1 {
                            assert(from_slot(outer0, outer1, ki as int, i));
                            let o = choose|o: int|
                                0 <= o < outer0.len() && o != ki as int && outer1[i]
                                    == #[trigger] outer0[o] && (i == o || (i == ki as int && o
                                    == outer0.len() - 1));
                            assert(outer2[i] == outer0[o]);
                        } else {
                            assert(outer2[i].1@ == newmid);
                        }
                    }
                    assert(wf_outer(outer2));
                    lemma_outer_unique(outer2, key@, n1);
                    assert(self.mid_of(e.key) == newmid);
                    assert forall|k: Seq<char>| k != e.key implies self.mid_of(k) == pre.mid_of(
                        k,
                    ) by {
                        if outer_has(outer0, k) {
                            let i = outer_idx(outer0, k);
                            lemma_outer_unique(outer0, k, i);
                            assert(i != ki as int);
                            if i < n0 - 1 && i != ki as int {
                                assert(outer1[i] == outer0[i]);
                                assert(outer2[i] == outer0[i]);
                                lemma_outer_unique(outer2, k, i);
                            } else {
                                assert(i == n0 - 1);
                                assert((ki as int) < n0 - 1);
                                assert(outer2[ki as int] == outer0[i]);
                                lemma_outer_unique(outer2, k, ki as int);
                            }
                        } else {
                            if outer_has(outer2, k) {
                                let i = outer_idx(outer2, k);
                                assert(0 <= i < n1);
                                assert(from_slot(outer0, outer1, ki as int, i));
                                let o = choose|o: int|
                                    0 <= o < outer0.len() && o != ki as int && outer1[i]
                                        == #[trigger] outer0[o] && (i == o || (i == ki as int && o
                                        == outer0.len() - 1));
                                assert(outer0[o].0@ == k);
                                assert(false);
                            }
                        }
                    }
                    // lift the group-level clauses to the store level
                    assert forall|s2: u64, x: Id|
                        self.contains_triple(e.key, s2, x) <==> pre.contains_triple(e.key, s2, x)
                            || (s2 == e.seq && x == e.id) by {
                        if s2 != e.seq {
                            if mid_has(oldmid, s2) {
                                assert(mid_at(newmid, s2) == mid_at(oldmid, s2));
                            }
                        }
                    }
                    assert forall|s2: u64, x: Id|
                        pre.contains_triple(e.key, s2, x) && !(s2 == e.seq && x == e.id) implies
                        self.value_at(e.key, s2, x) == pre.value_at(e.key, s2, x) by {
                        if s2 != e.seq {
                            assert(mid_at(newmid, s2) == mid_at(oldmid, s2));
                        }
                    }
                    if forall|s2: u64| pre.contains_seq(e.key, s2) ==> s2 < e.seq {
                        assert forall|s2: u64| mid_has(oldmid, s2) implies s2 < seq.num by {
                            assert(pre.contains_seq(e.key, s2));
                        }
                        assert(newmid.len() == oldmid.len() + 1);
                        assert(newmid.drop_last() == oldmid);
                        assert(newmid.last().1@ == seq_singleton_row(id, val));
                        assert forall|u: int| 0 <= u < oldmid.len() implies newmid[u]
                            == oldmid[u] by {
                            assert(newmid.drop_last()[u] == oldmid[u]);
                        }
                        assert(newmid =~= oldmid.push(newmid.last()));
                        lemma_push_desc(e.key, oldmid, newmid.last(), 0);
                        assert(group_entries(e.key, newmid.last()).len() == 1);
                        assert(group_entries(e.key, newmid.last())[0] =~= e);
                        assert(group_entries(e.key, newmid.last()) =~= seq![e]);
                        assert(self.entries_desc(e.key) =~= seq![e] + pre.entries_desc(e.key));
                    }
                }
            },
        }
    }
}

/// Does one of the first `n` entries carry the identifying triple
/// `(k, s, id)`?
pub open spec fn among(entries: Seq<Entry>, n: int, k: Seq<char>, s: u64, id: Id) -> bool {
    exists|m: int|
        0 <= m < n && (#[trigger] entries[m])@.key == k && entries[m]@.seq == s && entries[m]@.id
            == id
}

/// Entry `m` is the last one among the first `n` to write its triple.
pub open spec fn latest_write(entries: Seq<Entry>, n: int, m: int) -> bool {
    forall|m2: int|
        m < m2 < n ==> !((#[trigger] entries[m2])@.key == entries[m]@.key && entries[m2]@.seq
            == entries[m]@.seq && entries[m2]@.id == entries[m]@.id)
}

impl Data {
    /// Store every entry of the list, in order; a later duplicate of a
    /// triple overwrites an earlier one.
    pub fn ingest(&mut self, entries: Vec<Entry>)
        requires
            old(self).wf(),
        ensures
            final(self).wf(),
            forall|k: Seq<char>, s: u64, id: Id|
                final(self).contains_triple(k, s, id) <==> old(self).contains_triple(k, s, id)
                    || among(entries@, entries@.len() as int, k, s, id),
            forall|m: int|
                0 <= m < entries@.len() && latest_write(entries@, entries@.len() as int, m)
                    ==> final(self).value_at(
                    (#[trigger] entries@[m])@.key,
                    entries@[m]@.seq,
                    entries@[m]@.id,
                ) == entries@[m]@.val,
            forall|k: Seq<char>, s: u64, id: Id|
                old(self).contains_triple(k, s, id) && !among(
                    entries@,
                    entries@.len() as int,
                    k,
                    s,
                    id,
                ) ==> final(self).value_at(k, s, id) == old(self).value_at(k, s, id),
    {
        let ghost pre = *self;
        let n = entries.len();
        let mut i: usize = 0;
        while i < n
            invariant
                i <= n,
                n == entries@.len(),
                self.wf(),
                forall|k: Seq<char>, s: u64, id: Id|
                    self.contains_triple(k, s, id) <==> pre.contains_triple(k, s, id) || among(
                        entries@,
                        i as int,
                        k,
                        s,
                        id,
                    ),
                forall|m: int|
                    0 <= m < i && latest_write(entries@, i as int, m) ==> self.value_at(
                        (#[trigger] entries@[m])@.key,
                        entries@[m]@.seq,
                        entries@[m]@.id,
                    ) == entries@[m]@.val,
                forall|k: Seq<char>, s: u64, id: Id|
                    pre.contains_triple(k, s, id) && !among(entries@, i as int, k, s, id)
                        ==> self.value_at(k, s, id) == pre.value_at(k, s, id),
            decreases n - i,
        {
            let ghost before = *self;
            proof {
                assert(forall|k: Seq<char>, s: u64, id: Id|
                    before.contains_triple(k, s, id) <==> pre.contains_triple(k, s, id) || among(
                        entries@,
                        i as int,
                        k,
                        s,
                        id,
                    ));
                assert(forall|m: int|
                    0 <= m < i && latest_write(entries@, i as int, m) ==> before.value_at(
                        (#[trigger] entries@[m])@.key,
                        entries@[m]@.seq,
                        entries@[m]@.id,
                    ) == entries@[m]@.val);
                assert(forall|k: Seq<char>, s: u64, id: Id|
                    pre.contains_triple(k, s, id) && !among(entries@, i as int, k, s, id)
                        ==> before.value_at(k, s, id) == pre.value_at(k, s, id));
            }
            let e = entries[i].duplicate();
            self.insert(e);
            proof {
                assert(e@ == entries@[i as int]@);
                assert forall|k: Seq<char>, s: u64, id: Id| self.contains_triple(k, s, id) implies
                    (pre.contains_triple(k, s, id) || among(entries@, i + 1, k, s, id)) by {
                    if before.contains_triple(k, s, id) {
                        if !pre.contains_triple(k, s, id) {
                            assert(among(entries@, i as int, k, s, id));
                            let m = choose|m: int|
                                0 <= m < i && (#[trigger] entries@[m])@.key == k
                                    && entries@[m]@.seq == s && entries@[m]@.id == id;
                            assert(among(entries@, i + 1, k, s, id));
                        }
                    } else {
                        assert(k == e@.key && s == e@.seq && id == e@.id);
                        assert((entries@[i as int])@.key == k && entries@[i as int]@.seq == s
                            && entries@[i as int]@.id == id);
                        assert(among(entries@, i + 1, k, s, id));
                    }
                }
                assert forall|k: Seq<char>, s: u64, id: Id|
                    (pre.contains_triple(k, s, id) || among(entries@, i + 1, k, s, id)) implies
                    self.contains_triple(k, s, id) by {
                    if pre.contains_triple(k, s, id) {
                        assert(before.contains_triple(k, s, id));
                    } else {
                        let m = choose|m: int|
                            0 <= m < i + 1 && (#[trigger] entries@[m])@.key == k
                                && entries@[m]@.seq == s && entries@[m]@.id == id;
                        if m < i {
                            assert(among(entries@, i as int, k, s, id));
                            assert(before.contains_triple(k, s, id));
                        } else {
                            assert(k == e@.key && s == e@.seq && id == e@.id);
                        }
                    }
                }
                assert forall|m: int|
                    0 <= m < i + 1 && latest_write(entries@, i + 1, m) implies self.value_at(
                    (#[trigger] entries@[m])@.key,
                    entries@[m]@.seq,
                    entries@[m]@.id,
                ) == entries@[m]@.val by {
                    if m == i {
                        assert(self.value_at(e@.key, e@.seq, e@.id) == e@.val);
                    } else {
                        assert(latest_write(entries@, i as int, m));
                        assert(before.value_at(
                            entries@[m]@.key,
                            entries@[m]@.seq,
                            entries@[m]@.id,
                        ) == entries@[m]@.val);
                        assert((#[trigger] entries@[m])@.key == entries@[m]@.key);
                        assert(among(entries@, i as int, entries@[m]@.key, entries@[m]@.seq,
                            entries@[m]@.id));
                        assert(before.contains_triple(
                            entries@[m]@.key,
                            entries@[m]@.seq,
                            entries@[m]@.id,
                        ));
                        assert(!(entries@[i as int]@.key == entries@[m]@.key
                            && entries@[i as int]@.seq == entries@[m]@.seq
                            && entries@[i as int]@.id == entries@[m]@.id));
                    }
                }
                assert forall|k: Seq<char>, s: u64, id: Id|
                    pre.contains_triple(k, s, id) && !among(entries@, i + 1, k, s, id) implies
                    self.value_at(k, s, id) == pre.value_at(k, s, id) by {
                    assert(!among(entries@, i as int, k, s, id)) by {
                        if among(entries@, i as int, k, s, id) {
                            let m = choose|m: int|
                                0 <= m < i && (#[trigger] entries@[m])@.key == k
                                    && entries@[m]@.seq == s && entries@[m]@.id == id;
                            assert(0 <= m < i + 1);
                        }
                    }
                    assert(before.value_at(k, s, id) == pre.value_at(k, s, id));
                    assert(!(k == e@.key && s == e@.seq && id == e@.id)) by {
                        if k == e@.key && s == e@.seq && id == e@.id {
                            assert((#[trigger] entries@[i as int])@.key == k);
                            assert(among(entries@, i + 1, k, s, id));
                        }
                    }
                    assert(before.contains_triple(k, s, id));
                }
            }
            i += 1;
        }
    }

    /// Does the store hold any value under `(key, seq)`?
    pub fn has_seq(&self, key: &String, seq: u64) -> (r: bool)
        requires
            self.wf(),
        ensures
            r == self.contains_seq(key@, seq),
    {
        let ki = match self.find_key_idx(key) {
            Some(i) => i,
            None => {
                return false;
            },
        };
        proof {
            lemma_outer_unique(self.incorporated_data@, key@, ki as int);
        }
        let mid = &self.incorporated_data[ki].1;
        let m = mid.len();
        for j in 0..m
            invariant
                m == mid@.len(),
                mid@ == self.mid_of(key@),
                forall|t: int| 0 <= t < j ==> mid@[t].0 != seq,
        {
            if mid[j].0 == seq {
                return true;
            }
        }
        false
    }

    /// The sequence number the local node assigns to its next value under
    /// `key`: strictly greater than everything stored there, and exactly one
    /// past the newest when the key is present.
    pub fn get_next_id(&self, key: &String) -> (r: SequenceNumber)
        requires
            self.wf(),
            !self.contains_seq(key@, u64::MAX),
        ensures
            forall|s: u64| self.contains_seq(key@, s) ==> s < r.num,
            r.num == 0 || self.contains_seq(key@, (r.num - 1) as u64),
            r.num as int == self.next_seq_spec(key@),
    {
        let ki = match self.find_key_idx(key) {
            Some(i) => i,
            None => {
                proof {
                    assert(self.mid_of(key@) =~= Seq::<(u64, AuthorRow)>::empty());
                }
                return SequenceNumber { num: 0 };
            },
        };
        proof {
            lemma_outer_unique(self.incorporated_data@, key@, ki as int);
        }
        let mid = &self.incorporated_data[ki].1;
        let m = mid.len();
        let top = mid[m - 1].0;
        proof {
            assert(mid@[m - 1].0 == top);
            assert(self.contains_seq(key@, top));
            assert(top != u64::MAX);
            assert forall|s: u64| self.contains_seq(key@, s) implies s < top + 1 by {
                let i = mid_idx(mid@, s);
                assert(mid@[i].0 == s);
                if i < m - 1 {
                    assert(mid@[i].0 < mid@[m - 1].0);
                }
            }
        }
        SequenceNumber { num: top + 1 }
    }

    /// Up to `count` newest entries for `key`: sequence numbers descending,
    /// authors in ascending tag order within one sequence number.
    pub fn get(&self, key: &String, count: usize) -> (r: Vec<Entry>)
        requires
            self.wf(),
        ensures
            views_of(r@) == self.entries_desc(key@).take(
                vstd::math::min(count as int, self.entries_desc(key@).len() as int),
            ),
            r@.len() <= count,
    {
        let ghost goal = self.entries_desc(key@);
        let mut out: Vec<Entry> = Vec::new();
        let ki = match self.find_key_idx(key) {
            Some(i) => i,
            None => {
                proof {
                    assert(self.mid_of(key@) =~= Seq::<(u64, AuthorRow)>::empty());
                    assert(views_of(out@) =~= goal.take(
                        vstd::math::min(count as int, goal.len() as int),
                    ));
                }
                return out;
            },
        };
        proof {
            lemma_outer_unique(self.incorporated_data@, key@, ki as int);
        }
        let mid = &self.incorporated_data[ki].1;
        let m = mid.len();
        let mut j = m;
        proof {
            assert(flat_desc(key@, mid@, j as int) =~= Seq::<EntryV>::empty());
            assert(views_of(out@) =~= flat_desc(key@, mid@, j as int));
        }
        while j > 0 && out.len() < count
            invariant
                j <= m,
                m == mid@.len(),
                mid@ == self.mid_of(key@),
                wf_mid(mid@),
                goal == flat_desc(key@, mid@, 0),
                out@.len() <= count,
                out@.len() < count ==> views_of(out@) == flat_desc(key@, mid@, j as int),
                out@.len() == count ==> views_of(out@) == goal.take(count as int) && goal.len()
                    >= count,
            decreases j,
        {
            j -= 1;
            let ghost done = flat_desc(key@, mid@, j as int + 1);
            let ghost grp = group_entries(key@, mid@[j as int]);
            proof {
                assert(flat_desc(key@, mid@, j as int) == done + grp);
            }
            let inner = &mid[j].1;
            let c = inner.len();
            let sq = mid[j].0;
            let mut t: usize = 0;
            while t < c && out.len() < count
                invariant
                    t <= c,
                    c == inner@.len(),
                    inner@ == mid@[j as int].1@,
                    sq == mid@[j as int].0,
                    j < m,
                    m == mid@.len(),
                    mid@ == self.mid_of(key@),
                    wf_mid(mid@),
                    goal == flat_desc(key@, mid@, 0),
                    done == flat_desc(key@, mid@, j as int + 1),
                    grp == group_entries(key@, mid@[j as int]),
                    out@.len() <= count,
                    out@.len() == done.len() + t,
                    views_of(out@) == done + grp.take(t as int),
                decreases c - t,
            {
                let e = Entry {
                    id: inner[t].0,
                    seq: SequenceNumber { num: sq },
                    key: key.clone(),
                    val: inner[t].1.clone(),
                };
                proof {
                    assert(e@ =~= grp[t as int]);
                }
                let ghost prev = out@;
                out.push(e);
                t += 1;
                proof {
                    assert(out@ == prev.push(e));
                    assert(views_of(out@) =~= views_of(prev).push(e@));
                    assert(views_of(prev).push(grp[t - 1]) =~= done + grp.take(t as int));
                }
            }
            proof {
                if t == c {
                    assert(grp.take(t as int) =~= grp);
                    assert(views_of(out@) =~= flat_desc(key@, mid@, j as int));
                    if out@.len() == count {
                        assert(views_of(out@) =~= flat_desc(key@, mid@, j as int).take(
                            count as int,
                        ));
                        lemma_flat_take(key@, mid@, j as int, count as int);
                    }
                } else {
                    assert(out@.len() == count);
                    assert(views_of(out@) =~= (done + grp).take(count as int));
                    assert(count <= flat_desc(key@, mid@, j as int).len());
                    lemma_flat_take(key@, mid@, j as int, count as int);
                }
            }
        }
        proof {
            if out@.len() < count {
                assert(j == 0);
                assert(views_of(out@) == goal);
                assert(goal.take(vstd::math::min(count as int, goal.len() as int)) =~= goal);
            } else {
                assert(goal.take(vstd::math::min(count as int, goal.len() as int)) =~= goal.take(
                    count as int,
                ));
            }
        }
        out
    }
}

/// A value stored under a sequence number fresher than everything its key
/// holds becomes the newest entry: a read of that key returns it first.
pub proof fn lemma_set_then_get(pre: Data, post: Data, e: EntryV)
    requires
        pre.wf(),
        insert_post(pre, post, e),
        forall|s: u64| pre.contains_seq(e.key, s) ==> s < e.seq,
    ensures
        post.entries_desc(e.key).len() > 0,
        post.entries_desc(e.key)[0] == e,
{
    assert(post.entries_desc(e.key) == seq![e] + pre.entries_desc(e.key));
}

/// Truncating the newest-first listing to `c` entries does not depend on
/// how many older groups stand below them.
pub proof fn lemma_flat_take(k: Seq<char>, mid: Seq<(u64, AuthorRow)>, j: int, c: int)
    requires
        0 <= j <= mid.len(),
        0 <= c <= flat_desc(k, mid, j).len(),
    ensures
        flat_desc(k, mid, 0).take(c) == flat_desc(k, mid, j).take(c),
        flat_desc(k, mid, 0).len() >= flat_desc(k, mid, j).len(),
    decreases j,
{
    if j > 0 {
        assert(flat_desc(k, mid, j - 1) == flat_desc(k, mid, j) + group_entries(k, mid[j - 1]));
        assert(flat_desc(k, mid, j - 1).take(c) =~= flat_desc(k, mid, j).take(c));
        lemma_flat_take(k, mid, j - 1, c);
    }
}

/// After removing slot `ki` by a swap with the last slot, every remaining
/// slot carries one of the earlier elements away from slot `ki`.
pub open spec fn from_slot(
    outer0: Seq<(String, SeqRows)>,
    outer1: Seq<(String, SeqRows)>,
    ki: int,
    i: int,
) -> bool {
    exists|o: int|
        0 <= o < outer0.len() && o != ki && outer1[i] == #[trigger] outer0[o] && (i == o || (i == ki
            && o == outer0.len() - 1))
}

/// With unique keys, any index holding `k` is the chosen one.
pub proof fn lemma_outer_unique(outer: Seq<(String, SeqRows)>, k: Seq<char>, i: int)
    requires
        wf_outer(outer),
        0 <= i < outer.len(),
        outer[i].0@ == k,
    ensures
        outer_has(outer, k),
        outer_idx(outer, k) == i,
        outer_at(outer, k) == outer[i].1@,
{
    assert(outer_has(outer, k));
    let j = outer_idx(outer, k);
    if i < j {
        assert(outer[i].0@ != outer[j].0@);
    } else if j < i {
        assert(outer[j].0@ != outer[i].0@);
    }
}

/// With sorted sequence numbers, any index holding `s` is the chosen one.
pub proof fn lemma_mid_unique(mid: Seq<(u64, AuthorRow)>, s: u64, i: int)
    requires
        wf_mid(mid),
        0 <= i < mid.len(),
        mid[i].0 == s,
    ensures
        mid_has(mid, s),
        mid_idx(mid, s) == i,
        mid_at(mid, s) == mid[i].1@,
{
    assert(mid_has(mid, s));
    let j = mid_idx(mid, s);
    if i < j {
        assert(mid[i].0 < mid[j].0);
    } else if j < i {
        assert(mid[j].0 < mid[i].0);
    }
}

/// With sorted author tags, any index holding `id` is the chosen one.
pub proof fn lemma_inner_unique(inner: Seq<(Id, String)>, id: Id, i: int)
    requires
        wf_inner(inner),
        0 <= i < inner.len(),
        inner[i].0 == id,
    ensures
        inner_has(inner, id),
        inner_idx(inner, id) == i,
        inner_at(inner, id) == inner[i].1@,
{
    assert(inner_has(inner, id));
    let j = inner_idx(inner, id);
    if i < j {
        assert(inner[i].0.tmp < inner[j].0.tmp);
    } else if j < i {
        assert(inner[j].0.tmp < inner[i].0.tmp);
    }
}

} // verus!
