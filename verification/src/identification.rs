use vstd::prelude::*;

use crate::id::Id;

verus! {

/// Trust levels are carried in ten-thousandths: the neutral default 0.5 is
/// 5000, full trust 1.0 is 10000.
pub const DEFAULT_TRUST: i32 = 5000;

/// A peer whose effective trust reaches 0.75 is trusted.
pub const TRUSTED_LEVEL: i64 = 7500;

/// A peer whose effective trust falls to 0.25 is distrusted.
pub const DISTRUSTED_LEVEL: i64 = 2500;

/// Clamp a base-trust value to the representable range `[0, 1]`.
pub open spec fn clamp_tt(x: int) -> int {
    if x < 0 {
        0
    } else if x > 10000 {
        10000
    } else {
        x
    }
}

/// Truncating division by ten thousand, as the machine computes it.
pub open spec fn div_tt(a: int) -> int {
    if a >= 0 {
        a / 10000
    } else {
        -((-a) / 10000)
    }
}

/// What one reporter's opinion adds to a peer's score: the reporter's own
/// base trust, weighted by how far its reported level sits from neutral.
pub open spec fn contribution(base_of_from: int, level: int) -> int {
    div_tt(base_of_from * (level - 5000))
}

pub open spec fn rows_has(rows: Seq<(Id, i32)>, id: Id) -> bool {
    exists|i: int| 0 <= i < rows.len() && rows[i].0 == id
}

pub open spec fn rows_idx(rows: Seq<(Id, i32)>, id: Id) -> int {
    choose|i: int| 0 <= i < rows.len() && rows[i].0 == id
}

pub open spec fn rows_at(rows: Seq<(Id, i32)>, id: Id) -> int {
    rows[rows_idx(rows, id)].1 as int
}

/// Reporter rows sorted strictly ascending by tag: unique reporters, and
/// never more rows than there are tags.
pub open spec fn rows_sorted(rows: Seq<(Id, i32)>) -> bool {
    forall|i: int, j: int| 0 <= i < j < rows.len() ==> rows[i].0.tmp < rows[j].0.tmp
}

pub open spec fn offs_has(offs: Seq<(Id, Vec<(Id, i32)>)>, of: Id) -> bool {
    exists|i: int| 0 <= i < offs.len() && offs[i].0 == of
}

pub open spec fn offs_idx(offs: Seq<(Id, Vec<(Id, i32)>)>, of: Id) -> int {
    choose|i: int| 0 <= i < offs.len() && offs[i].0 == of
}

pub open spec fn offs_at(offs: Seq<(Id, Vec<(Id, i32)>)>, of: Id) -> Seq<(Id, i32)> {
    offs[offs_idx(offs, of)].1@
}

/// The local node's opinion of its peers: a direct base trust per peer and,
/// per peer, the reported opinions of other peers.
pub struct Identification {
    us: Id,
    base_trust: Vec<(Id, i32)>,
    trust_offset: Vec<(Id, Vec<(Id, i32)>)>,
}

impl Identification {
    pub closed spec fn us_spec(self) -> Id {
        self.us
    }

    /// Is a base-trust value recorded for `id`? The local node itself never
    /// has one: self-trust is neither stored nor used.
    pub closed spec fn stores_base(self, id: Id) -> bool {
        rows_has(self.base_trust@, id)
    }

    pub closed spec fn wf(self) -> bool {
        &&& forall|i: int, j: int|
            0 <= i < j < self.base_trust@.len() ==> self.base_trust@[i].0
                != self.base_trust@[j].0
        &&& forall|i: int|
            0 <= i < self.base_trust@.len() ==> 0 <= (#[trigger] self.base_trust@[i]).1 <= 10000
        &&& forall|i: int|
            0 <= i < self.base_trust@.len() ==> (#[trigger] self.base_trust@[i]).0 != self.us
        &&& forall|i: int, j: int|
            0 <= i < j < self.trust_offset@.len() ==> self.trust_offset@[i].0
                != self.trust_offset@[j].0
        &&& forall|i: int|
            0 <= i < self.trust_offset@.len() ==> (#[trigger] self.trust_offset@[i]).0 != self.us
        &&& forall|i: int|
            0 <= i < self.trust_offset@.len() ==> rows_sorted(
                (#[trigger] self.trust_offset@[i]).1@,
            )
        &&& forall|i: int, j: int|
            0 <= i < self.trust_offset@.len() && 0 <= j < self.trust_offset@[i].1@.len()
                ==> -32768 <= (#[trigger] self.trust_offset@[i].1@[j]).1 <= 32767
    }

    /// The node's direct opinion of `id`, defaulting to neutral.
    pub closed spec fn spec_base(self, id: Id) -> int {
        if rows_has(self.base_trust@, id) {
            rows_at(self.base_trust@, id)
        } else {
            5000
        }
    }

    /// The reported opinions recorded about `of` (empty if none).
    pub closed spec fn offset_row(self, of: Id) -> Seq<(Id, i32)> {
        if offs_has(self.trust_offset@, of) {
            offs_at(self.trust_offset@, of)
        } else {
            Seq::empty()
        }
    }

    /// The sum of the first `n` reporters' contributions about a peer.
    pub open spec fn sum_prefix(self, rows: Seq<(Id, i32)>, n: int) -> int
        decreases n,
    {
        if n <= 0 {
            0
        } else {
            self.sum_prefix(rows, n - 1) + contribution(
                self.spec_base(rows[n - 1].0),
                rows[n - 1].1 as int,
            )
        }
    }

    /// The second-hand part of a peer's score.
    pub open spec fn spec_offset(self, of: Id) -> int {
        self.sum_prefix(self.offset_row(of), self.offset_row(of).len() as int)
    }

    /// The effective score: direct opinion plus weighted reports.
    pub open spec fn spec_trust(self, of: Id) -> int {
        self.spec_base(of) + self.spec_offset(of)
    }

    pub open spec fn spec_trusted(self, of: Id) -> bool {
        self.spec_trust(of) >= TRUSTED_LEVEL as int
    }

    pub open spec fn spec_distrusted(self, of: Id) -> bool {
        self.spec_trust(of) <= DISTRUSTED_LEVEL as int
    }

    pub fn new(us: Id) -> (r: Self)
        ensures
            r.wf(),
            r.us_spec() == us,
            forall|id: Id| !r.stores_base(id),
            forall|id: Id| r.spec_base(id) == 5000,
            forall|id: Id| r.offset_row(id) == Seq::<(Id, i32)>::empty(),
            forall|id: Id| r.spec_trust(id) == 5000,
    {
        let r = Self { us, base_trust: Vec::new(), trust_offset: Vec::new() };
        proof {
            assert forall|id: Id| r.spec_trust(id) == 5000 by {
                assert(!rows_has(r.base_trust@, id));
                assert(!offs_has(r.trust_offset@, id));
            }
        }
        r
    }

    pub fn is_us(&self, id: &Id) -> (r: bool)
        ensures
            r == (*id == self.us_spec()),
    {
        self.us == *id
    }

    fn find_base_idx(&self, id: &Id) -> (r: Option<usize>)
        ensures
            match r {
                Some(i) => i < self.base_trust@.len() && self.base_trust@[i as int].0 == *id
                    && rows_has(self.base_trust@, *id),
                None => !rows_has(self.base_trust@, *id),
            },
    {
        let n = self.base_trust.len();
        for i in 0..n
            invariant
                n == self.base_trust@.len(),
                forall|m: int| 0 <= m < i ==> self.base_trust@[m].0 != *id,
        {
            if self.base_trust[i].0 == *id {
                return Some(i);
            }
        }
        None
    }

    /// The node's direct opinion of `of`, in ten-thousandths.
    pub fn get_base(&self, of: &Id) -> (r: i32)
        requires
            self.wf(),
        ensures
            r as int == self.spec_base(*of),
            0 <= r <= 10000,
    {
        match self.find_base_idx(of) {
            Some(i) => {
                proof {
                    lemma_rows_unique_by_distinct(self.base_trust@, *of, i as int);
                }
                self.base_trust[i].1
            },
            None => DEFAULT_TRUST,
        }
    }

    fn find_offs_idx(&self, of: &Id) -> (r: Option<usize>)
        ensures
            match r {
                Some(i) => i < self.trust_offset@.len() && self.trust_offset@[i as int].0 == *of
                    && offs_has(self.trust_offset@, *of),
                None => !offs_has(self.trust_offset@, *of),
            },
    {
        let n = self.trust_offset.len();
        for i in 0..n
            invariant
                n == self.trust_offset@.len(),
                forall|m: int| 0 <= m < i ==> self.trust_offset@[m].0 != *of,
        {
            if self.trust_offset[i].0 == *of {
                return Some(i);
            }
        }
        None
    }

    /// The second-hand part of the score of `of`, in ten-thousandths.
    pub fn get_offset(&self, of: &Id) -> (r: i64)
        requires
            self.wf(),
        ensures
            r as int == self.spec_offset(*of),
            -2700000000 <= r <= 2700000000,
    {
        let ri = match self.find_offs_idx(of) {
            Some(i) => i,
            None => {
                proof {
                    assert(self.offset_row(*of) =~= Seq::<(Id, i32)>::empty());
                }
                return 0;
            },
        };
        proof {
            lemma_offs_unique(self.trust_offset@, *of, ri as int);
        }
        let rows = &self.trust_offset[ri].1;
        let c = rows.len();
        proof {
            lemma_sorted_rows_len(rows@);
        }
        let mut acc: i64 = 0;
        let mut t: usize = 0;
        while t < c
            invariant
                t <= c,
                c == rows@.len() <= 65536,
                (ri as int) < self.trust_offset@.len(),
                rows@ == self.trust_offset@[ri as int].1@,
                rows@ == self.offset_row(*of),
                self.wf(),
                acc as int == self.sum_prefix(rows@, t as int),
                -40000 * (t as int) <= acc as int <= 40000 * (t as int),
            decreases c - t,
        {
            let from = rows[t].0;
            let level = rows[t].1;
            proof {
                assert(rows@[t as int] == self.trust_offset@[ri as int].1@[t as int]);
                assert(-32768 <= level <= 32767);
            }
            let base = self.get_base(&from) as i64;
            let diff: i64 = (level as i64) - 5000;
            proof {
                assert(base * diff <= 10000 * 32767) by (nonlinear_arith)
                    requires
                        0 <= base <= 10000,
                        diff <= 32767,
                ;
                assert(base * diff >= -(10000 * 37768)) by (nonlinear_arith)
                    requires
                        0 <= base <= 10000,
                        -37768 <= diff,
                ;
                if diff < 0 {
                    assert(base * (-diff) == -(base * diff)) by (nonlinear_arith);
                }
            }
            let weighted: i64 = if diff >= 0 {
                (base * diff) / 10000
            } else {
                -((base * (-diff)) / 10000)
            };
            proof {
                assert(weighted as int == contribution(self.spec_base(from), level as int));
                assert(-40000 <= weighted <= 40000);
            }
            acc = acc + weighted;
            t += 1;
        }
        acc
    }

    /// The effective score of `of`, in ten-thousandths.
    pub fn get_trust(&self, of: &Id) -> (r: i64)
        requires
            self.wf(),
        ensures
            r as int == self.spec_trust(*of),
    {
        let base = self.get_base(of) as i64;
        let offset = self.get_offset(of);
        base + offset
    }

    pub fn is_trusted(&self, id: &Id) -> (r: bool)
        requires
            self.wf(),
        ensures
            r == self.spec_trusted(*id),
    {
        self.get_trust(id) >= TRUSTED_LEVEL
    }

    pub fn is_neutral(&self, id: &Id) -> (r: bool)
        requires
            self.wf(),
        ensures
            r == (!self.spec_trusted(*id) && !self.spec_distrusted(*id)),
    {
        let t = self.get_trust(id);
        t < TRUSTED_LEVEL && t > DISTRUSTED_LEVEL
    }

    pub fn is_distrusted(&self, id: &Id) -> (r: bool)
        requires
            self.wf(),
        ensures
            r == self.spec_distrusted(*id),
    {
        self.get_trust(id) <= DISTRUSTED_LEVEL
    }

    /// The recorded base-trust table, one row per peer with a stored
    /// opinion, in ten-thousandths.
    pub fn base_trust(&self) -> (r: Vec<(Id, i32)>)
        requires
            self.wf(),
        ensures
            r@.len() == self.base_trust_rows().len(),
            forall|i: int| 0 <= i < r@.len() ==> r@[i] == self.base_trust_rows()[i],
            forall|i: int|
                0 <= i < r@.len() ==> self.stores_base((#[trigger] r@[i]).0) && r@[i].1 as int
                    == self.spec_base(r@[i].0) && 0 <= r@[i].1 <= 10000,
    {
        let n = self.base_trust.len();
        let mut out: Vec<(Id, i32)> = Vec::new();
        for i in 0..n
            invariant
                n == self.base_trust@.len(),
                self.wf(),
                out@.len() == i,
                forall|m: int| 0 <= m < i ==> out@[m] == self.base_trust@[m],
        {
            out.push(self.base_trust[i]);
        }
        proof {
            assert forall|i: int| 0 <= i < out@.len() implies self.stores_base(
                (#[trigger] out@[i]).0,
            ) && out@[i].1 as int == self.spec_base(out@[i].0) by {
                assert(self.base_trust@[i].0 == out@[i].0);
                lemma_rows_unique_by_distinct(self.base_trust@, out@[i].0, i);
            }
        }
        out
    }

    /// The raw rows of the base-trust table.
    pub closed spec fn base_trust_rows(self) -> Seq<(Id, i32)> {
        self.base_trust@
    }
}

/// How one base-trust change reshapes the ledger: the target's stored
/// opinion moves by `delta` and is clamped to `[0, 1]`; a change aimed at
/// the local node itself is a no-op; nothing else moves.
pub open spec fn change_trust_post(
    pre: Identification,
    post: Identification,
    id: Id,
    delta: int,
) -> bool {
    &&& post.wf()
    &&& post.us_spec() == pre.us_spec()
    &&& (id == pre.us_spec() ==> post == pre)
    &&& (id != pre.us_spec() ==> post.spec_base(id) == clamp_tt(pre.spec_base(id) + delta)
        && post.stores_base(id))
    &&& forall|x: Id| x != id ==> post.spec_base(x) == pre.spec_base(x)
    &&& forall|x: Id| post.offset_row(x) == pre.offset_row(x)
    &&& forall|x: Id| x != id ==> (post.stores_base(x) <==> pre.stores_base(x))
}

/// How recording one report reshapes the ledger: the reporter's row under
/// the subject peer now carries `level`; no base trust and no other row
/// moves. A report about the local node itself is ignored whole, so
/// self-trust is never stored and the node's own score never moves.
pub open spec fn adjust_offset_post(
    pre: Identification,
    post: Identification,
    from: Id,
    of: Id,
    level: int,
) -> bool {
    &&& post.wf()
    &&& post.us_spec() == pre.us_spec()
    &&& (of == pre.us_spec() ==> post == pre)
    &&& forall|x: Id| post.spec_base(x) == pre.spec_base(x)
    &&& forall|x: Id| post.stores_base(x) <==> pre.stores_base(x)
    &&& forall|x: Id| x != of ==> post.offset_row(x) == pre.offset_row(x)
    &&& of != pre.us_spec() ==> (rows_has(post.offset_row(of), from) && rows_at(
        post.offset_row(of),
        from,
    ) == level && (forall|x: Id|
        x != from ==> ((rows_has(post.offset_row(of), x) <==> rows_has(pre.offset_row(of), x))
            && (rows_has(pre.offset_row(of), x) ==> rows_at(post.offset_row(of), x) == rows_at(
            pre.offset_row(of),
            x,
        )))))
}

impl Identification {
    /// Replace or create the stored base-trust row for `id`.
    fn set_base(&mut self, id: Id, v: i32)
        requires
            old(self).wf(),
            0 <= v <= 10000,
            id != old(self).us_spec(),
        ensures
            final(self).wf(),
            final(self).us_spec() == old(self).us_spec(),
            final(self).spec_base(id) == v as int,
            final(self).stores_base(id),
            forall|x: Id| x != id ==> final(self).spec_base(x) == old(self).spec_base(x),
            forall|x: Id| x != id ==> (final(self).stores_base(x) <==> old(self).stores_base(x)),
            forall|x: Id| final(self).offset_row(x) == old(self).offset_row(x),
    {
        let ghost pre = *self;
        let ghost rows0 = self.base_trust@;
        match self.find_base_idx(&id) {
            Some(i) => {
                let _ = self.base_trust.remove(i);
                self.base_trust.push((id, v));
                proof {
                    let rows1 = rows0.remove(i as int);
                    let rows2 = self.base_trust@;
                    assert(rows2 =~= rows1.push((id, v)));
                    let n1 = rows1.len() as int;
                    assert forall|u: int| 0 <= u < n1 implies (rows1[u] == rows0[u] && u < i as int)
                        || (rows1[u] == rows0[u + 1] && u >= i as int) by {}
                    assert forall|u: int| 0 <= u < n1 implies rows1[u].0 != id by {
                        if u < i as int {
                            assert(rows0[u].0 != rows0[i as int].0);
                        } else {
                            assert(rows0[u + 1].0 != rows0[i as int].0);
                        }
                    }
                    assert forall|u: int| 0 <= u < n1 implies 0 <= (#[trigger] rows1[u]).1
                        <= 10000 && rows1[u].0 != pre.us_spec() by {
                        if u < i as int {
                            assert(rows1[u] == rows0[u]);
                        } else {
                            assert(rows1[u] == rows0[u + 1]);
                        }
                    }
                    assert forall|x: Id| rows_has(rows1, x) implies rows_has(rows0, x) by {
                        let u = rows_idx(rows1, x);
                        assert(rows1[u].0 == x);
                        if u < i as int {
                            assert(rows0[u].0 == x);
                        } else {
                            assert(rows0[u + 1].0 == x);
                        }
                    }
                    assert forall|u: int, w: int| 0 <= u < w < n1 implies rows1[u].0
                        != rows1[w].0 by {
                        if w < i as int {
                            assert(rows1[u] == rows0[u] && rows1[w] == rows0[w]);
                        } else if u < i as int {
                            assert(rows1[u] == rows0[u] && rows1[w] == rows0[w + 1]);
                        } else {
                            assert(rows1[u] == rows0[u + 1] && rows1[w] == rows0[w + 1]);
                        }
                    }
                    assert forall|x: Id| x != id && rows_has(rows0, x) implies rows_has(rows1, x)
                        && rows_at(rows1, x) == rows_at(rows0, x) by {
                        let u = rows_idx(rows0, x);
                        assert(rows0[u].0 == x);
                        lemma_rows_unique_by_distinct(rows0, x, u);
                        assert(u != i as int);
                        if u < i as int {
                            assert(rows1[u] == rows0[u]);
                            lemma_rows_unique_by_distinct(rows1, x, u);
                        } else {
                            assert(rows1[u - 1] == rows0[u]);
                            lemma_rows_unique_by_distinct(rows1, x, u - 1);
                        }
                    }
                    lemma_after_upsert(pre, *self, rows0, rows1, id, v);
                }
            },
            None => {
                self.base_trust.push((id, v));
                proof {
                    let rows1 = rows0;
                    let rows2 = self.base_trust@;
                    assert(rows2 =~= rows1.push((id, v)));
                    assert forall|u: int| 0 <= u < rows1.len() implies rows1[u].0 != id by {}
                    assert forall|u: int| 0 <= u < rows1.len() implies 0 <= (#[trigger] rows1[u]).1
                        <= 10000 && rows1[u].0 != pre.us_spec() by {
                        assert(rows1[u] == rows0[u]);
                    }
                    lemma_after_upsert(pre, *self, rows0, rows1, id, v);
                }
            },
        }
    }

    /// Move the node's direct opinion of `id` by `delta` ten-thousandths,
    /// clamped to `[0, 1]`; aimed at the node itself it does nothing.
    pub fn change_trust(&mut self, id: Id, delta: i32)
        requires
            old(self).wf(),
        ensures
            change_trust_post(*old(self), *final(self), id, delta as int),
    {
        if self.is_us(&id) {
            return ;
        }
        let cur = self.get_base(&id);
        let sum: i64 = (cur as i64) + (delta as i64);
        let newv: i32 = if sum < 0 {
            0
        } else if sum > 10000 {
            10000
        } else {
            sum as i32
        };
        self.set_base(id, newv);
    }

    /// Record that peer `from` asserts level `level` (in ten-thousandths,
    /// relative to the neutral 5000) about peer `of`. Reports about the
    /// local node itself are dropped: self-trust is neither stored nor
    /// swayed by peers.
    pub fn adjust_offset(&mut self, from: Id, of: Id, level: i16)
        requires
            old(self).wf(),
        ensures
            adjust_offset_post(*old(self), *final(self), from, of, level as int),
    {
        if self.is_us(&of) {
            return ;
        }
        let ghost pre = *self;
        let ghost offs0 = self.trust_offset@;
        match self.find_offs_idx(&of) {
            Some(ri) => {
                proof {
                    lemma_offs_unique(offs0, of, ri as int);
                }
                let mut row = self.trust_offset.swap_remove(ri);
                let ghost offs1 = self.trust_offset@;
                let ghost old_row = row.1@;
                upsert_row(&mut row.1, from, level as i32);
                let ghost new_row = row.1@;
                self.trust_offset.push(row);
                proof {
                    let offs2 = self.trust_offset@;
                    let n0 = offs0.len() as int;
                    let n1 = offs1.len() as int;
                    assert(old_row == pre.offset_row(of));
                    assert forall|u: int| 0 <= u < n1 implies ((offs1[u] == offs0[u] && u != ri)
                        || (u == ri as int && offs1[u] == offs0[n0 - 1] && ri as int != n0
                            - 1)) by {
                        if u == ri as int {
                            assert(offs1[u] == offs0[n0 - 1]);
                        }
                    }
                    assert forall|u: int, v: int| 0 <= u < v < offs2.len() implies offs2[u].0
                        != offs2[v].0 by {
                        if v < n1 {
                            if u != ri as int && v != ri as int {
                                assert(offs2[u] == offs0[u] && offs2[v] == offs0[v]);
                            } else if u == ri as int {
                                assert(offs2[u] == offs0[n0 - 1] && offs2[v] == offs0[v]);
                            } else {
                                assert(offs2[u] == offs0[u] && offs2[v] == offs0[n0 - 1]);
                            }
                        } else {
                            assert(offs2[v].0 == of);
                            if u != ri as int {
                                assert(offs2[u] == offs0[u]);
                                assert(offs0[u].0 != offs0[ri as int].0);
                            } else {
                                assert(offs2[u] == offs0[n0 - 1]);
                                assert(offs0[n0 - 1].0 != offs0[ri as int].0);
                            }
                        }
                    }
                    assert forall|u: int| 0 <= u < offs2.len() implies rows_sorted(
                        (#[trigger] offs2[u]).1@,
                    ) && (forall|j: int|
                        0 <= j < offs2[u].1@.len() ==> -32768 <= (#[trigger] offs2[u].1@[j]).1
                            <= 32767) by {
                        if u < n1 {
                            if u == ri as int {
                                assert(offs2[u] == offs0[n0 - 1]);
                            } else {
                                assert(offs2[u] == offs0[u]);
                            }
                        } else {
                            assert(offs2[u].1@ == new_row);
                        }
                    }
                    assert(self.wf());
                    lemma_offs_unique(offs2, of, n1);
                    assert(self.offset_row(of) == new_row);
                    assert forall|x: Id| x != of implies self.offset_row(x) == pre.offset_row(
                        x,
                    ) by {
                        if offs_has(offs0, x) {
                            let u = offs_idx(offs0, x);
                            lemma_offs_unique(offs0, x, u);
                            assert(u != ri as int);
                            if u == n0 - 1 {
                                assert((ri as int) < n0 - 1);
                                assert(offs2[ri as int] == offs0[u]);
                                lemma_offs_unique(offs2, x, ri as int);
                            } else {
                                assert(offs2[u] == offs0[u]);
                                lemma_offs_unique(offs2, x, u);
                            }
                        } else {
                            if offs_has(offs2, x) {
                                let u = offs_idx(offs2, x);
                                assert(0 <= u < n1);
                                if u == ri as int {
                                    assert(offs2[u] == offs0[n0 - 1]);
                                } else {
                                    assert(offs2[u] == offs0[u]);
                                }
                                assert(false);
                            }
                        }
                    }
                }
            },
            None => {
                let mut fresh: Vec<(Id, i32)> = Vec::new();
                fresh.push((from, level as i32));
                let ghost new_row = fresh.view();
                self.trust_offset.push((of, fresh));
                proof {
                    let offs2 = self.trust_offset@;
                    let n0 = offs0.len() as int;
                    assert forall|u: int, v: int| 0 <= u < v < offs2.len() implies offs2[u].0
                        != offs2[v].0 by {
                        if v < n0 {
                            assert(offs2[u] == offs0[u] && offs2[v] == offs0[v]);
                        } else {
                            assert(offs2[u] == offs0[u]);
                            assert(offs2[v].0 == of);
                        }
                    }
                    assert forall|u: int| 0 <= u < offs2.len() implies rows_sorted(
                        (#[trigger] offs2[u]).1@,
                    ) && (forall|j: int|
                        0 <= j < offs2[u].1@.len() ==> -32768 <= (#[trigger] offs2[u].1@[j]).1
                            <= 32767) by {
                        if u < n0 {
                            assert(offs2[u] == offs0[u]);
                        } else {
                            assert(offs2[u].1@ == new_row);
                        }
                    }
                    assert(self.wf());
                    lemma_offs_unique(offs2, of, n0);
                    assert(self.offset_row(of) == new_row);
                    assert(new_row[0].0 == from);
                    lemma_rows_unique_by_distinct(new_row, from, 0);
                    assert(!offs_has(offs0, of));
                    assert(pre.offset_row(of) =~= Seq::<(Id, i32)>::empty());
                    assert forall|x: Id| x != of implies self.offset_row(x) == pre.offset_row(
                        x,
                    ) by {
                        if offs_has(offs0, x) {
                            let u = offs_idx(offs0, x);
                            lemma_offs_unique(offs0, x, u);
                            assert(offs2[u] == offs0[u]);
                            lemma_offs_unique(offs2, x, u);
                        } else {
                            if offs_has(offs2, x) {
                                let u = offs_idx(offs2, x);
                                assert(0 <= u < n0);
                                assert(offs2[u] == offs0[u]);
                                assert(false);
                            }
                        }
                    }
                }
            },
        }
    }
}

/// After replacing the row of `id` by a push onto rows that do not hold
/// `id`, the ledger's base lookups behave as a single-row update.
proof fn lemma_after_upsert(
    pre: Identification,
    post: Identification,
    rows0: Seq<(Id, i32)>,
    rows1: Seq<(Id, i32)>,
    id: Id,
    v: i32,
)
    requires
        pre.wf(),
        0 <= v <= 10000,
        id != pre.us_spec(),
        pre.base_trust_rows() == rows0,
        post.base_trust_rows() == rows1.push((id, v)),
        post.us_spec() == pre.us_spec(),
        post.trust_offset_rows() == pre.trust_offset_rows(),
        forall|u: int| 0 <= u < rows1.len() ==> (#[trigger] rows1[u]).0 != id,
        forall|u: int|
            0 <= u < rows1.len() ==> 0 <= (#[trigger] rows1[u]).1 <= 10000 && rows1[u].0
                != pre.us_spec(),
        forall|x: Id| rows_has(rows1, x) ==> rows_has(rows0, x),
        forall|x: Id|
            x != id && rows_has(rows0, x) ==> rows_has(rows1, x) && rows_at(rows1, x) == rows_at(
                rows0,
                x,
            ),
        forall|u: int, v2: int| 0 <= u < v2 < rows1.len() ==> rows1[u].0 != rows1[v2].0,
    ensures
        post.wf(),
        post.spec_base(id) == v as int,
        post.stores_base(id),
        forall|x: Id| x != id ==> post.spec_base(x) == pre.spec_base(x),
        forall|x: Id| x != id ==> (post.stores_base(x) <==> pre.stores_base(x)),
        forall|x: Id| post.offset_row(x) == pre.offset_row(x),
{
    let rows2 = rows1.push((id, v));
    let n1 = rows1.len() as int;
    assert forall|u: int, w: int| 0 <= u < w < rows2.len() implies rows2[u].0 != rows2[w].0 by {
        if w < n1 {
            assert(rows2[u] == rows1[u] && rows2[w] == rows1[w]);
        } else {
            assert(rows2[u] == rows1[u]);
            assert(rows2[w].0 == id);
        }
    }
    assert forall|u: int| 0 <= u < rows2.len() implies 0 <= (#[trigger] rows2[u]).1 <= 10000
        && rows2[u].0 != pre.us_spec() by {
        if u < n1 {
            assert(rows2[u] == rows1[u]);
        }
    }
    assert(post.wf());
    lemma_rows_unique_by_distinct(rows2, id, n1);
    assert forall|x: Id| x != id && rows_has(rows2, x) implies rows_has(rows0, x) && rows_at(
        rows2,
        x,
    ) == rows_at(rows0, x) by {
        let u = rows_idx(rows2, x);
        assert(rows2[u].0 == x);
        assert(u < n1);
        assert(rows2[u] == rows1[u]);
        assert(rows_has(rows1, x));
        assert(rows_has(rows0, x));
        lemma_rows_unique_by_distinct(rows2, x, u);
        lemma_rows_unique_by_distinct(rows1, x, u);
        let w = rows_idx(rows0, x);
        assert(rows0[w].0 == x);
        lemma_rows_unique_by_distinct(rows0, x, w);
    }
    assert forall|x: Id| x != id && rows_has(rows0, x) implies rows_has(rows2, x) by {
        assert(rows_has(rows1, x));
        let u = rows_idx(rows1, x);
        assert(rows1[u].0 == x);
        assert(rows2[u].0 == x);
    }
}

impl Identification {
    /// The raw rows of the reported-opinion table.
    pub closed spec fn trust_offset_rows(self) -> Seq<(Id, Vec<(Id, i32)>)> {
        self.trust_offset@
    }
}

/// Write `v` under `id`, keeping reporter rows sorted; an existing row for
/// the same reporter is overwritten.
fn upsert_row(rows: &mut Vec<(Id, i32)>, id: Id, v: i32)
    requires
        rows_sorted(old(rows)@),
        forall|j: int| 0 <= j < old(rows)@.len() ==> -32768 <= (#[trigger] old(rows)@[j]).1 <= 32767,
        -32768 <= v <= 32767,
    ensures
        rows_sorted(final(rows)@),
        forall|j: int| 0 <= j < final(rows)@.len() ==> -32768 <= (#[trigger] final(rows)@[j]).1 <= 32767,
        rows_has(final(rows)@, id),
        rows_at(final(rows)@, id) == v as int,
        forall|x: Id|
            x != id ==> ((rows_has(final(rows)@, x) <==> rows_has(old(rows)@, x)) && (rows_has(
                old(rows)@,
                x,
            ) ==> rows_at(final(rows)@, x) == rows_at(old(rows)@, x))),
{
    let ghost pre = rows@;
    let c = rows.len();
    let mut t: usize = 0;
    while t < c && rows[t].0.tmp < id.tmp
        invariant
            t <= c,
            c == rows@.len(),
            rows@ == pre,
            forall|u: int| 0 <= u < t ==> pre[u].0.tmp < id.tmp,
        decreases c - t,
    {
        t += 1;
    }
    if t < c && rows[t].0.tmp == id.tmp {
        let _ = rows.remove(t);
        rows.insert(t, (id, v));
        proof {
            assert(pre[t as int].0 == id);
            assert(rows@ =~= pre.update(t as int, (id, v)));
            lemma_rows_unique_sorted(rows@, id, t as int);
            assert forall|x: Id| x != id && rows_has(pre, x) implies rows_has(rows@, x) && rows_at(
                rows@,
                x,
            ) == rows_at(pre, x) by {
                let u = rows_idx(pre, x);
                assert(pre[u].0 == x);
                assert(u != t);
                lemma_rows_unique_sorted(pre, x, u);
                lemma_rows_unique_sorted(rows@, x, u);
            }
            assert forall|x: Id| x != id && rows_has(rows@, x) implies rows_has(pre, x) by {
                let u = rows_idx(rows@, x);
                assert(u != t);
                assert(pre[u].0 == x);
            }
        }
    } else {
        proof {
            assert(t == c || pre[t as int].0.tmp > id.tmp);
        }
        rows.insert(t, (id, v));
        proof {
            assert(rows@ =~= pre.insert(t as int, (id, v)));
            assert forall|u: int, w: int| 0 <= u < w < rows@.len() implies rows@[u].0.tmp
                < rows@[w].0.tmp by {
                assert(u < t ==> rows@[u] == pre[u]);
                assert(u > t ==> rows@[u] == pre[u - 1]);
                assert(w < t ==> rows@[w] == pre[w]);
                assert(w > t ==> rows@[w] == pre[w - 1]);
            }
            lemma_rows_unique_sorted(rows@, id, t as int);
            assert forall|x: Id| x != id && rows_has(pre, x) implies rows_has(rows@, x) && rows_at(
                rows@,
                x,
            ) == rows_at(pre, x) by {
                let u = rows_idx(pre, x);
                assert(pre[u].0 == x);
                lemma_rows_unique_sorted(pre, x, u);
                if u < t {
                    assert(rows@[u].0 == x);
                    lemma_rows_unique_sorted(rows@, x, u);
                } else {
                    assert(rows@[u + 1].0 == x);
                    lemma_rows_unique_sorted(rows@, x, u + 1);
                }
            }
            assert forall|x: Id| x != id && rows_has(rows@, x) implies rows_has(pre, x) by {
                let u = rows_idx(rows@, x);
                if u < t {
                    assert(pre[u].0 == x);
                } else if u > t {
                    assert(pre[u - 1].0 == x);
                }
            }
        }
    }
}

/// In a sorted row list, any index holding `id` is the chosen one.
pub proof fn lemma_rows_unique_sorted(rows: Seq<(Id, i32)>, id: Id, i: int)
    requires
        rows_sorted(rows),
        0 <= i < rows.len(),
        rows[i].0 == id,
    ensures
        rows_has(rows, id),
        rows_idx(rows, id) == i,
        rows_at(rows, id) == rows[i].1 as int,
{
    assert(rows_has(rows, id));
    let j = rows_idx(rows, id);
    if i < j {
        assert(rows[i].0.tmp < rows[j].0.tmp);
    } else if j < i {
        assert(rows[j].0.tmp < rows[i].0.tmp);
    }
}

/// The ledger never stores an opinion about the node itself: no base row,
/// no reported rows, and the node's own score pinned at neutral.
pub proof fn lemma_no_self_trust(ident: Identification)
    requires
        ident.wf(),
    ensures
        !ident.stores_base(ident.us_spec()),
        ident.offset_row(ident.us_spec()) == Seq::<(Id, i32)>::empty(),
        ident.spec_trust(ident.us_spec()) == 5000,
{
    if ident.stores_base(ident.us_spec()) {
        let i = rows_idx(ident.base_trust_rows(), ident.us_spec());
        assert(ident.base_trust_rows()[i].0 == ident.us_spec());
    }
    if offs_has(ident.trust_offset_rows(), ident.us_spec()) {
        let i = offs_idx(ident.trust_offset_rows(), ident.us_spec());
        assert(ident.trust_offset_rows()[i].0 == ident.us_spec());
    }
    assert(ident.offset_row(ident.us_spec()) =~= Seq::<(Id, i32)>::empty());
}

/// A stored or defaulted base opinion always lies in `[0, 1]`.
pub proof fn lemma_base_in_range(ident: Identification, id: Id)
    requires
        ident.wf(),
    ensures
        0 <= ident.spec_base(id) <= 10000,
{
    if ident.stores_base(id) {
        let i = rows_idx(ident.base_trust_rows(), id);
        assert(ident.base_trust_rows()[i].0 == id);
        lemma_rows_unique_by_distinct(ident.base_trust_rows(), id, i);
    }
}

/// Moving a peer's base trust by `d` and back by `-d` restores every
/// stored opinion exactly, as long as the intermediate value was not
/// clamped at either end of the range.
pub proof fn lemma_change_trust_round_trip(
    s0: Identification,
    s1: Identification,
    s2: Identification,
    id: Id,
    d: int,
)
    requires
        s0.wf(),
        change_trust_post(s0, s1, id, d),
        change_trust_post(s1, s2, id, -d),
        0 <= s0.spec_base(id) + d <= 10000,
    ensures
        forall|x: Id| s2.spec_base(x) == s0.spec_base(x),
        forall|x: Id| s2.offset_row(x) == s0.offset_row(x),
        forall|x: Id| s2.spec_trust(x) == s0.spec_trust(x),
{
    lemma_base_in_range(s0, id);
    if id == s0.us_spec() {
    } else {
        assert(s1.spec_base(id) == clamp_tt(s0.spec_base(id) + d));
        assert(s1.spec_base(id) == s0.spec_base(id) + d);
        assert(s2.spec_base(id) == clamp_tt(s1.spec_base(id) - d));
        assert(s2.spec_base(id) == s0.spec_base(id));
    }
    assert forall|x: Id| s2.spec_trust(x) == s0.spec_trust(x) by {
        assert(s2.spec_base(x) == s0.spec_base(x));
        assert(s2.offset_row(x) == s0.offset_row(x));
        lemma_sum_same(s0, s2, s2.offset_row(x), s2.offset_row(x).len() as int);
    }
}

/// Two ledgers that agree on every base opinion sum reporter rows alike.
proof fn lemma_sum_same(a: Identification, b: Identification, rows: Seq<(Id, i32)>, n: int)
    requires
        forall|x: Id| b.spec_base(x) == a.spec_base(x),
    ensures
        b.sum_prefix(rows, n) == a.sum_prefix(rows, n),
    decreases n,
{
    if n > 0 {
        lemma_sum_same(a, b, rows, n - 1);
    }
}

/// With pairwise-distinct keys, any index holding `id` is the chosen one.
pub proof fn lemma_rows_unique_by_distinct(rows: Seq<(Id, i32)>, id: Id, i: int)
    requires
        forall|u: int, v: int| 0 <= u < v < rows.len() ==> rows[u].0 != rows[v].0,
        0 <= i < rows.len(),
        rows[i].0 == id,
    ensures
        rows_has(rows, id),
        rows_idx(rows, id) == i,
        rows_at(rows, id) == rows[i].1 as int,
{
    assert(rows_has(rows, id));
    let j = rows_idx(rows, id);
    if i < j {
        assert(rows[i].0 != rows[j].0);
    } else if j < i {
        assert(rows[j].0 != rows[i].0);
    }
}

/// With distinct peer slots, any index holding `of` is the chosen one.
pub proof fn lemma_offs_unique(offs: Seq<(Id, Vec<(Id, i32)>)>, of: Id, i: int)
    requires
        forall|u: int, v: int| 0 <= u < v < offs.len() ==> offs[u].0 != offs[v].0,
        0 <= i < offs.len(),
        offs[i].0 == of,
    ensures
        offs_has(offs, of),
        offs_idx(offs, of) == i,
        offs_at(offs, of) == offs[i].1@,
{
    assert(offs_has(offs, of));
    let j = offs_idx(offs, of);
    if i < j {
        assert(offs[i].0 != offs[j].0);
    } else if j < i {
        assert(offs[j].0 != offs[i].0);
    }
}

/// In a strictly sorted row list, the tag at slot `i` is at least `i`.
proof fn lemma_rows_index_bound(rows: Seq<(Id, i32)>, i: int)
    requires
        rows_sorted(rows),
        0 <= i < rows.len(),
    ensures
        rows[i].0.tmp >= i,
    decreases i,
{
    if i > 0 {
        lemma_rows_index_bound(rows, i - 1);
        assert(rows[i - 1].0.tmp < rows[i].0.tmp);
    }
}

/// Sorted rows keyed by a 16-bit tag cannot hold more than 65536 slots.
pub proof fn lemma_sorted_rows_len(rows: Seq<(Id, i32)>)
    requires
        rows_sorted(rows),
    ensures
        rows.len() <= 65536,
{
    if rows.len() > 65536 {
        lemma_rows_index_bound(rows, 65536);
        assert(rows[65536].0.tmp >= 65536);
        assert(false);
    }
}

} // verus!
