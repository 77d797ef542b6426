use vstd::prelude::*;

use std::collections::HashSet;

use crate::types::WorldStats;

verus! {

broadcast use vstd::std_specs::hash::group_hash_axioms;

/// Whether `(cx, cy)` lies in the inclusive cell range `(x0, y0)..=(x1, y1)`.
pub open spec fn covers(x0: i32, y0: i32, x1: i32, y1: i32, c: (i32, i32)) -> bool {
    x0 <= c.0 <= x1 && y0 <= c.1 <= y1
}

/// Whether a row-major walk over the cell range `(x0, y0)..=(x1, y1)`, now
/// at cell `(cx, cy)`, has already passed cell `c`.
pub open spec fn walked(x0: i32, y0: i32, x1: i32, y1: i32, cx: int, cy: int, c: (i32, i32)) -> bool {
    covers(x0, y0, x1, y1, c) && (c.1 < cy || (c.1 == cy && c.0 < cx))
}

/// Whether the inclusive cell range `r = (x0, y0, x1, y1)` covers cell `c`.
pub open spec fn range_covers(r: (i32, i32, i32, i32), c: (i32, i32)) -> bool {
    covers(r.0, r.1, r.2, r.3, c)
}

/// A pair of entry indices with the smaller first.
pub open spec fn canonical(a: u32, b: u32) -> (u32, u32) {
    if a < b {
        (a, b)
    } else {
        (b, a)
    }
}

/// The number of unordered pairs among `n` entries.
pub open spec fn pairs_among(n: int) -> int {
    n * (n - 1) / 2
}

/// A pair of entry indices as one number, the first index in the high half.
pub open spec fn pair_key(p: (u32, u32)) -> int {
    p.0 * 0x1_0000_0000 + p.1
}

/// Distinct pairs have distinct keys, and every key fits in a `u64`.
proof fn lemma_pair_key(p: (u32, u32), q: (u32, u32))
    ensures
        0 <= pair_key(p) <= u64::MAX,
        pair_key(p) == pair_key(q) ==> p == q,
{
    let (a, b) = (p.0 as int, p.1 as int);
    let (c, d) = (q.0 as int, q.1 as int);
    assert(0 <= a * 0x1_0000_0000 + b <= u64::MAX) by (nonlinear_arith)
        requires
            0 <= a < 0x1_0000_0000,
            0 <= b < 0x1_0000_0000,
    ;
    if a < c {
        assert(a * 0x1_0000_0000 + b < c * 0x1_0000_0000 + d) by (nonlinear_arith)
            requires
                a < c,
                0 <= b < 0x1_0000_0000,
                0 <= d,
        ;
    } else if c < a {
        assert(c * 0x1_0000_0000 + d < a * 0x1_0000_0000 + b) by (nonlinear_arith)
            requires
                c < a,
                0 <= d < 0x1_0000_0000,
                0 <= b,
        ;
    }
}

/// The broadphase grid of one frame: each occupied cell, keyed by its integer
/// coordinates, holds the indices of the entries whose bounds cover it, in
/// insertion order. Cells are kept in the order in which they were first
/// occupied; empty cells are not stored.
pub struct CellGrid {
    keys: Vec<(i32, i32)>,
    lists: Vec<Vec<u32>>,
}

impl CellGrid {
    /// One list per cell, and no cell twice.
    pub closed spec fn wf(&self) -> bool {
        &&& self.keys@.len() == self.lists@.len()
        &&& self.keys@.no_duplicates()
    }

    /// The occupied cells, in order of first occupation.
    pub closed spec fn cell_keys(&self) -> Seq<(i32, i32)> {
        self.keys@
    }

    /// The entries held by the `i`-th occupied cell.
    pub closed spec fn entries_at(&self, i: int) -> Seq<u32> {
        self.lists@[i]@
    }

    /// The canonical pair formed by the `j`-th and `k`-th entries of the
    /// `i`-th occupied cell.
    pub open spec fn pair_at(&self, i: int, j: int, k: int) -> (u32, u32) {
        canonical(self.entries_at(i)[j], self.entries_at(i)[k])
    }

    /// Whether `p` is a candidate pair: two entries at different positions of
    /// one occupied cell, the smaller index first.
    pub open spec fn candidate(&self, p: (u32, u32)) -> bool {
        exists|i: int, j: int, k: int|
            0 <= i < self.cell_keys().len() && 0 <= j < k < self.entries_at(i).len() && #[trigger] self.pair_at(
                i,
                j,
                k,
            ) == p
    }

    /// The set of candidate pairs.
    pub open spec fn candidates(&self) -> Set<(u32, u32)> {
        Set::new(|p: (u32, u32)| self.candidate(p))
    }

    /// The sum, over the first `upto` occupied cells, of the pairs among
    /// each cell's entries.
    pub open spec fn pair_count(&self, upto: int) -> int
        decreases upto,
    {
        if upto <= 0 {
            0
        } else {
            self.pair_count(upto - 1) + pairs_among(self.entries_at(upto - 1).len() as int)
        }
    }

    /// The grid is the one built from `ranges`, the cell range of entry `i`
    /// being `ranges[i]`: exactly the covered cells are occupied, and each
    /// holds, in increasing order, the entries whose range covers it.
    pub open spec fn built_from(&self, ranges: Seq<(i32, i32, i32, i32)>) -> bool {
        &&& self.wf()
        &&& forall|c: (i32, i32)|
            #[trigger] self.cell_keys().contains(c) <==> exists|e: int|
                0 <= e < ranges.len() && range_covers(#[trigger] ranges[e], c)
        &&& forall|i: int|
            0 <= i < self.cell_keys().len() ==> {
                let es = #[trigger] self.entries_at(i);
                &&& forall|m1: int, m2: int| 0 <= m1 < m2 < es.len() ==> es[m1] < es[m2]
                &&& forall|e: u32|
                    #[trigger] es.contains(e) <==> e < ranges.len() && range_covers(
                        ranges[e as int],
                        self.cell_keys()[i],
                    )
            }
    }

    /// An empty grid.
    pub fn new() -> (r: Self)
        ensures
            r.wf(),
            r.cell_keys().len() == 0,
    {
        CellGrid { keys: Vec::new(), lists: Vec::new() }
    }

    /// Removes every cell.
    pub fn clear(&mut self)
        ensures
            final(self).wf(),
            final(self).cell_keys().len() == 0,
    {
        self.keys = Vec::new();
        self.lists = Vec::new();
    }

    /// The number of occupied cells.
    pub fn len(&self) -> (r: usize)
        requires
            self.wf(),
        ensures
            r == self.cell_keys().len(),
    {
        self.keys.len()
    }

    /// The position of cell `c` among the occupied cells.
    fn find(&self, c: (i32, i32)) -> (r: Option<usize>)
        requires
            self.wf(),
        ensures
            r.is_none() == !self.cell_keys().contains(c),
            r matches Some(i) ==> i < self.cell_keys().len() && self.cell_keys()[i as int] == c,
    {
        let mut i: usize = 0;
        while i < self.keys.len()
            invariant
                self.wf(),
                i <= self.keys@.len(),
                forall|k: int| 0 <= k < i ==> self.keys@[k] != c,
            decreases self.keys@.len() - i,
        {
            if self.keys[i].0 == c.0 && self.keys[i].1 == c.1 {
                return Some(i);
            }
            i = i + 1;
        }
        None
    }

    /// The `i`-th occupied cell and its entries.
    pub fn cell(&self, i: usize) -> (r: ((i32, i32), &Vec<u32>))
        requires
            self.wf(),
            i < self.cell_keys().len(),
        ensures
            r.0 == self.cell_keys()[i as int],
            r.1@ == self.entries_at(i as int),
    {
        (self.keys[i], &self.lists[i])
    }

    /// The entries of cell `(cx, cy)`, or `None` when no entry covers it.
    pub fn get(&self, cx: i32, cy: i32) -> (r: Option<&Vec<u32>>)
        requires
            self.wf(),
        ensures
            r.is_none() == !self.cell_keys().contains((cx, cy)),
            r matches Some(v) ==> forall|i: int|
                0 <= i < self.cell_keys().len() && self.cell_keys()[i] == (cx, cy) ==> v@
                    == #[trigger] self.entries_at(i),
    {
        match self.find((cx, cy)) {
            Some(i) => Some(&self.lists[i]),
            None => None,
        }
    }

    /// Appends `idx` to one cell, creating the cell when it is not occupied.
    fn push_to_cell(&mut self, c: (i32, i32), idx: u32)
        requires
            old(self).wf(),
        ensures
            final(self).wf(),
            final(self).cell_keys().len() == old(self).cell_keys().len() + (if old(
                self,
            ).cell_keys().contains(c) {
                0int
            } else {
                1int
            }),
            forall|i: int|
                0 <= i < old(self).cell_keys().len() ==> final(self).cell_keys()[i] == old(
                    self,
                ).cell_keys()[i],
            final(self).cell_keys().contains(c),
            forall|i: int|
                0 <= i < final(self).cell_keys().len() ==> #[trigger] final(self).entries_at(i) == (if i
                    < old(self).cell_keys().len() {
                    old(self).entries_at(i)
                } else {
                    Seq::empty()
                }) + (if final(self).cell_keys()[i] == c {
                    seq![idx]
                } else {
                    Seq::empty()
                }),
    {
        match self.find(c) {
            Some(i) => {
                let ghost prev = *self;
                self.lists[i].push(idx);
                proof {
                    assert forall|k: int| 0 <= k < self.keys@.len() implies #[trigger] self.entries_at(
                        k,
                    ) == prev.entries_at(k) + (if self.keys@[k] == c {
                        seq![idx]
                    } else {
                        Seq::<u32>::empty()
                    }) by {
                        if k != i {
                            assert(self.keys@[k] != c);
                            assert(prev.entries_at(k) + Seq::<u32>::empty() == prev.entries_at(k));
                        }
                    }
                }
            },
            None => {
                let ghost prev = *self;
                let mut v: Vec<u32> = Vec::new();
                v.push(idx);
                self.keys.push(c);
                self.lists.push(v);
                proof {
                    assert(self.keys@[prev.keys@.len() as int] == c);
                    assert forall|k: int| 0 <= k < self.keys@.len() implies #[trigger] self.entries_at(
                        k,
                    ) == (if k < prev.keys@.len() {
                        prev.entries_at(k)
                    } else {
                        Seq::empty()
                    }) + (if self.keys@[k] == c {
                        seq![idx]
                    } else {
                        Seq::<u32>::empty()
                    }) by {
                        if k < prev.keys@.len() {
                            assert(self.keys@[k] == prev.keys@[k]);
                            assert(prev.keys@[k] != c);
                            assert(prev.entries_at(k) + Seq::<u32>::empty() == prev.entries_at(k));
                        } else {
                            assert(Seq::<u32>::empty() + seq![idx] == seq![idx]);
                        }
                    }
                }
            },
        }
    }

    /// Adds entry `idx` to every cell of the inclusive cell range
    /// `(x0, y0)..=(x1, y1)`. Cells that were not occupied are appended.
    pub fn insert_range(&mut self, idx: u32, x0: i32, y0: i32, x1: i32, y1: i32)
        requires
            old(self).wf(),
        ensures
            final(self).wf(),
            final(self).cell_keys().len() >= old(self).cell_keys().len(),
            forall|i: int|
                0 <= i < old(self).cell_keys().len() ==> final(self).cell_keys()[i] == old(
                    self,
                ).cell_keys()[i],
            forall|i: int|
                old(self).cell_keys().len() <= i < final(self).cell_keys().len() ==> covers(
                    x0,
                    y0,
                    x1,
                    y1,
                    #[trigger] final(self).cell_keys()[i],
                ),
            forall|c: (i32, i32)|
                covers(x0, y0, x1, y1, c) ==> #[trigger] final(self).cell_keys().contains(c),
            forall|i: int|
                0 <= i < final(self).cell_keys().len() ==> #[trigger] final(self).entries_at(i) == (if i
                    < old(self).cell_keys().len() {
                    old(self).entries_at(i)
                } else {
                    Seq::empty()
                }) + (if covers(x0, y0, x1, y1, final(self).cell_keys()[i]) {
                    seq![idx]
                } else {
                    Seq::empty()
                }),
    {
        let ghost start = *self;
        let mut cy: i64 = y0 as i64;
        while cy <= y1 as i64
            invariant
                self.wf(),
                y0 <= cy,
                cy <= y1 + 1 || cy == y0,
                self.cell_keys().len() >= start.cell_keys().len(),
                forall|i: int|
                    0 <= i < start.cell_keys().len() ==> self.cell_keys()[i] == start.cell_keys()[i],
                forall|i: int|
                    start.cell_keys().len() <= i < self.cell_keys().len() ==> walked(
                        x0,
                        y0,
                        x1,
                        y1,
                        x0 as int,
                        cy as int,
                        #[trigger] self.cell_keys()[i],
                    ),
                forall|c: (i32, i32)|
                    walked(x0, y0, x1, y1, x0 as int, cy as int, c) ==> #[trigger] self.cell_keys().contains(c),
                forall|i: int|
                    0 <= i < self.cell_keys().len() ==> #[trigger] self.entries_at(i) == (if i
                        < start.cell_keys().len() {
                        start.entries_at(i)
                    } else {
                        Seq::empty()
                    }) + (if walked(x0, y0, x1, y1, x0 as int, cy as int, self.cell_keys()[i]) {
                        seq![idx]
                    } else {
                        Seq::empty()
                    }),
            decreases y1 + 1 - cy,
        {
            let mut cx: i64 = x0 as i64;
            while cx <= x1 as i64
                invariant
                    self.wf(),
                    y0 <= cy <= y1,
                    x0 <= cx,
                    cx <= x1 + 1 || cx == x0,
                    self.cell_keys().len() >= start.cell_keys().len(),
                    forall|i: int|
                        0 <= i < start.cell_keys().len() ==> self.cell_keys()[i] == start.cell_keys()[i],
                    forall|i: int|
                        start.cell_keys().len() <= i < self.cell_keys().len() ==> walked(
                            x0,
                            y0,
                            x1,
                            y1,
                            cx as int,
                            cy as int,
                            #[trigger] self.cell_keys()[i],
                        ),
                    forall|c: (i32, i32)|
                        walked(x0, y0, x1, y1, cx as int, cy as int, c) ==> #[trigger] self.cell_keys().contains(c),
                    forall|i: int|
                        0 <= i < self.cell_keys().len() ==> #[trigger] self.entries_at(i) == (if i
                            < start.cell_keys().len() {
                            start.entries_at(i)
                        } else {
                            Seq::empty()
                        }) + (if walked(x0, y0, x1, y1, cx as int, cy as int, self.cell_keys()[i]) {
                            seq![idx]
                        } else {
                            Seq::empty()
                        }),
                decreases x1 + 1 - cx,
            {
                let c: (i32, i32) = (cx as i32, cy as i32);
                let ghost mid = *self;
                self.push_to_cell(c, idx);
                proof {
                    assert forall|i: int| 0 <= i < self.cell_keys().len() implies #[trigger] self.entries_at(i) == (if i
                        < start.cell_keys().len() {
                        start.entries_at(i)
                    } else {
                        Seq::empty()
                    }) + (if walked(x0, y0, x1, y1, cx + 1, cy as int, self.cell_keys()[i]) {
                        seq![idx]
                    } else {
                        Seq::empty()
                    }) by {
                        let base = if i < start.cell_keys().len() {
                            start.entries_at(i)
                        } else {
                            Seq::<u32>::empty()
                        };
                        if i < mid.cell_keys().len() {
                            assert(mid.entries_at(i) == base + (if walked(x0, y0, x1, y1, cx as int, cy as int, mid.cell_keys()[i]) {
                                seq![idx]
                            } else {
                                Seq::<u32>::empty()
                            }));
                            if self.cell_keys()[i] == c {
                                assert(base + Seq::<u32>::empty() == base);
                            } else {
                                assert(mid.entries_at(i) + Seq::<u32>::empty() == mid.entries_at(i));
                            }
                        } else {
                            assert(i == mid.cell_keys().len());
                            assert(!start.cell_keys().contains(c)) by {
                                if start.cell_keys().contains(c) {
                                    let k = choose|k: int| 0 <= k < start.cell_keys().len() && start.cell_keys()[k] == c;
                                    assert(mid.cell_keys()[k] == c);
                                }
                            }
                            assert(self.cell_keys()[i] == c) by {
                                if self.cell_keys()[i] != c {
                                    let k = choose|k: int| 0 <= k < self.cell_keys().len() && self.cell_keys()[k] == c;
                                    assert(mid.cell_keys()[k] == c);
                                }
                            }
                        }
                    }
                    assert forall|cc: (i32, i32)| walked(x0, y0, x1, y1, cx + 1, cy as int, cc) implies #[trigger] self.cell_keys().contains(cc) by {
                        if cc != c {
                            assert(walked(x0, y0, x1, y1, cx as int, cy as int, cc));
                            assert(mid.cell_keys().contains(cc));
                            let k = choose|k: int| 0 <= k < mid.cell_keys().len() && mid.cell_keys()[k] == cc;
                            assert(self.cell_keys()[k] == cc);
                        }
                    }
                    assert forall|i: int| start.cell_keys().len() <= i < self.cell_keys().len() implies walked(
                        x0, y0, x1, y1, cx + 1, cy as int, #[trigger] self.cell_keys()[i]) by {
                        if i >= mid.cell_keys().len() {
                            assert(self.cell_keys()[i] == c) by {
                                if self.cell_keys()[i] != c {
                                    let k = choose|k: int| 0 <= k < self.cell_keys().len() && self.cell_keys()[k] == c;
                                    assert(mid.cell_keys()[k] == c);
                                }
                            }
                        }
                    }
                }
                cx = cx + 1;
            }
            cy = cy + 1;
        }
    }

    /// Every candidate pair once, in the order of first occurrence when the
    /// cells are walked in order and each cell's entries pairwise.
    pub fn unique_pairs(&self) -> (r: Vec<(u32, u32)>)
        requires
            self.wf(),
        ensures
            r@.no_duplicates(),
            forall|m: int| 0 <= m < r@.len() ==> self.candidate(#[trigger] r@[m]),
            forall|p: (u32, u32)| self.candidate(p) ==> #[trigger] r@.contains(p),
    {
        let mut out: Vec<(u32, u32)> = Vec::new();
        let mut seen: HashSet<u64> = HashSet::new();
        let mut ci: usize = 0;
        while ci < self.keys.len()
            invariant
                self.wf(),
                ci <= self.cell_keys().len(),
                out@.no_duplicates(),
                forall|q: u64| #[trigger] seen@.contains(q) <==> exists|m: int|
                    0 <= m < out@.len() && #[trigger] pair_key(out@[m]) == q,
                forall|m: int| 0 <= m < out@.len() ==> self.candidate(#[trigger] out@[m]),
                forall|i: int, j: int, k: int|
                    0 <= i < ci && 0 <= j < k < self.entries_at(i).len() ==> out@.contains(
                        #[trigger] self.pair_at(i, j, k),
                    ),
            decreases self.cell_keys().len() - ci,
        {
            let list: &Vec<u32> = &self.lists[ci];
            let n: usize = list.len();
            let mut j: usize = 0;
            while j < n
                invariant
                    self.wf(),
                    ci < self.cell_keys().len(),
                    list@ == self.entries_at(ci as int),
                    n == list@.len(),
                    j <= n,
                    out@.no_duplicates(),
                    forall|q: u64| #[trigger] seen@.contains(q) <==> exists|m: int|
                        0 <= m < out@.len() && #[trigger] pair_key(out@[m]) == q,
                forall|q: u64| #[trigger] seen@.contains(q) <==> exists|m: int|
                    0 <= m < out@.len() && #[trigger] pair_key(out@[m]) == q,
                    forall|m: int| 0 <= m < out@.len() ==> self.candidate(#[trigger] out@[m]),
                    forall|i: int, jj: int, k: int|
                        0 <= i < ci && 0 <= jj < k < self.entries_at(i).len() ==> out@.contains(
                            #[trigger] self.pair_at(i, jj, k),
                        ),
                    forall|jj: int, k: int|
                        0 <= jj < j && jj < k < n ==> out@.contains(#[trigger] self.pair_at(ci as int, jj, k)),
                decreases n - j,
            {
                let mut k: usize = j + 1;
                while k < n
                    invariant
                        self.wf(),
                        ci < self.cell_keys().len(),
                        list@ == self.entries_at(ci as int),
                        n == list@.len(),
                        j < n,
                        j + 1 <= k <= n,
                        out@.no_duplicates(),
                        forall|q: u64| #[trigger] seen@.contains(q) <==> exists|m: int|
                            0 <= m < out@.len() && #[trigger] pair_key(out@[m]) == q,
                    forall|q: u64| #[trigger] seen@.contains(q) <==> exists|m: int|
                        0 <= m < out@.len() && #[trigger] pair_key(out@[m]) == q,
                forall|q: u64| #[trigger] seen@.contains(q) <==> exists|m: int|
                    0 <= m < out@.len() && #[trigger] pair_key(out@[m]) == q,
                        forall|m: int| 0 <= m < out@.len() ==> self.candidate(#[trigger] out@[m]),
                        forall|i: int, jj: int, kk: int|
                            0 <= i < ci && 0 <= jj < kk < self.entries_at(i).len() ==> out@.contains(
                                #[trigger] self.pair_at(i, jj, kk),
                            ),
                        forall|jj: int, kk: int|
                            0 <= jj < j && jj < kk < n ==> out@.contains(#[trigger] self.pair_at(ci as int, jj, kk)),
                        forall|kk: int| j < kk < k ==> out@.contains(#[trigger] self.pair_at(ci as int, j as int, kk)),
                    decreases n - k,
                {
                    let a: u32 = list[j];
                    let b: u32 = list[k];
                    let p: (u32, u32) = if a < b {
                        (a, b)
                    } else {
                        (b, a)
                    };
                    proof {
                        assert(p == self.pair_at(ci as int, j as int, k as int));
                        lemma_pair_key(p, p);
                        assert(p.0 * 0x1_0000_0000 <= p.0 * 0x1_0000_0000 + p.1);
                    }
                    let key: u64 = p.0 as u64 * 0x1_0000_0000 + p.1 as u64;
                    let ghost prev_seen = seen@;
                    let ghost prev = out@;
                    proof {
                        assert(prev_seen.contains(key) <==> prev.contains(p)) by {
                            if prev_seen.contains(key) {
                                let m = choose|m: int| 0 <= m < prev.len() && #[trigger] pair_key(prev[m]) == key;
                                lemma_pair_key(prev[m], p);
                            }
                            if prev.contains(p) {
                                let m = choose|m: int| 0 <= m < prev.len() && prev[m] == p;
                                assert(pair_key(prev[m]) == key);
                            }
                        }
                    }
                    if seen.insert(key) {
                        out.push(p);
                        proof {
                            assert forall|q: u64| #[trigger] seen@.contains(q) <==> exists|m: int|
                                0 <= m < out@.len() && #[trigger] pair_key(out@[m]) == q by {
                                if seen@.contains(q) && q != key {
                                    let m = choose|m: int| 0 <= m < prev.len() && #[trigger] pair_key(prev[m]) == q;
                                    assert(out@[m] == prev[m]);
                                }
                                if q == key {
                                    assert(pair_key(out@[prev.len() as int]) == q);
                                }
                                if exists|m: int| 0 <= m < out@.len() && #[trigger] pair_key(out@[m]) == q {
                                    let m = choose|m: int| 0 <= m < out@.len() && #[trigger] pair_key(out@[m]) == q;
                                    if m < prev.len() {
                                        assert(out@[m] == prev[m]);
                                        assert(prev_seen.contains(q));
                                    }
                                }
                            }
                            assert(out@[prev.len() as int] == p);
                            assert forall|m: int| 0 <= m < out@.len() implies self.candidate(#[trigger] out@[m]) by {
                                if m < prev.len() {
                                    assert(out@[m] == prev[m]);
                                } else {
                                    assert(self.pair_at(ci as int, j as int, k as int) == out@[m]);
                                }
                            }
                            assert forall|q: (u32, u32)| prev.contains(q) implies out@.contains(q) by {
                                let m = choose|m: int| 0 <= m < prev.len() && prev[m] == q;
                                assert(out@[m] == q);
                            }
                            assert(out@.no_duplicates()) by {
                                assert forall|m1: int, m2: int| 0 <= m1 < out@.len() && 0 <= m2 < out@.len() && m1 != m2 implies out@[m1] != out@[m2] by {
                                    if m1 < prev.len() && m2 < prev.len() {
                                        assert(out@[m1] == prev[m1] && out@[m2] == prev[m2]);
                                    } else if m1 < prev.len() {
                                        assert(out@[m1] == prev[m1]);
                                        assert(prev.contains(prev[m1]));
                                    } else {
                                        assert(out@[m2] == prev[m2]);
                                        assert(prev.contains(prev[m2]));
                                    }
                                }
                            }
                        }
                    }
                    k = k + 1;
                }
                j = j + 1;
            }
            ci = ci + 1;
        }
        proof {
            assert forall|p: (u32, u32)| self.candidate(p) implies #[trigger] out@.contains(p) by {
                let (i, j, k) = choose|i: int, j: int, k: int|
                    0 <= i < self.cell_keys().len() && 0 <= j < k < self.entries_at(i).len()
                        && #[trigger] self.pair_at(i, j, k) == p;
                assert(out@.contains(self.pair_at(i, j, k)));
            }
        }
        out
    }

    /// The frame's statistics for `entries` colliders: the occupied cells,
    /// the per-cell pair counts summed (capped at `usize::MAX`), and the
    /// number of distinct candidate pairs.
    pub fn stats(&self, entries: usize) -> (r: WorldStats)
        requires
            self.wf(),
        ensures
            r.entries == entries,
            r.cells == self.cell_keys().len(),
            r.candidate_pairs == (if self.pair_count(self.cell_keys().len() as int) <= usize::MAX {
                self.pair_count(self.cell_keys().len() as int)
            } else {
                usize::MAX as int
            }),
            r.unique_pairs == self.candidates().len(),
    {
        let mut total: usize = 0;
        let mut ci: usize = 0;
        while ci < self.keys.len()
            invariant
                self.wf(),
                ci <= self.cell_keys().len(),
                total == (if self.pair_count(ci as int) <= usize::MAX {
                    self.pair_count(ci as int)
                } else {
                    usize::MAX as int
                }),
                self.pair_count(ci as int) >= 0,
            decreases self.cell_keys().len() - ci,
        {
            let n: u128 = self.lists[ci].len() as u128;
            let t: u128 = if n >= 2 {
                proof {
                    assert(n * (n - 1) <= n * n) by (nonlinear_arith)
                        requires
                            n >= 2,
                    ;
                    assert(n * n < 0x1_0000_0000_0000_0000 * 0x1_0000_0000_0000_0000) by (nonlinear_arith)
                        requires
                            n < 0x1_0000_0000_0000_0000,
                    ;
                }
                n * (n - 1) / 2
            } else {
                0
            };
            proof {
                assert(t == pairs_among(self.entries_at(ci as int).len() as int)) by (nonlinear_arith)
                    requires
                        n == self.entries_at(ci as int).len(),
                        n >= 2 ==> t == n * (n - 1) / 2,
                        n < 2 ==> t == 0,
                        n >= 0,
                ;
            }
            if t >= (usize::MAX - total) as u128 {
                total = usize::MAX;
            } else {
                total = total + t as usize;
            }
            ci = ci + 1;
        }
        let pairs = self.unique_pairs();
        proof {
            pairs@.unique_seq_to_set();
            assert(pairs@.to_set() =~= self.candidates());
        }
        WorldStats { entries, cells: self.keys.len(), candidate_pairs: total, unique_pairs: pairs.len() }
    }

    /// Builds the grid of a frame whose entry `i` covers the cell range
    /// `ranges[i]`, inserting the entries in order.
    pub fn build(ranges: &Vec<(i32, i32, i32, i32)>) -> (r: Self)
        requires
            ranges@.len() <= u32::MAX + 1,
        ensures
            r.built_from(ranges@),
    {
        let mut g = CellGrid::new();
        let mut e: usize = 0;
        while e < ranges.len()
            invariant
                g.built_from(ranges@.take(e as int)),
                e <= ranges@.len(),
                ranges@.len() <= u32::MAX + 1,
            decreases ranges@.len() - e,
        {
            let ghost prev = g;
            let r = ranges[e];
            let idx: u32 = e as u32;
            g.insert_range(idx, r.0, r.1, r.2, r.3);
            proof {
                let before = ranges@.take(e as int);
                let after = ranges@.take(e + 1);
                assert(after[e as int] == r);
                assert forall|k: int| 0 <= k < e implies after[k] == before[k] by {}
                assert forall|c: (i32, i32)| #[trigger] g.cell_keys().contains(c) <==> exists|x: int|
                    0 <= x < after.len() && range_covers(#[trigger] after[x], c) by {
                    if g.cell_keys().contains(c) {
                        let i = choose|i: int| 0 <= i < g.cell_keys().len() && g.cell_keys()[i] == c;
                        if i < prev.cell_keys().len() {
                            assert(prev.cell_keys().contains(c));
                            let x = choose|x: int| 0 <= x < before.len() && range_covers(#[trigger] before[x], c);
                            assert(after[x] == before[x]);
                        } else {
                            assert(range_covers(after[e as int], c));
                        }
                    }
                    if exists|x: int| 0 <= x < after.len() && range_covers(#[trigger] after[x], c) {
                        let x = choose|x: int| 0 <= x < after.len() && range_covers(#[trigger] after[x], c);
                        if x < e {
                            assert(range_covers(before[x], c));
                            assert(prev.cell_keys().contains(c));
                            let i = choose|i: int| 0 <= i < prev.cell_keys().len() && prev.cell_keys()[i] == c;
                            assert(g.cell_keys()[i] == c);
                        }
                    }
                }
                assert forall|i: int| 0 <= i < g.cell_keys().len() implies {
                    let es = #[trigger] g.entries_at(i);
                    &&& forall|m1: int, m2: int| 0 <= m1 < m2 < es.len() ==> es[m1] < es[m2]
                    &&& forall|x: u32|
                        #[trigger] es.contains(x) <==> x < after.len() && range_covers(
                            after[x as int],
                            g.cell_keys()[i],
                        )
                } by {
                    let c = g.cell_keys()[i];
                    let base = if i < prev.cell_keys().len() {
                        prev.entries_at(i)
                    } else {
                        Seq::<u32>::empty()
                    };
                    let es = g.entries_at(i);
                    assert(es == base + (if covers(r.0, r.1, r.2, r.3, c) {
                        seq![idx]
                    } else {
                        Seq::<u32>::empty()
                    }));
                    if i < prev.cell_keys().len() {
                        assert(prev.cell_keys()[i] == c);
                    } else {
                        assert(forall|x: u32| !base.contains(x));
                        assert(!prev.cell_keys().contains(c)) by {
                            if prev.cell_keys().contains(c) {
                                let k = choose|k: int| 0 <= k < prev.cell_keys().len() && prev.cell_keys()[k] == c;
                                assert(g.cell_keys()[k] == c);
                                assert(g.wf());
                            }
                        }
                    }
                    assert forall|x: u32| base.contains(x) implies x < e by {
                        if i < prev.cell_keys().len() {
                            assert(prev.entries_at(i).contains(x));
                        }
                    }
                    assert forall|x: u32| #[trigger] es.contains(x) <==> x < after.len() && range_covers(
                        after[x as int],
                        c,
                    ) by {
                        if range_covers(r, c) {
                            assert(es =~= base.push(idx));
                            if es.contains(x) && x != e {
                                let m = choose|m: int| 0 <= m < es.len() && es[m] == x;
                                assert(base[m] == x);
                                assert(base.contains(x));
                            }
                            if x == idx {
                                assert(es[base.len() as int] == idx);
                            } else if x < after.len() && range_covers(after[x as int], c) {
                                assert(x < e);
                                assert(after[x as int] == before[x as int]);
                                if i >= prev.cell_keys().len() {
                                    assert(prev.cell_keys().contains(c));
                                }
                                assert(base.contains(x));
                                let m = choose|m: int| 0 <= m < base.len() && base[m] == x;
                                assert(es[m] == x);
                            }
                        } else {
                            assert(es =~= base);
                            if i >= prev.cell_keys().len() {
                                assert(!range_covers(after[e as int], c));
                            }
                            if x < after.len() && range_covers(after[x as int], c) && x < e {
                                assert(after[x as int] == before[x as int]);
                                if i >= prev.cell_keys().len() {
                                    assert(prev.cell_keys().contains(c));
                                }
                            }
                        }
                    }
                    if i < prev.cell_keys().len() {
                        let pes = prev.entries_at(i);
                        assert(forall|m1: int, m2: int| 0 <= m1 < m2 < pes.len() ==> pes[m1] < pes[m2]);
                    }
                    assert forall|m1: int, m2: int| 0 <= m1 < m2 < es.len() implies es[m1] < es[m2] by {
                        if m2 < base.len() {
                            assert(es[m1] == base[m1] && es[m2] == base[m2]);
                        } else {
                            assert(range_covers(r, c));
                            assert(es[m2] == idx);
                            assert(es[m1] == base[m1]);
                            assert(base.contains(base[m1]));
                        }
                    }
                }
            }
            e = e + 1;
        }
        proof {
            assert(ranges@.take(e as int) =~= ranges@);
        }
        g
    }
}

/// A frame into which nothing was pushed builds an empty grid, which holds
/// no candidate pair and no per-cell pair count.
pub proof fn lemma_empty_frame(g: CellGrid)
    requires
        g.built_from(Seq::<(i32, i32, i32, i32)>::empty()),
    ensures
        g.cell_keys().len() == 0,
        g.candidates() == Set::<(u32, u32)>::empty(),
        g.pair_count(g.cell_keys().len() as int) == 0,
{
    if g.cell_keys().len() > 0 {
        assert(g.cell_keys().contains(g.cell_keys()[0]));
    }
    assert(g.candidates() =~= Set::<(u32, u32)>::empty());
}

} // verus!
