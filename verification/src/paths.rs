//! Paths in a maze without cycles: between any two nodes there is at most
//! one walk that visits no node twice, and no walk is shorter.

use vstd::prelude::*;
use crate::lattice::Lattice;
use crate::maze::Node;

verus! {

impl Lattice {
    /// Whether `p` is a walk that visits no node twice.
    pub open spec fn is_path(self, p: Seq<Node>) -> bool {
        self.is_walk(p) && p.no_duplicates()
    }

    /// Whether a walk of `steps` open edges leads from `a` to `b`.
    pub open spec fn leads_in(self, a: Node, b: Node, steps: nat) -> bool {
        exists|p: Seq<Node>|
            #[trigger] self.is_walk(p) && p[0] == a && p[p.len() - 1] == b && p.len() == steps + 1
    }

    /// Whether `steps` is the least number of open edges that lead from `a`
    /// to `b`.
    pub open spec fn is_distance(self, a: Node, b: Node, steps: nat) -> bool {
        &&& self.leads_in(a, b, steps)
        &&& forall|q: Seq<Node>|
            #[trigger] self.is_walk(q) && q[0] == a && q[q.len() - 1] == b ==> q.len() >= steps
                + 1
    }

    /// Cutting the loops out of a walk leaves a path between the same two
    /// nodes that is no longer.
    pub proof fn lemma_loops_cut(self, p: Seq<Node>) -> (q: Seq<Node>)
        requires
            self.is_walk(p),
        ensures
            self.is_path(q),
            q[0] == p[0],
            q[q.len() - 1] == p[p.len() - 1],
            q.len() <= p.len(),
        decreases p.len(),
    {
        if p.no_duplicates() {
            p
        } else {
            let (i, j) = choose|i: int, j: int|
                0 <= i < p.len() && 0 <= j < p.len() && i != j && p[i] == p[j];
            let (lo, hi) = if i < j {
                (i, j)
            } else {
                (j, i)
            };
            let r = p.subrange(0, lo + 1) + p.subrange(hi + 1, p.len() as int);
            assert forall|k: int| 0 <= k < r.len() - 1 implies #[trigger] self.steps_at(r, k) by {
                if k < lo {
                    assert(self.steps_at(p, k));
                } else if k == lo {
                    assert(r[k] == p[hi]);
                    assert(r[k + 1] == p[hi + 1]);
                    assert(self.steps_at(p, hi));
                } else {
                    let m = k - lo + hi;
                    assert(r[k] == p[m]);
                    assert(r[k + 1] == p[m + 1]);
                    assert(self.steps_at(p, m));
                }
            }
            assert(r[0] == p[0]);
            assert(self.is_walk(r));
            if hi == p.len() - 1 {
                assert(r[r.len() - 1] == p[lo]);
            } else {
                assert(r[r.len() - 1] == p[p.len() - 1]);
            }
            self.lemma_loops_cut(r)
        }
    }

    /// The first position after the start of `p`, from `from` on, whose
    /// node lies on `q`.
    pub open spec fn first_meeting(p: Seq<Node>, q: Seq<Node>, from: int) -> int
        decreases p.len() - from,
    {
        if from >= p.len() || q.contains(p[from]) {
            from
        } else {
            Self::first_meeting(p, q, from + 1)
        }
    }

    /// Where the last node of `p` lies on `q`, the first meeting is a
    /// position of `p` whose node lies on `q`, and no node between `from` and
    /// it does.
    pub proof fn lemma_first_meeting(p: Seq<Node>, q: Seq<Node>, from: int)
        requires
            0 <= from < p.len(),
            q.contains(p[p.len() - 1]),
        ensures
            from <= Self::first_meeting(p, q, from) < p.len(),
            q.contains(p[Self::first_meeting(p, q, from)]),
            forall|k: int| from <= k < Self::first_meeting(p, q, from) ==> !q.contains(#[trigger] p[k]),
        decreases p.len() - from,
    {
        if !q.contains(p[from]) {
            Self::lemma_first_meeting(p, q, from + 1);
        }
    }

    /// In a maze without cycles, two paths between the same two nodes are
    /// the same.
    pub proof fn lemma_paths_agree(self, p: Seq<Node>, q: Seq<Node>)
        requires
            self.wf(),
            self.acyclic(),
            self.is_path(p),
            self.is_path(q),
            p[0] == q[0],
            p[p.len() - 1] == q[q.len() - 1],
        ensures
            p == q,
        decreases p.len(),
    {
        if p.len() == 1 || q.len() == 1 {
            if p.len() != 1 {
                assert(p[0] == p[p.len() - 1]);
            }
            if q.len() != 1 {
                assert(q[0] == q[q.len() - 1]);
            }
            assert(p =~= q);
        } else if p[1] == q[1] {
            let pt = p.drop_first();
            let qt = q.drop_first();
            assert forall|k: int| 0 <= k < pt.len() - 1 implies #[trigger] self.steps_at(pt, k) by {
                assert(self.steps_at(p, k + 1));
            }
            assert forall|k: int| 0 <= k < qt.len() - 1 implies #[trigger] self.steps_at(qt, k) by {
                assert(self.steps_at(q, k + 1));
            }
            self.lemma_walk_contained(p, 1);
            assert forall|a: int, b: int|
                0 <= a < pt.len() && 0 <= b < pt.len() && a != b implies pt[a] != pt[b] by {
                assert(p[a + 1] != p[b + 1]);
            }
            assert forall|a: int, b: int|
                0 <= a < qt.len() && 0 <= b < qt.len() && a != b implies qt[a] != qt[b] by {
                assert(q[a + 1] != q[b + 1]);
            }
            self.lemma_paths_agree(pt, qt);
            assert(p =~= seq![p[0]] + pt);
            assert(q =~= seq![q[0]] + qt);
        } else {
            assert(q.contains(p[p.len() - 1])) by {
                assert(q[q.len() - 1] == p[p.len() - 1]);
            }
            Self::lemma_first_meeting(p, q, 1);
            let i = Self::first_meeting(p, q, 1);
            let j = choose|j: int| 0 <= j < q.len() && q[j] == p[i];
            assert(j >= 1) by {
                if j == 0 {
                    assert(p[i] == p[0]);
                }
            }
            let back = q.subrange(1, j).reverse();
            let c = p.subrange(0, i + 1) + back;
            assert(c.len() == i + j);
            assert forall|k: int| 0 <= k < c.len() implies #[trigger] c[k] == (if k <= i {
                p[k]
            } else {
                q[j - (k - i)]
            }) by {
                if k > i {
                    assert(c[k] == back[k - i - 1]);
                }
            }
            assert forall|k: int| 0 <= k < c.len() - 1 implies #[trigger] self.steps_at(c, k) by {
                if k < i {
                    assert(self.steps_at(p, k));
                } else {
                    let m = j - (k - i);
                    assert(c[k] == q[m]);
                    assert(c[k + 1] == q[m - 1]);
                    assert(self.steps_at(q, m - 1));
                    self.lemma_linked_symmetric(q[m - 1], q[m]);
                }
            }
            assert(self.is_walk(c));
            assert(c[c.len() - 1] == q[1]) by {
                if j == 1 {
                    assert(c[c.len() - 1] == p[i]);
                }
            }
            assert(self.steps_at(q, 0));
            self.lemma_linked_symmetric(q[0], q[1]);
            assert forall|a: int, b: int|
                0 <= a < c.len() && 0 <= b < c.len() && a != b implies c[a] != c[b] by {
                if a <= i && b <= i {
                    assert(p[a] != p[b]);
                } else if a > i && b > i {
                    assert(q[j - (a - i)] != q[j - (b - i)]);
                } else {
                    let (x, y) = if a <= i {
                        (a, b)
                    } else {
                        (b, a)
                    };
                    let m = j - (y - i);
                    assert(c[x] == p[x] && c[y] == q[m]);
                    assert(1 <= m < j);
                    if p[x] == q[m] {
                        if x == 0 {
                            assert(q[0] == q[m]);
                        } else if x < i {
                            assert(q.contains(p[x]));
                        } else {
                            assert(q[j] == q[m]);
                        }
                    }
                }
            }
            assert(c.len() >= 3) by {
                if i == 1 && j == 1 {
                    assert(p[1] == q[1]);
                }
            }
            assert(self.is_cycle(c));
        }
    }

    /// In a maze without cycles, no walk between two nodes is shorter than
    /// a path between them.
    pub proof fn lemma_path_is_shortest(self, p: Seq<Node>)
        requires
            self.wf(),
            self.acyclic(),
            self.is_path(p),
        ensures
            self.is_distance(p[0], p[p.len() - 1], (p.len() - 1) as nat),
    {
        assert forall|q: Seq<Node>|
            #[trigger] self.is_walk(q) && q[0] == p[0] && q[q.len() - 1] == p[p.len()
                - 1] implies q.len() >= p.len() by {
            let r = self.lemma_loops_cut(q);
            self.lemma_paths_agree(p, r);
        }
    }

    /// The least number of open edges from one node to another is that from
    /// the other to the one.
    pub proof fn lemma_distance_symmetric(self, a: Node, b: Node, steps: nat)
        requires
            self.wf(),
            self.is_distance(a, b, steps),
        ensures
            self.is_distance(b, a, steps),
    {
        let p = choose|p: Seq<Node>|
            #[trigger] self.is_walk(p) && p[0] == a && p[p.len() - 1] == b && p.len() == steps + 1;
        let back = self.lemma_walk_reversed(p);
        assert forall|q: Seq<Node>|
            #[trigger] self.is_walk(q) && q[0] == b && q[q.len() - 1] == a implies q.len()
            >= steps + 1 by {
            let there = self.lemma_walk_reversed(q);
        }
    }

    /// A walk and one more open edge make a walk that is one edge longer.
    pub proof fn lemma_leads_in_next(self, a: Node, b: Node, c: Node, steps: nat)
        requires
            self.leads_in(a, b, steps),
            self.linked(b, c),
        ensures
            self.leads_in(a, c, steps + 1),
    {
        let p = choose|p: Seq<Node>|
            #[trigger] self.is_walk(p) && p[0] == a && p[p.len() - 1] == b && p.len() == steps + 1;
        let q = p.push(c);
        assert forall|i: int| 0 <= i < q.len() - 1 implies #[trigger] self.steps_at(q, i) by {
            if i < p.len() - 1 {
                assert(self.steps_at(p, i));
            }
        }
        assert(self.is_walk(q));
        assert(q[0] == a && q[q.len() - 1] == c);
    }

    /// A walk taken backward is a walk.
    pub proof fn lemma_walk_reversed(self, p: Seq<Node>) -> (q: Seq<Node>)
        requires
            self.wf(),
            self.is_walk(p),
        ensures
            self.is_walk(q),
            q.len() == p.len(),
            q[0] == p[p.len() - 1],
            q[q.len() - 1] == p[0],
            q == p.reverse(),
    {
        let q = p.reverse();
        self.lemma_walk_contained(p, p.len() - 1);
        assert forall|i: int| 0 <= i < q.len() - 1 implies #[trigger] self.steps_at(q, i) by {
            let j = p.len() - 2 - i;
            assert(self.steps_at(p, j));
            self.lemma_linked_symmetric(p[j], p[j + 1]);
        }
        q
    }
}

} // verus!
