use vstd::prelude::*;
use crate::bfs::clear_marks;
use crate::bfs::lemma_reachable_in_range;
use crate::bfs::marked;
use crate::bfs::spec_reachable;
use crate::bfs::usize_ints;
use crate::graph::PlayerGraph;
use crate::player::Record;

verus! {

/// The hop bound the era analysis applies to every member's traversal.
pub const ERA_HOP_BOUND: usize = 6;

/// Whether some record gives `nm` a season inside the closed range
/// `[lo, hi]`. A player belongs to an era when any of its records does.
pub open spec fn name_in_era(rs: Seq<Record>, nm: Seq<char>, lo: int, hi: int) -> bool {
    exists|i: int|
        0 <= i < rs.len() && (#[trigger] rs[i]).name@ == nm && lo <= rs[i].season <= hi
}

/// The aggregate reachability set of an era, over the first `k` handles:
/// the union of the bounded traversal reports of every era member among
/// them.
pub open spec fn era_reach_upto(
    g: PlayerGraph,
    rs: Seq<Record>,
    lo: int,
    hi: int,
    k: int,
) -> Set<int>
    decreases k,
{
    if k <= 0 {
        Set::empty()
    } else {
        let prev = era_reach_upto(g, rs, lo, hi, k - 1);
        if name_in_era(rs, g.name_seq()[k - 1], lo, hi) {
            prev.union(spec_reachable(g.edges(), k - 1, ERA_HOP_BOUND as int, g.n()).to_set())
        } else {
            prev
        }
    }
}

/// Every handle reachable, within the era hop bound, from some player with
/// a season in `[lo, hi]`.
pub open spec fn era_reach(g: PlayerGraph, rs: Seq<Record>, lo: int, hi: int) -> Set<int> {
    era_reach_upto(g, rs, lo, hi, g.n())
}

/// Runtime test for `name_in_era`.
fn name_in_era_check(records: &Vec<Record>, name: &String, lo: i32, hi: i32) -> (b: bool)
    ensures
        b == name_in_era(records@, name@, lo as int, hi as int),
{
    let mut i: usize = 0;
    while i < records.len()
        invariant
            i <= records@.len(),
            forall|j: int|
                0 <= j < i ==> !((#[trigger] records@[j]).name@ == name@ && lo <= records@[j].season
                    <= hi),
        decreases records@.len() - i,
    {
        if records[i].season >= lo && records[i].season <= hi && records[i].name == *name {
            proof {
                assert(records@[i as int].name@ == name@ && lo <= records@[i as int].season <= hi);
            }
            return true;
        }
        i += 1;
    }
    proof {
        if name_in_era(records@, name@, lo as int, hi as int) {
            let j = choose|j: int|
                0 <= j < records@.len() && (#[trigger] records@[j]).name@ == name@ && lo
                    <= records@[j].season <= hi;
            assert(false);
        }
    }
    false
}

/// The handles marked in both markers among the first `k`.
pub open spec fn both_upto(a: Seq<bool>, b: Seq<bool>, k: int) -> Set<int> {
    Set::new(|i: int| 0 <= i < k && a[i] && b[i])
}

/// The number of handles marked in both markers among the first `k`.
pub open spec fn count_in_both(a: Seq<bool>, b: Seq<bool>, k: int) -> int
    decreases k,
{
    if k <= 0 {
        0
    } else {
        count_in_both(a, b, k - 1) + if a[k - 1] && b[k - 1] {
            1int
        } else {
            0int
        }
    }
}

proof fn lemma_count_is_len(a: Seq<bool>, b: Seq<bool>, k: int)
    requires
        0 <= k,
    ensures
        both_upto(a, b, k).finite(),
        both_upto(a, b, k).len() == count_in_both(a, b, k),
    decreases k,
{
    broadcast use vstd::set::group_set_axioms;

    if k == 0 {
        assert(both_upto(a, b, 0) =~= Set::<int>::empty());
    } else {
        lemma_count_is_len(a, b, k - 1);
        let prev = both_upto(a, b, k - 1);
        if a[k - 1] && b[k - 1] {
            assert(both_upto(a, b, k) =~= prev.insert(k - 1));
            assert(!prev.contains(k - 1));
        } else {
            assert(both_upto(a, b, k) =~= prev);
        }
    }
}

impl PlayerGraph {
    /// Marks every handle within the era hop bound of some member of the
    /// era `[lo, hi]`.
    fn mark_era_reach(&self, records: &Vec<Record>, lo: i32, hi: i32) -> (m: Vec<bool>)
        requires
            self.wf(),
        ensures
            m@.len() == self.n(),
            marked(m@) == era_reach(*self, records@, lo as int, hi as int),
    {
        let n = self.names.len();
        let mut m = clear_marks(n);
        proof {
            assert(marked(m@) =~= Set::<int>::empty());
        }
        let mut h: usize = 0;
        while h < n
            invariant
                self.wf(),
                n == self.n(),
                h <= n,
                m@.len() == n,
                marked(m@) == era_reach_upto(*self, records@, lo as int, hi as int, h as int),
            decreases n - h,
        {
            let ghost mpre = m@;
            if name_in_era_check(records, &self.names[h], lo, hi) {
                proof {
                    assert(self.name_seq()[h as int] == self.names@[h as int]@);
                }
                let reach = self.collect_reachable(h, ERA_HOP_BOUND);
                let ghost rs = usize_ints(reach@);
                proof {
                    lemma_reachable_in_range(self.edges(), h as int, ERA_HOP_BOUND as int, self.n());
                }
                let mut j: usize = 0;
                while j < reach.len()
                    invariant
                        j <= reach@.len(),
                        m@.len() == n,
                        rs == usize_ints(reach@),
                        forall|k: int| 0 <= k < rs.len() ==> 0 <= #[trigger] rs[k] < n,
                        marked(m@) == marked(mpre).union(rs.take(j as int).to_set()),
                    decreases reach@.len() - j,
                {
                    let ghost mmid = m@;
                    let x = reach[j];
                    proof {
                        assert(rs[j as int] == x as int);
                    }
                    let slot = &mut m[x];
                    *slot = true;
                    proof {
                        assert(marked(m@) =~= marked(mmid).insert(x as int));
                        rs.take(j as int).lemma_push_to_set_commute(x as int);
                        assert(rs.take(j as int + 1) =~= rs.take(j as int).push(rs[j as int]));
                        assert(marked(m@) =~= marked(mpre).union(rs.take(j as int + 1).to_set()));
                    }
                    j += 1;
                }
                proof {
                    assert(rs.take(rs.len() as int) =~= rs);
                    assert(marked(m@) =~= era_reach_upto(
                        *self,
                        records@,
                        lo as int,
                        hi as int,
                        h as int + 1,
                    ));
                }
            } else {
                proof {
                    assert(marked(m@) =~= era_reach_upto(
                        *self,
                        records@,
                        lo as int,
                        hi as int,
                        h as int + 1,
                    ));
                }
            }
            h += 1;
        }
        m
    }

    /// Cross-era connectivity: the number of distinct handles that lie
    /// within the era hop bound of both eras' members. The two season
    /// ranges must not overlap.
    pub fn cross_era_connectivity(
        &self,
        records: &Vec<Record>,
        era_one_lo: i32,
        era_one_hi: i32,
        era_two_lo: i32,
        era_two_hi: i32,
    ) -> (c: usize)
        requires
            self.wf(),
            era_one_hi < era_two_lo || era_two_hi < era_one_lo,
        ensures
            c == era_reach(*self, records@, era_one_lo as int, era_one_hi as int).intersect(
                era_reach(*self, records@, era_two_lo as int, era_two_hi as int),
            ).len(),
    {
        let m1 = self.mark_era_reach(records, era_one_lo, era_one_hi);
        let m2 = self.mark_era_reach(records, era_two_lo, era_two_hi);
        let n = self.names.len();
        let mut c: usize = 0;
        let mut h: usize = 0;
        while h < n
            invariant
                m1@.len() == n,
                m2@.len() == n,
                h <= n,
                c <= h,
                c == count_in_both(m1@, m2@, h as int),
            decreases n - h,
        {
            if m1[h] && m2[h] {
                c += 1;
            }
            h += 1;
        }
        proof {
            lemma_count_is_len(m1@, m2@, n as int);
            assert(both_upto(m1@, m2@, n as int) =~= marked(m1@).intersect(marked(m2@)));
        }
        c
    }
}

} // verus!
