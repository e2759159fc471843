use vstd::prelude::*;

verus! {

/// The views of a list of paths.
pub open spec fn path_views(ps: Seq<String>) -> Seq<Seq<char>> {
    ps.map_values(|p: String| p@)
}

/// The changed-file ledger: the set of partition file paths with local
/// changes not yet mirrored to the remote sink. Membership is idempotent; a
/// path is held at most once.
pub struct DirtySet {
    paths: Vec<String>,
}

impl DirtySet {
    /// The set of paths the ledger holds.
    pub closed spec fn set_view(&self) -> Set<Seq<char>> {
        path_views(self.paths@).to_set()
    }

    /// No path is held twice.
    pub closed spec fn wf(&self) -> bool {
        forall|i: int, j: int|
            0 <= i < j < self.paths@.len() ==> (#[trigger] self.paths@[i]@) != (
            #[trigger] self.paths@[j]@)
    }

    /// The number of paths held.
    pub fn len(&self) -> (n: usize)
        requires
            self.wf(),
        ensures
            n == self.set_view().len(),
    {
        proof {
            assert(path_views(self.paths@).no_duplicates());
            path_views(self.paths@).unique_seq_to_set();
        }
        self.paths.len()
    }

    /// An empty ledger.
    pub fn new() -> (s: DirtySet)
        ensures
            s.set_view() == Set::<Seq<char>>::empty(),
            s.wf(),
    {
        let s = DirtySet { paths: Vec::new() };
        proof {
            assert(s.set_view() =~= Set::<Seq<char>>::empty());
        }
        s
    }

    /// Whether a path is held.
    pub fn contains(&self, path: &String) -> (r: bool)
        ensures
            r == self.set_view().contains(path@),
    {
        let ghost pv = path_views(self.paths@);
        let mut i: usize = 0;
        while i < self.paths.len()
            invariant
                i <= self.paths@.len(),
                pv == path_views(self.paths@),
                pv.len() == self.paths@.len(),
                forall|k: int| 0 <= k < i ==> pv[k] != path@,
            decreases self.paths@.len() - i,
        {
            if self.paths[i] == *path {
                proof {
                    assert(pv[i as int] == path@);
                    assert(pv.contains(path@));
                }
                return true;
            }
            i = i + 1;
        }
        proof {
            assert(!pv.contains(path@));
        }
        false
    }

    /// Marks a path dirty. A path already held stays held once: membership
    /// is idempotent and the ledger never holds duplicates.
    pub fn mark(&mut self, path: String)
        requires
            old(self).wf(),
        ensures
            final(self).set_view() == old(self).set_view().insert(path@),
            final(self).wf(),
    {
        let present = self.contains(&path);
        if !present {
            let ghost pre = self.paths@;
            self.paths.push(path);
            proof {
                assert(path_views(self.paths@) =~= path_views(pre).push(path@));
                assert forall|x: Seq<char>| #[trigger] self.set_view().contains(x) implies old(
                    self,
                ).set_view().insert(path@).contains(x) by {
                    let k = choose|k: int|
                        0 <= k < path_views(self.paths@).len() && #[trigger] path_views(
                            self.paths@,
                        )[k] == x;
                    if k < pre.len() {
                        assert(path_views(pre).contains(x));
                    }
                }
                assert forall|x: Seq<char>|
                    old(self).set_view().insert(path@).contains(x) implies #[trigger] self
                    .set_view()
                    .contains(x) by {
                    if x == path@ {
                        assert(path_views(self.paths@)[pre.len() as int] == x);
                    } else {
                        let k = choose|k: int|
                            0 <= k < path_views(pre).len() && #[trigger] path_views(pre)[k] == x;
                        assert(path_views(self.paths@)[k] == x);
                    }
                }
                assert(self.set_view() =~= old(self).set_view().insert(path@));
                assert(!path_views(pre).contains(path@));
                assert forall|i: int, j: int|
                    0 <= i < j < self.paths@.len() implies (#[trigger] self.paths@[i]@) != (
                #[trigger] self.paths@[j]@) by {
                    if j == pre.len() {
                        assert(path_views(pre)[i] == pre[i]@);
                    }
                }
            }
        } else {
            proof {
                assert(self.set_view() =~= old(self).set_view().insert(path@));
            }
        }
    }

    /// Atomically drains the ledger: returns every held path and leaves the
    /// ledger empty. The returned batch holds each path exactly once.
    pub fn drain(&mut self) -> (out: Vec<String>)
        requires
            old(self).wf(),
        ensures
            final(self).set_view() == Set::<Seq<char>>::empty(),
            final(self).wf(),
            path_views(out@).to_set() == old(self).set_view(),
            forall|i: int, j: int|
                0 <= i < j < out@.len() ==> (#[trigger] out@[i]@) != (#[trigger] out@[j]@),
    {
        let mut taken: Vec<String> = Vec::new();
        core::mem::swap(&mut taken, &mut self.paths);
        proof {
            assert(self.set_view() =~= Set::<Seq<char>>::empty());
        }
        taken
    }

    /// Re-marks every path of a failed batch, deferring it to the next
    /// cycle. Paths marked in the meantime are kept; nothing is duplicated.
    pub fn requeue(&mut self, failed: Vec<String>)
        requires
            old(self).wf(),
        ensures
            final(self).set_view() == old(self).set_view().union(path_views(failed@).to_set()),
            final(self).wf(),
    {
        let ghost fv = path_views(failed@);
        let mut rest = failed;
        proof {
            assert(fv.skip(0) =~= fv);
        }
        let mut j: usize = 0;
        while j < rest.len()
            invariant
                j <= rest@.len(),
                fv == path_views(rest@),
                fv.len() == rest@.len(),
                self.wf(),
                self.set_view() == old(self).set_view().union(fv.take(j as int).to_set()),
            decreases rest@.len() - j,
        {
            let ghost pre = self.set_view();
            let p = rest[j].clone();
            proof {
                assert(p@ == fv[j as int]);
            }
            self.mark(p);
            proof {
                assert(fv.take(j as int + 1) =~= fv.take(j as int).push(fv[j as int]));
                assert forall|x: Seq<char>| #[trigger] fv.take(j as int + 1).to_set().contains(
                    x,
                ) implies fv.take(j as int).to_set().insert(fv[j as int]).contains(x) by {
                    let k = choose|k: int|
                        0 <= k < fv.take(j as int + 1).len() && #[trigger] fv.take(j as int + 1)[k]
                            == x;
                    if k < j {
                        assert(fv.take(j as int).contains(x));
                    }
                }
                assert forall|x: Seq<char>|
                    fv.take(j as int).to_set().insert(fv[j as int]).contains(x) implies #[trigger] fv
                    .take(j as int + 1)
                    .to_set()
                    .contains(x) by {
                    if x == fv[j as int] {
                        assert(fv.take(j as int + 1)[j as int] == x);
                    } else {
                        let k = choose|k: int|
                            0 <= k < fv.take(j as int).len() && #[trigger] fv.take(j as int)[k]
                                == x;
                        assert(fv.take(j as int + 1)[k] == x);
                    }
                }
                assert(fv.take(j as int + 1).to_set() =~= fv.take(j as int).to_set().insert(
                    fv[j as int],
                ));
                assert(self.set_view() =~= old(self).set_view().union(fv.take(j as int + 1).to_set()));
            }
            j = j + 1;
        }
        proof {
            assert(fv.take(fv.len() as int) =~= fv);
        }
    }
}

/// The ledger's paths after one upload cycle: the drain took a snapshot and
/// left the ledger empty, every failed put of the snapshot was re-marked,
/// and whatever merges marked in the meantime rides along.
pub open spec fn cycle_view(failed: Set<Seq<char>>, marked_meanwhile: Set<Seq<char>>) -> Set<
    Seq<char>,
> {
    Set::empty().union(marked_meanwhile).union(failed)
}

/// Upload retry: a path whose put fails in one cycle is still in the ledger
/// after that cycle, and is gone after a later cycle in which it succeeds
/// and no merge re-marks it; paths marked by unrelated merges in the
/// meantime are kept, and the ledger never holds a path twice (`wf`).
pub proof fn lemma_upload_retry(k: Seq<char>, marked1: Set<Seq<char>>, marked2: Set<Seq<char>>)
    requires
        !marked2.contains(k),
    ensures
        cycle_view(set![k], marked1).contains(k),
        forall|x: Seq<char>| marked1.contains(x) ==> cycle_view(set![k], marked1).contains(x),
        !cycle_view(Set::empty(), marked2).contains(k),
{
    assert(set![k].contains(k));
}

} // verus!
