//! Syncback: the reverse flow. Given the files a tree's current shape calls
//! for and the files already on disk, compute the write plan — which files
//! to create or overwrite and which to delete — without performing any
//! write. Executing the plan (or just listing it, for the dry-run modes) is
//! the driver's job; path stability across repeated runs comes from the same
//! path-correlation table the reference resolver keeps.

use vstd::prelude::*;
use crate::props::{assoc_get, assoc_lookup, assoc_wf, lemma_assoc_get_at_index,
    lemma_assoc_get_some_index};

verus! {

/// A file write is needed at path `k`: the desired side has contents there
/// and the disk is missing them or holds different bytes.
pub open spec fn write_needed(
    d: Seq<(String, Vec<u8>)>,
    e: Seq<(String, Vec<u8>)>,
    k: Seq<char>,
) -> bool {
    assoc_get(d, k) matches Some(c) && !(assoc_get(e, k) matches Some(c2) && c2@ == c@)
}

/// A file removal is needed at path `k`: the disk has contents there and
/// the desired side has none.
pub open spec fn remove_needed(
    d: Seq<(String, Vec<u8>)>,
    e: Seq<(String, Vec<u8>)>,
    k: Seq<char>,
) -> bool {
    assoc_get(d, k) is None && assoc_get(e, k) is Some
}

/// Path `k` is listed for removal in `paths`.
pub open spec fn removal_listed(paths: Seq<String>, k: Seq<char>) -> bool {
    exists|i: int| 0 <= i < paths.len() && (#[trigger] paths[i])@ == k
}

/// The filesystem-write plan: what to write and what to delete so the disk
/// matches the desired files.
pub struct SyncbackPlan {
    /// Paths to create or overwrite, with the bytes to write.
    pub write_files: Vec<(String, Vec<u8>)>,
    /// Paths to delete.
    pub remove_files: Vec<String>,
}

/// A copy of a byte vector with the same bytes.
fn copy_bytes(x: &Vec<u8>) -> (r: Vec<u8>)
    ensures
        r@ == x@,
{
    let mut out: Vec<u8> = Vec::new();
    let mut i: usize = 0;
    while i < x.len()
        invariant
            i <= x@.len(),
            out@.len() == i,
            forall|j: int| 0 <= j < i ==> out@[j] == x@[j],
        decreases x@.len() - i,
    {
        out.push(x[i]);
        i = i + 1;
    }
    proof {
        assert(out@ =~= x@);
    }
    out
}

/// Byte-for-byte equality of two contents.
fn bytes_eq(x: &Vec<u8>, y: &Vec<u8>) -> (r: bool)
    ensures
        r == (x@ == y@),
{
    if x.len() != y.len() {
        return false;
    }
    let mut i: usize = 0;
    while i < x.len()
        invariant
            i <= x@.len(),
            x@.len() == y@.len(),
            forall|j: int| 0 <= j < i ==> x@[j] == y@[j],
        decreases x@.len() - i,
    {
        if x[i] != y[i] {
            return false;
        }
        i = i + 1;
    }
    proof {
        assert(x@ =~= y@);
    }
    true
}

/// Computes the write plan that makes the existing files match the desired
/// ones: a write for exactly each desired path whose contents are missing or
/// differ on disk, and a removal for exactly each on-disk path the desired
/// side no longer has. Nothing is written; repeated planning over an
/// unchanged tree yields the empty plan once the plan has been executed.
pub fn plan_syncback(
    desired: &Vec<(String, Vec<u8>)>,
    existing: &Vec<(String, Vec<u8>)>,
) -> (plan: SyncbackPlan)
    requires
        assoc_wf(desired@),
        assoc_wf(existing@),
    ensures
        forall|i: int|
            0 <= i < plan.write_files@.len() ==> write_needed(
                desired@,
                existing@,
                (#[trigger] plan.write_files@[i]).0@,
            ) && (assoc_get(desired@, plan.write_files@[i].0@) matches Some(c) && c@
                == plan.write_files@[i].1@),
        forall|j: int|
            0 <= j < desired@.len() && write_needed(desired@, existing@, (#[trigger] desired@[j]).0@)
                ==> exists|i: int|
                0 <= i < plan.write_files@.len() && (#[trigger] plan.write_files@[i]).0@
                    == desired@[j].0@,
        forall|i: int|
            0 <= i < plan.remove_files@.len() ==> remove_needed(
                desired@,
                existing@,
                (#[trigger] plan.remove_files@[i])@,
            ),
        forall|k: Seq<char>|
            remove_needed(desired@, existing@, k) ==> removal_listed(plan.remove_files@, k),
{
    let ghost d = desired@;
    let ghost e = existing@;
    let mut write_files: Vec<(String, Vec<u8>)> = Vec::new();
    let mut i: usize = 0;
    while i < desired.len()
        invariant
            assoc_wf(d),
            assoc_wf(e),
            d == desired@,
            e == existing@,
            i <= d.len(),
            forall|x: int|
                0 <= x < write_files@.len() ==> write_needed(
                    d,
                    e,
                    (#[trigger] write_files@[x]).0@,
                ) && (assoc_get(d, write_files@[x].0@) matches Some(c) && c@
                    == write_files@[x].1@),
            forall|j: int|
                0 <= j < i && write_needed(d, e, (#[trigger] d[j]).0@) ==> exists|x: int|
                    0 <= x < write_files@.len() && (#[trigger] write_files@[x]).0@ == d[j].0@,
        decreases d.len() - i,
    {
        let pair = &desired[i];
        let ghost pre = write_files@;
        proof {
            lemma_assoc_get_at_index(d, i as int);
        }
        let needs = match assoc_lookup(existing, &pair.0) {
            Some(c2) => !bytes_eq(c2, &pair.1),
            None => true,
        };
        if needs {
            write_files.push((pair.0.clone(), copy_bytes(&pair.1)));
            proof {
                assert(write_files@.last().0@ == d[i as int].0@);
            }
        }
        proof {
            assert forall|j2: int|
                0 <= j2 < i + 1 && write_needed(d, e, (#[trigger] d[j2]).0@) implies exists|x: int|
                0 <= x < write_files@.len() && (#[trigger] write_files@[x]).0@ == d[j2].0@ by {
                if j2 < i {
                    let x0 = choose|x0: int| 0 <= x0 < pre.len() && (#[trigger] pre[x0]).0@
                        == d[j2].0@;
                    assert(write_files@[x0].0@ == d[j2].0@);
                } else {
                    assert(write_files@[write_files@.len() - 1].0@ == d[j2].0@);
                }
            }
        }
        i = i + 1;
    }
    let mut remove_files: Vec<String> = Vec::new();
    let mut j: usize = 0;
    while j < existing.len()
        invariant
            assoc_wf(d),
            assoc_wf(e),
            d == desired@,
            e == existing@,
            j <= e.len(),
            forall|x: int|
                0 <= x < remove_files@.len() ==> remove_needed(
                    d,
                    e,
                    (#[trigger] remove_files@[x])@,
                ),
            forall|y: int|
                0 <= y < j && remove_needed(d, e, (#[trigger] e[y]).0@) ==> removal_listed(
                    remove_files@,
                    e[y].0@,
                ),
        decreases e.len() - j,
    {
        let pair = &existing[j];
        let ghost pre = remove_files@;
        proof {
            lemma_assoc_get_at_index(e, j as int);
        }
        let absent = match assoc_lookup(desired, &pair.0) {
            Some(_) => false,
            None => true,
        };
        if absent {
            remove_files.push(pair.0.clone());
            proof {
                assert(remove_files@.last()@ == e[j as int].0@);
            }
        }
        proof {
            assert forall|y2: int|
                0 <= y2 < j + 1 && remove_needed(d, e, (#[trigger] e[y2]).0@) implies
                removal_listed(remove_files@, e[y2].0@) by {
                if y2 < j {
                    assert(removal_listed(pre, e[y2].0@));
                    let x0 = choose|x0: int| 0 <= x0 < pre.len() && (#[trigger] pre[x0])@
                        == e[y2].0@;
                    assert(remove_files@[x0]@ == e[y2].0@);
                } else {
                    assert(remove_files@[remove_files@.len() - 1]@ == e[y2].0@);
                }
            }
        }
        j = j + 1;
    }
    proof {
        assert forall|k: Seq<char>| remove_needed(d, e, k) implies removal_listed(
            remove_files@,
            k,
        ) by {
            lemma_assoc_get_some_index(e, k);
            let jr = choose|jr: int| 0 <= jr < e.len() && e[jr].0@ == k;
            assert(remove_needed(d, e, e[jr].0@));
            assert(removal_listed(remove_files@, e[jr].0@));
        }
    }
    SyncbackPlan { write_files, remove_files }
}

impl SyncbackPlan {
    /// Whether executing the plan would change anything on disk.
    pub fn is_empty(&self) -> (r: bool)
        ensures
            r == (self.write_files@.len() == 0 && self.remove_files@.len() == 0),
    {
        self.write_files.len() == 0 && self.remove_files.len() == 0
    }

    /// The affected paths, writes first then removals: the list mode's
    /// output.
    pub fn affected_paths(&self) -> (r: Vec<String>)
        ensures
            r@.len() == self.write_files@.len() + self.remove_files@.len(),
            forall|i: int|
                0 <= i < self.write_files@.len() ==> (#[trigger] r@[i])@
                    == self.write_files@[i].0@,
            forall|i: int|
                0 <= i < self.remove_files@.len() ==> (#[trigger] r@[
                    self.write_files@.len() + i
                ])@ == self.remove_files@[i]@,
    {
        let mut out: Vec<String> = Vec::new();
        let mut i: usize = 0;
        while i < self.write_files.len()
            invariant
                i <= self.write_files@.len(),
                out@.len() == i,
                forall|x: int| 0 <= x < i ==> (#[trigger] out@[x])@ == self.write_files@[x].0@,
            decreases self.write_files@.len() - i,
        {
            out.push(self.write_files[i].0.clone());
            i = i + 1;
        }
        let mut j: usize = 0;
        while j < self.remove_files.len()
            invariant
                j <= self.remove_files@.len(),
                out@.len() == self.write_files@.len() + j,
                forall|x: int|
                    0 <= x < self.write_files@.len() ==> (#[trigger] out@[x])@
                        == self.write_files@[x].0@,
                forall|x: int|
                    0 <= x < j ==> (#[trigger] out@[self.write_files@.len() + x])@
                        == self.remove_files@[x]@,
            decreases self.remove_files@.len() - j,
        {
            out.push(self.remove_files[j].clone());
            j = j + 1;
        }
        out
    }
}

} // verus!
