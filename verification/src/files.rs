//! The open files of a process, by descriptor number, as an ordered map.
use vstd::prelude::*;

use std::collections::BTreeMap;

verus! {

broadcast use vstd::std_specs::btree::group_btree_axioms;

/// Whether `d` is the descriptor that comes after those of `m`: one past
/// the greatest in use, or 0 when none is.
pub open spec fn is_next_fd<F>(m: Map<u32, F>, d: u32) -> bool {
    &&& !m.contains_key(d)
    &&& forall|j: u32| m.contains_key(j) ==> j < d
    &&& (d == 0 || m.contains_key((d - 1) as u32))
}

/// The open files of a process, keyed by descriptor.
pub struct FdTable<F> {
    files: BTreeMap<u32, F>,
}

impl<F> View for FdTable<F> {
    type V = Map<u32, F>;

    closed spec fn view(&self) -> Map<u32, F> {
        self.files@
    }
}

/// The greatest key of `m`, by `BTreeMap::last_key_value`: none for an
/// empty map, else a key that no other exceeds.
#[verifier::external_body]
fn last_key<F>(m: &BTreeMap<u32, F>) -> (r: Option<u32>)
    ensures
        r is None <==> m@.dom().is_empty(),
        r matches Some(k) ==> m@.contains_key(k) && forall|j: u32| m@.contains_key(j) ==> j <= k,
{
    match m.last_key_value() {
        Some((k, _)) => Some(*k),
        None => None,
    }
}

impl<F> FdTable<F> {
    /// A table with no open files.
    pub fn new() -> (r: Self)
        ensures
            r@ == Map::<u32, F>::empty(),
    {
        FdTable { files: BTreeMap::new() }
    }

    /// The file open at `descriptor`, cloned.
    pub fn fd(&self, descriptor: u32) -> (r: Option<F>)
        where
            F: Clone,
        ensures
            match r {
                Some(f) => self@.contains_key(descriptor) && cloned(self@[descriptor], f),
                None => !self@.contains_key(descriptor),
            },
    {
        match self.files.get(&descriptor) {
            Some(f) => Some(f.clone()),
            None => None,
        }
    }

    /// Opens `f` at `descriptor`; the file that was open there is handed
    /// back.
    pub fn add_fd(&mut self, descriptor: u32, f: F) -> (r: Option<F>)
        ensures
            final(self)@ == old(self)@.insert(descriptor, f),
            match r {
                Some(g) => old(self)@.contains_key(descriptor) && g == old(self)@[descriptor],
                None => !old(self)@.contains_key(descriptor),
            },
    {
        self.files.insert(descriptor, f)
    }

    /// Closes `descriptor`, handing back the file that was open there.
    pub fn remove_fd(&mut self, descriptor: u32) -> (r: Option<F>)
        ensures
            final(self)@ == old(self)@.remove(descriptor),
            match r {
                Some(g) => old(self)@.contains_key(descriptor) && g == old(self)@[descriptor],
                None => !old(self)@.contains_key(descriptor),
            },
    {
        self.files.remove(&descriptor)
    }

    /// Closes every descriptor.
    pub fn clear(&mut self)
        ensures
            final(self)@ == Map::<u32, F>::empty(),
    {
        self.files.clear();
    }

    /// The descriptor after the greatest in use, or 0 when none is.
    pub fn next_fd(&self) -> (r: u32)
        requires
            !self@.contains_key(u32::MAX),
        ensures
            is_next_fd(self@, r),
    {
        match last_key(&self.files) {
            Some(k) => {
                assert(k < u32::MAX);
                k + 1
            },
            None => 0,
        }
    }

    /// Opens `f` at the next descriptor, which is returned.
    pub fn add_next_file(&mut self, f: F) -> (r: u32)
        requires
            !old(self)@.contains_key(u32::MAX),
        ensures
            is_next_fd(old(self)@, r),
            final(self)@ == old(self)@.insert(r, f),
    {
        let d = self.next_fd();
        self.add_fd(d, f);
        d
    }

    /// Opens each of `files` at its descriptor, in order, in place of what
    /// was open there.
    pub fn override_files(&mut self, files: Vec<(u32, F)>)
        ensures
            final(self)@ == overridden(old(self)@, files@),
    {
        let ghost all = files@;
        let ghost start = self@;
        let n = files.len();
        let mut rest = files;
        proof {
            assert(all.skip(0) =~= all);
            assert(all.take(0) =~= Seq::<(u32, F)>::empty());
        }
        let mut k: usize = 0;
        while rest.len() > 0
            invariant
                k + rest@.len() == all.len(),
                all.len() == n,
                rest@ == all.skip(k as int),
                self@ == overridden(start, all.take(k as int)),
            decreases rest@.len(),
        {
            let (d, f) = rest.remove(0);
            proof {
                assert(all.skip(k as int)[0] == all[k as int]);
                assert(rest@ =~= all.skip(k + 1));
                assert(all.take(k + 1).drop_last() =~= all.take(k as int));
                assert(all.take(k + 1).last() == (d, f));
            }
            self.files.insert(d, f);
            k = k + 1;
        }
        proof {
            assert(all.take(k as int) =~= all);
        }
    }
}

/// The table `m` with each of `files` opened in order.
pub open spec fn overridden<F>(m: Map<u32, F>, files: Seq<(u32, F)>) -> Map<u32, F>
    decreases files.len(),
{
    if files.len() == 0 {
        m
    } else {
        overridden(m, files.drop_last()).insert(files.last().0, files.last().1)
    }
}

/// Opening a file at the next descriptor makes the one after it next:
/// files opened one after another get consecutive descriptors.
pub proof fn law_next_fd_advances<F>(m: Map<u32, F>, d: u32, f: F)
    requires
        is_next_fd(m, d),
        d < u32::MAX,
    ensures
        is_next_fd(m.insert(d, f), (d + 1) as u32),
{
}

} // verus!
