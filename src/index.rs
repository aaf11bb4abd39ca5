//! The local files found under the source directories, grouped by length.

use vstd::prelude::*;

verus! {

/// The paths of the entries whose length is `length`, in the order they were added.
pub open spec fn bucket_of(entries: Seq<(u64, Seq<Seq<char>>)>, length: u64) -> Seq<Seq<Seq<char>>>
    decreases entries.len(),
{
    if entries.len() == 0 {
        Seq::empty()
    } else {
        let rest = bucket_of(entries.drop_last(), length);
        if entries.last().0 == length {
            rest.push(entries.last().1)
        } else {
            rest
        }
    }
}

/// Local files with their lengths, in the order in which they were found.
pub struct SizeIndex {
    entries: Vec<(u64, Vec<String>)>,
}

impl View for SizeIndex {
    type V = Seq<(u64, Seq<Seq<char>>)>;

    closed spec fn view(&self) -> Seq<(u64, Seq<Seq<char>>)> {
        Seq::new(self.entries@.len(), |i: int| (self.entries@[i].0, self.entries@[i].1.deep_view()))
    }
}

impl SizeIndex {
    pub fn new() -> (r: SizeIndex)
        ensures
            r@ == Seq::<(u64, Seq<Seq<char>>)>::empty(),
    {
        let r = SizeIndex { entries: Vec::new() };
        assert(r@ =~= Seq::<(u64, Seq<Seq<char>>)>::empty());
        r
    }

    /// Records a local file of `length` bytes at `path`.
    pub fn insert(&mut self, length: u64, path: Vec<String>)
        ensures
            final(self)@ == old(self)@.push((length, path.deep_view())),
    {
        self.entries.push((length, path));
        assert(self@ =~= old(self)@.push((length, path.deep_view())));
    }

    /// The local files of `length` bytes, in the order in which they were recorded.
    pub fn bucket(&self, length: u64) -> (r: Vec<Vec<String>>)
        ensures
            r.deep_view() == bucket_of(self@, length),
    {
        let ghost ev = self@;
        let mut r: Vec<Vec<String>> = Vec::new();
        let mut i: usize = 0;
        while i < self.entries.len()
            invariant
                ev == self@,
                ev.len() == self.entries@.len(),
                i <= ev.len(),
                r.deep_view() == bucket_of(ev.take(i as int), length),
            decreases ev.len() - i,
        {
            proof {
                assert(ev.take(i as int + 1).drop_last() =~= ev.take(i as int));
                assert(ev.take(i as int + 1).last() == ev[i as int]);
            }
            if self.entries[i].0 == length {
                let p = self.entries[i].1.clone();
                let ghost before = r.deep_view();
                r.push(p);
                proof {
                    assert(r.deep_view() =~= before.push(ev[i as int].1));
                }
            }
            i = i + 1;
        }
        proof {
            assert(ev.take(ev.len() as int) =~= ev);
        }
        r
    }
}

} // verus!
