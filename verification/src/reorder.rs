//! The reorder buffer: encoding jobs complete in any order, and the muxer
//! needs them strictly by sequence number. Completed jobs are parked here
//! and released only when every earlier sequence number has been released.

use vstd::prelude::*;

use crate::opus::Encoded;

verus! {

/// The first index of `s` holding sequence number `q`, or -1.
pub open spec fn find_seq(s: Seq<Encoded>, q: nat) -> int
    decreases s.len(),
{
    if s.len() == 0 {
        -1
    } else if s[0].sequence_number as nat == q {
        0
    } else {
        let r = find_seq(s.drop_first(), q);
        if r == -1 {
            -1
        } else {
            r + 1
        }
    }
}

proof fn lemma_find_seq(s: Seq<Encoded>, q: nat)
    ensures
        find_seq(s, q) == -1 ==> forall|i: int|
            0 <= i < s.len() ==> (#[trigger] s[i]).sequence_number as nat != q,
        find_seq(s, q) != -1 ==> 0 <= find_seq(s, q) < s.len() && s[find_seq(
            s,
            q,
        )].sequence_number as nat == q,
    decreases s.len(),
{
    if s.len() > 0 {
        lemma_find_seq(s.drop_first(), q);
        if s[0].sequence_number as nat != q {
            let r = find_seq(s.drop_first(), q);
            if r == -1 {
                assert forall|i: int|
                    0 <= i < s.len() implies (#[trigger] s[i]).sequence_number as nat != q by {
                    if i > 0 {
                        assert(s.drop_first()[i - 1] == s[i]);
                    }
                }
            } else {
                assert(s.drop_first()[r] == s[r + 1]);
            }
        }
    }
}

/// Buffers completed jobs by sequence number and releases them in order.
pub struct ReorderBuffer {
    pub pending: Vec<Encoded>,
    pub next_expected: usize,
}

impl ReorderBuffer {
    /// A parked job is never one already released, and no sequence number
    /// is parked twice.
    pub open spec fn wf(&self) -> bool {
        &&& forall|i: int|
            0 <= i < self.pending@.len() ==> (#[trigger] self.pending@[i]).sequence_number
                >= self.next_expected
        &&& forall|i: int, j: int|
            0 <= i < j < self.pending@.len() ==> self.pending@[i].sequence_number
                != self.pending@[j].sequence_number
    }

    /// Whether sequence number `q` is parked.
    pub open spec fn contains_seq(&self, q: nat) -> bool {
        find_seq(self.pending@, q) != -1
    }

    /// An empty buffer expecting sequence number 0.
    pub fn new() -> (r: ReorderBuffer)
        ensures
            r.wf(),
            r.pending@ == Seq::<Encoded>::empty(),
            r.next_expected == 0,
    {
        let r = ReorderBuffer { pending: Vec::new(), next_expected: 0 };
        proof {
            assert(r.pending@ =~= Seq::<Encoded>::empty());
        }
        r
    }

    /// Parks one completed job. Feeding a sequence number that was already
    /// released or parked is a protocol violation the caller must rule out.
    pub fn insert(&mut self, e: Encoded)
        requires
            old(self).wf(),
            e.sequence_number >= old(self).next_expected,
            !old(self).contains_seq(e.sequence_number as nat),
        ensures
            final(self).wf(),
            final(self).pending@ == old(self).pending@.push(e),
            final(self).next_expected == old(self).next_expected,
    {
        proof {
            lemma_find_seq(self.pending@, e.sequence_number as nat);
        }
        self.pending.push(e);
    }

    /// Releases the job with the next expected sequence number, if it is
    /// parked: that job leaves the buffer and the expectation advances.
    pub fn pop_ready(&mut self) -> (r: Option<Encoded>)
        requires
            old(self).wf(),
            old(self).next_expected < usize::MAX,
        ensures
            final(self).wf(),
            old(self).contains_seq(old(self).next_expected as nat) ==> {
                let k = find_seq(old(self).pending@, old(self).next_expected as nat);
                &&& r == Some(old(self).pending@[k])
                &&& r.unwrap().sequence_number == old(self).next_expected
                &&& final(self).pending@ == old(self).pending@.remove(k)
                &&& final(self).next_expected == old(self).next_expected + 1
            },
            !old(self).contains_seq(old(self).next_expected as nat) ==> {
                &&& r is None
                &&& final(self).pending@ == old(self).pending@
                &&& final(self).next_expected == old(self).next_expected
            },
    {
        proof {
            lemma_find_seq(self.pending@, self.next_expected as nat);
        }
        let ghost pending0 = self.pending@;
        let mut i: usize = 0;
        while i < self.pending.len() && self.pending[i].sequence_number != self.next_expected
            invariant
                self.pending@ == pending0,
                i <= pending0.len(),
                forall|j: int|
                    0 <= j < i ==> (#[trigger] pending0[j]).sequence_number
                        != self.next_expected,
            decreases pending0.len() - i,
        {
            i = i + 1;
        }
        if i == self.pending.len() {
            proof {
                if self.contains_seq(self.next_expected as nat) {
                    let k = find_seq(pending0, self.next_expected as nat);
                    assert(pending0[k].sequence_number as nat == self.next_expected as nat);
                }
            }
            None
        } else {
            proof {
                let k = find_seq(pending0, self.next_expected as nat);
                lemma_find_seq(pending0, self.next_expected as nat);
                assert(pending0[i as int].sequence_number == self.next_expected);
                if k != i as int {
                    if k < i as int {
                        assert(pending0[k].sequence_number as nat == self.next_expected as nat);
                    } else {
                        assert(pending0[i as int].sequence_number
                            != pending0[k].sequence_number);
                    }
                }
                assert(k == i as int);
            }
            let e = self.pending.remove(i);
            self.next_expected = self.next_expected + 1;
            proof {
                assert forall|a: int|
                    0 <= a < self.pending@.len() implies (#[trigger] self.pending@[a])
                    .sequence_number >= self.next_expected by {
                    if a < i as int {
                        assert(self.pending@[a] == pending0[a]);
                        assert(pending0[a].sequence_number != self.next_expected - 1);
                    } else {
                        assert(self.pending@[a] == pending0[a + 1]);
                        assert(pending0[a + 1].sequence_number != pending0[i as int].sequence_number);
                    }
                }
                assert forall|a: int, b: int|
                    0 <= a < b < self.pending@.len() implies self.pending@[a].sequence_number
                    != self.pending@[b].sequence_number by {
                    let a0 = if a < i as int {
                        a
                    } else {
                        a + 1
                    };
                    let b0 = if b < i as int {
                        b
                    } else {
                        b + 1
                    };
                    assert(self.pending@[a] == pending0[a0]);
                    assert(self.pending@[b] == pending0[b0]);
                }
            }
            Some(e)
        }
    }

    /// The number of parked jobs.
    pub fn len(&self) -> (r: usize)
        ensures
            r == self.pending@.len(),
    {
        self.pending.len()
    }

    /// Whether no job is parked.
    pub fn is_empty(&self) -> (r: bool)
        ensures
            r == (self.pending@.len() == 0),
    {
        self.pending.len() == 0
    }
}

} // verus!
