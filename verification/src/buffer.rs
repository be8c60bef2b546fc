use vstd::prelude::*;

use std::collections::VecDeque;

verus! {

/// A bounded sliding window of `(offset, payload)` entries that tolerates
/// reorganizations of its tail: a pushed entry may replace trailing entries
/// that share or exceed its offset, and an entry is handed back as confirmed
/// only once `depth` newer offsets have accumulated on top of it.
pub struct ReorganizingBuffer<Value> {
    /// How many newer offsets must arrive on top of an entry before it is
    /// confirmed; equally, the most trailing entries one reorganization may
    /// discard.
    pub depth: usize,
    /// The unconfirmed entries, oldest first, with consecutive offsets.
    pub queue: VecDeque<(u64, Vec<Value>)>,
}

/// Why a `push` was refused. Either way the window is left untouched.
#[derive(Debug, PartialEq, Eq)]
pub enum ReorganizingBufferError {
    /// The pushed offset skips past the window's last offset plus one; the
    /// carried value is the offset that was expected next.
    MissingOffset(u64),
    /// Accepting the pushed offset would discard more trailing entries than
    /// `depth` allows; the carried value is that reorganization depth.
    DepthExceeded(u64),
}

/// Every entry's offset is the front offset advanced by its position: the
/// window holds consecutive offsets with no gap and no duplicate.
pub open spec fn window_contiguous<P>(w: Seq<(u64, P)>) -> bool {
    forall|i: int| 0 <= i < w.len() ==> (#[trigger] w[i]).0 == w[0].0 + i
}

/// A well-formed window: at most `depth` entries, with consecutive offsets.
pub open spec fn window_wf<P>(w: Seq<(u64, P)>, depth: nat) -> bool {
    &&& w.len() <= depth
    &&& window_contiguous(w)
}

/// The pushed offset leaves a gap behind the window's last entry.
pub open spec fn missing_offset_case<P>(w: Seq<(u64, P)>, off: u64) -> bool {
    w.len() > 0 && off > w.last().0 + 1
}

/// How many trailing entries accepting `off` discards: `0` for a plain
/// append, `1` when the most recent entry is replaced, and so on.
pub open spec fn reorg_depth_of<P>(w: Seq<(u64, P)>, off: u64) -> int
    recommends
        w.len() > 0,
        !missing_offset_case(w, off),
{
    w.last().0 + 1 - off
}

/// The pushed offset reaches back further than `depth` tolerates.
pub open spec fn depth_exceeded_case<P>(w: Seq<(u64, P)>, depth: nat, off: u64) -> bool {
    &&& w.len() > 0
    &&& !missing_offset_case(w, off)
    &&& reorg_depth_of(w, off) > depth
}

/// A push succeeds exactly when it neither skips an offset nor reorganizes
/// deeper than `depth`.
pub open spec fn push_accepted<P>(w: Seq<(u64, P)>, depth: nat, off: u64) -> bool {
    &&& !missing_offset_case(w, off)
    &&& !depth_exceeded_case(w, depth, off)
}

/// The window right after an accepted push, before any confirmation is
/// popped: the superseded tail is discarded and the new entry appended.
pub open spec fn pushed_window<P>(w: Seq<(u64, P)>, off: u64, v: P) -> Seq<(u64, P)> {
    if w.len() == 0 {
        seq![(off, v)]
    } else {
        let r = reorg_depth_of(w, off);
        let kept: int = if r <= w.len() {
            w.len() - r
        } else {
            0
        };
        w.take(kept).push((off, v))
    }
}

/// The entry an accepted push confirms: the oldest one, exactly when the
/// window would otherwise exceed `depth` entries.
pub open spec fn confirmed_of_push<P>(w: Seq<(u64, P)>, depth: nat, off: u64, v: P) -> Option<
    (u64, P),
> {
    if push_accepted(w, depth, off) {
        let w2 = pushed_window(w, off, v);
        if w2.len() > depth {
            Some(w2[0])
        } else {
            None
        }
    } else {
        None
    }
}

/// The window once a push returns: unchanged on a refusal, else the pushed
/// window with the confirmed front entry (if any) removed.
pub open spec fn window_after_push<P>(w: Seq<(u64, P)>, depth: nat, off: u64, v: P) -> Seq<
    (u64, P),
> {
    if push_accepted(w, depth, off) {
        let w2 = pushed_window(w, off, v);
        if w2.len() > depth {
            w2.subrange(1, w2.len() as int)
        } else {
            w2
        }
    } else {
        w
    }
}

/// An accepted push yields a non-empty window of consecutive offsets with at
/// most `depth + 1` entries before the confirmation (if any) is popped.
pub proof fn lemma_pushed_window_contiguous<P>(w: Seq<(u64, P)>, depth: nat, off: u64, v: P)
    requires
        window_wf(w, depth),
        push_accepted(w, depth, off),
    ensures
        window_contiguous(pushed_window(w, off, v)),
        pushed_window(w, off, v).len() <= depth + 1,
        pushed_window(w, off, v).len() > 0,
{
    let w2 = pushed_window(w, off, v);
    if w.len() == 0 {
        assert(w2 =~= seq![(off, v)]);
    } else {
        let r = reorg_depth_of(w, off);
        let kept: int = if r <= w.len() {
            w.len() - r
        } else {
            0
        };
        assert(w2 =~= w.take(kept).push((off, v)));
        assert(w2.len() == kept + 1);
        assert forall|i: int| 0 <= i < w2.len() implies (#[trigger] w2[i]).0 == w2[0].0 + i by {
            if kept > 0 {
                assert(w2[0] == w[0]);
                if i < kept {
                    assert(w2[i] == w[i]);
                } else {
                    assert(w2[i] == (off, v));
                    assert(w.last().0 == w[0].0 + w.len() - 1);
                    assert(off == w[0].0 + (w.len() - r));
                }
            }
        }
    }
}

/// A push preserves well-formedness of the window.
pub proof fn lemma_push_preserves_wf<P>(w: Seq<(u64, P)>, depth: nat, off: u64, v: P)
    requires
        window_wf(w, depth),
    ensures
        window_wf(window_after_push(w, depth, off, v), depth),
{
    if push_accepted(w, depth, off) {
        lemma_pushed_window_contiguous(w, depth, off, v);
        let w2 = pushed_window(w, off, v);
        if w2.len() > depth {
            let w3 = w2.subrange(1, w2.len() as int);
            assert forall|i: int| 0 <= i < w3.len() implies (#[trigger] w3[i]).0 == w3[0].0
                + i by {
                assert(w3[i] == w2[i + 1]);
                assert(w3[0] == w2[1]);
            }
        }
    }
}

/// The window after driving it through a whole sequence of pushes, a
/// refused push leaving it unchanged.
pub open spec fn window_after_run<P>(w: Seq<(u64, P)>, depth: nat, pushes: Seq<(u64, P)>) -> Seq<
    (u64, P),
>
    decreases pushes.len(),
{
    if pushes.len() == 0 {
        w
    } else {
        window_after_run(
            window_after_push(w, depth, pushes[0].0, pushes[0].1),
            depth,
            pushes.drop_first(),
        )
    }
}

/// The entries a whole sequence of pushes confirms, in order of emission.
pub open spec fn confirmed_of_run<P>(w: Seq<(u64, P)>, depth: nat, pushes: Seq<(u64, P)>) -> Seq<
    (u64, P),
>
    decreases pushes.len(),
{
    if pushes.len() == 0 {
        Seq::empty()
    } else {
        let head = match confirmed_of_push(w, depth, pushes[0].0, pushes[0].1) {
            Some(e) => seq![e],
            None => Seq::empty(),
        };
        head + confirmed_of_run(
            window_after_push(w, depth, pushes[0].0, pushes[0].1),
            depth,
            pushes.drop_first(),
        )
    }
}

/// No push of the run reorganizes past the front of the window it meets:
/// each accepted offset is at least the front offset at that moment.
pub open spec fn run_reorgs_bounded<P>(w: Seq<(u64, P)>, depth: nat, pushes: Seq<(u64, P)>) -> bool
    decreases pushes.len(),
{
    pushes.len() == 0 || {
        &&& (w.len() > 0 && push_accepted(w, depth, pushes[0].0) ==> pushes[0].0 >= w[0].0)
        &&& run_reorgs_bounded(
            window_after_push(w, depth, pushes[0].0, pushes[0].1),
            depth,
            pushes.drop_first(),
        )
    }
}

/// Facts about one accepted push used for the order law: with a positive
/// depth the window stays non-empty, its front offset does not move
/// backwards while the push does not reorganize past it, and a confirmed
/// entry is the old front entry, with the new front right above it.
proof fn lemma_push_step_facts<P>(w: Seq<(u64, P)>, depth: nat, off: u64, v: P)
    requires
        window_wf(w, depth),
        depth >= 1,
        push_accepted(w, depth, off),
    ensures
        window_after_push(w, depth, off, v).len() > 0,
        w.len() > 0 && off >= w[0].0 ==> window_after_push(w, depth, off, v)[0].0 >= w[0].0,
        confirmed_of_push(w, depth, off, v) matches Some(e) ==> w.len() > 0 && e == w[0]
            && window_after_push(w, depth, off, v)[0].0 == e.0 + 1,
{
    lemma_pushed_window_contiguous(w, depth, off, v);
    let w2 = pushed_window(w, off, v);
    let wa = window_after_push(w, depth, off, v);
    if w2.len() > depth {
        // only a plain append onto a full window confirms: the kept prefix is
        // all of `w`, whose length is exactly `depth`
        assert(w.len() > 0);
        let r = reorg_depth_of(w, off);
        assert(r == 0 && w.len() == depth);
        assert(w2 =~= w.take(w.len() as int).push((off, v)));
        assert(w.take(w.len() as int) =~= w);
        assert(w2[0] == w[0]);
        assert(wa =~= w2.subrange(1, w2.len() as int));
        assert(wa[0] == w2[1]);
        assert(w2[1].0 == w2[0].0 + 1);
    } else {
        assert(wa == w2);
        if w.len() > 0 && off >= w[0].0 {
            let r = reorg_depth_of(w, off);
            assert(w.last().0 == w[0].0 + w.len() - 1);
            let kept: int = if r <= w.len() {
                w.len() - r
            } else {
                0
            };
            if kept > 0 {
                assert(w2[0] == w.take(kept)[0]);
                assert(w2[0] == w[0]);
            } else {
                assert(r >= w.len());
                assert(off <= w[0].0);
            }
        }
    }
}

/// Driving a well-formed window through any run of pushes keeps it
/// well-formed and, for a positive depth and reorganizations that never
/// reach past the front, emits confirmations in strictly increasing offset
/// order, never below the starting front offset and always below the front
/// offset that remains.
proof fn lemma_run_facts<P>(w: Seq<(u64, P)>, depth: nat, pushes: Seq<(u64, P)>)
    requires
        window_wf(w, depth),
        depth >= 1,
        run_reorgs_bounded(w, depth, pushes),
    ensures
        window_wf(window_after_run(w, depth, pushes), depth),
        forall|i: int, j: int|
            0 <= i < j < confirmed_of_run(w, depth, pushes).len() ==> confirmed_of_run(
                w,
                depth,
                pushes,
            )[i].0 < confirmed_of_run(w, depth, pushes)[j].0,
        w.len() > 0 ==> window_after_run(w, depth, pushes).len() > 0 && window_after_run(
            w,
            depth,
            pushes,
        )[0].0 >= w[0].0,
        w.len() > 0 ==> forall|k: int|
            0 <= k < confirmed_of_run(w, depth, pushes).len() ==> (#[trigger] confirmed_of_run(
                w,
                depth,
                pushes,
            )[k]).0 >= w[0].0,
        confirmed_of_run(w, depth, pushes).len() > 0 ==> window_after_run(w, depth, pushes).len()
            > 0 && confirmed_of_run(w, depth, pushes).last().0 < window_after_run(
            w,
            depth,
            pushes,
        )[0].0,
    decreases pushes.len(),
{
    if pushes.len() > 0 {
        let off = pushes[0].0;
        let v = pushes[0].1;
        let w1 = window_after_push(w, depth, off, v);
        let rest = pushes.drop_first();
        let c_rest = confirmed_of_run(w1, depth, rest);
        let c = confirmed_of_run(w, depth, pushes);
        let wr = window_after_run(w, depth, pushes);
        lemma_push_preserves_wf(w, depth, off, v);
        lemma_run_facts(w1, depth, rest);
        if !push_accepted(w, depth, off) {
            assert(w1 == w);
            assert(c =~= c_rest);
        } else {
            lemma_push_step_facts(w, depth, off, v);
            assert(w1.len() > 0);
            match confirmed_of_push(w, depth, off, v) {
                Option::None => {
                    assert(c =~= c_rest);
                    if w.len() > 0 {
                        assert(w1[0].0 >= w[0].0);
                    }
                },
                Option::Some(e) => {
                    assert(c =~= seq![e] + c_rest);
                    assert(c[0] == e);
                    assert(e == w[0]);
                    assert(w1[0].0 == e.0 + 1);
                    assert(wr.len() > 0 && wr[0].0 >= w1[0].0);
                    assert forall|i: int, j: int| 0 <= i < j < c.len() implies c[i].0 < c[j].0 by {
                        if i > 0 {
                            assert(c[i] == c_rest[i - 1] && c[j] == c_rest[j - 1]);
                        } else {
                            assert(c[j] == c_rest[j - 1]);
                            assert(c_rest[j - 1].0 >= w1[0].0);
                        }
                    }
                    assert forall|k: int| 0 <= k < c.len() implies (#[trigger] c[k]).0
                        >= w[0].0 by {
                        if k > 0 {
                            assert(c[k] == c_rest[k - 1]);
                            assert(c_rest[k - 1].0 >= w1[0].0);
                        }
                    }
                    if c_rest.len() > 0 {
                        assert(c.last() == c_rest.last());
                    } else {
                        assert(c.last() == e);
                        assert(wr[0].0 >= w1[0].0);
                    }
                },
            }
        }
    }
}

/// Confirmation order law: starting from the empty window of a freshly built
/// buffer with a positive depth, and as long as no accepted push reorganizes
/// past the window's front, the confirmed entries come out in strictly
/// increasing offset order — in particular, no offset is confirmed twice.
pub proof fn lemma_confirmation_order<P>(depth: nat, pushes: Seq<(u64, P)>)
    requires
        depth >= 1,
        run_reorgs_bounded(Seq::<(u64, P)>::empty(), depth, pushes),
    ensures
        forall|i: int, j: int|
            0 <= i < j < confirmed_of_run(Seq::<(u64, P)>::empty(), depth, pushes).len()
                ==> confirmed_of_run(Seq::<(u64, P)>::empty(), depth, pushes)[i].0
                < confirmed_of_run(Seq::<(u64, P)>::empty(), depth, pushes)[j].0,
{
    lemma_run_facts(Seq::<(u64, P)>::empty(), depth, pushes);
}

/// Window bound and contiguity law: however a well-formed window is driven,
/// it never holds more than `depth` entries and its offsets stay
/// consecutive.
pub proof fn lemma_window_wf_after_run<P>(w: Seq<(u64, P)>, depth: nat, pushes: Seq<(u64, P)>)
    requires
        window_wf(w, depth),
    ensures
        window_after_run(w, depth, pushes).len() <= depth,
        window_contiguous(window_after_run(w, depth, pushes)),
    decreases pushes.len(),
{
    if pushes.len() > 0 {
        lemma_push_preserves_wf(w, depth, pushes[0].0, pushes[0].1);
        lemma_window_wf_after_run(
            window_after_push(w, depth, pushes[0].0, pushes[0].1),
            depth,
            pushes.drop_first(),
        );
    }
}

/// Pass-through law: with depth zero the window is empty before and after
/// every push, every push is accepted, and each push immediately confirms
/// exactly the entry it was given.
pub proof fn lemma_depth_zero_passthrough<P>(w: Seq<(u64, P)>, off: u64, v: P)
    requires
        window_wf(w, 0),
    ensures
        w.len() == 0,
        push_accepted(w, 0, off),
        confirmed_of_push(w, 0, off, v) == Some((off, v)),
        window_after_push(w, 0, off, v).len() == 0,
{
    assert(pushed_window(w, off, v) =~= seq![(off, v)]);
}

/// Reorganization eviction law: pushing an offset already present in the
/// window is always accepted, confirms nothing, and replaces exactly the
/// entry holding that offset and every entry after it with the new entry.
pub proof fn lemma_reorg_eviction<P>(w: Seq<(u64, P)>, depth: nat, k: int, v: P)
    requires
        window_wf(w, depth),
        0 <= k < w.len(),
    ensures
        push_accepted(w, depth, w[k].0),
        confirmed_of_push(w, depth, w[k].0, v) is None,
        window_after_push(w, depth, w[k].0, v) == w.take(k).push((w[k].0, v)),
{
    let off = w[k].0;
    assert(w.last().0 == w[0].0 + w.len() - 1);
    assert(off == w[0].0 + k);
    assert(reorg_depth_of(w, off) == w.len() - k);
    assert(window_after_push(w, depth, off, v) =~= w.take(k).push((off, v)));
}

impl<Value> ReorganizingBuffer<Value> {
    /// The entries currently held, oldest first.
    pub open spec fn entries(self) -> Seq<(u64, Vec<Value>)> {
        self.queue@
    }

    pub open spec fn wf(self) -> bool {
        window_wf(self.entries(), self.depth as nat)
    }

    /// An empty window that confirms an entry only once `depth` newer
    /// offsets have been pushed on top of it.
    pub fn new(depth: usize) -> (buffer: ReorganizingBuffer<Value>)
        requires
            depth < usize::MAX,
        ensures
            buffer.depth == depth,
            buffer.entries() == Seq::<(u64, Vec<Value>)>::empty(),
            buffer.wf(),
    {
        ReorganizingBuffer { depth, queue: VecDeque::with_capacity(depth + 1) }
    }

    /// Push one observed `(offset, payload)` entry.
    ///
    /// Fails with `MissingOffset(last + 1)` exactly when `offset` skips past
    /// the window's next expected offset, and with `DepthExceeded(r)` exactly
    /// when replacing the trailing entries down to `offset` would discard
    /// more than `depth` of them; both failures leave the window untouched.
    /// An accepted entry supersedes the replaced tail and is appended; if the
    /// window then holds more than `depth` entries, the oldest is removed and
    /// returned as confirmed, strictly older by offset than everything that
    /// remains.
    pub fn push(&mut self, item: (u64, Vec<Value>)) -> (result: Result<
        Option<(u64, Vec<Value>)>,
        ReorganizingBufferError,
    >)
        requires
            old(self).wf(),
            old(self).entries().len() > 0 && old(self).entries().last().0 == u64::MAX
                ==> item.0 > 0,
        ensures
            final(self).depth == old(self).depth,
            final(self).wf(),
            ({
                let w = old(self).entries();
                let d = old(self).depth as nat;
                match result {
                    Result::Ok(confirmed) => {
                        &&& push_accepted(w, d, item.0)
                        &&& confirmed == confirmed_of_push(w, d, item.0, item.1)
                        &&& final(self).entries() == window_after_push(w, d, item.0, item.1)
                    },
                    Result::Err(ReorganizingBufferError::MissingOffset(expected)) => {
                        &&& missing_offset_case(w, item.0)
                        &&& expected == w.last().0 + 1
                        &&& final(self).entries() == w
                    },
                    Result::Err(ReorganizingBufferError::DepthExceeded(r)) => {
                        &&& depth_exceeded_case(w, d, item.0)
                        &&& r == reorg_depth_of(w, item.0)
                        &&& final(self).entries() == w
                    },
                }
            }),
            result is Err ==> final(self).entries() == old(self).entries(),
            result matches Ok(Some(e)) ==> forall|i: int|
                0 <= i < final(self).entries().len() ==> e.0 < (#[trigger] final(self).entries()[i]).0,
            old(self).depth == 0 ==> result == Ok::<
                Option<(u64, Vec<Value>)>,
                ReorganizingBufferError,
            >(Some(item)) && final(self).entries().len() == 0,
    {
        let ghost w = self.queue@;
        let ghost d = self.depth as nat;
        let (new_offset, new_value) = item;
        let n = self.queue.len();
        if n > 0 {
            let last_offset = self.queue[n - 1].0;
            assert(last_offset == w.last().0);
            if new_offset > last_offset {
                if new_offset - last_offset > 1 {
                    return Err(ReorganizingBufferError::MissingOffset(last_offset + 1));
                }
                assert(reorg_depth_of(w, new_offset) == 0);
            } else {
                let reorg_depth = last_offset - new_offset + 1;
                assert(reorg_depth == reorg_depth_of(w, new_offset));
                if reorg_depth > self.depth as u64 {
                    return Err(ReorganizingBufferError::DepthExceeded(reorg_depth));
                }
                let mut evicted: u64 = 0;
                while evicted < reorg_depth
                    invariant
                        evicted <= reorg_depth,
                        reorg_depth == reorg_depth_of(w, new_offset),
                        self.depth == old(self).depth,
                        self.queue@ =~= w.take(
                            if evicted <= w.len() {
                                w.len() - evicted
                            } else {
                                0
                            },
                        ),
                    decreases reorg_depth - evicted,
                {
                    let ghost before = self.queue@;
                    let _ = self.queue.pop_back();
                    proof {
                        if before.len() > 0 {
                            assert(self.queue@ =~= before.subrange(0, before.len() - 1));
                        }
                        assert(self.queue@ =~= w.take(
                            if evicted + 1 <= w.len() {
                                w.len() - (evicted + 1)
                            } else {
                                0
                            },
                        ));
                    }
                    evicted = evicted + 1;
                }
            }
        }
        proof {
            assert(push_accepted(w, d, new_offset));
            let r = if w.len() == 0 {
                0
            } else {
                reorg_depth_of(w, new_offset)
            };
            let kept: int = if r <= w.len() {
                w.len() - r
            } else {
                0
            };
            assert(self.queue@ =~= w.take(kept));
        }
        self.queue.push_back((new_offset, new_value));
        proof {
            assert(self.queue@ =~= pushed_window(w, new_offset, new_value));
            assert((new_offset, new_value) == item);
            lemma_pushed_window_contiguous(w, d, new_offset, new_value);
            lemma_push_preserves_wf(w, d, new_offset, new_value);
        }
        let ghost w2 = pushed_window(w, new_offset, new_value);
        if self.queue.len() > self.depth {
            let confirmed = self.queue.pop_front();
            proof {
                assert(self.queue@ =~= w2.subrange(1, w2.len() as int));
                assert(self.entries() == window_after_push(w, d, item.0, item.1));
                assert forall|i: int| 0 <= i < self.entries().len() implies w2[0].0 < (
                #[trigger] self.entries()[i]).0 by {
                    assert(self.entries()[i] == w2[i + 1]);
                    assert(w2[i + 1].0 == w2[0].0 + i + 1);
                }
            }
            Ok(confirmed)
        } else {
            proof {
                assert(self.entries() == window_after_push(w, d, item.0, item.1));
            }
            Ok(None)
        }
    }
}

} // verus!
