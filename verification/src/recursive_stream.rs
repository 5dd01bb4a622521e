//! The decisions of a stream that polls a queue of futures, each of which yields
//! items and further futures.
//!
//! Polling a future is the caller's work; this module decides which future to
//! poll next, what a ready future's output does to the queue and the items, and
//! what one poll of the whole stream yields.
use vstd::prelude::*;

verus! {

/// What a future of the stream yields: an item, or a further future to poll.
pub enum RecursiveItem<T, F> {
    Item(T),
    Future(F),
}

/// The items among the outputs, in order.
pub open spec fn items_of<T, F>(s: Seq<RecursiveItem<T, F>>) -> Seq<T>
    decreases s.len(),
{
    if s.len() == 0 {
        Seq::empty()
    } else {
        items_of(s.drop_last()) + match s.last() {
            RecursiveItem::Item(t) => seq![t],
            RecursiveItem::Future(_) => Seq::empty(),
        }
    }
}

/// The futures among the outputs, in order.
pub open spec fn futures_of<T, F>(s: Seq<RecursiveItem<T, F>>) -> Seq<F>
    decreases s.len(),
{
    if s.len() == 0 {
        Seq::empty()
    } else {
        futures_of(s.drop_last()) + match s.last() {
            RecursiveItem::Item(_) => Seq::empty(),
            RecursiveItem::Future(f) => seq![f],
        }
    }
}

/// Each output of a ready future is either an item or a future, never both, never
/// neither: nothing of it is lost or counted twice.
pub proof fn lemma_output_partition<T, F>(output: Seq<RecursiveItem<T, F>>)
    ensures
        items_of(output).len() + futures_of(output).len() == output.len(),
    decreases output.len(),
{
    if output.len() > 0 {
        lemma_output_partition(output.drop_last());
    }
}

/// A ready future leaves the queue and the futures of its output join it: every other
/// future of the queue stays, once, and none is added but those of the output.
pub proof fn lemma_ready_step_conserves<T, F>(
    queue: Seq<F>,
    i: int,
    output: Seq<RecursiveItem<T, F>>,
)
    requires
        0 <= i < queue.len(),
    ensures
        (queue.take(i) + futures_of(output) + queue.skip(i + 1)).to_multiset()
            == queue.to_multiset().remove(queue[i]).add(futures_of(output).to_multiset()),
{
    broadcast use vstd::seq_lib::group_to_multiset_ensures;

    let a = queue.take(i);
    let f = futures_of(output);
    let b = queue.skip(i + 1);
    assert(queue.remove(i) =~= a + b);
    vstd::seq_lib::lemma_multiset_commutative(a + f, b);
    vstd::seq_lib::lemma_multiset_commutative(a, f);
    vstd::seq_lib::lemma_multiset_commutative(a, b);
    assert(queue.remove(i).to_multiset() =~= queue.to_multiset().remove(queue[i]));
    assert((a + f + b).to_multiset() =~= a.to_multiset().add(b.to_multiset()).add(f.to_multiset()));
}

/// The items that the futures `fs` owe, each counted once: for each future of rank below
/// `bound`, the items of its output and, in turn, those that the futures of its output
/// owe. A future completes with `out` of it; each future of that output has a lower rank.
pub open spec fn owed<T, F>(
    out: spec_fn(F) -> Seq<RecursiveItem<T, F>>,
    rank: spec_fn(F) -> nat,
    fs: Seq<F>,
    bound: nat,
) -> vstd::multiset::Multiset<T>
    decreases bound, fs.len(),
{
    if fs.len() == 0 {
        vstd::multiset::Multiset::empty()
    } else {
        let f = fs.last();
        owed(out, rank, fs.drop_last(), bound).add(
            if rank(f) < bound {
                items_of(out(f)).to_multiset().add(
                    owed(out, rank, futures_of(out(f)), rank(f)),
                )
            } else {
                vstd::multiset::Multiset::empty()
            },
        )
    }
}

/// The items that one future owes: those of its output and those owed by the futures of
/// its output.
pub open spec fn future_total<T, F>(
    out: spec_fn(F) -> Seq<RecursiveItem<T, F>>,
    rank: spec_fn(F) -> nat,
    f: F,
) -> vstd::multiset::Multiset<T> {
    owed(out, rank, seq![f], rank(f) + 1)
}

/// The items that a queue of futures owes: what each of its futures owes.
pub open spec fn queue_total<T, F>(
    out: spec_fn(F) -> Seq<RecursiveItem<T, F>>,
    rank: spec_fn(F) -> nat,
    queue: Seq<F>,
) -> vstd::multiset::Multiset<T>
    decreases queue.len(),
{
    if queue.len() == 0 {
        vstd::multiset::Multiset::empty()
    } else {
        queue_total(out, rank, queue.drop_last()).add(future_total(out, rank, queue.last()))
    }
}

/// Whether the futures of the output of `f` all have a lower rank than `f`.
pub open spec fn ranked_below<T, F>(
    out: spec_fn(F) -> Seq<RecursiveItem<T, F>>,
    rank: spec_fn(F) -> nat,
    f: F,
) -> bool {
    forall|k: int|
        0 <= k < futures_of(out(f)).len() ==> rank(#[trigger] futures_of(out(f))[k]) < rank(f)
}

/// The account of a run of the stream started on `root`: the items yielded so far, those
/// gathered in the current poll and those the queue still owes are, together, exactly
/// what `root` owes.
pub open spec fn stream_owes<T, F>(
    out: spec_fn(F) -> Seq<RecursiveItem<T, F>>,
    rank: spec_fn(F) -> nat,
    root: F,
    yielded: Seq<T>,
    items: Seq<T>,
    queue: Seq<F>,
) -> bool {
    yielded.to_multiset().add(items.to_multiset()).add(queue_total(out, rank, queue))
        == future_total(out, rank, root)
}

proof fn lemma_queue_total_concat<T, F>(
    out: spec_fn(F) -> Seq<RecursiveItem<T, F>>,
    rank: spec_fn(F) -> nat,
    a: Seq<F>,
    b: Seq<F>,
)
    ensures
        queue_total(out, rank, a + b) == queue_total(out, rank, a).add(queue_total(out, rank, b)),
    decreases b.len(),
{
    if b.len() == 0 {
        assert(a + b =~= a);
        assert(queue_total(out, rank, a).add(vstd::multiset::Multiset::empty()) =~= queue_total(
            out,
            rank,
            a,
        ));
    } else {
        assert((a + b).drop_last() =~= a + b.drop_last());
        assert((a + b).last() == b.last());
        lemma_queue_total_concat(out, rank, a, b.drop_last());
        assert(queue_total(out, rank, a + b) =~= queue_total(out, rank, a).add(
            queue_total(out, rank, b),
        ));
    }
}

proof fn lemma_owed_is_queue_total<T, F>(
    out: spec_fn(F) -> Seq<RecursiveItem<T, F>>,
    rank: spec_fn(F) -> nat,
    fs: Seq<F>,
    bound: nat,
)
    requires
        forall|k: int| 0 <= k < fs.len() ==> rank(#[trigger] fs[k]) < bound,
    ensures
        owed(out, rank, fs, bound) == queue_total(out, rank, fs),
    decreases fs.len(),
{
    if fs.len() > 0 {
        let f = fs.last();
        assert(rank(fs[fs.len() - 1]) < bound);
        lemma_owed_is_queue_total(out, rank, fs.drop_last(), bound);
        lemma_future_total_unfold(out, rank, f);
    }
}

proof fn lemma_future_total_unfold<T, F>(
    out: spec_fn(F) -> Seq<RecursiveItem<T, F>>,
    rank: spec_fn(F) -> nat,
    f: F,
)
    ensures
        future_total(out, rank, f) == items_of(out(f)).to_multiset().add(
            owed(out, rank, futures_of(out(f)), rank(f)),
        ),
{
    let one = seq![f];
    let bound: nat = rank(f) + 1;
    assert(one.len() == 1);
    assert(one.drop_last() =~= Seq::<F>::empty());
    assert(one.last() == f);
    let m = items_of(out(f)).to_multiset().add(owed(out, rank, futures_of(out(f)), rank(f)));
    assert(owed(out, rank, one.drop_last(), bound) == vstd::multiset::Multiset::<T>::empty());
    assert(owed(out, rank, one, bound) == owed(out, rank, one.drop_last(), bound).add(m));
    assert(vstd::multiset::Multiset::<T>::empty().add(m) =~= m);
}

/// A stream made on `root` starts the account: nothing yielded, nothing gathered, and its
/// queue owes what `root` owes.
pub proof fn lemma_stream_starts<T, F>(
    out: spec_fn(F) -> Seq<RecursiveItem<T, F>>,
    rank: spec_fn(F) -> nat,
    root: F,
)
    ensures
        stream_owes(out, rank, root, Seq::<T>::empty(), Seq::<T>::empty(), seq![root]),
{
    broadcast use vstd::seq_lib::group_to_multiset_ensures;

    let one = seq![root];
    assert(one.len() == 1);
    assert(one.drop_last() =~= Seq::<F>::empty());
    let t = future_total(out, rank, root);
    assert(queue_total(out, rank, one.drop_last()) == vstd::multiset::Multiset::<T>::empty());
    assert(queue_total(out, rank, one) == queue_total(out, rank, one.drop_last()).add(t));
    assert(vstd::multiset::Multiset::<T>::empty().add(t) =~= t);
    assert(Seq::<T>::empty().to_multiset() =~= vstd::multiset::Multiset::<T>::empty());
    assert(vstd::multiset::Multiset::<T>::empty().add(vstd::multiset::Multiset::<T>::empty()).add(t)
        =~= t);
}

/// A ready future keeps the account: it leaves the queue, the items of its output join
/// those gathered, and the futures of its output join the queue in its place; no item is
/// lost and none is counted twice.
pub proof fn lemma_ready_keeps_account<T, F>(
    out: spec_fn(F) -> Seq<RecursiveItem<T, F>>,
    rank: spec_fn(F) -> nat,
    root: F,
    yielded: Seq<T>,
    items: Seq<T>,
    queue: Seq<F>,
    i: int,
)
    requires
        stream_owes(out, rank, root, yielded, items, queue),
        0 <= i < queue.len(),
        ranked_below(out, rank, queue[i]),
    ensures
        stream_owes(
            out,
            rank,
            root,
            yielded,
            items + items_of(out(queue[i])),
            queue.take(i) + futures_of(out(queue[i])) + queue.skip(i + 1),
        ),
{
    broadcast use vstd::seq_lib::group_to_multiset_ensures;

    let f = queue[i];
    let a = queue.take(i);
    let fs = futures_of(out(f));
    let b = queue.skip(i + 1);
    assert(queue =~= a + seq![f] + b);
    lemma_queue_total_concat(out, rank, a + seq![f], b);
    lemma_queue_total_concat(out, rank, a, seq![f]);
    lemma_queue_total_concat(out, rank, a + fs, b);
    lemma_queue_total_concat(out, rank, a, fs);
    let one = seq![f];
    assert(one.len() == 1);
    assert(one.drop_last() =~= Seq::<F>::empty());
    assert(queue_total(out, rank, one.drop_last()) == vstd::multiset::Multiset::<T>::empty());
    assert(queue_total(out, rank, one) == queue_total(out, rank, one.drop_last()).add(
        future_total(out, rank, f),
    ));
    lemma_future_total_unfold(out, rank, f);
    lemma_owed_is_queue_total(out, rank, fs, rank(f));
    vstd::seq_lib::lemma_multiset_commutative(items, items_of(out(f)));
    let qa = queue_total(out, rank, a);
    let qb = queue_total(out, rank, b);
    let qf = queue_total(out, rank, fs);
    let it = items_of(out(f)).to_multiset();
    let ft = future_total(out, rank, f);
    assert(vstd::multiset::Multiset::<T>::empty().add(ft) =~= ft);
    assert(ft == it.add(qf));
    assert(queue_total(out, rank, queue) == qa.add(it.add(qf)).add(qb));
    assert(queue_total(out, rank, a + fs + b) == qa.add(qf).add(qb));
    assert((items + items_of(out(f))).to_multiset() == items.to_multiset().add(it));
    assert(yielded.to_multiset().add((items + items_of(out(f))).to_multiset()).add(
        qa.add(qf).add(qb),
    ) =~= yielded.to_multiset().add(items.to_multiset()).add(qa.add(it.add(qf)).add(qb)));
}

/// The end of a poll keeps the account: the items it gathered are yielded.
pub proof fn lemma_yield_keeps_account<T, F>(
    out: spec_fn(F) -> Seq<RecursiveItem<T, F>>,
    rank: spec_fn(F) -> nat,
    root: F,
    yielded: Seq<T>,
    items: Seq<T>,
    queue: Seq<F>,
)
    requires
        stream_owes(out, rank, root, yielded, items, queue),
    ensures
        stream_owes(out, rank, root, yielded + items, Seq::<T>::empty(), queue),
{
    broadcast use vstd::seq_lib::group_to_multiset_ensures;

    vstd::seq_lib::lemma_multiset_commutative(yielded, items);
    assert(Seq::<T>::empty().to_multiset() =~= vstd::multiset::Multiset::<T>::empty());
    assert((yielded + items).to_multiset().add(Seq::<T>::empty().to_multiset()) =~= yielded.to_multiset().add(
        items.to_multiset(),
    ));
}

/// Under the account, every item yielded so far is owed by `root`, no more often than it
/// is owed; once the queue is empty, the items yielded and gathered are exactly those
/// `root` owes.
pub proof fn lemma_account_bounds_yield<T, F>(
    out: spec_fn(F) -> Seq<RecursiveItem<T, F>>,
    rank: spec_fn(F) -> nat,
    root: F,
    yielded: Seq<T>,
    items: Seq<T>,
    queue: Seq<F>,
)
    requires
        stream_owes(out, rank, root, yielded, items, queue),
    ensures
        yielded.to_multiset().subset_of(future_total(out, rank, root)),
        queue.len() == 0 ==> (yielded + items).to_multiset() == future_total(out, rank, root),
{
    broadcast use vstd::seq_lib::group_to_multiset_ensures;

    vstd::seq_lib::lemma_multiset_commutative(yielded, items);
    if queue.len() == 0 {
        let m = yielded.to_multiset().add(items.to_multiset());
        assert(m.add(vstd::multiset::Multiset::<T>::empty()) =~= m);
    }
}

/// Polls every future in parallel: the queue of futures still to finish.
pub struct RecursiveStream2<F> {
    pub queue: Vec<F>,
}

/// The state of one poll of the stream: the position of the next future to poll and
/// the items gathered so far.
pub struct PollRound<T> {
    pub next: usize,
    pub items: Vec<T>,
}

impl<F> RecursiveStream2<F> {
    /// A stream whose queue holds the one future.
    pub fn new(future: F) -> (res: RecursiveStream2<F>)
        ensures
            res.queue@ == seq![future],
    {
        RecursiveStream2 { queue: vec![future] }
    }

    /// Whether the stream has ended: no future is left to poll.
    pub fn is_finished(&self) -> (res: bool)
        ensures
            res == (self.queue@.len() == 0),
    {
        self.queue.len() == 0
    }

    /// The start of a poll: from the first future, with no items.
    pub fn begin_round<T>(&self) -> (res: PollRound<T>)
        ensures
            res.next == 0,
            res.items@ == Seq::<T>::empty(),
    {
        PollRound { next: 0, items: Vec::new() }
    }

    /// The position of the future to poll next, or `None` once every future of the
    /// queue has been polled in this round.
    pub fn next_to_poll<T>(&self, round: &PollRound<T>) -> (res: Option<usize>)
        ensures
            res == if round.next < self.queue@.len() {
                Some(round.next)
            } else {
                None::<usize>
            },
    {
        if round.next < self.queue.len() {
            Some(round.next)
        } else {
            None
        }
    }

    /// The future at `round.next` is still pending: it stays, and the round moves on.
    pub fn on_pending<T>(&self, round: &mut PollRound<T>)
        requires
            old(round).next < self.queue@.len(),
        ensures
            final(round).next == old(round).next + 1,
            final(round).items@ == old(round).items@,
    {
        let len = self.queue.len();
        assert(round.next < len);
        round.next = round.next + 1;
    }

    /// The future at `round.next` is ready with `output`: in the queue it is replaced by
    /// the futures of its output, in order, and the next poll of this round is the first
    /// of them; the items of its output join the round's items, in order.
    pub fn on_ready<T>(&mut self, round: &mut PollRound<T>, output: Vec<RecursiveItem<T, F>>)
        requires
            old(round).next < old(self).queue@.len(),
        ensures
            final(self).queue@ == old(self).queue@.take(old(round).next as int) + futures_of(
                output@,
            ) + old(self).queue@.skip(old(round).next + 1),
            final(round).items@ == old(round).items@ + items_of(output@),
            final(round).next == old(round).next,
    {
        let ghost old_queue = self.queue@;
        let ghost all = output@;
        let total = output.len();
        let i = round.next;
        let _finished = self.queue.remove(i);
        let mut output = output;
        let mut pos: usize = i;
        let mut k: usize = 0;
        assert(all.take(0) =~= Seq::<RecursiveItem<T, F>>::empty());
        assert(all.skip(0) =~= all);
        while output.len() > 0
            invariant
                0 <= k <= all.len(),
                total == all.len(),
                output@ == all.skip(k as int),
                pos <= self.queue@.len(),
                i == round.next,
                i == old(round).next,
                i < old_queue.len(),
                pos == i + futures_of(all.take(k as int)).len(),
                self.queue@ == old_queue.take(i as int) + futures_of(all.take(k as int))
                    + old_queue.skip(i + 1),
                round.items@ == old(round).items@ + items_of(all.take(k as int)),
            decreases output.len(),
        {
            assert(all.take(k + 1).drop_last() =~= all.take(k as int));
            assert(all.take(k + 1).last() == all[k as int]);
            let first = output.remove(0);
            assert(output@ =~= all.skip(k + 1));
            match first {
                RecursiveItem::Item(t) => {
                    round.items.push(t);
                    assert(round.items@ =~= old(round).items@ + items_of(all.take(k + 1)));
                    assert(self.queue@ =~= old_queue.take(i as int) + futures_of(all.take(k + 1))
                        + old_queue.skip(i + 1));
                },
                RecursiveItem::Future(f) => {
                    self.queue.insert(pos, f);
                    let grown = self.queue.len();
                    assert(pos < grown);
                    assert(self.queue@ =~= old_queue.take(i as int) + futures_of(all.take(k + 1))
                        + old_queue.skip(i + 1));
                    assert(round.items@ =~= old(round).items@ + items_of(all.take(k + 1)));
                    pos = pos + 1;
                },
            }
            k = k + 1;
        }
        assert(all.take(k as int) =~= all);
    }

    /// What a poll that has polled every future of the queue yields: its items, if it
    /// gathered any; otherwise nothing yet.
    pub fn end_round<T>(round: PollRound<T>) -> (res: Option<Vec<T>>)
        ensures
            match res {
                Some(items) => round.items@.len() > 0 && items@ == round.items@,
                None => round.items@.len() == 0,
            },
    {
        if round.items.len() > 0 {
            Some(round.items)
        } else {
            None
        }
    }
}

} // verus!
