//! Write-behind persistence: accepted mutations wait in a queue until a flush
//! takes them all as one bulk write, and a per-interval request count decides
//! whether mutations are persisted at once or left for the next flush.
use vstd::prelude::*;
use crate::ledger::Kind;

verus! {

/// One accepted mutation waiting for durable storage.
#[derive(Debug, PartialEq, Eq)]
pub struct PendingWrite {
    pub tx_id: u64,
    pub account_id: u64,
    pub amount: i64,
    pub kind: Kind,
    pub description: Vec<u8>,
}

pub ghost struct WriteView {
    pub tx_id: int,
    pub account_id: int,
    pub amount: int,
    pub kind: Kind,
    pub description: Seq<u8>,
}

impl View for PendingWrite {
    type V = WriteView;

    open spec fn view(&self) -> WriteView {
        WriteView {
            tx_id: self.tx_id as int,
            account_id: self.account_id as int,
            amount: self.amount as int,
            kind: self.kind,
            description: self.description@,
        }
    }
}

pub open spec fn writes_view(v: Seq<PendingWrite>) -> Seq<WriteView> {
    v.map_values(|w: PendingWrite| w@)
}

/// The mutations waiting for the next flush, oldest first.
pub struct BatchQueue {
    items: Vec<PendingWrite>,
}

impl View for BatchQueue {
    type V = Seq<WriteView>;

    closed spec fn view(&self) -> Seq<WriteView> {
        writes_view(self.items@)
    }
}

impl BatchQueue {
    pub fn new() -> (r: BatchQueue)
        ensures
            r@ == Seq::<WriteView>::empty(),
    {
        let r = BatchQueue { items: Vec::new() };
        assert(r@ =~= Seq::<WriteView>::empty());
        r
    }

    pub fn len(&self) -> (r: usize)
        ensures
            r == self@.len(),
    {
        self.items.len()
    }

    /// Adds `w` behind the waiting mutations.
    pub fn enqueue(&mut self, w: PendingWrite)
        ensures
            final(self)@ == old(self)@.push(w@),
    {
        self.items.push(w);
        assert(writes_view(self.items@) =~= writes_view(old(self).items@).push(w@));
    }

    /// Takes every waiting mutation, oldest first, and leaves the queue empty.
    pub fn drain(&mut self) -> (r: Vec<PendingWrite>)
        ensures
            writes_view(r@) == old(self)@,
            final(self)@ == Seq::<WriteView>::empty(),
    {
        let r = self.items.split_off(0);
        assert(self@ =~= Seq::<WriteView>::empty());
        r
    }

    /// Puts back a batch whose bulk write failed, ahead of what came in
    /// since, so that the next flush writes it first and in its order.
    pub fn requeue(&mut self, batch: Vec<PendingWrite>)
        ensures
            final(self)@ == writes_view(batch@) + old(self)@,
    {
        let mut items = batch;
        items.append(&mut self.items);
        self.items = items;
        assert(self@ =~= writes_view(batch@) + old(self)@);
    }
}

/// The sum of the amounts of account `account` among `ws`.
pub open spec fn net_amount(ws: Seq<WriteView>, account: int) -> int
    decreases ws.len(),
{
    if ws.len() == 0 {
        0
    } else {
        net_amount(ws.drop_last(), account) + if ws.last().account_id == account {
            ws.last().amount
        } else {
            0
        }
    }
}

/// The balance adjustment that a batch makes to account `account`.
pub fn net_adjustment(batch: &Vec<PendingWrite>, account: u64) -> (r: i128)
    ensures
        r == net_amount(writes_view(batch@), account as int),
{
    let mut acc: i128 = 0;
    let mut i: usize = 0;
    while i < batch.len()
        invariant
            i <= batch.len(),
            acc == net_amount(writes_view(batch@).subrange(0, i as int), account as int),
            -(i as int) * 9223372036854775808 <= acc <= (i as int) * 9223372036854775808,
        decreases batch.len() - i,
    {
        let w = &batch[i];
        assert(writes_view(batch@).subrange(0, i + 1).drop_last() =~= writes_view(batch@).subrange(
            0,
            i as int,
        ));
        assert((i + 1) as int * 9223372036854775808 <= 18446744073709551616int * 9223372036854775808);
        if w.account_id == account {
            acc = acc + w.amount as i128;
        }
        i = i + 1;
        assert((i as int) * 9223372036854775808 == (i - 1) as int * 9223372036854775808 + 9223372036854775808);
    }
    assert(writes_view(batch@).subrange(0, i as int) =~= writes_view(batch@));
    acc
}

/// Whether mutations are persisted before the response or by the next flush.
#[derive(Clone, Copy, Debug, PartialEq, Eq, Structural)]
pub enum WriteMode {
    Immediate,
    Batched,
}

pub ghost struct MonitorView {
    pub count: int,
    pub threshold: int,
    pub mode: WriteMode,
}

/// Counts the requests of the current flush interval and picks the write mode.
pub struct RateMonitor {
    count: u64,
    threshold: u64,
    mode: WriteMode,
}

impl View for RateMonitor {
    type V = MonitorView;

    closed spec fn view(&self) -> MonitorView {
        MonitorView { count: self.count as int, threshold: self.threshold as int, mode: self.mode }
    }
}

impl RateMonitor {
    /// A monitor that switches to batched writes once `threshold` requests
    /// arrive within one interval; it starts in immediate mode.
    pub fn new(threshold: u64) -> (r: RateMonitor)
        ensures
            r@ == (MonitorView { count: 0, threshold: threshold as int, mode: WriteMode::Immediate }),
    {
        RateMonitor { count: 0, threshold, mode: WriteMode::Immediate }
    }

    pub fn mode(&self) -> (r: WriteMode)
        ensures
            r == self@.mode,
    {
        self.mode
    }

    /// Counts one request and gives the mode to persist it in: batched from
    /// the request that reaches the threshold on.
    pub fn record_request(&mut self) -> (r: WriteMode)
        ensures
            final(self)@.threshold == old(self)@.threshold,
            final(self)@.count == if old(self)@.count < u64::MAX {
                old(self)@.count + 1
            } else {
                old(self)@.count
            },
            final(self)@.mode == if final(self)@.count >= old(self)@.threshold {
                WriteMode::Batched
            } else {
                old(self)@.mode
            },
            r == final(self)@.mode,
    {
        if self.count < u64::MAX {
            self.count = self.count + 1;
        }
        if self.count >= self.threshold {
            self.mode = WriteMode::Batched;
        }
        self.mode
    }

    /// Closes the interval: the next one runs batched if this one reached
    /// the threshold, immediate otherwise, and counts from zero.
    pub fn end_interval(&mut self) -> (r: WriteMode)
        ensures
            final(self)@ == (MonitorView {
                count: 0,
                threshold: old(self)@.threshold,
                mode: if old(self)@.count >= old(self)@.threshold {
                    WriteMode::Batched
                } else {
                    WriteMode::Immediate
                },
            }),
            r == final(self)@.mode,
    {
        self.mode = if self.count >= self.threshold {
            WriteMode::Batched
        } else {
            WriteMode::Immediate
        };
        self.count = 0;
        self.mode
    }
}

} // verus!
