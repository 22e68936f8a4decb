//! The store: an append buffer in front of hourly rotated, zero-padded
//! regions. It decides; the caller performs the file work and reports back.
//!
//! Writing a record: `offer` it. `FlushFirst` asks for a flush before the
//! record fits; after the flush, offering it again appends it. `Appended`
//! says whether to flush now.
//!
//! Flushing: `flush_plan` is `Idle` for an empty buffer. Otherwise it names
//! the rotation key of the current hour and whether the region must be
//! switched to that key's file (`switch_to` records the switch). `place`
//! copies the buffer to the boundary of the mapped region, or gives the
//! exact number of bytes by which the region must grow first; `commit`
//! clears the buffer once the region is synced.
use vstd::prelude::*;

use crate::config::{ConfigModel, MmapConfig, MIN_SIZE};
use crate::record::NEWLINE;
use crate::region::{data_end, find_boundary, lemma_write_moves_boundary, write_at, written};
use crate::rotation::{key_of, rotation_key, RotationKey};

verus! {

/// What became of an offered record.
#[derive(Clone, Copy, Debug, PartialEq, Eq, Structural)]
pub enum Offer {
    /// The buffer is full: flush, then offer the record again.
    FlushFirst,
    /// The record is buffered; `flush_now` asks for a flush at once.
    Appended { flush_now: bool },
}

/// What a flush has to do.
#[derive(Clone, Copy, Debug, PartialEq, Eq, Structural)]
pub enum FlushPlan {
    /// Nothing is buffered: no file work at all.
    Idle,
    /// The current time has no civil date.
    NoCivilTime,
    /// Write the buffer into the file of `key`; `switch` says that the
    /// region mapped now is not that file.
    Write { key: RotationKey, switch: bool },
}

/// The number of bytes by which a region grows to make room for `deficit`
/// more bytes: whole chunks, as few as suffice.
pub open spec fn growth_for(deficit: nat, chunk: nat) -> nat
    recommends
        chunk > 0,
{
    (((deficit + chunk - 1) / chunk as int) * chunk) as nat
}

/// Growing by `growth_for(deficit, chunk)` makes room for `deficit` more
/// bytes, in whole chunks, with less than one chunk to spare.
pub proof fn lemma_growth_for(deficit: nat, chunk: nat)
    requires
        chunk > 0,
    ensures
        growth_for(deficit, chunk) >= deficit,
        growth_for(deficit, chunk) < deficit + chunk,
        growth_for(deficit, chunk) % chunk == 0,
{
    let x = (deficit + chunk - 1) as int;
    let q = x / chunk as int;
    vstd::arithmetic::div_mod::lemma_fundamental_div_mod(x, chunk as int);
    vstd::arithmetic::div_mod::lemma_mod_multiples_basic(q, chunk as int);
    assert(q >= 0);
    assert(q * chunk >= 0) by (nonlinear_arith)
        requires
            q >= 0,
            chunk > 0,
    ;
    assert(growth_for(deficit, chunk) == q * chunk);
}

/// Whether the time since the last flush has reached the flush interval.
pub open spec fn interval_elapsed(now_ms: nat, last_ms: nat, interval_s: nat) -> bool {
    now_ms >= last_ms && now_ms - last_ms >= interval_s * 1000
}

/// One store's buffer and bookkeeping.
pub struct LogStore {
    config: MmapConfig,
    pending: Vec<u8>,
    capacity: usize,
    current: Option<RotationKey>,
    last_flush_ms: u64,
}

/// What a store holds, as mathematical values.
pub struct StoreModel {
    pub config: ConfigModel,
    /// The buffered bytes, in write order.
    pub pending: Seq<u8>,
    /// The buffer capacity, and the growth chunk of a region.
    pub capacity: nat,
    /// The rotation key of the region mapped now, if any.
    pub current: Option<RotationKey>,
    /// The monotonic time of the last flush, in milliseconds.
    pub last_flush_ms: nat,
}

impl View for LogStore {
    type V = StoreModel;

    closed spec fn view(&self) -> StoreModel {
        StoreModel {
            config: self.config@,
            pending: self.pending@,
            capacity: self.capacity as nat,
            current: self.current,
            last_flush_ms: self.last_flush_ms as nat,
        }
    }
}

impl LogStore {
    /// The buffer is empty or ends with a whole record, and the capacity is
    /// at least the smallest accepted size.
    pub open spec fn wf(&self) -> bool {
        &&& self@.capacity >= MIN_SIZE
        &&& self@.config.flush_interval > 0
        &&& (self@.pending.len() == 0 || self@.pending.last() == NEWLINE)
    }

    /// A store with an empty buffer and no region, whose buffer capacity is
    /// the configured buffer size; `now_ms` is the monotonic time.
    pub fn new(config: MmapConfig, now_ms: u64) -> (r: LogStore)
        ensures
            r.wf(),
            r@.config == config@,
            r@.pending.len() == 0,
            r@.capacity == config@.buffer_size,
            r@.current is None,
            r@.last_flush_ms == now_ms,
    {
        let capacity = config.get_buffer_size();
        LogStore { config, pending: Vec::new(), capacity, current: None, last_flush_ms: now_ms }
    }

    pub fn config(&self) -> (r: &MmapConfig)
        ensures
            r@ == self@.config,
    {
        &self.config
    }

    /// The growth chunk of a region: the buffer capacity.
    pub fn chunk(&self) -> (r: usize)
        ensures
            r == self@.capacity,
    {
        self.capacity
    }

    /// Whether nothing is buffered.
    pub fn is_empty(&self) -> (r: bool)
        ensures
            r == (self@.pending.len() == 0),
    {
        self.pending.len() == 0
    }

    /// Offers one encoded record. If the buffer holds bytes and the record
    /// would take it past its capacity, nothing changes and a flush is asked
    /// for first. Otherwise the record is buffered, and a flush is asked for
    /// when the buffer reaches the flush size or the flush interval has
    /// passed.
    pub fn offer(&mut self, record: &[u8], now_ms: u64) -> (r: Offer)
        requires
            old(self).wf(),
            record@.len() > 0,
            record@.last() == NEWLINE,
        ensures
            final(self).wf(),
            old(self)@.pending.len() > 0 && old(self)@.pending.len() + record@.len() > old(
                self,
            )@.capacity ==> r == Offer::FlushFirst && final(self)@ == old(self)@,
            !(old(self)@.pending.len() > 0 && old(self)@.pending.len() + record@.len() > old(
                self,
            )@.capacity) ==> final(self)@ == (StoreModel {
                pending: old(self)@.pending + record@,
                ..old(self)@
            }) && r == (Offer::Appended {
                flush_now: old(self)@.pending.len() + record@.len() >= old(self)@.config.flush_size
                    || interval_elapsed(
                    now_ms as nat,
                    old(self)@.last_flush_ms,
                    old(self)@.config.flush_interval,
                ),
            }),
    {
        let held = self.pending.len();
        if held > 0 && (record.len() > self.capacity || held > self.capacity - record.len()) {
            return Offer::FlushFirst;
        }
        let ghost before = self.pending@;
        crate::record::append_bytes(&mut self.pending, record);
        let total = self.pending.len();
        let interval = self.config.get_flush_interval() as u128;
        let elapsed = now_ms >= self.last_flush_ms && ((now_ms - self.last_flush_ms) as u128)
            >= interval * 1000;
        Offer::Appended { flush_now: total >= self.config.get_flush_size() || elapsed }
    }

    /// What a flush at the civil time `now_epoch_ms` (milliseconds since the
    /// epoch) has to do. An empty buffer needs no file work at all.
    pub fn flush_plan(&self, now_epoch_ms: i64) -> (r: FlushPlan)
        ensures
            self@.pending.len() == 0 ==> r == FlushPlan::Idle,
            self@.pending.len() > 0 && key_of(now_epoch_ms as int, self@.config.is_encrypt) is None
                ==> r == FlushPlan::NoCivilTime,
            self@.pending.len() > 0 && key_of(now_epoch_ms as int, self@.config.is_encrypt) is Some
                ==> r == (FlushPlan::Write {
                key: key_of(now_epoch_ms as int, self@.config.is_encrypt)->0,
                switch: self@.current != key_of(now_epoch_ms as int, self@.config.is_encrypt),
            }),
    {
        if self.pending.len() == 0 {
            return FlushPlan::Idle;
        }
        match rotation_key(now_epoch_ms, self.config.is_encrypt()) {
            None => FlushPlan::NoCivilTime,
            Some(key) => {
                let switch = match self.current {
                    Some(k) => k != key,
                    None => true,
                };
                FlushPlan::Write { key, switch }
            },
        }
    }

    /// Records that the region mapped now is the file of `key`.
    pub fn switch_to(&mut self, key: RotationKey)
        requires
            old(self).wf(),
        ensures
            final(self).wf(),
            final(self)@ == (StoreModel { current: Some(key), ..old(self)@ }),
    {
        self.current = Some(key);
    }

    /// Copies the buffer into `region` at its boundary and returns the new
    /// boundary. If it does not fit, the region is left alone and the result
    /// is the number of bytes, in whole chunks, by which it must grow.
    pub fn place(&self, region: &mut [u8]) -> (r: Result<usize, u128>)
        requires
            self.wf(),
        ensures
            data_end(old(region)@) + self@.pending.len() <= old(region)@.len() ==> r == Ok::<
                usize,
                u128,
            >((data_end(old(region)@) + self@.pending.len()) as usize) && final(region)@ == written(
                old(region)@,
                data_end(old(region)@) as int,
                self@.pending,
            ),
            data_end(old(region)@) + self@.pending.len() <= old(region)@.len() && self@.pending.len()
                > 0 ==> data_end(final(region)@) == data_end(old(region)@) + self@.pending.len(),
            data_end(old(region)@) + self@.pending.len() > old(region)@.len() ==> r == Err::<
                usize,
                u128,
            >(
                growth_for(
                    (data_end(old(region)@) + self@.pending.len() - old(region)@.len()) as nat,
                    self@.capacity,
                ) as u128,
            ) && final(region)@ == old(region)@,
    {
        let boundary = find_boundary(region);
        proof {
            crate::region::lemma_data_end(region@);
        }
        let size = region.len();
        let n = self.pending.len();
        if n > size - boundary {
            let deficit: u128 = (boundary as u128) + (n as u128) - (size as u128);
            let chunk: u128 = self.capacity as u128;
            let chunks: u128 = (deficit + chunk - 1) / chunk;
            proof {
                let x = (deficit + chunk - 1) as int;
                vstd::arithmetic::div_mod::lemma_fundamental_div_mod(x, chunk as int);
                assert(chunks * chunk <= x) by (nonlinear_arith)
                    requires
                        x == chunk * (x / chunk as int) + x % (chunk as int),
                        x % (chunk as int) >= 0,
                        chunks as int == x / chunk as int,
                ;
            }
            return Err(chunks * chunk);
        }
        proof {
            if n > 0 {
                assert(self.pending@.last() == NEWLINE);
                lemma_write_moves_boundary(region@, self.pending@);
            }
        }
        write_at(region, boundary, self.pending.as_slice());
        Ok(boundary + n)
    }

    /// Marks the buffer as written and synced at the monotonic time
    /// `now_ms`: the buffer is empty and the flush time is `now_ms`.
    pub fn commit(&mut self, now_ms: u64)
        requires
            old(self).wf(),
        ensures
            final(self).wf(),
            final(self)@ == (StoreModel {
                pending: Seq::empty(),
                last_flush_ms: now_ms as nat,
                ..old(self)@
            }),
    {
        self.pending.clear();
        self.last_flush_ms = now_ms;
    }
}

} // verus!
