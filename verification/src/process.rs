//! Process records, static system facts and the bounded usage history.

use std::collections::VecDeque;
use vstd::prelude::*;

verus! {

/// How many samples a default `History` keeps.
pub const HISTORY_CAPACITY: usize = 120;

/// One process as the monitor sees it.
///
/// The measured quantities are held as order keys: monotone integer encodings
/// of the measured values, so that comparing keys compares the measurements.
pub struct ProcessInfo {
    pub pid: u32,
    pub ppid: Option<u32>,
    pub name: String,
    /// Order key of the CPU share.
    pub cpu_key: u32,
    /// Order key of the resident memory.
    pub memory_key: u64,
    /// Order key of the disk traffic (read plus written).
    pub io_key: u64,
}

impl Clone for ProcessInfo {
    fn clone(&self) -> (r: Self)
        ensures
            r == *self,
    {
        ProcessInfo {
            pid: self.pid,
            ppid: self.ppid,
            name: self.name.clone(),
            cpu_key: self.cpu_key,
            memory_key: self.memory_key,
            io_key: self.io_key,
        }
    }
}

/// Static facts about the machine, gathered once.
#[derive(Debug)]
pub struct SystemInfo {
    pub os_name: Option<String>,
    pub os_version: Option<String>,
    pub kernel_version: Option<String>,
    pub host_name: Option<String>,
    pub cpu_brand: String,
    pub cpu_count: usize,
}

fn copy_text(s: &Option<String>) -> (r: Option<String>)
    ensures
        r == *s,
{
    match s {
        Some(t) => Some(t.clone()),
        None => None,
    }
}

impl Clone for SystemInfo {
    fn clone(&self) -> (r: Self)
        ensures
            r == *self,
    {
        SystemInfo {
            os_name: copy_text(&self.os_name),
            os_version: copy_text(&self.os_version),
            kernel_version: copy_text(&self.kernel_version),
            host_name: copy_text(&self.host_name),
            cpu_brand: self.cpu_brand.clone(),
            cpu_count: self.cpu_count,
        }
    }
}

/// Appends `v`, first dropping the oldest sample when the buffer is full.
/// A zero capacity never counts as full (nothing is dropped).
pub open spec fn bounded_push(s: Seq<u64>, v: u64, capacity: nat) -> Seq<u64> {
    if s.len() == capacity && s.len() > 0 {
        s.drop_first().push(v)
    } else {
        s.push(v)
    }
}

/// Recent CPU and RAM usage percentages, oldest first.
pub struct History {
    cpu: VecDeque<u64>,
    ram_pct: VecDeque<u64>,
    capacity: usize,
}

impl History {
    /// The CPU samples, oldest first.
    pub closed spec fn cpu_samples(&self) -> Seq<u64> {
        self.cpu@
    }

    /// The RAM samples, oldest first.
    pub closed spec fn ram_samples(&self) -> Seq<u64> {
        self.ram_pct@
    }

    /// The capacity the history was made with.
    pub closed spec fn spec_capacity(&self) -> nat {
        self.capacity as nat
    }

    /// A history with the default capacity.
    pub fn new() -> (h: Self)
        ensures
            h.cpu_samples() == Seq::<u64>::empty(),
            h.ram_samples() == Seq::<u64>::empty(),
            h.spec_capacity() == HISTORY_CAPACITY,
    {
        Self::with_capacity(HISTORY_CAPACITY)
    }

    /// An empty history keeping at most `capacity` samples of each series.
    pub fn with_capacity(capacity: usize) -> (h: Self)
        ensures
            h.cpu_samples() == Seq::<u64>::empty(),
            h.ram_samples() == Seq::<u64>::empty(),
            h.spec_capacity() == capacity,
    {
        History {
            cpu: VecDeque::with_capacity(capacity),
            ram_pct: VecDeque::with_capacity(capacity),
            capacity,
        }
    }

    /// Records one sample of each series (percentages already rounded and clamped).
    pub fn push(&mut self, cpu_pct: u64, ram_pct: u64)
        ensures
            final(self).cpu_samples() == bounded_push(
                old(self).cpu_samples(),
                cpu_pct,
                old(self).spec_capacity(),
            ),
            final(self).ram_samples() == bounded_push(
                old(self).ram_samples(),
                ram_pct,
                old(self).spec_capacity(),
            ),
            final(self).spec_capacity() == old(self).spec_capacity(),
    {
        push_bounded(&mut self.cpu, cpu_pct, self.capacity);
        push_bounded(&mut self.ram_pct, ram_pct, self.capacity);
    }

    pub fn capacity(&self) -> (r: usize)
        ensures
            r == self.spec_capacity(),
    {
        self.capacity
    }

    /// The CPU samples, oldest first.
    pub fn cpu(&self) -> (r: Vec<u64>)
        ensures
            r@ == self.cpu_samples(),
    {
        deque_to_vec(&self.cpu)
    }

    /// The RAM samples, oldest first.
    pub fn ram_pct(&self) -> (r: Vec<u64>)
        ensures
            r@ == self.ram_samples(),
    {
        deque_to_vec(&self.ram_pct)
    }
}

/// Pushes `value`, evicting the front element first when the buffer holds `capacity` elements.
fn push_bounded(buf: &mut VecDeque<u64>, value: u64, capacity: usize)
    ensures
        final(buf)@ == bounded_push(old(buf)@, value, capacity as nat),
{
    if buf.len() == capacity {
        let _ = buf.pop_front();
    }
    buf.push_back(value);
    proof {
        if old(buf)@.len() == capacity && capacity > 0 {
            assert(old(buf)@.subrange(1, old(buf)@.len() as int) =~= old(buf)@.drop_first());
        }
    }
}

fn deque_to_vec(d: &VecDeque<u64>) -> (r: Vec<u64>)
    ensures
        r@ == d@,
{
    let mut out: Vec<u64> = Vec::new();
    let n = d.len();
    let mut i: usize = 0;
    while i < n
        invariant
            n == d@.len(),
            i <= n,
            out@ =~= d@.take(i as int),
        decreases n - i,
    {
        out.push(d[i]);
        i = i + 1;
    }
    assert(d@.take(n as int) =~= d@);
    out
}

/// Keeping a positive capacity, a history never holds more samples than its capacity.
pub proof fn lemma_history_stays_within_capacity(s: Seq<u64>, v: u64, capacity: nat)
    requires
        capacity > 0,
        s.len() <= capacity,
    ensures
        bounded_push(s, v, capacity).len() <= capacity,
        bounded_push(s, v, capacity).last() == v,
{
}

/// A push keeps the newest samples, oldest first: the samples held and the new one, less
/// the oldest when the history was full (with a positive capacity).
pub proof fn lemma_history_keeps_newest(s: Seq<u64>, v: u64, capacity: nat)
    requires
        capacity > 0,
        s.len() <= capacity,
    ensures
        s.len() < capacity ==> bounded_push(s, v, capacity) == s + seq![v],
        s.len() == capacity ==> bounded_push(s, v, capacity) == (s + seq![v]).subrange(1, s.len() + 1int),
        bounded_push(s, v, capacity).len() == if s.len() < capacity {
            s.len() + 1
        } else {
            s.len()
        },
{
    assert(s.push(v) =~= s + seq![v]);
    if s.len() == capacity {
        assert(s.drop_first().push(v) =~= (s + seq![v]).subrange(1, s.len() + 1int));
    }
}

} // verus!
