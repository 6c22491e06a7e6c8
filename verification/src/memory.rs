//! Word-addressed memory that several threads may share.
//!
//! A region is an array of 64-bit words, addressed by byte offset. Every access
//! is one atomic load, store or compare-and-swap of one word. What another
//! thread does to the memory between two accesses is not known here, so the
//! contracts below separate two things: what this thread did (`trace`), which
//! is always known, and what the memory holds (`words`), which is known for as
//! long as no other thread has interfered (`undisturbed`).
use std::sync::atomic::{AtomicU64, Ordering};
use vstd::prelude::*;

verus! {

/// One access to the memory, with what came back.
pub enum Event {
    Load { off: u64, val: u64 },
    Store { off: u64, val: u64 },
    Cas { off: u64, current: u64, new: u64, done: bool },
}

/// `off` is the byte offset of a word of `ws`.
pub open spec fn in_words(ws: Seq<u64>, off: int) -> bool {
    off % 8 == 0 && 0 <= off < 8 * ws.len()
}

/// The word at byte offset `off`; zero outside the memory.
pub open spec fn word(ws: Seq<u64>, off: int) -> u64 {
    if in_words(ws, off) {
        ws[off / 8]
    } else {
        0
    }
}

/// The memory with the word at byte offset `off` replaced; a write outside the
/// memory is lost.
pub open spec fn put(ws: Seq<u64>, off: int, val: u64) -> Seq<u64> {
    if in_words(ws, off) {
        ws.update(off / 8, val)
    } else {
        ws
    }
}

/// The memory with the words from byte offset `off` on replaced by `vals`.
pub open spec fn put_all(ws: Seq<u64>, off: int, vals: Seq<u64>) -> Seq<u64>
    decreases vals.len(),
{
    if vals.len() == 0 {
        ws
    } else {
        put(put_all(ws, off, vals.drop_last()), off + 8 * (vals.len() - 1), vals.last())
    }
}

/// What is read back after a write.
pub proof fn lemma_word_put(ws: Seq<u64>, off: int, val: u64, a: int)
    ensures
        put(ws, off, val).len() == ws.len(),
        word(put(ws, off, val), a) == if a == off && in_words(ws, off) {
            val
        } else {
            word(ws, a)
        },
{
}

/// What is read back after a write of several words.
pub proof fn lemma_word_put_all(ws: Seq<u64>, off: int, vals: Seq<u64>, a: int)
    ensures
        put_all(ws, off, vals).len() == ws.len(),
        word(put_all(ws, off, vals), a) == if off <= a < off + 8 * vals.len() && (a - off) % 8 == 0
            && in_words(ws, a) {
            vals[(a - off) / 8]
        } else {
            word(ws, a)
        },
    decreases vals.len(),
{
    if vals.len() > 0 {
        lemma_word_put_all(ws, off, vals.drop_last(), a);
        lemma_word_put(
            put_all(ws, off, vals.drop_last()),
            off + 8 * (vals.len() - 1),
            vals.last(),
            a,
        );
    }
}

/// A memory that a thread works on.
pub trait Memory {
    /// The words as this thread's own accesses leave them.
    spec fn words(&self) -> Seq<u64>;

    /// Every value read so far is the one that `words` held at that moment: no
    /// other thread has interfered.
    spec fn undisturbed(&self) -> bool;

    /// All accesses made through this value, oldest first.
    spec fn trace(&self) -> Seq<Event>;

    /// How often this thread is still willing to wait for another.
    spec fn patience(&self) -> nat;

    /// Atomically reads the word at `off`.
    fn load(&mut self, off: u64) -> (val: u64)
        ensures
            final(self).words() == old(self).words(),
            final(self).trace() == old(self).trace().push(Event::Load { off, val }),
            final(self).patience() == old(self).patience(),
            final(self).undisturbed() ==> old(self).undisturbed() && val == word(
                old(self).words(),
                off as int,
            ),
    ;

    /// Atomically writes the word at `off`.
    fn store(&mut self, off: u64, val: u64)
        ensures
            final(self).words() == put(old(self).words(), off as int, val),
            final(self).trace() == old(self).trace().push(Event::Store { off, val }),
            final(self).patience() == old(self).patience(),
            final(self).undisturbed() == old(self).undisturbed(),
    ;

    /// Atomically replaces the word at `off` by `new` if it is `current`.
    fn cas(&mut self, off: u64, current: u64, new: u64) -> (done: bool)
        ensures
            final(self).words() == if done {
                put(old(self).words(), off as int, new)
            } else {
                old(self).words()
            },
            final(self).trace() == old(self).trace().push(
                Event::Cas { off, current, new, done },
            ),
            final(self).patience() == old(self).patience(),
            final(self).undisturbed() ==> old(self).undisturbed() && done == (in_words(
                old(self).words(),
                off as int,
            ) && word(old(self).words(), off as int) == current),
    ;

    /// Waits a little for another thread, at the cost of one unit of patience;
    /// `false` exactly when none is left.
    fn pause(&mut self) -> (again: bool)
        ensures
            again == (old(self).patience() > 0),
            final(self).patience() == if again {
                old(self).patience() - 1
            } else {
                0
            },
            final(self).words() == old(self).words(),
            final(self).trace() == old(self).trace(),
            final(self).undisturbed() == old(self).undisturbed(),
    ;
}

/// `AtomicU64::load` of the cell gave `val`.
pub open spec fn loaded(cell: &AtomicU64, val: u64) -> bool {
    call_ensures(AtomicU64::load, (cell, Ordering::SeqCst), val)
}

/// `AtomicU64::store` wrote `val` into the cell.
pub open spec fn stored(cell: &AtomicU64, val: u64) -> bool {
    call_ensures(AtomicU64::store, (cell, val, Ordering::SeqCst), ())
}

/// `AtomicU64::compare_exchange` was asked to replace `current` in the cell by `new`, and `done` is
/// whether it did.
pub open spec fn exchanged(cell: &AtomicU64, current: u64, new: u64, done: bool) -> bool {
    exists|r: Result<u64, u64>| #[trigger]
        call_ensures(
            AtomicU64::compare_exchange,
            (cell, current, new, Ordering::SeqCst, Ordering::SeqCst),
            r,
        ) && done == (r is Ok)
}

/// Reads a cell. What comes back is what the threads that share the cell have left in it.
fn atomic_load(cell: &AtomicU64) -> (val: u64)
    ensures
        loaded(cell, val),
{
    let load = AtomicU64::load;
    load(cell, Ordering::SeqCst)
}

/// Writes a cell.
fn atomic_store(cell: &AtomicU64, val: u64)
    ensures
        stored(cell, val),
{
    let store = AtomicU64::store;
    store(cell, val, Ordering::SeqCst)
}

/// Compares and swaps a cell. Whether it succeeds is up to what the threads that share the cell
/// have left in it.
fn atomic_cas(cell: &AtomicU64, current: u64, new: u64) -> (done: bool)
    ensures
        exchanged(cell, current, new, done),
{
    let exchange = AtomicU64::compare_exchange;
    match exchange(cell, current, new, Ordering::SeqCst, Ordering::SeqCst) {
        Ok(_) => true,
        Err(_) => false,
    }
}

/// The cell that holds the word at byte offset `off`.
pub fn cell64<'a>(cells: &'a [AtomicU64], off: u64) -> (cell: Option<&'a AtomicU64>)
    ensures
        cell == if off % 8 == 0 && off < 8 * cells@.len() {
            Some(&cells@[off as int / 8])
        } else {
            None
        },
{
    if off % 8 != 0 {
        return None;
    }
    let i: u64 = off / 8;
    if i < cells.len() as u64 {
        Some(&cells[i as usize])
    } else {
        None
    }
}

/// Memory that other threads and processes access at the same time.
///
/// What the cells hold is known to this thread only as far as it has looked. `words` is
/// what they are taken to hold, whatever that is; it stays `undisturbed` as long as
/// everything that was found agrees with it.
pub struct SharedMemory<'a> {
    cells: &'a [AtomicU64],
    spins: u64,
    expected: Ghost<Seq<u64>>,
    alone: Ghost<bool>,
    log: Ghost<Seq<Event>>,
}

impl<'a> SharedMemory<'a> {
    /// The cells, one for each word.
    pub closed spec fn cells(&self) -> Seq<AtomicU64> {
        self.cells@
    }

    /// The cell of the word at byte offset `off`, if there is one.
    pub open spec fn cell(&self, off: u64) -> Option<AtomicU64> {
        if off % 8 == 0 && off < 8 * self.cells().len() {
            Some(self.cells()[off as int / 8])
        } else {
            None
        }
    }

    /// Works on `cells`, waiting at most `spins` times for other threads.
    pub fn new(cells: &'a [AtomicU64], spins: u64) -> (mem: Self)
        ensures
            mem.words().len() == cells@.len(),
            mem.cells() == cells@,
            mem.undisturbed(),
            mem.trace() == Seq::<Event>::empty(),
            mem.patience() == spins,
    {
        Self::expecting(cells, spins, Ghost(Seq::new(cells@.len(), |i: int| arbitrary())))
    }

    /// Works on `cells`, which are taken to hold `ws`.
    pub fn expecting(cells: &'a [AtomicU64], spins: u64, Ghost(ws): Ghost<Seq<u64>>) -> (mem: Self)
        requires
            ws.len() == cells@.len(),
        ensures
            mem.words() == ws,
            mem.cells() == cells@,
            mem.undisturbed(),
            mem.trace() == Seq::<Event>::empty(),
            mem.patience() == spins,
    {
        SharedMemory {
            cells,
            spins,
            expected: Ghost(ws),
            alone: Ghost(true),
            log: Ghost(Seq::empty()),
        }
    }
}

impl<'a> Memory for SharedMemory<'a> {
    closed spec fn words(&self) -> Seq<u64> {
        self.expected@
    }

    closed spec fn undisturbed(&self) -> bool {
        self.alone@ && self.expected@.len() == self.cells@.len()
    }

    closed spec fn trace(&self) -> Seq<Event> {
        self.log@
    }

    closed spec fn patience(&self) -> nat {
        self.spins as nat
    }

    fn load(&mut self, off: u64) -> (val: u64)
        ensures
            final(self).cells() == old(self).cells(),
            match old(self).cell(off) {
                Some(cell) => loaded(&cell, val),
                None => val == 0,
            },
    {
        let val: u64 = match cell64(self.cells, off) {
            Some(cell) => atomic_load(cell),
            None => 0,
        };
        let ghost alone = self.alone@ && val == word(self.expected@, off as int);
        self.alone = Ghost(alone);
        self.log = Ghost(self.log@.push(Event::Load { off, val }));
        val
    }

    fn store(&mut self, off: u64, val: u64)
        ensures
            final(self).cells() == old(self).cells(),
            old(self).cell(off) matches Some(cell) ==> stored(&cell, val),
    {
        match cell64(self.cells, off) {
            Some(cell) => atomic_store(cell, val),
            None => {},
        }
        self.expected = Ghost(put(self.expected@, off as int, val));
        self.log = Ghost(self.log@.push(Event::Store { off, val }));
    }

    fn cas(&mut self, off: u64, current: u64, new: u64) -> (done: bool)
        ensures
            final(self).cells() == old(self).cells(),
            match old(self).cell(off) {
                Some(cell) => exchanged(&cell, current, new, done),
                None => !done,
            },
    {
        let done: bool = match cell64(self.cells, off) {
            Some(cell) => atomic_cas(cell, current, new),
            None => false,
        };
        let ghost alone = self.alone@ && done == (in_words(self.expected@, off as int) && word(
            self.expected@,
            off as int,
        ) == current);
        self.alone = Ghost(alone);
        if done {
            self.expected = Ghost(put(self.expected@, off as int, new));
        }
        self.log = Ghost(self.log@.push(Event::Cas { off, current, new, done }));
        done
    }

    fn pause(&mut self) -> (again: bool)
        ensures
            final(self).cells() == old(self).cells(),
    {
        if self.spins == 0 {
            return false;
        }
        self.spins = self.spins - 1;
        true
    }
}

/// Memory of one owner.
pub struct LocalMemory {
    cells: Vec<u64>,
    log: Ghost<Seq<Event>>,
}

impl LocalMemory {
    /// Zeroed memory of `len` words.
    pub fn new(len: usize) -> (mem: Self)
        ensures
            mem.words() == Seq::new(len as nat, |i: int| 0u64),
            mem.undisturbed(),
            mem.trace() == Seq::<Event>::empty(),
            mem.patience() == 0,
    {
        let mut cells: Vec<u64> = Vec::new();
        let mut i: usize = 0;
        while i < len
            invariant
                i <= len,
                cells@ == Seq::new(i as nat, |i: int| 0u64),
            decreases len - i,
        {
            cells.push(0);
            i = i + 1;
        }
        LocalMemory { cells, log: Ghost(Seq::empty()) }
    }
}

impl Memory for LocalMemory {
    closed spec fn words(&self) -> Seq<u64> {
        self.cells@
    }

    /// Nobody else has access.
    open spec fn undisturbed(&self) -> bool {
        true
    }

    closed spec fn trace(&self) -> Seq<Event> {
        self.log@
    }

    /// There is nobody to wait for.
    open spec fn patience(&self) -> nat {
        0
    }

    fn load(&mut self, off: u64) -> (val: u64) {
        let val: u64 = if off % 8 == 0 && off / 8 < self.cells.len() as u64 {
            self.cells[(off / 8) as usize]
        } else {
            0
        };
        self.log = Ghost(self.log@.push(Event::Load { off, val }));
        val
    }

    fn store(&mut self, off: u64, val: u64) {
        if off % 8 == 0 && off / 8 < self.cells.len() as u64 {
            self.cells.set((off / 8) as usize, val);
        }
        self.log = Ghost(self.log@.push(Event::Store { off, val }));
    }

    fn cas(&mut self, off: u64, current: u64, new: u64) -> (done: bool) {
        let done: bool = if off % 8 == 0 && off / 8 < self.cells.len() as u64 {
            let i: usize = (off / 8) as usize;
            if self.cells[i] == current {
                self.cells.set(i, new);
                true
            } else {
                false
            }
        } else {
            false
        };
        self.log = Ghost(self.log@.push(Event::Cas { off, current, new, done }));
        done
    }

    fn pause(&mut self) -> (again: bool) {
        false
    }
}

} // verus!
