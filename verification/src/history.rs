//! Capacity-bounded undo/redo history over compressed snapshots.
//!
//! The store keeps a stack of gzip-compressed document snapshots and a
//! cursor. It is seeded with one snapshot at construction, so the stack is
//! never empty; the cursor always points at a stack entry; and the stack
//! never grows past the configured capacity (the oldest entry is evicted).
//! Each entry is tracked against the snapshot text it decodes to, so undo
//! and redo are proved to return exactly the state that was pushed.
use vstd::prelude::*;
use std::io::Read;
use std::io::Write;

verus! {

/// The text that gzip-decoding a byte buffer yields, or `None` when the
/// buffer is not a well-formed gzip stream of UTF-8 text. Decoding is a
/// function of the bytes alone.
pub uninterp spec fn gunzip_of(data: Seq<u8>) -> Option<Seq<char>>;

/// Relies on flate2's `write::GzEncoder` over a `Vec<u8>` sink: the emitted
/// gzip stream decodes back to exactly the text that was written (gzip is
/// lossless), and writing to a `Vec` sink cannot fail.
#[verifier::external_body]
fn compress_state(data: &str) -> (r: Vec<u8>)
    ensures
        gunzip_of(r@) == Some(data@),
{
    let mut enc = flate2::write::GzEncoder::new(Vec::new(), flate2::Compression::default());
    if enc.write_all(data.as_bytes()).is_ok() {
        enc.finish().unwrap_or_default()
    } else {
        Vec::new()
    }
}

/// Relies on flate2's `read::GzDecoder`: what it decodes is determined by
/// the input bytes alone; reading fails on a corrupt stream, and
/// `read_to_string` fails on non-UTF-8 text.
#[verifier::external_body]
fn decompress_state(data: &Vec<u8>) -> (r: Option<String>)
    ensures
        match r {
            Some(s) => gunzip_of(data@) == Some(s@),
            None => gunzip_of(data@) is None,
        },
{
    let mut dec = flate2::read::GzDecoder::new(data.as_slice());
    let mut s = String::new();
    match dec.read_to_string(&mut s) {
        Ok(_) => Some(s),
        Err(_) => None,
    }
}

/// Sum of the byte lengths of a sequence of buffers.
pub open spec fn bytes_total(s: Seq<Seq<u8>>) -> int
    decreases s.len(),
{
    if s.len() == 0 {
        0
    } else {
        bytes_total(s.drop_last()) + s.last().len()
    }
}

/// Bounded undo/redo store over compressed, opaque snapshot payloads.
pub struct HistoryManager {
    /// Compressed snapshots, oldest first.
    stack: Vec<Vec<u8>>,
    /// Position of the current state within `stack`.
    current_index: usize,
    /// Largest number of snapshots kept at once.
    max_history: usize,
    /// The text each stack entry decodes to, kept alongside the stack so
    /// contracts can speak of the states themselves.
    snapshots: Ghost<Seq<Seq<char>>>,
}

impl HistoryManager {
    /// The snapshot texts held by the store, oldest first.
    pub closed spec fn states(self) -> Seq<Seq<char>> {
        self.snapshots@
    }

    /// Position of the current state within `states()`.
    pub closed spec fn cursor(self) -> int {
        self.current_index as int
    }

    /// Largest number of snapshots kept at once.
    pub closed spec fn capacity(self) -> int {
        self.max_history as int
    }

    /// The compressed bytes held per snapshot, oldest first.
    pub closed spec fn stored(self) -> Seq<Seq<u8>> {
        self.stack.deep_view()
    }

    /// Store invariant: the stack is never empty, never exceeds capacity,
    /// the cursor points at an entry, and every entry decodes to its
    /// tracked snapshot text.
    pub closed spec fn wf(self) -> bool {
        &&& 1 <= self.max_history
        &&& 1 <= self.stack@.len() <= self.max_history
        &&& (self.current_index as int) < self.stack@.len()
        &&& self.snapshots@.len() == self.stack@.len()
        &&& forall|i: int|
            0 <= i < self.stack@.len() ==> gunzip_of(self.stack@[i]@) == Some(self.snapshots@[i])
    }

    /// Seed the store with one compressed snapshot; the default capacity
    /// is 50 entries.
    pub fn new(initial: String) -> (r: HistoryManager)
        ensures
            r.wf(),
            r.states() =~= seq![initial@],
            r.cursor() == 0,
            r.capacity() == 50,
    {
        let first = compress_state(initial.as_str());
        let mut stack: Vec<Vec<u8>> = Vec::new();
        stack.push(first);
        let ghost snaps: Seq<Seq<char>> = seq![initial@];
        HistoryManager { stack, current_index: 0, max_history: 50, snapshots: Ghost(snaps) }
    }

    /// Drop any redo branch, append the new snapshot, and evict the oldest
    /// entry when the stack would exceed capacity; the cursor ends on the
    /// entry just pushed.
    pub fn push_state(&mut self, state: String)
        requires
            old(self).wf(),
        ensures
            final(self).wf(),
            final(self).capacity() == old(self).capacity(),
            final(self).states().len() <= final(self).capacity(),
            ({
                let kept = old(self).states().take(old(self).cursor() + 1).push(state@);
                if kept.len() > old(self).capacity() {
                    &&& final(self).states() =~= kept.drop_first()
                    &&& final(self).cursor() == kept.len() - 2
                } else {
                    &&& final(self).states() =~= kept
                    &&& final(self).cursor() == kept.len() - 1
                }
            }),
    {
        if self.current_index < self.stack.len() - 1 {
            self.stack.truncate(self.current_index + 1);
            proof {
                self.snapshots@ = self.snapshots@.take(self.current_index + 1);
            }
        }
        self.stack.push(compress_state(state.as_str()));
        proof {
            self.snapshots@ = self.snapshots@.push(state@);
        }
        self.current_index = self.current_index + 1;
        if self.stack.len() > self.max_history {
            self.stack.remove(0);
            proof {
                self.snapshots@ = self.snapshots@.drop_first();
            }
            self.current_index = self.current_index - 1;
        }
    }

    /// Step the cursor one entry back and return that snapshot's text;
    /// with no older entry, report "nothing to undo" and change nothing.
    pub fn undo(&mut self) -> (r: Option<String>)
        requires
            old(self).wf(),
        ensures
            final(self).wf(),
            final(self).states() == old(self).states(),
            final(self).stored() == old(self).stored(),
            final(self).capacity() == old(self).capacity(),
            match r {
                Some(s) => {
                    &&& old(self).cursor() > 0
                    &&& final(self).cursor() == old(self).cursor() - 1
                    &&& s@ == old(self).states()[old(self).cursor() - 1]
                },
                None => {
                    &&& old(self).cursor() == 0
                    &&& final(self).cursor() == 0
                },
            },
    {
        if self.current_index > 0 {
            self.current_index = self.current_index - 1;
            proof {
                assert(gunzip_of(self.stack@[self.current_index as int]@) == Some(
                    self.snapshots@[self.current_index as int],
                ));
            }
            let decoded = decompress_state(&self.stack[self.current_index]);
            match decoded {
                Some(s) => Some(s),
                None => {
                    proof {
                        assert(false);
                    }
                    None
                },
            }
        } else {
            None
        }
    }

    /// Step the cursor one entry forward and return that snapshot's text;
    /// with no redo branch, report "nothing to redo" and change nothing.
    pub fn redo(&mut self) -> (r: Option<String>)
        requires
            old(self).wf(),
        ensures
            final(self).wf(),
            final(self).states() == old(self).states(),
            final(self).stored() == old(self).stored(),
            final(self).capacity() == old(self).capacity(),
            match r {
                Some(s) => {
                    &&& old(self).cursor() < old(self).states().len() - 1
                    &&& final(self).cursor() == old(self).cursor() + 1
                    &&& s@ == old(self).states()[old(self).cursor() + 1]
                },
                None => {
                    &&& old(self).cursor() == old(self).states().len() - 1
                    &&& final(self).cursor() == old(self).cursor()
                },
            },
    {
        if self.current_index < self.stack.len() - 1 {
            self.current_index = self.current_index + 1;
            proof {
                assert(gunzip_of(self.stack@[self.current_index as int]@) == Some(
                    self.snapshots@[self.current_index as int],
                ));
            }
            let decoded = decompress_state(&self.stack[self.current_index]);
            match decoded {
                Some(s) => Some(s),
                None => {
                    proof {
                        assert(false);
                    }
                    None
                },
            }
        } else {
            None
        }
    }

    /// Whether a call to `undo` would step back.
    pub fn can_undo(&self) -> (r: bool)
        ensures
            r == (self.cursor() > 0),
    {
        self.current_index > 0
    }

    /// Whether a call to `redo` would step forward.
    pub fn can_redo(&self) -> (r: bool)
        requires
            self.wf(),
        ensures
            r == (self.cursor() < self.states().len() - 1),
    {
        self.current_index < self.stack.len() - 1
    }

    /// Total bytes of compressed data currently held, saturating at
    /// `usize::MAX`.
    pub fn get_memory_usage(&self) -> (r: usize)
        ensures
            r == if bytes_total(self.stored()) <= usize::MAX {
                bytes_total(self.stored())
            } else {
                usize::MAX as int
            },
    {
        let mut total: usize = 0;
        let mut i: usize = 0;
        while i < self.stack.len()
            invariant
                i <= self.stack@.len(),
                total == if bytes_total(self.stored().take(i as int)) <= usize::MAX {
                    bytes_total(self.stored().take(i as int))
                } else {
                    usize::MAX as int
                },
            decreases self.stack@.len() - i,
        {
            proof {
                assert(self.stored().take(i + 1).drop_last() =~= self.stored().take(i as int));
                assert(self.stored()[i as int] == self.stack@[i as int]@);
            }
            total = total.saturating_add(self.stack[i].len());
            i = i + 1;
        }
        proof {
            assert(self.stored().take(self.stack@.len() as int) =~= self.stored());
        }
        total
    }
}

} // verus!
