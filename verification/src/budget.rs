//! Bounds on the memory that cached and arriving pieces take.

use crate::buffer::{contents, len, share};
use crate::num::{max_of, min_of};
use bytes::Bytes;
use std::collections::VecDeque;
use vstd::prelude::*;

verus! {

/// Process-wide bound on bytes held by upload piece caches.
#[derive(Clone, Copy, Debug, Eq, PartialEq, Structural)]
pub struct CacheBudget {
    pub used: u64,
    pub limit: u64,
}

impl CacheBudget {
    pub fn new(limit: usize) -> (budget: Self)
        ensures
            budget.used == 0,
            budget.limit == limit,
    {
        Self { used: 0, limit: limit as u64 }
    }

    pub fn over_limit(&self) -> (result: bool)
        ensures
            result == (self.used > self.limit),
    {
        self.used > self.limit
    }

    /// Counts bytes in. The count wraps around.
    pub fn add(&mut self, bytes: usize)
        ensures
            *final(self) == (CacheBudget {
                used: (if old(self).used + bytes > u64::MAX {
                    old(self).used + bytes - 0x1_0000_0000_0000_0000
                } else {
                    old(self).used + bytes
                }) as u64,
                ..*old(self)
            }),
    {
        self.used = self.used.wrapping_add(bytes as u64);
    }

    pub fn release(&mut self, bytes: usize)
        ensures
            *final(self) == (CacheBudget {
                used: max_of(old(self).used - bytes, 0) as u64,
                ..*old(self)
            }),
    {
        self.used = self.used.saturating_sub(bytes as u64);
    }
}

/// Verified pieces shared by every upload session of one torrent, evicted
/// oldest-first whenever the global cache budget is exceeded. The piece that
/// was used last stands last.
pub struct PieceCache {
    entries: VecDeque<(usize, Bytes)>,
    bytes: usize,
}

/// A cache and its budget, by their values.
pub struct CacheState {
    /// The pieces, the one used last standing last.
    pub entries: Seq<(int, Seq<u8>)>,
    /// How many bytes the cache has counted.
    pub bytes: int,
    /// How many bytes all caches have counted.
    pub used: int,
    pub limit: int,
}

pub open spec fn holds_piece(entries: Seq<(int, Seq<u8>)>, piece: int) -> bool {
    exists|i: int| 0 <= i < entries.len() && (#[trigger] entries[i]).0 == piece
}

/// The position of a piece at or after `from`, or the length.
pub open spec fn piece_at(entries: Seq<(int, Seq<u8>)>, piece: int, from: int) -> int
    decreases entries.len() - from,
{
    if from < 0 || from >= entries.len() || entries[from].0 == piece {
        from
    } else {
        piece_at(entries, piece, from + 1)
    }
}

/// The cache once the oldest pieces have gone that the budget has no room for.
pub open spec fn evicted(s: CacheState) -> CacheState
    decreases s.entries.len(),
{
    if s.used > s.limit && s.entries.len() > 1 {
        let length = s.entries[0].1.len();
        evicted(
            CacheState {
                entries: s.entries.drop_first(),
                bytes: max_of(s.bytes - length, 0),
                used: max_of(s.used - length, 0),
                limit: s.limit,
            },
        )
    } else {
        s
    }
}

/// The cache with one more piece, counted but not yet made room for.
pub open spec fn added(s: CacheState, piece: int, data: Seq<u8>) -> CacheState {
    CacheState {
        entries: s.entries.push((piece, data)),
        bytes: min_of(s.bytes + data.len(), usize::MAX as int),
        used: if s.used + data.len() > u64::MAX {
            s.used + data.len() - 0x1_0000_0000_0000_0000
        } else {
            s.used + data.len()
        },
        limit: s.limit,
    }
}

/// The cache after a piece was offered to it. A piece that it has stays as it is.
pub open spec fn inserted(s: CacheState, piece: int, data: Seq<u8>) -> CacheState {
    if holds_piece(s.entries, piece) {
        s
    } else {
        evicted(added(s, piece, data))
    }
}

impl PieceCache {
    pub closed spec fn entries(&self) -> Seq<(int, Seq<u8>)> {
        Seq::new(
            self.entries@.len(),
            |i: int| (self.entries@[i].0 as int, contents(self.entries@[i].1)),
        )
    }

    pub closed spec fn bytes(&self) -> int {
        self.bytes as int
    }

    /// The cache together with the budget it counts against.
    pub open spec fn state(&self, budget: CacheBudget) -> CacheState {
        CacheState {
            entries: self.entries(),
            bytes: self.bytes(),
            used: budget.used as int,
            limit: budget.limit as int,
        }
    }

    pub fn new() -> (cache: Self)
        ensures
            cache.entries() == Seq::<(int, Seq<u8>)>::empty(),
            cache.bytes() == 0,
    {
        let cache = Self { entries: VecDeque::new(), bytes: 0 };
        assert(cache.entries() =~= Seq::<(int, Seq<u8>)>::empty());
        cache
    }

    fn position(&self, piece: usize) -> (result: Option<usize>)
        ensures
            match result {
                Some(at) => at < self.entries@.len() && piece_at(
                    self.entries(),
                    piece as int,
                    0,
                ) == at && self.entries()[at as int].0 == piece,
                None => piece_at(self.entries(), piece as int, 0) == self.entries().len()
                    && !holds_piece(self.entries(), piece as int),
            },
    {
        let mut i: usize = 0;
        while i < self.entries.len()
            invariant
                i <= self.entries@.len(),
                piece_at(self.entries(), piece as int, 0) == piece_at(
                    self.entries(),
                    piece as int,
                    i as int,
                ),
                forall|k: int| 0 <= k < i ==> (#[trigger] self.entries()[k]).0 != piece,
            decreases self.entries@.len() - i,
        {
            assert(self.entries()[i as int].0 == self.entries@[i as int].0);
            if self.entries[i].0 == piece {
                return Some(i);
            }
            i += 1;
        }
        None
    }

    /// A cached piece, which counts as used last from then on.
    pub fn get(&mut self, piece: usize) -> (result: Option<Bytes>)
        ensures
            final(self).bytes() == old(self).bytes(),
            ({
                let entries = old(self).entries();
                let at = piece_at(entries, piece as int, 0);
                match result {
                    Some(data) => {
                        &&& 0 <= at < entries.len()
                        &&& entries[at].0 == piece
                        &&& contents(data) == entries[at].1
                        &&& final(self).entries() == entries.remove(at).push(entries[at])
                    },
                    None => !holds_piece(entries, piece as int) && final(self).entries()
                        == entries,
                }
            }),
    {
        match self.position(piece) {
            None => None,
            Some(at) => {
                let ghost before = self.entries();
                match self.entries.remove(at) {
                    Some((found, buffer)) => {
                        let data = share(&buffer);
                        self.entries.push_back((found, buffer));
                        assert(self.entries() =~= before.remove(at as int).push(
                            before[at as int],
                        ));
                        Some(data)
                    },
                    None => None,
                }
            },
        }
    }

    /// Caches a piece, and lets the oldest ones go while the budget is exceeded.
    pub fn insert(&mut self, budget: &mut CacheBudget, piece: usize, data: Bytes)
        ensures
            final(self).state(*final(budget)) == inserted(
                old(self).state(*old(budget)),
                piece as int,
                contents(data),
            ),
    {
        if self.position(piece).is_some() {
            proof {
                let at = piece_at(self.entries(), piece as int, 0);
                assert(self.entries()[at].0 == piece);
            }
            return ;
        }
        let ghost before = self.state(*budget);
        let length: usize = len(&data);
        self.bytes = self.bytes.saturating_add(length);
        budget.add(length);
        self.entries.push_back((piece, data));
        proof {
            let now = self.state(*budget);
            let wanted = added(before, piece as int, contents(data));
            assert(now.entries =~= wanted.entries);
            assert(now == wanted);
        }
        while budget.over_limit() && self.entries.len() > 1
            invariant
                evicted(self.state(*budget)) == evicted(
                    added(before, piece as int, contents(data)),
                ),
                !(budget.used > budget.limit && self.entries@.len() > 1) ==> self.state(*budget)
                    == evicted(added(before, piece as int, contents(data))),
            decreases self.entries@.len(),
        {
            let ghost now = self.state(*budget);
            match self.entries.pop_front() {
                Some((_, oldest)) => {
                    let gone: usize = len(&oldest);
                    self.bytes = self.bytes.saturating_sub(gone);
                    budget.release(gone);
                    proof {
                        assert(self.entries() =~= now.entries.drop_first());
                        assert(now.entries[0].1 == contents(oldest));
                    }
                },
                None => {
                    return ;
                },
            }
        }
    }

    /// Returns everything that the cache counted, when it is given up.
    pub fn close(self, budget: &mut CacheBudget)
        ensures
            final(budget).used == max_of(old(budget).used - self.bytes(), 0),
            final(budget).limit == old(budget).limit,
    {
        budget.release(self.bytes);
    }
}

/// How many bytes pieces take together.
pub open spec fn pieces_size(entries: Seq<(int, Seq<u8>)>) -> int
    decreases entries.len(),
{
    if entries.len() == 0 {
        0
    } else {
        pieces_size(entries.drop_last()) + entries.last().1.len()
    }
}

/// Whether a cache counted exactly the bytes of its pieces, and its budget at
/// least those, and no piece stands in it twice.
pub open spec fn accounted(s: CacheState) -> bool {
    &&& s.bytes == pieces_size(s.entries)
    &&& s.used >= s.bytes
    &&& forall|i: int, j: int|
        0 <= i < j < s.entries.len() ==> (#[trigger] s.entries[i]).0 != (#[trigger] s.entries[j]).0
}

proof fn lemma_pieces_size_first(entries: Seq<(int, Seq<u8>)>)
    requires
        entries.len() > 0,
    ensures
        pieces_size(entries) == entries[0].1.len() + pieces_size(entries.drop_first()),
        pieces_size(entries.drop_first()) >= 0,
    decreases entries.len(),
{
    if entries.len() > 1 {
        lemma_pieces_size_first(entries.drop_last());
        assert(entries.drop_last().drop_first() =~= entries.drop_first().drop_last());
    } else {
        assert(entries.drop_last() =~= Seq::empty());
        assert(entries.drop_first() =~= Seq::empty());
        reveal_with_fuel(pieces_size, 2);
    }
}

proof fn lemma_evicted(s: CacheState)
    requires
        accounted(s),
        s.entries.len() > 0,
    ensures
        accounted(evicted(s)),
        evicted(s).entries.len() > 0,
        evicted(s).entries.last() == s.entries.last(),
        evicted(s).used <= s.limit || evicted(s).entries.len() == 1,
        s.used - s.bytes == evicted(s).used - evicted(s).bytes,
        evicted(s).limit == s.limit,
    decreases s.entries.len(),
{
    if s.used > s.limit && s.entries.len() > 1 {
        lemma_pieces_size_first(s.entries);
        let length = s.entries[0].1.len();
        let next = CacheState {
            entries: s.entries.drop_first(),
            bytes: max_of(s.bytes - length, 0),
            used: max_of(s.used - length, 0),
            limit: s.limit,
        };
        assert forall|i: int, j: int| 0 <= i < j < next.entries.len() implies (
        #[trigger] next.entries[i]).0 != (#[trigger] next.entries[j]).0 by {
            assert(next.entries[i] == s.entries[i + 1]);
            assert(next.entries[j] == s.entries[j + 1]);
        }
        lemma_evicted(next);
    }
}

/// Offering a piece keeps the count of bytes right, keeps what other caches
/// counted, always leaves that piece in the cache, and exceeds the budget only
/// where it is the one piece left.
pub proof fn law_cache_stays_within_budget(s: CacheState, piece: int, data: Seq<u8>)
    requires
        accounted(s),
        s.bytes + data.len() <= usize::MAX,
        s.used + data.len() <= u64::MAX,
    ensures
        accounted(inserted(s, piece, data)),
        holds_piece(inserted(s, piece, data).entries, piece),
        inserted(s, piece, data).used - inserted(s, piece, data).bytes == s.used - s.bytes,
        !holds_piece(s.entries, piece) ==> inserted(s, piece, data).used <= s.limit || inserted(
            s,
            piece,
            data,
        ).entries.len() == 1,
{
    if !holds_piece(s.entries, piece) {
        let next = added(s, piece, data);
        assert(next.entries.drop_last() =~= s.entries);
        assert forall|i: int, j: int| 0 <= i < j < next.entries.len() implies (
        #[trigger] next.entries[i]).0 != (#[trigger] next.entries[j]).0 by {
            assert(next.entries[i] == s.entries[i]);
            if j < s.entries.len() {
                assert(next.entries[j] == s.entries[j]);
            }
        }
        lemma_evicted(next);
        let after = evicted(next);
        assert(after.entries[after.entries.len() - 1].0 == piece);
    }
}

/// Process-wide bound on piece buffers reserved for downloads.
#[derive(Clone, Copy, Debug, Eq, PartialEq, Structural)]
pub struct DownloadBudget {
    pub used: u64,
    pub limit: u64,
}

impl DownloadBudget {
    pub fn new(limit: usize) -> (budget: Self)
        ensures
            budget.used == 0,
            budget.limit == limit,
    {
        Self { used: 0, limit: limit as u64 }
    }

    /// Reserves bytes where the limit has room for them.
    pub fn try_reserve(&mut self, bytes: u64) -> (reserved: bool)
        ensures
            reserved == (old(self).used + bytes <= old(self).limit),
            *final(self) == (if reserved {
                DownloadBudget { used: (old(self).used + bytes) as u64, ..*old(self) }
            } else {
                *old(self)
            }),
    {
        match self.used.checked_add(bytes) {
            Some(total) => {
                if total <= self.limit {
                    self.used = total;
                    true
                } else {
                    false
                }
            },
            None => false,
        }
    }

    /// Reserves bytes whatever the limit is. The count wraps around.
    pub fn force_reserve(&mut self, bytes: u64)
        ensures
            final(self).limit == old(self).limit,
            final(self).used == (if old(self).used + bytes > u64::MAX {
                old(self).used + bytes - 0x1_0000_0000_0000_0000
            } else {
                old(self).used + bytes
            }),
    {
        self.used = self.used.wrapping_add(bytes);
    }

    pub fn release(&mut self, bytes: u64)
        ensures
            final(self).limit == old(self).limit,
            final(self).used == max_of(old(self).used - bytes, 0),
    {
        self.used = self.used.saturating_sub(bytes);
    }

    pub fn used(&self) -> (used: u64)
        ensures
            used == self.used,
    {
        self.used
    }
}

/// One swarm's view of the shared download budget. A swarm holding nothing may
/// always reserve one piece so a busy daemon cannot starve a torrent forever;
/// closing the account returns everything it still holds.
#[derive(Debug)]
pub struct BudgetAccount {
    pub held: u64,
}

impl BudgetAccount {
    pub fn new() -> (account: Self)
        ensures
            account.held == 0,
    {
        Self { held: 0 }
    }

    /// Reserves room for a piece: always where nothing is held, else where the
    /// limit has room for it. What other accounts hold stays counted.
    pub fn reserve(&mut self, shared: &mut DownloadBudget, bytes: usize) -> (reserved: bool)
        ensures
            reserved == (old(self).held == 0 || old(shared).used + bytes <= old(shared).limit),
            final(shared).limit == old(shared).limit,
            reserved ==> {
                &&& final(self).held == min_of(old(self).held + bytes, u64::MAX as int)
                &&& final(shared).used == (if old(shared).used + bytes > u64::MAX {
                    old(shared).used + bytes - 0x1_0000_0000_0000_0000
                } else {
                    old(shared).used + bytes
                })
            },
            !reserved ==> *final(self) == *old(self) && *final(shared) == *old(shared),
            old(shared).used >= old(self).held && old(shared).used + bytes <= u64::MAX
                ==> final(shared).used - final(self).held == old(shared).used - old(self).held,
    {
        let bytes: u64 = bytes as u64;
        if self.held == 0 {
            shared.force_reserve(bytes);
        } else if !shared.try_reserve(bytes) {
            return false;
        }
        self.held = self.held.saturating_add(bytes);
        true
    }

    /// Returns bytes, but no more than are held.
    pub fn release(&mut self, shared: &mut DownloadBudget, bytes: usize)
        ensures
            final(self).held == max_of(old(self).held - bytes, 0),
            final(shared).used == max_of(
                old(shared).used - min_of(bytes as int, old(self).held as int),
                0,
            ),
            final(shared).limit == old(shared).limit,
            old(shared).used >= old(self).held ==> final(shared).used - final(self).held == old(
                shared,
            ).used - old(self).held,
    {
        let bytes: u64 = if bytes as u64 <= self.held { bytes as u64 } else { self.held };
        self.held = self.held - bytes;
        shared.release(bytes);
    }

    /// Returns everything that is still held.
    pub fn close(self, shared: &mut DownloadBudget)
        ensures
            final(shared).used == max_of(old(shared).used - self.held, 0),
            final(shared).limit == old(shared).limit,
    {
        shared.release(self.held);
    }
}

/// Room is made from the front: what stays is the end of what was there and the
/// new piece, in order, and no piece goes while there is room, nor the last one.
pub proof fn law_oldest_pieces_go_first(s: CacheState, piece: int, data: Seq<u8>)
    requires
        accounted(s),
        !holds_piece(s.entries, piece),
        s.bytes + data.len() <= usize::MAX,
        s.used + data.len() <= u64::MAX,
    ensures
        ({
            let all = s.entries.push((piece, data));
            let after = inserted(s, piece, data);
            let gone = all.len() - after.entries.len();
            &&& 0 <= gone < all.len()
            &&& after.entries == all.skip(gone)
            &&& gone > 0 ==> after.used + all[gone - 1].1.len() > s.limit
            &&& after.limit == s.limit
        }),
{
    let next = added(s, piece, data);
    assert(next.entries.drop_last() =~= s.entries);
    lemma_evicted_front(next);
}

proof fn lemma_evicted_front(s: CacheState)
    requires
        s.entries.len() > 0,
        s.bytes == pieces_size(s.entries),
        s.used >= s.bytes,
    ensures
        ({
            let after = evicted(s);
            let gone = s.entries.len() - after.entries.len();
            &&& 0 <= gone < s.entries.len()
            &&& after.entries == s.entries.skip(gone)
            &&& gone > 0 ==> after.used + s.entries[gone - 1].1.len() > s.limit
            &&& gone == 0 ==> after == s
            &&& after.limit == s.limit
        }),
    decreases s.entries.len(),
{
    if s.used > s.limit && s.entries.len() > 1 {
        lemma_pieces_size_first(s.entries);
        let length = s.entries[0].1.len();
        let rest = CacheState {
            entries: s.entries.drop_first(),
            bytes: max_of(s.bytes - length, 0),
            used: max_of(s.used - length, 0),
            limit: s.limit,
        };
        lemma_evicted_front(rest);
        let after = evicted(rest);
        let gone = rest.entries.len() - after.entries.len();
        assert(s.entries.skip(gone + 1) =~= rest.entries.skip(gone));
        if gone > 0 {
            assert(rest.entries[gone - 1] == s.entries[gone]);
        }
    } else {
        assert(s.entries.skip(0) =~= s.entries);
    }
}

} // verus!
