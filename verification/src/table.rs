//! The transposition table: what the search has found out about states that
//! it has seen, to be used when it comes upon them again.

use crate::board::{Board, BoardView};
use crate::geometry::{anchor_index, cell_index, encode8, encode9, Orientation, Wall};
use crate::score::Score;
use std::collections::HashMap;
use vstd::prelude::*;

verus! {

/// How the stored value of a state relates to its true value.
#[derive(PartialEq, Eq, Structural, Copy, Clone, Debug)]
pub enum BoardFlag {
    /// The stored value is the value.
    Exact,
    /// The value is at least the stored value.
    LowerBound,
    /// The value is at most the stored value.
    UpperBound,
}

/// What the table holds of a state: a value for the player to move, the
/// depth to which the state was searched, and how the value is to be read.
#[derive(PartialEq, Eq, Structural, Copy, Clone, Debug)]
pub struct BoardInfo {
    pub value: Score,
    pub depth: u16,
    pub flag: BoardFlag,
}

/// The keys of the states are taken modulo this prime.
pub const KEY_MODULUS: u64 = 1_000_000_007;

/// The number that stands for a wall in the key of a state.
pub open spec fn wall_code(w: Wall) -> int {
    (if w.0 == Orientation::Horizontal {
        0int
    } else {
        64int
    }) + anchor_index(w.1)
}

/// The part of the key that stands for the player to move, the pawns and
/// the stocks of walls.
pub open spec fn base_key(b: BoardView) -> int {
    b.player + 2 * (cell_index(b.positions[0]) + 81 * (cell_index(b.positions[1]) + 81 * (
    b.walls_left[0] + 11 * b.walls_left[1])))
}

/// The key of a state with its first `n` walls only.
pub open spec fn key_upto(b: BoardView, n: int) -> int
    decreases n,
{
    if n <= 0 {
        base_key(b)
    } else {
        (key_upto(b, n - 1) * 131 + wall_code(b.walls[n - 1])) % (KEY_MODULUS as int)
    }
}

/// The key under which the table files a state. Different states may have
/// the same key.
pub open spec fn board_key(b: BoardView) -> int {
    key_upto(b, b.walls.len() as int)
}

proof fn lemma_key_bound(b: BoardView, n: int)
    requires
        b.well_formed(),
        n <= b.walls.len(),
    ensures
        0 <= key_upto(b, n) < KEY_MODULUS,
    decreases n,
{
    if n > 0 {
        lemma_key_bound(b, n - 1);
        assert(0 <= wall_code(b.walls[n - 1]));
    }
}

/// The key under which the table files a state.
pub fn key_of_board(board: &Board) -> (key: u64)
    requires
        board@.well_formed(),
    ensures
        key == board_key(board@),
{
    let p0 = &board.positions[0];
    let p1 = &board.positions[1];
    let c0: u64 = encode9(p0.x, p0.y) as u64;
    let c1: u64 = encode9(p1.x, p1.y) as u64;
    let w0: u64 = board.walls_left[0] as u64;
    let w1: u64 = board.walls_left[1] as u64;
    let mut key: u64 = board.player as u64 + 2 * (c0 + 81 * (c1 + 81 * (w0 + 11 * w1)));
    let mut i: usize = 0;
    while i < board.walls.len()
        invariant
            0 <= i <= board.walls.len(),
            board@.well_formed(),
            key == key_upto(board@, i as int),
            key < KEY_MODULUS,
        decreases board.walls.len() - i,
    {
        let w = &board.walls[i];
        assert(board@.walls[i as int] == *w);
        let anchor: u64 = encode8(w.1.x - 1, w.1.y - 1) as u64;
        let code: u64 = match w.0 {
            Orientation::Horizontal => anchor,
            Orientation::Vertical => 64 + anchor,
        };
        proof {
            lemma_key_bound(board@, i + 1);
        }
        key = (key * 131 + code) % KEY_MODULUS;
        i = i + 1;
    }
    key
}

/// A table from states to what the search has found out about them.
pub struct TranspositionTable {
    buckets: HashMap<u64, Vec<(Board, BoardInfo)>>,
    entries: Ghost<Map<BoardView, BoardInfo>>,
}

impl View for TranspositionTable {
    type V = Map<BoardView, BoardInfo>;

    closed spec fn view(&self) -> Map<BoardView, BoardInfo> {
        self.entries@
    }
}

/// The place of a state in a bucket, if the bucket holds it.
fn find_in_bucket(bucket: &Vec<(Board, BoardInfo)>, board: &Board) -> (r: Option<usize>)
    ensures
        match r {
            Some(i) => i < bucket@.len() && bucket@[i as int].0@ == board@,
            None => forall|i: int| 0 <= i < bucket@.len() ==> (#[trigger] bucket@[i]).0@ != board@,
        },
{
    let mut i: usize = 0;
    while i < bucket.len()
        invariant
            0 <= i <= bucket.len(),
            forall|j: int| 0 <= j < i ==> (#[trigger] bucket@[j]).0@ != board@,
        decreases bucket.len() - i,
    {
        if bucket[i].0.same(board) {
            return Some(i);
        }
        i = i + 1;
    }
    None
}

impl TranspositionTable {
    /// Every entry of a bucket is filed under its key and is an entry of the
    /// table, and no bucket holds a state twice.
    spec fn buckets_ok(&self) -> bool {
        forall|h: u64, i: int|
            #![trigger self.buckets@[h]@[i]]
            self.buckets@.contains_key(h) && 0 <= i < self.buckets@[h]@.len() ==> {
                let e = self.buckets@[h]@[i];
                &&& e.0@.well_formed()
                &&& board_key(e.0@) == h
                &&& self.entries@.contains_key(e.0@)
                &&& self.entries@[e.0@] == e.1
                &&& forall|j: int| 0 <= j < i ==> (#[trigger] self.buckets@[h]@[j]).0@ != e.0@
            }
    }

    /// Every entry of the table stands in the bucket of its key.
    spec fn entries_ok(&self) -> bool {
        forall|b: BoardView| #[trigger]
            self.entries@.contains_key(b) ==> {
                &&& b.well_formed()
                &&& self.buckets@.contains_key(board_key(b) as u64)
                &&& exists|i: int|
                    0 <= i < self.buckets@[board_key(b) as u64]@.len() && (
                    #[trigger] self.buckets@[board_key(b) as u64]@[i]).0@ == b
            }
    }

    /// The table is in order: the buckets hold what the table holds.
    pub closed spec fn wf(&self) -> bool {
        self.buckets_ok() && self.entries_ok()
    }

    /// A table without entries.
    pub fn new() -> (t: TranspositionTable)
        ensures
            t.wf(),
            t@ == Map::<BoardView, BoardInfo>::empty(),
    {
        broadcast use vstd::std_specs::hash::group_hash_axioms;

        TranspositionTable { buckets: HashMap::new(), entries: Ghost(Map::empty()) }
    }

    /// What the table holds of a state.
    pub fn get(&self, board: &Board) -> (r: Option<BoardInfo>)
        requires
            self.wf(),
            board@.well_formed(),
        ensures
            r == if self@.contains_key(board@) {
                Some(self@[board@])
            } else {
                None
            },
    {
        broadcast use vstd::std_specs::hash::group_hash_axioms;

        let key = key_of_board(board);
        match self.buckets.get(&key) {
            None => {
                assert(!self.entries@.contains_key(board@));
                None
            },
            Some(bucket) => {
                assert(self.buckets@[key] == *bucket);
                match find_in_bucket(bucket, board) {
                    Some(i) => {
                        assert(self.buckets@[key]@[i as int].0@ == board@);
                        Some(bucket[i].1)
                    },
                    None => {
                        assert(!self.entries@.contains_key(board@));
                        None
                    },
                }
            },
        }
    }

    /// Files what the search has found out about a state, in place of what
    /// the table held of it.
    pub fn insert(&mut self, board: &Board, info: BoardInfo)
        requires
            old(self).wf(),
            board@.well_formed(),
        ensures
            final(self).wf(),
            final(self)@ == old(self)@.insert(board@, info),
    {
        broadcast use vstd::std_specs::hash::group_hash_axioms;

        let key = key_of_board(board);
        let ghost old_buckets = self.buckets@;
        let mut bucket: Vec<(Board, BoardInfo)> = match self.buckets.remove(&key) {
            Some(b) => b,
            None => Vec::new(),
        };
        let ghost old_bucket = bucket@;
        let ghost place: int;
        match find_in_bucket(&bucket, board) {
            Some(i) => {
                bucket.set(i, (board.copy(), info));
                proof {
                    place = i as int;
                }
            },
            None => {
                bucket.push((board.copy(), info));
                proof {
                    place = old_bucket.len() as int;
                }
            },
        }
        let ghost new_bucket = bucket@;
        assert(0 <= place < new_bucket.len() && new_bucket[place].0@ == board@);
        self.buckets.insert(key, bucket);
        self.entries = Ghost(self.entries@.insert(board@, info));
        proof {
            assert(old_buckets.contains_key(key) ==> old_buckets[key]@ == old_bucket);
            assert forall|h: u64, i: int|
                #![trigger self.buckets@[h]@[i]]
                self.buckets@.contains_key(h) && 0 <= i < self.buckets@[h]@.len() implies ({
                let e = self.buckets@[h]@[i];
                &&& e.0@.well_formed()
                &&& board_key(e.0@) == h
                &&& self.entries@.contains_key(e.0@)
                &&& self.entries@[e.0@] == e.1
                &&& forall|j: int| 0 <= j < i ==> (#[trigger] self.buckets@[h]@[j]).0@ != e.0@
            }) by {
                if h == key {
                    assert(self.buckets@[h]@ == new_bucket);
                    if i < old_bucket.len() {
                        let o = old_buckets[key]@[i];
                        assert(o == old_bucket[i]);
                        assert forall|j: int| 0 <= j < i implies (#[trigger] self.buckets@[h]@[j]).0@
                            != self.buckets@[h]@[i].0@ by {
                            let oj = old_buckets[key]@[j];
                        }
                    } else {
                        assert forall|j: int| 0 <= j < i implies (#[trigger] self.buckets@[h]@[j]).0@
                            != self.buckets@[h]@[i].0@ by {
                            let oj = old_buckets[key]@[j];
                            assert(old_bucket[j].0@ != board@);
                        }
                    }
                } else {
                    assert(old_buckets.contains_key(h));
                    assert(self.buckets@[h] == old_buckets[h]);
                    let o = old_buckets[h]@[i];
                    assert(board_key(o.0@) == h);
                    assert(o.0@ != board@);
                }
            }
            assert forall|b: BoardView| #[trigger] self.entries@.contains_key(b) implies ({
                &&& b.well_formed()
                &&& self.buckets@.contains_key(board_key(b) as u64)
                &&& exists|i: int|
                    0 <= i < self.buckets@[board_key(b) as u64]@.len() && (
                    #[trigger] self.buckets@[board_key(b) as u64]@[i]).0@ == b
            }) by {
                if b == board@ {
                    assert(self.buckets@[key]@[place].0@ == b);
                } else {
                    assert(old(self).entries@.contains_key(b));
                    let h = board_key(b) as u64;
                    let i = choose|i: int|
                        0 <= i < old_buckets[h]@.len() && (#[trigger] old_buckets[h]@[i]).0@ == b;
                    if h == key {
                        assert(old_bucket[i].0@ == b);
                        assert(new_bucket[i].0@ == b);
                        assert(self.buckets@[h]@[i].0@ == b);
                    } else {
                        assert(self.buckets@[h]@[i].0@ == b);
                    }
                }
            }
        }
    }
}

} // verus!
