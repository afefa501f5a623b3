use vstd::prelude::*;
use std::collections::HashMap;
use crate::npuzzle::Move;

verus! {

/// How the search first reached a board: the move that produced it, `None`
/// for the root, and the number of moves from the root.
#[derive(Debug, Clone, Copy, PartialEq, Eq, Structural)]
pub struct Arrival {
    pub movement: Option<Move>,
    pub g: i32,
}

struct Entry {
    board: Vec<u8>,
    arrival: Arrival,
}

/// The settled boards of the search, each with its arrival, found by the
/// tiles alone.
///
/// The boards are spread over the buckets of a hash map by a hash of their
/// tiles; boards whose hashes collide share a bucket.
pub struct ClosedSet {
    buckets: HashMap<u64, Vec<Entry>>,
    count: usize,
    model: Ghost<Map<Seq<u8>, Arrival>>,
}

/// The modulus of the hash: below `2^55`, so that a step of the polynomial
/// fits in 64 bits.
pub const HASH_MODULUS: u64 = 36028797018963913;

/// The factor of the hash: one more than the number of tile labels.
pub const HASH_FACTOR: u64 = 257;

/// The bucket of a board: a polynomial in its tiles, reduced after each step.
pub open spec fn board_hash(cells: Seq<u8>) -> u64
    decreases cells.len(),
{
    if cells.len() == 0 {
        0
    } else {
        ((board_hash(cells.drop_last()) * HASH_FACTOR + cells.last()) % (
        HASH_MODULUS as int)) as u64
    }
}

/// The bucket in which `board` is kept.
pub fn hash_board(board: &Vec<u8>) -> (h: u64)
    ensures
        h == board_hash(board@),
{
    let mut h: u64 = 0;
    let mut i: usize = 0;
    while i < board.len()
        invariant
            i <= board.len(),
            h == board_hash(board@.take(i as int)),
            h < HASH_MODULUS,
        decreases board.len() - i,
    {
        proof {
            assert(board@.take(i + 1).drop_last() =~= board@.take(i as int));
        }
        h = (h * HASH_FACTOR + board[i] as u64) % HASH_MODULUS;
        i += 1;
    }
    proof {
        assert(board@.take(board.len() as int) =~= board@);
    }
    h
}

/// Whether two boards hold the same tiles.
pub fn same_tiles(a: &Vec<u8>, b: &Vec<u8>) -> (r: bool)
    ensures
        r == (a@ == b@),
{
    if a.len() != b.len() {
        return false;
    }
    let mut i: usize = 0;
    while i < a.len()
        invariant
            i <= a.len(),
            a.len() == b.len(),
            forall|j: int| 0 <= j < i ==> a[j] == b[j],
        decreases a.len() - i,
    {
        if a[i] != b[i] {
            return false;
        }
        i += 1;
    }
    proof {
        assert(a@ =~= b@);
    }
    true
}

spec fn bucket_holds(bucket: Seq<Entry>, cells: Seq<u8>) -> bool {
    exists|j: int| 0 <= j < bucket.len() && (#[trigger] bucket[j]).board@ == cells
}

spec fn entry_agrees(model: Map<Seq<u8>, Arrival>, key: u64, entry: Entry) -> bool {
    &&& board_hash(entry.board@) == key
    &&& model.contains_key(entry.board@)
    &&& model[entry.board@] == entry.arrival
}

fn lookup(bucket: &Vec<Entry>, board: &Vec<u8>) -> (r: Option<Arrival>)
    ensures
        match r {
            Some(arrival) => exists|j: int|
                0 <= j < bucket.len() && (#[trigger] bucket[j]).board@ == board@ && bucket[j].arrival
                    == arrival,
            None => !bucket_holds(bucket@, board@),
        },
{
    let mut i: usize = 0;
    while i < bucket.len()
        invariant
            i <= bucket.len(),
            forall|j: int| 0 <= j < i ==> (#[trigger] bucket[j]).board@ != board@,
        decreases bucket.len() - i,
    {
        if same_tiles(&bucket[i].board, board) {
            return Some(bucket[i].arrival);
        }
        i += 1;
    }
    None
}

impl View for ClosedSet {
    type V = Map<Seq<u8>, Arrival>;

    closed spec fn view(&self) -> Map<Seq<u8>, Arrival> {
        self.model@
    }
}

impl ClosedSet {
    /// Every board lies in the bucket of its hash, and the buckets hold the
    /// boards of the view and no others.
    pub closed spec fn well_formed(&self) -> bool {
        &&& self.model@.dom().finite()
        &&& self.count == self.model@.dom().len()
        &&& forall|k: u64, j: int|
            self.buckets@.contains_key(k) && 0 <= j < self.buckets@[k].len() ==> entry_agrees(
                self.model@,
                k,
                #[trigger] self.buckets@[k][j],
            )
        &&& forall|cells: Seq<u8>| #[trigger]
            self.model@.contains_key(cells) ==> self.buckets@.contains_key(board_hash(cells))
                && bucket_holds(self.buckets@[board_hash(cells)]@, cells)
    }

    /// A well-formed set holds finitely many boards.
    pub proof fn lemma_finite(&self)
        requires
            self.well_formed(),
        ensures
            self@.dom().finite(),
    {
    }

    /// The set that holds no board.
    pub fn new() -> (r: Self)
        ensures
            r.well_formed(),
            r@ == Map::<Seq<u8>, Arrival>::empty(),
    {
        ClosedSet { buckets: HashMap::new(), count: 0, model: Ghost(Map::empty()) }
    }

    /// The number of boards in the set.
    pub fn len(&self) -> (r: usize)
        requires
            self.well_formed(),
        ensures
            r == self@.dom().len(),
    {
        self.count
    }

    /// The arrival recorded for `board`, if the set holds the board.
    pub fn get(&self, board: &Vec<u8>) -> (r: Option<Arrival>)
        requires
            self.well_formed(),
        ensures
            r == if self@.contains_key(board@) {
                Some(self@[board@])
            } else {
                None
            },
    {
        let h = hash_board(board);
        match self.buckets.get(&h) {
            Some(bucket) => {
                let r = lookup(bucket, board);
                proof {
                    if let Some(arrival) = r {
                        let j = choose|j: int|
                            0 <= j < bucket.len() && (#[trigger] bucket[j]).board@ == board@
                                && bucket[j].arrival == arrival;
                        assert(entry_agrees(self.model@, h, self.buckets@[h][j]));
                    }
                }
                r
            },
            None => None,
        }
    }

    /// Whether the set holds `board`.
    pub fn contains(&self, board: &Vec<u8>) -> (r: bool)
        requires
            self.well_formed(),
        ensures
            r == self@.contains_key(board@),
    {
        self.get(board).is_some()
    }

    /// Records `arrival` for `board` unless the set holds the board already;
    /// returns whether it was recorded.
    pub fn insert(&mut self, board: Vec<u8>, arrival: Arrival) -> (r: bool)
        requires
            old(self).well_formed(),
            old(self)@.dom().len() < usize::MAX,
        ensures
            final(self).well_formed(),
            r == !old(self)@.contains_key(board@),
            final(self)@ == if r {
                old(self)@.insert(board@, arrival)
            } else {
                old(self)@
            },
    {
        if self.contains(&board) {
            return false;
        }
        let h = hash_board(&board);
        let ghost cells = board@;
        let ghost before = self.buckets@;
        let mut bucket = match self.buckets.remove(&h) {
            Some(bucket) => bucket,
            None => Vec::new(),
        };
        let ghost old_bucket = bucket@;
        bucket.push(Entry { board, arrival });
        self.buckets.insert(h, bucket);
        self.count = self.count + 1;
        self.model = Ghost(self.model@.insert(cells, arrival));
        proof {
            assert forall|k: u64, j: int|
                self.buckets@.contains_key(k) && 0 <= j < self.buckets@[k].len() implies entry_agrees(
                self.model@,
                k,
                #[trigger] self.buckets@[k][j],
            ) by {
                if k == h {
                    if j < old_bucket.len() {
                        assert(self.buckets@[k][j] == old_bucket[j]);
                        assert(entry_agrees(old(self).model@, k, before[k][j]));
                    }
                } else {
                    assert(entry_agrees(old(self).model@, k, before[k][j]));
                }
            }
            assert forall|c: Seq<u8>| #[trigger] self.model@.contains_key(c) implies self.buckets@.contains_key(
            board_hash(c)) && bucket_holds(self.buckets@[board_hash(c)]@, c) by {
                if c == cells {
                    assert(self.buckets@[h][old_bucket.len() as int].board@ == c);
                } else {
                    assert(old(self).model@.contains_key(c));
                    let k = board_hash(c);
                    let j = choose|j: int|
                        0 <= j < before[k].len() && (#[trigger] before[k][j]).board@ == c;
                    if k == h {
                        assert(self.buckets@[k][j] == old_bucket[j]);
                    } else {
                        assert(self.buckets@[k][j] == before[k][j]);
                    }
                }
            }
        }
        true
    }
}

} // verus!
