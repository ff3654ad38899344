use crate::interval_tree::{CellWiseIter, ContiguousIntervalTree};
use core::ops::RangeInclusive;
use vstd::prelude::*;

verus! {

pub type IndexPart = u64;

/// A coordinate on the three axes, axis 0 first.
pub type Index = [IndexPart; 3];

/// Cells of a chunk along axis 0.
pub const CHUNK_SIZE_X: usize = 32;

/// Cells of a chunk along axis 1.
pub const CHUNK_SIZE_Y: usize = 32;

/// Cells of a chunk along axis 2.
pub const CHUNK_SIZE_Z: usize = 32;

/// Cells in a chunk.
pub const CHUNK_VOLUME: usize = CHUNK_SIZE_X * CHUNK_SIZE_Y * CHUNK_SIZE_Z;

/// The chunk that holds voxel `v`: each component divided by the chunk size.
pub open spec fn chunk_of(v: Seq<u64>) -> Seq<u64> {
    seq![
        (v[0] / CHUNK_SIZE_X as u64) as u64,
        (v[1] / CHUNK_SIZE_Y as u64) as u64,
        (v[2] / CHUNK_SIZE_Z as u64) as u64,
    ]
}

/// The cell of voxel `v` inside its chunk: the remainders weighted in mixed
/// radix, axis 0 fastest.
pub open spec fn cell_of(v: Seq<u64>) -> int {
    (v[0] % CHUNK_SIZE_X as u64) as int + (v[1] % CHUNK_SIZE_Y as u64) as int * CHUNK_SIZE_X
        + (v[2] % CHUNK_SIZE_Z as u64) as int * (CHUNK_SIZE_X * CHUNK_SIZE_Y)
}

/// The coordinate of a chunk in the lattice of chunks.
#[derive(Clone, Copy, Debug, PartialEq, Eq, Hash, Structural)]
pub struct ChunkIndex {
    x: IndexPart,
    y: IndexPart,
    z: IndexPart,
}

impl View for ChunkIndex {
    type V = Seq<u64>;

    closed spec fn view(&self) -> Seq<u64> {
        seq![self.x, self.y, self.z]
    }
}

impl ChunkIndex {
    pub fn new(value: Index) -> (r: Self)
        ensures
            r@ == value@,
    {
        let r = ChunkIndex { x: value[0], y: value[1], z: value[2] };
        assert(r@ =~= value@);
        r
    }

    pub fn value(&self) -> (r: Index)
        ensures
            r@ == self@,
    {
        let r = [self.x, self.y, self.z];
        assert(r@ =~= self@);
        r
    }

    /// The chunk index whose view is `v`.
    pub closed spec fn spec_from(v: Seq<u64>) -> ChunkIndex {
        ChunkIndex { x: v[0], y: v[1], z: v[2] }
    }

    /// Equal views mean equal chunk indices.
    pub proof fn lemma_view_injective(a: ChunkIndex, b: ChunkIndex)
        requires
            a@ == b@,
        ensures
            a == b,
    {
        assert(a@[0] == b@[0] && a@[1] == b@[1] && a@[2] == b@[2]);
    }
}

/// The coordinate of a voxel.
#[derive(Clone, Copy, Debug, PartialEq, Eq, Hash, Structural)]
pub struct VoxelIndex {
    x: IndexPart,
    y: IndexPart,
    z: IndexPart,
}

impl View for VoxelIndex {
    type V = Seq<u64>;

    closed spec fn view(&self) -> Seq<u64> {
        seq![self.x, self.y, self.z]
    }
}

impl VoxelIndex {
    pub fn new(value: Index) -> (r: Self)
        ensures
            r@ == value@,
    {
        let r = VoxelIndex { x: value[0], y: value[1], z: value[2] };
        assert(r@ =~= value@);
        r
    }

    pub fn value(&self) -> (r: Index)
        ensures
            r@ == self@,
    {
        let r = [self.x, self.y, self.z];
        assert(r@ =~= self@);
        r
    }

    /// The chunk that holds this voxel.
    pub fn chunk_index(&self) -> (r: ChunkIndex)
        ensures
            r@ == chunk_of(self@),
    {
        let r = ChunkIndex {
            x: self.x / CHUNK_SIZE_X as u64,
            y: self.y / CHUNK_SIZE_Y as u64,
            z: self.z / CHUNK_SIZE_Z as u64,
        };
        assert(r@ =~= chunk_of(self@));
        r
    }

    /// The index of this voxel's cell in its chunk's run-length array.
    pub fn interval_tree_index(&self) -> (r: usize)
        ensures
            r == cell_of(self@),
            r < CHUNK_VOLUME,
    {
        let a = (self.x % CHUNK_SIZE_X as u64) as usize;
        let b = (self.y % CHUNK_SIZE_Y as u64) as usize;
        let c = (self.z % CHUNK_SIZE_Z as u64) as usize;
        a + b * CHUNK_SIZE_X + c * (CHUNK_SIZE_X * CHUNK_SIZE_Y)
    }
}

/// One chunk: a run-length array with a cell for each voxel of the chunk.
#[derive(Clone, Debug)]
pub struct Chunk<T> {
    data: ContiguousIntervalTree<T>,
}

impl<T: Copy + PartialEq> Chunk<T> {
    pub closed spec fn spec_data(&self) -> ContiguousIntervalTree<T> {
        self.data
    }

    pub open spec fn wf(&self) -> bool {
        self.spec_data().wf() && self.spec_data().spec_capacity() == CHUNK_VOLUME
    }

    /// Wraps a run-length array; refuses one whose capacity is not the chunk
    /// volume.
    pub fn new(data: ContiguousIntervalTree<T>) -> (r: Option<Self>)
        requires
            data.wf(),
        ensures
            r.is_some() <==> data.spec_capacity() == CHUNK_VOLUME,
            r matches Some(c) ==> c.spec_data() == data && c.wf(),
    {
        if data.capacity() != CHUNK_VOLUME {
            return None;
        }
        Some(Chunk { data })
    }

    pub fn data(&self) -> (r: &ContiguousIntervalTree<T>)
        ensures
            *r == self.spec_data(),
    {
        &self.data
    }
}

/// The chunks that exist, by chunk coordinate. A coordinate with no entry has
/// never been materialised.
#[derive(Clone, Debug)]
pub struct ChunkSet<T> {
    chunks: Vec<(ChunkIndex, Chunk<T>)>,
}

impl<T: Copy + PartialEq> ChunkSet<T> {
    /// The entries are kept in a list whose keys are unique.
    pub closed spec fn wf(&self) -> bool {
        &&& forall|a: int, b: int|
            0 <= a < b < self.chunks@.len() ==> #[trigger] self.chunks@[a].0 != #[trigger] self.chunks@[b].0
        &&& forall|a: int| 0 <= a < self.chunks@.len() ==> #[trigger] self.chunks@[a].1.wf()
    }

    /// The chunks by the view of their coordinate.
    pub closed spec fn view(&self) -> Map<Seq<u64>, Chunk<T>> {
        Map::new(
            |c: Seq<u64>| exists|a: int| 0 <= a < self.chunks@.len() && #[trigger] self.chunks@[a].0@ == c,
            |c: Seq<u64>| self.chunks@[choose|a: int| 0 <= a < self.chunks@.len() && #[trigger] self.chunks@[a].0@ == c].1,
        )
    }

    proof fn lemma_entry(&self, a: int)
        requires
            self.wf(),
            0 <= a < self.chunks@.len(),
        ensures
            self@.contains_key(self.chunks@[a].0@),
            self@[self.chunks@[a].0@] == self.chunks@[a].1,
    {
        let c = self.chunks@[a].0@;
        assert(self@.contains_key(c));
        let b = choose|b: int| 0 <= b < self.chunks@.len() && #[trigger] self.chunks@[b].0@ == c;
        ChunkIndex::lemma_view_injective(self.chunks@[a].0, self.chunks@[b].0);
    }

    /// Every chunk in the set is well formed.
    pub proof fn lemma_chunks_wf(&self, c: Seq<u64>)
        requires
            self.wf(),
            self@.contains_key(c),
        ensures
            self@[c].wf(),
    {
        let b = choose|b: int| 0 <= b < self.chunks@.len() && #[trigger] self.chunks@[b].0@ == c;
        self.lemma_entry(b);
    }

    pub fn new() -> (r: Self)
        ensures
            r.wf(),
            r@ == Map::<Seq<u64>, Chunk<T>>::empty(),
    {
        let r = ChunkSet { chunks: Vec::new() };
        assert(r@ =~= Map::<Seq<u64>, Chunk<T>>::empty());
        r
    }

    /// The chunk at `index`, if it exists; nothing is created.
    pub fn chunk(&self, index: ChunkIndex) -> (r: Option<&Chunk<T>>)
        requires
            self.wf(),
        ensures
            r.is_some() <==> self@.contains_key(index@),
            r matches Some(c) ==> *c == self@[index@],
    {
        let mut a: usize = 0;
        while a < self.chunks.len()
            invariant
                self.wf(),
                a <= self.chunks@.len(),
                forall|b: int| 0 <= b < a ==> #[trigger] self.chunks@[b].0 != index,
            decreases self.chunks@.len() - a,
        {
            if self.chunks[a].0 == index {
                proof {
                    self.lemma_entry(a as int);
                }
                return Some(&self.chunks[a].1);
            }
            a = a + 1;
        }
        proof {
            if self@.contains_key(index@) {
                let b = choose|b: int| 0 <= b < self.chunks@.len() && #[trigger] self.chunks@[b].0@ == index@;
                ChunkIndex::lemma_view_injective(self.chunks@[b].0, index);
            }
        }
        None
    }

    /// Where `index` stands in the list, if anywhere.
    fn position(&self, index: ChunkIndex) -> (r: Option<usize>)
        ensures
            r matches Some(a) ==> a < self.chunks@.len() && self.chunks@[a as int].0 == index,
            r is None ==> forall|b: int| 0 <= b < self.chunks@.len() ==> #[trigger] self.chunks@[b].0 != index,
    {
        let mut a: usize = 0;
        while a < self.chunks.len()
            invariant
                a <= self.chunks@.len(),
                forall|b: int| 0 <= b < a ==> #[trigger] self.chunks@[b].0 != index,
            decreases self.chunks@.len() - a,
        {
            if self.chunks[a].0 == index {
                return Some(a);
            }
            a = a + 1;
        }
        None
    }

    /// Puts `chunk` at `index`, in place of any chunk that was there.
    pub fn set_chunk(&mut self, index: ChunkIndex, chunk: Chunk<T>)
        requires
            old(self).wf(),
            chunk.wf(),
        ensures
            final(self).wf(),
            final(self)@ == old(self)@.insert(index@, chunk),
    {
        let ghost before = self.chunks@;
        match self.position(index) {
            Some(a) => {
                self.chunks.set(a, (index, chunk));
                proof {
                    let after = self.chunks@;
                    assert forall|x: int| 0 <= x < after.len() implies #[trigger] after[x].0 == before[x].0 by {}
                    assert forall|x: int| 0 <= x < after.len() implies #[trigger] after[x].1.wf() by {
                        if x != a {
                            assert(before[x].1.wf());
                        }
                    }
                    assert forall|x: int, y: int| 0 <= x < y < after.len() implies #[trigger] after[x].0 != #[trigger] after[y].0 by {
                        assert(before[x].0 != before[y].0);
                    }
                    assert(self.wf());
                    assert forall|c: Seq<u64>| #[trigger] self@.contains_key(c) == old(self)@.insert(index@, chunk).contains_key(c) by {
                        if exists|b: int| 0 <= b < before.len() && #[trigger] before[b].0@ == c {
                            let b = choose|b: int| 0 <= b < before.len() && #[trigger] before[b].0@ == c;
                            assert(after[b].0@ == c);
                        }
                        if exists|b: int| 0 <= b < after.len() && #[trigger] after[b].0@ == c {
                            let b = choose|b: int| 0 <= b < after.len() && #[trigger] after[b].0@ == c;
                            assert(before[b].0@ == c);
                        }
                        if c == index@ {
                            assert(after[a as int].0@ == c);
                        }
                    }
                    assert forall|c: Seq<u64>| #[trigger] self@.contains_key(c) implies self@[c] == old(self)@.insert(index@, chunk)[c] by {
                        let b = choose|b: int| 0 <= b < after.len() && #[trigger] after[b].0@ == c;
                        self.lemma_entry(b);
                        if b != a {
                            old(self).lemma_entry(b);
                        } else {
                            ChunkIndex::lemma_view_injective(after[b].0, index);
                        }
                    }
                    assert(self@ =~= old(self)@.insert(index@, chunk));
                }
            },
            None => {
                self.chunks.push((index, chunk));
                proof {
                    let after = self.chunks@;
                    let n = (after.len() - 1) as int;
                    assert forall|x: int, y: int| 0 <= x < y < after.len() implies #[trigger] after[x].0 != #[trigger] after[y].0 by {
                        if y < n {
                            assert(before[x].0 != before[y].0);
                        }
                    }
                    assert forall|x: int| 0 <= x < after.len() implies #[trigger] after[x].1.wf() by {
                        if x < n {
                            assert(before[x].1.wf());
                        }
                    }
                    assert(self.wf());
                    assert forall|c: Seq<u64>| #[trigger] self@.contains_key(c) == old(self)@.insert(index@, chunk).contains_key(c) by {
                        if c == index@ {
                            assert(after[n].0@ == c);
                        } else {
                            if exists|b: int| 0 <= b < before.len() && #[trigger] before[b].0@ == c {
                                let b = choose|b: int| 0 <= b < before.len() && #[trigger] before[b].0@ == c;
                                assert(after[b].0@ == c);
                            }
                            if exists|b: int| 0 <= b < after.len() && #[trigger] after[b].0@ == c {
                                let b = choose|b: int| 0 <= b < after.len() && #[trigger] after[b].0@ == c;
                                assert(b != n);
                                assert(before[b].0@ == c);
                            }
                        }
                    }
                    assert forall|c: Seq<u64>| #[trigger] self@.contains_key(c) implies self@[c] == old(self)@.insert(index@, chunk)[c] by {
                        let b = choose|b: int| 0 <= b < after.len() && #[trigger] after[b].0@ == c;
                        self.lemma_entry(b);
                        if b != n {
                            old(self).lemma_entry(b);
                        } else {
                            ChunkIndex::lemma_view_injective(after[b].0, index);
                        }
                    }
                    assert(self@ =~= old(self)@.insert(index@, chunk));
                }
            },
        }
    }
}

impl<T: Copy + PartialEq> Default for ChunkSet<T> {
    fn default() -> (r: Self)
        ensures
            r.wf(),
            r@ == Map::<Seq<u64>, Chunk<T>>::empty(),
    {
        Self::new()
    }
}

/// Relies on `RangeInclusive::start`: the lower bound that the range was
/// built with, for a range not yet iterated to exhaustion.
#[verifier::external_body]
fn range_start<I: Copy>(r: &RangeInclusive<I>) -> (s: I)
    requires
        !r@.exhausted,
    ensures
        s == r@.start,
{
    *r.start()
}

/// Relies on `RangeInclusive::end`: the upper bound that the range was built
/// with, for a range not yet iterated to exhaustion.
#[verifier::external_body]
fn range_end<I: Copy>(r: &RangeInclusive<I>) -> (e: I)
    requires
        !r@.exhausted,
    ensures
        e == r@.end,
{
    *r.end()
}

/// Every component of `s` is at most the same component of `e`.
pub open spec fn box_ordered(s: Seq<u64>, e: Seq<u64>) -> bool {
    s.len() == 3 && e.len() == 3 && s[0] <= e[0] && s[1] <= e[1] && s[2] <= e[2]
}

/// `c` lies in the closed box from `s` to `e`.
pub open spec fn in_box(c: Seq<u64>, s: Seq<u64>, e: Seq<u64>) -> bool {
    &&& c.len() == 3
    &&& s[0] <= c[0] <= e[0]
    &&& s[1] <= c[1] <= e[1]
    &&& s[2] <= c[2] <= e[2]
}

/// The coordinate after `c` in odometer order over the box from `s` to `e`:
/// axis 0 moves first and carries into axis 1, then axis 2; `None` after the
/// last corner.
pub open spec fn odometer_next(c: Seq<u64>, s: Seq<u64>, e: Seq<u64>) -> Option<Seq<u64>> {
    if c[0] < e[0] {
        Some(seq![(c[0] + 1) as u64, c[1], c[2]])
    } else if c[1] < e[1] {
        Some(seq![s[0], (c[1] + 1) as u64, c[2]])
    } else if c[2] < e[2] {
        Some(seq![s[0], s[1], (c[2] + 1) as u64])
    } else {
        None
    }
}

/// Every coordinate of a closed box, in odometer order.
#[derive(Clone, Debug)]
pub struct IndexIter {
    start: Index,
    end: Index,
    next: Option<Index>,
}

impl IndexIter {
    pub closed spec fn start(&self) -> Seq<u64> {
        self.start@
    }

    pub closed spec fn end(&self) -> Seq<u64> {
        self.end@
    }

    /// The coordinate that comes next, if any.
    pub closed spec fn pending(&self) -> Option<Seq<u64>> {
        match self.next {
            Some(c) => Some(c@),
            None => None,
        }
    }

    pub open spec fn wf(&self) -> bool {
        &&& box_ordered(self.start(), self.end())
        &&& (self.pending() matches Some(c) ==> in_box(c, self.start(), self.end()))
    }

    /// An iterator over the box from `range`'s start to its end, both
    /// included; each component of the start must be at most the end's.
    pub fn new(range: RangeInclusive<Index>) -> (r: Self)
        requires
            !range@.exhausted,
            box_ordered(range@.start@, range@.end@),
        ensures
            r.wf(),
            r.start() == range@.start@,
            r.end() == range@.end@,
            r.pending() == Some(range@.start@),
    {
        let start = range_start(&range);
        let end = range_end(&range);
        IndexIter { start, end, next: Some(start) }
    }

    /// The next coordinate, or `None` once the box is done.
    pub fn next(&mut self) -> (r: Option<Index>)
        requires
            old(self).wf(),
        ensures
            final(self).wf(),
            final(self).start() == old(self).start(),
            final(self).end() == old(self).end(),
            r matches Some(c) ==> old(self).pending() == Some(c@)
                && final(self).pending() == odometer_next(c@, old(self).start(), old(self).end()),
            r is None ==> old(self).pending() is None && final(self).pending() is None,
    {
        match self.next {
            None => None,
            Some(c) => {
                let s = self.start;
                let e = self.end;
                let n: Option<Index> = if c[0] != e[0] {
                    Some([c[0] + 1, c[1], c[2]])
                } else if c[1] != e[1] {
                    Some([s[0], c[1] + 1, c[2]])
                } else if c[2] != e[2] {
                    Some([s[0], s[1], c[2] + 1])
                } else {
                    None
                };
                self.next = n;
                proof {
                    match n {
                        Some(m) => {
                            assert(m@ =~= odometer_next(c@, s@, e@).unwrap());
                        },
                        None => {},
                    }
                }
                Some(c)
            },
        }
    }
}

/// What a box read can run into.
#[derive(Clone, Copy, Debug, PartialEq, Eq, Structural)]
pub enum ValueIterError {
    /// The box reaches into a chunk that does not exist.
    MissingChunk(ChunkIndex),
}

/// The value stored at voxel `v`, or `None` where its chunk does not exist.
pub open spec fn voxel_value<T: Copy + PartialEq>(chunks: Map<Seq<u64>, Chunk<T>>, v: Seq<u64>) -> Option<T> {
    if chunks.contains_key(chunk_of(v)) {
        Some(chunks[chunk_of(v)].spec_data()@[cell_of(v)])
    } else {
        None
    }
}

/// The stored values over a closed box of voxels, in odometer order. It keeps
/// a cursor into the current chunk and moves it cell by cell while the
/// coordinates stay in that chunk and follow each other in it; else it looks
/// the chunk up again.
#[derive(Clone, Debug)]
pub struct ValueIter<'a, T> {
    chunk_set: &'a ChunkSet<T>,
    start: VoxelIndex,
    end: VoxelIndex,
    index_iter: IndexIter,
    cell_iter: Option<(ChunkIndex, CellWiseIter<'a, T>)>,
}

impl<'a, T: Copy + PartialEq> ValueIter<'a, T> {
    pub closed spec fn chunks(&self) -> Map<Seq<u64>, Chunk<T>> {
        self.chunk_set@
    }

    pub closed spec fn index_iter(&self) -> IndexIter {
        self.index_iter
    }

    pub closed spec fn wf(&self) -> bool {
        &&& self.chunk_set.wf()
        &&& self.index_iter.wf()
        &&& self.index_iter.start() == self.start@
        &&& self.index_iter.end() == self.end@
        &&& (self.cell_iter matches Some((ci, it)) ==> {
            &&& self.chunk_set@.contains_key(ci@)
            &&& it.wf()
            &&& it.tree() == self.chunk_set@[ci@].spec_data()
        })
    }

    /// A read over the voxels from `range`'s start to its end, both included;
    /// each component of the start must be at most the end's.
    pub fn new(chunk_set: &'a ChunkSet<T>, range: RangeInclusive<VoxelIndex>) -> (r: Self)
        requires
            chunk_set.wf(),
            !range@.exhausted,
            box_ordered(range@.start@, range@.end@),
        ensures
            r.wf(),
            r.chunks() == chunk_set@,
            r.index_iter().start() == range@.start@,
            r.index_iter().end() == range@.end@,
            r.index_iter().pending() == Some(range@.start@),
    {
        let start = range_start(&range);
        let end = range_end(&range);
        let index_iter = IndexIter::new(start.value()..=end.value());
        ValueIter { chunk_set, start, end, index_iter, cell_iter: None }
    }

    /// The value at the next coordinate of the box, an error where that
    /// coordinate's chunk does not exist, or `None` once the box is done.
    pub fn next(&mut self) -> (r: Option<Result<&'a T, ValueIterError>>)
        requires
            old(self).wf(),
        ensures
            final(self).wf(),
            final(self).chunks() == old(self).chunks(),
            final(self).index_iter().start() == old(self).index_iter().start(),
            final(self).index_iter().end() == old(self).index_iter().end(),
            match old(self).index_iter().pending() {
                None => r is None && final(self).index_iter().pending() is None,
                Some(c) => {
                    &&& final(self).index_iter().pending() == odometer_next(
                        c,
                        old(self).index_iter().start(),
                        old(self).index_iter().end(),
                    )
                    &&& match voxel_value(old(self).chunks(), c) {
                        None => r == Some(
                            Err::<&T, ValueIterError>(ValueIterError::MissingChunk(ChunkIndex::spec_from(chunk_of(c)))),
                        ),
                        Some(x) => r matches Some(Ok(y)) && *y == x,
                    }
                },
            },
    {
        let c = match self.index_iter.next() {
            None => return None,
            Some(c) => c,
        };
        let v = VoxelIndex::new(c);
        let ci = v.chunk_index();
        let ti = v.interval_tree_index();
        proof {
            if self.chunk_set@.contains_key(ci@) {
                self.chunk_set.lemma_chunks_wf(ci@);
            }
        }
        let mut it = match self.cell_iter {
            Some((cached, it)) if cached == ci && it.position() == ti => it,
            _ => match self.chunk_set.chunk(ci) {
                None => {
                    self.cell_iter = None;
                    proof {
                        ChunkIndex::lemma_view_injective(ci, ChunkIndex::spec_from(chunk_of(c@)));
                    }
                    return Some(Err(ValueIterError::MissingChunk(ci)));
                },
                Some(chunk) => {
                    proof {
                        self.chunk_set.lemma_chunks_wf(ci@);
                    }
                    chunk.data().cell_wise_iter_from(ti)
                },
            },
        };
        let r = it.next();
        self.cell_iter = Some((ci, it));
        match r {
            Some(x) => Some(Ok(x)),
            None => None,
        }
    }
}

} // verus!
