use voxel_store::chunk::{
    Chunk, ChunkIndex, ChunkSet, IndexIter, IndexPart, ValueIter, ValueIterError, VoxelIndex,
    CHUNK_SIZE_X, CHUNK_SIZE_Y, CHUNK_SIZE_Z, CHUNK_VOLUME,
};
use voxel_store::interval_tree::{ContiguousIntervalTree, IntervalNode};

const CHUNK_SIZE: [usize; 3] = [CHUNK_SIZE_X, CHUNK_SIZE_Y, CHUNK_SIZE_Z];

fn counting_chunk(counter: &mut usize) -> Chunk<usize> {
    let chunk_size: usize = CHUNK_SIZE.iter().product();
    let mut nodes = vec![];
    for i in 0..chunk_size {
        nodes.push(IntervalNode {
            cell_i_start: i,
            value: *counter,
        });
        *counter += 1;
    }
    let data = ContiguousIntervalTree::new(nodes, chunk_size).unwrap();
    Chunk::new(data).unwrap()
}

fn value_of(r: Option<Result<&usize, ValueIterError>>) -> Option<usize> {
    r.map(|x| *x.unwrap())
}

#[test]
fn test_value_iter() {
    let mut counter = 0;
    let mut chunk_set = ChunkSet::new();
    for y in 0..=1 {
        for x in 0..=1 {
            let chunk = counting_chunk(&mut counter);
            chunk_set.set_chunk(ChunkIndex::new([x, y, 0]), chunk);
        }
    }
    let start = [CHUNK_SIZE[0] - 1, CHUNK_SIZE[1] - 1, 0];
    let end = [CHUNK_SIZE[0], CHUNK_SIZE[1], 0];
    let start: [IndexPart; 3] = start
        .iter()
        .copied()
        .map(|x| IndexPart::try_from(x).unwrap())
        .collect::<Vec<IndexPart>>()
        .try_into()
        .unwrap();
    let end: [IndexPart; 3] = end
        .iter()
        .copied()
        .map(|x| IndexPart::try_from(x).unwrap())
        .collect::<Vec<IndexPart>>()
        .try_into()
        .unwrap();
    let start = VoxelIndex::new(start);
    let end = VoxelIndex::new(end);
    let mut iter = ValueIter::new(&chunk_set, start..=end);
    assert_eq!(
        value_of(iter.next()),
        Some((CHUNK_SIZE[0] - 1) + (CHUNK_SIZE[0] * (CHUNK_SIZE[1] - 1)))
    );
    assert_eq!(
        value_of(iter.next()),
        Some((CHUNK_SIZE[0] * (CHUNK_SIZE[1] - 1)) + CHUNK_SIZE.iter().product::<usize>())
    );
    assert_eq!(
        value_of(iter.next()),
        Some((CHUNK_SIZE[0] - 1) + CHUNK_SIZE.iter().product::<usize>() * 2)
    );
    assert_eq!(
        value_of(iter.next()),
        Some(CHUNK_SIZE.iter().product::<usize>() * 3)
    );
    assert_eq!(value_of(iter.next()), None);
}

#[test]
fn test_index_iter() {
    let start = [0, 1, 2];
    let inclusive_end = [1, 3, 2];
    let mut iter = IndexIter::new(start..=inclusive_end);
    assert_eq!(iter.next(), Some([0, 1, 2]));
    assert_eq!(iter.next(), Some([1, 1, 2]));
    assert_eq!(iter.next(), Some([0, 2, 2]));
    assert_eq!(iter.next(), Some([1, 2, 2]));
    assert_eq!(iter.next(), Some([0, 3, 2]));
    assert_eq!(iter.next(), Some([1, 3, 2]));
    assert_eq!(iter.next(), None);
}

#[test]
fn index_iter_single_point_and_axis_two_carry() {
    let mut iter = IndexIter::new([5, 5, 5]..=[5, 5, 5]);
    assert_eq!(iter.next(), Some([5, 5, 5]));
    assert_eq!(iter.next(), None);
    assert_eq!(iter.next(), None);
    let mut iter = IndexIter::new([0, 0, 0]..=[1, 0, 1]);
    assert_eq!(iter.next(), Some([0, 0, 0]));
    assert_eq!(iter.next(), Some([1, 0, 0]));
    assert_eq!(iter.next(), Some([0, 0, 1]));
    assert_eq!(iter.next(), Some([1, 0, 1]));
    assert_eq!(iter.next(), None);
}

#[test]
fn value_iter_crosses_chunk_boundary_along_axis_zero() {
    let mut counter = 0;
    let mut chunk_set = ChunkSet::new();
    chunk_set.set_chunk(ChunkIndex::new([0, 0, 0]), counting_chunk(&mut counter));
    chunk_set.set_chunk(ChunkIndex::new([1, 0, 0]), counting_chunk(&mut counter));
    let start = VoxelIndex::new([30, 2, 0]);
    let end = VoxelIndex::new([33, 2, 0]);
    let mut iter = ValueIter::new(&chunk_set, start..=end);
    let row = 2 * CHUNK_SIZE_X;
    assert_eq!(value_of(iter.next()), Some(row + 30));
    assert_eq!(value_of(iter.next()), Some(row + 31));
    assert_eq!(value_of(iter.next()), Some(CHUNK_VOLUME + row));
    assert_eq!(value_of(iter.next()), Some(CHUNK_VOLUME + row + 1));
    assert_eq!(value_of(iter.next()), None);
}

#[test]
fn value_iter_reports_missing_chunk() {
    let mut counter = 0;
    let mut chunk_set = ChunkSet::new();
    chunk_set.set_chunk(ChunkIndex::new([0, 0, 0]), counting_chunk(&mut counter));
    let start = VoxelIndex::new([31, 0, 0]);
    let end = VoxelIndex::new([32, 0, 0]);
    let mut iter = ValueIter::new(&chunk_set, start..=end);
    assert_eq!(value_of(iter.next()), Some(31));
    assert_eq!(
        iter.next(),
        Some(Err(ValueIterError::MissingChunk(ChunkIndex::new([1, 0, 0]))))
    );
    assert_eq!(iter.next(), None);
}

#[test]
fn voxel_linearization() {
    let v = VoxelIndex::new([33, 65, 100]);
    assert_eq!(v.value(), [33, 65, 100]);
    assert_eq!(v.chunk_index(), ChunkIndex::new([1, 2, 3]));
    assert_eq!(v.chunk_index().value(), [1, 2, 3]);
    assert_eq!(v.interval_tree_index(), 1 + 1 * 32 + 4 * 32 * 32);
    let corner = VoxelIndex::new([31, 31, 31]);
    assert_eq!(corner.interval_tree_index(), CHUNK_VOLUME - 1);
    assert_eq!(VoxelIndex::new([64, 0, 32]).interval_tree_index(), 0);
}

#[test]
fn chunk_requires_chunk_volume() {
    let small = ContiguousIntervalTree::new(vec![IntervalNode { cell_i_start: 0, value: 1u8 }], 8)
        .unwrap();
    assert!(Chunk::new(small).is_none());
    let full = ContiguousIntervalTree::new(
        vec![IntervalNode { cell_i_start: 0, value: 1u8 }],
        CHUNK_VOLUME,
    )
    .unwrap();
    let chunk = Chunk::new(full).unwrap();
    assert_eq!(*chunk.data().get(CHUNK_VOLUME - 1), 1);
}

#[test]
fn chunk_set_get_and_replace() {
    let mut set: ChunkSet<u8> = ChunkSet::default();
    assert!(set.chunk(ChunkIndex::new([0, 0, 0])).is_none());
    let one = ContiguousIntervalTree::new(
        vec![IntervalNode { cell_i_start: 0, value: 1u8 }],
        CHUNK_VOLUME,
    )
    .unwrap();
    let two = ContiguousIntervalTree::new(
        vec![IntervalNode { cell_i_start: 0, value: 2u8 }],
        CHUNK_VOLUME,
    )
    .unwrap();
    set.set_chunk(ChunkIndex::new([4, 5, 6]), Chunk::new(one).unwrap());
    assert_eq!(*set.chunk(ChunkIndex::new([4, 5, 6])).unwrap().data().get(0), 1);
    assert!(set.chunk(ChunkIndex::new([6, 5, 4])).is_none());
    set.set_chunk(ChunkIndex::new([4, 5, 6]), Chunk::new(two).unwrap());
    assert_eq!(*set.chunk(ChunkIndex::new([4, 5, 6])).unwrap().data().get(0), 2);
}
