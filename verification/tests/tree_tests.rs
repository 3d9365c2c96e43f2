use obliviousdb::search_tree::create::{layout, BuildError};
use obliviousdb::search_tree::search::{search_for_lower_bound, Leaf, SearchTreeIndex};
use obliviousdb::search_tree::util::{
    is_odd, number_of_leaves_in_tree, size_of_tree_with_height, split_top_height, MAX_HEIGHT,
};
use obliviousdb::search_tree::veb::index_of_leaf;
use obliviousdb::search_tree::{SearchTree, MAX_LEAVES};

fn leaf(index: i32, leaf_number: i32) -> SearchTreeIndex {
    SearchTreeIndex::Leaf { index, leaf_number }
}

/// A small generator of pseudo-random numbers, the same on every run.
struct Noise(u64);

impl Noise {
    fn next(&mut self) -> u64 {
        self.0 ^= self.0 << 13;
        self.0 ^= self.0 >> 7;
        self.0 ^= self.0 << 17;
        self.0
    }

    fn below(&mut self, bound: u64) -> u64 {
        self.next() % bound
    }
}

fn sorted_keys(noise: &mut Noise, count: usize, step: u64) -> Vec<i64> {
    let mut keys = Vec::with_capacity(count);
    let mut key: i64 = -(noise.below(1000) as i64);
    for _ in 0..count {
        key += noise.below(step) as i64;
        keys.push(key);
    }
    keys
}

/// The lower bound by a scan over the keys.
fn scan(keys: &[i64], of: i64) -> Option<usize> {
    let mut found = None;
    for (rank, key) in keys.iter().enumerate() {
        if *key <= of {
            found = Some(rank);
        }
    }
    found
}

#[test]
fn create_and_search() {
    let leaves: Vec<i64> = (0..64).chain((40..=360).step_by(10)).collect();
    assert_eq!(leaves.len(), 97);
    assert_eq!(SearchTree::new(leaves.into_iter(), 64).err(), Some(BuildError::StreamTooLong));

    let leaves: Vec<i64> = (0..32).chain((40..=350).step_by(10)).collect();
    let search_tree = SearchTree::new(leaves.into_iter(), 64).unwrap();

    assert_eq!(
        search_tree.search(39),
        SearchTreeIndex::Leaf { index: 70, leaf_number: 31 },
        "Searching for element in tree's span, but not in tree. Expecting lower bound"
    );
}

#[test]
fn tree_arithmetic() {
    assert_eq!(size_of_tree_with_height(0), 0);
    assert_eq!(size_of_tree_with_height(1), 1);
    assert_eq!(size_of_tree_with_height(4), 15);
    assert_eq!(size_of_tree_with_height(7), 127);
    assert_eq!(size_of_tree_with_height(MAX_HEIGHT), i32::MAX);
    assert_eq!(number_of_leaves_in_tree(1), 1);
    assert_eq!(number_of_leaves_in_tree(4), 8);
    assert_eq!(number_of_leaves_in_tree(7), 64);
    assert_eq!(number_of_leaves_in_tree(MAX_HEIGHT), 1 << 30);
    assert!(is_odd(7));
    assert!(!is_odd(4));
    assert!(!is_odd(0));
    assert_eq!(split_top_height(1), 1);
    assert_eq!(split_top_height(2), 1);
    assert_eq!(split_top_height(3), 2);
    assert_eq!(split_top_height(4), 2);
    assert_eq!(split_top_height(7), 4);
    assert_eq!(split_top_height(31), 16);
}

#[test]
fn packed_layout_of_eight_keys() {
    let mut array = vec![0i64; 15];
    let mut stream = 0..8i64;
    assert_eq!(layout(&mut array, 0, &mut stream, 4), Ok(0));
    assert_eq!(array, vec![0, 0, 4, 0, 0, 1, 2, 2, 3, 4, 4, 5, 6, 6, 7]);
    assert_eq!(stream.next(), None);
}

#[test]
fn packed_layout_of_small_trees() {
    let mut array = vec![0i64; 1];
    assert_eq!(layout(&mut array, 0, &mut vec![23].into_iter(), 1), Ok(23));
    assert_eq!(array, vec![23]);

    let mut array = vec![0i64; 3];
    assert_eq!(layout(&mut array, 0, &mut vec![10, 16].into_iter(), 2), Ok(10));
    assert_eq!(array, vec![10, 10, 16]);

    let mut array = vec![0i64; 7];
    assert_eq!(layout(&mut array, 0, &mut vec![1, 2, 4, 6].into_iter(), 3), Ok(1));
    assert_eq!(array, vec![1, 1, 4, 1, 2, 4, 6]);
}

#[test]
fn layout_writes_only_its_own_entries() {
    let mut array = vec![-9i64; 11];
    let mut stream = vec![1, 2, 4, 6, 8, 9].into_iter();
    assert_eq!(layout(&mut array, 2, &mut stream, 3), Ok(1));
    assert_eq!(array, vec![-9, -9, 1, 1, 4, 1, 2, 4, 6, -9, -9]);
    assert_eq!(stream.next(), Some(8));
    assert_eq!(stream.next(), Some(9));
}

#[test]
fn layout_reports_a_short_stream() {
    let mut array = vec![0i64; 15];
    let mut stream = 0..7i64;
    assert_eq!(layout(&mut array, 0, &mut stream, 4), Err(BuildError::StreamTooShort));
    let mut array = vec![0i64; 1];
    let mut stream = 0..0i64;
    assert_eq!(layout(&mut array, 0, &mut stream, 1), Err(BuildError::StreamTooShort));
}

#[test]
fn build_errors() {
    assert_eq!(SearchTree::new(0..8i64, 0).err(), Some(BuildError::CountNotPowerOfTwo));
    assert_eq!(SearchTree::new(0..8i64, 3).err(), Some(BuildError::CountNotPowerOfTwo));
    assert_eq!(SearchTree::new(0..8i64, 6).err(), Some(BuildError::CountNotPowerOfTwo));
    assert_eq!(SearchTree::new(0..8i64, 12).err(), Some(BuildError::CountNotPowerOfTwo));
    assert_eq!(SearchTree::new(0..7i64, 8).err(), Some(BuildError::StreamTooShort));
    assert_eq!(SearchTree::new(0..0i64, 1).err(), Some(BuildError::StreamTooShort));
    assert_eq!(SearchTree::new(0..9i64, 8).err(), Some(BuildError::StreamTooLong));
    assert_eq!(SearchTree::new(0..2i64, 1).err(), Some(BuildError::StreamTooLong));
    assert!(SearchTree::new(0..8i64, 8).is_ok());
    assert!(SearchTree::new(0..1i64, 1).is_ok());
    assert!(8 <= MAX_LEAVES);
}

#[test]
fn height_and_leaf_count() {
    for height in 1..=12u16 {
        let count = 1usize << (height - 1);
        let tree = SearchTree::new(0..count as i64, count).unwrap();
        assert_eq!(tree.height(), height);
        assert_eq!(tree.leaf_count(), count);
    }
}

#[test]
fn layout_length() {
    for height in 1..=12u16 {
        let count = 1usize << (height - 1);
        let size = size_of_tree_with_height(height) as usize;
        assert_eq!(size, 2 * count - 1);
        let mut array = vec![0i64; size];
        assert!(layout(&mut array, 0, &mut (0..count as i64), height).is_ok());
        let mut longer = vec![0i64; size + 1];
        longer[size] = -1;
        assert!(layout(&mut longer, 0, &mut (0..count as i64), height).is_ok());
        assert_eq!(&longer[..size], &array[..]);
        assert_eq!(longer[size], -1);
    }
}

#[test]
fn leaves_come_back_in_order() {
    let mut noise = Noise(0x9E3779B97F4A7C15);
    for height in 1..=11u16 {
        let count = 1usize << (height - 1);
        let keys = sorted_keys(&mut noise, count, 5);
        let tree = SearchTree::new(keys.clone().into_iter(), count).unwrap();
        let read: Vec<i64> = (0..count).map(|rank| tree.leaf_at(rank).unwrap()).collect();
        assert_eq!(read, keys);
        assert_eq!(tree.leaf_at(count), None);
        assert_eq!(tree.leaf_at(usize::MAX), None);
    }
}

#[test]
fn leaves_of_an_unsorted_stream_come_back_too() {
    let keys: Vec<i64> = vec![5, 3, 9, 1, 7, 7, 0, 2];
    let tree = SearchTree::new(keys.clone().into_iter(), 8).unwrap();
    let read: Vec<i64> = (0..8).map(|rank| tree.leaf_at(rank).unwrap()).collect();
    assert_eq!(read, keys);
}

#[test]
fn leaf_offsets() {
    assert_eq!(index_of_leaf(1, 0), 0);
    assert_eq!(index_of_leaf(2, 0), 1);
    assert_eq!(index_of_leaf(2, 1), 2);
    assert_eq!((0..4).map(|rank| index_of_leaf(3, rank)).collect::<Vec<i32>>(), vec![3, 4, 5, 6]);
    assert_eq!(
        (0..8).map(|rank| index_of_leaf(4, rank)).collect::<Vec<i32>>(),
        vec![4, 5, 7, 8, 10, 11, 13, 14]
    );
    assert_eq!(index_of_leaf(7, 31), 70);
    assert_eq!(index_of_leaf(MAX_HEIGHT, 0), 65535 + 255 + 15 + 3);
    assert_eq!(index_of_leaf(MAX_HEIGHT, (1 << 30) - 1), i32::MAX - 1);
}

#[test]
fn every_node_holds_the_first_leaf_below_it() {
    let mut noise = Noise(0xD1B54A32D192ED03);
    for height in 1..=10u16 {
        let count = 1usize << (height - 1);
        let keys = sorted_keys(&mut noise, count, 9);
        let size = size_of_tree_with_height(height) as usize;
        let mut array = vec![0i64; size];
        assert_eq!(layout(&mut array, 0, &mut keys.clone().into_iter(), height), Ok(keys[0]));
        // Descend from the root by the split, as the search does, to every
        // node: at depth `d` the node of rank `j` has the leaves from
        // `j * 2^(height-1-d)` on.
        for depth in 0..height {
            for rank in 0..(1usize << depth) {
                let first = rank << (height - 1 - depth);
                let offset = offset_of_node(height, depth, rank);
                assert_eq!(array[offset], keys[first], "height {height} depth {depth} rank {rank}");
                if depth + 1 < height {
                    // The right child holds the smallest key of the right
                    // subtree, and no key on the left exceeds it.
                    let right = offset_of_node(height, depth + 1, 2 * rank + 1);
                    let middle = (2 * rank + 1) << (height - 2 - depth);
                    let end = (rank + 1) << (height - 1 - depth);
                    assert_eq!(array[right], *keys[middle..end].iter().min().unwrap());
                    assert!(keys[first..middle].iter().all(|key| *key <= array[right]));
                }
            }
        }
    }
}

fn offset_of_node(height: u16, depth: u16, rank: usize) -> usize {
    if height == 1 {
        return 0;
    }
    let top = split_top_height(height);
    let bottom = height - top;
    if depth < top {
        return offset_of_node(top, depth, rank);
    }
    let below = depth - top;
    let subtree = rank >> below;
    let within = rank & ((1usize << below) - 1);
    size_of_tree_with_height(top) as usize
        + subtree * size_of_tree_with_height(bottom) as usize
        + offset_of_node(bottom, below, within)
}

#[test]
fn height_four_dense() {
    let tree = SearchTree::new(0..8i64, 8).unwrap();
    assert_eq!(tree.search(2), leaf(7, 2));
    assert_eq!(tree.search(0), leaf(4, 0));
    assert_eq!(tree.search(7), leaf(14, 7));
    assert_eq!(tree.search(-1), SearchTreeIndex::NotInTree);
}

#[test]
fn height_four_gaps() {
    let keys: Vec<i64> = vec![0, 1, 2, 3, 4, 5, 55, 66];
    let tree = SearchTree::new(keys.into_iter(), 8).unwrap();
    assert_eq!(tree.search(58), leaf(13, 6));
    assert_eq!(tree.search(54), leaf(11, 5));
    assert_eq!(tree.search(800), leaf(14, 7));
    assert_eq!(tree.search(-5), SearchTreeIndex::NotInTree);

    let keys: Vec<i64> = vec![1, 2, 3, 4, 5, 57, 77, 78];
    let tree = SearchTree::new(keys.into_iter(), 8).unwrap();
    assert_eq!(tree.search(58), leaf(11, 5));
    assert_eq!(tree.search(800), leaf(14, 7));
    assert_eq!(tree.search(0), SearchTreeIndex::NotInTree);
}

#[test]
fn height_seven() {
    let tree = SearchTree::new(0..64i64, 64).unwrap();
    assert_eq!(tree.height(), 7);
    for query in 0..64i64 {
        assert_eq!(tree.search(query), leaf(index_of_leaf(7, query as i32), query as i32));
    }
    for query in 64..=128i64 {
        assert_eq!(tree.search(query), leaf(index_of_leaf(7, 63), 63));
    }
    assert_eq!(tree.search(39), leaf(84, 39));
}

#[test]
fn height_seven_with_duplicates() {
    let keys: Vec<i64> = (0..64).map(|key| key / 4).collect();
    let tree = SearchTree::new(keys.into_iter(), 64).unwrap();
    for query in 0..16i64 {
        let rank = (4 * query + 3) as i32;
        assert_eq!(tree.search(query), leaf(index_of_leaf(7, rank), rank));
    }
    assert_eq!(tree.search(-1), SearchTreeIndex::NotInTree);
}

#[test]
fn height_two_boundary() {
    let tree = SearchTree::new(vec![10i64, 16].into_iter(), 2).unwrap();
    assert_eq!(tree.search(9), SearchTreeIndex::NotInTree);
    assert_eq!(tree.search(10), leaf(1, 0));
    assert_eq!(tree.search(15), leaf(1, 0));
    assert_eq!(tree.search(16), leaf(2, 1));
    assert_eq!(tree.search(200), leaf(2, 1));
}

#[test]
fn height_one() {
    let tree = SearchTree::new(vec![23i64].into_iter(), 1).unwrap();
    assert_eq!(tree.search(0), SearchTreeIndex::NotInTree);
    assert_eq!(tree.search(23), leaf(0, 0));
    assert_eq!(tree.search(100), leaf(0, 0));
}

#[test]
fn extreme_keys() {
    let keys: Vec<i64> = vec![i64::MIN, -1, 0, i64::MAX];
    let tree = SearchTree::new(keys.into_iter(), 4).unwrap();
    assert_eq!(tree.search(i64::MIN), leaf(3, 0));
    assert_eq!(tree.search(-2), leaf(3, 0));
    assert_eq!(tree.search(i64::MAX - 1), leaf(5, 2));
    assert_eq!(tree.search(i64::MAX), leaf(6, 3));
}

#[test]
fn searching_twice_gives_the_same() {
    let mut noise = Noise(0x2545F4914F6CDD1D);
    let keys = sorted_keys(&mut noise, 256, 7);
    let tree = SearchTree::new(keys.clone().into_iter(), 256).unwrap();
    let copy = SearchTree::new(keys.into_iter(), 256).unwrap();
    for _ in 0..500 {
        let query = noise.below(2000) as i64 - 1100;
        let first = tree.search(query);
        assert_eq!(tree.search(query), first);
        assert_eq!(copy.search(query), first);
    }
}

#[test]
fn search_agrees_with_a_scan() {
    let mut noise = Noise(0x853C49E6748FEA9B);
    for round in 0..40 {
        let height = 1 + (noise.below(11) as u16);
        let count = 1usize << (height - 1);
        let step = if round % 2 == 0 { 3 } else { 50 };
        let keys = sorted_keys(&mut noise, count, step);
        let tree = SearchTree::new(keys.clone().into_iter(), count).unwrap();
        let span = (keys[count - 1] - keys[0] + 20) as u64;
        for _ in 0..250 {
            let query = keys[0] - 10 + noise.below(span) as i64;
            let expected = match scan(&keys, query) {
                None => SearchTreeIndex::NotInTree,
                Some(rank) => leaf(index_of_leaf(height, rank as i32), rank as i32),
            };
            assert_eq!(tree.search(query), expected, "height {height} query {query}");
        }
    }
}

#[test]
fn search_of_a_large_tree() {
    let mut noise = Noise(0xDA942042E4DD58B5);
    let height = 20u16;
    let count = 1usize << (height - 1);
    let keys = sorted_keys(&mut noise, count, 4);
    let tree = SearchTree::new(keys.clone().into_iter(), count).unwrap();
    assert_eq!(tree.height(), height);
    let span = (keys[count - 1] - keys[0] + 20) as u64;
    for _ in 0..10_000 {
        let query = keys[0] - 10 + noise.below(span) as i64;
        let after = keys.partition_point(|key| *key <= query);
        let expected = if after == 0 {
            SearchTreeIndex::NotInTree
        } else {
            let rank = (after - 1) as i32;
            leaf(index_of_leaf(height, rank), rank)
        };
        assert_eq!(tree.search(query), expected);
        if let SearchTreeIndex::Leaf { leaf_number, .. } = expected {
            assert_eq!(tree.leaf_at(leaf_number as usize), Some(keys[leaf_number as usize]));
        }
    }
}

#[test]
fn free_search_on_a_built_array() {
    let keys: Vec<i64> = vec![3, 3, 4, 8, 8, 8, 20, 21, 30, 31, 32, 40, 41, 50, 60, 61];
    let mut array = vec![0i64; 31];
    assert_eq!(layout(&mut array, 0, &mut keys.clone().into_iter(), 5), Ok(3));
    for query in 0..70i64 {
        let expected = match scan(&keys, query) {
            None => Leaf { index: 0, leaf_number: 1 },
            Some(rank) => Leaf { index: index_of_leaf(5, rank as i32), leaf_number: rank as i32 },
        };
        assert_eq!(search_for_lower_bound(query, 5, &array), expected);
    }
}
