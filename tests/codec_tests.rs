use embedding_index::codec::{decode_tree, encode_tree, DecodeError};
use embedding_index::kdtree::KDTree;
use embedding_index::point::{squared_distance, Point};

fn pt(e: &[i32], d: &str) -> Point {
    Point { embedding: e.to_vec(), data: d.to_string() }
}

fn tree_of(points: &[(&[i32], &str)], k: usize) -> KDTree {
    let mut t = KDTree::new(k);
    for (e, d) in points {
        assert_eq!(t.insert(pt(e, d)), Ok(()));
    }
    t
}

#[test]
fn round_trip_keeps_answers() {
    let t = tree_of(
        &[(&[5, -3], "héllo"), (&[1, 9], ""), (&[-7, 2], "c"), (&[5, 5], "d"), (&[0, 0], "日本")],
        2,
    );
    let bytes = encode_tree(&t);
    let back = decode_tree(&bytes).unwrap();
    assert_eq!(back.len(), t.len());
    assert_eq!(back.dimensions(), 2);
    assert_eq!(encode_tree(&back), bytes);
    for x in -8..9 {
        for y in [-4, 0, 6] {
            let q = pt(&[x, y], "");
            let a = t.nearest_neighbor(&q).unwrap();
            let b = back.nearest_neighbor(&q).unwrap();
            assert_eq!(a.data, b.data);
            let ta: Vec<String> = t.nearest_neighbors_topn(&q, 3).unwrap().into_iter().map(|p| p.data).collect();
            let tb: Vec<String> = back.nearest_neighbors_topn(&q, 3).unwrap().into_iter().map(|p| p.data).collect();
            assert_eq!(ta, tb);
            assert_eq!(squared_distance(&a.embedding, &q.embedding), squared_distance(&b.embedding, &q.embedding));
        }
    }
}

#[test]
fn empty_tree_round_trip() {
    let t = KDTree::new(4);
    let bytes = encode_tree(&t);
    assert_eq!(bytes, vec![4, 0, 0, 0, 0, 0, 0, 0, 0]);
    let back = decode_tree(&bytes).unwrap();
    assert_eq!(back.len(), 0);
    assert_eq!(back.dimensions(), 4);
}

#[test]
fn single_node_layout() {
    let t = tree_of(&[(&[-1], "é")], 1);
    let bytes = encode_tree(&t);
    let mut want = vec![1, 0, 0, 0, 0, 0, 0, 0];
    want.push(1);
    want.extend_from_slice(&[0, 0, 0, 0, 0, 0, 0, 0]);
    want.extend_from_slice(&[0xff, 0xff, 0xff, 0xff]);
    want.extend_from_slice(&[2, 0, 0, 0, 0, 0, 0, 0]);
    want.extend_from_slice("é".as_bytes());
    want.push(0);
    want.push(0);
    assert_eq!(bytes, want);
}

#[test]
fn malformed_bytes_are_rejected() {
    let t = tree_of(&[(&[1, 2], "a"), (&[3, 4], "b")], 2);
    let bytes = encode_tree(&t);
    assert_eq!(decode_tree(&bytes[..bytes.len() - 1]).err(), Some(DecodeError::Malformed));
    let mut longer = bytes.clone();
    longer.push(0);
    assert_eq!(decode_tree(&longer).err(), Some(DecodeError::Malformed));
    assert_eq!(decode_tree(&[]).err(), Some(DecodeError::Malformed));
    let zero_dims = vec![0, 0, 0, 0, 0, 0, 0, 0, 0];
    assert_eq!(decode_tree(&zero_dims).err(), Some(DecodeError::Malformed));
    let mut bad_tag = bytes.clone();
    bad_tag[8] = 2;
    assert_eq!(decode_tree(&bad_tag).err(), Some(DecodeError::Malformed));
}

#[test]
fn invalid_text_is_rejected() {
    let t = tree_of(&[(&[1], "ab")], 1);
    let mut bytes = encode_tree(&t);
    let at = bytes.len() - 4;
    bytes[at] = 0xff;
    assert_eq!(decode_tree(&bytes).err(), Some(DecodeError::Malformed));
}

#[test]
fn out_of_order_tree_is_rejected() {
    // A right child placed below its parent on the split axis.
    let t = tree_of(&[(&[5], "p"), (&[7], "q")], 1);
    let mut bytes = encode_tree(&t);
    let good = decode_tree(&bytes).unwrap();
    assert_eq!(good.len(), 2);
    // The child's coordinate sits after: tag, k, tag, axis, coord, len, "p", empty left, tag, axis.
    let child_coord = 8 + 1 + 8 + 4 + 8 + 1 + 1 + 1 + 8;
    bytes[child_coord] = 3;
    assert_eq!(decode_tree(&bytes).err(), Some(DecodeError::Malformed));
}
