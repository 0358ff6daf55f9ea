use vstd::prelude::*;
use vstd::bytes::{
    spec_u32_from_le_bytes, spec_u32_to_le_bytes, spec_u64_from_le_bytes, spec_u64_to_le_bytes,
    lemma_auto_spec_u32_to_from_le_bytes, lemma_auto_spec_u64_to_from_le_bytes, u32_from_le_bytes,
    u32_to_le_bytes, u64_from_le_bytes, u64_to_le_bytes,
};
use vstd::utf8::{encode_utf8, decode_utf8, valid_utf8, encode_utf8_decode_utf8, encode_utf8_valid_utf8};
use vstd::slice::slice_subrange;
use crate::point::{Point, PointView};
use crate::kdtree::{KDTree, Node, points, wf_node, next_axis, same_shape};

verus! {

/// Little-endian bytes of each coordinate, as 32-bit two's complement.
pub open spec fn enc_coords(e: Seq<i32>) -> Seq<u8>
    decreases e.len(),
{
    if e.len() == 0 {
        Seq::empty()
    } else {
        enc_coords(e.drop_last()) + spec_u32_to_le_bytes(e.last() as u32)
    }
}

/// A text payload: its UTF-8 length as eight little-endian bytes, then
/// its UTF-8 bytes.
pub open spec fn enc_text(s: Seq<char>) -> Seq<u8> {
    spec_u64_to_le_bytes(encode_utf8(s).len() as u64) + encode_utf8(s)
}

pub proof fn lemma_enc_coords_len(e: Seq<i32>)
    ensures
        enc_coords(e).len() == 4 * e.len(),
    decreases e.len(),
{
    lemma_auto_spec_u32_to_from_le_bytes();
    if e.len() > 0 {
        lemma_enc_coords_len(e.drop_last());
    }
}

/// Coordinates of a given count are recovered from their bytes.
pub proof fn lemma_enc_coords_injective(a: Seq<i32>, b: Seq<i32>)
    requires
        a.len() == b.len(),
        enc_coords(a) == enc_coords(b),
    ensures
        a == b,
    decreases a.len(),
{
    lemma_auto_spec_u32_to_from_le_bytes();
    if a.len() > 0 {
        let n = a.len();
        lemma_enc_coords_len(a.drop_last());
        lemma_enc_coords_len(b.drop_last());
        let la = enc_coords(a.drop_last());
        let lb = enc_coords(b.drop_last());
        assert(enc_coords(a).subrange(0, la.len() as int) =~= la);
        assert(enc_coords(b).subrange(0, lb.len() as int) =~= lb);
        lemma_enc_coords_injective(a.drop_last(), b.drop_last());
        let ta = spec_u32_to_le_bytes(a.last() as u32);
        let tb = spec_u32_to_le_bytes(b.last() as u32);
        assert(enc_coords(a).subrange(la.len() as int, la.len() + 4 as int) =~= ta);
        assert(enc_coords(b).subrange(lb.len() as int, lb.len() + 4 as int) =~= tb);
        assert(spec_u32_from_le_bytes(ta) == a.last() as u32);
        assert(spec_u32_from_le_bytes(tb) == b.last() as u32);
        let x = a.last();
        let y = b.last();
        assert(x as u32 == y as u32 ==> x == y) by (bit_vector);
        assert(a =~= a.drop_last().push(x));
        assert(b =~= b.drop_last().push(y));
    }
}

/// Appends `src` to `out`.
fn push_all(out: &mut Vec<u8>, src: &[u8])
    ensures
        final(out)@ == old(out)@ + src@,
{
    let mut i: usize = 0;
    while i < src.len()
        invariant
            i <= src@.len(),
            out@ == old(out)@ + src@.subrange(0, i as int),
        decreases src@.len() - i,
    {
        out.push(src[i]);
        i = i + 1;
        assert(out@ =~= old(out)@ + src@.subrange(0, i as int));
    }
    assert(src@.subrange(0, i as int) =~= src@);
}

/// Appends the encoding of a 64-bit integer.
pub fn push_u64(out: &mut Vec<u8>, x: u64)
    ensures
        final(out)@ == old(out)@ + spec_u64_to_le_bytes(x),
{
    let b = u64_to_le_bytes(x);
    push_all(out, b.as_slice());
}

/// Appends the encoding of a sequence of coordinates.
pub fn push_coords(out: &mut Vec<u8>, e: &Vec<i32>)
    ensures
        final(out)@ == old(out)@ + enc_coords(e@),
{
    let mut i: usize = 0;
    while i < e.len()
        invariant
            i <= e@.len(),
            out@ == old(out)@ + enc_coords(e@.subrange(0, i as int)),
        decreases e@.len() - i,
    {
        let b = u32_to_le_bytes(#[verifier::truncate] (e[i] as u32));
        push_all(out, b.as_slice());
        let ghost s = e@.subrange(0, i + 1);
        assert(s.drop_last() =~= e@.subrange(0, i as int));
        i = i + 1;
        assert(out@ =~= old(out)@ + enc_coords(e@.subrange(0, i as int)));
    }
    assert(e@.subrange(0, i as int) =~= e@);
}

/// Appends the encoding of a text payload.
pub fn push_text(out: &mut Vec<u8>, s: &String)
    ensures
        final(out)@ == old(out)@ + enc_text(s@),
{
    let b = s.as_str().as_bytes();
    push_u64(out, b.len() as u64);
    push_all(out, b);
    assert(out@ =~= old(out)@ + enc_text(s@));
}

/// Reads a 64-bit integer at `pos`, if eight bytes remain there.
pub fn read_u64(bytes: &[u8], pos: usize) -> (r: Option<u64>)
    ensures
        r is Some <==> pos + 8 <= bytes@.len(),
        r is Some ==> spec_u64_to_le_bytes(r.unwrap()) == bytes@.subrange(pos as int, pos + 8),
{
    proof {
        lemma_auto_spec_u64_to_from_le_bytes();
    }
    if pos > bytes.len() || bytes.len() - pos < 8 {
        return None;
    }
    let s = slice_subrange(bytes, pos, pos + 8);
    Some(u64_from_le_bytes(s))
}

/// Reads `k` coordinates at `pos`, if `4 * k` bytes remain there.
pub fn read_coords(bytes: &[u8], pos: usize, k: usize) -> (r: Option<Vec<i32>>)
    requires
        pos <= bytes@.len(),
    ensures
        r is Some <==> pos + 4 * k <= bytes@.len(),
        r is Some ==> r.unwrap()@.len() == k && enc_coords(r.unwrap()@) == bytes@.subrange(
            pos as int,
            pos + 4 * k,
        ),
{
    proof {
        lemma_auto_spec_u32_to_from_le_bytes();
    }
    let blen = bytes.len();
    if (blen - pos) / 4 < k {
        return None;
    }
    let mut e: Vec<i32> = Vec::new();
    let mut i: usize = 0;
    while i < k
        invariant
            i <= k,
            pos + 4 * k <= bytes@.len(),
            e@.len() == i,
            enc_coords(e@) == bytes@.subrange(pos as int, pos + 4 * i),
            blen == bytes@.len(),
        decreases k - i,
    {
        assert(4 * i + 4 <= 4 * k) by (nonlinear_arith)
            requires
                i < k,
        ;
        let at = pos + 4 * i;
        let s = slice_subrange(bytes, at, at + 4);
        let x = u32_from_le_bytes(s);
        let ghost before = e@;
        let y: i32 = #[verifier::truncate] (x as i32);
        e.push(y);
        proof {
            assert(((x as i32) as u32) == x) by (bit_vector);
            assert(e@.drop_last() =~= before);
            lemma_auto_spec_u32_to_from_le_bytes();
            assert(spec_u32_to_le_bytes(spec_u32_from_le_bytes(s@)) == s@);
            assert(spec_u32_to_le_bytes(x) == s@);
        }
        i = i + 1;
        assert(enc_coords(e@) =~= bytes@.subrange(pos as int, pos + 4 * i));
    }
    Some(e)
}

/// Relies on `String::from_utf8`: it accepts exactly the well-formed UTF-8
/// byte sequences, and the string it returns holds the characters they
/// encode.
#[verifier::external_body]
fn string_from_utf8(b: Vec<u8>) -> (r: Option<String>)
    ensures
        r is Some <==> valid_utf8(b@),
        r is Some ==> r.unwrap()@ == decode_utf8(b@),
{
    String::from_utf8(b).ok()
}

/// Reads a text payload at `pos`, returning it and the position after it.
pub fn read_text(bytes: &[u8], pos: usize) -> (r: Option<(String, usize)>)
    requires
        pos <= bytes@.len(),
    ensures
        r is Some ==> pos <= r.unwrap().1 <= bytes@.len() && enc_text(r.unwrap().0@)
            == bytes@.subrange(pos as int, r.unwrap().1 as int),
        forall|c: Seq<char>|
            pos + enc_text(c).len() <= bytes@.len() && #[trigger] enc_text(c) == bytes@.subrange(
                pos as int,
                pos + enc_text(c).len(),
            ) ==> r is Some && r.unwrap().0@ == c && r.unwrap().1 == pos + enc_text(c).len(),
{
    proof {
        lemma_auto_spec_u64_to_from_le_bytes();
    }
    let len = match read_u64(bytes, pos) {
        None => {
            assert forall|c: Seq<char>|
                pos + enc_text(c).len() <= bytes@.len() && #[trigger] enc_text(c)
                    == bytes@.subrange(pos as int, pos + enc_text(c).len()) implies false by {
                assert(enc_text(c).len() >= 8);
            }
            return None;
        },
        Some(len) => len,
    };
    let blen = bytes.len();
    assert(pos + 8 <= blen);
    let start = pos + 8;
    let avail: u64 = (bytes.len() - start) as u64;
    if avail < len {
        assert forall|c: Seq<char>|
            pos + enc_text(c).len() <= bytes@.len() && #[trigger] enc_text(c) == bytes@.subrange(
                pos as int,
                pos + enc_text(c).len(),
            ) implies false by {
            let u = encode_utf8(c);
            assert(enc_text(c).subrange(0, 8) =~= spec_u64_to_le_bytes(u.len() as u64));
            assert(bytes@.subrange(pos as int, pos + 8) =~= enc_text(c).subrange(0, 8));
            assert(u.len() as u64 == len);
        }
        return None;
    }
    let end = start + len as usize;
    let s = slice_subrange(bytes, start, end);
    let v = vstd::slice::slice_to_vec(s);
    let ghost bs = bytes@.subrange(start as int, end as int);
    assert(v@ == bs);
    match string_from_utf8(v) {
        None => {
            assert forall|c: Seq<char>|
                pos + enc_text(c).len() <= bytes@.len() && #[trigger] enc_text(c)
                    == bytes@.subrange(pos as int, pos + enc_text(c).len()) implies false by {
                let u = encode_utf8(c);
                assert(enc_text(c).subrange(0, 8) =~= spec_u64_to_le_bytes(u.len() as u64));
                assert(bytes@.subrange(pos as int, pos + 8) =~= enc_text(c).subrange(0, 8));
                assert(u.len() as u64 == len);
                assert(enc_text(c).subrange(8, 8 + u.len() as int) =~= u);
                assert(bs =~= u);
                encode_utf8_valid_utf8(c);
            }
            None
        },
        Some(text) => {
            proof {
                assert(enc_text(text@) =~= bytes@.subrange(pos as int, end as int)) by {
                    assert(bytes@.subrange(pos as int, pos + 8) == spec_u64_to_le_bytes(len));
                    vstd::utf8::decode_utf8_encode_utf8(bs);
                }
                assert forall|c: Seq<char>|
                    pos + enc_text(c).len() <= bytes@.len() && #[trigger] enc_text(c)
                        == bytes@.subrange(pos as int, pos + enc_text(c).len()) implies text@ == c
                    && end == pos + enc_text(c).len() by {
                    let u = encode_utf8(c);
                    assert(enc_text(c).subrange(0, 8) =~= spec_u64_to_le_bytes(u.len() as u64));
                    assert(bytes@.subrange(pos as int, pos + 8) =~= enc_text(c).subrange(0, 8));
                    assert(u.len() as u64 == len);
                    assert(enc_text(c).subrange(8, 8 + u.len() as int) =~= u);
                    assert(bs =~= u);
                    encode_utf8_decode_utf8(c);
                }
            }
            Some((text, end))
        },
    }
}

/// The bytes are not the encoding of a well-formed tree.
#[derive(Debug, PartialEq, Eq, Structural)]
pub enum DecodeError {
    Malformed,
}

/// A subtree in preorder: a zero byte for an absent child; otherwise a one
/// byte, the split axis, the coordinates, the payload, then the left and
/// the right subtree.
pub open spec fn enc_node(node: Option<Box<Node>>) -> Seq<u8>
    decreases node,
{
    match node {
        None => seq![0u8],
        Some(n) => seq![1u8] + spec_u64_to_le_bytes(n.axis as u64) + enc_coords(n.point.embedding@)
            + enc_text(n.point.data@) + enc_node(n.left) + enc_node(n.right),
    }
}

/// A tree: its dimensionality, then its root.
pub open spec fn enc_tree(t: KDTree) -> Seq<u8> {
    spec_u64_to_le_bytes(t.k as u64) + enc_node(t.root)
}

/// A bound on one coordinate inherited from an ancestor: `(axis, value,
/// below)` asks for `e[axis] < value` when `below`, else `e[axis] >= value`.
pub open spec fn meets(e: Seq<i32>, cons: Seq<(usize, i32, bool)>) -> bool {
    forall|i: int|
        0 <= i < cons.len() ==> if (#[trigger] cons[i]).2 {
            e[cons[i].0 as int] < cons[i].1
        } else {
            e[cons[i].0 as int] >= cons[i].1
        }
}

/// `m` is encoded at `pos`, is well-formed at `axis`, and meets `cons`.
pub open spec fn encoded_at(
    bytes: Seq<u8>,
    pos: int,
    m: Option<Box<Node>>,
    axis: nat,
    k: nat,
    cons: Seq<(usize, i32, bool)>,
) -> bool {
    &&& wf_node(m, axis, k)
    &&& forall|p: PointView| #[trigger] points(m).contains(p) ==> meets(p.embedding, cons)
    &&& pos + enc_node(m).len() <= bytes.len()
    &&& bytes.subrange(pos, pos + enc_node(m).len()) == enc_node(m)
}

proof fn lemma_enc_node_len(m: Option<Box<Node>>)
    ensures
        enc_node(m).len() >= 1,
{
}

/// Where each part of an encoded node lies.
proof fn lemma_enc_node_parts(bytes: Seq<u8>, pos: int, m: Option<Box<Node>>)
    requires
        m is Some,
        0 <= pos,
        pos + enc_node(m).len() <= bytes.len(),
        bytes.subrange(pos, pos + enc_node(m).len()) == enc_node(m),
    ensures
        ({
            let n = m.unwrap();
            let coords_at = pos + 9;
            let text_at = coords_at + enc_coords(n.point.embedding@).len();
            let left_at = text_at + enc_text(n.point.data@).len();
            let right_at = left_at + enc_node(n.left).len();
            &&& bytes[pos] == 1u8
            &&& bytes.subrange(pos + 1, coords_at) == spec_u64_to_le_bytes(n.axis as u64)
            &&& bytes.subrange(coords_at, text_at) == enc_coords(n.point.embedding@)
            &&& text_at + enc_text(n.point.data@).len() <= bytes.len()
            &&& bytes.subrange(text_at, text_at + enc_text(n.point.data@).len()) == enc_text(n.point.data@)
            &&& right_at <= bytes.len()
            &&& bytes.subrange(left_at, right_at) == enc_node(n.left)
            &&& right_at + enc_node(n.right).len() == pos + enc_node(m).len()
            &&& bytes.subrange(right_at, right_at + enc_node(n.right).len()) == enc_node(n.right)
        }),
{
    lemma_auto_spec_u64_to_from_le_bytes();
    let n = m.unwrap();
    let e = enc_node(m);
    let a = spec_u64_to_le_bytes(n.axis as u64);
    let c = enc_coords(n.point.embedding@);
    let t = enc_text(n.point.data@);
    let l = enc_node(n.left);
    let r = enc_node(n.right);
    assert(e == seq![1u8] + a + c + t + l + r);
    let cl = c.len() as int;
    let tl = t.len() as int;
    let coords_at = pos + 9;
    let text_at = coords_at + cl;
    let left_at = text_at + tl;
    let right_at = left_at + l.len();
    assert(bytes[pos] == e[0]);
    assert(bytes.subrange(pos + 1, coords_at) =~= e.subrange(1, 9));
    assert(e.subrange(1, 9) =~= a);
    assert(bytes.subrange(coords_at, text_at) =~= e.subrange(9, 9 + cl));
    assert(e.subrange(9, 9 + cl) =~= c);
    assert(bytes.subrange(text_at, left_at) =~= e.subrange(9 + cl, 9 + cl + tl));
    assert(e.subrange(9 + cl, 9 + cl + tl) =~= t);
    assert(bytes.subrange(left_at, right_at) =~= e.subrange(left_at - pos, right_at - pos));
    assert(e.subrange(left_at - pos, right_at - pos) =~= l);
    assert(bytes.subrange(right_at, right_at + r.len()) =~= e.subrange(right_at - pos, right_at - pos + r.len()));
    assert(e.subrange(right_at - pos, right_at - pos + r.len()) =~= r);
}

/// Whether `e` meets every inherited bound.
fn meets_all(e: &Vec<i32>, cons: &Vec<(usize, i32, bool)>) -> (r: bool)
    requires
        forall|i: int| 0 <= i < cons@.len() ==> (#[trigger] cons@[i]).0 < e@.len(),
    ensures
        r == meets(e@, cons@),
{
    let mut i: usize = 0;
    while i < cons.len()
        invariant
            i <= cons@.len(),
            forall|j: int| 0 <= j < cons@.len() ==> (#[trigger] cons@[j]).0 < e@.len(),
            meets(e@, cons@.subrange(0, i as int)),
        decreases cons@.len() - i,
    {
        let (a, v, below) = cons[i];
        let ok = if below {
            e[a] < v
        } else {
            e[a] >= v
        };
        if !ok {
            assert(!meets(e@, cons@) ) by {
                assert(cons@[i as int] == (a, v, below));
            }
            return false;
        }
        proof {
            assert forall|j: int| 0 <= j < i + 1 implies if (#[trigger] cons@.subrange(
                0,
                i + 1,
            )[j]).2 {
                e@[cons@.subrange(0, i + 1)[j].0 as int] < cons@.subrange(0, i + 1)[j].1
            } else {
                e@[cons@.subrange(0, i + 1)[j].0 as int] >= cons@.subrange(0, i + 1)[j].1
            } by {
                if j < i {
                    assert(cons@.subrange(0, i as int)[j] == cons@.subrange(0, i + 1)[j]);
                }
            }
        }
        i = i + 1;
    }
    assert(cons@.subrange(0, i as int) =~= cons@);
    true
}

fn encode_node(node: &Option<Box<Node>>, out: &mut Vec<u8>)
    ensures
        final(out)@ == old(out)@ + enc_node(*node),
    decreases *node,
{
    match node {
        None => {
            out.push(0u8);
            assert(out@ =~= old(out)@ + enc_node(*node));
        },
        Some(n) => {
            out.push(1u8);
            push_u64(out, n.axis as u64);
            push_coords(out, &n.point.embedding);
            push_text(out, &n.point.data);
            encode_node(&n.left, out);
            encode_node(&n.right, out);
            assert(out@ =~= old(out)@ + enc_node(*node));
        },
    }
}

/// The bytes that a tree is stored as.
pub fn encode_tree(tree: &KDTree) -> (r: Vec<u8>)
    ensures
        r@ == enc_tree(*tree),
{
    let mut out: Vec<u8> = Vec::new();
    push_u64(&mut out, tree.k as u64);
    encode_node(&tree.root, &mut out);
    assert(out@ =~= enc_tree(*tree));
    out
}

/// Adding one bound to a list: the old bounds and the new one.
proof fn lemma_meets_push(e: Seq<i32>, c0: Seq<(usize, i32, bool)>, c: (usize, i32, bool))
    ensures
        meets(e, c0.push(c)) <==> (meets(e, c0) && if c.2 {
            e[c.0 as int] < c.1
        } else {
            e[c.0 as int] >= c.1
        }),
{
    let cs = c0.push(c);
    if meets(e, cs) {
        assert(cs[c0.len() as int] == c);
        assert forall|i: int| 0 <= i < c0.len() implies if (#[trigger] c0[i]).2 {
            e[c0[i].0 as int] < c0[i].1
        } else {
            e[c0[i].0 as int] >= c0[i].1
        } by {
            assert(cs[i] == c0[i]);
        }
    }
}

/// The children of a node encoded at `pos` are encoded after its payload,
/// each meeting the bound that the node sets on its side.
proof fn lemma_children_encoded(
    b: Seq<u8>,
    pos: int,
    m: Option<Box<Node>>,
    axis: nat,
    k: nat,
    c0: Seq<(usize, i32, bool)>,
)
    requires
        0 <= pos,
        encoded_at(b, pos, m, axis, k, c0),
        m is Some,
    ensures
        ({
            let n = m.unwrap();
            let split = n.point.embedding@[axis as int];
            let left_at = pos + 9 + 4 * k + enc_text(n.point.data@).len();
            let right_at = left_at + enc_node(n.left).len();
            &&& encoded_at(b, left_at, n.left, next_axis(axis, k), k, c0.push((axis as usize, split, true)))
            &&& encoded_at(
                b,
                right_at,
                n.right,
                next_axis(axis, k),
                k,
                c0.push((axis as usize, split, false)),
            )
            &&& right_at + enc_node(n.right).len() == pos + enc_node(m).len()
        }),
{
    let n = m.unwrap();
    let split = n.point.embedding@[axis as int];
    lemma_enc_node_parts(b, pos, m);
    lemma_enc_coords_len(n.point.embedding@);
    assert forall|p: PointView| #[trigger] points(n.left).contains(p) implies meets(
        p.embedding,
        c0.push((axis as usize, split, true)),
    ) by {
        assert(points(m).contains(p));
        lemma_meets_push(p.embedding, c0, (axis as usize, split, true));
    }
    assert forall|p: PointView| #[trigger] points(n.right).contains(p) implies meets(
        p.embedding,
        c0.push((axis as usize, split, false)),
    ) by {
        assert(points(m).contains(p));
        lemma_meets_push(p.embedding, c0, (axis as usize, split, false));
    }
}

/// A node assembled from a point meeting `c0` and from children meeting
/// `c0` and the node's bound on their side is well-formed and meets `c0`.
proof fn lemma_assembled(
    node: Option<Box<Node>>,
    axis: nat,
    k: nat,
    c0: Seq<(usize, i32, bool)>,
)
    requires
        node is Some,
        axis < k,
        node.unwrap().axis == axis,
        node.unwrap().point.embedding@.len() == k,
        meets(node.unwrap().point.embedding@, c0),
        wf_node(node.unwrap().left, next_axis(axis, k), k),
        wf_node(node.unwrap().right, next_axis(axis, k), k),
        forall|p: PointView| #[trigger]
            points(node.unwrap().left).contains(p) ==> meets(
                p.embedding,
                c0.push((axis as usize, node.unwrap().point.embedding@[axis as int], true)),
            ),
        forall|p: PointView| #[trigger]
            points(node.unwrap().right).contains(p) ==> meets(
                p.embedding,
                c0.push((axis as usize, node.unwrap().point.embedding@[axis as int], false)),
            ),
    ensures
        wf_node(node, axis, k),
        forall|p: PointView| #[trigger] points(node).contains(p) ==> meets(p.embedding, c0),
{
    let n = node.unwrap();
    let split = n.point.embedding@[axis as int];
    assert forall|p: PointView| #[trigger] points(n.left).contains(p) implies p.embedding[axis as int]
        < split by {
        lemma_meets_push(p.embedding, c0, (axis as usize, split, true));
    }
    assert forall|p: PointView| #[trigger] points(n.right).contains(p) implies p.embedding[axis as int]
        >= split by {
        lemma_meets_push(p.embedding, c0, (axis as usize, split, false));
    }
    assert forall|p: PointView| #[trigger] points(node).contains(p) implies meets(p.embedding, c0) by {
        if p != n.point@ {
            assert(points(n.left).add(points(n.right)).contains(p));
            if points(n.left).contains(p) {
                lemma_meets_push(p.embedding, c0, (axis as usize, split, true));
            } else {
                assert(points(n.right).contains(p));
                lemma_meets_push(p.embedding, c0, (axis as usize, split, false));
            }
        }
    }
}

#[verifier::rlimit(100)]
#[verifier::spinoff_prover]
fn decode_node(
    bytes: &[u8],
    pos: usize,
    axis: usize,
    k: usize,
    cons: &mut Vec<(usize, i32, bool)>,
) -> (r: Result<(Option<Box<Node>>, usize, usize), DecodeError>)
    requires
        pos <= bytes@.len(),
        axis < k,
        forall|i: int| 0 <= i < old(cons)@.len() ==> (#[trigger] old(cons)@[i]).0 < k,
    ensures
        final(cons)@ == old(cons)@,
        r is Ok ==> ({
            let (node, end, count) = r.unwrap();
            &&& pos < end <= bytes@.len()
            &&& bytes@.subrange(pos as int, end as int) == enc_node(node)
            &&& wf_node(node, axis as nat, k as nat)
            &&& forall|p: PointView| #[trigger]
                points(node).contains(p) ==> meets(p.embedding, old(cons)@)
            &&& count == points(node).len()
            &&& count <= end - pos
        }),
        forall|m: Option<Box<Node>>|
            #[trigger] encoded_at(bytes@, pos as int, m, axis as nat, k as nat, old(cons)@) ==> {
                &&& r is Ok
                &&& same_shape(r.unwrap().0, m)
                &&& r.unwrap().1 == pos + enc_node(m).len()
            },
    decreases bytes@.len() - pos,
{
    proof {
        lemma_auto_spec_u64_to_from_le_bytes();
    }
    let ghost c0 = cons@;
    let ghost b = bytes@;
    let blen = bytes.len();
    if pos >= blen {
        assert forall|m: Option<Box<Node>>| #[trigger]
            encoded_at(b, pos as int, m, axis as nat, k as nat, c0) implies false by {
            lemma_enc_node_len(m);
        }
        return Err(DecodeError::Malformed);
    }
    let tag = bytes[pos];
    if tag == 0 {
        assert(b.subrange(pos as int, pos + 1) =~= enc_node(None));
        assert forall|m: Option<Box<Node>>| #[trigger]
            encoded_at(b, pos as int, m, axis as nat, k as nat, c0) implies m is None by {
            if m is Some {
                lemma_enc_node_parts(b, pos as int, m);
            }
        }
        return Ok((None, pos + 1, 0));
    }
    if tag != 1 {
        assert forall|m: Option<Box<Node>>| #[trigger]
            encoded_at(b, pos as int, m, axis as nat, k as nat, c0) implies false by {
            if m is Some {
                lemma_enc_node_parts(b, pos as int, m);
            } else {
                assert(b[pos as int] == enc_node(m)[0]);
            }
        }
        return Err(DecodeError::Malformed);
    }
    // Any node encoded here is present.
    assert forall|m: Option<Box<Node>>| #[trigger]
        encoded_at(b, pos as int, m, axis as nat, k as nat, c0) implies m is Some by {
        if m is None {
            assert(b[pos as int] == enc_node(m)[0]);
        }
    }
    let ax = match read_u64(bytes, pos + 1) {
        None => {
            assert forall|m: Option<Box<Node>>| #[trigger]
                encoded_at(b, pos as int, m, axis as nat, k as nat, c0) implies false by {
                lemma_enc_node_parts(b, pos as int, m);
            }
            return Err(DecodeError::Malformed);
        },
        Some(ax) => ax,
    };
    if ax != axis as u64 {
        assert forall|m: Option<Box<Node>>| #[trigger]
            encoded_at(b, pos as int, m, axis as nat, k as nat, c0) implies false by {
            lemma_enc_node_parts(b, pos as int, m);
        }
        return Err(DecodeError::Malformed);
    }
    let coords_at = pos + 9;
    let embedding = match read_coords(bytes, coords_at, k) {
        None => {
            assert forall|m: Option<Box<Node>>| #[trigger]
                encoded_at(b, pos as int, m, axis as nat, k as nat, c0) implies false by {
                lemma_enc_node_parts(b, pos as int, m);
                crate::codec::lemma_enc_coords_len(m.unwrap().point.embedding@);
            }
            return Err(DecodeError::Malformed);
        },
        Some(e) => e,
    };
    proof {
        lemma_enc_coords_len(embedding@);
    }
    let text_at = coords_at + 4 * k;
    // Any node encoded here holds these coordinates.
    assert forall|m: Option<Box<Node>>| #[trigger]
        encoded_at(b, pos as int, m, axis as nat, k as nat, c0) implies m.unwrap().point.embedding@
        == embedding@ by {
        lemma_enc_node_parts(b, pos as int, m);
        lemma_enc_coords_len(m.unwrap().point.embedding@);
        lemma_enc_coords_injective(m.unwrap().point.embedding@, embedding@);
    }
    if !meets_all(&embedding, cons) {
        assert forall|m: Option<Box<Node>>| #[trigger]
            encoded_at(b, pos as int, m, axis as nat, k as nat, c0) implies false by {
            assert(points(m).contains(m.unwrap().point@));
        }
        return Err(DecodeError::Malformed);
    }
    let (data, left_at) = match read_text(bytes, text_at) {
        None => {
            assert forall|m: Option<Box<Node>>| #[trigger]
                encoded_at(b, pos as int, m, axis as nat, k as nat, c0) implies false by {
                lemma_enc_node_parts(b, pos as int, m);
                let c = m.unwrap().point.data@;
                assert(enc_text(c) == b.subrange(text_at as int, text_at + enc_text(c).len()));
            }
            return Err(DecodeError::Malformed);
        },
        Some(x) => x,
    };
    assert forall|m: Option<Box<Node>>| #[trigger]
        encoded_at(b, pos as int, m, axis as nat, k as nat, c0) implies m.unwrap().point.data@
        == data@ && left_at == text_at + enc_text(data@).len() by {
        lemma_enc_node_parts(b, pos as int, m);
        let c = m.unwrap().point.data@;
        assert(enc_text(c) == b.subrange(text_at as int, text_at + enc_text(c).len()));
    }
    let split = embedding[axis];
    let ghost nxt = next_axis(axis as nat, k as nat);
    let next: usize = if axis + 1 >= k {
        0
    } else {
        axis + 1
    };
    let ghost cl = c0.push((axis, split, true));
    cons.push((axis, split, true));
    let left_r = decode_node(bytes, left_at, next, k, cons);
    cons.pop();
    assert(cons@ =~= c0);
    let (left, right_at, nl) = match left_r {
        Err(e) => {
            assert forall|m: Option<Box<Node>>| #[trigger]
                encoded_at(b, pos as int, m, axis as nat, k as nat, c0) implies false by {
                lemma_children_encoded(b, pos as int, m, axis as nat, k as nat, c0);
                lemma_enc_coords_len(m.unwrap().point.embedding@);
            }
            return Err(e);
        },
        Ok(x) => x,
    };
    let ghost cr = c0.push((axis, split, false));
    cons.push((axis, split, false));
    let right_r = decode_node(bytes, right_at, next, k, cons);
    cons.pop();
    assert(cons@ =~= c0);
    let (right, end_at, nr) = match right_r {
        Err(e) => {
            assert forall|m: Option<Box<Node>>| #[trigger]
                encoded_at(b, pos as int, m, axis as nat, k as nat, c0) implies false by {
                lemma_children_encoded(b, pos as int, m, axis as nat, k as nat, c0);
                lemma_enc_coords_len(m.unwrap().point.embedding@);
            }
            return Err(e);
        },
        Ok(x) => x,
    };
    let point = Point { embedding, data };
    let node = Some(Box::new(Node { point, left, right, axis }));
    proof {
        assert(b.subrange(pos as int, end_at as int) =~= enc_node(node)) by {
            assert(b.subrange(pos as int + 1, pos + 9) == spec_u64_to_le_bytes(axis as u64));
            assert(b.subrange(pos as int, end_at as int) =~= seq![1u8] + b.subrange(pos as int + 1, pos + 9)
                + b.subrange(coords_at as int, text_at as int) + b.subrange(text_at as int, left_at as int) + b.subrange(
                left_at as int,
                right_at as int,
            ) + b.subrange(right_at as int, end_at as int));
        }
        lemma_assembled(node, axis as nat, k as nat, c0);
        assert forall|m: Option<Box<Node>>| #[trigger]
            encoded_at(b, pos as int, m, axis as nat, k as nat, c0) implies same_shape(node, m) && end_at
            == pos + enc_node(m).len() by {
            lemma_children_encoded(b, pos as int, m, axis as nat, k as nat, c0);
            lemma_enc_coords_len(m.unwrap().point.embedding@);
        }
    }
    Ok((node, end_at, nl + nr + 1))
}

/// Rebuilds a tree from its stored bytes. Succeeds exactly on the bytes of
/// well-formed trees, and gives back a tree of the same dimensionality and
/// the same shape, holding the same points: storing a tree and reading it
/// back answers every query as the original did.
pub fn decode_tree(bytes: &[u8]) -> (r: Result<KDTree, DecodeError>)
    ensures
        r is Ok ==> r.unwrap().wf() && enc_tree(r.unwrap()) == bytes@,
        forall|t: KDTree| #[trigger] enc_tree(t) == bytes@ && t.wf() ==> {
            &&& r is Ok
            &&& r.unwrap().k == t.k
            &&& same_shape(r.unwrap().root, t.root)
        },
{
    proof {
        lemma_auto_spec_u64_to_from_le_bytes();
    }
    let ghost b = bytes@;
    let k64 = match read_u64(bytes, 0) {
        None => {
            return Err(DecodeError::Malformed);
        },
        Some(x) => x,
    };
    if k64 == 0 || k64 > usize::MAX as u64 {
        assert forall|t: KDTree| #[trigger] enc_tree(t) == b && t.wf() implies false by {
            assert(b.subrange(0, 8) =~= spec_u64_to_le_bytes(t.k as u64));
        }
        return Err(DecodeError::Malformed);
    }
    let k = k64 as usize;
    let mut cons: Vec<(usize, i32, bool)> = Vec::new();
    let ghost c0 = cons@;
    assert forall|t: KDTree| #[trigger] enc_tree(t) == b && t.wf() implies t.k == k && encoded_at(
        b,
        8,
        t.root,
        0,
        k as nat,
        c0,
    ) by {
        assert(b.subrange(0, 8) =~= spec_u64_to_le_bytes(t.k as u64));
        assert(b.subrange(8, b.len() as int) =~= enc_node(t.root));
        assert forall|p: PointView| #[trigger] points(t.root).contains(p) implies meets(
            p.embedding,
            c0,
        ) by {}
    }
    let (root, end, count) = match decode_node(bytes, 8, 0, k, &mut cons) {
        Err(e) => {
            return Err(e);
        },
        Ok(x) => x,
    };
    if end != bytes.len() {
        assert forall|t: KDTree| #[trigger] enc_tree(t) == b && t.wf() implies false by {}
        return Err(DecodeError::Malformed);
    }
    let tree = KDTree { root, k, size: count };
    assert(enc_tree(tree) =~= b) by {
        assert(b.subrange(0, 8) == spec_u64_to_le_bytes(k as u64));
        assert(b =~= b.subrange(0, 8) + b.subrange(8, end as int));
    }
    Ok(tree)
}

} // verus!
