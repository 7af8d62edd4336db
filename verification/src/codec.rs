use vstd::prelude::*;

use crate::forest::RandomForest;
use crate::split::Split;
use crate::tree::{DecisionTree, Node};

verus! {

/// Little-endian byte image of a 64-bit word.
pub open spec fn enc_u64(v: u64) -> Seq<u8> {
    seq![
        v as u8,
        (v >> 8) as u8,
        (v >> 16) as u8,
        (v >> 24) as u8,
        (v >> 32) as u8,
        (v >> 40) as u8,
        (v >> 48) as u8,
        (v >> 56) as u8,
    ]
}

/// The word read back from eight little-endian bytes at `pos`.
pub open spec fn dec8(s: Seq<u8>, pos: int) -> u64 {
    (s[pos] as u64) | ((s[pos + 1] as u64) << 8) | ((s[pos + 2] as u64) << 16) | ((s[pos
        + 3] as u64) << 24) | ((s[pos + 4] as u64) << 32) | ((s[pos + 5] as u64) << 40) | ((s[pos
        + 6] as u64) << 48) | ((s[pos + 7] as u64) << 56)
}

/// The byte image of a tree node: a tag byte, the leaf class or the split
/// fields, then the children in preorder.
pub open spec fn enc_node(n: Node) -> Seq<u8>
    decreases n,
{
    match n {
        Node::Leaf { class } => seq![0u8] + enc_u64(class as u64),
        Node::Decision { split, left, right } => seq![1u8] + enc_u64(split.feature_index as u64)
            + enc_u64(split.threshold as u64) + enc_node(*left) + enc_node(*right),
    }
}

/// The byte image of a tree: both hyperparameters, then the optional root.
pub open spec fn enc_tree(t: DecisionTree) -> Seq<u8> {
    enc_u64(t.max_depth as u64) + enc_u64(t.min_samples_split as u64) + (match t.root {
        None => seq![0u8],
        Some(n) => seq![1u8] + enc_node(n),
    })
}

/// The byte images of the member trees, in order.
pub open spec fn enc_trees(s: Seq<DecisionTree>) -> Seq<u8>
    decreases s.len(),
{
    if s.len() == 0 {
        Seq::empty()
    } else {
        enc_trees(s.drop_last()) + enc_tree(s.last())
    }
}

/// The byte image of a whole forest: the three hyperparameters, the member
/// count, then the members.
pub open spec fn enc_forest(f: RandomForest) -> Seq<u8> {
    enc_u64(f.n_trees as u64) + enc_u64(f.max_depth as u64) + enc_u64(f.min_samples_split as u64)
        + enc_u64(f.trees@.len() as u64) + enc_trees(f.trees@)
}

/// Two forests with equal state: the same members and hyperparameters, hence
/// the same predictions on every record.
pub open spec fn forest_eq(a: RandomForest, b: RandomForest) -> bool {
    &&& a.trees@ == b.trees@
    &&& a.n_trees == b.n_trees
    &&& a.max_depth == b.max_depth
    &&& a.min_samples_split == b.min_samples_split
}

/// `bytes` holds exactly `p` starting at `pos`.
pub open spec fn takes(bytes: Seq<u8>, pos: int, p: Seq<u8>) -> bool {
    &&& 0 <= pos
    &&& pos + p.len() <= bytes.len()
    &&& bytes.subrange(pos, pos + p.len() as int) == p
}

pub proof fn lemma_takes_concat(b: Seq<u8>, pos: int, p1: Seq<u8>, p2: Seq<u8>)
    ensures
        takes(b, pos, p1 + p2) <==> (takes(b, pos, p1) && takes(b, pos + p1.len(), p2)),
{
    if takes(b, pos, p1 + p2) {
        assert(b.subrange(pos, pos + p1.len() as int) =~= p1) by {
            assert forall|k: int| 0 <= k < p1.len() implies b[pos + k] == p1[k] by {
                assert(b.subrange(pos, pos + (p1 + p2).len() as int)[k] == (p1 + p2)[k]);
            }
        }
        assert(b.subrange(pos + p1.len(), pos + p1.len() + p2.len() as int) =~= p2) by {
            assert forall|k: int| 0 <= k < p2.len() implies b[pos + p1.len() + k] == p2[k] by {
                assert(b.subrange(pos, pos + (p1 + p2).len() as int)[p1.len() + k] == (p1
                    + p2)[p1.len() + k]);
            }
        }
    }
    if takes(b, pos, p1) && takes(b, pos + p1.len(), p2) {
        assert(b.subrange(pos, pos + (p1 + p2).len() as int) =~= p1 + p2) by {
            assert forall|k: int| 0 <= k < p1.len() + p2.len() implies b.subrange(
                pos,
                pos + (p1 + p2).len() as int,
            )[k] == (p1 + p2)[k] by {
                if k < p1.len() {
                    assert(b.subrange(pos, pos + p1.len() as int)[k] == p1[k]);
                } else {
                    assert(b.subrange(pos + p1.len(), pos + p1.len() + p2.len() as int)[k
                        - p1.len()] == p2[k - p1.len()]);
                }
            }
        }
    }
}

pub proof fn lemma_u64_roundtrip(v: u64)
    ensures
        dec8(enc_u64(v), 0) == v,
{
    let s = enc_u64(v);
    let b0 = s[0];
    let b1 = s[1];
    let b2 = s[2];
    let b3 = s[3];
    let b4 = s[4];
    let b5 = s[5];
    let b6 = s[6];
    let b7 = s[7];
    assert((b0 as u64) | ((b1 as u64) << 8) | ((b2 as u64) << 16) | ((b3 as u64) << 24) | ((
    b4 as u64) << 32) | ((b5 as u64) << 40) | ((b6 as u64) << 48) | ((b7 as u64) << 56) == v)
        by (bit_vector)
        requires
            b0 == v as u8,
            b1 == (v >> 8) as u8,
            b2 == (v >> 16) as u8,
            b3 == (v >> 24) as u8,
            b4 == (v >> 32) as u8,
            b5 == (v >> 40) as u8,
            b6 == (v >> 48) as u8,
            b7 == (v >> 56) as u8,
    ;
}

pub proof fn lemma_u64_reencode(s: Seq<u8>, pos: int)
    requires
        0 <= pos,
        pos + 8 <= s.len(),
    ensures
        enc_u64(dec8(s, pos)) == s.subrange(pos, pos + 8),
{
    let v = dec8(s, pos);
    let b0 = s[pos];
    let b1 = s[pos + 1];
    let b2 = s[pos + 2];
    let b3 = s[pos + 3];
    let b4 = s[pos + 4];
    let b5 = s[pos + 5];
    let b6 = s[pos + 6];
    let b7 = s[pos + 7];
    assert(v as u8 == b0 && (v >> 8) as u8 == b1 && (v >> 16) as u8 == b2 && (v >> 24) as u8 == b3
        && (v >> 32) as u8 == b4 && (v >> 40) as u8 == b5 && (v >> 48) as u8 == b6 && (v
        >> 56) as u8 == b7) by (bit_vector)
        requires
            v == (b0 as u64) | ((b1 as u64) << 8) | ((b2 as u64) << 16) | ((b3 as u64) << 24) | ((
            b4 as u64) << 32) | ((b5 as u64) << 40) | ((b6 as u64) << 48) | ((b7 as u64) << 56),
    ;
    assert(enc_u64(v) =~= s.subrange(pos, pos + 8));
}

pub proof fn lemma_i64_roundtrip(t: i64)
    ensures
        ((t as u64) as i64) == t,
{
    assert(((t as u64) as i64) == t) by (bit_vector);
}

/// Reading eight bytes through `takes` sees the held word.
pub proof fn lemma_dec8_takes(b: Seq<u8>, q: int, s: Seq<u8>)
    requires
        takes(b, q, s),
        s.len() == 8,
    ensures
        dec8(b, q) == dec8(s, 0),
{
    assert forall|k: int| 0 <= k < 8 implies b[q + k] == s[k] by {
        assert(b.subrange(q, q + 8)[k] == b[q + k]);
    }
}

pub proof fn lemma_enc_node_len(n: Node)
    ensures
        enc_node(n).len() >= 9,
        n is Decision ==> enc_node(n).len() >= 35,
    decreases n,
{
    match n {
        Node::Leaf { .. } => {},
        Node::Decision { left, right, .. } => {
            lemma_enc_node_len(*left);
            lemma_enc_node_len(*right);
        },
    }
}

pub proof fn lemma_enc_tree_len(t: DecisionTree)
    ensures
        enc_tree(t).len() >= 17,
        t.root matches Some(n) ==> enc_tree(t).len() == 17 + enc_node(n).len(),
        t.root is None ==> enc_tree(t).len() == 17,
{
    if t.root is Some {
        lemma_enc_node_len(t.root->0);
    }
}

/// Appends the little-endian image of `v`.
fn push_u64(out: &mut Vec<u8>, v: u64)
    ensures
        final(out)@ == old(out)@ + enc_u64(v),
{
    out.push(#[verifier::truncate] (v as u8));
    out.push(#[verifier::truncate] ((v >> 8) as u8));
    out.push(#[verifier::truncate] ((v >> 16) as u8));
    out.push(#[verifier::truncate] ((v >> 24) as u8));
    out.push(#[verifier::truncate] ((v >> 32) as u8));
    out.push(#[verifier::truncate] ((v >> 40) as u8));
    out.push(#[verifier::truncate] ((v >> 48) as u8));
    out.push(#[verifier::truncate] ((v >> 56) as u8));
    proof {
        assert(out@ =~= old(out)@ + enc_u64(v));
    }
}

/// Reads the word held at `pos`.
fn read_u64(bytes: &Vec<u8>, pos: usize) -> (r: u64)
    requires
        pos + 8 <= bytes@.len(),
    ensures
        r == dec8(bytes@, pos as int),
{
    let n = bytes.len();
    proof {
        assert(pos + 8 <= n);
    }
    (bytes[pos] as u64) | ((bytes[pos + 1] as u64) << 8) | ((bytes[pos + 2] as u64) << 16) | ((
    bytes[pos + 3] as u64) << 24) | ((bytes[pos + 4] as u64) << 32) | ((bytes[pos + 5] as u64)
        << 40) | ((bytes[pos + 6] as u64) << 48) | ((bytes[pos + 7] as u64) << 56)
}

/// Appends the image of a node.
fn encode_node(node: &Node, out: &mut Vec<u8>)
    ensures
        final(out)@ == old(out)@ + enc_node(*node),
    decreases *node,
{
    match node {
        Node::Leaf { class } => {
            out.push(0u8);
            push_u64(out, *class as u64);
            proof {
                assert(out@ =~= old(out)@ + enc_node(*node));
            }
        },
        Node::Decision { split, left, right } => {
            out.push(1u8);
            push_u64(out, split.feature_index as u64);
            push_u64(out, #[verifier::truncate] (split.threshold as u64));
            encode_node(left, out);
            encode_node(right, out);
            proof {
                assert(out@ =~= old(out)@ + enc_node(*node));
            }
        },
    }
}

/// Appends the image of a tree.
fn encode_tree(tree: &DecisionTree, out: &mut Vec<u8>)
    ensures
        final(out)@ == old(out)@ + enc_tree(*tree),
{
    push_u64(out, tree.max_depth as u64);
    push_u64(out, tree.min_samples_split as u64);
    match &tree.root {
        None => {
            out.push(0u8);
            proof {
                assert(out@ =~= old(out)@ + enc_tree(*tree));
            }
        },
        Some(node) => {
            out.push(1u8);
            encode_node(node, out);
            proof {
                assert(out@ =~= old(out)@ + enc_tree(*tree));
            }
        },
    }
}

/// Decodes one node starting at `pos`.  What was consumed is exactly the
/// image of the returned node; and whenever an image of some node stands at
/// `pos`, that node is returned.
fn decode_node(bytes: &Vec<u8>, pos: usize) -> (r: Option<(Node, usize)>)
    requires
        pos <= bytes@.len(),
    ensures
        r matches Some(p) ==> (pos as int) < (p.1 as int) <= bytes@.len() && takes(
            bytes@,
            pos as int,
            enc_node(p.0),
        ) && p.1 as int == pos as int + enc_node(p.0).len(),
        forall|n: Node|
            #[trigger] takes(bytes@, pos as int, enc_node(n)) ==> (r matches Some(p) && p.0 == n
                && p.1 as int == pos as int + enc_node(n).len()),
    decreases bytes@.len() - pos,
{
    let rem = bytes.len() - pos;
    if rem < 9 {
        proof {
            assert forall|n: Node| !takes(bytes@, pos as int, enc_node(n)) by {
                lemma_enc_node_len(n);
            }
        }
        return None;
    }
    let tag = bytes[pos];
    if tag == 0 {
        let d = read_u64(bytes, pos + 1);
        proof {
            assert forall|n: Node| #[trigger] takes(bytes@, pos as int, enc_node(n)) implies n
                is Leaf && (n->Leaf_class as u64) == d by {
                lemma_enc_node_len(n);
                assert(bytes@.subrange(pos as int, pos + enc_node(n).len() as int)[0]
                    == enc_node(n)[0]);
                if n is Decision {
                    assert(enc_node(n)[0] == 1u8);
                } else {
                    let c = n->Leaf_class;
                    lemma_takes_concat(bytes@, pos as int, seq![0u8], enc_u64(c as u64));
                    lemma_dec8_takes(bytes@, pos + 1, enc_u64(c as u64));
                    lemma_u64_roundtrip(c as u64);
                }
            }
        }
        if d > (usize::MAX as u64) {
            proof {
                assert forall|n: Node| !takes(bytes@, pos as int, enc_node(n)) by {
                    if takes(bytes@, pos as int, enc_node(n)) {
                        assert((n->Leaf_class as u64) <= usize::MAX as u64);
                    }
                }
            }
            return None;
        }
        let class = d as usize;
        let node = Node::Leaf { class };
        proof {
            lemma_u64_reencode(bytes@, pos + 1);
            assert(bytes@.subrange(pos as int, pos + 1) =~= seq![0u8]);
            lemma_takes_concat(bytes@, pos as int, seq![0u8], enc_u64(d));
            assert(class as u64 == d);
            assert(takes(bytes@, pos as int, enc_node(node)));
        }
        return Some((node, pos + 9));
    }
    if tag != 1 {
        proof {
            assert forall|n: Node| !takes(bytes@, pos as int, enc_node(n)) by {
                if takes(bytes@, pos as int, enc_node(n)) {
                    lemma_enc_node_len(n);
                    assert(bytes@.subrange(pos as int, pos + enc_node(n).len() as int)[0]
                        == enc_node(n)[0]);
                    assert(enc_node(n)[0] == 0u8 || enc_node(n)[0] == 1u8);
                }
            }
        }
        return None;
    }
    // tag == 1: a decision node
    proof {
        assert forall|n: Node| #[trigger] takes(bytes@, pos as int, enc_node(n)) implies n
            is Decision by {
            lemma_enc_node_len(n);
            assert(bytes@.subrange(pos as int, pos + enc_node(n).len() as int)[0]
                == enc_node(n)[0]);
            if n is Leaf {
                assert(enc_node(n)[0] == 0u8);
            }
        }
    }
    if rem < 17 {
        proof {
            assert forall|n: Node| !takes(bytes@, pos as int, enc_node(n)) by {
                lemma_enc_node_len(n);
            }
        }
        return None;
    }
    let fi_raw = read_u64(bytes, pos + 1);
    let th_raw = read_u64(bytes, pos + 9);
    proof {
        assert forall|n: Node| #[trigger] takes(bytes@, pos as int, enc_node(n)) implies {
            &&& (n->Decision_split.feature_index as u64) == fi_raw
            &&& (n->Decision_split.threshold as u64) == th_raw
            &&& takes(bytes@, pos + 17, enc_node(*n->Decision_left) + enc_node(*n->Decision_right))
        } by {
            let s = n->Decision_split;
            let tail = enc_node(*n->Decision_left) + enc_node(*n->Decision_right);
            assert(enc_node(n) == seq![1u8] + enc_u64(s.feature_index as u64) + enc_u64(
                s.threshold as u64,
            ) + enc_node(*n->Decision_left) + enc_node(*n->Decision_right));
            assert(enc_node(n) =~= (seq![1u8] + enc_u64(s.feature_index as u64) + enc_u64(
                s.threshold as u64,
            )) + tail);
            lemma_takes_concat(
                bytes@,
                pos as int,
                seq![1u8] + enc_u64(s.feature_index as u64) + enc_u64(s.threshold as u64),
                tail,
            );
            assert((seq![1u8] + enc_u64(s.feature_index as u64) + enc_u64(s.threshold as u64))
                =~= (seq![1u8] + enc_u64(s.feature_index as u64)) + enc_u64(s.threshold as u64));
            lemma_takes_concat(
                bytes@,
                pos as int,
                seq![1u8] + enc_u64(s.feature_index as u64),
                enc_u64(s.threshold as u64),
            );
            lemma_takes_concat(bytes@, pos as int, seq![1u8], enc_u64(s.feature_index as u64));
            lemma_dec8_takes(bytes@, pos + 1, enc_u64(s.feature_index as u64));
            lemma_u64_roundtrip(s.feature_index as u64);
            lemma_dec8_takes(bytes@, pos + 9, enc_u64(s.threshold as u64));
            lemma_u64_roundtrip(s.threshold as u64);
        }
    }
    if fi_raw > (usize::MAX as u64) {
        proof {
            assert forall|n: Node| !takes(bytes@, pos as int, enc_node(n)) by {
                if takes(bytes@, pos as int, enc_node(n)) {
                    assert((n->Decision_split.feature_index as u64) <= usize::MAX as u64);
                }
            }
        }
        return None;
    }
    let feature_index = fi_raw as usize;
    let threshold = #[verifier::truncate] (th_raw as i64);
    match decode_node(bytes, pos + 17) {
        None => {
            proof {
                assert forall|n: Node| !takes(bytes@, pos as int, enc_node(n)) by {
                    if takes(bytes@, pos as int, enc_node(n)) {
                        let l = *n->Decision_left;
                        let rr = *n->Decision_right;
                        lemma_takes_concat(bytes@, pos + 17, enc_node(l), enc_node(rr));
                    }
                }
            }
            None
        },
        Some((ln, lend)) => {
            match decode_node(bytes, lend) {
                None => {
                    proof {
                        assert forall|n: Node| !takes(bytes@, pos as int, enc_node(n)) by {
                            if takes(bytes@, pos as int, enc_node(n)) {
                                let l = *n->Decision_left;
                                let rr = *n->Decision_right;
                                lemma_takes_concat(bytes@, pos + 17, enc_node(l), enc_node(rr));
                                assert(takes(bytes@, pos + 17, enc_node(l)));
                                assert(ln == l && lend as int == pos + 17 + enc_node(l).len());
                                assert(takes(bytes@, lend as int, enc_node(rr)));
                            }
                        }
                    }
                    None
                },
                Some((rn, rend)) => {
                    let split = Split { feature_index, threshold };
                    let node = Node::Decision {
                        split,
                        left: Box::new(ln),
                        right: Box::new(rn),
                    };
                    proof {
                        // What was consumed is the image of the built node.
                        lemma_i64_roundtrip(threshold);
                        assert(threshold as u64 == th_raw) by (bit_vector)
                            requires threshold == th_raw as i64;
                        lemma_u64_reencode(bytes@, pos + 1);
                        lemma_u64_reencode(bytes@, pos + 9);
                        assert(bytes@.subrange(pos as int, pos + 1) =~= seq![1u8]);
                        lemma_takes_concat(bytes@, pos as int, seq![1u8], enc_u64(fi_raw));
                        lemma_takes_concat(
                            bytes@,
                            pos as int,
                            seq![1u8] + enc_u64(fi_raw),
                            enc_u64(th_raw),
                        );
                        assert((seq![1u8] + enc_u64(fi_raw)) + enc_u64(th_raw) =~= seq![1u8]
                            + enc_u64(fi_raw) + enc_u64(th_raw));
                        lemma_takes_concat(bytes@, pos + 17, enc_node(ln), enc_node(rn));
                        lemma_takes_concat(
                            bytes@,
                            pos as int,
                            seq![1u8] + enc_u64(fi_raw) + enc_u64(th_raw),
                            enc_node(ln) + enc_node(rn),
                        );
                        assert((seq![1u8] + enc_u64(fi_raw) + enc_u64(th_raw)) + (enc_node(ln)
                            + enc_node(rn)) =~= enc_node(node));
                        assert(takes(bytes@, pos as int, enc_node(node)));
                        // And any node whose image stands here is this one.
                        assert forall|n: Node| #[trigger] takes(bytes@, pos as int, enc_node(n))
                            implies n == node by {
                            let l = *n->Decision_left;
                            let rr = *n->Decision_right;
                            lemma_takes_concat(bytes@, pos + 17, enc_node(l), enc_node(rr));
                            assert(takes(bytes@, pos + 17, enc_node(l)));
                            assert(ln == l && lend as int == pos + 17 + enc_node(l).len());
                            assert(takes(bytes@, lend as int, enc_node(rr)));
                            assert(rn == rr);
                            let s = n->Decision_split;
                            assert(s.feature_index == feature_index);
                            let sth = s.threshold;
                            assert((sth as u64) == th_raw);
                            assert(sth == th_raw as i64) by (bit_vector)
                                requires (sth as u64) == th_raw;
                            assert(s == split);
                        }
                    }
                    Some((node, rend))
                },
            }
        },
    }
}

/// Decodes one tree starting at `pos`, with the same two guarantees as
/// `decode_node`: consumed bytes are the image of the result, and any image
/// standing at `pos` decodes to its own tree.
fn decode_tree(bytes: &Vec<u8>, pos: usize) -> (r: Option<(DecisionTree, usize)>)
    requires
        pos <= bytes@.len(),
    ensures
        r matches Some(p) ==> (pos as int) < (p.1 as int) <= bytes@.len() && takes(
            bytes@,
            pos as int,
            enc_tree(p.0),
        ) && p.1 as int == pos as int + enc_tree(p.0).len(),
        forall|t: DecisionTree|
            #[trigger] takes(bytes@, pos as int, enc_tree(t)) ==> (r matches Some(p) && p.0 == t
                && p.1 as int == pos as int + enc_tree(t).len()),
{
    let rem = bytes.len() - pos;
    if rem < 17 {
        proof {
            assert forall|t: DecisionTree| !takes(bytes@, pos as int, enc_tree(t)) by {
                lemma_enc_tree_len(t);
            }
        }
        return None;
    }
    let md_raw = read_u64(bytes, pos);
    let ms_raw = read_u64(bytes, pos + 8);
    proof {
        assert forall|t: DecisionTree| #[trigger] takes(bytes@, pos as int, enc_tree(t)) implies {
            &&& (t.max_depth as u64) == md_raw
            &&& (t.min_samples_split as u64) == ms_raw
            &&& takes(
                bytes@,
                pos + 16,
                match t.root {
                    None => seq![0u8],
                    Some(n) => seq![1u8] + enc_node(n),
                },
            )
        } by {
            let tail = match t.root {
                None => seq![0u8],
                Some(n) => seq![1u8] + enc_node(n),
            };
            assert(enc_tree(t) =~= (enc_u64(t.max_depth as u64) + enc_u64(
                t.min_samples_split as u64,
            )) + tail);
            lemma_takes_concat(
                bytes@,
                pos as int,
                enc_u64(t.max_depth as u64) + enc_u64(t.min_samples_split as u64),
                tail,
            );
            lemma_takes_concat(
                bytes@,
                pos as int,
                enc_u64(t.max_depth as u64),
                enc_u64(t.min_samples_split as u64),
            );
            lemma_dec8_takes(bytes@, pos as int, enc_u64(t.max_depth as u64));
            lemma_u64_roundtrip(t.max_depth as u64);
            lemma_dec8_takes(bytes@, pos + 8, enc_u64(t.min_samples_split as u64));
            lemma_u64_roundtrip(t.min_samples_split as u64);
        }
    }
    if md_raw > (usize::MAX as u64) || ms_raw > (usize::MAX as u64) {
        proof {
            assert forall|t: DecisionTree| !takes(bytes@, pos as int, enc_tree(t)) by {
                if takes(bytes@, pos as int, enc_tree(t)) {
                    assert((t.max_depth as u64) <= usize::MAX as u64);
                    assert((t.min_samples_split as u64) <= usize::MAX as u64);
                }
            }
        }
        return None;
    }
    let max_depth = md_raw as usize;
    let min_samples_split = ms_raw as usize;
    let tag = bytes[pos + 16];
    proof {
        lemma_u64_reencode(bytes@, pos as int);
        lemma_u64_reencode(bytes@, pos + 8);
        assert forall|t: DecisionTree| #[trigger] takes(bytes@, pos as int, enc_tree(t))
            implies (t.root is None <==> bytes@[pos + 16] == 0u8) by {
            let tail = match t.root {
                None => seq![0u8],
                Some(n) => seq![1u8] + enc_node(n),
            };
            assert(bytes@.subrange(pos + 16, pos + 16 + tail.len() as int)[0] == tail[0]);
            if t.root is Some {
                assert(tail[0] == 1u8);
            }
        }
    }
    if tag == 0 {
        let tree = DecisionTree { root: None, max_depth, min_samples_split };
        proof {
            assert(bytes@.subrange(pos + 16, pos + 17) =~= seq![0u8]);
            lemma_takes_concat(bytes@, pos as int, enc_u64(md_raw), enc_u64(ms_raw));
            lemma_takes_concat(bytes@, pos as int, enc_u64(md_raw) + enc_u64(ms_raw), seq![0u8]);
            assert((enc_u64(md_raw) + enc_u64(ms_raw)) + seq![0u8] =~= enc_tree(tree));
            assert(takes(bytes@, pos as int, enc_tree(tree)));
            lemma_enc_tree_len(tree);
            assert forall|t: DecisionTree| #[trigger] takes(bytes@, pos as int, enc_tree(t))
                implies t == tree by {
                assert(t.root is None);
            }
        }
        return Some((tree, pos + 17));
    }
    if tag != 1 {
        proof {
            assert forall|t: DecisionTree| !takes(bytes@, pos as int, enc_tree(t)) by {
                if takes(bytes@, pos as int, enc_tree(t)) {
                    let tail = match t.root {
                        None => seq![0u8],
                        Some(n) => seq![1u8] + enc_node(n),
                    };
                    assert(bytes@.subrange(pos + 16, pos + 16 + tail.len() as int)[0] == tail[0]);
                    assert(tail[0] == 0u8 || tail[0] == 1u8);
                }
            }
        }
        return None;
    }
    proof {
        assert forall|t: DecisionTree| #[trigger] takes(bytes@, pos as int, enc_tree(t)) implies (
        t.root matches Some(n) && takes(bytes@, pos + 17, enc_node(n))) by {
            assert(t.root is Some);
            let n = t.root->0;
            let tail = seq![1u8] + enc_node(n);
            assert(takes(bytes@, pos + 16, tail));
            lemma_takes_concat(bytes@, pos + 16, seq![1u8], enc_node(n));
        }
    }
    match decode_node(bytes, pos + 17) {
        None => {
            proof {
                assert forall|t: DecisionTree| !takes(bytes@, pos as int, enc_tree(t)) by {
                    if takes(bytes@, pos as int, enc_tree(t)) {
                        assert(takes(bytes@, pos + 17, enc_node(t.root->0)));
                    }
                }
            }
            None
        },
        Some((node, e)) => {
            let tree = DecisionTree { root: Some(node), max_depth, min_samples_split };
            proof {
                assert(bytes@.subrange(pos + 16, pos + 17) =~= seq![1u8]);
                lemma_takes_concat(bytes@, pos + 16, seq![1u8], enc_node(node));
                lemma_takes_concat(bytes@, pos as int, enc_u64(md_raw), enc_u64(ms_raw));
                lemma_takes_concat(
                    bytes@,
                    pos as int,
                    enc_u64(md_raw) + enc_u64(ms_raw),
                    seq![1u8] + enc_node(node),
                );
                assert((enc_u64(md_raw) + enc_u64(ms_raw)) + (seq![1u8] + enc_node(node))
                    =~= enc_tree(tree));
                assert(takes(bytes@, pos as int, enc_tree(tree)));
                lemma_enc_tree_len(tree);
                assert forall|t: DecisionTree| #[trigger] takes(bytes@, pos as int, enc_tree(t))
                    implies t == tree by {
                    let n = t.root->0;
                    assert(takes(bytes@, pos + 17, enc_node(n)));
                    assert(n == node);
                    lemma_enc_tree_len(t);
                }
            }
            Some((tree, e))
        },
    }
}

proof fn lemma_enc_trees_take_succ(s: Seq<DecisionTree>, i: int)
    requires
        0 <= i < s.len(),
    ensures
        enc_trees(s.take(i + 1)) == enc_trees(s.take(i)) + enc_tree(s[i]),
{
    assert(s.take(i + 1).drop_last() =~= s.take(i));
    assert(s.take(i + 1).last() == s[i]);
}

/// The images of the members from position `j` on.
spec fn enc_trees_from(s: Seq<DecisionTree>, j: int) -> Seq<u8>
    decreases s.len() - j,
{
    if j < 0 || j >= s.len() {
        Seq::empty()
    } else {
        enc_tree(s[j]) + enc_trees_from(s, j + 1)
    }
}

proof fn lemma_enc_trees_split(s: Seq<DecisionTree>, j: int)
    requires
        0 <= j <= s.len(),
    ensures
        enc_trees(s) == enc_trees(s.take(j)) + enc_trees_from(s, j),
    decreases s.len() - j,
{
    if j == s.len() {
        assert(s.take(j) =~= s);
        assert(enc_trees(s) + Seq::<u8>::empty() =~= enc_trees(s));
    } else {
        lemma_enc_trees_split(s, j + 1);
        lemma_enc_trees_take_succ(s, j);
        assert((enc_trees(s.take(j)) + enc_tree(s[j])) + enc_trees_from(s, j + 1) =~= enc_trees(
            s.take(j),
        ) + (enc_tree(s[j]) + enc_trees_from(s, j + 1)));
    }
}

/// A vector never holds more than `usize::MAX` members.
proof fn lemma_trees_len_bound(f: RandomForest)
    ensures
        f.trees@.len() <= usize::MAX,
{
    broadcast use vstd::std_specs::vec::axiom_spec_len;

    assert(vstd::std_specs::vec::spec_vec_len(&f.trees) == f.trees@.len());
}

/// What the layout of a forest image pins down.
proof fn lemma_forest_fields(b: Seq<u8>, f: RandomForest)
    requires
        b == enc_forest(f),
    ensures
        b.len() == 32 + enc_trees(f.trees@).len(),
        dec8(b, 0) == f.n_trees as u64,
        dec8(b, 8) == f.max_depth as u64,
        dec8(b, 16) == f.min_samples_split as u64,
        dec8(b, 24) == f.trees@.len() as u64,
        takes(b, 32, enc_trees(f.trees@)),
{
    let a = enc_u64(f.n_trees as u64);
    let c = enc_u64(f.max_depth as u64);
    let d = enc_u64(f.min_samples_split as u64);
    let e = enc_u64(f.trees@.len() as u64);
    let tr = enc_trees(f.trees@);
    assert(b =~= (((a + c) + d) + e) + tr);
    assert(b.subrange(0, b.len() as int) =~= b);
    assert(takes(b, 0, (((a + c) + d) + e) + tr));
    lemma_takes_concat(b, 0, ((a + c) + d) + e, tr);
    lemma_takes_concat(b, 0, (a + c) + d, e);
    lemma_takes_concat(b, 0, a + c, d);
    lemma_takes_concat(b, 0, a, c);
    lemma_dec8_takes(b, 0, a);
    lemma_u64_roundtrip(f.n_trees as u64);
    lemma_dec8_takes(b, 8, c);
    lemma_u64_roundtrip(f.max_depth as u64);
    lemma_dec8_takes(b, 16, d);
    lemma_u64_roundtrip(f.min_samples_split as u64);
    lemma_dec8_takes(b, 24, e);
    lemma_u64_roundtrip(f.trees@.len() as u64);
}

impl RandomForest {
    /// The forest's full state as one binary blob; `from_bytes` inverts it.
    pub fn to_bytes(&self) -> (r: Vec<u8>)
        ensures
            r@ == enc_forest(*self),
    {
        let ghost ts = self.trees@;
        let mut out: Vec<u8> = Vec::new();
        push_u64(&mut out, self.n_trees as u64);
        push_u64(&mut out, self.max_depth as u64);
        push_u64(&mut out, self.min_samples_split as u64);
        push_u64(&mut out, self.trees.len() as u64);
        let ghost hdr = out@;
        proof {
            assert(enc_trees(ts.take(0)) =~= Seq::<u8>::empty());
            assert(out@ =~= hdr + enc_trees(ts.take(0)));
        }
        let mut i: usize = 0;
        while i < self.trees.len()
            invariant
                0 <= i <= ts.len(),
                ts == self.trees@,
                hdr == enc_u64(self.n_trees as u64) + enc_u64(self.max_depth as u64) + enc_u64(
                    self.min_samples_split as u64,
                ) + enc_u64(ts.len() as u64),
                out@ == hdr + enc_trees(ts.take(i as int)),
            decreases ts.len() - i,
        {
            encode_tree(&self.trees[i], &mut out);
            proof {
                lemma_enc_trees_take_succ(ts, i as int);
                assert(out@ =~= hdr + enc_trees(ts.take(i + 1)));
            }
            i = i + 1;
        }
        proof {
            assert(ts.take(ts.len() as int) =~= ts);
            assert(out@ =~= enc_forest(*self));
        }
        out
    }

    /// Rebuilds a forest from its binary blob.  Succeeds exactly on images
    /// written by `to_bytes`, and then returns a forest with the same members
    /// and hyperparameters, hence the same predictions on every record.
    #[verifier::rlimit(100)]
    pub fn from_bytes(bytes: &Vec<u8>) -> (r: Option<RandomForest>)
        ensures
            r matches Some(g) ==> bytes@ == enc_forest(g),
            forall|f: RandomForest|
                bytes@ == #[trigger] enc_forest(f) ==> (r matches Some(g) && forest_eq(g, f)),
    {
        let blen = bytes.len();
        if blen < 32 {
            proof {
                assert forall|f: RandomForest| bytes@ != enc_forest(f) by {
                    if bytes@ == enc_forest(f) {
                        lemma_forest_fields(bytes@, f);
                        assert(bytes@.len() >= 32);
                        assert(blen as int == bytes@.len());
                        assert(false);
                    }
                }
            }
            return None;
        }
        let d0 = read_u64(bytes, 0);
        let d1 = read_u64(bytes, 8);
        let d2 = read_u64(bytes, 16);
        let d3 = read_u64(bytes, 24);
        if d0 > (usize::MAX as u64) || d1 > (usize::MAX as u64) || d2 > (usize::MAX as u64) || d3
            > (usize::MAX as u64) {
            proof {
                assert forall|f: RandomForest| bytes@ != enc_forest(f) by {
                    if bytes@ == enc_forest(f) {
                        lemma_forest_fields(bytes@, f);
                        lemma_trees_len_bound(f);
                        assert((f.n_trees as u64) <= usize::MAX as u64);
                        assert((f.max_depth as u64) <= usize::MAX as u64);
                        assert((f.min_samples_split as u64) <= usize::MAX as u64);
                        assert((f.trees@.len() as u64) <= usize::MAX as u64);
                        assert(false);
                    }
                }
            }
            return None;
        }
        let count = d3 as usize;
        let mut trees: Vec<DecisionTree> = Vec::new();
        let mut p: usize = 32;
        proof {
            assert(enc_trees(trees@) =~= Seq::<u8>::empty());
            assert(bytes@.subrange(32, 32) =~= enc_trees(trees@));
            assert forall|f: RandomForest| bytes@ == #[trigger] enc_forest(f) implies (
            f.trees@.len() == count && trees@ == f.trees@.take(0)) by {
                lemma_forest_fields(bytes@, f);
                lemma_trees_len_bound(f);
                assert(f.trees@.len() as u64 == d3);
                assert(f.trees@.take(0) =~= trees@);
            }
        }
        let mut i: usize = 0;
        while i < count
            invariant
                0 <= i <= count,
                blen == bytes@.len(),
                32 <= p <= blen,
                trees@.len() == i,
                takes(bytes@, 32, enc_trees(trees@)),
                p as int == 32 + enc_trees(trees@).len(),
                count as u64 == dec8(bytes@, 24),
                forall|f: RandomForest|
                    bytes@ == #[trigger] enc_forest(f) ==> (f.trees@.len() == count && trees@
                        == f.trees@.take(i as int)),
            decreases count - i,
        {
            let step = decode_tree(bytes, p);
            proof {
                assert forall|f: RandomForest| bytes@ == #[trigger] enc_forest(f) implies (takes(
                    bytes@,
                    p as int,
                    enc_tree(f.trees@[i as int]),
                )) by {
                    lemma_forest_fields(bytes@, f);
                    lemma_enc_trees_split(f.trees@, i as int);
                    assert(enc_trees(f.trees@.take(i as int)) == enc_trees(trees@));
                    lemma_takes_concat(
                        bytes@,
                        32,
                        enc_trees(trees@),
                        enc_trees_from(f.trees@, i as int),
                    );
                    assert(enc_trees_from(f.trees@, i as int) == enc_tree(f.trees@[i as int])
                        + enc_trees_from(f.trees@, i + 1));
                    lemma_takes_concat(
                        bytes@,
                        p as int,
                        enc_tree(f.trees@[i as int]),
                        enc_trees_from(f.trees@, i + 1),
                    );
                }
            }
            match step {
                None => {
                    proof {
                        assert forall|f: RandomForest| bytes@ != enc_forest(f) by {
                            if bytes@ == enc_forest(f) {
                                assert(takes(bytes@, p as int, enc_tree(f.trees@[i as int])));
                            }
                        }
                    }
                    return None;
                },
                Some((t, np)) => {
                    proof {
                        assert(trees@.push(t).drop_last() =~= trees@);
                        assert(enc_trees(trees@.push(t)) == enc_trees(trees@) + enc_tree(t));
                        lemma_takes_concat(bytes@, 32, enc_trees(trees@), enc_tree(t));
                        assert forall|f: RandomForest| bytes@ == #[trigger] enc_forest(f)
                            implies trees@.push(t) == f.trees@.take(i + 1) by {
                            assert(takes(bytes@, p as int, enc_tree(f.trees@[i as int])));
                            assert(t == f.trees@[i as int]);
                            assert(f.trees@.take(i + 1).drop_last() =~= f.trees@.take(i as int));
                            assert(trees@.push(t) =~= f.trees@.take(i + 1));
                        }
                    }
                    trees.push(t);
                    p = np;
                    i = i + 1;
                },
            }
        }
        if p != blen {
            proof {
                assert forall|f: RandomForest| bytes@ != enc_forest(f) by {
                    if bytes@ == enc_forest(f) {
                        lemma_forest_fields(bytes@, f);
                        assert(f.trees@.take(count as int) =~= f.trees@);
                    }
                }
            }
            return None;
        }
        let g = RandomForest {
            trees,
            n_trees: d0 as usize,
            max_depth: d1 as usize,
            min_samples_split: d2 as usize,
        };
        proof {
            lemma_u64_reencode(bytes@, 0);
            lemma_u64_reencode(bytes@, 8);
            lemma_u64_reencode(bytes@, 16);
            lemma_u64_reencode(bytes@, 24);
            assert(g.trees@.len() as u64 == d3);
            assert(takes(bytes@, 0, enc_u64(d0)));
            assert(takes(bytes@, 8 - 8, enc_u64(d0)));
            lemma_takes_concat(bytes@, 0, enc_u64(d0), enc_u64(d1));
            lemma_takes_concat(bytes@, 0, enc_u64(d0) + enc_u64(d1), enc_u64(d2));
            lemma_takes_concat(
                bytes@,
                0,
                (enc_u64(d0) + enc_u64(d1)) + enc_u64(d2),
                enc_u64(d3),
            );
            lemma_takes_concat(
                bytes@,
                0,
                ((enc_u64(d0) + enc_u64(d1)) + enc_u64(d2)) + enc_u64(d3),
                enc_trees(g.trees@),
            );
            assert((((enc_u64(d0) + enc_u64(d1)) + enc_u64(d2)) + enc_u64(d3)) + enc_trees(
                g.trees@,
            ) =~= enc_forest(g));
            assert(takes(bytes@, 0, enc_forest(g)));
            assert(bytes@.subrange(0, bytes@.len() as int) =~= bytes@);
            assert(bytes@ == enc_forest(g));
            assert forall|f: RandomForest| bytes@ == #[trigger] enc_forest(f) implies forest_eq(
                g,
                f,
            ) by {
                lemma_forest_fields(bytes@, f);
                assert(f.trees@.take(count as int) =~= f.trees@);
            }
        }
        Some(g)
    }
}

} // verus!
