use vstd::prelude::*;
use crate::sstable::index::NodeModel;
use crate::sstable::index_laws::leaves;

verus! {

/// Whether a node of the file starts at `off`.
pub open spec fn has_node<K, V>(nodes: Seq<NodeModel<K, V>>, off: int) -> bool {
    exists|i: int| 0 <= i < nodes.len() && (#[trigger] nodes[i]).offset() == off
}

/// The position, among the nodes of the file, of the one that starts at `off`.
pub open spec fn index_of<K, V>(nodes: Seq<NodeModel<K, V>>, off: int) -> int {
    choose|i: int| 0 <= i < nodes.len() && (#[trigger] nodes[i]).offset() == off
}

/// The value of the first entry at or behind `from` whose key is `key`.
pub open spec fn find_exact<K, V>(kvs: Seq<(K, V)>, key: K, from: int) -> Option<V>
    decreases kvs.len() - from,
{
    if from < 0 || from >= kvs.len() {
        None
    } else if kvs[from].0 == key {
        Some(kvs[from].1)
    } else {
        find_exact(kvs, key, from + 1)
    }
}

/// The position of the last of the first `k` entries whose key is not
/// above `key` in the order `le`; -1 where there is none.
pub open spec fn last_not_above<K>(
    children: Seq<(K, u64)>,
    key: K,
    le: spec_fn(K, K) -> bool,
    k: int,
) -> int
    decreases k,
{
    if k <= 0 || k > children.len() {
        -1
    } else if le(children[k - 1].0, key) {
        k - 1
    } else {
        last_not_above(children, key, le, k - 1)
    }
}

/// What a reader finds for `key` when it starts at the `j`-th node of the
/// file: in a leaf the entry with exactly that key; in a branch it goes on
/// at the child of the last entry whose key is not above `key`, which is a
/// node written before the branch.
pub open spec fn search_from<K, V>(
    nodes: Seq<NodeModel<K, V>>,
    j: int,
    key: K,
    le: spec_fn(K, K) -> bool,
) -> Option<V>
    decreases j,
{
    if j < 0 || j >= nodes.len() {
        None
    } else {
        match nodes[j] {
            NodeModel::Leaf { offset, kvs } => find_exact(kvs, key, 0),
            NodeModel::Branch { offset, children } => {
                let c = last_not_above(children, key, le, children.len() as int);
                if c < 0 {
                    None
                } else if has_node(nodes.take(j), children[c].1 as int) {
                    search_from(nodes, index_of(nodes.take(j), children[c].1 as int), key, le)
                } else {
                    None
                }
            },
        }
    }
}

/// What a reader finds for `key` when it starts at the node at offset `root`.
pub open spec fn search<K, V>(
    nodes: Seq<NodeModel<K, V>>,
    root: u64,
    key: K,
    le: spec_fn(K, K) -> bool,
) -> Option<V> {
    if has_node(nodes, root as int) {
        search_from(nodes, index_of(nodes, root as int), key, le)
    } else {
        None
    }
}

/// Whether the keys of the entries never fall in the order `le`.
pub open spec fn sorted<K, V>(es: Seq<(K, V)>, le: spec_fn(K, K) -> bool) -> bool {
    forall|i: int, j: int| 0 <= i <= j < es.len() ==> le(#[trigger] es[i].0, #[trigger] es[j].0)
}

/// Whether the `c`-th child of a branch may hold `key`: its own key is not
/// above `key`, and `key` is not above the key of the child behind it.
pub open spec fn may_hold<K>(
    children: Seq<(K, u64)>,
    c: int,
    key: K,
    le: spec_fn(K, K) -> bool,
) -> bool {
    le(children[c].0, key) && (c + 1 < children.len() ==> le(key, children[c + 1].0))
}

/// The position of the node at offset `off` among those written before
/// the `j`-th node, or -1 where there is none.
pub open spec fn child_index<K, V>(nodes: Seq<NodeModel<K, V>>, j: int, off: int) -> int {
    let i = index_of(nodes.take(j), off);
    if has_node(nodes.take(j), off) && 0 <= i < j {
        i
    } else {
        -1
    }
}

/// Whether a reader that looks for an entry comes to it when it starts at
/// the `j`-th node of the file, scans a leaf, and in a branch goes on at
/// every child that may hold the key: at the last entry whose key is not
/// above it, and at the siblings in front that share the key or end with it.
pub open spec fn reaches<K, V>(
    nodes: Seq<NodeModel<K, V>>,
    j: int,
    key: K,
    value: V,
    le: spec_fn(K, K) -> bool,
) -> bool
    decreases j,
{
    if j < 0 || j >= nodes.len() {
        false
    } else {
        match nodes[j] {
            NodeModel::Leaf { offset, kvs } => exists|i: int|
                0 <= i < kvs.len() && #[trigger] kvs[i] == (key, value),
            NodeModel::Branch { offset, children } => exists|c: int|
                0 <= c < children.len() && may_hold(children, c, key, le) && {
                    let i = child_index(nodes, j, (#[trigger] children[c]).1 as int);
                    if 0 <= i < j {
                        reaches(nodes, i, key, value, le)
                    } else {
                        false
                    }
                },
        }
    }
}

/// Whether a reader that starts at the node at offset `root` and follows
/// every child that may hold the key comes to the entry.
pub open spec fn search_reaches<K, V>(
    nodes: Seq<NodeModel<K, V>>,
    root: u64,
    key: K,
    value: V,
    le: spec_fn(K, K) -> bool,
) -> bool {
    has_node(nodes, root as int) && reaches(nodes, index_of(nodes, root as int), key, value, le)
}

/// Whether the keys of the entries rise strictly in the order `le`.
pub open spec fn ascending<K, V>(es: Seq<(K, V)>, le: spec_fn(K, K) -> bool) -> bool {
    &&& forall|i: int, j: int| 0 <= i <= j < es.len() ==> le(#[trigger] es[i].0, #[trigger] es[j].0)
    &&& forall|i: int, j: int| 0 <= i < j < es.len() ==> !le(#[trigger] es[j].0, #[trigger] es[i].0)
}

/// Whether the offsets of the nodes rise strictly and lie in the file.
pub open spec fn offsets_rise<K, V>(nodes: Seq<NodeModel<K, V>>, out_len: int) -> bool {
    &&& out_len <= u64::MAX
    &&& forall|i: int| 0 <= i < nodes.len() ==> 0 <= (#[trigger] nodes[i]).offset() < out_len
    &&& forall|i: int, j: int|
        0 <= i < j < nodes.len() ==> (#[trigger] nodes[i]).offset() < (#[trigger] nodes[j]).offset()
}

/// Where offsets rise, the node at an offset is found at its position.
pub proof fn lemma_index_of<K, V>(nodes: Seq<NodeModel<K, V>>, out_len: int, j: int)
    requires
        offsets_rise(nodes, out_len),
        0 <= j < nodes.len(),
    ensures
        has_node(nodes, nodes[j].offset()),
        index_of(nodes, nodes[j].offset()) == j,
{
    let i = index_of(nodes, nodes[j].offset());
    assert(0 <= i < nodes.len() && nodes[i].offset() == nodes[j].offset());
    if i < j {
        assert(nodes[i].offset() < nodes[j].offset());
    }
    if j < i {
        assert(nodes[j].offset() < nodes[i].offset());
    }
}

/// What a reader finds from a node depends on that node and on those
/// written before it alone.
pub proof fn lemma_search_prefix<K, V>(
    a: Seq<NodeModel<K, V>>,
    b: Seq<NodeModel<K, V>>,
    j: int,
    key: K,
    le: spec_fn(K, K) -> bool,
)
    requires
        0 <= j < a.len(),
        j < b.len(),
        a.take(j + 1) == b.take(j + 1),
    ensures
        search_from(a, j, key, le) == search_from(b, j, key, le),
    decreases j,
{
    assert(a[j] == a.take(j + 1)[j]);
    assert(b[j] == b.take(j + 1)[j]);
    assert(a.take(j) =~= a.take(j + 1).take(j));
    assert(b.take(j) =~= b.take(j + 1).take(j));
    match a[j] {
        NodeModel::Leaf { offset, kvs } => {},
        NodeModel::Branch { offset, children } => {
            let c = last_not_above(children, key, le, children.len() as int);
            if c >= 0 && has_node(a.take(j), children[c].1 as int) {
                let i = index_of(a.take(j), children[c].1 as int);
                assert(a.take(i + 1) =~= a.take(j).take(i + 1));
                assert(b.take(i + 1) =~= b.take(j).take(i + 1));
                lemma_search_prefix(a, b, i, key, le);
            }
        },
    }
}

/// In a run of entries with distinct keys, looking for the key of one of
/// them finds that one.
pub proof fn lemma_find_exact<K, V>(kvs: Seq<(K, V)>, q: int, from: int)
    requires
        0 <= from <= q < kvs.len(),
        forall|i: int| 0 <= i < q ==> (#[trigger] kvs[i]).0 != kvs[q].0,
    ensures
        find_exact(kvs, kvs[q].0, from) == Some(kvs[q].1),
    decreases q - from,
{
    if from < q {
        lemma_find_exact(kvs, q, from + 1);
    }
}

/// What a reader comes to from a node, it still comes to when more nodes
/// are written behind that node.
pub proof fn lemma_reaches_grows<K, V>(
    a: Seq<NodeModel<K, V>>,
    b: Seq<NodeModel<K, V>>,
    j: int,
    key: K,
    value: V,
    le: spec_fn(K, K) -> bool,
)
    requires
        0 <= j < a.len(),
        j < b.len(),
        a.take(j + 1) == b.take(j + 1),
        reaches(a, j, key, value, le),
    ensures
        reaches(b, j, key, value, le),
    decreases j,
{
    assert(a[j] == a.take(j + 1)[j]);
    assert(b[j] == b.take(j + 1)[j]);
    assert(a.take(j) =~= a.take(j + 1).take(j));
    assert(b.take(j) =~= b.take(j + 1).take(j));
    match a[j] {
        NodeModel::Leaf { offset, kvs } => {},
        NodeModel::Branch { offset, children } => {
            let c = choose|c: int|
                0 <= c < children.len() && may_hold(children, c, key, le) && {
                    let i = child_index(a, j, (#[trigger] children[c]).1 as int);
                    if 0 <= i < j {
                        reaches(a, i, key, value, le)
                    } else {
                        false
                    }
                };
            let i = child_index(a, j, children[c].1 as int);
            assert(a.take(i + 1) =~= a.take(j).take(i + 1));
            assert(b.take(i + 1) =~= b.take(j).take(i + 1));
            lemma_reaches_grows(a, b, i, key, value, le);
            assert(child_index(b, j, children[c].1 as int) == i);
        },
    }
}

/// A branch's entries still point at the nodes before it when more nodes
/// are written behind it.
pub proof fn lemma_linked_grows<K, V>(a: Seq<NodeModel<K, V>>, b: Seq<NodeModel<K, V>>, j: int)
    requires
        0 <= j < a.len(),
        j < b.len(),
        a.take(j + 1) == b.take(j + 1),
        node_linked(a, j),
    ensures
        node_linked(b, j),
{
    assert(a[j] == a.take(j + 1)[j]);
    assert(b[j] == b.take(j + 1)[j]);
    assert(a.take(j) =~= a.take(j + 1).take(j));
    assert(b.take(j) =~= b.take(j + 1).take(j));
    match a[j] {
        NodeModel::Leaf { offset, kvs } => {},
        NodeModel::Branch { offset, children } => {
            assert forall|c: int| 0 <= c < children.len() implies {
                let i = child_index(b, j, (#[trigger] children[c]).1 as int);
                0 <= i < j && b[i].offset() == children[c].1 as int && b[i].first_key()
                    == children[c].0
            } by {
                let i = child_index(a, j, children[c].1 as int);
                assert(a[i] == a.take(j + 1)[i]);
                assert(b[i] == b.take(j + 1)[i]);
            }
        },
    }
}

/// Which part of the inserted entries each node stands for: the `j`-th
/// node for those from `lo[j]` up to, not including, `hi[j]`; and at which
/// node each pending entry points: the `t`-th at node `at[t]`.
pub struct Cover {
    pub lo: Seq<int>,
    pub hi: Seq<int>,
    pub at: Seq<int>,
}

/// Whether a reader that starts at the `j`-th node comes to each of the
/// entries that the node stands for.
pub open spec fn node_reached<K, V>(
    nodes: Seq<NodeModel<K, V>>,
    c: Cover,
    le: spec_fn(K, K) -> bool,
    j: int,
) -> bool {
    forall|p: int|
        c.lo[j] <= p < c.hi[j] ==> reaches(
            nodes,
            j,
            (#[trigger] leaves(nodes)[p]).0,
            leaves(nodes)[p].1,
            le,
        )
}

/// Whether a reader that starts at the `j`-th node and follows the last
/// entry not above the key finds each of the entries that the node stands
/// for.
pub open spec fn node_found<K, V>(
    nodes: Seq<NodeModel<K, V>>,
    c: Cover,
    le: spec_fn(K, K) -> bool,
    j: int,
) -> bool {
    forall|p: int|
        c.lo[j] <= p < c.hi[j] ==> search_from(nodes, j, (#[trigger] leaves(nodes)[p]).0, le)
            == Some(leaves(nodes)[p].1)
}

/// Whether every entry of the `j`-th node, where that is a branch, holds
/// the offset and the first key of a node that was written before it.
pub open spec fn node_linked<K, V>(nodes: Seq<NodeModel<K, V>>, j: int) -> bool {
    match nodes[j] {
        NodeModel::Leaf { offset, kvs } => true,
        NodeModel::Branch { offset, children } => forall|c: int|
            0 <= c < children.len() ==> {
                let i = child_index(nodes, j, (#[trigger] children[c]).1 as int);
                0 <= i < j && nodes[i].offset() == children[c].1 as int && nodes[i].first_key()
                    == children[c].0
            },
    }
}

/// Whether the `j`-th node stands for a part of the inserted entries, has
/// the key of the first of them as its first key, and a reader that starts
/// at it comes to each of them: always where it follows every child that
/// may hold the key, and on the one path to the last entry not above the
/// key where the keys rise strictly.
pub open spec fn node_covered<K, V>(
    nodes: Seq<NodeModel<K, V>>,
    c: Cover,
    le: spec_fn(K, K) -> bool,
    j: int,
) -> bool {
    &&& 0 <= c.lo[j] < c.hi[j] <= leaves(nodes).len()
    &&& nodes[j].first_key() == leaves(nodes)[c.lo[j]].0
    &&& node_linked(nodes, j)
    &&& node_reached(nodes, c, le, j)
    &&& ascending(leaves(nodes), le) ==> node_found(nodes, c, le, j)
}

/// Whether every node is covered, offsets rise, and the keys of the entries
/// in the leaves never fall.
pub open spec fn nodes_covered<K, V>(
    nodes: Seq<NodeModel<K, V>>,
    out_len: int,
    c: Cover,
    le: spec_fn(K, K) -> bool,
) -> bool {
    &&& offsets_rise(nodes, out_len)
    &&& c.lo.len() == nodes.len()
    &&& c.hi.len() == nodes.len()
    &&& sorted(leaves(nodes), le)
    &&& forall|j: int| 0 <= j < nodes.len() ==> #[trigger] node_covered(nodes, c, le, j)
}

/// Whether the `t`-th pending entry holds the offset and the first key of
/// the node it points at.
pub open spec fn entry_at<K, V>(
    nodes: Seq<NodeModel<K, V>>,
    flat: Seq<(K, u64)>,
    c: Cover,
    t: int,
) -> bool {
    &&& 0 <= c.at[t] < nodes.len()
    &&& nodes[c.at[t]].offset() == flat[t].1 as int
    &&& nodes[c.at[t]].first_key() == flat[t].0
}

/// Whether the pending entries, in order, stand for all the entries in the
/// leaves: the first from the first entry on, each from where the one
/// before it ends, the last up to the last entry.
pub open spec fn chain_covered<K, V>(
    nodes: Seq<NodeModel<K, V>>,
    flat: Seq<(K, u64)>,
    c: Cover,
) -> bool {
    &&& c.at.len() == flat.len()
    &&& forall|t: int| 0 <= t < flat.len() ==> #[trigger] entry_at(nodes, flat, c, t)
    &&& forall|t: int| 0 <= t < flat.len() - 1 ==> c.hi[#[trigger] c.at[t]] == c.lo[c.at[t + 1]]
    &&& flat.len() > 0 ==> c.lo[c.at[0]] == 0 && c.hi[c.at[flat.len() - 1]] == leaves(nodes).len()
    &&& flat.len() == 0 ==> leaves(nodes).len() == 0
}

/// Whether every node is covered and the pending entries stand for all
/// the entries in the leaves.
pub closed spec fn covered<K, V>(
    nodes: Seq<NodeModel<K, V>>,
    out_len: int,
    flat: Seq<(K, u64)>,
    c: Cover,
    le: spec_fn(K, K) -> bool,
) -> bool {
    nodes_covered(nodes, out_len, c, le) && chain_covered(nodes, flat, c)
}

/// Writing a leaf keeps everything covered; the leaf's entry joins the
/// pending entries as their last.
pub proof fn lemma_leaf_covered<K, V>(
    nodes: Seq<NodeModel<K, V>>,
    out_len: int,
    flat: Seq<(K, u64)>,
    c: Cover,
    le: spec_fn(K, K) -> bool,
    leaf: Seq<(K, V)>,
    new_len: int,
) -> (c2: Cover)
    requires
        covered(nodes, out_len, flat, c, le),
        leaf.len() >= 1,
        sorted(leaves(nodes) + leaf, le),
        0 <= out_len < new_len <= u64::MAX,
    ensures
        covered(
            nodes.push(NodeModel::Leaf { offset: out_len, kvs: leaf }),
            new_len,
            flat.push((leaf[0].0, out_len as u64)),
            c2,
            le,
        ),
        leaves(nodes.push(NodeModel::Leaf { offset: out_len, kvs: leaf })) == leaves(nodes) + leaf,
{
    let n = nodes.len() as int;
    let es = leaves(nodes);
    let l = es.len() as int;
    let nodes2 = nodes.push(NodeModel::Leaf { offset: out_len, kvs: leaf });
    let flat2 = flat.push((leaf[0].0, out_len as u64));
    let c2 = Cover { lo: c.lo.push(l), hi: c.hi.push(l + leaf.len()), at: c.at.push(n) };
    assert(nodes2.drop_last() =~= nodes);
    let es2 = leaves(nodes2);
    assert(es2 == es + leaf);
    assert(sorted(es, le)) by {
        assert forall|i: int, j: int| 0 <= i <= j < es.len() implies le(
            #[trigger] es[i].0,
            #[trigger] es[j].0,
        ) by {
            assert(es2[i] == es[i] && es2[j] == es[j]);
        }
    }
    if ascending(es2, le) {
        assert(ascending(es, le)) by {
            assert forall|i: int, j: int| 0 <= i <= j < es.len() implies le(
                #[trigger] es[i].0,
                #[trigger] es[j].0,
            ) by {
                assert(es2[i] == es[i] && es2[j] == es[j]);
            }
            assert forall|i: int, j: int| 0 <= i < j < es.len() implies !le(
                #[trigger] es[j].0,
                #[trigger] es[i].0,
            ) by {
                assert(es2[i] == es[i] && es2[j] == es[j]);
            }
        }
    }
    assert forall|j: int| 0 <= j < nodes2.len() implies #[trigger] node_covered(
        nodes2,
        c2,
        le,
        j,
    ) by {
        if j < n {
            assert(node_covered(nodes, c, le, j));
            assert(nodes2.take(j + 1) =~= nodes.take(j + 1));
            assert(node_linked(nodes2, j)) by {
                lemma_linked_grows(nodes, nodes2, j);
            }
            assert forall|p: int| c2.lo[j] <= p < c2.hi[j] implies reaches(
                nodes2,
                j,
                (#[trigger] es2[p]).0,
                es2[p].1,
                le,
            ) by {
                assert(es2[p] == es[p]);
                lemma_reaches_grows(nodes, nodes2, j, es[p].0, es[p].1, le);
            }
            if ascending(es2, le) {
                assert forall|p: int| c2.lo[j] <= p < c2.hi[j] implies search_from(
                    nodes2,
                    j,
                    (#[trigger] es2[p]).0,
                    le,
                ) == Some(es2[p].1) by {
                    lemma_search_prefix(nodes2, nodes, j, es2[p].0, le);
                    assert(es2[p] == es[p]);
                }
            }
        } else {
            assert forall|p: int| c2.lo[j] <= p < c2.hi[j] implies reaches(
                nodes2,
                j,
                (#[trigger] es2[p]).0,
                es2[p].1,
                le,
            ) by {
                let q = p - l;
                assert(es2[p] == leaf[q]);
                assert(leaf[q] == (es2[p].0, es2[p].1));
            }
            if ascending(es2, le) {
                assert forall|p: int| c2.lo[j] <= p < c2.hi[j] implies search_from(
                    nodes2,
                    j,
                    (#[trigger] es2[p]).0,
                    le,
                ) == Some(es2[p].1) by {
                    let q = p - l;
                    assert(es2[p] == leaf[q]);
                    assert forall|i: int| 0 <= i < q implies (#[trigger] leaf[i]).0 != leaf[q].0 by {
                        assert(es2[l + i] == leaf[i]);
                        assert(le(es2[l + i].0, es2[l + i].0));
                        assert(!le(es2[p].0, es2[l + i].0));
                    }
                    lemma_find_exact(leaf, q, 0);
                }
            }
            assert(es2[l] == leaf[0]);
        }
    }
    assert forall|t: int| 0 <= t < flat2.len() implies #[trigger] entry_at(nodes2, flat2, c2, t) by {
        if t < flat.len() {
            assert(entry_at(nodes, flat, c, t));
        }
    }
    assert forall|t: int| 0 <= t < flat2.len() - 1 implies c2.hi[#[trigger] c2.at[t]] == c2.lo[c2.at[t
        + 1]] by {
        assert(entry_at(nodes, flat, c, t));
        if t + 1 < flat.len() {
            assert(entry_at(nodes, flat, c, t + 1));
            assert(c.hi[c.at[t]] == c.lo[c.at[t + 1]]);
        }
    }
    if flat.len() > 0 {
        assert(entry_at(nodes, flat, c, 0));
    }
    c2
}

/// In a run of pending entries, each begins where the one before it ends,
/// so a later one begins no earlier than an earlier one ends.
proof fn lemma_run_rises<K, V>(
    nodes: Seq<NodeModel<K, V>>,
    out_len: int,
    flat: Seq<(K, u64)>,
    c: Cover,
    le: spec_fn(K, K) -> bool,
    t: int,
    s: int,
)
    requires
        covered(nodes, out_len, flat, c, le),
        0 <= t < s < flat.len(),
    ensures
        c.hi[c.at[t]] <= c.lo[c.at[s]],
    decreases s - t,
{
    assert(entry_at(nodes, flat, c, s));
    assert(entry_at(nodes, flat, c, s - 1));
    assert(node_covered(nodes, c, le, c.at[s - 1]));
    assert(c.hi[c.at[s - 1]] == c.lo[c.at[s - 1 + 1]]);
    if t < s - 1 {
        lemma_run_rises(nodes, out_len, flat, c, le, t, s - 1);
    }
}

/// Among the pending entries from `a` up to `b`, the one that stands for
/// the `p`-th inserted entry.
proof fn lemma_locate<K, V>(
    nodes: Seq<NodeModel<K, V>>,
    out_len: int,
    flat: Seq<(K, u64)>,
    c: Cover,
    le: spec_fn(K, K) -> bool,
    a: int,
    b: int,
    p: int,
) -> (t: int)
    requires
        covered(nodes, out_len, flat, c, le),
        0 <= a < b <= flat.len(),
        c.lo[c.at[a]] <= p < c.hi[c.at[b - 1]],
    ensures
        a <= t < b,
        c.lo[c.at[t]] <= p < c.hi[c.at[t]],
    decreases b - a,
{
    if p < c.hi[c.at[a]] {
        a
    } else {
        assert(c.hi[c.at[a]] == c.lo[c.at[a + 1]]);
        lemma_locate(nodes, out_len, flat, c, le, a + 1, b, p)
    }
}

/// Where the `t`-th key is not above `key` and every later one is, the
/// last key not above `key` is the `t`-th.
proof fn lemma_last_not_above<K>(
    children: Seq<(K, u64)>,
    key: K,
    le: spec_fn(K, K) -> bool,
    k: int,
    t: int,
)
    requires
        0 <= t < k <= children.len(),
        le(children[t].0, key),
        forall|s: int| t < s < children.len() ==> !le((#[trigger] children[s]).0, key),
    ensures
        last_not_above(children, key, le, k) == t,
    decreases k,
{
    if k - 1 > t {
        lemma_last_not_above(children, key, le, k - 1, t);
    }
}

/// The cover after a branch was written over the pending entries from `a`
/// up to `b`, as the `n`-th node.
pub open spec fn branch_cover(c: Cover, n: int, a: int, b: int) -> Cover {
    Cover {
        lo: c.lo.push(c.lo[c.at[a]]),
        hi: c.hi.push(c.hi[c.at[b - 1]]),
        at: c.at.take(a) + seq![n] + c.at.skip(b),
    }
}

/// A reader that starts at a branch over the pending entries from `a` up to
/// `b` finds every entry that those stand for.
proof fn lemma_branch_finds<K, V>(
    nodes: Seq<NodeModel<K, V>>,
    out_len: int,
    flat: Seq<(K, u64)>,
    c: Cover,
    le: spec_fn(K, K) -> bool,
    a: int,
    b: int,
    p: int,
)
    requires
        covered(nodes, out_len, flat, c, le),
        ascending(leaves(nodes), le),
        0 <= a < b <= flat.len(),
        c.lo[c.at[a]] <= p < c.hi[c.at[b - 1]],
    ensures
        0 <= p < leaves(nodes).len(),
        search_from(
            nodes.push(NodeModel::Branch { offset: out_len, children: flat.subrange(a, b) }),
            nodes.len() as int,
            leaves(nodes)[p].0,
            le,
        ) == Some(leaves(nodes)[p].1),
{
    let n = nodes.len() as int;
    let es = leaves(nodes);
    let mid = flat.subrange(a, b);
    let nodes2 = nodes.push(NodeModel::Branch { offset: out_len, children: mid });
    assert(nodes2.take(n) =~= nodes);
    let t = lemma_locate(nodes, out_len, flat, c, le, a, b, p);
    assert(entry_at(nodes, flat, c, t));
    let i = c.at[t];
    assert(node_covered(nodes, c, le, i));
    let key = es[p].0;
    assert(mid[t - a] == flat[t]);
    assert(le(es[c.lo[i]].0, es[p].0));
    assert forall|s: int| t - a < s < mid.len() implies !le((#[trigger] mid[s]).0, key) by {
        let u = a + s;
        assert(mid[s] == flat[u]);
        assert(entry_at(nodes, flat, c, u));
        assert(node_covered(nodes, c, le, c.at[u]));
        lemma_run_rises(nodes, out_len, flat, c, le, t, u);
        assert(!le(es[c.lo[c.at[u]]].0, es[p].0));
    }
    lemma_last_not_above(mid, key, le, mid.len() as int, t - a);
    lemma_index_of(nodes, out_len, i);
    assert(nodes2.take(i + 1) =~= nodes.take(i + 1));
    lemma_search_prefix(nodes2, nodes, i, key, le);
    assert(search_from(nodes, i, es[p].0, le) == Some(es[p].1));
}

/// A reader that starts at a branch over the pending entries from `a` up to
/// `b` and follows every child that may hold the key comes to every entry
/// that those stand for.
proof fn lemma_branch_reaches<K, V>(
    nodes: Seq<NodeModel<K, V>>,
    out_len: int,
    flat: Seq<(K, u64)>,
    c: Cover,
    le: spec_fn(K, K) -> bool,
    a: int,
    b: int,
    p: int,
)
    requires
        covered(nodes, out_len, flat, c, le),
        0 <= a < b <= flat.len(),
        c.lo[c.at[a]] <= p < c.hi[c.at[b - 1]],
    ensures
        0 <= p < leaves(nodes).len(),
        reaches(
            nodes.push(NodeModel::Branch { offset: out_len, children: flat.subrange(a, b) }),
            nodes.len() as int,
            leaves(nodes)[p].0,
            leaves(nodes)[p].1,
            le,
        ),
{
    let n = nodes.len() as int;
    let es = leaves(nodes);
    let mid = flat.subrange(a, b);
    let nodes2 = nodes.push(NodeModel::Branch { offset: out_len, children: mid });
    assert(nodes2.take(n) =~= nodes);
    let t = lemma_locate(nodes, out_len, flat, c, le, a, b, p);
    assert(entry_at(nodes, flat, c, t));
    let i = c.at[t];
    assert(node_covered(nodes, c, le, i));
    let key = es[p].0;
    let d = t - a;
    assert(mid[d] == flat[t]);
    assert(le(es[c.lo[i]].0, es[p].0));
    if d + 1 < mid.len() {
        assert(mid[d + 1] == flat[t + 1]);
        assert(entry_at(nodes, flat, c, t + 1));
        assert(node_covered(nodes, c, le, c.at[t + 1]));
        assert(c.hi[c.at[t]] == c.lo[c.at[t + 1]]);
        assert(le(es[p].0, es[c.lo[c.at[t + 1]]].0));
    }
    assert(may_hold(mid, d, key, le));
    lemma_index_of(nodes, out_len, i);
    assert(nodes2.take(i + 1) =~= nodes.take(i + 1));
    assert(reaches(nodes, i, es[p].0, es[p].1, le));
    lemma_reaches_grows(nodes, nodes2, i, key, es[p].1, le);
    assert(child_index(nodes2, n, mid[d].1 as int) == i);
    assert(nodes2[n]->children == mid);
}

/// The entries of a branch over the pending entries from `a` up to `b`
/// point at nodes that were written before it.
proof fn lemma_branch_linked<K, V>(
    nodes: Seq<NodeModel<K, V>>,
    out_len: int,
    flat: Seq<(K, u64)>,
    c: Cover,
    le: spec_fn(K, K) -> bool,
    a: int,
    b: int,
)
    requires
        covered(nodes, out_len, flat, c, le),
        0 <= a < b <= flat.len(),
    ensures
        node_linked(
            nodes.push(NodeModel::Branch { offset: out_len, children: flat.subrange(a, b) }),
            nodes.len() as int,
        ),
{
    let n = nodes.len() as int;
    let mid = flat.subrange(a, b);
    let nodes2 = nodes.push(NodeModel::Branch { offset: out_len, children: mid });
    assert(nodes2.take(n) =~= nodes);
    assert(nodes2[n]->children == mid);
    assert forall|d: int| 0 <= d < mid.len() implies {
        let i = child_index(nodes2, n, (#[trigger] mid[d]).1 as int);
        0 <= i < n && nodes2[i].offset() == mid[d].1 as int && nodes2[i].first_key() == mid[d].0
    } by {
        assert(mid[d] == flat[a + d]);
        assert(entry_at(nodes, flat, c, a + d));
        let i = c.at[a + d];
        lemma_index_of(nodes, out_len, i);
        assert(nodes2[i] == nodes[i]);
    }
}

/// Writing a branch over pending entries keeps a node that was there covered.
proof fn lemma_branch_keeps_node<K, V>(
    nodes: Seq<NodeModel<K, V>>,
    out_len: int,
    flat: Seq<(K, u64)>,
    c: Cover,
    le: spec_fn(K, K) -> bool,
    a: int,
    b: int,
    j: int,
)
    requires
        covered(nodes, out_len, flat, c, le),
        0 <= a < b <= flat.len(),
        0 <= j < nodes.len(),
    ensures
        node_covered(
            nodes.push(NodeModel::Branch { offset: out_len, children: flat.subrange(a, b) }),
            branch_cover(c, nodes.len() as int, a, b),
            le,
            j,
        ),
{
    let n = nodes.len() as int;
    let es = leaves(nodes);
    let mid = flat.subrange(a, b);
    let nodes2 = nodes.push(NodeModel::Branch { offset: out_len, children: mid });
    let c2 = branch_cover(c, n, a, b);
    assert(nodes2.drop_last() =~= nodes);
    assert(leaves(nodes2) == es);
    assert(node_covered(nodes, c, le, j));
    assert(nodes2.take(j + 1) =~= nodes.take(j + 1));
    lemma_linked_grows(nodes, nodes2, j);
    assert forall|p: int| c2.lo[j] <= p < c2.hi[j] implies reaches(
        nodes2,
        j,
        (#[trigger] es[p]).0,
        es[p].1,
        le,
    ) by {
        lemma_reaches_grows(nodes, nodes2, j, es[p].0, es[p].1, le);
    }
    if ascending(es, le) {
        assert forall|p: int| c2.lo[j] <= p < c2.hi[j] implies search_from(
            nodes2,
            j,
            (#[trigger] es[p]).0,
            le,
        ) == Some(es[p].1) by {
            lemma_search_prefix(nodes2, nodes, j, es[p].0, le);
        }
    }
}

/// A branch that is written over pending entries is covered.
proof fn lemma_branch_new_node<K, V>(
    nodes: Seq<NodeModel<K, V>>,
    out_len: int,
    flat: Seq<(K, u64)>,
    c: Cover,
    le: spec_fn(K, K) -> bool,
    a: int,
    b: int,
)
    requires
        covered(nodes, out_len, flat, c, le),
        0 <= a < b <= flat.len(),
    ensures
        node_covered(
            nodes.push(NodeModel::Branch { offset: out_len, children: flat.subrange(a, b) }),
            branch_cover(c, nodes.len() as int, a, b),
            le,
            nodes.len() as int,
        ),
{
    let n = nodes.len() as int;
    let es = leaves(nodes);
    let mid = flat.subrange(a, b);
    let nodes2 = nodes.push(NodeModel::Branch { offset: out_len, children: mid });
    let c2 = branch_cover(c, n, a, b);
    assert(nodes2.drop_last() =~= nodes);
    assert(leaves(nodes2) == es);
    assert(entry_at(nodes, flat, c, a));
    assert(entry_at(nodes, flat, c, b - 1));
    assert(node_covered(nodes, c, le, c.at[a]));
    assert(node_covered(nodes, c, le, c.at[b - 1]));
    if a < b - 1 {
        lemma_run_rises(nodes, out_len, flat, c, le, a, b - 1);
    }
    lemma_branch_linked(nodes, out_len, flat, c, le, a, b);
    assert forall|p: int| c2.lo[n] <= p < c2.hi[n] implies reaches(
        nodes2,
        n,
        (#[trigger] es[p]).0,
        es[p].1,
        le,
    ) by {
        lemma_branch_reaches(nodes, out_len, flat, c, le, a, b, p);
    }
    if ascending(es, le) {
        assert forall|p: int| c2.lo[n] <= p < c2.hi[n] implies search_from(
            nodes2,
            n,
            (#[trigger] es[p]).0,
            le,
        ) == Some(es[p].1) by {
            lemma_branch_finds(nodes, out_len, flat, c, le, a, b, p);
        }
    }
    assert(mid[0] == flat[a]);
}

/// Writing a branch over pending entries keeps every node covered.
proof fn lemma_branch_nodes_covered<K, V>(
    nodes: Seq<NodeModel<K, V>>,
    out_len: int,
    flat: Seq<(K, u64)>,
    c: Cover,
    le: spec_fn(K, K) -> bool,
    a: int,
    b: int,
    new_len: int,
)
    requires
        covered(nodes, out_len, flat, c, le),
        0 <= a < b <= flat.len(),
        0 <= out_len < new_len <= u64::MAX,
    ensures
        nodes_covered(
            nodes.push(NodeModel::Branch { offset: out_len, children: flat.subrange(a, b) }),
            new_len,
            branch_cover(c, nodes.len() as int, a, b),
            le,
        ),
        leaves(nodes.push(NodeModel::Branch { offset: out_len, children: flat.subrange(a, b) }))
            == leaves(nodes),
{
    let n = nodes.len() as int;
    let mid = flat.subrange(a, b);
    let nodes2 = nodes.push(NodeModel::Branch { offset: out_len, children: mid });
    let c2 = branch_cover(c, n, a, b);
    assert(nodes2.drop_last() =~= nodes);
    assert(leaves(nodes2) == leaves(nodes));
    assert forall|j: int| 0 <= j < nodes2.len() implies #[trigger] node_covered(
        nodes2,
        c2,
        le,
        j,
    ) by {
        if j < n {
            lemma_branch_keeps_node(nodes, out_len, flat, c, le, a, b, j);
        } else {
            lemma_branch_new_node(nodes, out_len, flat, c, le, a, b);
        }
    }
}

/// Writing a branch over pending entries keeps the pending entries a chain.
proof fn lemma_branch_chain_covered<K, V>(
    nodes: Seq<NodeModel<K, V>>,
    out_len: int,
    flat: Seq<(K, u64)>,
    c: Cover,
    le: spec_fn(K, K) -> bool,
    a: int,
    b: int,
)
    requires
        covered(nodes, out_len, flat, c, le),
        0 <= a < b <= flat.len(),
        0 <= out_len <= u64::MAX,
    ensures
        chain_covered(
            nodes.push(NodeModel::Branch { offset: out_len, children: flat.subrange(a, b) }),
            flat.take(a) + seq![(flat[a].0, out_len as u64)] + flat.skip(b),
            branch_cover(c, nodes.len() as int, a, b),
        ),
{
    let n = nodes.len() as int;
    let mid = flat.subrange(a, b);
    let nodes2 = nodes.push(NodeModel::Branch { offset: out_len, children: mid });
    let flat2 = flat.take(a) + seq![(flat[a].0, out_len as u64)] + flat.skip(b);
    let c2 = branch_cover(c, n, a, b);
    assert(nodes2.drop_last() =~= nodes);
    assert(leaves(nodes2) == leaves(nodes));
    assert(mid[0] == flat[a]);
    assert forall|t: int| 0 <= t < flat2.len() implies #[trigger] entry_at(nodes2, flat2, c2, t) by {
        if t < a {
            assert(entry_at(nodes, flat, c, t));
        } else if t > a {
            assert(entry_at(nodes, flat, c, t - 1 + b - a));
        }
    }
    assert forall|t: int| 0 <= t < flat2.len() - 1 implies c2.hi[#[trigger] c2.at[t]] == c2.lo[c2.at[t
        + 1]] by {
        if t + 1 < a {
            assert(entry_at(nodes, flat, c, t));
            assert(entry_at(nodes, flat, c, t + 1));
            assert(c.hi[c.at[t]] == c.lo[c.at[t + 1]]);
        } else if t + 1 == a {
            assert(entry_at(nodes, flat, c, t));
            assert(c.hi[c.at[t]] == c.lo[c.at[t + 1]]);
        } else if t == a {
            assert(entry_at(nodes, flat, c, b));
            assert(c.hi[c.at[b - 1]] == c.lo[c.at[b - 1 + 1]]);
        } else {
            let u = t - 1 + b - a;
            assert(entry_at(nodes, flat, c, u));
            assert(entry_at(nodes, flat, c, u + 1));
            assert(c.hi[c.at[u]] == c.lo[c.at[u + 1]]);
        }
    }
    if a > 0 {
        assert(entry_at(nodes, flat, c, 0));
    }
    if b < flat.len() {
        assert(entry_at(nodes, flat, c, flat.len() - 1));
    }
}

/// Writing a branch over the pending entries from `a` up to `b` keeps
/// everything covered; the branch's entry takes their place.
pub proof fn lemma_branch_covered<K, V>(
    nodes: Seq<NodeModel<K, V>>,
    out_len: int,
    flat: Seq<(K, u64)>,
    c: Cover,
    le: spec_fn(K, K) -> bool,
    a: int,
    b: int,
    new_len: int,
)
    requires
        covered(nodes, out_len, flat, c, le),
        0 <= a < b <= flat.len(),
        0 <= out_len < new_len <= u64::MAX,
    ensures
        covered(
            nodes.push(NodeModel::Branch { offset: out_len, children: flat.subrange(a, b) }),
            new_len,
            flat.take(a) + seq![(flat[a].0, out_len as u64)] + flat.skip(b),
            branch_cover(c, nodes.len() as int, a, b),
            le,
        ),
        leaves(nodes.push(NodeModel::Branch { offset: out_len, children: flat.subrange(a, b) }))
            == leaves(nodes),
{
    lemma_branch_nodes_covered(nodes, out_len, flat, c, le, a, b, new_len);
    lemma_branch_chain_covered(nodes, out_len, flat, c, le, a, b);
}

/// Before anything is written, everything is covered.
pub proof fn lemma_nothing_covered<K, V>(out_len: int, le: spec_fn(K, K) -> bool)
    requires
        out_len <= u64::MAX,
    ensures
        covered(
            Seq::<NodeModel<K, V>>::empty(),
            out_len,
            Seq::<(K, u64)>::empty(),
            Cover { lo: Seq::empty(), hi: Seq::empty(), at: Seq::empty() },
            le,
        ),
{
    assert(leaves(Seq::<NodeModel<K, V>>::empty()) =~= Seq::<(K, V)>::empty());
}

/// Where a single pending entry is left, it points at a node of the file,
/// and a reader that starts there comes to every entry of every leaf.
pub proof fn lemma_single_root<K, V>(
    nodes: Seq<NodeModel<K, V>>,
    out_len: int,
    flat: Seq<(K, u64)>,
    c: Cover,
    le: spec_fn(K, K) -> bool,
)
    requires
        covered(nodes, out_len, flat, c, le),
        flat.len() == 1,
    ensures
        has_node(nodes, flat[0].1 as int),
        flat[0].1 < out_len,
        forall|j: int| 0 <= j < nodes.len() ==> #[trigger] node_linked(nodes, j),
        forall|p: int|
            0 <= p < leaves(nodes).len() ==> search_reaches(
                nodes,
                flat[0].1,
                (#[trigger] leaves(nodes)[p]).0,
                leaves(nodes)[p].1,
                le,
            ),
        ascending(leaves(nodes), le) ==> forall|p: int|
            0 <= p < leaves(nodes).len() ==> search(nodes, flat[0].1, (#[trigger] leaves(nodes)[p]).0, le)
                == Some(leaves(nodes)[p].1),
{
    assert(entry_at(nodes, flat, c, 0));
    let i = c.at[0];
    assert(node_covered(nodes, c, le, i));
    lemma_index_of(nodes, out_len, i);
    assert forall|j: int| 0 <= j < nodes.len() implies #[trigger] node_linked(nodes, j) by {
        assert(node_covered(nodes, c, le, j));
    }
}

/// Where several pending entries are left, a reader that starts at a
/// branch over all of them comes to every entry of every leaf.
pub proof fn lemma_branch_root<K, V>(
    nodes: Seq<NodeModel<K, V>>,
    out_len: int,
    flat: Seq<(K, u64)>,
    c: Cover,
    le: spec_fn(K, K) -> bool,
    new_len: int,
)
    requires
        covered(nodes, out_len, flat, c, le),
        flat.len() >= 1,
        0 <= out_len < new_len <= u64::MAX,
    ensures
        has_node(nodes.push(NodeModel::Branch { offset: out_len, children: flat }), out_len),
        forall|j: int|
            0 <= j <= nodes.len() ==> #[trigger] node_linked(
                nodes.push(NodeModel::Branch { offset: out_len, children: flat }),
                j,
            ),
        forall|p: int|
            0 <= p < leaves(nodes).len() ==> search_reaches(
                nodes.push(NodeModel::Branch { offset: out_len, children: flat }),
                out_len as u64,
                (#[trigger] leaves(nodes)[p]).0,
                leaves(nodes)[p].1,
                le,
            ),
        ascending(leaves(nodes), le) ==> forall|p: int|
            0 <= p < leaves(nodes).len() ==> search(
                nodes.push(NodeModel::Branch { offset: out_len, children: flat }),
                out_len as u64,
                (#[trigger] leaves(nodes)[p]).0,
                le,
            ) == Some(leaves(nodes)[p].1),
{
    let n = nodes.len() as int;
    let done = nodes.push(NodeModel::Branch { offset: out_len, children: flat });
    assert(flat.subrange(0, flat.len() as int) =~= flat);
    lemma_branch_covered(nodes, out_len, flat, c, le, 0, flat.len() as int, new_len);
    let c2 = branch_cover(c, n, 0, flat.len() as int);
    assert(node_covered(done, c2, le, n));
    lemma_index_of(done, new_len, n);
    assert forall|j: int| 0 <= j <= nodes.len() implies #[trigger] node_linked(done, j) by {
        assert(node_covered(done, c2, le, j));
    }
}

} // verus!
