use vstd::prelude::*;
use crate::io::CassSerializer;
use crate::sstable::index::{BranchModel, IndexFileCreator, IndexModel, NodeModel};
use crate::sstable::search::{
    ascending, branch_cover, covered, has_node, lemma_branch_covered, lemma_branch_root,
    lemma_leaf_covered, lemma_nothing_covered, lemma_single_root, node_linked, search,
    search_reaches, sorted, Cover,
};
use crate::util::CassError;

verus! {

/// The entries of the leaves among `nodes`, in file order.
pub open spec fn leaves<K, V>(nodes: Seq<NodeModel<K, V>>) -> Seq<(K, V)>
    decreases nodes.len(),
{
    if nodes.len() == 0 {
        Seq::empty()
    } else {
        match nodes.last() {
            NodeModel::Leaf { offset, kvs } => leaves(nodes.drop_last()) + kvs,
            NodeModel::Branch { offset, children } => leaves(nodes.drop_last()),
        }
    }
}

/// The entries of the open branches, from the one nearest the root down.
pub open spec fn pending<K>(stack: Seq<BranchModel<K>>) -> Seq<(K, u64)>
    decreases stack.len(),
{
    if stack.len() == 0 {
        Seq::empty()
    } else {
        pending(stack.drop_last()) + stack.last().kvs
    }
}

/// The number of children that are left over once the open branches are
/// closed, where `children` of them are pending: each branch, from the
/// lowest, takes as many as it has room for and hands one on in their place.
pub open spec fn survivors<K>(arity: int, stack: Seq<BranchModel<K>>, children: int) -> int
    decreases stack.len(),
{
    if stack.len() == 0 {
        children
    } else {
        let room = arity - stack.last().kvs.len();
        let take = if room < children {
            room
        } else {
            children
        };
        survivors(arity, stack.drop_last(), 1 + children - take)
    }
}

impl<K: Copy, V, SK: CassSerializer<K>, SV: CassSerializer<V>, SO: CassSerializer<u64>> IndexFileCreator<
    K,
    V,
    SK,
    SV,
    SO,
> {
    /// A builder to which nothing was added yet.
    pub open spec fn new_model(arity: int, out: Seq<u8>) -> IndexModel<K, V> {
        IndexModel { arity, leaf: Seq::empty(), stack: Seq::empty(), out, nodes: Seq::empty() }
    }

    /// The builder after the first `k` of the given entries were added in order.
    pub open spec fn add_entries_model(m: IndexModel<K, V>, es: Seq<(K, V)>, k: int) -> IndexModel<
        K,
        V,
    >
        decreases k,
    {
        if k <= 0 || k > es.len() {
            m
        } else {
            Self::add_entry_model(Self::add_entries_model(m, es, k - 1), es[k - 1].0, es[k - 1].1)
        }
    }

    /// An index without entries has no root, and finalizing it writes nothing.
    pub proof fn lemma_empty_index(arity: int, out: Seq<u8>)
        ensures
            Self::finalize_model(Self::new_model(arity, out)) == Ok::<
                (Option<u64>, IndexModel<K, V>),
                CassError,
            >((None, Self::new_model(arity, out))),
    {
    }

    /// An index with one entry is a single leaf with that entry, whatever
    /// the arity, and the leaf is the root.
    pub proof fn lemma_singleton_index(arity: int, out: Seq<u8>, key: K, value: V)
        requires
            2 <= arity <= 65535,
        ensures
            Self::finalize_model(Self::add_entry_model(Self::new_model(arity, out), key, value))
                == Ok::<(Option<u64>, IndexModel<K, V>), CassError>(
                (
                    Some(out.len() as u64),
                    IndexModel {
                        arity,
                        leaf: Seq::empty(),
                        stack: Seq::empty(),
                        out: out + Self::leaf_bytes(seq![(key, value)]),
                        nodes: seq![NodeModel::Leaf { offset: out.len() as int, kvs: seq![(key, value)] }],
                    },
                ),
            ),
    {
        let fresh = Self::new_model(arity, out);
        let one = Self::add_entry_model(fresh, key, value);
        assert(one.leaf =~= seq![(key, value)]);
        let written = Self::write_leaf_model(one);
        assert(written.nodes =~= seq![
            NodeModel::Leaf { offset: out.len() as int, kvs: seq![(key, value)] },
        ]);
    }

    /// While the pending leaf has room after an insertion, the insertion
    /// writes nothing; the insertion that fills it writes it at once, as the
    /// next node of the file, and leaves an empty leaf behind.
    pub proof fn lemma_flush_at_capacity(m: IndexModel<K, V>, key: K, value: V)
        requires
            m.wf(),
        ensures
            m.leaf.len() + 1 < m.arity ==> Self::add_entry_model(m, key, value) == (IndexModel {
                leaf: m.leaf.push((key, value)),
                ..m
            }),
            m.leaf.len() + 1 == m.arity ==> {
                let after = Self::add_entry_model(m, key, value);
                &&& after.leaf.len() == 0
                &&& after.nodes.len() > m.nodes.len()
                &&& after.nodes[m.nodes.len() as int] == (NodeModel::Leaf {
                    offset: m.out.len() as int,
                    kvs: m.leaf.push((key, value)),
                })
            },
    {
        if m.leaf.len() + 1 == m.arity {
            let filled = IndexModel { leaf: m.leaf.push((key, value)), ..m };
            let written = Self::write_leaf_model(filled);
            assert(Self::bubble_pre(written, 0));
            Self::lemma_bubble_up_keeps_nodes(written, 0, (filled.leaf[0].0, m.out.len() as u64));
        }
    }

    /// Handing an entry up only ever adds nodes behind those that are there.
    pub proof fn lemma_bubble_up_keeps_nodes(m: IndexModel<K, V>, level: int, child: (K, u64))
        ensures
            Self::bubble_up_model(m, level, child).nodes.len() >= m.nodes.len(),
            Self::bubble_up_model(m, level, child).nodes.take(m.nodes.len() as int) == m.nodes,
            Self::bubble_up_model(m, level, child).leaf == m.leaf,
            Self::bubble_up_model(m, level, child).out.len() >= m.out.len(),
            Self::bubble_up_model(m, level, child).arity == m.arity,
            leaves(Self::bubble_up_model(m, level, child).nodes) == leaves(m.nodes),
        decreases m.stack.len(),
    {
        let after = Self::bubble_up_model(m, level, child);
        if m.stack.len() > 0 && m.stack.last().level == level + 1 && m.stack.last().kvs.len()
            >= m.arity {
            let top = m.stack.last();
            let flushed = Self::write_branch_model(
                IndexModel { stack: m.stack.drop_last(), ..m },
                top.kvs,
            );
            let entry = (top.kvs[0].0, m.out.len() as u64);
            Self::lemma_bubble_up_keeps_nodes(flushed, level + 1, entry);
            let up = Self::bubble_up_model(flushed, level + 1, entry);
            assert(flushed.nodes.drop_last() =~= m.nodes);
            assert(up.nodes.take(m.nodes.len() as int) =~= up.nodes.take(
                flushed.nodes.len() as int,
            ).take(m.nodes.len() as int));
            assert(flushed.nodes.take(m.nodes.len() as int) =~= m.nodes);
        } else {
            assert(after.nodes.take(m.nodes.len() as int) =~= m.nodes);
        }
    }

    /// Filling a new builder up to its arity: nothing is written before the
    /// last of the `arity` entries, and with it exactly one leaf, which holds
    /// them all.
    pub proof fn lemma_first_leaf(arity: int, out: Seq<u8>, es: Seq<(K, V)>, k: int)
        requires
            2 <= arity <= 65535,
            es.len() == arity,
            0 <= k <= arity,
        ensures
            k < arity ==> Self::add_entries_model(Self::new_model(arity, out), es, k) == (IndexModel {
                leaf: es.take(k),
                ..Self::new_model(arity, out)
            }),
            k == arity ==> Self::add_entries_model(Self::new_model(arity, out), es, k) == (IndexModel {
                arity,
                leaf: Seq::empty(),
                stack: seq![BranchModel { level: 1, kvs: seq![(es[0].0, out.len() as u64)] }],
                out: out + Self::leaf_bytes(es),
                nodes: seq![NodeModel::Leaf { offset: out.len() as int, kvs: es }],
            }),
        decreases k,
    {
        let fresh = Self::new_model(arity, out);
        if k == 0 {
            assert(es.take(0) =~= Seq::<(K, V)>::empty());
        } else {
            Self::lemma_first_leaf(arity, out, es, k - 1);
            let before = Self::add_entries_model(fresh, es, k - 1);
            assert(before.leaf.push(es[k - 1]) =~= es.take(k));
            assert(es[k - 1] == (es[k - 1].0, es[k - 1].1));
            if k == arity {
                assert(es.take(k) =~= es);
                let filled = IndexModel { leaf: es, ..before };
                let written = Self::write_leaf_model(filled);
                assert(written.nodes =~= seq![NodeModel::Leaf { offset: out.len() as int, kvs: es }]);
                let after = Self::bubble_up_model(written, 0, (es[0].0, out.len() as u64));
                assert(after.stack =~= seq![
                    BranchModel { level: 1, kvs: seq![(es[0].0, out.len() as u64)] },
                ]);
            }
        }
    }

    /// Every inserted entry stands in a leaf or in the pending leaf, in the
    /// order of insertion: an insertion adds its entry behind all others.
    pub proof fn lemma_add_entry_keeps_entries(m: IndexModel<K, V>, key: K, value: V)
        ensures
            leaves(Self::add_entry_model(m, key, value).nodes) + Self::add_entry_model(
                m,
                key,
                value,
            ).leaf == (leaves(m.nodes) + m.leaf).push((key, value)),
    {
        let filled = IndexModel { leaf: m.leaf.push((key, value)), ..m };
        let after = Self::add_entry_model(m, key, value);
        if filled.leaf.len() >= m.arity {
            let written = Self::write_leaf_model(filled);
            assert(written.nodes.drop_last() =~= m.nodes);
            Self::lemma_bubble_up_keeps_nodes(written, 0, (filled.leaf[0].0, m.out.len() as u64));
            assert(leaves(after.nodes) + after.leaf =~= (leaves(m.nodes) + m.leaf).push(
                (key, value),
            ));
        } else {
            assert(leaves(after.nodes) + after.leaf =~= (leaves(m.nodes) + m.leaf).push(
                (key, value),
            ));
        }
    }

    /// The number of entries that the root is made of when the build ends:
    /// one where the root is a node that was there or a branch that was
    /// open, else the number of children that a last branch is made of.
    pub open spec fn root_children(m: IndexModel<K, V>) -> int {
        survivors(
            m.arity,
            m.stack,
            if m.leaf.len() > 0 {
                1
            } else {
                0
            },
        )
    }

    /// Closing the open branches succeeds unless more than 65535 children
    /// are left over. It writes nodes of between one and `arity` entries
    /// each, and after them, where more than one child is left over, a last
    /// branch of exactly these children.
    pub proof fn lemma_finalize_rest_node_sizes(m: IndexModel<K, V>, children: Seq<(K, u64)>)
        requires
            2 <= m.arity <= 65535,
            forall|i: int|
                0 <= i < m.stack.len() ==> 1 <= (#[trigger] m.stack[i]).kvs.len() <= m.arity,
            forall|i: int| 0 <= i < m.nodes.len() ==> 1 <= (#[trigger] m.nodes[i]).count() <= m.arity,
            children.len() >= 1 || m.stack.len() >= 1,
        ensures
            1 <= survivors(m.arity, m.stack, children.len() as int) <= children.len()
                + m.stack.len(),
            Self::finalize_rest_model(m, children) is Ok <==> survivors(
                m.arity,
                m.stack,
                children.len() as int,
            ) <= 65535,
            Self::finalize_rest_model(m, children) matches Ok((root, done)) ==> {
                &&& done.nodes.len() >= m.nodes.len()
                &&& done.nodes.take(m.nodes.len() as int) == m.nodes
                &&& leaves(done.nodes) == leaves(m.nodes)
                &&& forall|i: int|
                    0 <= i < done.nodes.len() - 1 ==> 1 <= (#[trigger] done.nodes[i]).count()
                        <= m.arity
                &&& survivors(m.arity, m.stack, children.len() as int) == 1 ==> forall|i: int|
                    0 <= i < done.nodes.len() ==> 1 <= (#[trigger] done.nodes[i]).count()
                        <= m.arity
                &&& survivors(m.arity, m.stack, children.len() as int) != 1 ==> done.nodes.len() > 0
                    && done.nodes.last().count() == survivors(
                    m.arity,
                    m.stack,
                    children.len() as int,
                )
            },
        decreases m.stack.len(),
    {
        if m.stack.len() == 0 {
            if children.len() != 1 && children.len() <= 65535 {
                let done = Self::write_branch_model(m, children);
                assert(done.nodes.take(m.nodes.len() as int) =~= m.nodes);
                assert(done.nodes.drop_last() =~= m.nodes);
            } else {
                assert(m.nodes.take(m.nodes.len() as int) =~= m.nodes);
            }
        } else {
            let top = m.stack.last();
            let room = m.arity - top.kvs.len();
            let take = if room < children.len() {
                room
            } else {
                children.len() as int
            };
            let kvs = top.kvs + children.take(take);
            let flushed = Self::write_branch_model(IndexModel { stack: m.stack.drop_last(), ..m }, kvs);
            let next = seq![(kvs[0].0, m.out.len() as u64)] + children.skip(take);
            assert(next.len() == 1 + children.len() - take);
            assert(forall|i: int|
                0 <= i < flushed.stack.len() ==> (#[trigger] flushed.stack[i]) == m.stack[i]);
            assert forall|i: int| 0 <= i < flushed.nodes.len() implies 1 <= (
            #[trigger] flushed.nodes[i]).count() <= m.arity by {
                if i < m.nodes.len() {
                    assert(flushed.nodes[i] == m.nodes[i]);
                }
            }
            Self::lemma_finalize_rest_node_sizes(flushed, next);
            assert(flushed.nodes.drop_last() =~= m.nodes);
            match Self::finalize_rest_model(flushed, next) {
                Ok((root, done)) => {
                    assert(done.nodes.take(m.nodes.len() as int) =~= done.nodes.take(
                        flushed.nodes.len() as int,
                    ).take(m.nodes.len() as int));
                    assert(flushed.nodes.take(m.nodes.len() as int) =~= m.nodes);
                },
                Err(e) => {},
            }
        }
    }

    /// Every node holds between one and `arity` entries, with one exception
    /// that is stated exactly. Finalizing writes nodes of between one and
    /// `arity` entries each, behind those that are there; where more than
    /// one child is left over at the end, the root is a last branch of
    /// exactly `root_children` entries, so the root too holds no more than
    /// `arity` entries if and only if no more than `arity` children are left
    /// over. Finalizing fails only where more than 65535 are left over, and
    /// no more are left over than branches were open, and one. The leaves
    /// then hold every inserted entry, in the order of insertion.
    pub proof fn lemma_finalize_node_sizes(m: IndexModel<K, V>)
        requires
            m.wf(),
        ensures
            Self::root_children(m) <= m.stack.len() + 1,
            Self::finalize_model(m) is Ok <==> Self::root_children(m) <= 65535,
            Self::finalize_model(m) matches Ok((root, done)) ==> {
                &&& done.nodes.take(m.nodes.len() as int) == m.nodes
                &&& leaves(done.nodes) == leaves(m.nodes) + m.leaf
                &&& forall|i: int|
                    0 <= i < done.nodes.len() - 1 ==> 1 <= (#[trigger] done.nodes[i]).count()
                        <= m.arity
                &&& Self::root_children(m) <= 1 ==> forall|i: int|
                    0 <= i < done.nodes.len() ==> 1 <= (#[trigger] done.nodes[i]).count()
                        <= m.arity
                &&& Self::root_children(m) > 1 ==> done.nodes.len() > 0
                    && done.nodes.last().count() == Self::root_children(m)
                &&& (forall|i: int|
                    0 <= i < done.nodes.len() ==> 1 <= (#[trigger] done.nodes[i]).count()
                        <= m.arity) <==> Self::root_children(m) <= m.arity
            },
    {
        if m.leaf.len() == 0 && m.stack.len() == 0 {
            assert(m.nodes.take(m.nodes.len() as int) =~= m.nodes);
            assert(leaves(m.nodes) + m.leaf =~= leaves(m.nodes));
        } else if m.leaf.len() > 0 {
            let written = Self::write_leaf_model(m);
            let children = seq![(m.leaf[0].0, m.out.len() as u64)];
            assert forall|i: int| 0 <= i < written.nodes.len() implies 1 <= (
            #[trigger] written.nodes[i]).count() <= m.arity by {
                if i < m.nodes.len() {
                    assert(written.nodes[i] == m.nodes[i]);
                }
            }
            Self::lemma_finalize_rest_node_sizes(written, children);
            assert(written.nodes.drop_last() =~= m.nodes);
            match Self::finalize_rest_model(written, children) {
                Ok((root, done)) => {
                    assert(done.nodes.take(m.nodes.len() as int) =~= done.nodes.take(
                        written.nodes.len() as int,
                    ).take(m.nodes.len() as int));
                    assert(written.nodes.take(m.nodes.len() as int) =~= m.nodes);
                    if Self::root_children(m) > 1 {
                        assert(done.nodes[done.nodes.len() - 1] == done.nodes.last());
                    }
                },
                Err(e) => {},
            }
        } else {
            Self::lemma_finalize_rest_node_sizes(m, Seq::empty());
            assert(leaves(m.nodes) + m.leaf =~= leaves(m.nodes));
            match Self::finalize_rest_model(m, Seq::empty()) {
                Ok((root, done)) => {
                    if Self::root_children(m) > 1 {
                        assert(done.nodes[done.nodes.len() - 1] == done.nodes.last());
                    }
                },
                Err(e) => {},
            }
        }
    }

    /// Two builds do not observe each other: adding to one of two builders
    /// leaves the other as it was, so the order in which insertions into
    /// different builders are made does not matter.
    pub proof fn lemma_builds_are_independent(
        a: IndexModel<K, V>,
        b: IndexModel<K, V>,
        key_a: K,
        value_a: V,
        key_b: K,
        value_b: V,
    )
        ensures
            ({
                let first = (Self::add_entry_model(a, key_a, value_a), b);
                (first.0, Self::add_entry_model(first.1, key_b, value_b))
            }) == ({
                let first = (a, Self::add_entry_model(b, key_b, value_b));
                (Self::add_entry_model(first.0, key_a, value_a), first.1)
            }),
    {
    }

    /// Handing an entry up keeps everything covered: the nodes that are
    /// written stand for the entries that the written branches stood for.
    pub proof fn lemma_bubble_up_covered(
        m: IndexModel<K, V>,
        level: int,
        child: (K, u64),
        rest: Seq<(K, u64)>,
        c: Cover,
        le: spec_fn(K, K) -> bool,
    ) -> (c2: Cover)
        requires
            m.arity >= 1,
            covered(m.nodes, m.out.len() as int, pending(m.stack) + seq![child] + rest, c, le),
            Self::bubble_up_model(m, level, child).out.len() <= u64::MAX,
        ensures
            covered(
                Self::bubble_up_model(m, level, child).nodes,
                Self::bubble_up_model(m, level, child).out.len() as int,
                pending(Self::bubble_up_model(m, level, child).stack) + rest,
                c2,
                le,
            ),
        decreases m.stack.len(),
    {
        let after = Self::bubble_up_model(m, level, child);
        let fresh = BranchModel { level: level + 1, kvs: seq![child] };
        let flat = pending(m.stack) + seq![child] + rest;
        if m.stack.len() == 0 || m.stack.last().level != level + 1 {
            assert(m.stack.push(fresh).drop_last() =~= m.stack);
            assert(pending(after.stack) + rest =~= flat);
            c
        } else if m.stack.last().kvs.len() < m.arity {
            let top = m.stack.last();
            let grown = BranchModel { level: top.level, kvs: top.kvs.push(child) };
            assert(m.stack.drop_last().push(grown).drop_last() =~= m.stack.drop_last());
            assert(pending(after.stack) + rest =~= flat);
            c
        } else {
            let top = m.stack.last();
            let below = m.stack.drop_last();
            let flushed = Self::write_branch_model(IndexModel { stack: below, ..m }, top.kvs);
            let entry = (top.kvs[0].0, m.out.len() as u64);
            let a = pending(below).len() as int;
            let b = a + top.kvs.len();
            Self::lemma_bubble_up_keeps_nodes(flushed, level + 1, entry);
            assert(flat.subrange(a, b) =~= top.kvs);
            lemma_branch_covered(
                m.nodes,
                m.out.len() as int,
                flat,
                c,
                le,
                a,
                b,
                flushed.out.len() as int,
            );
            let c1 = branch_cover(c, m.nodes.len() as int, a, b);
            let tail = seq![child] + rest;
            assert(flat.take(a) + seq![(flat[a].0, m.out.len() as u64)] + flat.skip(b) =~= pending(
                flushed.stack,
            ) + seq![entry] + tail);
            let c2 = Self::lemma_bubble_up_covered(flushed, level + 1, entry, tail, c1, le);
            let up = Self::bubble_up_model(flushed, level + 1, entry);
            assert(up.stack.push(fresh).drop_last() =~= up.stack);
            assert(pending(after.stack) + rest =~= pending(up.stack) + tail);
            c2
        }
    }

    /// An insertion keeps everything covered.
    pub proof fn lemma_add_entry_covered(
        m: IndexModel<K, V>,
        key: K,
        value: V,
        c: Cover,
        le: spec_fn(K, K) -> bool,
    ) -> (c2: Cover)
        requires
            m.arity >= 1,
            covered(m.nodes, m.out.len() as int, pending(m.stack), c, le),
            sorted((leaves(m.nodes) + m.leaf).push((key, value)), le),
            Self::add_entry_model(m, key, value).out.len() <= u64::MAX,
        ensures
            covered(
                Self::add_entry_model(m, key, value).nodes,
                Self::add_entry_model(m, key, value).out.len() as int,
                pending(Self::add_entry_model(m, key, value).stack),
                c2,
                le,
            ),
    {
        let filled = IndexModel { leaf: m.leaf.push((key, value)), ..m };
        if filled.leaf.len() < m.arity {
            c
        } else {
            let written = Self::write_leaf_model(filled);
            let entry = (filled.leaf[0].0, m.out.len() as u64);
            Self::lemma_bubble_up_keeps_nodes(written, 0, entry);
            assert(leaves(m.nodes) + filled.leaf =~= (leaves(m.nodes) + m.leaf).push((key, value)));
            let c1 = lemma_leaf_covered(
                m.nodes,
                m.out.len() as int,
                pending(m.stack),
                c,
                le,
                filled.leaf,
                written.out.len() as int,
            );
            let none = Seq::<(K, u64)>::empty();
            assert(pending(written.stack) + seq![entry] + none =~= pending(m.stack).push(entry));
            let c2 = Self::lemma_bubble_up_covered(written, 0, entry, none, c1, le);
            let after = Self::add_entry_model(m, key, value);
            assert(pending(after.stack) + none =~= pending(after.stack));
            c2
        }
    }

    /// Closing the open branches only ever makes the file longer.
    pub proof fn lemma_finalize_rest_grows(m: IndexModel<K, V>, children: Seq<(K, u64)>)
        ensures
            Self::finalize_rest_model(m, children) matches Ok((root, done)) ==> done.out.len()
                >= m.out.len(),
        decreases m.stack.len(),
    {
        if m.stack.len() > 0 {
            let top = m.stack.last();
            let room = m.arity - top.kvs.len();
            let take = if room < children.len() {
                room
            } else {
                children.len() as int
            };
            let kvs = top.kvs + children.take(take);
            let flushed = Self::write_branch_model(IndexModel { stack: m.stack.drop_last(), ..m }, kvs);
            Self::lemma_finalize_rest_grows(
                flushed,
                seq![(kvs[0].0, m.out.len() as u64)] + children.skip(take),
            );
        }
    }

    /// Once the open branches are closed, a reader that starts at the root
    /// finds every entry of every leaf.
    pub proof fn lemma_finalize_rest_covered(
        m: IndexModel<K, V>,
        children: Seq<(K, u64)>,
        c: Cover,
        le: spec_fn(K, K) -> bool,
    )
        requires
            m.arity >= 1,
            forall|i: int|
                0 <= i < m.stack.len() ==> 1 <= (#[trigger] m.stack[i]).kvs.len() <= m.arity,
            covered(m.nodes, m.out.len() as int, pending(m.stack) + children, c, le),
            children.len() >= 1 || m.stack.len() >= 1,
            Self::finalize_rest_model(m, children) is Ok,
            Self::finalize_rest_model(m, children)->Ok_0.1.out.len() <= u64::MAX,
        ensures
            has_node(
                Self::finalize_rest_model(m, children)->Ok_0.1.nodes,
                Self::finalize_rest_model(m, children)->Ok_0.0 as int,
            ),
            forall|j: int|
                0 <= j < Self::finalize_rest_model(m, children)->Ok_0.1.nodes.len()
                    ==> #[trigger] node_linked(
                    Self::finalize_rest_model(m, children)->Ok_0.1.nodes,
                    j,
                ),
            forall|p: int|
                0 <= p < leaves(m.nodes).len() ==> search_reaches(
                    Self::finalize_rest_model(m, children)->Ok_0.1.nodes,
                    Self::finalize_rest_model(m, children)->Ok_0.0,
                    (#[trigger] leaves(m.nodes)[p]).0,
                    leaves(m.nodes)[p].1,
                    le,
                ),
            ascending(leaves(m.nodes), le) ==> forall|p: int|
                0 <= p < leaves(m.nodes).len() ==> search(
                    Self::finalize_rest_model(m, children)->Ok_0.1.nodes,
                    Self::finalize_rest_model(m, children)->Ok_0.0,
                    (#[trigger] leaves(m.nodes)[p]).0,
                    le,
                ) == Some(leaves(m.nodes)[p].1),
        decreases m.stack.len(),
    {
        let es = leaves(m.nodes);
        let flat = pending(m.stack) + children;
        let out_len = m.out.len() as int;
        if m.stack.len() == 0 {
            assert(flat =~= children);
            if children.len() == 1 {
                lemma_single_root(m.nodes, out_len, flat, c, le);
            } else {
                let done = Self::write_branch_model(m, children);
                lemma_branch_root(m.nodes, out_len, flat, c, le, done.out.len() as int);
            }
        } else {
            let top = m.stack.last();
            let below = m.stack.drop_last();
            let room = m.arity - top.kvs.len();
            let take = if room < children.len() {
                room
            } else {
                children.len() as int
            };
            let kvs = top.kvs + children.take(take);
            let flushed = Self::write_branch_model(IndexModel { stack: below, ..m }, kvs);
            let entry = (kvs[0].0, m.out.len() as u64);
            let next = seq![entry] + children.skip(take);
            let a = pending(below).len() as int;
            let b = a + kvs.len();
            Self::lemma_finalize_rest_grows(flushed, next);
            assert(flat.subrange(a, b) =~= kvs);
            lemma_branch_covered(m.nodes, out_len, flat, c, le, a, b, flushed.out.len() as int);
            let c1 = branch_cover(c, m.nodes.len() as int, a, b);
            assert(flat.take(a) + seq![(flat[a].0, m.out.len() as u64)] + flat.skip(b) =~= pending(
                flushed.stack,
            ) + next);
            Self::lemma_finalize_rest_covered(flushed, next, c1, le);
        }
    }

    /// After any number of insertions in rising key order into a new
    /// builder, the builder's invariant holds, everything is covered, and
    /// the leaves and the pending leaf hold the inserted entries in order.
    pub proof fn lemma_entries_covered(
        arity: int,
        out: Seq<u8>,
        es: Seq<(K, V)>,
        k: int,
        le: spec_fn(K, K) -> bool,
    ) -> (c: Cover)
        requires
            2 <= arity <= 65535,
            sorted(es, le),
            0 <= k <= es.len(),
            Self::add_entries_model(Self::new_model(arity, out), es, k).out.len() <= u64::MAX,
        ensures
            Self::add_entries_model(Self::new_model(arity, out), es, k).wf(),
            Self::add_entries_model(Self::new_model(arity, out), es, k).arity == arity,
            covered(
                Self::add_entries_model(Self::new_model(arity, out), es, k).nodes,
                Self::add_entries_model(Self::new_model(arity, out), es, k).out.len() as int,
                pending(Self::add_entries_model(Self::new_model(arity, out), es, k).stack),
                c,
                le,
            ),
            leaves(Self::add_entries_model(Self::new_model(arity, out), es, k).nodes)
                + Self::add_entries_model(Self::new_model(arity, out), es, k).leaf == es.take(k),
        decreases k,
    {
        let fresh = Self::new_model(arity, out);
        if k == 0 {
            lemma_nothing_covered::<K, V>(out.len() as int, le);
            assert(leaves(fresh.nodes) + fresh.leaf =~= es.take(0));
            Cover { lo: Seq::empty(), hi: Seq::empty(), at: Seq::empty() }
        } else {
            let before = Self::add_entries_model(fresh, es, k - 1);
            let key = es[k - 1].0;
            let value = es[k - 1].1;
            Self::lemma_add_entry_grows(before, key, value);
            let c1 = Self::lemma_entries_covered(arity, out, es, k - 1, le);
            Self::lemma_add_entry_keeps_wf(before, key, value);
            Self::lemma_add_entry_keeps_entries(before, key, value);
            assert(es[k - 1] == (key, value));
            assert(es.take(k - 1).push((key, value)) =~= es.take(k));
            assert(sorted(es.take(k), le)) by {
                assert forall|i: int, j: int| 0 <= i <= j < es.take(k).len() implies le(
                    #[trigger] es.take(k)[i].0,
                    #[trigger] es.take(k)[j].0,
                ) by {
                    assert(le(es[i].0, es[j].0));
                }
            }
            Self::lemma_add_entry_covered(before, key, value, c1, le)
        }
    }

    /// An insertion only ever makes the file longer.
    pub proof fn lemma_add_entry_grows(m: IndexModel<K, V>, key: K, value: V)
        ensures
            Self::add_entry_model(m, key, value).out.len() >= m.out.len(),
            Self::add_entry_model(m, key, value).arity == m.arity,
    {
        let filled = IndexModel { leaf: m.leaf.push((key, value)), ..m };
        if filled.leaf.len() >= m.arity {
            Self::lemma_bubble_up_keeps_nodes(
                Self::write_leaf_model(filled),
                0,
                (filled.leaf[0].0, m.out.len() as u64),
            );
        }
    }

    /// A reader comes to every entry. Where entries were inserted into a new
    /// builder with keys that never fall, equal keys included, and the
    /// finished file is no longer than a 64-bit offset can say, the root
    /// that `finalize` returns is the offset of a node of the file, every
    /// entry of every branch holds the offset and the lowest key of a node
    /// that was written before the branch, and a
    /// reader that starts there and follows every child that may hold the
    /// key comes, for every inserted entry, to a leaf that holds the entry.
    /// Where the keys rise strictly, the one path to the last entry not
    /// above the key finds the value that was inserted with the key.
    pub proof fn lemma_search_reaches_all(
        arity: int,
        out: Seq<u8>,
        es: Seq<(K, V)>,
        le: spec_fn(K, K) -> bool,
    )
        requires
            2 <= arity <= 65535,
            sorted(es, le),
            Self::finalize_model(
                Self::add_entries_model(Self::new_model(arity, out), es, es.len() as int),
            ) is Ok,
            Self::finalize_model(
                Self::add_entries_model(Self::new_model(arity, out), es, es.len() as int),
            )->Ok_0.0 is Some,
            Self::finalize_model(
                Self::add_entries_model(Self::new_model(arity, out), es, es.len() as int),
            )->Ok_0.1.out.len() <= u64::MAX,
        ensures
            has_node(
                Self::finalize_model(
                    Self::add_entries_model(Self::new_model(arity, out), es, es.len() as int),
                )->Ok_0.1.nodes,
                Self::finalize_model(
                    Self::add_entries_model(Self::new_model(arity, out), es, es.len() as int),
                )->Ok_0.0->Some_0 as int,
            ),
            forall|j: int|
                0 <= j < Self::finalize_model(
                    Self::add_entries_model(Self::new_model(arity, out), es, es.len() as int),
                )->Ok_0.1.nodes.len() ==> #[trigger] node_linked(
                    Self::finalize_model(
                        Self::add_entries_model(Self::new_model(arity, out), es, es.len() as int),
                    )->Ok_0.1.nodes,
                    j,
                ),
            forall|p: int|
                0 <= p < es.len() ==> search_reaches(
                    Self::finalize_model(
                        Self::add_entries_model(Self::new_model(arity, out), es, es.len() as int),
                    )->Ok_0.1.nodes,
                    Self::finalize_model(
                        Self::add_entries_model(Self::new_model(arity, out), es, es.len() as int),
                    )->Ok_0.0->Some_0,
                    (#[trigger] es[p]).0,
                    es[p].1,
                    le,
                ),
            ascending(es, le) ==> forall|p: int|
                0 <= p < es.len() ==> search(
                    Self::finalize_model(
                        Self::add_entries_model(Self::new_model(arity, out), es, es.len() as int),
                    )->Ok_0.1.nodes,
                    Self::finalize_model(
                        Self::add_entries_model(Self::new_model(arity, out), es, es.len() as int),
                    )->Ok_0.0->Some_0,
                    (#[trigger] es[p]).0,
                    le,
                ) == Some(es[p].1),
    {
        let m = Self::add_entries_model(Self::new_model(arity, out), es, es.len() as int);
        assert(es.take(es.len() as int) =~= es);
        if m.leaf.len() > 0 {
            let written = Self::write_leaf_model(m);
            let entry = (m.leaf[0].0, m.out.len() as u64);
            let children = seq![entry];
            Self::lemma_finalize_rest_grows(written, children);
            let c = Self::lemma_entries_covered(arity, out, es, es.len() as int, le);
            let c1 = lemma_leaf_covered(
                m.nodes,
                m.out.len() as int,
                pending(m.stack),
                c,
                le,
                m.leaf,
                written.out.len() as int,
            );
            assert(pending(written.stack) + children =~= pending(m.stack).push(entry));
            Self::lemma_finalize_rest_covered(written, children, c1, le);
        } else {
            let none = Seq::<(K, u64)>::empty();
            Self::lemma_finalize_rest_grows(m, none);
            let c = Self::lemma_entries_covered(arity, out, es, es.len() as int, le);
            assert(pending(m.stack) + none =~= pending(m.stack));
            assert(leaves(m.nodes) + m.leaf =~= leaves(m.nodes));
            Self::lemma_finalize_rest_covered(m, none, c, le);
        }
    }

    /// A reader finds every entry. Where entries were inserted into a new
    /// builder in strictly rising key order and the finished file is no
    /// longer than a 64-bit offset can say, a search from the root that
    /// `finalize` returns finds, for the key of every inserted entry, the
    /// value that was inserted with it.
    pub proof fn lemma_search_finds_all(
        arity: int,
        out: Seq<u8>,
        es: Seq<(K, V)>,
        le: spec_fn(K, K) -> bool,
    )
        requires
            2 <= arity <= 65535,
            ascending(es, le),
            Self::finalize_model(
                Self::add_entries_model(Self::new_model(arity, out), es, es.len() as int),
            ) is Ok,
            Self::finalize_model(
                Self::add_entries_model(Self::new_model(arity, out), es, es.len() as int),
            )->Ok_0.0 is Some,
            Self::finalize_model(
                Self::add_entries_model(Self::new_model(arity, out), es, es.len() as int),
            )->Ok_0.1.out.len() <= u64::MAX,
        ensures
            forall|p: int|
                0 <= p < es.len() ==> search(
                    Self::finalize_model(
                        Self::add_entries_model(Self::new_model(arity, out), es, es.len() as int),
                    )->Ok_0.1.nodes,
                    Self::finalize_model(
                        Self::add_entries_model(Self::new_model(arity, out), es, es.len() as int),
                    )->Ok_0.0->Some_0,
                    (#[trigger] es[p]).0,
                    le,
                ) == Some(es[p].1),
    {
        Self::lemma_search_reaches_all(arity, out, es, le);
    }

    /// A node on disk.
    pub open spec fn node_bytes(node: NodeModel<K, V>) -> Seq<u8> {
        match node {
            NodeModel::Leaf { offset, kvs } => Self::leaf_bytes(kvs),
            NodeModel::Branch { offset, children } => Self::branch_bytes(children),
        }
    }

    /// The nodes on disk, one after the other.
    pub open spec fn file_bytes(nodes: Seq<NodeModel<K, V>>) -> Seq<u8>
        decreases nodes.len(),
    {
        if nodes.len() == 0 {
            Seq::empty()
        } else {
            Self::file_bytes(nodes.drop_last()) + Self::node_bytes(nodes.last())
        }
    }

    /// Whether the file is what it held at first and then the nodes, one
    /// after the other, each at the offset that it was recorded with.
    pub open spec fn laid_out(m: IndexModel<K, V>, base: Seq<u8>) -> bool {
        &&& m.out == base + Self::file_bytes(m.nodes)
        &&& forall|i: int|
            0 <= i < m.nodes.len() ==> (#[trigger] m.nodes[i]).offset() == base.len()
                + Self::file_bytes(m.nodes.take(i)).len()
    }

    /// Writing a node at the end of the file keeps the file laid out.
    proof fn lemma_push_laid_out(m: IndexModel<K, V>, base: Seq<u8>, node: NodeModel<K, V>)
        requires
            Self::laid_out(m, base),
            node.offset() == m.out.len(),
        ensures
            Self::laid_out(
                IndexModel { out: m.out + Self::node_bytes(node), nodes: m.nodes.push(node), ..m },
                base,
            ),
    {
        let nodes2 = m.nodes.push(node);
        assert(nodes2.drop_last() =~= m.nodes);
        assert(m.out + Self::node_bytes(node) =~= base + Self::file_bytes(nodes2));
        assert forall|i: int| 0 <= i < nodes2.len() implies (#[trigger] nodes2[i]).offset()
            == base.len() + Self::file_bytes(nodes2.take(i)).len() by {
            if i < m.nodes.len() {
                assert(nodes2.take(i) =~= m.nodes.take(i));
            } else {
                assert(nodes2.take(i) =~= m.nodes);
            }
        }
    }

    /// Handing an entry up keeps the file laid out.
    pub proof fn lemma_bubble_up_laid_out(
        m: IndexModel<K, V>,
        base: Seq<u8>,
        level: int,
        child: (K, u64),
    )
        requires
            Self::laid_out(m, base),
        ensures
            Self::laid_out(Self::bubble_up_model(m, level, child), base),
        decreases m.stack.len(),
    {
        if m.stack.len() > 0 && m.stack.last().level == level + 1 && m.stack.last().kvs.len()
            >= m.arity {
            let top = m.stack.last();
            let popped = IndexModel { stack: m.stack.drop_last(), ..m };
            Self::lemma_push_laid_out(
                popped,
                base,
                NodeModel::Branch { offset: m.out.len() as int, children: top.kvs },
            );
            Self::lemma_bubble_up_laid_out(
                Self::write_branch_model(popped, top.kvs),
                base,
                level + 1,
                (top.kvs[0].0, m.out.len() as u64),
            );
        }
    }

    /// An insertion keeps the file laid out.
    pub proof fn lemma_add_entry_laid_out(m: IndexModel<K, V>, base: Seq<u8>, key: K, value: V)
        requires
            Self::laid_out(m, base),
        ensures
            Self::laid_out(Self::add_entry_model(m, key, value), base),
    {
        let filled = IndexModel { leaf: m.leaf.push((key, value)), ..m };
        if filled.leaf.len() >= m.arity {
            Self::lemma_push_laid_out(
                IndexModel { leaf: Seq::empty(), ..m },
                base,
                NodeModel::Leaf { offset: m.out.len() as int, kvs: filled.leaf },
            );
            Self::lemma_bubble_up_laid_out(
                Self::write_leaf_model(filled),
                base,
                0,
                (filled.leaf[0].0, m.out.len() as u64),
            );
        }
    }

    /// Closing the open branches keeps the file laid out.
    pub proof fn lemma_finalize_rest_laid_out(
        m: IndexModel<K, V>,
        base: Seq<u8>,
        children: Seq<(K, u64)>,
    )
        requires
            Self::laid_out(m, base),
        ensures
            Self::finalize_rest_model(m, children) matches Ok((root, done)) ==> Self::laid_out(
                done,
                base,
            ),
        decreases m.stack.len(),
    {
        if m.stack.len() == 0 {
            if children.len() != 1 && children.len() <= 65535 {
                Self::lemma_push_laid_out(
                    m,
                    base,
                    NodeModel::Branch { offset: m.out.len() as int, children },
                );
            }
        } else {
            let top = m.stack.last();
            let room = m.arity - top.kvs.len();
            let take = if room < children.len() {
                room
            } else {
                children.len() as int
            };
            let kvs = top.kvs + children.take(take);
            let popped = IndexModel { stack: m.stack.drop_last(), ..m };
            Self::lemma_push_laid_out(
                popped,
                base,
                NodeModel::Branch { offset: m.out.len() as int, children: kvs },
            );
            Self::lemma_finalize_rest_laid_out(
                Self::write_branch_model(popped, kvs),
                base,
                seq![(kvs[0].0, m.out.len() as u64)] + children.skip(take),
            );
        }
    }

    /// The finished file is what the buffer held at first and then the
    /// nodes that were written, one after the other, each at the offset at
    /// which its parent or the caller was told to find it.
    pub proof fn lemma_finalize_laid_out(m: IndexModel<K, V>, base: Seq<u8>)
        requires
            Self::laid_out(m, base),
        ensures
            Self::finalize_model(m) matches Ok((root, done)) ==> Self::laid_out(done, base),
    {
        if m.leaf.len() > 0 {
            Self::lemma_push_laid_out(
                IndexModel { leaf: Seq::empty(), ..m },
                base,
                NodeModel::Leaf { offset: m.out.len() as int, kvs: m.leaf },
            );
            Self::lemma_finalize_rest_laid_out(
                Self::write_leaf_model(m),
                base,
                seq![(m.leaf[0].0, m.out.len() as u64)],
            );
        } else if m.stack.len() > 0 {
            Self::lemma_finalize_rest_laid_out(m, base, Seq::empty());
        }
    }

    /// A new builder's file is laid out: it holds what the buffer held.
    pub proof fn lemma_new_laid_out(arity: int, out: Seq<u8>)
        ensures
            Self::laid_out(Self::new_model(arity, out), out),
    {
        assert(out =~= out + Self::file_bytes(Seq::<NodeModel<K, V>>::empty()));
    }
}

} // verus!
