use std::marker::PhantomData;
use vstd::prelude::*;
use crate::io::{be_u16, CassSerializer, CassWrite};
use crate::util::CassError;

verus! {

pub const ID_LEAF_NODE: u8 = 0;

pub const ID_BRANCH_NODE: u8 = 1;

/// A branch that is still being filled, as a value: its distance above the
/// leaves and the entries it holds, each the lowest key and the offset of a
/// node that was written.
pub struct BranchModel<K> {
    pub level: int,
    pub kvs: Seq<(K, u64)>,
}

/// A node that was written, as a value: where it starts in the file and
/// the entries it holds.
pub enum NodeModel<K, V> {
    Leaf { offset: int, kvs: Seq<(K, V)> },
    Branch { offset: int, children: Seq<(K, u64)> },
}

impl<K, V> NodeModel<K, V> {
    /// Where the node starts in the file.
    pub open spec fn offset(self) -> int {
        match self {
            NodeModel::Leaf { offset, kvs } => offset,
            NodeModel::Branch { offset, children } => offset,
        }
    }

    /// The key of the node's first entry.
    pub open spec fn first_key(self) -> K {
        match self {
            NodeModel::Leaf { offset, kvs } => kvs[0].0,
            NodeModel::Branch { offset, children } => children[0].0,
        }
    }

    /// The number of entries in the node.
    pub open spec fn count(self) -> int {
        match self {
            NodeModel::Leaf { offset, kvs } => kvs.len() as int,
            NodeModel::Branch { offset, children } => children.len() as int,
        }
    }
}

/// The builder as a value. `stack` holds the open branches, the one nearest
/// the root first; `out` is the file so far and `nodes` the nodes in it, in
/// the order in which they were written.
pub struct IndexModel<K, V> {
    pub arity: int,
    pub leaf: Seq<(K, V)>,
    pub stack: Seq<BranchModel<K>>,
    pub out: Seq<u8>,
    pub nodes: Seq<NodeModel<K, V>>,
}

impl<K, V> IndexModel<K, V> {
    /// The builder's invariant between calls: the pending leaf has room,
    /// every open branch holds between one and `arity` entries, the open
    /// branches stand at strictly falling levels from the root down, and
    /// every node written so far holds between one and `arity` entries.
    pub open spec fn wf(self) -> bool {
        &&& 2 <= self.arity <= 65535
        &&& self.leaf.len() < self.arity
        &&& forall|i: int|
            0 <= i < self.stack.len() ==> {
                &&& 1 <= (#[trigger] self.stack[i]).kvs.len() <= self.arity
                &&& 1 <= self.stack[i].level <= self.nodes.len()
            }
        &&& forall|i: int, j: int|
            0 <= i < j < self.stack.len() ==> (#[trigger] self.stack[i]).level > (
            #[trigger] self.stack[j]).level
        &&& forall|i: int|
            0 <= i < self.nodes.len() ==> 1 <= (#[trigger] self.nodes[i]).count() <= self.arity
        &&& 3 * self.nodes.len() <= self.out.len()
    }
}

/// A branch of the index that is still being filled.
pub struct CreatorBranchNode<K> {
    pub level: usize,
    pub kvs: Vec<(K, u64)>,
}

impl<K> View for CreatorBranchNode<K> {
    type V = BranchModel<K>;

    open spec fn view(&self) -> BranchModel<K> {
        BranchModel { level: self.level as int, kvs: self.kvs@ }
    }
}

/// The open branches of a stack as values.
pub open spec fn branches<K>(stack: Seq<CreatorBranchNode<K>>) -> Seq<BranchModel<K>> {
    Seq::new(stack.len(), |i: int| stack[i]@)
}

/// Builds the index file of a table in one forward pass: entries come in
/// key order, a leaf is written as soon as it is full, a full branch when
/// the next entry arrives for it, and `finalize` writes what is left and
/// names the root.
pub struct IndexFileCreator<K, V, SK, SV, SO> {
    pub arity: usize,
    pub cur_leaf: Vec<(K, V)>,
    pub branch_stack: Vec<CreatorBranchNode<K>>,
    pub out: CassWrite,
    pub nodes: Ghost<Seq<NodeModel<K, V>>>,
    pub _sk: PhantomData<SK>,
    pub _sv: PhantomData<SV>,
    pub _so: PhantomData<SO>,
}

impl<K, V, SK, SV, SO> View for IndexFileCreator<K, V, SK, SV, SO> {
    type V = IndexModel<K, V>;

    open spec fn view(&self) -> IndexModel<K, V> {
        IndexModel {
            arity: self.arity as int,
            leaf: self.cur_leaf@,
            stack: branches(self.branch_stack@),
            out: self.out@,
            nodes: self.nodes@,
        }
    }
}

impl<K: Copy, V, SK: CassSerializer<K>, SV: CassSerializer<V>, SO: CassSerializer<u64>> IndexFileCreator<
    K,
    V,
    SK,
    SV,
    SO,
> {
    /// The encodings of the first `k` entries of a leaf.
    pub open spec fn leaf_entry_bytes(kvs: Seq<(K, V)>, k: int) -> Seq<u8>
        decreases k,
    {
        if k <= 0 || k > kvs.len() {
            Seq::empty()
        } else {
            Self::leaf_entry_bytes(kvs, k - 1) + SK::encoding(&kvs[k - 1].0) + SV::encoding(
                &kvs[k - 1].1,
            )
        }
    }

    /// The encodings of the first `k` entries of a branch.
    pub open spec fn branch_entry_bytes(kvs: Seq<(K, u64)>, k: int) -> Seq<u8>
        decreases k,
    {
        if k <= 0 || k > kvs.len() {
            Seq::empty()
        } else {
            Self::branch_entry_bytes(kvs, k - 1) + SK::encoding(&kvs[k - 1].0) + SO::encoding(
                &kvs[k - 1].1,
            )
        }
    }

    /// Whether the key encoder takes the key of every entry.
    pub open spec fn keys_accepted(kvs: Seq<(K, u64)>) -> bool {
        forall|i: int| 0 <= i < kvs.len() ==> SK::accepts(&(#[trigger] kvs[i]).0)
    }

    /// Whether the encoders take every entry of a leaf.
    pub open spec fn leaf_accepted(kvs: Seq<(K, V)>) -> bool {
        forall|i: int|
            0 <= i < kvs.len() ==> SK::accepts(&(#[trigger] kvs[i]).0) && SV::accepts(&kvs[i].1)
    }

    /// Whether the encoders take every entry of a branch.
    pub open spec fn branch_accepted(kvs: Seq<(K, u64)>) -> bool {
        forall|i: int|
            0 <= i < kvs.len() ==> SK::accepts(&(#[trigger] kvs[i]).0) && SO::accepts(&kvs[i].1)
    }

    /// Whether the encoders take whatever the open branches may still have
    /// written of them: every key they hold, and every offset.
    pub open spec fn stack_accepted(m: IndexModel<K, V>) -> bool {
        &&& forall|o: u64| #[trigger] SO::accepts(&o)
        &&& forall|i: int| 0 <= i < m.stack.len() ==> Self::keys_accepted((#[trigger] m.stack[i]).kvs)
    }

    /// Whether the encoders take whatever the builder may still have to
    /// write: the pending leaf's entries, the open branches' keys, and
    /// every offset.
    pub open spec fn accepted(m: IndexModel<K, V>) -> bool {
        Self::stack_accepted(m) && Self::leaf_accepted(m.leaf)
    }

    /// A leaf node on disk: the tag, the 16-bit count, the entries.
    pub open spec fn leaf_bytes(kvs: Seq<(K, V)>) -> Seq<u8> {
        seq![ID_LEAF_NODE] + be_u16(kvs.len() as u16) + Self::leaf_entry_bytes(
            kvs,
            kvs.len() as int,
        )
    }

    /// A branch node on disk: the tag, the 16-bit count, the entries.
    pub open spec fn branch_bytes(kvs: Seq<(K, u64)>) -> Seq<u8> {
        seq![ID_BRANCH_NODE] + be_u16(kvs.len() as u16) + Self::branch_entry_bytes(
            kvs,
            kvs.len() as int,
        )
    }

    /// The builder after the pending leaf was written at the end of the file.
    pub open spec fn write_leaf_model(m: IndexModel<K, V>) -> IndexModel<K, V> {
        IndexModel {
            leaf: Seq::empty(),
            out: m.out + Self::leaf_bytes(m.leaf),
            nodes: m.nodes.push(NodeModel::Leaf { offset: m.out.len() as int, kvs: m.leaf }),
            ..m
        }
    }

    /// The builder after a branch with the given entries was written at the
    /// end of the file.
    pub open spec fn write_branch_model(m: IndexModel<K, V>, kvs: Seq<(K, u64)>) -> IndexModel<K, V> {
        IndexModel {
            out: m.out + Self::branch_bytes(kvs),
            nodes: m.nodes.push(NodeModel::Branch { offset: m.out.len() as int, children: kvs }),
            ..m
        }
    }

    /// The builder after the entry of a node that was written at `level`
    /// was handed to the level above. Where no branch is open there, one is
    /// opened with just this entry; an open one with room takes it; a full
    /// one is written first, its own entry handed up by the same rule, and
    /// a new one opened in its place.
    pub open spec fn bubble_up_model(m: IndexModel<K, V>, level: int, child: (K, u64)) -> IndexModel<
        K,
        V,
    >
        decreases m.stack.len(),
    {
        let fresh = BranchModel { level: level + 1, kvs: seq![child] };
        if m.stack.len() == 0 {
            IndexModel { stack: m.stack.push(fresh), ..m }
        } else {
            let top = m.stack.last();
            if top.level != level + 1 {
                IndexModel { stack: m.stack.push(fresh), ..m }
            } else if top.kvs.len() < m.arity {
                IndexModel {
                    stack: m.stack.drop_last().push(
                        BranchModel { level: top.level, kvs: top.kvs.push(child) },
                    ),
                    ..m
                }
            } else {
                let flushed = Self::write_branch_model(
                    IndexModel { stack: m.stack.drop_last(), ..m },
                    top.kvs,
                );
                let up = Self::bubble_up_model(
                    flushed,
                    level + 1,
                    (top.kvs[0].0, m.out.len() as u64),
                );
                IndexModel { stack: up.stack.push(fresh), ..up }
            }
        }
    }

    /// The builder after one more entry: the entry joins the pending leaf,
    /// and a leaf that thereby reaches `arity` entries is written at once
    /// and handed to the level above.
    pub open spec fn add_entry_model(m: IndexModel<K, V>, key: K, value: V) -> IndexModel<K, V> {
        let filled = IndexModel { leaf: m.leaf.push((key, value)), ..m };
        if filled.leaf.len() < m.arity {
            filled
        } else {
            Self::bubble_up_model(
                Self::write_leaf_model(filled),
                0,
                (filled.leaf[0].0, m.out.len() as u64),
            )
        }
    }

    /// What is left to do once the pending leaf is written: branch by
    /// branch from the lowest, the pending children fill the branch as far
    /// as it has room, the branch is written, and its entry goes in front
    /// of the children that found no room. When no branch is open any more,
    /// a single child is the root; several are written as one last branch.
    pub open spec fn finalize_rest_model(m: IndexModel<K, V>, children: Seq<(K, u64)>) -> Result<
        (u64, IndexModel<K, V>),
        CassError,
    >
        decreases m.stack.len(),
    {
        if m.stack.len() == 0 {
            if children.len() == 1 {
                Ok((children[0].1, m))
            } else if children.len() > 65535 {
                Err(CassError::NodeTooLarge)
            } else {
                Ok((m.out.len() as u64, Self::write_branch_model(m, children)))
            }
        } else {
            let top = m.stack.last();
            let room = m.arity - top.kvs.len();
            let take = if room < children.len() {
                room
            } else {
                children.len() as int
            };
            let kvs = top.kvs + children.take(take);
            let flushed = Self::write_branch_model(IndexModel { stack: m.stack.drop_last(), ..m }, kvs);
            Self::finalize_rest_model(
                flushed,
                seq![(kvs[0].0, m.out.len() as u64)] + children.skip(take),
            )
        }
    }

    /// The root and the builder after the end of the stream: no root where
    /// nothing was added; else the pending leaf, if any, is written and the
    /// open branches are closed from the lowest up.
    pub open spec fn finalize_model(m: IndexModel<K, V>) -> Result<
        (Option<u64>, IndexModel<K, V>),
        CassError,
    > {
        if m.leaf.len() == 0 && m.stack.len() == 0 {
            Ok((None, m))
        } else {
            let rest = if m.leaf.len() > 0 {
                Self::finalize_rest_model(
                    Self::write_leaf_model(m),
                    seq![(m.leaf[0].0, m.out.len() as u64)],
                )
            } else {
                Self::finalize_rest_model(m, Seq::empty())
            };
            match rest {
                Ok((root, done)) => Ok((Some(root), done)),
                Err(e) => Err(e),
            }
        }
    }

    /// A builder for an index whose nodes hold at most `arity` entries, which
    /// writes behind what `out` holds. An arity outside `2..=65535` is refused.
    pub fn new(arity: usize, out: Vec<u8>) -> (r: Result<Self, CassError>)
        ensures
            2 <= arity <= 65535 ==> r is Ok && r->Ok_0@ == (IndexModel::<K, V> {
                arity: arity as int,
                leaf: Seq::empty(),
                stack: Seq::empty(),
                out: out@,
                nodes: Seq::empty(),
            }) && r->Ok_0@.wf(),
            !(2 <= arity <= 65535) ==> r is Err && r->Err_0 == CassError::InvalidArity,
    {
        if arity < 2 || arity > 65535 {
            return Err(CassError::InvalidArity);
        }
        let creator = IndexFileCreator {
            arity,
            cur_leaf: Vec::new(),
            branch_stack: Vec::new(),
            out: CassWrite::new(out),
            nodes: Ghost(Seq::empty()),
            _sk: PhantomData,
            _sv: PhantomData,
            _so: PhantomData,
        };
        assert(creator@.stack =~= Seq::empty());
        Ok(creator)
    }

    /// What handing up an entry from `level` asks of the builder: its
    /// invariant, a node already written below, and no open branch at or
    /// under `level`.
    pub open spec fn bubble_pre(m: IndexModel<K, V>, level: int) -> bool {
        &&& m.wf()
        &&& 0 <= level < m.nodes.len()
        &&& forall|i: int| 0 <= i < m.stack.len() ==> (#[trigger] m.stack[i]).level > level
    }

    /// Encodes the entries of a branch, one after the other, with the
    /// pluggable encoders. Whether an entry is refused is for its encoder to
    /// say; entries that the encoders take are encoded.
    fn encode_branch_entries(kvs: &Vec<(K, u64)>) -> (r: Result<Vec<u8>, CassError>)
        ensures
            r is Ok ==> r->Ok_0@ == Self::branch_entry_bytes(kvs@, kvs@.len() as int),
            Self::branch_accepted(kvs@) ==> r is Ok,
    {
        let mut scratch = CassWrite::new(Vec::new());
        let mut i: usize = 0;
        while i < kvs.len()
            invariant
                i <= kvs@.len(),
                scratch@ == Self::branch_entry_bytes(kvs@, i as int),
            decreases kvs@.len() - i,
        {
            assert(Self::branch_accepted(kvs@) ==> SK::accepts(&kvs@[i as int].0) && SO::accepts(
                &kvs@[i as int].1,
            ));
            SK::ser(&mut scratch, &kvs[i].0)?;
            SO::ser(&mut scratch, &kvs[i].1)?;
            i += 1;
        }
        Ok(scratch.into_inner())
    }

    /// Encodes the entries of a leaf, one after the other, with the
    /// pluggable encoders. Whether an entry is refused is for its encoder to
    /// say; entries that the encoders take are encoded.
    fn encode_leaf_entries(kvs: &Vec<(K, V)>) -> (r: Result<Vec<u8>, CassError>)
        ensures
            r is Ok ==> r->Ok_0@ == Self::leaf_entry_bytes(kvs@, kvs@.len() as int),
            Self::leaf_accepted(kvs@) ==> r is Ok,
    {
        let mut scratch = CassWrite::new(Vec::new());
        let mut i: usize = 0;
        while i < kvs.len()
            invariant
                i <= kvs@.len(),
                scratch@ == Self::leaf_entry_bytes(kvs@, i as int),
            decreases kvs@.len() - i,
        {
            assert(Self::leaf_accepted(kvs@) ==> SK::accepts(&kvs@[i as int].0) && SV::accepts(
                &kvs@[i as int].1,
            ));
            SK::ser(&mut scratch, &kvs[i].0)?;
            SV::ser(&mut scratch, &kvs[i].1)?;
            i += 1;
        }
        Ok(scratch.into_inner())
    }

    /// Writes a branch node at the end of the file and returns its entry:
    /// its lowest key and the offset at which it starts. `encoded` is what
    /// encoding the node's entries gave. A node is written whole or not at
    /// all: encoded entries go to the file behind the tag and the count, and
    /// the node is recorded; an encoder's refusal is handed on and leaves
    /// the builder as it was.
    fn write_branch(
        &mut self,
        n: &CreatorBranchNode<K>,
        encoded: Result<Vec<u8>, CassError>,
    ) -> (r: Result<(K, u64), CassError>)
        requires
            1 <= n.kvs@.len() <= 65535,
        ensures
            match encoded {
                Ok(entries) => {
                    &&& r == Ok::<(K, u64), CassError>(
                        (n.kvs@[0].0, old(self).out@.len() as u64),
                    )
                    &&& final(self)@ == (IndexModel {
                        out: old(self)@.out + (seq![ID_BRANCH_NODE] + be_u16(n.kvs@.len() as u16)
                            + entries@),
                        nodes: old(self)@.nodes.push(
                            NodeModel::Branch {
                                offset: old(self)@.out.len() as int,
                                children: n.kvs@,
                            },
                        ),
                        ..old(self)@
                    })
                },
                Err(e) => r == Err::<(K, u64), CassError>(e) && final(self)@ == old(self)@,
            },
            encoded is Ok && encoded->Ok_0@ == Self::branch_entry_bytes(
                n.kvs@,
                n.kvs@.len() as int,
            ) ==> final(self)@ == Self::write_branch_model(old(self)@, n.kvs@),
    {
        let entries = match encoded {
            Ok(entries) => entries,
            Err(e) => {
                return Err(e);
            },
        };
        let ghost start = self.out@;
        let result: u64 = self.out.position()?;
        let _ = self.out.write_u8(ID_BRANCH_NODE);
        let _ = self.out.write_u16(n.kvs.len() as u16);
        let _ = self.out.write_raw(entries.as_slice());
        self.nodes = Ghost(
            self.nodes@.push(NodeModel::Branch { offset: start.len() as int, children: n.kvs@ }),
        );
        assert(self.out@ =~= start + (seq![ID_BRANCH_NODE] + be_u16(n.kvs@.len() as u16)
            + entries@));
        Ok((n.kvs[0].0, result))
    }

    /// Writes the pending leaf at the end of the file, starts a new empty
    /// one, and returns the written leaf's entry. `encoded` is what encoding
    /// the leaf's entries gave. A node is written whole or not at all:
    /// encoded entries go to the file behind the tag and the count, and the
    /// node is recorded; an encoder's refusal is handed on and leaves the
    /// builder, the pending leaf too, as it was.
    fn write_leaf(&mut self, encoded: Result<Vec<u8>, CassError>) -> (r: Result<(K, u64), CassError>)
        requires
            1 <= old(self).cur_leaf@.len() <= 65535,
        ensures
            match encoded {
                Ok(entries) => {
                    &&& r == Ok::<(K, u64), CassError>(
                        (old(self).cur_leaf@[0].0, old(self).out@.len() as u64),
                    )
                    &&& final(self)@ == (IndexModel {
                        leaf: Seq::empty(),
                        out: old(self)@.out + (seq![ID_LEAF_NODE] + be_u16(
                            old(self)@.leaf.len() as u16,
                        ) + entries@),
                        nodes: old(self)@.nodes.push(
                            NodeModel::Leaf {
                                offset: old(self)@.out.len() as int,
                                kvs: old(self)@.leaf,
                            },
                        ),
                        ..old(self)@
                    })
                },
                Err(e) => r == Err::<(K, u64), CassError>(e) && final(self)@ == old(self)@,
            },
            encoded is Ok && encoded->Ok_0@ == Self::leaf_entry_bytes(
                old(self)@.leaf,
                old(self)@.leaf.len() as int,
            ) ==> final(self)@ == Self::write_leaf_model(old(self)@),
    {
        let entries = match encoded {
            Ok(entries) => entries,
            Err(e) => {
                return Err(e);
            },
        };
        let ghost start = self.out@;
        let ghost kvs = self.cur_leaf@;
        let result: u64 = self.out.position()?;
        let _ = self.out.write_u8(ID_LEAF_NODE);
        let _ = self.out.write_u16(self.cur_leaf.len() as u16);
        let _ = self.out.write_raw(entries.as_slice());
        let key: K = self.cur_leaf[0].0;
        self.nodes = Ghost(self.nodes@.push(NodeModel::Leaf { offset: start.len() as int, kvs }));
        self.cur_leaf = Vec::new();
        assert(self.out@ =~= start + (seq![ID_LEAF_NODE] + be_u16(kvs.len() as u16) + entries@));
        Ok((key, result))
    }

    /// A new branch at `level` that holds just `child`.
    fn open_branch(level: usize, child: &(K, u64)) -> (b: CreatorBranchNode<K>)
        ensures
            b@ == (BranchModel { level: level as int, kvs: seq![*child] }),
    {
        let mut kvs: Vec<(K, u64)> = Vec::new();
        kvs.push(*child);
        assert(kvs@ =~= seq![*child]);
        CreatorBranchNode { level, kvs }
    }

    /// Hands the entry of a node written at `cur_child_level` to the level above.
    fn bubble_up_rec(&mut self, cur_child_level: usize, cur_child: &(K, u64)) -> (r: Result<
        (),
        CassError,
    >)
        requires
            Self::bubble_pre(old(self)@, cur_child_level as int),
        ensures
            r is Ok ==> final(self)@ == Self::bubble_up_model(
                old(self)@,
                cur_child_level as int,
                *cur_child,
            ),
            old(self)@.stack.len() == 0 || old(self)@.stack.last().level != cur_child_level + 1
                || old(self)@.stack.last().kvs.len() < old(self)@.arity ==> r is Ok,
            Self::stack_accepted(old(self)@) ==> r is Ok,
        decreases old(self).branch_stack@.len(),
    {
        let ghost m = self@;
        let ghost fresh = BranchModel { level: cur_child_level + 1, kvs: seq![*cur_child] };
        proof {
            self.out.lemma_len_fits();
        }
        match self.branch_stack.pop() {
            None => {
                self.branch_stack.push(
                    Self::open_branch(cur_child_level + 1, cur_child),
                );
                assert(self@.stack =~= m.stack.push(fresh));
            },
            Some(top) => {
                let mut branch = top;
                assert(branch@ == m.stack.last());
                if branch.level != cur_child_level + 1 {
                    self.branch_stack.push(branch);
                    self.branch_stack.push(
                        Self::open_branch(cur_child_level + 1, cur_child),
                    );
                    assert(self@.stack =~= m.stack.push(fresh));
                } else if branch.kvs.len() < self.arity {
                    branch.kvs.push(*cur_child);
                    self.branch_stack.push(branch);
                    assert(self@.stack =~= m.stack.drop_last().push(
                        BranchModel {
                            level: m.stack.last().level,
                            kvs: m.stack.last().kvs.push(*cur_child),
                        },
                    ));
                } else {
                    assert(self@.stack =~= m.stack.drop_last());
                    assert(Self::stack_accepted(m) ==> Self::branch_accepted(branch.kvs@)) by {
                        if Self::stack_accepted(m) {
                            assert(Self::keys_accepted(m.stack[m.stack.len() - 1].kvs));
                        }
                    }
                    let encoded = Self::encode_branch_entries(&branch.kvs);
                    let flushed = self.write_branch(&branch, encoded)?;
                    let ghost written = self@;
                    assert(Self::bubble_pre(written, cur_child_level + 1));
                    assert(Self::stack_accepted(m) ==> Self::stack_accepted(written)) by {
                        if Self::stack_accepted(m) {
                            assert forall|i: int| 0 <= i < written.stack.len() implies Self::keys_accepted(
                                (#[trigger] written.stack[i]).kvs,
                            ) by {
                                assert(written.stack[i] == m.stack[i]);
                            }
                        }
                    }
                    self.bubble_up_rec(cur_child_level + 1, &flushed)?;
                    let ghost up = self@;
                    self.branch_stack.push(
                        Self::open_branch(cur_child_level + 1, cur_child),
                    );
                    assert(self@.stack =~= up.stack.push(fresh));
                }
            },
        }
        Ok(())
    }

    /// Writes the pending leaf, if there is one, and hands its entry up.
    fn flush_leaf(&mut self) -> (r: Result<(), CassError>)
        requires
            old(self)@.leaf.len() <= 65535,
            old(self)@.leaf.len() > 0 ==> Self::write_leaf_model(old(self)@).wf(),
        ensures
            r is Ok ==> final(self)@ == (if old(self)@.leaf.len() == 0 {
                old(self)@
            } else {
                Self::bubble_up_model(
                    Self::write_leaf_model(old(self)@),
                    0,
                    (old(self)@.leaf[0].0, old(self)@.out.len() as u64),
                )
            }),
            old(self)@.leaf.len() == 0 ==> r is Ok,
            Self::accepted(old(self)@) ==> r is Ok,
    {
        if self.cur_leaf.len() == 0 {
            Ok(())
        } else {
            let encoded = Self::encode_leaf_entries(&self.cur_leaf);
            let kv = self.write_leaf(encoded)?;
            self.bubble_up_rec(0, &kv)
        }
    }

    /// Adds one entry. Entries must come in key order. A leaf that reaches
    /// `arity` entries is written at once. Nothing is written, and nothing
    /// can fail, while the pending leaf still has room; and nothing fails
    /// as long as the encoders take what is written.
    pub fn add_entry(&mut self, key: K, value: V) -> (r: Result<(), CassError>)
        requires
            old(self)@.wf(),
        ensures
            r is Ok ==> final(self)@ == Self::add_entry_model(old(self)@, key, value),
            r is Ok ==> final(self)@.wf(),
            old(self)@.leaf.len() + 1 < old(self)@.arity ==> r is Ok,
            Self::accepted(old(self)@) && SK::accepts(&key) && SV::accepts(&value) ==> r is Ok
                && Self::accepted(final(self)@),
    {
        proof {
            Self::lemma_add_entry_keeps_wf(self@, key, value);
            if Self::accepted(self@) && SK::accepts(&key) && SV::accepts(&value) {
                Self::lemma_add_entry_keeps_accepted(self@, key, value);
            }
        }
        self.cur_leaf.push((key, value));
        assert(Self::accepted(old(self)@) && SK::accepts(&key) && SV::accepts(&value)
            ==> Self::accepted(self@)) by {
            if Self::accepted(old(self)@) && SK::accepts(&key) && SV::accepts(&value) {
                assert forall|i: int| 0 <= i < self@.leaf.len() implies SK::accepts(
                    &(#[trigger] self@.leaf[i]).0,
                ) && SV::accepts(&self@.leaf[i].1) by {
                    if i < old(self)@.leaf.len() {
                        assert(self@.leaf[i] == old(self)@.leaf[i]);
                    }
                }
                assert forall|i: int| 0 <= i < self@.stack.len() implies Self::keys_accepted(
                    (#[trigger] self@.stack[i]).kvs,
                ) by {
                    assert(self@.stack[i] == old(self)@.stack[i]);
                }
            }
        }
        if self.cur_leaf.len() >= self.arity {
            self.flush_leaf()
        } else {
            Ok(())
        }
    }

    /// Ends the build: writes what is pending and returns the offset of the
    /// root node, `None` for an index without entries, together with the
    /// bytes of the file. Nothing is written for an empty index. Where the
    /// encoders take what is written, the build fails only if the root would
    /// hold more entries than a node's count can say.
    pub fn finalize(self) -> (r: Result<(Option<u64>, Vec<u8>), CassError>)
        requires
            self@.wf(),
        ensures
            r is Ok ==> Self::finalize_model(self@) is Ok && r->Ok_0.0 == Self::finalize_model(
                self@,
            )->Ok_0.0 && r->Ok_0.1@ == Self::finalize_model(self@)->Ok_0.1.out,
            Self::finalize_model(self@) is Err ==> r is Err,
            self@.leaf.len() == 0 && self@.stack.len() == 0 ==> r is Ok,
            Self::accepted(self@) && Self::finalize_model(self@) is Ok ==> r is Ok,
            Self::accepted(self@) && r is Err ==> r->Err_0 == CassError::NodeTooLarge,
    {
        let ghost initial = self@;
        let ghost owed = Self::accepted(initial);
        let mut this = self;
        if this.cur_leaf.len() == 0 && this.branch_stack.len() == 0 {
            return Ok((None, this.out.into_inner()));
        }
        let mut cur_children: Vec<(K, u64)> = Vec::new();
        if this.cur_leaf.len() > 0 {
            let encoded = Self::encode_leaf_entries(&this.cur_leaf);
            let entry = this.write_leaf(encoded)?;
            cur_children.push(entry);
            assert(cur_children@ =~= seq![entry]);
            assert(owed ==> SK::accepts(&initial.leaf[0].0));
        }
        let ghost target = Self::finalize_rest_model(this@, cur_children@);
        assert(owed ==> Self::stack_accepted(this@)) by {
            if owed {
                assert forall|i: int| 0 <= i < this@.stack.len() implies Self::keys_accepted(
                    (#[trigger] this@.stack[i]).kvs,
                ) by {
                    assert(this@.stack[i] == initial.stack[i]);
                }
            }
        }
        while this.branch_stack.len() > 0
            invariant
                2 <= this.arity <= 65535,
                initial == self@,
                owed == Self::accepted(initial),
                Self::finalize_model(initial) is Ok ==> target is Ok,
                owed ==> Self::stack_accepted(this@),
                owed ==> Self::keys_accepted(cur_children@),
                !(initial.leaf.len() == 0 && initial.stack.len() == 0),
                forall|i: int|
                    0 <= i < this@.stack.len() ==> 1 <= (#[trigger] this@.stack[i]).kvs.len()
                        <= this.arity,
                cur_children@.len() >= 1 || this.branch_stack@.len() >= 1,
                Self::finalize_rest_model(this@, cur_children@) == target,
            decreases this.branch_stack@.len(),
        {
            let ghost m = this@;
            let ghost children = cur_children@;
            let mut branch = this.branch_stack.pop().unwrap();
            assert(this@.stack =~= m.stack.drop_last());
            assert(branch@ == m.stack.last());
            let room: usize = this.arity - branch.kvs.len();
            let take: usize = if room < cur_children.len() {
                room
            } else {
                cur_children.len()
            };
            assert(owed ==> Self::keys_accepted(branch.kvs@)) by {
                if owed {
                    assert(Self::keys_accepted(m.stack[m.stack.len() - 1].kvs));
                }
            }
            let mut j: usize = 0;
            while j < take
                invariant
                    j <= take <= cur_children@.len(),
                    owed ==> Self::keys_accepted(cur_children@),
                    owed ==> Self::keys_accepted(branch.kvs@),
                    owed ==> forall|o: u64| #[trigger] SO::accepts(&o),
                    m.stack.len() > 0,
                    take <= this.arity - m.stack.last().kvs.len(),
                    branch.level == m.stack.last().level,
                    branch.kvs@ == m.stack.last().kvs + cur_children@.take(j as int),
                decreases take - j,
            {
                let ghost before = branch.kvs@;
                branch.kvs.push(cur_children[j]);
                assert(owed ==> Self::keys_accepted(branch.kvs@)) by {
                    if owed {
                        assert forall|i: int| 0 <= i < branch.kvs@.len() implies SK::accepts(
                            &(#[trigger] branch.kvs@[i]).0,
                        ) by {
                            if i < before.len() {
                                assert(branch.kvs@[i] == before[i]);
                            } else {
                                assert(branch.kvs@[i] == cur_children@[j as int]);
                            }
                        }
                    }
                }
                assert(cur_children@.take(j + 1) =~= cur_children@.take(j as int).push(
                    cur_children@[j as int],
                ));
                assert(branch.kvs@ =~= m.stack.last().kvs + cur_children@.take(j + 1));
                j += 1;
            }
            assert(owed ==> Self::branch_accepted(branch.kvs@));
            let encoded = Self::encode_branch_entries(&branch.kvs);
            let flushed = this.write_branch(&branch, encoded)?;
            assert(owed ==> Self::stack_accepted(this@)) by {
                if owed {
                    assert forall|i: int| 0 <= i < this@.stack.len() implies Self::keys_accepted(
                        (#[trigger] this@.stack[i]).kvs,
                    ) by {
                        assert(this@.stack[i] == m.stack[i]);
                    }
                }
            }
            let mut new_children: Vec<(K, u64)> = Vec::new();
            new_children.push(flushed);
            assert(owed ==> Self::keys_accepted(new_children@)) by {
                if owed {
                    assert(SK::accepts(&branch.kvs@[0].0));
                }
            }
            let mut j: usize = take;
            while j < cur_children.len()
                invariant
                    take <= j <= cur_children@.len(),
                    owed ==> Self::keys_accepted(cur_children@),
                    owed ==> Self::keys_accepted(new_children@),
                    new_children@ == seq![flushed] + cur_children@.subrange(take as int, j as int),
                decreases cur_children@.len() - j,
            {
                let ghost before = new_children@;
                new_children.push(cur_children[j]);
                assert(owed ==> Self::keys_accepted(new_children@)) by {
                    if owed {
                        assert forall|i: int| 0 <= i < new_children@.len() implies SK::accepts(
                            &(#[trigger] new_children@[i]).0,
                        ) by {
                            if i < before.len() {
                                assert(new_children@[i] == before[i]);
                            } else {
                                assert(new_children@[i] == cur_children@[j as int]);
                            }
                        }
                    }
                }
                assert(new_children@ =~= seq![flushed] + cur_children@.subrange(
                    take as int,
                    j + 1,
                ));
                j += 1;
            }
            assert(new_children@ =~= seq![flushed] + children.skip(take as int));
            cur_children = new_children;
        }
        assert(this@.stack.len() == 0);
        if cur_children.len() == 1 {
            Ok((Some(cur_children[0].1), this.out.into_inner()))
        } else if cur_children.len() > 65535 {
            Err(CassError::NodeTooLarge)
        } else {
            let root = CreatorBranchNode { level: 1, kvs: cur_children };
            assert(owed ==> Self::branch_accepted(root.kvs@));
            let encoded = Self::encode_branch_entries(&root.kvs);
            let entry = this.write_branch(&root, encoded)?;
            Ok((Some(entry.1), this.out.into_inner()))
        }
    }

    /// Handing an entry up keeps the builder's invariant, opens no branch at
    /// or under the level it came from, and forgets no node.
    pub proof fn lemma_bubble_up_keeps_wf(m: IndexModel<K, V>, level: int, child: (K, u64))
        requires
            Self::bubble_pre(m, level),
        ensures
            Self::bubble_up_model(m, level, child).wf(),
            Self::bubble_up_model(m, level, child).stack.len() >= 1,
            Self::bubble_up_model(m, level, child).nodes.len() >= m.nodes.len(),
            Self::bubble_up_model(m, level, child).leaf == m.leaf,
            Self::bubble_up_model(m, level, child).arity == m.arity,
            forall|i: int|
                0 <= i < Self::bubble_up_model(m, level, child).stack.len() ==> (
                #[trigger] Self::bubble_up_model(m, level, child).stack[i]).level > level,
        decreases m.stack.len(),
    {
        if m.stack.len() > 0 {
            let top = m.stack.last();
            if top.level == level + 1 && top.kvs.len() >= m.arity {
                let flushed = Self::write_branch_model(
                    IndexModel { stack: m.stack.drop_last(), ..m },
                    top.kvs,
                );
                assert(Self::bubble_pre(flushed, level + 1));
                Self::lemma_bubble_up_keeps_wf(flushed, level + 1, (top.kvs[0].0, m.out.len() as u64));
            }
        }
    }

    /// Every insertion keeps the builder's invariant: whatever was written
    /// holds between one and `arity` entries per node.
    pub proof fn lemma_add_entry_keeps_wf(m: IndexModel<K, V>, key: K, value: V)
        requires
            m.wf(),
        ensures
            Self::add_entry_model(m, key, value).wf(),
    {
        let filled = IndexModel { leaf: m.leaf.push((key, value)), ..m };
        if filled.leaf.len() >= m.arity {
            let written = Self::write_leaf_model(filled);
            assert(Self::bubble_pre(written, 0));
            Self::lemma_bubble_up_keeps_wf(written, 0, (filled.leaf[0].0, m.out.len() as u64));
        }
    }

    /// Handing up an entry whose key the encoder takes keeps the open
    /// branches to keys that it takes.
    pub proof fn lemma_bubble_up_keeps_accepted(m: IndexModel<K, V>, level: int, child: (K, u64))
        requires
            m.arity >= 1,
            Self::stack_accepted(m),
            SK::accepts(&child.0),
        ensures
            Self::stack_accepted(Self::bubble_up_model(m, level, child)),
        decreases m.stack.len(),
    {
        let after = Self::bubble_up_model(m, level, child);
        let fresh = BranchModel { level: level + 1, kvs: seq![child] };
        assert(Self::keys_accepted(fresh.kvs));
        if m.stack.len() == 0 || m.stack.last().level != level + 1 {
            assert forall|i: int| 0 <= i < after.stack.len() implies Self::keys_accepted(
                (#[trigger] after.stack[i]).kvs,
            ) by {
                if i < m.stack.len() {
                    assert(after.stack[i] == m.stack[i]);
                }
            }
        } else if m.stack.last().kvs.len() < m.arity {
            let top = m.stack.last();
            assert(Self::keys_accepted(m.stack[m.stack.len() - 1].kvs));
            let grown = top.kvs.push(child);
            assert forall|j: int| 0 <= j < grown.len() implies SK::accepts(&(#[trigger] grown[j]).0) by {
                if j < top.kvs.len() {
                    assert(grown[j] == top.kvs[j]);
                }
            }
            assert forall|i: int| 0 <= i < after.stack.len() implies Self::keys_accepted(
                (#[trigger] after.stack[i]).kvs,
            ) by {
                if i < m.stack.len() - 1 {
                    assert(after.stack[i] == m.stack[i]);
                }
            }
        } else {
            let top = m.stack.last();
            assert(Self::keys_accepted(m.stack[m.stack.len() - 1].kvs));
            let flushed = Self::write_branch_model(
                IndexModel { stack: m.stack.drop_last(), ..m },
                top.kvs,
            );
            assert forall|i: int| 0 <= i < flushed.stack.len() implies Self::keys_accepted(
                (#[trigger] flushed.stack[i]).kvs,
            ) by {
                assert(flushed.stack[i] == m.stack[i]);
            }
            let entry = (top.kvs[0].0, m.out.len() as u64);
            assert(SK::accepts(&top.kvs[0].0));
            Self::lemma_bubble_up_keeps_accepted(flushed, level + 1, entry);
            let up = Self::bubble_up_model(flushed, level + 1, entry);
            assert forall|i: int| 0 <= i < after.stack.len() implies Self::keys_accepted(
                (#[trigger] after.stack[i]).kvs,
            ) by {
                if i < up.stack.len() {
                    assert(after.stack[i] == up.stack[i]);
                }
            }
        }
    }

    /// An insertion of an entry that the encoders take keeps the builder to
    /// what they take.
    pub proof fn lemma_add_entry_keeps_accepted(m: IndexModel<K, V>, key: K, value: V)
        requires
            m.arity >= 1,
            Self::accepted(m),
            SK::accepts(&key),
            SV::accepts(&value),
        ensures
            Self::accepted(Self::add_entry_model(m, key, value)),
    {
        let filled = IndexModel { leaf: m.leaf.push((key, value)), ..m };
        assert forall|i: int| 0 <= i < filled.leaf.len() implies SK::accepts(
            &(#[trigger] filled.leaf[i]).0,
        ) && SV::accepts(&filled.leaf[i].1) by {
            if i < m.leaf.len() {
                assert(filled.leaf[i] == m.leaf[i]);
            }
        }
        if filled.leaf.len() >= m.arity {
            let written = Self::write_leaf_model(filled);
            assert forall|i: int| 0 <= i < written.stack.len() implies Self::keys_accepted(
                (#[trigger] written.stack[i]).kvs,
            ) by {
                assert(written.stack[i] == m.stack[i]);
            }
            Self::lemma_bubble_up_keeps_accepted(
                written,
                0,
                (filled.leaf[0].0, m.out.len() as u64),
            );
            Self::lemma_bubble_up_keeps_leaf(written, 0, (filled.leaf[0].0, m.out.len() as u64));
        }
    }

    /// Handing an entry up leaves the pending leaf alone.
    pub proof fn lemma_bubble_up_keeps_leaf(m: IndexModel<K, V>, level: int, child: (K, u64))
        ensures
            Self::bubble_up_model(m, level, child).leaf == m.leaf,
        decreases m.stack.len(),
    {
        if m.stack.len() > 0 && m.stack.last().level == level + 1 && m.stack.last().kvs.len()
            >= m.arity {
            let top = m.stack.last();
            Self::lemma_bubble_up_keeps_leaf(
                Self::write_branch_model(IndexModel { stack: m.stack.drop_last(), ..m }, top.kvs),
                level + 1,
                (top.kvs[0].0, m.out.len() as u64),
            );
        }
    }
}

} // verus!
