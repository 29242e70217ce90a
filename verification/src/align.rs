//! Alignment blocks between a query contig and a reference contig, and the
//! index that groups the accepted ones by query contig.

use vstd::prelude::*;

verus! {

/// The mapping quality that an accepted record carries.
pub const TOP_QUALITY: u8 = 60;

/// One record of a pairwise alignment: the query range `[query_start,
/// query_end)` lies on the reference from `target_start` on, position by
/// position.
#[derive(Clone, Debug, PartialEq, Eq)]
pub struct AlignmentRecord {
    pub query_name: String,
    pub query_start: u32,
    pub query_end: u32,
    pub strand: char,
    pub target_name: String,
    pub target_start: u32,
    pub target_end: u32,
    pub mapping_quality: u8,
}

/// The mathematical value of an [`AlignmentRecord`].
pub ghost struct BlockView {
    pub query_name: Seq<char>,
    pub query_start: int,
    pub query_end: int,
    pub strand: char,
    pub target_name: Seq<char>,
    pub target_start: int,
    pub target_end: int,
    pub mapping_quality: int,
}

impl View for AlignmentRecord {
    type V = BlockView;

    open spec fn view(&self) -> BlockView {
        BlockView {
            query_name: self.query_name@,
            query_start: self.query_start as int,
            query_end: self.query_end as int,
            strand: self.strand,
            target_name: self.target_name@,
            target_start: self.target_start as int,
            target_end: self.target_end as int,
            mapping_quality: self.mapping_quality as int,
        }
    }
}

impl BlockView {
    /// Only forward-strand records of top mapping quality are used.
    pub open spec fn accepted(self) -> bool {
        self.strand == '+' && self.mapping_quality == TOP_QUALITY as int
    }

    /// What is added to a query position to reach its reference position.
    pub open spec fn shift(self) -> int {
        self.target_start - self.query_start
    }
}

/// The values of a list of records.
pub open spec fn block_views(records: Seq<AlignmentRecord>) -> Seq<BlockView> {
    Seq::new(records.len(), |i: int| records[i]@)
}

impl AlignmentRecord {
    /// A copy of the record.
    pub fn duplicate(&self) -> (rec: AlignmentRecord)
        ensures
            rec@ == self@,
    {
        AlignmentRecord {
            query_name: self.query_name.clone(),
            query_start: self.query_start,
            query_end: self.query_end,
            strand: self.strand,
            target_name: self.target_name.clone(),
            target_start: self.target_start,
            target_end: self.target_end,
            mapping_quality: self.mapping_quality,
        }
    }

    /// Whether the record is used at all.
    pub fn is_accepted(&self) -> (b: bool)
        ensures
            b == self@.accepted(),
    {
        self.strand == '+' && self.mapping_quality == TOP_QUALITY
    }
}

/// Keeps the accepted records, in their order, and drops all others.
pub fn read_paf(records: Vec<AlignmentRecord>) -> (kept: Vec<AlignmentRecord>)
    ensures
        block_views(kept@) == block_views(records@).filter(|b: BlockView| b.accepted()),
{
    let ghost pred = |b: BlockView| b.accepted();
    let mut kept: Vec<AlignmentRecord> = Vec::new();
    let mut i: usize = 0;
    proof {
        reveal(Seq::filter);
        assert(block_views(records@).take(0) =~= Seq::<BlockView>::empty());
        assert(block_views(kept@) =~= Seq::<BlockView>::empty());
    }
    while i < records.len()
        invariant
            i <= records.len(),
            pred == (|b: BlockView| b.accepted()),
            block_views(kept@) == block_views(records@).take(i as int).filter(pred),
        decreases records.len() - i,
    {
        let ghost before = block_views(kept@);
        proof {
            reveal(Seq::filter);
            let head = block_views(records@).take(i as int + 1);
            assert(head.drop_last() =~= block_views(records@).take(i as int));
            assert(head.last() == records@[i as int]@);
        }
        if records[i].is_accepted() {
            kept.push(records[i].duplicate());
            assert(block_views(kept@) =~= before.push(records@[i as int]@));
        }
        i += 1;
    }
    proof {
        assert(block_views(records@).take(i as int) =~= block_views(records@));
    }
    kept
}

/// Where a block that starts at `key` goes into `blocks`, which are ordered by
/// query start: behind every block that starts no later.
pub open spec fn slot(blocks: Seq<BlockView>, key: int) -> int
    decreases blocks.len(),
{
    if blocks.len() == 0 {
        0
    } else if blocks.last().query_start <= key {
        blocks.len() as int
    } else {
        slot(blocks.drop_last(), key)
    }
}

/// The accepted records of the query contig `name` among `records`, ordered by
/// query start; records that start together keep their input order.
pub open spec fn blocks_of(records: Seq<BlockView>, name: Seq<char>) -> Seq<BlockView>
    decreases records.len(),
{
    if records.len() == 0 {
        Seq::empty()
    } else {
        let rest = blocks_of(records.drop_last(), name);
        let rec = records.last();
        if rec.accepted() && rec.query_name == name {
            rest.insert(slot(rest, rec.query_start), rec)
        } else {
            rest
        }
    }
}

/// The query contigs that have an accepted record, each once, in the order in
/// which they first appear.
pub open spec fn contigs_of(records: Seq<BlockView>) -> Seq<Seq<char>>
    decreases records.len(),
{
    if records.len() == 0 {
        Seq::empty()
    } else {
        let rest = contigs_of(records.drop_last());
        let rec = records.last();
        if rec.accepted() && !rest.contains(rec.query_name) {
            rest.push(rec.query_name)
        } else {
            rest
        }
    }
}

/// Blocks ordered by query start.
pub open spec fn ordered(blocks: Seq<BlockView>) -> bool {
    forall|i: int, j: int|
        0 <= i < j < blocks.len() ==> blocks[i].query_start <= blocks[j].query_start
}

/// The accepted blocks of one query contig, ordered by query start.
#[derive(Clone, Debug, PartialEq, Eq)]
pub struct ContigBlocks {
    pub name: String,
    pub blocks: Vec<AlignmentRecord>,
}

/// The accepted alignment blocks, grouped by query contig.
#[derive(Clone, Debug, PartialEq, Eq)]
pub struct AlignmentIndex {
    pub groups: Vec<ContigBlocks>,
}

/// Puts `rec` at its slot among `blocks`.
fn insert_block(blocks: &mut Vec<AlignmentRecord>, rec: AlignmentRecord)
    ensures
        block_views(final(blocks)@) == block_views(old(blocks)@).insert(
            slot(block_views(old(blocks)@), rec@.query_start),
            rec@,
        ),
{
    let ghost before = block_views(blocks@);
    let key = rec.query_start;
    let mut at: usize = blocks.len();
    proof {
        assert(before.take(at as int) =~= before);
    }
    while at > 0 && blocks[at - 1].query_start > key
        invariant
            at <= blocks@.len(),
            before == block_views(blocks@),
            slot(before, key as int) == slot(before.take(at as int), key as int),
        decreases at,
    {
        proof {
            assert(before.take(at as int).drop_last() =~= before.take(at as int - 1));
        }
        at -= 1;
    }
    proof {
        if at > 0 {
            assert(before.take(at as int).last() == before[at as int - 1]);
        }
    }
    blocks.insert(at, rec);
    assert(block_views(blocks@) =~= before.insert(at as int, rec@));
}

/// A contig without a group has no accepted record.
pub proof fn lemma_blocks_of_unlisted(records: Seq<BlockView>, name: Seq<char>)
    requires
        !contigs_of(records).contains(name),
    ensures
        blocks_of(records, name) == Seq::<BlockView>::empty(),
    decreases records.len(),
{
    if records.len() > 0 {
        let rest = contigs_of(records.drop_last());
        let rec = records.last();
        if rec.accepted() && !rest.contains(rec.query_name) {
            assert(rest.push(rec.query_name).last() == rec.query_name);
            assert forall|n: Seq<char>| rest.contains(n) implies rest.push(rec.query_name).contains(n) by {
                let i = choose|i: int| 0 <= i < rest.len() && rest[i] == n;
                assert(rest.push(rec.query_name)[i] == n);
            }
        }
        lemma_blocks_of_unlisted(records.drop_last(), name);
    }
}

/// A slot lies within the list; in an ordered list the blocks before it start
/// no later than `key`, and those from it on start later.
pub proof fn lemma_slot(blocks: Seq<BlockView>, key: int)
    ensures
        0 <= slot(blocks, key) <= blocks.len(),
        forall|i: int| slot(blocks, key) <= i < blocks.len() ==> (#[trigger] blocks[i]).query_start > key,
        ordered(blocks) ==> forall|i: int|
            0 <= i < slot(blocks, key) ==> (#[trigger] blocks[i]).query_start <= key,
    decreases blocks.len(),
{
    if blocks.len() > 0 && blocks.last().query_start > key {
        lemma_slot(blocks.drop_last(), key);
        assert forall|i: int| slot(blocks, key) <= i < blocks.len() implies (#[trigger] blocks[i]).query_start
            > key by {
            if i < blocks.len() - 1 {
                assert(blocks.drop_last()[i] == blocks[i]);
            }
        }
        if ordered(blocks) {
            assert forall|i: int, j: int| 0 <= i < j < blocks.drop_last().len() implies blocks.drop_last()[i].query_start
                <= blocks.drop_last()[j].query_start by {
                assert(blocks.drop_last()[i] == blocks[i]);
                assert(blocks.drop_last()[j] == blocks[j]);
            }
            assert forall|i: int| 0 <= i < slot(blocks, key) implies (#[trigger] blocks[i]).query_start
                <= key by {
                assert(blocks.drop_last()[i] == blocks[i]);
            }
        }
    }
}

/// The blocks of a contig are accepted records of that contig, taken from the
/// input, and they are ordered by query start.
pub proof fn lemma_blocks_of(records: Seq<BlockView>, name: Seq<char>)
    ensures
        ordered(blocks_of(records, name)),
        forall|i: int|
            0 <= i < blocks_of(records, name).len() ==> {
                let b = #[trigger] blocks_of(records, name)[i];
                b.accepted() && b.query_name == name && records.contains(b)
            },
    decreases records.len(),
{
    if records.len() > 0 {
        let rest = blocks_of(records.drop_last(), name);
        let rec = records.last();
        lemma_blocks_of(records.drop_last(), name);
        assert forall|i: int| 0 <= i < rest.len() implies records.contains(#[trigger] rest[i]) by {
            let j = choose|j: int|
                0 <= j < records.drop_last().len() && records.drop_last()[j] == rest[i];
            assert(records[j] == rest[i]);
        }
        if rec.accepted() && rec.query_name == name {
            let at = slot(rest, rec.query_start);
            lemma_slot(rest, rec.query_start);
            let all = rest.insert(at, rec);
            assert(records[records.len() - 1] == rec);
            assert forall|i: int| 0 <= i < all.len() implies {
                let b = #[trigger] all[i];
                b.accepted() && b.query_name == name && records.contains(b)
            } by {
                if i < at {
                    assert(all[i] == rest[i]);
                } else if i > at {
                    assert(all[i] == rest[i - 1]);
                }
            }
            assert forall|i: int, j: int| 0 <= i < j < all.len() implies all[i].query_start
                <= all[j].query_start by {
                if i < at {
                    assert(all[i] == rest[i]);
                } else if i > at {
                    assert(all[i] == rest[i - 1]);
                }
                if j < at {
                    assert(all[j] == rest[j]);
                } else if j > at {
                    assert(all[j] == rest[j - 1]);
                }
            }
        }
    }
}

/// The record is accepted and lies on the query contig `name`.
pub open spec fn of_contig(name: Seq<char>) -> spec_fn(BlockView) -> bool {
    |b: BlockView| b.accepted() && b.query_name == name
}

/// The blocks of a contig are all its accepted records, each as often as it
/// stands in the input.
pub proof fn lemma_blocks_of_complete(records: Seq<BlockView>, name: Seq<char>)
    ensures
        blocks_of(records, name).to_multiset() == records.filter(of_contig(name)).to_multiset(),
    decreases records.len(),
{
    reveal(Seq::filter);
    let wanted = of_contig(name);
    if records.len() == 0 {
        assert(blocks_of(records, name) =~= records.filter(wanted));
    } else {
        let rest = blocks_of(records.drop_last(), name);
        let rec = records.last();
        lemma_blocks_of_complete(records.drop_last(), name);
        if wanted(rec) {
            lemma_slot(rest, rec.query_start);
            vstd::seq_lib::to_multiset_insert(rest, slot(rest, rec.query_start), rec);
            vstd::seq_lib::to_multiset_build(records.drop_last().filter(wanted), rec);
        }
    }
}

/// No query contig is listed twice.
pub proof fn lemma_contigs_distinct(records: Seq<BlockView>)
    ensures
        contigs_of(records).no_duplicates(),
    decreases records.len(),
{
    if records.len() > 0 {
        lemma_contigs_distinct(records.drop_last());
    }
}

impl AlignmentIndex {
    /// Groups the accepted records by query contig and orders each group by
    /// query start.
    pub fn build(records: &Vec<AlignmentRecord>) -> (index: AlignmentIndex)
        ensures
            index.indexes(block_views(records@)),
            index.wf(),
    {
        let ghost all = block_views(records@);
        let mut index = AlignmentIndex { groups: Vec::new() };
        let mut k: usize = 0;
        proof {
            assert(index.names() =~= contigs_of(all.take(0)));
        }
        while k < records.len()
            invariant
                k <= records.len(),
                all == block_views(records@),
                index.indexes(all.take(k as int)),
            decreases records.len() - k,
        {
            let ghost seen = all.take(k as int);
            let ghost next = all.take(k as int + 1);
            let ghost names = index.names();
            let ghost groups = index.groups@;
            proof {
                assert(next.drop_last() =~= seen);
                assert(next.last() == records@[k as int]@);
            }
            let rec = &records[k];
            if rec.is_accepted() {
                match index.find(&rec.query_name) {
                    Some(g) => {
                        proof {
                            assert(names[g as int] == rec@.query_name);
                            assert(names.contains(rec@.query_name));
                        }
                        insert_block(&mut index.groups[g].blocks, rec.duplicate());
                        proof {
                            assert(index.groups@.len() == groups.len());
                            assert forall|h: int| 0 <= h < groups.len() implies index.groups@[h].name@
                                == groups[h].name@ by {}
                            assert(index.names() =~= names);
                            assert forall|h: int| 0 <= h < index.groups@.len() implies block_views(
                                #[trigger] index.groups@[h].blocks@,
                            ) == blocks_of(next, index.groups@[h].name@) by {
                                assert(block_views(groups[h].blocks@) == blocks_of(
                                    seen,
                                    groups[h].name@,
                                ));
                                if h != g {
                                    lemma_contigs_distinct(seen);
                                    assert(names[h] != names[g as int]);
                                    assert(index.groups@[h] == groups[h]);
                                } else {
                                    assert(block_views(index.groups@[h].blocks@) == block_views(
                                        groups[h].blocks@,
                                    ).insert(
                                        slot(block_views(groups[h].blocks@), rec@.query_start),
                                        rec@,
                                    ));
                                    assert(groups[h].name@ == rec@.query_name);
                                }
                            }
                        }
                    },
                    None => {
                        let mut blocks: Vec<AlignmentRecord> = Vec::new();
                        blocks.push(rec.duplicate());
                        index.groups.push(ContigBlocks { name: rec.query_name.clone(), blocks });
                        proof {
                            lemma_blocks_of_unlisted(seen, rec@.query_name);
                            assert(index.names() =~= names.push(rec@.query_name));
                            assert(block_views(blocks@) =~= Seq::<BlockView>::empty().insert(
                                0,
                                rec@,
                            ));
                            assert forall|h: int| 0 <= h < index.groups@.len() implies block_views(
                                #[trigger] index.groups@[h].blocks@,
                            ) == blocks_of(next, index.groups@[h].name@) by {
                                if h < groups.len() {
                                    assert(index.groups@[h] == groups[h]);
                                    assert(block_views(groups[h].blocks@) == blocks_of(
                                        seen,
                                        groups[h].name@,
                                    ));
                                    assert(names[h] == groups[h].name@);
                                    assert(names.contains(names[h]));
                                }
                            }
                        }
                    },
                }
            }
            k += 1;
        }
        proof {
            assert(all.take(k as int) =~= all);
            lemma_contigs_distinct(all);
        }
        index
    }

    /// The names of the groups, in their order.
    pub open spec fn names(&self) -> Seq<Seq<char>> {
        Seq::new(self.groups@.len(), |g: int| self.groups@[g].name@)
    }

    /// The index holds exactly what `records` give: one group for each query
    /// contig with an accepted record, and in it that contig's blocks in order.
    pub open spec fn indexes(&self, records: Seq<BlockView>) -> bool {
        &&& self.names() == contigs_of(records)
        &&& forall|g: int|
            0 <= g < self.groups@.len() ==> block_views(#[trigger] self.groups@[g].blocks@)
                == blocks_of(records, self.groups@[g].name@)
    }

    /// The blocks that the index holds for the query contig `name`: those of
    /// its first group, and none where the contig has no group.
    pub open spec fn blocks(&self, name: Seq<char>) -> Seq<BlockView> {
        match self.names().index_of_first(name) {
            Some(g) => block_views(self.groups@[g].blocks@),
            None => Seq::empty(),
        }
    }

    /// No contig has two groups.
    pub open spec fn wf(&self) -> bool {
        self.names().no_duplicates()
    }

    /// The blocks of the query contig `name`, ordered by query start: none
    /// where the contig has no accepted alignment.
    pub fn blocks_for(&self, name: &String) -> (blocks: Vec<AlignmentRecord>)
        ensures
            block_views(blocks@) == self.blocks(name@),
    {
        let mut blocks: Vec<AlignmentRecord> = Vec::new();
        proof {
            self.names().index_of_first_ensures(name@);
        }
        match self.find(name) {
            Some(g) => {
                assert(self.names().contains(name@));
                assert(self.names().index_of_first(name@) == Some(g as int));
                let group = &self.groups[g].blocks;
                let mut k: usize = 0;
                assert(block_views(blocks@) =~= block_views(group@).take(0));
                while k < group.len()
                    invariant
                        k <= group@.len(),
                        block_views(blocks@) == block_views(group@).take(k as int),
                    decreases group@.len() - k,
                {
                    let ghost before = block_views(blocks@);
                    blocks.push(group[k].duplicate());
                    assert(block_views(blocks@) =~= before.push(group@[k as int]@));
                    assert(block_views(blocks@) =~= block_views(group@).take(k as int + 1));
                    k += 1;
                }
                assert(block_views(group@).take(k as int) =~= block_views(group@));
            },
            None => {
                assert(block_views(blocks@) =~= Seq::<BlockView>::empty());
            },
        }
        blocks
    }

    /// The contigs among `names` that have no accepted alignment, in their
    /// order. No consensus is built for them.
    pub fn unaligned(&self, names: &Vec<String>) -> (missing: Vec<String>)
        ensures
            crate::bed::line_views(missing@) == crate::bed::line_views(names@).filter(
                |name: Seq<char>| !self.names().contains(name),
            ),
    {
        let ghost pred = |name: Seq<char>| !self.names().contains(name);
        let ghost all = crate::bed::line_views(names@);
        let mut missing: Vec<String> = Vec::new();
        let mut i: usize = 0;
        proof {
            reveal(Seq::filter);
            assert(all.take(0) =~= Seq::<Seq<char>>::empty());
            assert(crate::bed::line_views(missing@) =~= all.take(0).filter(pred));
        }
        while i < names.len()
            invariant
                i <= names@.len(),
                all == crate::bed::line_views(names@),
                pred == (|name: Seq<char>| !self.names().contains(name)),
                crate::bed::line_views(missing@) == all.take(i as int).filter(pred),
            decreases names@.len() - i,
        {
            let ghost before = crate::bed::line_views(missing@);
            proof {
                reveal(Seq::filter);
                assert(all.take(i as int + 1).drop_last() =~= all.take(i as int));
                assert(all.take(i as int + 1).last() == names@[i as int]@);
            }
            if self.find(&names[i]).is_none() {
                missing.push(names[i].clone());
                assert(crate::bed::line_views(missing@) =~= before.push(names@[i as int]@));
            }
            i += 1;
        }
        proof {
            assert(all.take(i as int) =~= all);
        }
        missing
    }

    /// The place of the group of `name`, if there is one.
    pub fn find(&self, name: &String) -> (place: Option<usize>)
        ensures
            match place {
                Some(g) => g < self.groups@.len() && self.names()[g as int] == name@
                    && forall|h: int| 0 <= h < g ==> self.names()[h] != name@,
                None => !self.names().contains(name@),
            },
    {
        let mut g: usize = 0;
        while g < self.groups.len()
            invariant
                g <= self.groups@.len(),
                forall|h: int| 0 <= h < g ==> self.names()[h] != name@,
            decreases self.groups@.len() - g,
        {
            if self.groups[g].name == *name {
                return Some(g);
            }
            g += 1;
        }
        None
    }
}

} // verus!
