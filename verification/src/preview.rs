//! The incremental preview: a document is split into blocks, and a block
//! whose content id was already rendered is reused instead of rendered
//! again.

use vstd::prelude::*;
use crate::blocks::{blocks_of, incomplete, is_incomplete, split_into_blocks};
use crate::hashing::{block_id, hash_str};
use crate::highlight::Highlighter;
use crate::markdown::{render_block, rendered};
use crate::style::{copy_lines, lines_view, Line, SpanView};

verus! {

/// The abstract value of a block.
pub struct BlockView {
    pub source: Seq<char>,
    pub id: Seq<char>,
    pub rendered: Seq<Seq<SpanView>>,
    pub incomplete: bool,
}

/// The block for `src` rendered afresh.
pub open spec fn fresh_block(src: Seq<char>) -> BlockView {
    BlockView { source: src, id: block_id(src), rendered: rendered(src), incomplete: incomplete(src) }
}

/// A rendered block of the preview: its source, content id, preview lines
/// and whether its fence is still open.
#[derive(Debug)]
pub struct MdBlock {
    pub source: String,
    pub id: String,
    pub rendered: Vec<Line>,
    pub incomplete: bool,
}

impl View for MdBlock {
    type V = BlockView;

    open spec fn view(&self) -> BlockView {
        BlockView {
            source: self.source@,
            id: self.id@,
            rendered: lines_view(self.rendered@),
            incomplete: self.incomplete,
        }
    }
}

impl MdBlock {
    /// A copy of the block.
    pub fn duplicate(&self) -> (b: MdBlock)
        ensures
            b@ == self@,
    {
        MdBlock {
            source: self.source.clone(),
            id: self.id.clone(),
            rendered: copy_lines(&self.rendered),
            incomplete: self.incomplete,
        }
    }
}

pub open spec fn blocks_view(v: Seq<MdBlock>) -> Seq<BlockView> {
    v.map_values(|b: MdBlock| b@)
}

/// The last index of a block with id `id` among `bs`, or -1.
pub open spec fn last_with_id(bs: Seq<BlockView>, id: Seq<char>) -> int
    decreases bs.len(),
{
    if bs.len() == 0 {
        -1
    } else if bs.last().id == id {
        bs.len() - 1
    } else {
        last_with_id(bs.drop_last(), id)
    }
}

/// What the search for the last block with an id finds.
pub proof fn lemma_last_with_id(bs: Seq<BlockView>, id: Seq<char>)
    ensures
        -1 <= last_with_id(bs, id) < bs.len(),
        last_with_id(bs, id) >= 0 ==> bs[last_with_id(bs, id)].id == id,
        last_with_id(bs, id) < 0 ==> forall|j: int| 0 <= j < bs.len() ==> bs[j].id != id,
    decreases bs.len(),
{
    if bs.len() > 0 {
        lemma_last_with_id(bs.drop_last(), id);
        if last_with_id(bs, id) < 0 {
            assert forall|j: int| 0 <= j < bs.len() implies bs[j].id != id by {
                if j < bs.len() - 1 {
                    assert(bs.drop_last()[j] == bs[j]);
                }
            }
        }
    }
}

/// The block that an update holds for the source `src`, given the
/// blocks `old` of the previous update: the last old block with the same
/// id when there is one, else `src` rendered afresh.
pub open spec fn cached_block(old: Seq<BlockView>, src: Seq<char>) -> BlockView {
    let j = last_with_id(old, block_id(src));
    if j >= 0 {
        old[j]
    } else {
        fresh_block(src)
    }
}

/// How many of the first `n` sources find their id among `old`.
pub open spec fn reuse_count(old: Seq<BlockView>, srcs: Seq<Seq<char>>, n: int) -> nat
    decreases n,
{
    if n <= 0 {
        0
    } else {
        reuse_count(old, srcs, n - 1) + if last_with_id(old, block_id(srcs[n - 1])) >= 0 {
            1nat
        } else {
            0nat
        }
    }
}

/// No block of `old` shares its id with `src` unless its source is `src`.
pub open spec fn no_collision(old: Seq<BlockView>, src: Seq<char>) -> bool {
    forall|j: int| 0 <= j < old.len() && #[trigger] old[j].id == block_id(src) ==> old[j].source == src
}

/// The preview lines of a sequence of blocks, in order.
pub open spec fn flatten_lines(bs: Seq<BlockView>) -> Seq<Seq<SpanView>>
    decreases bs.len(),
{
    if bs.len() == 0 {
        Seq::empty()
    } else {
        flatten_lines(bs.drop_last()) + bs.last().rendered
    }
}

/// The rendered blocks of the last update.
pub struct PreviewCache {
    blocks: Vec<MdBlock>,
}

impl PreviewCache {
    /// Every cached block is its source rendered afresh.
    #[verifier::type_invariant]
    spec fn wf(&self) -> bool {
        forall|i: int| 0 <= i < self.blocks.len() ==> #[trigger] self.blocks@[i]@ == fresh_block(self.blocks@[i]@.source)
    }

    /// The cached blocks, in document order.
    pub closed spec fn view_blocks(&self) -> Seq<BlockView> {
        blocks_view(self.blocks@)
    }

    /// An empty cache.
    pub fn new() -> (c: PreviewCache)
        ensures
            c.view_blocks() == Seq::<BlockView>::empty(),
    {
        let c = PreviewCache { blocks: Vec::new() };
        assert(c.view_blocks() =~= Seq::<BlockView>::empty());
        c
    }

    /// The cached blocks.
    pub fn blocks(&self) -> (b: &Vec<MdBlock>)
        ensures
            blocks_view(b@) == self.view_blocks(),
    {
        &self.blocks
    }

    /// Index of the last cached block with id `id`.
    fn find_id(&self, id: &String) -> (r: Option<usize>)
        ensures
            match r {
                Some(j) => j as int == last_with_id(self.view_blocks(), id@),
                None => last_with_id(self.view_blocks(), id@) < 0,
            },
    {
        let ghost bs = self.view_blocks();
        let mut found: Option<usize> = None;
        let mut i: usize = 0;
        while i < self.blocks.len()
            invariant
                i <= self.blocks.len(),
                bs == blocks_view(self.blocks@),
                match found {
                    Some(j) => j as int == last_with_id(bs.take(i as int), id@),
                    None => last_with_id(bs.take(i as int), id@) < 0,
                },
            decreases self.blocks.len() - i,
        {
            assert(bs.take(i + 1).drop_last() =~= bs.take(i as int));
            if self.blocks[i].id == *id {
                found = Some(i);
            }
            i = i + 1;
        }
        assert(bs.take(self.blocks.len() as int) =~= bs);
        found
    }

    /// Splits `md` into blocks and renders those whose id the previous
    /// update did not hold, reusing the others. Returns how many blocks were
    /// reused and how many rendered.
    pub fn update(&mut self, md: &str, highlighter: &Highlighter) -> (r: (usize, usize))
        ensures
            ({
                let srcs = blocks_of(md@);
                let old_bs = old(self).view_blocks();
                let bs = final(self).view_blocks();
                &&& bs.len() == srcs.len()
                &&& forall|i: int| 0 <= i < srcs.len() ==> #[trigger] bs[i] == cached_block(old_bs, srcs[i])
                &&& forall|i: int|
                    0 <= i < srcs.len() && no_collision(old_bs, srcs[i]) ==> #[trigger] bs[i]
                        == fresh_block(srcs[i])
                &&& forall|i: int| 0 <= i < bs.len() ==> #[trigger] bs[i] == fresh_block(bs[i].source)
                &&& r.0 == reuse_count(old_bs, srcs, srcs.len() as int)
                &&& r.0 + r.1 == srcs.len()
            }),
    {
        proof {
            use_type_invariant(&*self);
        }
        let ghost old_bs = self.view_blocks();
        let sources = split_into_blocks(md);
        let ghost srcs = blocks_of(md@);
        assert(crate::text::views(sources@) == srcs);
        let mut new_blocks: Vec<MdBlock> = Vec::new();
        let mut reused: usize = 0;
        let mut rendered_count: usize = 0;
        let mut i: usize = 0;
        while i < sources.len()
            invariant
                i <= sources.len(),
                srcs == crate::text::views(sources@),
                srcs.len() == sources.len(),
                old_bs == self.view_blocks(),
                forall|k: int|
                    0 <= k < self.blocks.len() ==> #[trigger] self.blocks@[k]@ == fresh_block(
                        self.blocks@[k]@.source,
                    ),
                new_blocks.len() == i,
                forall|k: int| 0 <= k < i ==> #[trigger] new_blocks@[k]@ == cached_block(old_bs, srcs[k]),
                reused == reuse_count(old_bs, srcs, i as int),
                reused + rendered_count == i,
            decreases sources.len() - i,
        {
            let src = &sources[i];
            let id = hash_str(src.as_str());
            proof {
                lemma_last_with_id(old_bs, id@);
            }
            match self.find_id(&id) {
                Some(j) => {
                    new_blocks.push(self.blocks[j].duplicate());
                    reused = reused + 1;
                },
                None => {
                    let lines = render_block(src.as_str(), highlighter);
                    let inc = is_incomplete(src.as_str());
                    new_blocks.push(MdBlock { source: src.clone(), id, rendered: lines, incomplete: inc });
                    rendered_count = rendered_count + 1;
                },
            }
            i = i + 1;
        }
        proof {
            assert forall|k: int|
                0 <= k < srcs.len() && no_collision(old_bs, srcs[k]) implies #[trigger] new_blocks@[k]@
                == fresh_block(srcs[k]) by {
                let j = last_with_id(old_bs, block_id(srcs[k]));
                lemma_last_with_id(old_bs, block_id(srcs[k]));
                if j >= 0 {
                    assert(old_bs[j] == self.blocks@[j]@);
                }
            }
            assert forall|k: int| 0 <= k < new_blocks.len() implies #[trigger] new_blocks@[k]@
                == fresh_block(new_blocks@[k]@.source) by {
                let j = last_with_id(old_bs, block_id(srcs[k]));
                lemma_last_with_id(old_bs, block_id(srcs[k]));
                if j >= 0 {
                    assert(old_bs[j] == self.blocks@[j]@);
                }
            }
        }
        self.blocks = new_blocks;
        assert(self.view_blocks() =~= Seq::new(srcs.len(), |k: int| cached_block(old_bs, srcs[k])));
        (reused, rendered_count)
    }

    /// All preview lines, block after block.
    pub fn all_lines(&self) -> (out: Vec<Line>)
        ensures
            lines_view(out@) == flatten_lines(self.view_blocks()),
    {
        let ghost bs = self.view_blocks();
        let mut out: Vec<Line> = Vec::new();
        let mut i: usize = 0;
        while i < self.blocks.len()
            invariant
                i <= self.blocks.len(),
                bs == blocks_view(self.blocks@),
                lines_view(out@) == flatten_lines(bs.take(i as int)),
            decreases self.blocks.len() - i,
        {
            let b = &self.blocks[i];
            let mut k: usize = 0;
            let ghost base = lines_view(out@);
            while k < b.rendered.len()
                invariant
                    k <= b.rendered.len(),
                    lines_view(out@) == base + lines_view(b.rendered@).take(k as int),
                decreases b.rendered.len() - k,
            {
                let ghost before = out@;
                out.push(b.rendered[k].duplicate());
                assert(lines_view(out@) =~= lines_view(before).push(b.rendered@[k as int]@));
                assert(lines_view(b.rendered@).take(k + 1) =~= lines_view(b.rendered@).take(k as int).push(
                    b.rendered@[k as int]@,
                ));
                k = k + 1;
            }
            assert(lines_view(b.rendered@).take(b.rendered.len() as int) =~= lines_view(b.rendered@));
            assert(bs.take(i + 1).drop_last() =~= bs.take(i as int));
            i = i + 1;
        }
        assert(bs.take(self.blocks.len() as int) =~= bs);
        out
    }
}

/// The block an update holds for `src` carries the id of `src`.
pub proof fn lemma_cached_id(old: Seq<BlockView>, src: Seq<char>)
    ensures
        cached_block(old, src).id == block_id(src),
{
    lemma_last_with_id(old, block_id(src));
}

/// When every block `bs[i]` carries the id of `srcs[i]`, every one of the
/// first `n` sources finds its id among `bs`.
proof fn lemma_reuse_all(bs: Seq<BlockView>, srcs: Seq<Seq<char>>, n: int)
    requires
        0 <= n <= srcs.len() == bs.len(),
        forall|i: int| 0 <= i < srcs.len() ==> #[trigger] bs[i].id == block_id(srcs[i]),
    ensures
        reuse_count(bs, srcs, n) == n,
    decreases n,
{
    if n > 0 {
        lemma_reuse_all(bs, srcs, n - 1);
        lemma_last_with_id(bs, block_id(srcs[n - 1]));
        assert(bs[n - 1].id == block_id(srcs[n - 1]));
    }
}

/// Updating the preview a second time with the same text reuses every
/// block; and when no two blocks of the text share an id without sharing
/// their source, it keeps each block as the first update left it.
pub proof fn update_again_reuses_all(old: Seq<BlockView>, md: Seq<char>, bs: Seq<BlockView>)
    requires
        bs.len() == blocks_of(md).len(),
        forall|i: int| 0 <= i < blocks_of(md).len() ==> #[trigger] bs[i] == cached_block(old, blocks_of(md)[i]),
    ensures
        reuse_count(bs, blocks_of(md), blocks_of(md).len() as int) == blocks_of(md).len(),
        (forall|i: int, k: int|
            0 <= i < blocks_of(md).len() && 0 <= k < blocks_of(md).len() && #[trigger] block_id(blocks_of(md)[i])
                == #[trigger] block_id(blocks_of(md)[k]) ==> blocks_of(md)[i] == blocks_of(md)[k])
            ==> forall|i: int| 0 <= i < blocks_of(md).len() ==> #[trigger] cached_block(bs, blocks_of(md)[i]) == bs[i],
{
    let srcs = blocks_of(md);
    assert forall|i: int| 0 <= i < srcs.len() implies #[trigger] bs[i].id == block_id(srcs[i]) by {
        lemma_cached_id(old, srcs[i]);
    }
    lemma_reuse_all(bs, srcs, srcs.len() as int);
    if forall|i: int, k: int|
        0 <= i < srcs.len() && 0 <= k < srcs.len() && #[trigger] block_id(srcs[i]) == #[trigger] block_id(srcs[k])
            ==> srcs[i] == srcs[k] {
        assert forall|i: int| 0 <= i < srcs.len() implies #[trigger] cached_block(bs, srcs[i]) == bs[i] by {
            let id = block_id(srcs[i]);
            lemma_last_with_id(bs, id);
            assert(bs[i].id == id);
            let j = last_with_id(bs, id);
            assert(bs[j].id == block_id(srcs[j]));
            assert(srcs[j] == srcs[i]);
        }
    }
}

/// A block whose text the preview already holds is not rendered again:
/// an update finds a cached block with its id.
pub proof fn unchanged_block_is_reused(old: Seq<BlockView>, src: Seq<char>, j: int)
    requires
        0 <= j < old.len(),
        old[j] == fresh_block(old[j].source),
        old[j].source == src,
    ensures
        last_with_id(old, block_id(src)) >= 0,
{
    lemma_last_with_id(old, block_id(src));
}

} // verus!
