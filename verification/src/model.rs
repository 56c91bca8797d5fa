//! The document tree: typed structural elements over the two text buffers.
//!
//! A frame holds blocks, a paragraph holds inline elements, an info box wraps
//! one frame, and a run is the leaf that carries text: a reference to a byte
//! range of one of the buffers. The text of the document is what its runs
//! address, read depth first in the order of the children, so the document
//! is also a piece table whose runs are the leaves of the tree.

use crate::error::EngineError;
use crate::layout::{
    arrange, BlockFlow, BoxModel, DisplayList, FontBackend, InlineFlow, LayoutBox, LayoutFlow,
    LayoutManager, Rectangle,
};
use crate::table::{splice, PieceTable, Span};
use crate::text::{byte_len, lemma_encode_concat, slice};
use vstd::prelude::*;
use vstd::seq_lib::*;
use vstd::string::*;
use vstd::utf8::*;

verus! {

/// A reference to text: a byte range of the original or of the edit buffer.
#[derive(Clone, Copy, Debug, PartialEq, Eq)]
pub struct TextData {
    pub append: bool,
    pub start_index: usize,
    pub end_index: usize,
}

impl View for TextData {
    type V = Span;

    open spec fn view(&self) -> Span {
        Span { start: self.start_index as int, end: self.end_index as int, in_edits: self.append }
    }
}

/// Ghost model of an inline element.
pub enum InlineModel {
    Run(Span),
}

/// Ghost model of a block element.
pub enum BlockModel {
    Paragraph(Seq<InlineModel>),
    Frame(Seq<BlockModel>),
    InfoBox(Seq<BlockModel>),
}

/// Run: inline text that is contiguously formatted.
#[derive(Debug)]
pub struct Run {
    pub text: TextData,
}

/// Equation: an inline equation.
#[derive(Debug)]
pub struct Equation {}

/// The inline elements.
#[derive(Debug)]
pub enum Inline {
    Run(Run),
}

/// Paragraph: a block element that holds only inline elements.
#[derive(Debug)]
pub struct Paragraph {
    pub children: Vec<Inline>,
}

/// Frame: a block element that holds other blocks.
#[derive(Debug)]
pub struct Frame {
    pub children: Vec<Block>,
}

/// Info box: a block element that wraps one frame.
#[derive(Debug)]
pub struct InfoBox {
    pub child: Frame,
}

/// The block elements.
#[derive(Debug)]
pub enum Block {
    Paragraph(Paragraph),
    Frame(Frame),
    InfoBox(InfoBox),
}

/// The model of an inline element.
pub open spec fn inline_model(inline: Inline) -> InlineModel {
    match inline {
        Inline::Run(run) => InlineModel::Run(run.text@),
    }
}

/// The models of a list of inline elements, in the same order.
pub open spec fn inlines_model(inlines: Seq<Inline>) -> Seq<InlineModel> {
    Seq::new(inlines.len(), |i: int| inline_model(inlines[i]))
}

/// The model of a block: its kind and the models of its children. An info
/// box is modelled by the children of the frame that it wraps.
pub open spec fn block_model(block: Block) -> BlockModel
    decreases block,
{
    match block {
        Block::Paragraph(paragraph) => BlockModel::Paragraph(inlines_model(paragraph.children@)),
        Block::Frame(frame) => BlockModel::Frame(blocks_model(frame.children@)),
        Block::InfoBox(info_box) => BlockModel::InfoBox(blocks_model(info_box.child.children@)),
    }
}

/// The models of a list of blocks, in the same order.
pub open spec fn blocks_model(blocks: Seq<Block>) -> Seq<BlockModel>
    decreases blocks,
{
    Seq::new(
        blocks.len(),
        |i: int|
            if 0 <= i < blocks.len() {
                block_model(blocks[i])
            } else {
                arbitrary()
            },
    )
}

impl View for Run {
    type V = Span;

    open spec fn view(&self) -> Span {
        self.text@
    }
}

impl View for Inline {
    type V = InlineModel;

    open spec fn view(&self) -> InlineModel {
        inline_model(*self)
    }
}

impl View for Paragraph {
    type V = Seq<InlineModel>;

    open spec fn view(&self) -> Seq<InlineModel> {
        inlines_model(self.children@)
    }
}

impl View for Frame {
    type V = Seq<BlockModel>;

    open spec fn view(&self) -> Seq<BlockModel> {
        blocks_model(self.children@)
    }
}

impl View for InfoBox {
    type V = Seq<BlockModel>;

    open spec fn view(&self) -> Seq<BlockModel> {
        blocks_model(self.child.children@)
    }
}

impl View for Block {
    type V = BlockModel;

    open spec fn view(&self) -> BlockModel {
        block_model(*self)
    }
}

/// The span of an inline element.
pub open spec fn inline_span(inline: InlineModel) -> Span {
    match inline {
        InlineModel::Run(span) => span,
    }
}

/// The spans of a list of inline elements, in order.
pub open spec fn inlines_leaves(inlines: Seq<InlineModel>) -> Seq<Span> {
    Seq::new(inlines.len(), |i: int| inline_span(inlines[i]))
}

/// The spans of the runs below a block, in document order: depth first,
/// children in their order.
pub open spec fn block_leaves(block: BlockModel) -> Seq<Span>
    decreases block, 0int,
{
    match block {
        BlockModel::Paragraph(inlines) => inlines_leaves(inlines),
        BlockModel::Frame(blocks) => blocks_leaves(blocks),
        BlockModel::InfoBox(blocks) => blocks_leaves(blocks),
    }
}

/// The leaves of each block of a list, block by block.
pub open spec fn blocks_parts(blocks: Seq<BlockModel>) -> Seq<Seq<Span>>
    decreases blocks, 0int,
{
    Seq::new(
        blocks.len(),
        |i: int|
            if 0 <= i < blocks.len() {
                block_leaves(blocks[i])
            } else {
                arbitrary()
            },
    )
}

/// The spans of the runs below a list of blocks, in document order.
pub open spec fn blocks_leaves(blocks: Seq<BlockModel>) -> Seq<Span>
    decreases blocks, 1int,
{
    blocks_parts(blocks).flatten()
}

/// The leaves of a list of blocks with one more block at its end are the
/// leaves of the list followed by those of the block.
pub proof fn lemma_blocks_leaves_push(blocks: Seq<BlockModel>, block: BlockModel)
    ensures
        blocks_leaves(blocks.push(block)) == blocks_leaves(blocks) + block_leaves(block),
{
    assert(blocks_parts(blocks.push(block)) == blocks_parts(blocks).push(block_leaves(block)));
    blocks_parts(blocks).lemma_flatten_push(block_leaves(block));
}

/// No block, no leaf.
pub proof fn lemma_blocks_leaves_empty()
    ensures
        blocks_leaves(Seq::empty()) == Seq::<Span>::empty(),
{
    assert(blocks_parts(Seq::empty()) == Seq::<Seq<Span>>::empty());
}

/// The leaves of the first `count + 1` blocks are the leaves of the first
/// `count` followed by those of the next block.
pub proof fn lemma_blocks_leaves_take(blocks: Seq<BlockModel>, count: int)
    requires
        0 <= count < blocks.len(),
    ensures
        blocks_leaves(blocks.take(count + 1)) == blocks_leaves(blocks.take(count)) + block_leaves(
            blocks[count],
        ),
        blocks_leaves(blocks.take(0)) == Seq::<Span>::empty(),
        blocks.take(blocks.len() as int) == blocks,
{
    assert(blocks.take(count + 1) == blocks.take(count).push(blocks[count]));
    lemma_blocks_leaves_push(blocks.take(count), blocks[count]);
    assert(blocks.take(0) == Seq::<BlockModel>::empty());
    lemma_blocks_leaves_empty();
}

/// The leaves of a list of blocks are those of its first `count` blocks
/// followed by those of the rest.
pub proof fn lemma_blocks_leaves_split(blocks: Seq<BlockModel>, count: int)
    requires
        0 <= count <= blocks.len(),
    ensures
        blocks_leaves(blocks) == blocks_leaves(blocks.take(count)) + blocks_leaves(
            blocks.skip(count),
        ),
{
    assert(blocks_parts(blocks) == blocks_parts(blocks.take(count)) + blocks_parts(
        blocks.skip(count),
    ));
    lemma_flatten_concat(blocks_parts(blocks.take(count)), blocks_parts(blocks.skip(count)));
}

/// The runs that carry the given spans, in order.
pub open spec fn runs_of(spans: Seq<Span>) -> Seq<InlineModel> {
    Seq::new(spans.len(), |i: int| InlineModel::Run(spans[i]))
}

/// A list of inline elements with the element at `at` replaced by runs that
/// carry the given spans.
pub open spec fn inlines_replace(
    inlines: Seq<InlineModel>,
    at: int,
    with: Seq<Span>,
) -> Seq<InlineModel> {
    inlines.take(at) + runs_of(with) + inlines.skip(at + 1)
}

/// The number of leaves below the blocks that stand before block `j` of a
/// list.
pub open spec fn leaves_before(blocks: Seq<BlockModel>, j: int) -> int {
    blocks_leaves(blocks.take(j)).len() as int
}

/// Leaf `at` of a list of blocks stands below block `j` of the list.
pub open spec fn holds_leaf(blocks: Seq<BlockModel>, j: int, at: int) -> bool {
    0 <= j < blocks.len() && leaves_before(blocks, j) <= at < leaves_before(blocks, j + 1)
}

/// A block with leaf `at`, counted in document order, replaced by runs
/// that carry the given spans. The runs stand where the leaf stood, in the
/// paragraph of the leaf.
pub open spec fn block_replace(block: BlockModel, at: int, with: Seq<Span>) -> BlockModel
    decreases block, 0int,
{
    match block {
        BlockModel::Paragraph(inlines) => BlockModel::Paragraph(
            inlines_replace(inlines, at, with),
        ),
        BlockModel::Frame(blocks) => BlockModel::Frame(blocks_replace(blocks, at, with)),
        BlockModel::InfoBox(blocks) => BlockModel::InfoBox(blocks_replace(blocks, at, with)),
    }
}

/// A list of blocks with leaf `at`, counted in document order, replaced by
/// runs that carry the given spans.
pub open spec fn blocks_replace(
    blocks: Seq<BlockModel>,
    at: int,
    with: Seq<Span>,
) -> Seq<BlockModel>
    decreases blocks, 1int,
{
    if exists|j: int| holds_leaf(blocks, j, at) {
        let j = choose|j: int| holds_leaf(blocks, j, at);
        if 0 <= j < blocks.len() {
            blocks.update(j, block_replace(blocks[j], at - leaves_before(blocks, j), with))
        } else {
            blocks
        }
    } else {
        blocks
    }
}

/// The leaves of runs are the spans that the runs carry.
pub proof fn lemma_runs_of_leaves(spans: Seq<Span>)
    ensures
        inlines_leaves(runs_of(spans)) == spans,
{
}

/// The leaves of a list of blocks around one of its blocks: those before
/// the block, those of the block, and those behind it.
pub proof fn lemma_blocks_leaves_around(blocks: Seq<BlockModel>, j: int)
    requires
        0 <= j < blocks.len(),
    ensures
        blocks_leaves(blocks) == blocks_leaves(blocks.take(j)) + block_leaves(blocks[j])
            + blocks_leaves(blocks.skip(j + 1)),
        leaves_before(blocks, j + 1) == leaves_before(blocks, j) + block_leaves(blocks[j]).len(),
        leaves_before(blocks, j + 1) <= blocks_leaves(blocks).len(),
{
    lemma_blocks_leaves_split(blocks, j + 1);
    lemma_blocks_leaves_take(blocks, j);
}

/// The number of leaves before a block does not decrease along the list.
pub proof fn lemma_leaves_before_grows(blocks: Seq<BlockModel>, i: int, j: int)
    requires
        0 <= i <= j <= blocks.len(),
    ensures
        0 <= leaves_before(blocks, i) <= leaves_before(blocks, j) <= blocks_leaves(blocks).len(),
        leaves_before(blocks, blocks.len() as int) == blocks_leaves(blocks).len(),
    decreases j - i,
{
    assert(blocks.take(blocks.len() as int) == blocks);
    lemma_blocks_leaves_split(blocks, j);
    if i < j {
        lemma_blocks_leaves_around(blocks, i);
        lemma_leaves_before_grows(blocks, i + 1, j);
    }
}

/// Every leaf of a list of blocks stands below exactly one block of the
/// list.
pub proof fn lemma_one_block_holds(blocks: Seq<BlockModel>, at: int)
    requires
        0 <= at < blocks_leaves(blocks).len(),
    ensures
        exists|j: int| holds_leaf(blocks, j, at),
        forall|i: int, j: int| holds_leaf(blocks, i, at) && holds_leaf(blocks, j, at) ==> i == j,
{
    lemma_leaves_before_grows(blocks, 0, blocks.len() as int);
    lemma_some_block_holds(blocks, at, blocks.len() as int);
    assert forall|i: int, j: int| holds_leaf(blocks, i, at) && holds_leaf(blocks, j, at) implies i
        == j by {
        if i < j {
            lemma_leaves_before_grows(blocks, i + 1, j);
        }
        if j < i {
            lemma_leaves_before_grows(blocks, j + 1, i);
        }
    }
}

proof fn lemma_some_block_holds(blocks: Seq<BlockModel>, at: int, below: int)
    requires
        0 <= below <= blocks.len(),
        0 <= at < leaves_before(blocks, below),
    ensures
        exists|j: int| holds_leaf(blocks, j, at),
    decreases below,
{
    if below == 0 {
        assert(blocks.take(0) == Seq::<BlockModel>::empty());
        lemma_blocks_leaves_empty();
    } else if leaves_before(blocks, below - 1) <= at {
        assert(holds_leaf(blocks, below - 1, at));
    } else {
        lemma_leaves_before_grows(blocks, 0, below - 1);
        lemma_some_block_holds(blocks, at, below - 1);
    }
}

/// Replacing a block of a list replaces its leaves among those of the list.
pub proof fn lemma_update_leaves(blocks: Seq<BlockModel>, j: int, block: BlockModel)
    requires
        0 <= j < blocks.len(),
    ensures
        blocks_leaves(blocks.update(j, block)) == blocks_leaves(blocks.take(j)) + block_leaves(
            block,
        ) + blocks_leaves(blocks.skip(j + 1)),
{
    let updated = blocks.update(j, block);
    lemma_blocks_leaves_around(updated, j);
    assert(updated.take(j) == blocks.take(j));
    assert(updated.skip(j + 1) == blocks.skip(j + 1));
}

/// Replacing a leaf of a block replaces it among the leaves of the block:
/// the leaves before it and behind it stay, in their order.
pub proof fn lemma_block_replace_leaves(block: BlockModel, at: int, with: Seq<Span>)
    requires
        0 <= at < block_leaves(block).len(),
    ensures
        block_leaves(block_replace(block, at, with)) == block_leaves(block).take(at) + with
            + block_leaves(block).skip(at + 1),
    decreases block, 0int,
{
    match block {
        BlockModel::Paragraph(inlines) => {
            lemma_runs_of_leaves(with);
            assert(inlines_leaves(inlines_replace(inlines, at, with)) == inlines_leaves(
                inlines,
            ).take(at) + with + inlines_leaves(inlines).skip(at + 1));
        },
        BlockModel::Frame(blocks) => {
            lemma_blocks_replace_leaves(blocks, at, with);
        },
        BlockModel::InfoBox(blocks) => {
            lemma_blocks_replace_leaves(blocks, at, with);
        },
    }
}

/// Replacing a leaf of a list of blocks replaces it among the leaves of the
/// list: the leaves before it and behind it stay, in their order.
pub proof fn lemma_blocks_replace_leaves(blocks: Seq<BlockModel>, at: int, with: Seq<Span>)
    requires
        0 <= at < blocks_leaves(blocks).len(),
    ensures
        blocks_leaves(blocks_replace(blocks, at, with)) == blocks_leaves(blocks).take(at) + with
            + blocks_leaves(blocks).skip(at + 1),
    decreases blocks, 1int,
{
    lemma_one_block_holds(blocks, at);
    let j = choose|j: int| holds_leaf(blocks, j, at);
    let before = blocks_leaves(blocks.take(j));
    let inside = block_leaves(blocks[j]);
    let behind = blocks_leaves(blocks.skip(j + 1));
    let local = at - leaves_before(blocks, j);
    lemma_blocks_leaves_around(blocks, j);
    lemma_block_replace_leaves(blocks[j], local, with);
    lemma_update_leaves(blocks, j, block_replace(blocks[j], local, with));
    let whole = blocks_leaves(blocks);
    assert(whole == before + inside + behind);
    assert(whole.take(at) == before + inside.take(local));
    assert(whole.skip(at + 1) == inside.skip(local + 1) + behind);
    assert(before + (inside.take(local) + with + inside.skip(local + 1)) + behind == (before
        + inside.take(local)) + with + (inside.skip(local + 1) + behind));
}

/// The tree after an insertion at the document position `index`.
///
/// Where a run contains the position, its two parts and between them a run
/// for the new text take its place in its paragraph. Where no run does, a
/// new paragraph that holds the run for the new text becomes the last child
/// of the root frame.
pub open spec fn tree_insert(
    tree: Seq<BlockModel>,
    table: PieceTable,
    index: int,
    len: int,
) -> Seq<BlockModel> {
    match table.run_at(index) {
        Some(at) => blocks_replace(
            tree,
            at,
            seq![table.left_of(at, index), table.fresh(len), table.right_of(at, index)],
        ),
        None => tree.push(BlockModel::Paragraph(seq![InlineModel::Run(table.fresh(len))])),
    }
}

/// The leaves of the tree after an insertion are the runs of the piece
/// table after the same insertion.
pub proof fn lemma_tree_insert_leaves(
    tree: Seq<BlockModel>,
    table: PieceTable,
    index: int,
    text: Seq<u8>,
)
    requires
        table.runs == blocks_leaves(tree),
        table.in_bounds(),
        0 <= index,
    ensures
        blocks_leaves(tree_insert(tree, table, index, text.len() as int)) == table.insert(
            index,
            text,
        ).runs,
{
    let fresh = table.fresh(text.len() as int);
    table.lemma_run_at(index);
    match table.run_at(index) {
        Some(at) => {
            let with = seq![table.left_of(at, index), fresh, table.right_of(at, index)];
            lemma_blocks_replace_leaves(tree, at, with);
        },
        None => {
            let paragraph = BlockModel::Paragraph(seq![InlineModel::Run(fresh)]);
            lemma_blocks_leaves_push(tree, paragraph);
            assert(inlines_leaves(seq![InlineModel::Run(fresh)]) == seq![fresh]);
            assert(table.runs.push(fresh) == table.runs + seq![fresh]);
        },
    }
}

/// The models of a list of text references, in the same order.
pub open spec fn text_spans(data: Seq<TextData>) -> Seq<Span> {
    Seq::new(data.len(), |i: int| data[i]@)
}

/// Adds the text references of the runs of a paragraph to `out`, in order.
fn collect_inlines(inlines: &Vec<Inline>, out: &mut Vec<TextData>)
    ensures
        text_spans(final(out)@) == text_spans(old(out)@) + inlines_leaves(inlines_model(inlines@)),
{
    let ghost start = text_spans(out@);
    let ghost leaves = inlines_leaves(inlines_model(inlines@));
    let mut i: usize = 0;
    while i < inlines.len()
        invariant
            i <= inlines.len(),
            leaves == inlines_leaves(inlines_model(inlines@)),
            text_spans(out@) == start + leaves.take(i as int),
        decreases inlines.len() - i,
    {
        let data = match &inlines[i] {
            Inline::Run(run) => run.text,
        };
        assert(leaves[i as int] == data@);
        assert(leaves.take(i + 1) == leaves.take(i as int).push(leaves[i as int]));
        let ghost so_far = text_spans(out@);
        out.push(data);
        assert(text_spans(out@) == so_far.push(data@));
        i += 1;
    }
    assert(leaves.take(i as int) == leaves);
}

/// Adds the text references of the runs below a block to `out`, in document
/// order.
fn collect_block(block: &Block, out: &mut Vec<TextData>)
    ensures
        text_spans(final(out)@) == text_spans(old(out)@) + block_leaves(block@),
    decreases block, 0int,
{
    match block {
        Block::Paragraph(paragraph) => collect_inlines(&paragraph.children, out),
        Block::Frame(frame) => collect_blocks(&frame.children, out),
        Block::InfoBox(info_box) => collect_blocks(&info_box.child.children, out),
    }
}

/// Adds the text references of the runs below a list of blocks to `out`, in
/// document order.
fn collect_blocks(blocks: &Vec<Block>, out: &mut Vec<TextData>)
    ensures
        text_spans(final(out)@) == text_spans(old(out)@) + blocks_leaves(blocks_model(blocks@)),
    decreases blocks, 0int,
{
    let ghost start = text_spans(out@);
    let ghost models = blocks_model(blocks@);
    let mut i: usize = 0;
    proof {
        lemma_blocks_leaves_empty();
        assert(models.take(0) == Seq::<BlockModel>::empty());
    }
    while i < blocks.len()
        invariant
            i <= blocks.len(),
            models == blocks_model(blocks@),
            text_spans(out@) == start + blocks_leaves(models.take(i as int)),
        decreases blocks.len() - i,
    {
        proof {
            lemma_blocks_leaves_take(models, i as int);
            assert(models[i as int] == blocks[i as int]@);
        }
        collect_block(&blocks[i], out);
        i += 1;
    }
    assert(models.take(i as int) == models);
}

/// The spans of the three runs that take the place of a run that is split.
pub open spec fn three(left: TextData, fresh: TextData, right: TextData) -> Seq<Span> {
    seq![left@, fresh@, right@]
}

/// Replaces leaf `at` below a block by the three runs and returns `None`;
/// or, where the block has no more than `at` leaves, leaves the block as it
/// is and returns how far behind its leaves `at` lies.
fn replace_in_block(
    block: &mut Block,
    at: usize,
    left: TextData,
    fresh: TextData,
    right: TextData,
) -> (rest: Option<usize>)
    ensures
        (match rest {
            None => at < block_leaves(old(block)@).len() && final(block)@ == block_replace(
                old(block)@,
                at as int,
                three(left, fresh, right),
            ),
            Some(rest) => rest == at - block_leaves(old(block)@).len() && final(block)@ == old(
                block,
            )@,
        }),
    decreases block_model(*old(block)), 0int,
{
    match block {
        Block::Paragraph(paragraph) => {
            let ghost inlines = paragraph@;
            if at < paragraph.children.len() {
                paragraph.children.set(at, Inline::Run(Run { text: left }));
                paragraph.children.insert(at + 1, Inline::Run(Run { text: fresh }));
                assert(at + 2 <= paragraph.children.len());
                paragraph.children.insert(at + 2, Inline::Run(Run { text: right }));
                assert(paragraph@ == inlines_replace(
                    inlines,
                    at as int,
                    three(left, fresh, right),
                ));
                None
            } else {
                Some(at - paragraph.children.len())
            }
        },
        Block::Frame(frame) => replace_in_blocks(&mut frame.children, at, left, fresh, right),
        Block::InfoBox(info_box) => replace_in_blocks(
            &mut info_box.child.children,
            at,
            left,
            fresh,
            right,
        ),
    }
}

/// Replaces leaf `at` below a list of blocks by the three runs and returns
/// `None`; or, where the blocks have no more than `at` leaves, leaves them
/// as they are and returns how far behind their leaves `at` lies.
fn replace_in_blocks(
    blocks: &mut Vec<Block>,
    at: usize,
    left: TextData,
    fresh: TextData,
    right: TextData,
) -> (rest: Option<usize>)
    ensures
        (match rest {
            None => at < blocks_leaves(blocks_model(old(blocks)@)).len() && blocks_model(
                final(blocks)@,
            ) == blocks_replace(blocks_model(old(blocks)@), at as int, three(left, fresh, right)),
            Some(rest) => rest == at - blocks_leaves(blocks_model(old(blocks)@)).len()
                && blocks_model(final(blocks)@) == blocks_model(old(blocks)@),
        }),
    decreases blocks_model(old(blocks)@), 1int,
{
    let ghost models = blocks_model(blocks@);
    let ghost with = three(left, fresh, right);
    let mut i: usize = 0;
    let mut rest: usize = at;
    let mut done = false;
    proof {
        lemma_blocks_leaves_empty();
        assert(models.take(0) == Seq::<BlockModel>::empty());
    }
    while i < blocks.len() && !done
        invariant
            i <= blocks.len(),
            models == blocks_model(old(blocks)@),
            blocks.len() == models.len(),
            with == three(left, fresh, right),
            !done ==> blocks_model(blocks@) == models && leaves_before(models, i as int) + rest
                == at,
            done ==> i < blocks.len() && holds_leaf(models, i as int, at as int) && blocks_model(
                blocks@,
            ) == models.update(
                i as int,
                block_replace(models[i as int], at - leaves_before(models, i as int), with),
            ),
        decreases blocks.len() - i + (if done { 0int } else { 1int }),
    {
        proof {
            lemma_blocks_leaves_around(models, i as int);
            assert(models[i as int] == blocks[i as int]@);
        }
        match replace_in_block(&mut blocks[i], rest, left, fresh, right) {
            None => {
                done = true;
                assert(blocks_model(blocks@) == models.update(
                    i as int,
                    block_replace(models[i as int], rest as int, with),
                ));
            },
            Some(behind) => {
                assert(blocks_model(blocks@) == models);
                rest = behind;
                i += 1;
            },
        }
    }
    proof {
        lemma_leaves_before_grows(models, 0, models.len() as int);
        if done {
            lemma_blocks_leaves_around(models, i as int);
            lemma_one_block_holds(models, at as int);
        }
    }
    if done {
        None
    } else {
        Some(rest)
    }
}

impl Paragraph {
    /// Adds an inline element after the children that the paragraph has.
    pub fn append_inline(&mut self, inline: Inline)
        ensures
            final(self)@ == old(self)@.push(inline@),
    {
        self.children.push(inline);
    }
}

impl Frame {
    /// Adds a block after the children that the frame has.
    pub fn append_block(&mut self, block: Block)
        ensures
            final(self)@ == old(self)@.push(block@),
    {
        self.children.push(block);
    }
}

/// The box that a layout manager builds for an inline element.
pub open spec fn inline_tree<M: LayoutManager>(visitor: &M, inline: InlineModel) -> BoxModel {
    match inline {
        InlineModel::Run(run) => visitor.run_tree(run),
    }
}

/// The box that a layout manager builds for a block.
pub open spec fn block_tree<M: LayoutManager>(visitor: &M, block: BlockModel) -> BoxModel {
    match block {
        BlockModel::Paragraph(inlines) => visitor.paragraph_tree(inlines),
        BlockModel::Frame(blocks) => visitor.frame_tree(blocks),
        BlockModel::InfoBox(blocks) => visitor.info_box_tree(blocks),
    }
}

/// A thing in the document. It builds its part of the layout tree by handing
/// itself to the method of the layout manager that is meant for its kind.
pub trait Element {
    /// The flow of the box that is built for the element.
    type Flow: LayoutFlow;

    fn build_layout_tree<M: LayoutManager>(&self, visitor: &M) -> LayoutBox<Self::Flow>;
}

impl Element for Paragraph {
    type Flow = BlockFlow;

    fn build_layout_tree<M: LayoutManager>(&self, visitor: &M) -> (tree: LayoutBox<BlockFlow>)
        ensures
            tree.model() == visitor.paragraph_tree(self@),
    {
        visitor.build_paragraph_layout_tree(self)
    }
}

impl Element for Frame {
    type Flow = BlockFlow;

    fn build_layout_tree<M: LayoutManager>(&self, visitor: &M) -> (tree: LayoutBox<BlockFlow>)
        ensures
            tree.model() == visitor.frame_tree(self@),
    {
        visitor.build_frame_layout_tree(self)
    }
}

impl Element for InfoBox {
    type Flow = BlockFlow;

    fn build_layout_tree<M: LayoutManager>(&self, visitor: &M) -> (tree: LayoutBox<BlockFlow>)
        ensures
            tree.model() == visitor.info_box_tree(self@),
    {
        visitor.build_info_box_layout_tree(self)
    }
}

impl Element for Block {
    type Flow = BlockFlow;

    fn build_layout_tree<M: LayoutManager>(&self, visitor: &M) -> (tree: LayoutBox<BlockFlow>)
        ensures
            tree.model() == block_tree(visitor, self@),
    {
        match self {
            Block::Paragraph(paragraph) => paragraph.build_layout_tree(visitor),
            Block::Frame(frame) => frame.build_layout_tree(visitor),
            Block::InfoBox(info_box) => info_box.build_layout_tree(visitor),
        }
    }
}

impl Element for Run {
    type Flow = InlineFlow;

    fn build_layout_tree<M: LayoutManager>(&self, visitor: &M) -> (tree: LayoutBox<InlineFlow>)
        ensures
            tree.model() == visitor.run_tree(self@),
    {
        visitor.build_run_layout_tree(self)
    }
}

impl Element for Inline {
    type Flow = InlineFlow;

    fn build_layout_tree<M: LayoutManager>(&self, visitor: &M) -> (tree: LayoutBox<InlineFlow>)
        ensures
            tree.model() == inline_tree(visitor, self@),
    {
        match self {
            Inline::Run(run) => run.build_layout_tree(visitor),
        }
    }
}

/// The rectangle in which the root of a document is laid out: as wide as the
/// viewport, at its corner, with no height set.
pub open spec fn viewport(width: i32) -> Rectangle {
    Rectangle { x: 0, y: 0, w: width, h: -1i32 }
}

/// A document: the two text buffers and the tree of elements over them.
pub struct Document {
    buffer: String,
    append: String,
    root: Frame,
}

impl Document {
    /// The bytes of the original buffer.
    pub closed spec fn original(&self) -> Seq<u8> {
        encode_utf8(self.buffer@)
    }

    /// The bytes of the edit buffer.
    pub closed spec fn edits(&self) -> Seq<u8> {
        encode_utf8(self.append@)
    }

    /// The children of the root frame.
    pub closed spec fn tree(&self) -> Seq<BlockModel> {
        self.root@
    }

    /// The document as a piece table: its buffers, and as runs the leaves of
    /// its tree in document order.
    pub open spec fn table(&self) -> PieceTable {
        PieceTable {
            original: self.original(),
            edits: self.edits(),
            runs: blocks_leaves(self.tree()),
        }
    }

    /// Every run of the tree addresses whole characters of the buffer it
    /// names.
    pub open spec fn wf(&self) -> bool {
        self.table().wf()
    }

    /// The buffers of every document are UTF-8.
    pub proof fn lemma_buffers_valid(&self)
        ensures
            valid_utf8(self.original()),
            valid_utf8(self.edits()),
    {
        encode_utf8_valid_utf8(self.buffer@);
        encode_utf8_valid_utf8(self.append@);
    }

    /// A document that holds `initial` in its original buffer, as one run in
    /// one paragraph of the root frame; without an initial text, a document
    /// whose root frame is empty.
    pub fn new(initial: Option<&str>) -> (document: Document)
        ensures
            document.wf(),
            document.edits() == Seq::<u8>::empty(),
            (match initial {
                Some(text) => {
                    &&& document.original() == encode_utf8(text@)
                    &&& document.tree() == seq![
                        BlockModel::Paragraph(
                            seq![
                                InlineModel::Run(
                                    Span {
                                        start: 0,
                                        end: encode_utf8(text@).len() as int,
                                        in_edits: false,
                                    },
                                ),
                            ],
                        ),
                    ]
                    &&& document.table().text() == text@
                },
                None => {
                    &&& document.original() == Seq::<u8>::empty()
                    &&& document.tree() == Seq::<BlockModel>::empty()
                    &&& document.table().text() == Seq::<char>::empty()
                },
            }),
    {
        proof {
            assert(encode_utf8(Seq::<char>::empty()) == Seq::<u8>::empty());
            lemma_blocks_leaves_empty();
        }
        match initial {
            Some(text) => {
                let run = Run {
                    text: TextData { start_index: 0, end_index: byte_len(text), append: false },
                };
                let paragraph = Paragraph { children: vec![Inline::Run(run)] };
                let root = Frame { children: vec![Block::Paragraph(paragraph)] };
                let document = Document { buffer: text.to_owned(), append: String::new(), root };
                proof {
                    let span = run.text@;
                    let block = BlockModel::Paragraph(seq![InlineModel::Run(span)]);
                    assert(paragraph@ == seq![InlineModel::Run(span)]);
                    assert(document.tree() == seq![block]);
                    assert(seq![block] == Seq::<BlockModel>::empty().push(block));
                    lemma_blocks_leaves_push(Seq::empty(), block);
                    assert(inlines_leaves(seq![InlineModel::Run(span)]) == seq![span]);
                    let table = document.table();
                    assert(table.runs == seq![span]);
                    document.lemma_buffers_valid();
                    is_char_boundary_start_end_of_seq(table.original);
                    assert(table.is_text(table.runs[0]));
                    table.lemma_span_bytes_one(span);
                    assert(table.with_runs(seq![span]) == table);
                    assert(table.resolve(span) == table.original);
                    encode_utf8_decode_utf8(text@);
                }
                document
            },
            None => {
                let document = Document {
                    buffer: String::new(),
                    append: String::new(),
                    root: Frame { children: Vec::new() },
                };
                proof {
                    assert(document.tree() == Seq::<BlockModel>::empty());
                    let table = document.table();
                    document.lemma_buffers_valid();
                    table.lemma_span_bytes_concat(Seq::empty(), Seq::empty());
                    assert(table.with_runs(Seq::empty()) == table);
                }
                document
            },
        }
    }

    /// The root frame of the document.
    pub fn root(&self) -> (root: &Frame)
        ensures
            root@ == self.tree(),
    {
        &self.root
    }

    /// The text that `data` addresses in the buffers of the document.
    ///
    /// Fails with `CorruptRun` when the range reaches outside the buffer it
    /// names or cuts a character in two.
    pub fn resolve_ref(&self, data: TextData) -> (text: Result<String, EngineError>)
        ensures
            text is Ok <==> self.table().is_text(data@),
            text matches Ok(t) ==> encode_utf8(t@) == self.table().resolve(data@),
            text matches Err(e) ==> e == EngineError::CorruptRun,
    {
        let buffer = if data.append {
            self.append.as_str()
        } else {
            self.buffer.as_str()
        };
        match slice(buffer, data.start_index, data.end_index) {
            Some(text) => Ok(text.to_owned()),
            None => Err(EngineError::CorruptRun),
        }
    }

    /// The display list of the document in a viewport of the given width.
    ///
    /// The layout manager builds the layout tree of the root frame, and the
    /// tree is laid out at the corner of the viewport. The caller sees to it
    /// that this layout is defined; `try_layout` asks for nothing.
    pub fn layout<M: LayoutManager, B: FontBackend>(
        &self,
        width: i32,
        visitor: &M,
        backend: &B,
    ) -> (list: DisplayList)
        requires
            arrange(visitor.frame_tree(self.tree()), self.table(), backend, viewport(width)) is Ok,
        ensures
            list@ == arrange(
                visitor.frame_tree(self.tree()),
                self.table(),
                backend,
                viewport(width),
            ).unwrap().commands,
    {
        let layout_tree = self.root.build_layout_tree(visitor);
        let viewport = Rectangle { x: 0, y: 0, w: width, h: -1 };
        let (commands, _req_height) = layout_tree.layout(self, backend, viewport);
        DisplayList { commands }
    }

    /// The display list of the document in a viewport of the given width,
    /// and the height that the document needs there; or why there is none:
    /// `CorruptRun` where a text of the layout tree cannot be had from the
    /// document, `Overflow` where a coordinate or a height leaves the range
    /// of `i32`.
    pub fn try_layout<M: LayoutManager, B: FontBackend>(
        &self,
        width: i32,
        visitor: &M,
        backend: &B,
    ) -> (laid: Result<(DisplayList, i32), EngineError>)
        ensures
            (match arrange(
                visitor.frame_tree(self.tree()),
                self.table(),
                backend,
                viewport(width),
            ) {
                Ok(expected) => laid matches Ok(pair) && pair.0@ == expected.commands && pair.1
                    == expected.height,
                Err(e) => laid matches Err(found) && found == e,
            }),
    {
        let layout_tree = self.root.build_layout_tree(visitor);
        let viewport = Rectangle { x: 0, y: 0, w: width, h: -1 };
        let (commands, req_height) = layout_tree.try_layout(self, backend, viewport)?;
        Ok((DisplayList { commands }, req_height))
    }

    /// Appends the text of the inline elements to `out`, in their order.
    fn push_inlines_text(&self, inlines: &Vec<Inline>, out: &mut String) -> (outcome: Result<
        (),
        EngineError,
    >)
        ensures
            outcome is Ok <==> self.table().all_text(inlines_leaves(inlines_model(inlines@))),
            outcome is Ok ==> encode_utf8(final(out)@) == encode_utf8(old(out)@)
                + self.table().span_bytes(inlines_leaves(inlines_model(inlines@))),
            outcome matches Err(e) ==> e == EngineError::CorruptRun,
    {
        let ghost table = self.table();
        let ghost leaves = inlines_leaves(inlines_model(inlines@));
        let ghost start = encode_utf8(out@);
        let mut i: usize = 0;
        proof {
            table.lemma_span_bytes_concat(Seq::empty(), Seq::empty());
            assert(leaves.take(0) == Seq::<Span>::empty());
        }
        while i < inlines.len()
            invariant
                i <= inlines.len(),
                table == self.table(),
                leaves == inlines_leaves(inlines_model(inlines@)),
                table.all_text(leaves.take(i as int)),
                encode_utf8(out@) == start + table.span_bytes(leaves.take(i as int)),
            decreases inlines.len() - i,
        {
            let data = match &inlines[i] {
                Inline::Run(run) => run.text,
            };
            assert(leaves[i as int] == data@);
            proof {
                assert(leaves.take(i + 1) == leaves.take(i as int) + seq![leaves[i as int]]);
                table.lemma_span_bytes_concat(leaves.take(i as int), seq![leaves[i as int]]);
                table.lemma_span_bytes_one(leaves[i as int]);
                table.lemma_all_text_concat(leaves.take(i as int), seq![leaves[i as int]]);
            }
            match self.resolve_ref(data) {
                Ok(text) => {
                    proof {
                        lemma_encode_concat(out@, text@);
                        assert(table.all_text(seq![leaves[i as int]]));
                    }
                    out.append(text.as_str());
                },
                Err(e) => {
                    return Err(e);
                },
            }
            i += 1;
        }
        assert(leaves.take(i as int) == leaves);
        Ok(())
    }

    /// Appends the text below a block to `out`, in document order.
    fn push_block_text(&self, block: &Block, out: &mut String) -> (outcome: Result<
        (),
        EngineError,
    >)
        ensures
            outcome is Ok <==> self.table().all_text(block_leaves(block@)),
            outcome is Ok ==> encode_utf8(final(out)@) == encode_utf8(old(out)@)
                + self.table().span_bytes(block_leaves(block@)),
            outcome matches Err(e) ==> e == EngineError::CorruptRun,
        decreases block, 0int,
    {
        match block {
            Block::Paragraph(paragraph) => self.push_inlines_text(&paragraph.children, out),
            Block::Frame(frame) => self.push_blocks_text(&frame.children, out),
            Block::InfoBox(info_box) => self.push_blocks_text(&info_box.child.children, out),
        }
    }

    /// Appends the text below a list of blocks to `out`, in document order.
    fn push_blocks_text(&self, blocks: &Vec<Block>, out: &mut String) -> (outcome: Result<
        (),
        EngineError,
    >)
        ensures
            outcome is Ok <==> self.table().all_text(blocks_leaves(blocks_model(blocks@))),
            outcome is Ok ==> encode_utf8(final(out)@) == encode_utf8(old(out)@)
                + self.table().span_bytes(blocks_leaves(blocks_model(blocks@))),
            outcome matches Err(e) ==> e == EngineError::CorruptRun,
        decreases blocks, 0int,
    {
        let ghost table = self.table();
        let ghost models = blocks_model(blocks@);
        let ghost start = encode_utf8(out@);
        let mut i: usize = 0;
        proof {
            table.lemma_span_bytes_concat(Seq::empty(), Seq::empty());
            lemma_blocks_leaves_empty();
            assert(models.take(0) == Seq::<BlockModel>::empty());
        }
        while i < blocks.len()
            invariant
                i <= blocks.len(),
                table == self.table(),
                models == blocks_model(blocks@),
                table.all_text(blocks_leaves(models.take(i as int))),
                encode_utf8(out@) == start + table.span_bytes(
                    blocks_leaves(models.take(i as int)),
                ),
            decreases blocks.len() - i,
        {
            let ghost done = blocks_leaves(models.take(i as int));
            let ghost next = block_leaves(models[i as int]);
            proof {
                lemma_blocks_leaves_take(models, i as int);
                lemma_blocks_leaves_split(models, i + 1);
                table.lemma_span_bytes_concat(done, next);
                table.lemma_all_text_concat(done, next);
                table.lemma_all_text_concat(done + next, blocks_leaves(models.skip(i + 1)));
                assert(models[i as int] == blocks[i as int]@);
            }
            self.push_block_text(&blocks[i], out)?;
            i += 1;
        }
        assert(models.take(i as int) == models);
        Ok(())
    }

    /// The text below a block: what its runs address, in document order.
    ///
    /// Fails with `CorruptRun` when a run below the block reaches outside
    /// the buffer it names or cuts a character in two.
    pub fn text_of(&self, block: &Block) -> (text: Result<String, EngineError>)
        ensures
            text is Ok <==> self.table().all_text(block_leaves(block@)),
            text matches Ok(t) ==> encode_utf8(t@) == self.table().span_bytes(
                block_leaves(block@),
            ),
            text matches Err(e) ==> e == EngineError::CorruptRun,
    {
        let mut out = String::new();
        assert(encode_utf8(out@) == Seq::<u8>::empty());
        self.push_block_text(block, &mut out)?;
        Ok(out)
    }

    /// The whole text of the document: what the runs of its tree address,
    /// in document order.
    pub fn get_all_text(&self) -> (text: String)
        requires
            self.wf(),
        ensures
            text@ == self.table().text(),
            encode_utf8(text@) == self.table().bytes(),
    {
        let mut out = String::new();
        proof {
            assert(encode_utf8(out@) == Seq::<u8>::empty());
            assert(self.table().with_runs(self.table().runs) == self.table());
            assert(self.table().all_text(self.table().runs));
        }
        let outcome = self.push_blocks_text(&self.root.children, &mut out);
        proof {
            encode_utf8_decode_utf8(out@);
        }
        out
    }

    /// Stores `text` at the end of the edit buffer and returns the reference
    /// that addresses it. The tree is left as it is: the text shows once a
    /// run that carries the reference is added to it.
    pub fn append_text(&mut self, text: &str) -> (data: TextData)
        ensures
            final(self).original() == old(self).original(),
            final(self).edits() == old(self).edits() + encode_utf8(text@),
            final(self).tree() == old(self).tree(),
            data@ == old(self).table().fresh(encode_utf8(text@).len() as int),
            final(self).table().is_text(data@),
            final(self).table().resolve(data@) == encode_utf8(text@),
            old(self).wf() ==> final(self).wf() && final(self).table().bytes() == old(
                self,
            ).table().bytes(),
    {
        let ghost before = self.table();
        let ghost bytes = encode_utf8(text@);
        let start = byte_len(self.append.as_str());
        self.append.append(text);
        let end = byte_len(self.append.as_str());
        proof {
            lemma_encode_concat(old(self).append@, text@);
            self.lemma_buffers_valid();
            old(self).lemma_buffers_valid();
            encode_utf8_valid_utf8(text@);
            let after = self.table();
            crate::text::lemma_boundary_concat(before.edits, bytes, before.edits.len() as int);
            is_char_boundary_start_end_of_seq(before.edits);
            is_char_boundary_start_end_of_seq(after.edits);
            if before.wf() {
                assert forall|i: int| 0 <= i < after.runs.len() implies after.is_text(
                    #[trigger] after.runs[i],
                ) by {
                    let span = before.runs[i];
                    assert(before.is_text(span));
                    if span.in_edits {
                        crate::text::lemma_boundary_concat(before.edits, bytes, span.start);
                        crate::text::lemma_boundary_concat(before.edits, bytes, span.end);
                    }
                }
                before.lemma_wf_in_bounds();
                before.lemma_grow_keeps_bytes(after, bytes);
            }
        }
        TextData { append: true, start_index: start, end_index: end }
    }

    /// Adds a block after the children that the root frame has.
    ///
    /// The block is refused with `CorruptRun`, and the document left as it
    /// is, when a run below the block reaches outside the buffer it names or
    /// cuts a character in two.
    pub fn append_block(&mut self, block: Block) -> (outcome: Result<(), EngineError>)
        ensures
            final(self).original() == old(self).original(),
            final(self).edits() == old(self).edits(),
            outcome is Ok <==> old(self).table().all_text(block_leaves(block@)),
            outcome is Ok ==> final(self).tree() == old(self).tree().push(block@),
            outcome is Ok ==> final(self).table().bytes() == old(self).table().bytes() + old(
                self,
            ).table().span_bytes(block_leaves(block@)),
            outcome matches Err(e) ==> e == EngineError::CorruptRun && final(self).tree() == old(
                self,
            ).tree(),
            old(self).wf() ==> final(self).wf(),
    {
        match self.text_of(&block) {
            Ok(_) => {
                proof {
                    let table = self.table();
                    lemma_blocks_leaves_push(self.tree(), block@);
                    table.lemma_all_text_concat(table.runs, block_leaves(block@));
                    table.lemma_span_bytes_concat(table.runs, block_leaves(block@));
                    assert(table.with_runs(table.runs) == table);
                    if table.wf() {
                        assert(table.all_text(table.runs));
                    }
                    old(self).lemma_buffers_valid();
                }
                self.root.append_block(block);
                Ok(())
            },
            Err(e) => Err(e),
        }
    }

    /// The text references of the runs of the tree, in document order.
    pub fn runs(&self) -> (runs: Vec<TextData>)
        ensures
            text_spans(runs@) == self.table().runs,
    {
        let mut out: Vec<TextData> = Vec::new();
        assert(text_spans(out@) == Seq::<Span>::empty());
        collect_blocks(&self.root.children, &mut out);
        out
    }

    /// Inserts `text` at the byte offset `index` of the document.
    ///
    /// The text is appended to the edit buffer. The run that contains
    /// `index` is split there, and its two parts with a run for the new text
    /// between them take its place in its paragraph. An offset at or past
    /// the end of the document adds a paragraph that holds the new run
    /// behind the children of the root frame. An offset that falls inside a
    /// character is refused with `InvalidOffset` and leaves the document as
    /// it was.
    pub fn insert(&mut self, index: usize, text: &str) -> (outcome: Result<(), EngineError>)
        requires
            old(self).wf(),
        ensures
            final(self).wf(),
            final(self).original() == old(self).original(),
            outcome is Ok <==> (index >= old(self).table().bytes().len() || is_char_boundary(
                old(self).table().bytes(),
                index as int,
            )),
            outcome is Ok ==> ({
                &&& final(self).edits() == old(self).edits() + encode_utf8(text@)
                &&& final(self).tree() == tree_insert(
                    old(self).tree(),
                    old(self).table(),
                    index as int,
                    encode_utf8(text@).len() as int,
                )
                &&& final(self).table() == old(self).table().insert(
                    index as int,
                    encode_utf8(text@),
                )
                &&& final(self).table().bytes() == splice(
                    old(self).table().bytes(),
                    index as int,
                    encode_utf8(text@),
                )
            }),
            outcome matches Err(e) ==> e == EngineError::InvalidOffset && final(self).edits()
                == old(self).edits() && final(self).tree() == old(self).tree(),
            forall|span: Span| #[trigger]
                old(self).table().is_text(span) ==> ({
                    &&& final(self).table().is_text(span)
                    &&& final(self).table().resolve(span) == old(self).table().resolve(span)
                }),
    {
        let ghost before = self.table();
        let ghost tree = self.tree();
        let ghost bytes = encode_utf8(text@);
        proof {
            before.lemma_wf_in_bounds();
            before.lemma_run_at(index as int);
            before.lemma_insert_splices(index as int, bytes);
            lemma_tree_insert_leaves(tree, before, index as int, bytes);
            encode_utf8_valid_utf8(text@);
            lemma_encode_concat(self.append@, text@);
            assert forall|span: Span| #[trigger] before.is_text(span) implies before.insert(
                index as int,
                bytes,
            ).is_text(span) && before.insert(index as int, bytes).resolve(span)
                == before.resolve(span) by {
                before.lemma_insert_keeps_text(index as int, bytes, span);
            }
        }
        let runs = self.runs();
        let count = runs.len();
        let mut i: usize = 0;
        let mut start: usize = 0;
        let mut found = false;
        while i < count && !found
            invariant
                before.in_bounds(),
                text_spans(runs@) == before.runs,
                count == runs.len(),
                i <= count,
                start == before.offset(i as int),
                start <= index,
                found ==> before.covers(i as int, index as int),
                forall|k: int| 0 <= k < i ==> !before.covers(k, index as int),
            decreases count - i + (if found { 0int } else { 1int }),
        {
            let run = runs[i];
            assert(run@ == before.runs[i as int]);
            assert(before.holds(before.runs[i as int]));
            let len = run.end_index - run.start_index;
            if index - start < len {
                found = true;
            } else {
                start = start + len;
                i += 1;
            }
        }
        if found {
            let run = runs[i];
            assert(run@ == before.runs[i as int]);
            assert(before.holds(before.runs[i as int]));
            let cut = run.start_index + (index - start);
            let on_boundary = if run.append {
                self.append.as_str().is_char_boundary(cut)
            } else {
                self.buffer.as_str().is_char_boundary(cut)
            };
            proof {
                before.lemma_boundary_in_run(i as int, index as int);
            }
            if !on_boundary {
                return Err(EngineError::InvalidOffset);
            }
            proof {
                before.lemma_insert_wf(index as int, bytes);
            }
            let at = byte_len(self.append.as_str());
            self.append.append(text);
            let end = byte_len(self.append.as_str());
            let source = run.append;
            let left = TextData { append: source, start_index: run.start_index, end_index: cut };
            let fresh = TextData { append: true, start_index: at, end_index: end };
            let right = TextData { append: source, start_index: cut, end_index: run.end_index };
            assert(three(left, fresh, right) == seq![
                before.left_of(i as int, index as int),
                before.fresh(bytes.len() as int),
                before.right_of(i as int, index as int),
            ]);
            let replaced = replace_in_blocks(&mut self.root.children, i, left, fresh, right);
            assert(replaced is None);
            Ok(())
        } else {
            assert(forall|k: int| !before.covers(k, index as int));
            proof {
                before.lemma_insert_wf(index as int, bytes);
            }
            let at = byte_len(self.append.as_str());
            self.append.append(text);
            let end = byte_len(self.append.as_str());
            let fresh = TextData { append: true, start_index: at, end_index: end };
            let paragraph = Paragraph { children: vec![Inline::Run(Run { text: fresh })] };
            assert(paragraph@ == seq![InlineModel::Run(before.fresh(bytes.len() as int))]);
            self.root.append_block(Block::Paragraph(paragraph));
            Ok(())
        }
    }
}

} // verus!
