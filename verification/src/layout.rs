//! The layout engine: boxes, their arrangement, and the display list.
//!
//! A layout manager turns the document tree into a tree of layout boxes, and
//! a box is then laid out in a rectangle. Widths are handed down: the content
//! of a box is as wide as its rectangle less its margins and padding. Heights
//! come back up: a box is as high as its content plus its margins and padding.
//! Block children are stacked one below the other; inline children are joined
//! into one text, whose height a font backend measures. What is painted goes
//! to the display list back to front, the rectangle of a box before what
//! stands inside it. A box around text paints a rectangle only where it has
//! a background to show.
//!
//! `arrange` says what the layout of a box is. The executable functions
//! compute it with checked arithmetic and prove that they return it.

use crate::error::EngineError;
use crate::model::{
    block_leaves, blocks_leaves, inlines_leaves, lemma_blocks_leaves_around, Block, BlockModel,
    Document, Frame, InfoBox, Inline, InlineModel, Paragraph, Run, TextData,
};
use crate::table::{PieceTable, Span};
use crate::text::{lemma_decode_concat, lemma_encode_concat, lemma_text_range};
use vstd::prelude::*;
use vstd::seq_lib::*;
use vstd::string::*;
use vstd::utf8::*;

verus! {

/// An axis-aligned rectangle.
#[derive(Clone, Copy, Debug, PartialEq, Eq)]
pub struct Rectangle {
    pub x: i32,
    pub y: i32,
    pub w: i32,
    pub h: i32,
}

/// Distances from the four sides of a box.
#[derive(Clone, Copy, Debug, PartialEq, Eq)]
pub struct Extents {
    pub top: i32,
    pub left: i32,
    pub bottom: i32,
    pub right: i32,
}

/// A colour by its red, green and blue channels, each from 0 to 255.
#[derive(Clone, Copy, Debug, PartialEq, Eq)]
pub struct Colour {
    pub red: u32,
    pub green: u32,
    pub blue: u32,
}

impl Rectangle {
    pub fn empty() -> (rectangle: Rectangle)
        ensures
            rectangle == (Rectangle { x: 0, y: 0, w: 0, h: 0 }),
    {
        Rectangle { x: 0, y: 0, w: 0, h: 0 }
    }

    pub fn with_equal_size(d: i32) -> (rectangle: Rectangle)
        ensures
            rectangle == (Rectangle { x: d, y: d, w: d, h: d }),
    {
        Rectangle { x: d, y: d, w: d, h: d }
    }

    pub fn new(x: i32, y: i32, w: i32, h: i32) -> (rectangle: Rectangle)
        ensures
            rectangle == (Rectangle { x, y, w, h }),
    {
        Rectangle { x, y, w, h }
    }
}

impl Extents {
    #[verifier::allow_in_spec]
    pub fn empty() -> Extents
        returns
            (Extents { top: 0, left: 0, bottom: 0, right: 0 }),
    {
        Extents { top: 0, bottom: 0, left: 0, right: 0 }
    }

    #[verifier::allow_in_spec]
    pub fn with_equal_size(d: i32) -> Extents
        returns
            (Extents { top: d, left: d, bottom: d, right: d }),
    {
        Extents { top: d, bottom: d, left: d, right: d }
    }

    pub fn new(top: i32, bottom: i32, left: i32, right: i32) -> (extents: Extents)
        ensures
            extents == (Extents { top, left, bottom, right }),
    {
        Extents { top, bottom, left, right }
    }
}

impl Colour {
    #[verifier::allow_in_spec]
    pub fn black() -> Colour
        returns
            (Colour { red: 0, green: 0, blue: 0 }),
    {
        Colour { red: 0, green: 0, blue: 0 }
    }

    #[verifier::allow_in_spec]
    pub fn white() -> Colour
        returns
            (Colour { red: 255, green: 255, blue: 255 }),
    {
        Colour { red: 255, green: 255, blue: 255 }
    }

    #[verifier::allow_in_spec]
    pub fn red() -> Colour
        returns
            (Colour { red: 255, green: 0, blue: 0 }),
    {
        Colour { red: 255, green: 0, blue: 0 }
    }

    #[verifier::allow_in_spec]
    pub fn green() -> Colour
        returns
            (Colour { red: 0, green: 255, blue: 0 }),
    {
        Colour { red: 0, green: 255, blue: 0 }
    }

    #[verifier::allow_in_spec]
    pub fn blue() -> Colour
        returns
            (Colour { red: 0, green: 0, blue: 255 }),
    {
        Colour { red: 0, green: 0, blue: 255 }
    }
}

/// The role a box plays in the flow of its parent.
#[derive(Clone, Copy, Debug, PartialEq, Eq)]
pub enum FlowContext {
    Inline,
    Block,
    Anonymous,
}

/// What a layout box knows about its own flow.
///
/// The two spec functions name what a flow holds. A flow that is written in
/// verified code defines them; for any other flow they stay names.
pub trait LayoutFlow {
    /// The flow context of the box.
    open spec fn context(&self) -> FlowContext {
        arbitrary::<spec_fn(&Self) -> FlowContext>()(self)
    }

    /// The text that the box carries, if it carries any.
    open spec fn text(&self) -> Option<Span> {
        arbitrary::<spec_fn(&Self) -> Option<Span>>()(self)
    }

    fn get_flow_context(&self) -> (context: FlowContext)
        ensures
            context == self.context(),
    ;
}

/// The flow of a box that is laid out as a block.
#[derive(Clone, Copy, Debug, PartialEq, Eq)]
pub struct BlockFlow {
    pub is_anonymous: bool,
}

impl LayoutFlow for BlockFlow {
    open spec fn context(&self) -> FlowContext {
        if self.is_anonymous {
            FlowContext::Anonymous
        } else {
            FlowContext::Block
        }
    }

    open spec fn text(&self) -> Option<Span> {
        None
    }

    fn get_flow_context(&self) -> (context: FlowContext) {
        if self.is_anonymous {
            FlowContext::Anonymous
        } else {
            FlowContext::Block
        }
    }
}

/// The flow of a box that carries a run of text.
#[derive(Clone, Copy, Debug, PartialEq, Eq)]
pub struct InlineFlow {
    pub text: TextData,
}

impl LayoutFlow for InlineFlow {
    open spec fn context(&self) -> FlowContext {
        FlowContext::Inline
    }

    open spec fn text(&self) -> Option<Span> {
        Some(self.text@)
    }

    fn get_flow_context(&self) -> (context: FlowContext) {
        FlowContext::Inline
    }
}

/// The children of a layout box.
#[derive(Debug)]
pub enum LayoutChildren {
    Inline(Vec<LayoutBox<InlineFlow>>),
    Block(Vec<LayoutBox<BlockFlow>>),
    Empty,
}

impl LayoutChildren {
    pub fn with_block_children(children: Vec<LayoutBox<BlockFlow>>) -> (made: LayoutChildren)
        ensures
            made == LayoutChildren::Block(children),
    {
        LayoutChildren::Block(children)
    }

    pub fn with_inline_children(children: Vec<LayoutBox<InlineFlow>>) -> (made: LayoutChildren)
        ensures
            made == LayoutChildren::Inline(children),
    {
        LayoutChildren::Inline(children)
    }
}

/// A box of the layout tree.
#[derive(Debug)]
pub struct LayoutBox<T: LayoutFlow> {
    pub flow: T,
    pub margins: Extents,
    pub padding: Extents,
    pub background: Option<Colour>,
    pub foreground: Colour,
    pub children: LayoutChildren,
}

/// Ghost model of the children of a layout box.
pub enum ChildrenModel {
    Inline(Seq<BoxModel>),
    Block(Seq<BoxModel>),
    Empty,
}

/// Ghost model of a layout box.
pub struct BoxModel {
    pub context: FlowContext,
    pub text: Option<Span>,
    pub margins: Extents,
    pub padding: Extents,
    pub background: Option<Colour>,
    pub foreground: Colour,
    pub children: ChildrenModel,
}

/// The models of a list of inline boxes, in the same order.
pub open spec fn inline_boxes_model(boxes: Seq<LayoutBox<InlineFlow>>) -> Seq<BoxModel>
    decreases boxes,
{
    Seq::new(
        boxes.len(),
        |i: int|
            if 0 <= i < boxes.len() {
                boxes[i].model()
            } else {
                arbitrary()
            },
    )
}

/// The models of a list of block boxes, in the same order.
pub open spec fn block_boxes_model(boxes: Seq<LayoutBox<BlockFlow>>) -> Seq<BoxModel>
    decreases boxes,
{
    Seq::new(
        boxes.len(),
        |i: int|
            if 0 <= i < boxes.len() {
                boxes[i].model()
            } else {
                arbitrary()
            },
    )
}

impl<T: LayoutFlow> LayoutBox<T> {
    /// The model of the box: its own values and the models of its children.
    pub open spec fn model(&self) -> BoxModel
        decreases self,
    {
        BoxModel {
            context: self.flow.context(),
            text: self.flow.text(),
            margins: self.margins,
            padding: self.padding,
            background: self.background,
            foreground: self.foreground,
            children: match self.children {
                LayoutChildren::Inline(boxes) => ChildrenModel::Inline(inline_boxes_model(boxes@)),
                LayoutChildren::Block(boxes) => ChildrenModel::Block(block_boxes_model(boxes@)),
                LayoutChildren::Empty => ChildrenModel::Empty,
            },
        }
    }
}

/// One paint instruction of a display list.
#[derive(Debug, PartialEq, Eq)]
pub enum RenderCommand {
    /// Text at a position, wrapped at a width: `x`, `y`, `width`, `text`.
    RenderText(i32, i32, i32, String),
    /// A rectangle, filled where it has a colour.
    RenderBox(Rectangle, Option<Colour>),
}

/// Ghost model of a paint instruction.
pub enum Paint {
    Text { x: i32, y: i32, width: i32, text: Seq<char> },
    Box { rectangle: Rectangle, colour: Option<Colour> },
}

impl View for RenderCommand {
    type V = Paint;

    open spec fn view(&self) -> Paint {
        match self {
            RenderCommand::RenderText(x, y, width, text) => Paint::Text {
                x: *x,
                y: *y,
                width: *width,
                text: text@,
            },
            RenderCommand::RenderBox(rectangle, colour) => Paint::Box {
                rectangle: *rectangle,
                colour: *colour,
            },
        }
    }
}

/// The models of a list of paint instructions, in the same order.
pub open spec fn paints(commands: Seq<RenderCommand>) -> Seq<Paint> {
    Seq::new(commands.len(), |i: int| commands[i]@)
}

/// Paint instructions in the order in which they are to be painted.
#[derive(Debug, PartialEq, Eq)]
pub struct DisplayList {
    pub commands: Vec<RenderCommand>,
}

impl View for DisplayList {
    type V = Seq<Paint>;

    open spec fn view(&self) -> Seq<Paint> {
        paints(self.commands@)
    }
}

/// What measures text. The engine asks it for one thing: how tall a text is
/// once it is wrapped at a width.
///
/// An implementation answers as a function of itself, the text and the
/// width: the same question always gets the same answer. `height` is the
/// name of that function. A backend that is written in verified code defines
/// it and proves that its method returns it; of any other backend the engine
/// takes it on trust.
pub trait FontBackend {
    /// The height that the backend gives to `text` wrapped at `width`.
    open spec fn height(&self, text: Seq<char>, width: i32) -> i32 {
        arbitrary::<spec_fn(&Self, Seq<char>, i32) -> i32>()(self, text, width)
    }

    fn measure_height_for_paragraph(&self, text: &String, width: i32) -> (height: i32)
        ensures
            height == self.height(text@, width),
    ;
}

/// The outcome of laying out a box: what it paints, back to front, and the
/// height it needs.
pub struct Laid {
    pub commands: Seq<Paint>,
    pub height: i32,
}

/// The value fits in an `i32`.
pub open spec fn in_range(value: int) -> bool {
    i32::MIN <= value <= i32::MAX
}

impl BoxModel {
    /// Margin and padding on the left; the three that follow are those at
    /// the top, at the bottom and on the right.
    pub open spec fn offset_left(self) -> int {
        self.margins.left + self.padding.left
    }

    pub open spec fn offset_top(self) -> int {
        self.margins.top + self.padding.top
    }

    pub open spec fn offset_bottom(self) -> int {
        self.margins.bottom + self.padding.bottom
    }

    pub open spec fn offset_right(self) -> int {
        self.margins.right + self.padding.right
    }

    /// The content rectangle of the box in `rect` can be computed in `i32`.
    pub open spec fn content_fits(self, rect: Rectangle) -> bool {
        &&& in_range(self.offset_left())
        &&& in_range(self.offset_top())
        &&& in_range(self.offset_bottom())
        &&& in_range(self.offset_right())
        &&& in_range(self.offset_left() + self.offset_right())
        &&& in_range(rect.w - (self.offset_left() + self.offset_right()))
        &&& in_range(rect.x + self.offset_left())
        &&& in_range(rect.y + self.offset_top())
    }

    /// Where the content of the box goes when the box is given `rect`: `rect`
    /// moved in by margins and padding on the left and at the top, and made
    /// narrower by those on the left and on the right.
    pub open spec fn content(self, rect: Rectangle) -> Rectangle {
        Rectangle {
            x: (rect.x + self.offset_left()) as i32,
            y: (rect.y + self.offset_top()) as i32,
            w: (rect.w - (self.offset_left() + self.offset_right())) as i32,
            h: rect.h,
        }
    }

    /// The height of the box whose content is `inner` high can be computed
    /// in `i32`.
    pub open spec fn height_fits(self, inner: i32) -> bool {
        &&& in_range(self.offset_top() + self.offset_bottom())
        &&& in_range(inner + (self.offset_top() + self.offset_bottom()))
    }

    /// The height that the box needs when its content is `inner` high.
    pub open spec fn height(self, inner: i32) -> i32 {
        (inner + (self.offset_top() + self.offset_bottom())) as i32
    }

    /// The rectangle that the box paints can be computed in `i32`.
    pub open spec fn outline_fits(self, rect: Rectangle, inner: i32) -> bool {
        &&& in_range(rect.y + self.margins.top)
        &&& in_range(rect.x + self.margins.left)
        &&& in_range(rect.w - self.margins.right)
        &&& in_range(inner + self.padding.top)
        &&& in_range(inner + self.padding.top + self.padding.bottom)
    }

    /// The rectangle that the box paints when it is given `rect` and its
    /// content is `inner` high.
    pub open spec fn outline(self, rect: Rectangle, inner: i32) -> Rectangle {
        Rectangle {
            x: (rect.x + self.margins.left) as i32,
            y: (rect.y + self.margins.top) as i32,
            w: (rect.w - self.margins.right) as i32,
            h: (inner + self.padding.top + self.padding.bottom) as i32,
        }
    }

    /// A box around text. Where it has a background it paints its own
    /// rectangle first, under the text, as a box around blocks does; where it
    /// has none it paints the text and nothing of its own.
    pub open spec fn around_text(self, rect: Rectangle, inner: Laid) -> Result<
        Laid,
        EngineError,
    > {
        if self.background is Some {
            self.around_blocks(rect, inner)
        } else if self.height_fits(inner.height) {
            Ok(Laid { commands: inner.commands, height: self.height(inner.height) })
        } else {
            Err(EngineError::Overflow)
        }
    }

    /// A box around blocks, or around nothing: it paints its own rectangle
    /// first, under what its content paints, with the background that it
    /// has or with none.
    pub open spec fn around_blocks(self, rect: Rectangle, inner: Laid) -> Result<
        Laid,
        EngineError,
    > {
        if self.outline_fits(rect, inner.height) && self.height_fits(inner.height) {
            Ok(
                Laid {
                    commands: seq![
                        Paint::Box {
                            rectangle: self.outline(rect, inner.height),
                            colour: self.background,
                        },
                    ] + inner.commands,
                    height: self.height(inner.height),
                },
            )
        } else {
            Err(EngineError::Overflow)
        }
    }
}

/// The bytes of the text that an inline box carries, where the text lies
/// within its buffer and cuts no character. A box without text carries none.
pub open spec fn box_text(inline: BoxModel, table: PieceTable) -> Option<Seq<u8>> {
    match inline.text {
        Some(span) => if table.is_text(span) {
            Some(table.resolve(span))
        } else {
            None
        },
        None => Some(Seq::empty()),
    }
}

/// The text of every one of the inline boxes can be had.
pub open spec fn flow_resolves(inlines: Seq<BoxModel>, table: PieceTable) -> bool {
    forall|i: int| 0 <= i < inlines.len() ==> (#[trigger] box_text(inlines[i], table)) is Some
}

/// The text of each inline box, box by box.
pub open spec fn flow_parts(inlines: Seq<BoxModel>, table: PieceTable) -> Seq<Seq<u8>> {
    Seq::new(inlines.len(), |i: int| box_text(inlines[i], table).unwrap())
}

/// The texts of the inline boxes, one after the other.
pub open spec fn flow_bytes(inlines: Seq<BoxModel>, table: PieceTable) -> Seq<u8> {
    flow_parts(inlines, table).flatten()
}

/// Inline flow. The texts of the inline boxes are joined into one text, the
/// backend is asked for the height of that text at the width of `rect`, and
/// one text command is painted at the corner of `rect`. No inline box, no
/// command and no height.
pub open spec fn flow<B: FontBackend>(
    inlines: Seq<BoxModel>,
    table: PieceTable,
    backend: &B,
    rect: Rectangle,
) -> Result<Laid, EngineError> {
    if inlines.len() == 0 {
        Ok(Laid { commands: Seq::empty(), height: 0 })
    } else if !flow_resolves(inlines, table) {
        Err(EngineError::CorruptRun)
    } else {
        let text = decode_utf8(flow_bytes(inlines, table));
        Ok(
            Laid {
                commands: seq![Paint::Text { x: rect.x, y: rect.y, width: rect.w, text }],
                height: backend.height(text, rect.w),
            },
        )
    }
}

/// Block flow of the first `count` of `blocks`. Each block is laid out in
/// `rect` moved down by the heights of the blocks before it; the commands
/// follow one another in the order of the blocks and the heights add up.
pub open spec fn stack<B: FontBackend>(
    blocks: Seq<BoxModel>,
    table: PieceTable,
    backend: &B,
    rect: Rectangle,
    count: int,
) -> Result<Laid, EngineError>
    decreases blocks, count,
{
    if count <= 0 || count > blocks.len() {
        Ok(Laid { commands: Seq::empty(), height: 0 })
    } else {
        match stack(blocks, table, backend, rect, count - 1) {
            Err(e) => Err(e),
            Ok(above) => if !in_range(rect.y + above.height) {
                Err(EngineError::Overflow)
            } else {
                let place = Rectangle {
                    x: rect.x,
                    y: (rect.y + above.height) as i32,
                    w: rect.w,
                    h: rect.h,
                };
                match arrange(blocks[count - 1], table, backend, place) {
                    Err(e) => Err(e),
                    Ok(block) => if !in_range(above.height + block.height) {
                        Err(EngineError::Overflow)
                    } else {
                        Ok(
                            Laid {
                                commands: above.commands + block.commands,
                                height: (above.height + block.height) as i32,
                            },
                        )
                    },
                }
            },
        }
    }
}

/// The layout of a box that is given `rect`.
///
/// The content rectangle comes first. A box with inline children flows them
/// as one text inside it, and paints its own rectangle under the text where
/// it has a background; a box with block children stacks them inside it and
/// paints its own rectangle under them; a box without children paints its
/// own rectangle alone. The height of the box is the height of its content
/// plus its margins and padding at the top and at the bottom.
///
/// The result is `Overflow` where a sum leaves the range of `i32`, and
/// `CorruptRun` where the text of an inline box cannot be had.
pub open spec fn arrange<B: FontBackend>(
    layout_box: BoxModel,
    table: PieceTable,
    backend: &B,
    rect: Rectangle,
) -> Result<Laid, EngineError>
    decreases layout_box, 0int,
{
    if !layout_box.content_fits(rect) {
        Err(EngineError::Overflow)
    } else {
        let content = layout_box.content(rect);
        match layout_box.children {
            ChildrenModel::Inline(inlines) => match flow(inlines, table, backend, content) {
                Err(e) => Err(e),
                Ok(inner) => layout_box.around_text(rect, inner),
            },
            ChildrenModel::Block(blocks) => match stack(
                blocks,
                table,
                backend,
                content,
                blocks.len() as int,
            ) {
                Err(e) => Err(e),
                Ok(inner) => layout_box.around_blocks(rect, inner),
            },
            ChildrenModel::Empty => layout_box.around_blocks(
                rect,
                Laid { commands: Seq::empty(), height: 0 },
            ),
        }
    }
}

/// What an executable layout returned is what the specification gives.
pub open spec fn laid_as(
    outcome: Result<(Vec<RenderCommand>, i32), EngineError>,
    expected: Result<Laid, EngineError>,
) -> bool {
    match expected {
        Ok(laid) => outcome matches Ok(pair) && paints(pair.0@) == laid.commands && pair.1
            == laid.height,
        Err(e) => outcome matches Err(found) && found == e,
    }
}

/// Once the stack of the first blocks fails, the stack of more blocks fails
/// in the same way.
pub proof fn lemma_stack_fails<B: FontBackend>(
    blocks: Seq<BoxModel>,
    table: PieceTable,
    backend: &B,
    rect: Rectangle,
    failed: int,
    count: int,
)
    requires
        0 <= failed <= count <= blocks.len(),
        stack(blocks, table, backend, rect, failed) is Err,
    ensures
        stack(blocks, table, backend, rect, count) == stack(blocks, table, backend, rect, failed),
    decreases count - failed,
{
    if failed < count {
        lemma_stack_fails(blocks, table, backend, rect, failed, count - 1);
    }
}

fn sum(a: i32, b: i32) -> (total: Result<i32, EngineError>)
    ensures
        in_range(a + b) ==> total == Ok::<i32, EngineError>((a + b) as i32),
        !in_range(a + b) ==> total == Err::<i32, EngineError>(EngineError::Overflow),
{
    match a.checked_add(b) {
        Some(total) => Ok(total),
        None => Err(EngineError::Overflow),
    }
}

fn difference(a: i32, b: i32) -> (rest: Result<i32, EngineError>)
    ensures
        in_range(a - b) ==> rest == Ok::<i32, EngineError>((a - b) as i32),
        !in_range(a - b) ==> rest == Err::<i32, EngineError>(EngineError::Overflow),
{
    match a.checked_sub(b) {
        Some(rest) => Ok(rest),
        None => Err(EngineError::Overflow),
    }
}

impl<T: LayoutFlow> LayoutBox<T> {
    /// Lays the box out in `rect`: what it paints, back to front, and the
    /// height it needs.
    ///
    /// The caller sees to it that the layout is defined: that every text of
    /// the box can be had from `document` and that no coordinate or height
    /// leaves the range of `i32`. `try_layout` asks for nothing and reports
    /// either as an error.
    pub fn layout<B: FontBackend>(
        &self,
        document: &Document,
        backend: &B,
        rect: Rectangle,
    ) -> (laid: (Vec<RenderCommand>, i32))
        requires
            arrange(self.model(), document.table(), backend, rect) is Ok,
        ensures
            paints(laid.0@) == arrange(
                self.model(),
                document.table(),
                backend,
                rect,
            ).unwrap().commands,
            laid.1 == arrange(self.model(), document.table(), backend, rect).unwrap().height,
    {
        match self.try_layout(document, backend, rect) {
            Ok(laid) => laid,
            Err(_) => unreached(),
        }
    }

    /// Lays the box out in `rect`, or says why that cannot be done:
    /// `CorruptRun` where a text of the box cannot be had from `document`,
    /// `Overflow` where a coordinate or a height leaves the range of `i32`.
    pub fn try_layout<B: FontBackend>(
        &self,
        document: &Document,
        backend: &B,
        rect: Rectangle,
    ) -> (laid: Result<(Vec<RenderCommand>, i32), EngineError>)
        ensures
            laid_as(laid, arrange(self.model(), document.table(), backend, rect)),
        decreases self.children, 1int,
    {
        let offset_left = sum(self.margins.left, self.padding.left)?;
        let offset_top = sum(self.margins.top, self.padding.top)?;
        let offset_bottom = sum(self.margins.bottom, self.padding.bottom)?;
        let offset_right = sum(self.margins.right, self.padding.right)?;
        let content_rect = Rectangle {
            x: sum(rect.x, offset_left)?,
            y: sum(rect.y, offset_top)?,
            w: difference(rect.w, sum(offset_left, offset_right)?)?,
            h: rect.h,
        };
        assert(self.model().content_fits(rect));
        assert(content_rect == self.model().content(rect));
        match &self.children {
            LayoutChildren::Inline(children) => {
                let (child_commands, inner) = Self::layout_inline_children(
                    document,
                    backend,
                    children,
                    content_rect,
                )?;
                match self.background {
                    Some(_) => self.paint_around(rect, inner, child_commands),
                    None => {
                        let height = sum(inner, sum(offset_top, offset_bottom)?)?;
                        Ok((child_commands, height))
                    },
                }
            },
            LayoutChildren::Block(children) => {
                let (child_commands, inner) = Self::layout_block_children(
                    document,
                    backend,
                    children,
                    content_rect,
                )?;
                self.paint_around(rect, inner, child_commands)
            },
            LayoutChildren::Empty => {
                let child_commands: Vec<RenderCommand> = Vec::new();
                assert(paints(child_commands@) == Seq::<Paint>::empty());
                self.paint_around(rect, 0, child_commands)
            },
        }
    }

    /// Puts the rectangle of the box, with the background that the box has,
    /// before what its content paints, and adds the margins and padding at
    /// the top and at the bottom to the height of the content.
    fn paint_around(
        &self,
        rect: Rectangle,
        inner: i32,
        child_commands: Vec<RenderCommand>,
    ) -> (laid: Result<(Vec<RenderCommand>, i32), EngineError>)
        requires
            self.model().content_fits(rect),
        ensures
            laid_as(
                laid,
                self.model().around_blocks(
                    rect,
                    Laid { commands: paints(child_commands@), height: inner },
                ),
            ),
    {
        let mut child_commands = child_commands;
        let ghost below = paints(child_commands@);
        let margin_box = Rectangle {
            x: sum(rect.x, self.margins.left)?,
            y: sum(rect.y, self.margins.top)?,
            w: difference(rect.w, self.margins.right)?,
            h: sum(sum(inner, self.padding.top)?, self.padding.bottom)?,
        };
        let offset_top = sum(self.margins.top, self.padding.top)?;
        let offset_bottom = sum(self.margins.bottom, self.padding.bottom)?;
        let height = sum(inner, sum(offset_top, offset_bottom)?)?;
        let mut commands: Vec<RenderCommand> = Vec::new();
        commands.push(RenderCommand::RenderBox(margin_box, self.background));
        commands.append(&mut child_commands);
        assert(paints(commands@) == seq![
            Paint::Box { rectangle: margin_box, colour: self.background },
        ] + below);
        Ok((commands, height))
    }

    /// Inline flow in `rect`: the texts of the children joined into one text,
    /// measured by the backend at the width of `rect` and painted by one text
    /// command. Without children nothing is measured and nothing painted.
    pub fn layout_inline_children<B: FontBackend>(
        document: &Document,
        backend: &B,
        children: &Vec<LayoutBox<InlineFlow>>,
        rect: Rectangle,
    ) -> (laid: Result<(Vec<RenderCommand>, i32), EngineError>)
        ensures
            laid_as(laid, flow(inline_boxes_model(children@), document.table(), backend, rect)),
    {
        let mut commands: Vec<RenderCommand> = Vec::new();
        if children.len() == 0 {
            assert(paints(commands@) == Seq::<Paint>::empty());
            return Ok((commands, 0));
        }
        let ghost inlines = inline_boxes_model(children@);
        let ghost table = document.table();
        let ghost parts = flow_parts(inlines, table);
        let mut contiguous_text = String::new();
        let mut i: usize = 0;
        proof {
            assert(parts.take(0) == Seq::<Seq<u8>>::empty());
            assert(encode_utf8(contiguous_text@) == Seq::<u8>::empty());
        }
        while i < children.len()
            invariant
                i <= children.len(),
                inlines == inline_boxes_model(children@),
                table == document.table(),
                parts == flow_parts(inlines, table),
                forall|k: int| 0 <= k < i ==> (#[trigger] box_text(inlines[k], table)) is Some,
                encode_utf8(contiguous_text@) == parts.take(i as int).flatten(),
            decreases children.len() - i,
        {
            assert(inlines[i as int].text == Some(children[i as int].flow.text@));
            match document.resolve_ref(children[i].flow.text) {
                Ok(text) => {
                    proof {
                        lemma_encode_concat(contiguous_text@, text@);
                        assert(parts.take(i + 1) == parts.take(i as int).push(parts[i as int]));
                        parts.take(i as int).lemma_flatten_push(parts[i as int]);
                    }
                    contiguous_text.append(text.as_str());
                },
                Err(e) => {
                    assert(box_text(inlines[i as int], table) is None);
                    return Err(e);
                },
            }
            i += 1;
        }
        proof {
            assert(parts.take(i as int) == parts);
            encode_utf8_decode_utf8(contiguous_text@);
        }
        let height = backend.measure_height_for_paragraph(&contiguous_text, rect.w);
        let ghost text = contiguous_text@;
        commands.push(RenderCommand::RenderText(rect.x, rect.y, rect.w, contiguous_text));
        assert(paints(commands@) == seq![
            Paint::Text { x: rect.x, y: rect.y, width: rect.w, text },
        ]);
        Ok((commands, height))
    }

    /// Block flow in `rect`: each child laid out below the ones before it,
    /// their commands in the order of the children, their heights added up.
    pub fn layout_block_children<B: FontBackend>(
        document: &Document,
        backend: &B,
        children: &Vec<LayoutBox<BlockFlow>>,
        rect: Rectangle,
    ) -> (laid: Result<(Vec<RenderCommand>, i32), EngineError>)
        ensures
            laid_as(
                laid,
                stack(
                    block_boxes_model(children@),
                    document.table(),
                    backend,
                    rect,
                    children.len() as int,
                ),
            ),
        decreases children, 0int,
    {
        let ghost blocks = block_boxes_model(children@);
        let ghost table = document.table();
        let mut commands: Vec<RenderCommand> = Vec::new();
        let mut req_height: i32 = 0;
        let mut i: usize = 0;
        assert(paints(commands@) == Seq::<Paint>::empty());
        while i < children.len()
            invariant
                i <= children.len(),
                blocks == block_boxes_model(children@),
                table == document.table(),
                stack(blocks, table, backend, rect, i as int) == Ok::<Laid, EngineError>(
                    Laid { commands: paints(commands@), height: req_height },
                ),
            decreases children.len() - i,
        {
            proof {
                if stack(blocks, table, backend, rect, i + 1) is Err {
                    lemma_stack_fails(blocks, table, backend, rect, i + 1, children.len() as int);
                }
            }
            let content_rect = Rectangle {
                x: rect.x,
                y: sum(rect.y, req_height)?,
                w: rect.w,
                h: rect.h,
            };
            assert(blocks[i as int] == children[i as int].model());
            let (mut child_commands, child_req_height) = children[i].try_layout(
                document,
                backend,
                content_rect,
            )?;
            let ghost above = paints(commands@);
            let ghost added = paints(child_commands@);
            let total = sum(req_height, child_req_height)?;
            commands.append(&mut child_commands);
            assert(paints(commands@) == above + added);
            req_height = total;
            i += 1;
        }
        Ok((commands, req_height))
    }
}

/// What builds the layout tree. Each kind of element hands itself to the
/// method for its kind, so that what a box looks like is decided here and
/// not in the document tree.
///
/// An implementation answers as a function of itself and of the element: the
/// spec function beside each method names the box that the method builds. A
/// manager that is written in verified code defines the four of them and
/// proves that its methods build those boxes; of any other manager the
/// engine takes it on trust.
pub trait LayoutManager {
    /// The box that is built for a frame with the given children.
    open spec fn frame_tree(&self, frame: Seq<BlockModel>) -> BoxModel {
        arbitrary::<spec_fn(&Self, Seq<BlockModel>) -> BoxModel>()(self, frame)
    }

    /// The box that is built for a paragraph with the given children.
    open spec fn paragraph_tree(&self, paragraph: Seq<InlineModel>) -> BoxModel {
        arbitrary::<spec_fn(&Self, Seq<InlineModel>) -> BoxModel>()(self, paragraph)
    }

    /// The box that is built for a run of the given text.
    open spec fn run_tree(&self, run: Span) -> BoxModel {
        arbitrary::<spec_fn(&Self, Span) -> BoxModel>()(self, run)
    }

    /// The box that is built for an info box whose frame has the given
    /// children.
    open spec fn info_box_tree(&self, info_box: Seq<BlockModel>) -> BoxModel {
        arbitrary::<spec_fn(&Self, Seq<BlockModel>) -> BoxModel>()(self, info_box)
    }

    fn build_frame_layout_tree(&self, frame: &Frame) -> (tree: LayoutBox<BlockFlow>)
        ensures
            tree.model() == self.frame_tree(frame@),
    ;

    fn build_paragraph_layout_tree(&self, paragraph: &Paragraph) -> (tree: LayoutBox<BlockFlow>)
        ensures
            tree.model() == self.paragraph_tree(paragraph@),
    ;

    fn build_run_layout_tree(&self, run: &Run) -> (tree: LayoutBox<InlineFlow>)
        ensures
            tree.model() == self.run_tree(run@),
    ;

    fn build_info_box_layout_tree(&self, infobox: &InfoBox) -> (tree: LayoutBox<BlockFlow>)
        ensures
            tree.model() == self.info_box_tree(infobox@),
    ;
}

/// A box without margins, padding or background, with a black foreground.
pub open spec fn plain_box(
    context: FlowContext,
    text: Option<Span>,
    children: ChildrenModel,
) -> BoxModel {
    BoxModel {
        context,
        text,
        margins: Extents::empty(),
        padding: Extents::empty(),
        background: None,
        foreground: Colour::black(),
        children,
    }
}

/// The default box of a run: a plain inline box that carries the text of
/// the run and has no children.
pub open spec fn default_run_box(run: Span) -> BoxModel {
    plain_box(FlowContext::Inline, Some(run), ChildrenModel::Empty)
}

/// The default box of an inline element.
pub open spec fn default_inline_box(inline: InlineModel) -> BoxModel {
    match inline {
        InlineModel::Run(run) => default_run_box(run),
    }
}

/// The default boxes of a list of inline elements, in order.
pub open spec fn default_inline_boxes(inlines: Seq<InlineModel>) -> Seq<BoxModel> {
    Seq::new(inlines.len(), |i: int| default_inline_box(inlines[i]))
}

/// The default box of a paragraph: a plain block box around one inline box
/// for each inline child.
pub open spec fn default_paragraph_box(paragraph: Seq<InlineModel>) -> BoxModel {
    plain_box(
        FlowContext::Block,
        None,
        ChildrenModel::Inline(default_inline_boxes(paragraph)),
    )
}

/// The default box of a frame: a plain block box around one box for each
/// block child.
pub open spec fn default_frame_box(frame: Seq<BlockModel>) -> BoxModel
    decreases frame, 1int,
{
    plain_box(FlowContext::Block, None, ChildrenModel::Block(default_block_boxes(frame)))
}

/// The default box of an info box: a block box around one box, the box of
/// its frame, with a padding of 10 on every side and a blue background.
pub open spec fn default_info_box_box(info_box: Seq<BlockModel>) -> BoxModel
    decreases info_box, 2int,
{
    BoxModel {
        context: FlowContext::Block,
        text: None,
        margins: Extents::empty(),
        padding: Extents::with_equal_size(10),
        background: Some(Colour::blue()),
        foreground: Colour::black(),
        children: ChildrenModel::Block(seq![default_frame_box(info_box)]),
    }
}

/// The default box of a block, by its kind.
pub open spec fn default_block_box(block: BlockModel) -> BoxModel
    decreases block, 0int,
{
    match block {
        BlockModel::Paragraph(inlines) => default_paragraph_box(inlines),
        BlockModel::Frame(blocks) => default_frame_box(blocks),
        BlockModel::InfoBox(blocks) => default_info_box_box(blocks),
    }
}

/// The default boxes of a list of blocks, in order.
pub open spec fn default_block_boxes(blocks: Seq<BlockModel>) -> Seq<BoxModel>
    decreases blocks, 0int,
{
    Seq::new(
        blocks.len(),
        |i: int|
            if 0 <= i < blocks.len() {
                default_block_box(blocks[i])
            } else {
                arbitrary()
            },
    )
}

/// The layout manager of the engine.
pub struct DefaultLayoutManager {}

impl DefaultLayoutManager {
    /// The layout tree of a block, built by the method for its kind.
    fn build_block_layout_tree(&self, block: &Block) -> (tree: LayoutBox<BlockFlow>)
        ensures
            tree.model() == default_block_box(block@),
        decreases block, 0int,
    {
        match block {
            Block::Paragraph(paragraph) => self.build_paragraph_layout_tree(paragraph),
            Block::Frame(frame) => self.build_frame_layout_tree(frame),
            Block::InfoBox(info_box) => self.build_info_box_layout_tree(info_box),
        }
    }

    /// The layout trees of a list of blocks, in order.
    fn build_block_layout_trees(&self, blocks: &Vec<Block>) -> (trees: Vec<LayoutBox<BlockFlow>>)
        ensures
            block_boxes_model(trees@) == default_block_boxes(crate::model::blocks_model(blocks@)),
        decreases blocks, 0int,
    {
        let mut children: Vec<LayoutBox<BlockFlow>> = Vec::new();
        let mut i: usize = 0;
        while i < blocks.len()
            invariant
                i <= blocks.len(),
                children.len() == i,
                forall|k: int|
                    0 <= k < i ==> (#[trigger] children[k]).model() == default_block_box(
                        blocks[k]@,
                    ),
            decreases blocks.len() - i,
        {
            let subtree = self.build_block_layout_tree(&blocks[i]);
            children.push(subtree);
            i += 1;
        }
        children
    }
}

impl LayoutManager for DefaultLayoutManager {
    open spec fn frame_tree(&self, frame: Seq<BlockModel>) -> BoxModel {
        default_frame_box(frame)
    }

    open spec fn paragraph_tree(&self, paragraph: Seq<InlineModel>) -> BoxModel {
        default_paragraph_box(paragraph)
    }

    open spec fn run_tree(&self, run: Span) -> BoxModel {
        default_run_box(run)
    }

    open spec fn info_box_tree(&self, info_box: Seq<BlockModel>) -> BoxModel {
        default_info_box_box(info_box)
    }

    fn build_frame_layout_tree(&self, frame: &Frame) -> (tree: LayoutBox<BlockFlow>)
        decreases frame, 0int,
    {
        let children = self.build_block_layout_trees(&frame.children);
        LayoutBox {
            flow: BlockFlow { is_anonymous: false },
            margins: Extents::empty(),
            padding: Extents::empty(),
            background: None,
            foreground: Colour::black(),
            children: LayoutChildren::with_block_children(children),
        }
    }

    fn build_paragraph_layout_tree(&self, paragraph: &Paragraph) -> (tree: LayoutBox<BlockFlow>) {
        let mut children: Vec<LayoutBox<InlineFlow>> = Vec::new();
        let mut i: usize = 0;
        while i < paragraph.children.len()
            invariant
                i <= paragraph.children.len(),
                children.len() == i,
                forall|k: int|
                    0 <= k < i ==> (#[trigger] children[k]).model() == default_inline_box(
                        paragraph.children[k]@,
                    ),
            decreases paragraph.children.len() - i,
        {
            let subtree = match &paragraph.children[i] {
                Inline::Run(run) => self.build_run_layout_tree(run),
            };
            children.push(subtree);
            i += 1;
        }
        let block = LayoutBox {
            flow: BlockFlow { is_anonymous: false },
            margins: Extents::empty(),
            padding: Extents::empty(),
            background: None,
            foreground: Colour::black(),
            children: LayoutChildren::with_inline_children(children),
        };
        assert(inline_boxes_model(children@) == default_inline_boxes(paragraph@));
        block
    }

    fn build_run_layout_tree(&self, run: &Run) -> (tree: LayoutBox<InlineFlow>) {
        LayoutBox {
            flow: InlineFlow { text: run.text },
            margins: Extents::empty(),
            padding: Extents::empty(),
            background: None,
            foreground: Colour::black(),
            children: LayoutChildren::Empty,
        }
    }

    fn build_info_box_layout_tree(&self, infobox: &InfoBox) -> (tree: LayoutBox<BlockFlow>)
        decreases infobox, 0int,
    {
        let mut children: Vec<LayoutBox<BlockFlow>> = Vec::new();
        let subtree = self.build_frame_layout_tree(&infobox.child);
        children.push(subtree);
        assert(block_boxes_model(children@) == seq![default_frame_box(infobox@)]);
        LayoutBox {
            flow: BlockFlow { is_anonymous: false },
            margins: Extents::empty(),
            padding: Extents::with_equal_size(10),
            background: Some(Colour::blue()),
            foreground: Colour::black(),
            children: LayoutChildren::Block(children),
        }
    }
}

/// Where block `index` of a stack in `rect` is laid out: `rect` moved down by
/// the heights of the blocks before it.
pub open spec fn place<B: FontBackend>(
    blocks: Seq<BoxModel>,
    table: PieceTable,
    backend: &B,
    rect: Rectangle,
    index: int,
) -> Rectangle {
    Rectangle {
        x: rect.x,
        y: (rect.y + stack(blocks, table, backend, rect, index).unwrap().height) as i32,
        w: rect.w,
        h: rect.h,
    }
}

/// The height that block `index` of a stack in `rect` needs.
pub open spec fn block_height<B: FontBackend>(
    blocks: Seq<BoxModel>,
    table: PieceTable,
    backend: &B,
    rect: Rectangle,
    index: int,
) -> int {
    arrange(
        blocks[index],
        table,
        backend,
        place(blocks, table, backend, rect, index),
    ).unwrap().height as int
}

/// The sum of the heights that the first `count` blocks of a stack need.
pub open spec fn heights_sum<B: FontBackend>(
    blocks: Seq<BoxModel>,
    table: PieceTable,
    backend: &B,
    rect: Rectangle,
    count: int,
) -> int
    decreases count,
{
    if count <= 0 {
        0
    } else {
        heights_sum(blocks, table, backend, rect, count - 1) + block_height(
            blocks,
            table,
            backend,
            rect,
            count - 1,
        )
    }
}

/// The height of a stack is the sum of the heights of its blocks, each of
/// which has a layout where the stack has one.
pub proof fn lemma_stack_adds_heights<B: FontBackend>(
    blocks: Seq<BoxModel>,
    table: PieceTable,
    backend: &B,
    rect: Rectangle,
    count: int,
)
    requires
        0 <= count <= blocks.len(),
        stack(blocks, table, backend, rect, count) is Ok,
    ensures
        stack(blocks, table, backend, rect, count).unwrap().height == heights_sum(
            blocks,
            table,
            backend,
            rect,
            count,
        ),
        forall|i: int|
            0 <= i < count ==> (#[trigger] arrange(
                blocks[i],
                table,
                backend,
                place(blocks, table, backend, rect, i),
            )) is Ok,
    decreases count,
{
    if count > 0 {
        lemma_stack_adds_heights(blocks, table, backend, rect, count - 1);
    }
}

/// Height additivity. A box around blocks needs the sum of the heights that
/// its blocks need, plus its own margins and padding at the top and at the
/// bottom.
pub proof fn lemma_height_is_sum<B: FontBackend>(
    layout_box: BoxModel,
    table: PieceTable,
    backend: &B,
    rect: Rectangle,
)
    requires
        layout_box.children is Block,
        arrange(layout_box, table, backend, rect) is Ok,
    ensures
        arrange(layout_box, table, backend, rect).unwrap().height == heights_sum(
            layout_box.children->Block_0,
            table,
            backend,
            layout_box.content(rect),
            layout_box.children->Block_0.len() as int,
        ) + layout_box.offset_top() + layout_box.offset_bottom(),
{
    let blocks = layout_box.children->Block_0;
    lemma_stack_adds_heights(
        blocks,
        table,
        backend,
        layout_box.content(rect),
        blocks.len() as int,
    );
}

/// Height additivity for the default frame, which has neither margins nor
/// padding: a frame needs exactly the sum of the heights that its children
/// need, each laid out in the rectangle of the frame moved down by the
/// children before it.
pub proof fn lemma_frame_height_is_sum<B: FontBackend>(
    frame: Seq<BlockModel>,
    table: PieceTable,
    backend: &B,
    rect: Rectangle,
)
    requires
        arrange(default_frame_box(frame), table, backend, rect) is Ok,
    ensures
        arrange(default_frame_box(frame), table, backend, rect).unwrap().height == heights_sum(
            default_block_boxes(frame),
            table,
            backend,
            rect,
            frame.len() as int,
        ),
{
    let layout_box = default_frame_box(frame);
    assert(layout_box.content(rect) == rect);
    lemma_height_is_sum(layout_box, table, backend, rect);
}

/// The box paints a rectangle of its own: every box does but the one around
/// text that has no background.
pub open spec fn paints_itself(layout_box: BoxModel) -> bool {
    !(layout_box.children is Inline) || layout_box.background is Some
}

/// Backgrounds under content. A box that paints a rectangle of its own
/// paints it first, before anything that stands inside it, with the
/// background that the box has. The rectangle starts where the margins of
/// the box end, at the left and at the top, and the box is as high as the
/// rectangle and the margins at the top and at the bottom together.
pub proof fn lemma_own_rectangle_first<B: FontBackend>(
    layout_box: BoxModel,
    table: PieceTable,
    backend: &B,
    rect: Rectangle,
)
    requires
        paints_itself(layout_box),
        arrange(layout_box, table, backend, rect) is Ok,
    ensures
        ({
            let laid = arrange(layout_box, table, backend, rect).unwrap();
            &&& laid.commands.len() >= 1
            &&& laid.commands[0] matches Paint::Box { rectangle, colour }
            &&& colour == layout_box.background
            &&& rectangle.x == rect.x + layout_box.margins.left
            &&& rectangle.y == rect.y + layout_box.margins.top
            &&& rectangle.w == rect.w - layout_box.margins.right
            &&& laid.height == rectangle.h + layout_box.margins.top + layout_box.margins.bottom
        }),
{
}

/// A box around text that has no background paints what its inline flow
/// paints and nothing else.
pub proof fn lemma_bare_text_box<B: FontBackend>(
    layout_box: BoxModel,
    table: PieceTable,
    backend: &B,
    rect: Rectangle,
)
    requires
        !paints_itself(layout_box),
        arrange(layout_box, table, backend, rect) is Ok,
    ensures
        flow(
            layout_box.children->Inline_0,
            table,
            backend,
            layout_box.content(rect),
        ) matches Ok(inner) && arrange(layout_box, table, backend, rect).unwrap().commands
            == inner.commands,
{
}

/// The text of each inline box as characters, box by box.
pub open spec fn flow_texts(inlines: Seq<BoxModel>, table: PieceTable) -> Seq<Seq<char>> {
    Seq::new(inlines.len(), |i: int| decode_utf8(box_text(inlines[i], table).unwrap()))
}

/// What the first `count` inline boxes hold is UTF-8, and decodes to their
/// texts one after the other.
proof fn lemma_flow_prefix(inlines: Seq<BoxModel>, table: PieceTable, count: int)
    requires
        valid_utf8(table.original),
        valid_utf8(table.edits),
        flow_resolves(inlines, table),
        0 <= count <= inlines.len(),
    ensures
        valid_utf8(flow_parts(inlines, table).take(count).flatten()),
        decode_utf8(flow_parts(inlines, table).take(count).flatten()) == flow_texts(
            inlines,
            table,
        ).take(count).flatten(),
    decreases count,
{
    let parts = flow_parts(inlines, table);
    let texts = flow_texts(inlines, table);
    if count == 0 {
        assert(parts.take(0) == Seq::<Seq<u8>>::empty());
        assert(texts.take(0) == Seq::<Seq<char>>::empty());
        assert(decode_utf8(Seq::<u8>::empty()) == Seq::<char>::empty());
    } else {
        lemma_flow_prefix(inlines, table, count - 1);
        let part = parts[count - 1];
        assert(box_text(inlines[count - 1], table) is Some);
        assert(valid_utf8(part)) by {
            match inlines[count - 1].text {
                Some(span) => {
                    lemma_text_range(table.buffer(span.in_edits), span.start, span.end);
                },
                None => {},
            }
        }
        assert(parts.take(count) == parts.take(count - 1).push(part));
        parts.take(count - 1).lemma_flatten_push(part);
        assert(texts.take(count) == texts.take(count - 1).push(texts[count - 1]));
        texts.take(count - 1).lemma_flatten_push(texts[count - 1]);
        lemma_decode_concat(parts.take(count - 1).flatten(), part);
    }
}

/// Flattened inline concatenation. The one text command of an inline flow
/// carries the texts of the inline boxes, joined in their order, and the
/// backend is asked for the height of exactly that text.
pub proof fn lemma_flow_joins_texts<B: FontBackend>(
    inlines: Seq<BoxModel>,
    table: PieceTable,
    backend: &B,
    rect: Rectangle,
)
    requires
        valid_utf8(table.original),
        valid_utf8(table.edits),
        inlines.len() > 0,
        flow_resolves(inlines, table),
    ensures
        flow(inlines, table, backend, rect) == Ok::<Laid, EngineError>(
            Laid {
                commands: seq![
                    Paint::Text {
                        x: rect.x,
                        y: rect.y,
                        width: rect.w,
                        text: flow_texts(inlines, table).flatten(),
                    },
                ],
                height: backend.height(flow_texts(inlines, table).flatten(), rect.w),
            },
        ),
{
    lemma_flow_prefix(inlines, table, inlines.len() as int);
    assert(flow_parts(inlines, table).take(inlines.len() as int) == flow_parts(inlines, table));
    assert(flow_texts(inlines, table).take(inlines.len() as int) == flow_texts(inlines, table));
}

/// The default box of a block whose runs all address whole characters has
/// every text it needs: its layout does not fail with `CorruptRun`.
pub proof fn lemma_default_block_resolves<B: FontBackend>(
    block: BlockModel,
    table: PieceTable,
    backend: &B,
    rect: Rectangle,
)
    requires
        table.all_text(block_leaves(block)),
    ensures
        arrange(default_block_box(block), table, backend, rect) != Err::<Laid, EngineError>(
            EngineError::CorruptRun,
        ),
    decreases block, 0int,
{
    let layout_box = default_block_box(block);
    let content = layout_box.content(rect);
    match block {
        BlockModel::Paragraph(inlines) => {
            let boxes = default_inline_boxes(inlines);
            assert forall|i: int| 0 <= i < boxes.len() implies (#[trigger] box_text(
                boxes[i],
                table,
            )) is Some by {
                assert(table.is_text(inlines_leaves(inlines)[i]));
            }
        },
        BlockModel::Frame(blocks) => {
            lemma_default_frame_resolves(blocks, table, backend, rect);
        },
        BlockModel::InfoBox(blocks) => {
            let inside = seq![default_frame_box(blocks)];
            assert(stack(inside, table, backend, content, 0) == Ok::<Laid, EngineError>(
                Laid { commands: Seq::empty(), height: 0 },
            ));
            lemma_default_frame_resolves(blocks, table, backend, content);
        },
    }
}

/// The default box of a frame whose runs all address whole characters has
/// every text it needs: its layout does not fail with `CorruptRun`.
pub proof fn lemma_default_frame_resolves<B: FontBackend>(
    frame: Seq<BlockModel>,
    table: PieceTable,
    backend: &B,
    rect: Rectangle,
)
    requires
        table.all_text(blocks_leaves(frame)),
    ensures
        arrange(default_frame_box(frame), table, backend, rect) != Err::<Laid, EngineError>(
            EngineError::CorruptRun,
        ),
    decreases frame, frame.len() + 1,
{
    let content = default_frame_box(frame).content(rect);
    lemma_default_blocks_resolve(frame, table, backend, content, frame.len() as int);
}

/// The default boxes of blocks whose runs all address whole characters have
/// every text they need: their stack does not fail with `CorruptRun`.
pub proof fn lemma_default_blocks_resolve<B: FontBackend>(
    blocks: Seq<BlockModel>,
    table: PieceTable,
    backend: &B,
    rect: Rectangle,
    count: int,
)
    requires
        table.all_text(blocks_leaves(blocks)),
        0 <= count <= blocks.len(),
    ensures
        stack(default_block_boxes(blocks), table, backend, rect, count) != Err::<
            Laid,
            EngineError,
        >(EngineError::CorruptRun),
    decreases blocks, count,
{
    if count > 0 {
        let boxes = default_block_boxes(blocks);
        lemma_default_blocks_resolve(blocks, table, backend, rect, count - 1);
        lemma_blocks_leaves_around(blocks, count - 1);
        table.lemma_all_text_concat(
            blocks_leaves(blocks.take(count - 1)) + block_leaves(blocks[count - 1]),
            blocks_leaves(blocks.skip(count)),
        );
        table.lemma_all_text_concat(
            blocks_leaves(blocks.take(count - 1)),
            block_leaves(blocks[count - 1]),
        );
        match stack(boxes, table, backend, rect, count - 1) {
            Ok(above) => {
                if in_range(rect.y + above.height) {
                    let place = Rectangle {
                        x: rect.x,
                        y: (rect.y + above.height) as i32,
                        w: rect.w,
                        h: rect.h,
                    };
                    lemma_default_block_resolves(blocks[count - 1], table, backend, place);
                }
            },
            Err(_) => {},
        }
    }
}

/// A well-formed document has every text that its default layout needs:
/// laid out by the default layout manager it fails, if at all, with
/// `Overflow`.
pub proof fn lemma_default_layout_fails_by_overflow<B: FontBackend>(
    document: &Document,
    backend: &B,
    rect: Rectangle,
)
    requires
        document.wf(),
    ensures
        arrange(default_frame_box(document.tree()), document.table(), backend, rect) is Err
            ==> arrange(default_frame_box(document.tree()), document.table(), backend, rect)
            == Err::<Laid, EngineError>(EngineError::Overflow),
{
    let table = document.table();
    assert(table.all_text(table.runs));
    lemma_default_frame_resolves(document.tree(), table, backend, rect);
    lemma_layout_errors(default_frame_box(document.tree()), table, backend, rect);
}

/// A layout fails in one of two ways.
pub proof fn lemma_layout_errors<B: FontBackend>(
    layout_box: BoxModel,
    table: PieceTable,
    backend: &B,
    rect: Rectangle,
)
    ensures
        arrange(layout_box, table, backend, rect) matches Err(e) ==> e == EngineError::Overflow
            || e == EngineError::CorruptRun,
    decreases layout_box, 0int,
{
    match layout_box.children {
        ChildrenModel::Block(blocks) => {
            lemma_stack_errors(
                blocks,
                table,
                backend,
                layout_box.content(rect),
                blocks.len() as int,
            );
        },
        _ => {},
    }
}

/// A stack fails in one of two ways.
pub proof fn lemma_stack_errors<B: FontBackend>(
    blocks: Seq<BoxModel>,
    table: PieceTable,
    backend: &B,
    rect: Rectangle,
    count: int,
)
    ensures
        stack(blocks, table, backend, rect, count) matches Err(e) ==> e == EngineError::Overflow
            || e == EngineError::CorruptRun,
    decreases blocks, count,
{
    if 0 < count <= blocks.len() {
        lemma_stack_errors(blocks, table, backend, rect, count - 1);
        match stack(blocks, table, backend, rect, count - 1) {
            Ok(above) => {
                if in_range(rect.y + above.height) {
                    let place = Rectangle {
                        x: rect.x,
                        y: (rect.y + above.height) as i32,
                        w: rect.w,
                        h: rect.h,
                    };
                    lemma_layout_errors(blocks[count - 1], table, backend, place);
                }
            },
            Err(_) => {},
        }
    }
}

} // verus!
