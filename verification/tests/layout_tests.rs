use std::cell::RefCell;

use text_engine::error::EngineError;
use text_engine::layout::{
    BlockFlow, Colour, DefaultLayoutManager, DisplayList, Extents, FlowContext, FontBackend,
    InlineFlow, LayoutBox, LayoutChildren, LayoutFlow, LayoutManager, Rectangle, RenderCommand,
};
use text_engine::model::{
    Block, Document, Element, Frame, InfoBox, Inline, Paragraph, Run, TextData,
};

struct FixedHeight {
    height: i32,
}

impl FontBackend for FixedHeight {
    fn measure_height_for_paragraph(&self, _text: &String, _width: i32) -> i32 {
        self.height
    }
}

/// One line of 10 for every 4 bytes of text, and a record of what was asked.
struct Recorder {
    asked: RefCell<Vec<(String, i32)>>,
}

impl Recorder {
    fn new() -> Recorder {
        Recorder { asked: RefCell::new(Vec::new()) }
    }
}

impl FontBackend for Recorder {
    fn measure_height_for_paragraph(&self, text: &String, width: i32) -> i32 {
        self.asked.borrow_mut().push((text.clone(), width));
        10 * ((text.len() as i32 + 3) / 4)
    }
}

fn rect(x: i32, y: i32, w: i32, h: i32) -> Rectangle {
    Rectangle { x, y, w, h }
}

fn text_command(x: i32, y: i32, width: i32, text: &str) -> RenderCommand {
    RenderCommand::RenderText(x, y, width, text.to_string())
}

fn box_command(rectangle: Rectangle, colour: Option<Colour>) -> RenderCommand {
    RenderCommand::RenderBox(rectangle, colour)
}

fn paragraph_of(document: &mut Document, texts: &[&str]) -> Paragraph {
    let mut paragraph = Paragraph { children: Vec::new() };
    for text in texts {
        let data = document.append_text(text);
        paragraph.append_inline(Inline::Run(Run { text: data }));
    }
    paragraph
}

fn plain_block(children: LayoutChildren) -> LayoutBox<BlockFlow> {
    LayoutBox {
        flow: BlockFlow { is_anonymous: false },
        margins: Extents::empty(),
        padding: Extents::empty(),
        background: None,
        foreground: Colour::black(),
        children,
    }
}

fn inline_box(text: TextData) -> LayoutBox<InlineFlow> {
    LayoutBox {
        flow: InlineFlow { text },
        margins: Extents::empty(),
        padding: Extents::empty(),
        background: None,
        foreground: Colour::black(),
        children: LayoutChildren::Empty,
    }
}

#[test]
fn one_paragraph_gives_one_box_and_one_text() {
    let document = Document::new(Some("猫は白です。"));
    let backend = FixedHeight { height: 20 };
    let (list, height) = document
        .try_layout(100, &DefaultLayoutManager {}, &backend)
        .unwrap();
    let mut box_count = 0;
    let mut text_count = 0;
    for command in &list.commands {
        match command {
            RenderCommand::RenderBox(_, _) => box_count += 1,
            RenderCommand::RenderText(_, _, _, text) => {
                text_count += 1;
                assert_eq!(text, "猫は白です。");
            }
        }
    }
    assert_eq!(box_count, 1);
    assert_eq!(text_count, 1);
    assert_eq!(height, 20);
    assert_eq!(
        list.commands,
        vec![
            box_command(rect(0, 0, 100, 20), None),
            text_command(0, 0, 100, "猫は白です。"),
        ]
    );
    let again = document.layout(100, &DefaultLayoutManager {}, &backend);
    assert_eq!(again, list);
}

#[test]
fn inline_children_are_joined_into_one_text() {
    let mut document = Document::new(None);
    let paragraph = paragraph_of(&mut document, &["Hello ", "World"]);
    assert_eq!(document.append_block(Block::Paragraph(paragraph)), Ok(()));
    let backend = Recorder::new();
    let list = document.layout(300, &DefaultLayoutManager {}, &backend);
    assert_eq!(
        list.commands,
        vec![
            box_command(rect(0, 0, 300, 30), None),
            text_command(0, 0, 300, "Hello World"),
        ]
    );
    assert_eq!(
        *backend.asked.borrow(),
        vec![("Hello World".to_string(), 300)]
    );
}

#[test]
fn a_frame_is_as_high_as_its_children_together() {
    let mut document = Document::new(Some("abcd"));
    for texts in [&["0123456789"][..], &[][..], &["x", "y", "zzzzz"][..], &[""][..]] {
        let paragraph = paragraph_of(&mut document, texts);
        assert_eq!(document.append_block(Block::Paragraph(paragraph)), Ok(()));
    }
    let backend = Recorder::new();
    let manager = DefaultLayoutManager {};
    let mut sum = 0;
    let mut heights = Vec::new();
    for child in &document.root().children {
        let tree = child.build_layout_tree(&manager);
        let (_, height) = tree.layout(&document, &backend, rect(0, sum, 80, -1));
        heights.push(height);
        sum += height;
    }
    assert_eq!(heights, vec![10, 30, 0, 20, 0]);
    let (list, height) = document.try_layout(80, &manager, &backend).unwrap();
    assert_eq!(height, 60);
    assert_eq!(height, sum);
    assert_eq!(
        list.commands,
        vec![
            box_command(rect(0, 0, 80, 60), None),
            text_command(0, 0, 80, "abcd"),
            text_command(0, 10, 80, "0123456789"),
            text_command(0, 40, 80, "xyzzzzz"),
            text_command(0, 60, 80, ""),
        ]
    );
}

#[test]
fn the_sample_document_lays_out_its_info_box() {
    let document = text_engine::get_sample_document();
    let backend = FixedHeight { height: 20 };
    let (list, height) = document
        .try_layout(400, &DefaultLayoutManager {}, &backend)
        .unwrap();
    assert_eq!(height, 60);
    assert_eq!(
        list.commands,
        vec![
            box_command(rect(0, 0, 400, 60), None),
            text_command(0, 0, 400, "The cat is white. 猫は白です。\"Meow\"「ニャア」"),
            box_command(rect(0, 20, 400, 40), Some(Colour { red: 0, green: 0, blue: 255 })),
            box_command(rect(10, 30, 380, 20), None),
            text_command(10, 30, 380, "Info Box Contents"),
        ]
    );
}

#[test]
fn a_frame_inside_a_frame_paints_its_own_box() {
    let mut document = Document::new(None);
    let first = paragraph_of(&mut document, &["one"]);
    let second = paragraph_of(&mut document, &["two"]);
    let mut inner = Frame { children: Vec::new() };
    inner.append_block(Block::Paragraph(first));
    inner.append_block(Block::Frame(Frame { children: Vec::new() }));
    inner.append_block(Block::Paragraph(second));
    assert_eq!(document.append_block(Block::Frame(inner)), Ok(()));
    let backend = FixedHeight { height: 7 };
    let (list, height) = document
        .try_layout(50, &DefaultLayoutManager {}, &backend)
        .unwrap();
    assert_eq!(height, 14);
    assert_eq!(
        list.commands,
        vec![
            box_command(rect(0, 0, 50, 14), None),
            box_command(rect(0, 0, 50, 14), None),
            text_command(0, 0, 50, "one"),
            box_command(rect(0, 7, 50, 0), None),
            text_command(0, 7, 50, "two"),
        ]
    );
}

#[test]
fn an_empty_document_paints_one_empty_box() {
    let document = Document::new(None);
    let backend = Recorder::new();
    let (list, height) = document
        .try_layout(640, &DefaultLayoutManager {}, &backend)
        .unwrap();
    assert_eq!(list.commands, vec![box_command(rect(0, 0, 640, 0), None)]);
    assert_eq!(height, 0);
    assert!(backend.asked.borrow().is_empty());
}

#[test]
fn an_empty_paragraph_paints_nothing_and_asks_nothing() {
    let document = Document::new(None);
    let backend = Recorder::new();
    let tree = DefaultLayoutManager {}.build_paragraph_layout_tree(&Paragraph { children: Vec::new() });
    let (commands, height) = tree.layout(&document, &backend, rect(3, 4, 50, -1));
    assert!(commands.is_empty());
    assert_eq!(height, 0);
    assert!(backend.asked.borrow().is_empty());
}

#[test]
fn an_empty_info_box_is_as_high_as_its_padding() {
    let document = Document::new(None);
    let backend = FixedHeight { height: 20 };
    let info_box = InfoBox { child: Frame { children: Vec::new() } };
    let tree = info_box.build_layout_tree(&DefaultLayoutManager {});
    let (commands, height) = tree.layout(&document, &backend, rect(5, 6, 100, -1));
    assert_eq!(
        commands,
        vec![
            box_command(rect(5, 6, 100, 20), Some(Colour::blue())),
            box_command(rect(15, 16, 80, 0), None),
        ]
    );
    assert_eq!(height, 20);
}

#[test]
fn a_box_without_children_paints_its_own_box() {
    let document = Document::new(Some("text"));
    let backend = Recorder::new();
    let leaf = inline_box(TextData { append: false, start_index: 0, end_index: 4 });
    let (commands, height) = leaf.layout(&document, &backend, rect(1, 2, 30, 9));
    assert_eq!(commands, vec![box_command(rect(1, 2, 30, 0), None)]);
    assert_eq!(height, 0);
    assert!(backend.asked.borrow().is_empty());
}

#[test]
fn margins_and_padding_move_the_content_and_add_to_the_height() {
    let document = Document::new(Some("text"));
    let backend = Recorder::new();
    let text = TextData { append: false, start_index: 0, end_index: 4 };
    let mut paragraph = plain_block(LayoutChildren::with_inline_children(vec![inline_box(text)]));
    paragraph.margins = Extents::new(1, 2, 3, 4);
    paragraph.padding = Extents::new(10, 20, 30, 40);
    let mut frame = plain_block(LayoutChildren::with_block_children(vec![paragraph]));
    frame.margins = Extents { top: 100, left: 200, bottom: 300, right: 400 };
    frame.padding = Extents { top: 1000, left: 2000, bottom: 3000, right: 4000 };
    frame.background = Some(Colour::red());
    let (commands, height) = frame.layout(&document, &backend, rect(5, 7, 10000, -1));
    assert_eq!(
        commands,
        vec![
            box_command(rect(205, 107, 9600, 4043), Some(Colour::red())),
            text_command(2238, 1118, 3323, "text"),
        ]
    );
    assert_eq!(height, 4443);
    assert_eq!(*backend.asked.borrow(), vec![("text".to_string(), 3323)]);
}

#[test]
fn zero_and_negative_widths_are_laid_out() {
    let document = text_engine::get_sample_document();
    let backend = Recorder::new();
    let (list, height) = document
        .try_layout(0, &DefaultLayoutManager {}, &backend)
        .unwrap();
    assert_eq!(height, 220);
    assert_eq!(
        list.commands,
        vec![
            box_command(rect(0, 0, 0, 220), None),
            text_command(0, 0, 0, "The cat is white. 猫は白です。\"Meow\"「ニャア」"),
            box_command(rect(0, 150, 0, 70), Some(Colour::blue())),
            box_command(rect(10, 160, -20, 50), None),
            text_command(10, 160, -20, "Info Box Contents"),
        ]
    );
    let (list, _) = document
        .try_layout(-7, &DefaultLayoutManager {}, &backend)
        .unwrap();
    assert_eq!(list.commands[0], box_command(rect(0, 0, -7, 220), None));
    assert_eq!(list.commands[3], box_command(rect(10, 160, -27, 50), None));
    assert_eq!(
        list.commands[4],
        text_command(10, 160, -27, "Info Box Contents")
    );
}

#[test]
fn a_height_of_the_backend_is_taken_as_it_is() {
    let document = Document::new(Some("a"));
    let backend = FixedHeight { height: -5 };
    let (list, height) = document
        .try_layout(10, &DefaultLayoutManager {}, &backend)
        .unwrap();
    assert_eq!(height, -5);
    assert_eq!(
        list.commands,
        vec![box_command(rect(0, 0, 10, -5), None), text_command(0, 0, 10, "a")]
    );
}

#[test]
fn a_sum_out_of_range_is_an_overflow() {
    let document = Document::new(Some("a"));
    let backend = FixedHeight { height: i32::MAX };
    let mut second = Paragraph { children: Vec::new() };
    second.append_inline(Inline::Run(Run {
        text: TextData { append: false, start_index: 0, end_index: 1 },
    }));
    let mut document = document;
    assert_eq!(document.append_block(Block::Paragraph(second)), Ok(()));
    assert_eq!(
        document.try_layout(10, &DefaultLayoutManager {}, &backend),
        Err(EngineError::Overflow)
    );
    let mut wide = plain_block(LayoutChildren::Empty);
    wide.margins = Extents { top: 0, left: i32::MAX, bottom: 0, right: 0 };
    wide.padding = Extents { top: 0, left: 1, bottom: 0, right: 0 };
    assert_eq!(
        wide.try_layout(&document, &backend, rect(0, 0, 10, -1)),
        Err(EngineError::Overflow)
    );
    let mut narrow = plain_block(LayoutChildren::Empty);
    narrow.margins = Extents { top: 0, left: 0, bottom: 0, right: 20 };
    assert_eq!(
        narrow.try_layout(&document, &backend, rect(0, 0, i32::MIN + 10, -1)),
        Err(EngineError::Overflow)
    );
    let single = Document::new(Some("a"));
    let (_, height) = single
        .try_layout(10, &DefaultLayoutManager {}, &backend)
        .unwrap();
    assert_eq!(height, i32::MAX);
}

#[test]
fn a_text_that_cannot_be_had_is_a_corrupt_run() {
    let document = Document::new(Some("猫"));
    let backend = Recorder::new();
    let good = TextData { append: false, start_index: 0, end_index: 3 };
    let bad = TextData { append: false, start_index: 0, end_index: 2 };
    let outside = TextData { append: true, start_index: 0, end_index: 1 };
    for broken in [bad, outside] {
        let paragraph = plain_block(LayoutChildren::with_inline_children(vec![
            inline_box(good),
            inline_box(broken),
        ]));
        let frame = plain_block(LayoutChildren::with_block_children(vec![paragraph]));
        assert_eq!(
            frame.try_layout(&document, &backend, rect(0, 0, 10, -1)),
            Err(EngineError::CorruptRun)
        );
    }
    assert!(backend.asked.borrow().is_empty());
    let whole = plain_block(LayoutChildren::with_inline_children(vec![
        inline_box(good),
        inline_box(good),
    ]));
    assert_eq!(
        whole.try_layout(&document, &backend, rect(0, 0, 10, -1)),
        Ok((vec![text_command(0, 0, 10, "猫猫")], 20))
    );
}

struct Indented {}

impl LayoutManager for Indented {
    fn build_frame_layout_tree(&self, frame: &Frame) -> LayoutBox<BlockFlow> {
        let mut children = Vec::new();
        for child in &frame.children {
            children.push(child.build_layout_tree(self));
        }
        let mut tree = plain_block(LayoutChildren::Block(children));
        tree.padding = Extents::with_equal_size(2);
        tree
    }

    fn build_paragraph_layout_tree(&self, paragraph: &Paragraph) -> LayoutBox<BlockFlow> {
        let mut children = Vec::new();
        for child in &paragraph.children {
            children.push(child.build_layout_tree(self));
        }
        let mut tree = plain_block(LayoutChildren::Inline(children));
        tree.margins = Extents { top: 1, left: 5, bottom: 1, right: 0 };
        tree
    }

    fn build_run_layout_tree(&self, run: &Run) -> LayoutBox<InlineFlow> {
        inline_box(run.text)
    }

    fn build_info_box_layout_tree(&self, infobox: &InfoBox) -> LayoutBox<BlockFlow> {
        self.build_frame_layout_tree(&infobox.child)
    }
}

#[test]
fn each_element_hands_itself_to_the_method_for_its_kind() {
    let document = text_engine::get_sample_document();
    let backend = FixedHeight { height: 20 };
    let (list, height) = document.try_layout(100, &Indented {}, &backend).unwrap();
    assert_eq!(height, 52);
    assert_eq!(
        list.commands,
        vec![
            box_command(rect(0, 0, 100, 52), None),
            text_command(7, 3, 91, "The cat is white. 猫は白です。\"Meow\"「ニャア」"),
            box_command(rect(2, 24, 96, 26), None),
            text_command(9, 27, 87, "Info Box Contents"),
        ]
    );
}

#[test]
fn the_default_manager_builds_plain_boxes() {
    let document = text_engine::get_sample_document();
    let tree = document.root().build_layout_tree(&DefaultLayoutManager {});
    assert_eq!(tree.flow, BlockFlow { is_anonymous: false });
    assert_eq!(tree.margins, Extents { top: 0, left: 0, bottom: 0, right: 0 });
    assert_eq!(tree.padding, Extents { top: 0, left: 0, bottom: 0, right: 0 });
    assert_eq!(tree.background, None);
    assert_eq!(tree.foreground, Colour { red: 0, green: 0, blue: 0 });
    let children = match &tree.children {
        LayoutChildren::Block(children) => children,
        _ => panic!("a frame has block children"),
    };
    assert_eq!(children.len(), 2);
    let runs = match &children[0].children {
        LayoutChildren::Inline(runs) => runs,
        _ => panic!("a paragraph has inline children"),
    };
    assert_eq!(runs.len(), 1);
    assert_eq!(
        runs[0].flow,
        InlineFlow { text: TextData { append: false, start_index: 0, end_index: 57 } }
    );
    assert!(matches!(runs[0].children, LayoutChildren::Empty));
    let info_box = &children[1];
    assert_eq!(info_box.margins, Extents { top: 0, left: 0, bottom: 0, right: 0 });
    assert_eq!(info_box.padding, Extents { top: 10, left: 10, bottom: 10, right: 10 });
    assert_eq!(info_box.background, Some(Colour { red: 0, green: 0, blue: 255 }));
    let inner = match &info_box.children {
        LayoutChildren::Block(inner) => inner,
        _ => panic!("an info box has block children"),
    };
    assert_eq!(inner.len(), 1);
    assert_eq!(inner[0].background, None);
    assert_eq!(inner[0].padding, Extents { top: 0, left: 0, bottom: 0, right: 0 });
    let framed = match &inner[0].children {
        LayoutChildren::Block(framed) => framed,
        _ => panic!("the box of the frame has block children"),
    };
    assert_eq!(framed.len(), 1);
    assert!(matches!(framed[0].children, LayoutChildren::Inline(_)));
    assert_eq!(framed[0].background, None);
}

#[test]
fn flows_know_their_context() {
    assert_eq!(BlockFlow { is_anonymous: false }.get_flow_context(), FlowContext::Block);
    assert_eq!(BlockFlow { is_anonymous: true }.get_flow_context(), FlowContext::Anonymous);
    let text = TextData { append: true, start_index: 1, end_index: 2 };
    assert_eq!(InlineFlow { text }.get_flow_context(), FlowContext::Inline);
}

#[test]
fn rectangles_and_extents_are_made_from_their_sides() {
    assert_eq!(Rectangle::empty(), rect(0, 0, 0, 0));
    assert_eq!(Rectangle::with_equal_size(4), rect(4, 4, 4, 4));
    assert_eq!(Rectangle::new(1, 2, 3, 4), rect(1, 2, 3, 4));
    assert_eq!(Extents::empty(), Extents { top: 0, left: 0, bottom: 0, right: 0 });
    assert_eq!(
        Extents::with_equal_size(10),
        Extents { top: 10, left: 10, bottom: 10, right: 10 }
    );
    assert_eq!(Extents::new(1, 2, 3, 4), Extents { top: 1, bottom: 2, left: 3, right: 4 });
}

#[test]
fn the_named_colours() {
    assert_eq!(Colour::black(), Colour { red: 0, green: 0, blue: 0 });
    assert_eq!(Colour::white(), Colour { red: 255, green: 255, blue: 255 });
    assert_eq!(Colour::red(), Colour { red: 255, green: 0, blue: 0 });
    assert_eq!(Colour::green(), Colour { red: 0, green: 255, blue: 0 });
    assert_eq!(Colour::blue(), Colour { red: 0, green: 0, blue: 255 });
}

#[test]
fn children_are_wrapped_by_their_kind() {
    let text = TextData { append: false, start_index: 0, end_index: 0 };
    assert!(matches!(
        LayoutChildren::with_inline_children(vec![inline_box(text)]),
        LayoutChildren::Inline(children) if children.len() == 1
    ));
    assert!(matches!(
        LayoutChildren::with_block_children(Vec::new()),
        LayoutChildren::Block(children) if children.is_empty()
    ));
}

#[test]
fn a_display_list_keeps_the_commands_in_paint_order() {
    let list = DisplayList {
        commands: vec![box_command(rect(0, 0, 1, 1), None), text_command(0, 0, 1, "a")],
    };
    assert!(matches!(list.commands[0], RenderCommand::RenderBox(_, None)));
    assert!(matches!(list.commands[1], RenderCommand::RenderText(0, 0, 1, _)));
}

#[test]
fn every_kind_of_element_builds_its_own_box() {
    let manager = DefaultLayoutManager {};
    let text = TextData { append: true, start_index: 2, end_index: 5 };
    let run_box = Run { text }.build_layout_tree(&manager);
    assert_eq!(run_box.flow, InlineFlow { text });
    assert!(matches!(run_box.children, LayoutChildren::Empty));
    let inline_box = Inline::Run(Run { text }).build_layout_tree(&manager);
    assert_eq!(inline_box.flow, InlineFlow { text });
    let paragraph = Paragraph {
        children: vec![Inline::Run(Run { text }), Inline::Run(Run { text })],
    };
    let paragraph_box = paragraph.build_layout_tree(&manager);
    assert_eq!(paragraph_box.flow, BlockFlow { is_anonymous: false });
    assert!(matches!(
        &paragraph_box.children,
        LayoutChildren::Inline(children) if children.len() == 2
    ));
    let frame = Frame { children: vec![Block::Paragraph(paragraph)] };
    let frame_box = frame.build_layout_tree(&manager);
    assert_eq!(frame_box.padding, Extents::empty());
    assert!(matches!(
        &frame_box.children,
        LayoutChildren::Block(children) if children.len() == 1
    ));
    let info_box = Block::InfoBox(InfoBox { child: frame });
    let info_box_box = info_box.build_layout_tree(&manager);
    assert_eq!(info_box_box.padding, Extents::with_equal_size(10));
    assert_eq!(info_box_box.background, Some(Colour::blue()));
    assert!(matches!(
        &info_box_box.children,
        LayoutChildren::Block(children)
            if children.len() == 1
                && children[0].background.is_none()
                && matches!(
                    &children[0].children,
                    LayoutChildren::Block(framed)
                        if framed.len() == 1
                            && matches!(framed[0].children, LayoutChildren::Inline(_))
                )
    ));
}

#[test]
fn a_valid_document_is_laid_out_after_edits() {
    let mut document = text_engine::get_sample_document();
    assert_eq!(document.insert(3, "!"), Ok(()));
    assert_eq!(document.insert(58 + 4, "-"), Ok(()));
    let backend = Recorder::new();
    let (list, height) = document
        .try_layout(200, &DefaultLayoutManager {}, &backend)
        .unwrap();
    assert_eq!(height, 150 + 50 + 20);
    assert_eq!(
        list.commands,
        vec![
            box_command(rect(0, 0, 200, 220), None),
            text_command(0, 0, 200, "The! cat is white. 猫は白です。\"Meow\"「ニャア」"),
            box_command(rect(0, 150, 200, 70), Some(Colour::blue())),
            box_command(rect(10, 160, 180, 50), None),
            text_command(10, 160, 180, "Info- Box Contents"),
        ]
    );
}

#[test]
fn an_info_box_wraps_the_box_of_its_frame_whatever_the_frame_holds() {
    let mut document = Document::new(None);
    let backend = FixedHeight { height: 8 };
    for count in [0usize, 1, 3] {
        let mut frame = Frame { children: Vec::new() };
        for _ in 0..count {
            frame.append_block(Block::Paragraph(paragraph_of(&mut document, &["x"])));
        }
        let tree = InfoBox { child: frame }.build_layout_tree(&DefaultLayoutManager {});
        let children = match &tree.children {
            LayoutChildren::Block(children) => children,
            _ => panic!("an info box has block children"),
        };
        assert_eq!(children.len(), 1);
        assert!(matches!(
            &children[0].children,
            LayoutChildren::Block(framed) if framed.len() == count
        ));
        let (commands, height) = tree.layout(&document, &backend, rect(0, 0, 100, -1));
        let inner = 8 * count as i32;
        assert_eq!(height, inner + 20);
        assert_eq!(commands.len(), 2 + count);
        assert_eq!(commands[0], box_command(rect(0, 0, 100, inner + 20), Some(Colour::blue())));
        assert_eq!(commands[1], box_command(rect(10, 10, 80, inner), None));
    }
}

#[test]
fn a_box_around_text_paints_the_background_that_it_has() {
    let document = Document::new(Some("Hello World"));
    let backend = FixedHeight { height: 20 };
    let first = TextData { append: false, start_index: 0, end_index: 6 };
    let second = TextData { append: false, start_index: 6, end_index: 11 };
    let mut paragraph = plain_block(LayoutChildren::with_inline_children(vec![
        inline_box(first),
        inline_box(second),
    ]));
    paragraph.margins = Extents::new(1, 2, 3, 4);
    paragraph.padding = Extents::new(10, 20, 30, 40);
    let bare = paragraph.layout(&document, &backend, rect(5, 7, 1000, -1));
    assert_eq!(bare, (vec![text_command(38, 18, 923, "Hello World")], 53));
    paragraph.background = Some(Colour::green());
    let filled = paragraph.layout(&document, &backend, rect(5, 7, 1000, -1));
    assert_eq!(
        filled,
        (
            vec![
                box_command(rect(8, 8, 996, 50), Some(Colour::green())),
                text_command(38, 18, 923, "Hello World"),
            ],
            53
        )
    );
}

#[test]
fn an_empty_box_around_text_paints_its_background_alone() {
    let document = Document::new(None);
    let backend = Recorder::new();
    let mut paragraph = plain_block(LayoutChildren::with_inline_children(Vec::new()));
    paragraph.padding = Extents::with_equal_size(2);
    paragraph.background = Some(Colour::white());
    let (commands, height) = paragraph.layout(&document, &backend, rect(3, 4, 50, -1));
    assert_eq!(commands, vec![box_command(rect(3, 4, 50, 4), Some(Colour::white()))]);
    assert_eq!(height, 4);
    assert!(backend.asked.borrow().is_empty());
}

#[test]
fn a_background_that_does_not_fit_is_an_overflow() {
    let document = Document::new(Some("a"));
    let backend = FixedHeight { height: i32::MAX - 1 };
    let text = TextData { append: false, start_index: 0, end_index: 1 };
    let mut paragraph = plain_block(LayoutChildren::with_inline_children(vec![inline_box(text)]));
    paragraph.margins = Extents { top: -2, left: 0, bottom: 0, right: 0 };
    paragraph.padding = Extents { top: 2, left: 0, bottom: 0, right: 0 };
    assert_eq!(
        paragraph.try_layout(&document, &backend, rect(0, 0, 10, -1)),
        Ok((vec![text_command(0, 0, 10, "a")], i32::MAX - 1))
    );
    paragraph.background = Some(Colour::red());
    assert_eq!(
        paragraph.try_layout(&document, &backend, rect(0, 0, 10, -1)),
        Err(EngineError::Overflow)
    );
}
