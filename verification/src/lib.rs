//! A structured-text document engine: piece-table text storage, a typed
//! document tree, and a box-model layout pass that turns the tree into a
//! display list.

use vstd::prelude::*;
use vstd::utf8::*;

pub mod cursor;
pub mod error;
pub mod layout;
pub mod model;
pub mod table;
pub mod text;

pub use crate::layout::{
    Colour, DefaultLayoutManager, FontBackend, LayoutManager, Rectangle, RenderCommand,
};
pub use crate::model::Document;

use crate::model::{Block, BlockModel, Frame, InfoBox, Inline, InlineModel, Paragraph, Run};
use crate::table::Span;

verus! {

/// The text that the sample document starts with.
pub open spec fn sample_text() -> Seq<char> {
    "The cat is white. 猫は白です。\"Meow\"「ニャア」"@
}

/// The text of the info box of the sample document.
pub open spec fn sample_note() -> Seq<char> {
    "Info Box Contents"@
}

/// A document to try the engine on: a paragraph of text in several scripts,
/// followed by an info box that holds one paragraph of its own.
pub fn get_sample_document() -> (document: Document)
    ensures
        document.wf(),
        document.table().text() == sample_text() + sample_note(),
        document.original() == encode_utf8(sample_text()),
        document.edits() == encode_utf8(sample_note()),
        document.tree() == seq![
            BlockModel::Paragraph(
                seq![
                    InlineModel::Run(
                        Span {
                            start: 0,
                            end: encode_utf8(sample_text()).len() as int,
                            in_edits: false,
                        },
                    ),
                ],
            ),
            BlockModel::InfoBox(
                seq![
                    BlockModel::Paragraph(
                        seq![
                            InlineModel::Run(
                                Span {
                                    start: 0,
                                    end: encode_utf8(sample_note()).len() as int,
                                    in_edits: true,
                                },
                            ),
                        ],
                    ),
                ],
            ),
        ],
{
    let mut document = Document::new(
        Some("The cat is white. 猫は白です。\"Meow\"「ニャア」"),
    );
    let test_str = "Info Box Contents";
    let text = document.append_text(test_str);
    let run = Run { text };
    let paragraph = Paragraph { children: vec![Inline::Run(run)] };
    let info_box = InfoBox { child: Frame { children: vec![Block::Paragraph(paragraph)] } };
    let block = Block::InfoBox(info_box);
    proof {
        let inner = BlockModel::Paragraph(seq![InlineModel::Run(text@)]);
        assert(paragraph@ == seq![InlineModel::Run(text@)]);
        assert(info_box@ == seq![inner]);
        assert(seq![inner] == Seq::<BlockModel>::empty().push(inner));
        crate::model::lemma_blocks_leaves_empty();
        crate::model::lemma_blocks_leaves_push(Seq::empty(), inner);
        assert(crate::model::inlines_leaves(seq![InlineModel::Run(text@)]) == seq![text@]);
        assert(crate::model::block_leaves(block@) == seq![text@]);
    }
    proof {
        let table = document.table();
        table.lemma_wf_in_bounds();
        table.lemma_bytes_valid(0);
        decode_utf8_encode_utf8(table.bytes());
        table.lemma_span_bytes_one(text@);
        crate::text::lemma_encode_concat(sample_text(), sample_note());
        encode_utf8_decode_utf8(sample_text() + sample_note());
    }
    let outcome = document.append_block(block);
    assert(outcome is Ok);
    document
}

} // verus!
