//! A cursor over a piece-table document.
//!
//! A cursor stands at a character boundary of the document and is held as a
//! run and a byte offset within that run. It moves forward by characters,
//! which are Unicode scalar values and not bytes, and goes from one run to
//! the next in document order.

use crate::error::EngineError;
use crate::table::{get_text, Document, PieceTable};
use crate::text::{
    byte_len, lemma_advance, lemma_decode_concat, lemma_encode_concat, lemma_encode_empty,
};
use vstd::prelude::*;
use vstd::string::*;
use vstd::utf8::*;

verus! {

/// The units by which a cursor can be asked to move.
#[derive(Clone, Copy, Debug, PartialEq, Eq)]
pub enum Amount {
    Character,
    Word,
    Sentence,
    Paragraph,
}

/// A position in a document.
pub struct Cursor<'a> {
    document: &'a Document,
    run: usize,
    offset: usize,
}

impl<'a> Cursor<'a> {
    /// The piece table of the document that the cursor is in.
    pub closed spec fn table(&self) -> PieceTable {
        self.document@
    }

    /// The run that the cursor is in; the number of runs when it is at the
    /// end of the document.
    pub closed spec fn run_index(&self) -> int {
        self.run as int
    }

    /// The byte offset of the cursor within its run.
    pub closed spec fn run_offset(&self) -> int {
        self.offset as int
    }

    /// The byte offset of the cursor in the document.
    pub open spec fn position(&self) -> int {
        self.table().offset(self.run_index()) + self.run_offset()
    }

    /// The number of characters of the document before the cursor.
    pub open spec fn index(&self) -> int {
        index_at(self.table(), self.position())
    }

    /// The cursor stands at a character boundary of a well-formed document.
    /// Before the end of the document it stands inside a run, never at the
    /// end of one; at the end of the document it stands behind the last run.
    pub open spec fn wf(&self) -> bool {
        let table = self.table();
        &&& table.wf()
        &&& 0 <= self.run_index() <= table.runs.len()
        &&& is_char_boundary(table.bytes(), self.position())
        &&& if self.run_index() < table.runs.len() {
            0 <= self.run_offset() < table.runs[self.run_index()].len()
        } else {
            self.run_offset() == 0
        }
    }

    /// The number of characters before a cursor says where it stands: two
    /// cursors in one document with as many characters before them are in
    /// the same run at the same offset.
    pub proof fn lemma_index_pins_place(&self, other: &Cursor)
        requires
            self.wf(),
            other.wf(),
            self.table() == other.table(),
            self.index() == other.index(),
        ensures
            self.run_index() == other.run_index(),
            self.run_offset() == other.run_offset(),
    {
        let table = self.table();
        let n = table.runs.len() as int;
        table.lemma_wf_in_bounds();
        table.lemma_bytes_valid(0);
        table.lemma_offsets(self.run_index(), n);
        table.lemma_offsets(other.run_index(), n);
        table.lemma_offsets(0, self.run_index());
        table.lemma_offsets(0, other.run_index());
        if self.position() < other.position() {
            lemma_index_grows(table.bytes(), self.position(), other.position());
        }
        if other.position() < self.position() {
            lemma_index_grows(table.bytes(), other.position(), self.position());
        }
        table.lemma_run_at(self.position());
        if self.run_index() < n {
            table.lemma_offsets(self.run_index() + 1, n);
            assert(table.covers(self.run_index(), self.position()));
        }
        if other.run_index() < n {
            table.lemma_offsets(other.run_index() + 1, n);
            assert(table.covers(other.run_index(), other.position()));
        }
    }

    /// The run that the cursor is in.
    pub fn run(&self) -> (run: usize)
        ensures
            run == self.run_index(),
    {
        self.run
    }

    /// The byte offset of the cursor within its run.
    pub fn offset(&self) -> (offset: usize)
        ensures
            offset == self.run_offset(),
    {
        self.offset
    }

    /// Moves on to the first run from the one of the cursor on that is not
    /// empty.
    fn skip_empty_runs(&mut self)
        requires
            old(self).table().wf(),
            old(self).run_index() <= old(self).table().runs.len(),
            old(self).run_offset() == 0,
        ensures
            final(self).table() == old(self).table(),
            final(self).position() == old(self).position(),
            final(self).run_offset() == 0,
            old(self).run_index() <= final(self).run_index() <= old(self).table().runs.len(),
            final(self).run_index() < old(self).table().runs.len() ==> old(
                self,
            ).table().runs[final(self).run_index()].len() > 0,
    {
        let runs = self.document.runs();
        let ghost table = self.table();
        proof {
            table.lemma_wf_in_bounds();
        }
        let mut empty = true;
        while self.run < runs.len() && empty
            invariant
                self.table() == table,
                table.in_bounds(),
                crate::table::spans(runs@) == table.runs,
                old(self).run <= self.run <= runs.len(),
                self.offset == 0,
                self.position() == old(self).position(),
                !empty ==> self.run < runs.len() && table.runs[self.run as int].len() > 0,
            decreases runs.len() - self.run + (if empty { 1int } else { 0int }),
        {
            let run = runs[self.run];
            assert(run@ == table.runs[self.run as int]);
            assert(table.holds(table.runs[self.run as int]));
            if run.end_index == run.start_index {
                self.run = self.run + 1;
            } else {
                empty = false;
            }
        }
    }

    /// A cursor at the start of the document.
    pub fn new(document: &'a Document) -> (cursor: Cursor<'a>)
        requires
            document.wf(),
        ensures
            cursor.wf(),
            cursor.table() == document@,
            cursor.position() == 0,
            cursor.index() == 0,
    {
        let mut cursor = Cursor { document, run: 0, offset: 0 };
        cursor.skip_empty_runs();
        proof {
            let table = cursor.table();
            table.lemma_wf_in_bounds();
            table.lemma_bytes_valid(0);
            is_char_boundary_start_end_of_seq(table.bytes());
            assert(table.bytes().subrange(0, 0) == Seq::<u8>::empty());
            assert(decode_utf8(Seq::<u8>::empty()) == Seq::<char>::empty());
        }
        cursor
    }

    /// Moves the cursor forward by `quantity` units and returns by how many
    /// it moved.
    ///
    /// By characters the cursor moves over as many characters as are asked
    /// for, or to the end of the document where fewer are left. The other
    /// units have no defined boundaries: they are refused with
    /// `Unsupported` and the cursor stays where it is.
    pub fn move_forward(&mut self, quantity: usize, amount: Amount) -> (moved: Result<
        usize,
        EngineError,
    >)
        requires
            old(self).wf(),
        ensures
            final(self).wf(),
            final(self).table() == old(self).table(),
            amount is Character ==> (moved matches Ok(count) && final(self).index() == old(
                self,
            ).index() + count && count == vstd::math::min(
                quantity as int,
                old(self).table().text().len() - old(self).index(),
            )),
            !(amount is Character) ==> moved == Err::<usize, EngineError>(
                EngineError::Unsupported,
            ) && final(self).position() == old(self).position() && final(self).run_index() == old(
                self,
            ).run_index(),
    {
        match amount {
            Amount::Character => {
                let count = self.move_characters(quantity);
                Ok(count)
            },
            _ => Err(EngineError::Unsupported),
        }
    }

    /// Moves the cursor forward over `quantity` characters, or to the end of
    /// the document where fewer are left, and returns over how many it moved.
    fn move_characters(&mut self, quantity: usize) -> (travelled: usize)
        requires
            old(self).wf(),
        ensures
            final(self).wf(),
            final(self).table() == old(self).table(),
            final(self).index() == old(self).index() + travelled,
            travelled == vstd::math::min(
                quantity as int,
                old(self).table().text().len() - old(self).index(),
            ),
    {
        let ghost table = self.table();
        let ghost start = self.index();
        let runs = self.document.runs();
        let mut travelled: usize = 0;
        proof {
            table.lemma_wf_in_bounds();
        }
        while travelled < quantity && self.run < runs.len()
            invariant
                self.wf(),
                self.table() == table,
                table.in_bounds(),
                crate::table::spans(runs@) == table.runs,
                travelled <= quantity,
                self.index() == start + travelled,
            decreases
                    (if travelled < quantity {
                        runs.len() - self.run + 1
                    } else {
                        0
                    }),
        {
            let run = runs[self.run];
            proof {
                assert(run@ == table.runs[self.run as int]);
                table.lemma_place(self.run as int, self.offset as int);
                table.lemma_boundary_in_run_end(self.run as int, self.offset as int);
            }
            match get_text(self.document, &run) {
                Ok(piece) => {
                    let (_, rest) = piece.split_at(self.offset);
                    let available = rest.unicode_len();
                    let wanted = quantity - travelled;
                    proof {
                        encode_utf8_decode_utf8(rest@);
                    }
                    if wanted < available {
                        let step = rest.substring_char(0, wanted);
                        proof {
                            assert(step@ == rest@.take(wanted as int));
                            lemma_step(table, self.run as int, self.offset as int, wanted as int);
                        }
                        self.offset = self.offset + byte_len(step);
                        travelled = quantity;
                    } else {
                        proof {
                            assert(rest@ == rest@.take(available as int));
                            lemma_step(
                                table,
                                self.run as int,
                                self.offset as int,
                                available as int,
                            );
                        }
                        travelled = travelled + available;
                        self.run = self.run + 1;
                        self.offset = 0;
                        self.skip_empty_runs();
                    }
                },
                Err(_) => {
                    assert(false);
                },
            }
        }
        proof {
            table.lemma_bytes_valid(0);
            table.lemma_offsets(self.run as int, table.runs.len() as int);
            lemma_index_below_length(table.bytes(), self.position());
            if self.run >= runs.len() {
                assert(table.bytes().subrange(0, self.position()) == table.bytes());
            }
        }
        travelled
    }
}

/// The number of characters of the document before a byte offset.
pub open spec fn index_at(table: PieceTable, position: int) -> int {
    decode_utf8(table.bytes().subrange(0, position)).len() as int
}

/// A step of a cursor inside run `i`. Behind the cursor the run holds at
/// least one character. The bytes of the next `count` characters of the run
/// lead to a character boundary of the document with `count` characters more
/// before it, which is the end of the run exactly when the run holds no more
/// characters.
proof fn lemma_step(table: PieceTable, i: int, within: int, count: int)
    requires
        table.wf(),
        0 <= i < table.runs.len(),
        0 <= within < table.runs[i].len(),
        is_char_boundary(table.bytes(), table.offset(i) + within),
        0 <= count <= decode_utf8(
            table.resolve(table.runs[i]).subrange(within, table.runs[i].len()),
        ).len(),
    ensures
        ({
            let rest = decode_utf8(
                table.resolve(table.runs[i]).subrange(within, table.runs[i].len()),
            );
            let at = table.offset(i) + within;
            let to = at + encode_utf8(rest.take(count)).len();
            &&& rest.len() > 0
            &&& is_char_boundary(table.bytes(), to)
            &&& index_at(table, to) == index_at(table, at) + count
            &&& (count < rest.len() ==> to < table.offset(i + 1))
            &&& (count == rest.len() ==> to == table.offset(i + 1))
        }),
{
    let piece = table.resolve(table.runs[i]);
    let tail = piece.subrange(within, table.runs[i].len());
    let rest = decode_utf8(tail);
    let at = table.offset(i) + within;
    table.lemma_place(i, within);
    lemma_decode_concat(tail, table.after(i + 1));
    let behind = decode_utf8(table.bytes().subrange(at, table.bytes().len() as int));
    assert(behind == rest + decode_utf8(table.after(i + 1)));
    assert(behind.take(count) == rest.take(count));
    lemma_advance(table.bytes(), at, count);
    decode_utf8_encode_utf8(tail);
    assert(rest == rest.take(count) + rest.skip(count));
    lemma_encode_concat(rest.take(count), rest.skip(count));
    lemma_encode_empty(rest.skip(count));
    lemma_encode_empty(rest);
}

/// Before a later boundary stand more characters.
proof fn lemma_index_grows(bytes: Seq<u8>, first: int, second: int)
    requires
        valid_utf8(bytes),
        0 <= first < second <= bytes.len(),
        is_char_boundary(bytes, first),
        is_char_boundary(bytes, second),
    ensures
        decode_utf8(bytes.subrange(0, first)).len() < decode_utf8(bytes.subrange(0, second)).len(),
{
    let head = bytes.subrange(0, second);
    crate::text::lemma_text_range(bytes, 0, second);
    assert(is_char_boundary(head, first - 0));
    lemma_index_below_length(head, first);
    assert(head.subrange(0, first) == bytes.subrange(0, first));
}

/// Before a boundary that is not the end of a text stand fewer characters
/// than the text has; before any boundary stand no more.
proof fn lemma_index_below_length(bytes: Seq<u8>, position: int)
    requires
        valid_utf8(bytes),
        0 <= position <= bytes.len(),
        is_char_boundary(bytes, position),
    ensures
        decode_utf8(bytes.subrange(0, position)).len() <= decode_utf8(bytes).len(),
        position < bytes.len() ==> decode_utf8(bytes.subrange(0, position)).len() < decode_utf8(
            bytes,
        ).len(),
{
    let head = bytes.subrange(0, position);
    let tail = bytes.subrange(position, bytes.len() as int);
    valid_utf8_split(bytes, position);
    assert(bytes == head + tail);
    lemma_decode_concat(head, tail);
    if position < bytes.len() {
        decode_utf8_encode_utf8(tail);
        if decode_utf8(tail).len() == 0 {
            assert(encode_utf8(decode_utf8(tail)) == Seq::<u8>::empty());
        }
    }
}

} // verus!
