//! The piece table: two text buffers and an ordered list of runs into them.
//!
//! The original buffer is written once, the edit buffer only grows, and the
//! document is the concatenation of what the runs address, in order. An
//! insertion appends to the edit buffer and splits at most one run, so text
//! that is already stored is never copied or changed.

use crate::error::EngineError;
use crate::text::{byte_len, lemma_encode_concat, slice};
use vstd::prelude::*;
use vstd::seq_lib::*;
use vstd::string::*;
use vstd::utf8::*;

verus! {

/// Ghost model of a run: a half-open byte range of one of the two buffers.
pub struct Span {
    pub start: int,
    pub end: int,
    pub in_edits: bool,
}

impl Span {
    /// The number of bytes in the range.
    pub open spec fn len(self) -> int {
        self.end - self.start
    }
}

/// Ghost model of a piece table.
#[verifier::ext_equal]
pub struct PieceTable {
    pub original: Seq<u8>,
    pub edits: Seq<u8>,
    pub runs: Seq<Span>,
}

/// Inserting `text` into a plain byte string at `index`; an index at or past
/// the end appends.
pub open spec fn splice(bytes: Seq<u8>, index: int, text: Seq<u8>) -> Seq<u8> {
    if index >= bytes.len() {
        bytes + text
    } else {
        bytes.subrange(0, index) + text + bytes.subrange(index, bytes.len() as int)
    }
}

/// Inserting each `(index, text)` of `edits` into a plain byte string, in order.
pub open spec fn splice_all(bytes: Seq<u8>, edits: Seq<(int, Seq<u8>)>) -> Seq<u8>
    decreases edits.len(),
{
    if edits.len() == 0 {
        bytes
    } else {
        splice(splice_all(bytes, edits.drop_last()), edits.last().0, edits.last().1)
    }
}

/// Putting `text` between the two middle parts of a byte string is putting
/// it at the offset where the second of them starts.
proof fn lemma_splice_middle(
    head: Seq<u8>,
    left: Seq<u8>,
    right: Seq<u8>,
    tail: Seq<u8>,
    text: Seq<u8>,
)
    ensures
        ({
            let whole = head + (left + right) + tail;
            let at = head.len() + left.len();
            head + (left + text + right) + tail == whole.subrange(0, at as int) + text
                + whole.subrange(at as int, whole.len() as int)
        }),
{
    let whole = head + (left + right) + tail;
    let at = (head.len() + left.len()) as int;
    assert(whole.subrange(0, at) == head + left);
    assert(whole.subrange(at, whole.len() as int) == right + tail);
    assert(head + (left + text + right) + tail == (head + left) + text + (right + tail));
}

impl PieceTable {
    /// The table made from an initial text: one run over the whole original
    /// buffer, or no run at all where there is no text.
    pub open spec fn initial(text: Option<Seq<u8>>) -> PieceTable {
        match text {
            Some(bytes) => PieceTable {
                original: bytes,
                edits: Seq::empty(),
                runs: seq![Span { start: 0, end: bytes.len() as int, in_edits: false }],
            },
            None => PieceTable { original: Seq::empty(), edits: Seq::empty(), runs: Seq::empty() },
        }
    }

    /// The edit buffer or the original buffer.
    pub open spec fn buffer(self, in_edits: bool) -> Seq<u8> {
        if in_edits {
            self.edits
        } else {
            self.original
        }
    }

    /// The span lies within the buffer it names.
    pub open spec fn holds(self, span: Span) -> bool {
        0 <= span.start <= span.end <= self.buffer(span.in_edits).len()
    }

    /// The bytes that a span addresses.
    pub open spec fn resolve(self, span: Span) -> Seq<u8> {
        self.buffer(span.in_edits).subrange(span.start, span.end)
    }

    /// Every run lies within its buffer.
    pub open spec fn in_bounds(self) -> bool {
        forall|i: int| 0 <= i < self.runs.len() ==> self.holds(#[trigger] self.runs[i])
    }

    /// Both buffers are UTF-8 and every run starts and ends on a character
    /// boundary of its buffer.
    pub open spec fn wf(self) -> bool {
        &&& valid_utf8(self.original)
        &&& valid_utf8(self.edits)
        &&& forall|i: int|
            0 <= i < self.runs.len() ==> self.is_text(#[trigger] self.runs[i])
    }

    /// The span lies within its buffer and cuts no character.
    pub open spec fn is_text(self, span: Span) -> bool {
        crate::text::is_text_range(self.buffer(span.in_edits), span.start, span.end)
    }

    /// What each run addresses, in document order.
    pub open spec fn pieces(self) -> Seq<Seq<u8>> {
        self.runs.map_values(|span: Span| self.resolve(span))
    }

    /// The document: the pieces one after the other.
    pub open spec fn bytes(self) -> Seq<u8> {
        self.pieces().flatten()
    }

    /// The document as characters.
    pub open spec fn text(self) -> Seq<char> {
        decode_utf8(self.bytes())
    }

    /// Where run `i` starts in the document: the lengths of the runs before it.
    pub open spec fn offset(self, i: int) -> int
        decreases i,
    {
        if i <= 0 {
            0
        } else {
            self.offset(i - 1) + self.runs[i - 1].len()
        }
    }

    /// Run `i` contains the document position `index`.
    pub open spec fn covers(self, i: int, index: int) -> bool {
        0 <= i < self.runs.len() && self.offset(i) <= index < self.offset(i + 1)
    }

    /// The run that contains the document position `index`, if there is one.
    pub open spec fn run_at(self, index: int) -> Option<int> {
        if exists|i: int| self.covers(i, index) {
            Some(choose|i: int| self.covers(i, index))
        } else {
            None
        }
    }

    /// The run that an insertion of `len` bytes adds: the end of the edit
    /// buffer as it is before the insertion, extended by `len`.
    pub open spec fn fresh(self, len: int) -> Span {
        Span { start: self.edits.len() as int, end: self.edits.len() + len, in_edits: true }
    }

    /// The table after `text` went to the end of the edit buffer and the run
    /// that adds it became the last run.
    pub open spec fn appended(self, text: Seq<u8>) -> PieceTable {
        PieceTable {
            original: self.original,
            edits: self.edits + text,
            runs: self.runs.push(self.fresh(text.len() as int)),
        }
    }

    /// The left part of run `i` split at the document position `index`.
    pub open spec fn left_of(self, i: int, index: int) -> Span {
        let run = self.runs[i];
        Span { start: run.start, end: run.start + (index - self.offset(i)), in_edits: run.in_edits }
    }

    /// The right part of run `i` split at the document position `index`.
    pub open spec fn right_of(self, i: int, index: int) -> Span {
        let run = self.runs[i];
        Span { start: run.start + (index - self.offset(i)), end: run.end, in_edits: run.in_edits }
    }

    /// The table after `text` went to the end of the edit buffer and run `i`
    /// was split at the document position `index`, with the run that adds the
    /// text between the two parts.
    pub open spec fn split(self, i: int, index: int, text: Seq<u8>) -> PieceTable {
        PieceTable {
            original: self.original,
            edits: self.edits + text,
            runs: self.runs.take(i) + seq![
                self.left_of(i, index),
                self.fresh(text.len() as int),
                self.right_of(i, index),
            ] + self.runs.skip(i + 1),
        }
    }

    /// The table after inserting `text` at the document position `index`.
    ///
    /// The text goes to the end of the edit buffer. The run that contains
    /// `index` is split there and the new run placed between the halves; where
    /// no run contains `index`, the new run becomes the last one.
    pub open spec fn insert(self, index: int, text: Seq<u8>) -> PieceTable {
        match self.run_at(index) {
            Some(i) => self.split(i, index, text),
            None => self.appended(text),
        }
    }

    /// The table after each `(index, text)` of `edits` was inserted, in order.
    pub open spec fn insert_all(self, edits: Seq<(int, Seq<u8>)>) -> PieceTable
        decreases edits.len(),
    {
        if edits.len() == 0 {
            self
        } else {
            self.insert_all(edits.drop_last()).insert(edits.last().0, edits.last().1)
        }
    }

    /// The same buffers with other runs.
    pub open spec fn with_runs(self, runs: Seq<Span>) -> PieceTable {
        PieceTable { original: self.original, edits: self.edits, runs }
    }

    /// What the given spans address in the buffers of this table, one after
    /// the other.
    pub open spec fn span_bytes(self, spans: Seq<Span>) -> Seq<u8> {
        self.with_runs(spans).bytes()
    }

    /// Every one of the given spans addresses whole characters.
    pub open spec fn all_text(self, spans: Seq<Span>) -> bool {
        forall|i: int| 0 <= i < spans.len() ==> self.is_text(#[trigger] spans[i])
    }

    /// The document up to the start of run `i`.
    pub open spec fn before(self, i: int) -> Seq<u8> {
        self.pieces().take(i).flatten()
    }

    /// The document from the start of run `i` on.
    pub open spec fn after(self, i: int) -> Seq<u8> {
        self.pieces().skip(i).flatten()
    }

    /// The document is what comes before run `i` followed by what comes from
    /// it on, and the part before it has the length that `offset` gives.
    pub proof fn lemma_cut(self, i: int)
        requires
            self.in_bounds(),
            0 <= i <= self.runs.len(),
        ensures
            self.bytes() == self.before(i) + self.after(i),
            self.before(i).len() == self.offset(i),
            i < self.runs.len() ==> self.after(i) == self.resolve(self.runs[i]) + self.after(i + 1),
            i < self.runs.len() ==> self.resolve(self.runs[i]).len() == self.runs[i].len(),
            i == self.runs.len() ==> self.after(i) == Seq::<u8>::empty(),
        decreases i,
    {
        let pieces = self.pieces();
        assert(pieces.take(i) + pieces.skip(i) == pieces);
        lemma_flatten_concat(pieces.take(i), pieces.skip(i));
        if i > 0 {
            self.lemma_cut(i - 1);
            assert(pieces.take(i) == pieces.take(i - 1).push(pieces[i - 1]));
            pieces.take(i - 1).lemma_flatten_push(pieces[i - 1]);
            assert(self.holds(self.runs[i - 1]));
        } else {
            assert(pieces.take(0) == Seq::<Seq<u8>>::empty());
        }
        if i < self.runs.len() {
            assert(self.holds(self.runs[i]));
            assert(pieces.skip(i) == seq![pieces[i]] + pieces.skip(i + 1));
            lemma_flatten_concat(seq![pieces[i]], pieces.skip(i + 1));
            seq![pieces[i]].lemma_flatten_singleton();
        } else {
            assert(pieces.skip(i) == Seq::<Seq<u8>>::empty());
        }
    }

    /// The starts of the runs never decrease, and the last run ends where the
    /// document does.
    pub proof fn lemma_offsets(self, i: int, j: int)
        requires
            self.in_bounds(),
            0 <= i <= j <= self.runs.len(),
        ensures
            0 <= self.offset(i) <= self.offset(j) <= self.bytes().len(),
            self.offset(self.runs.len() as int) == self.bytes().len(),
        decreases j - i,
    {
        self.lemma_cut(i);
        self.lemma_cut(j);
        self.lemma_cut(self.runs.len() as int);
        if i < j {
            self.lemma_offsets(i + 1, j);
            assert(self.holds(self.runs[i]));
        }
    }

    /// The runs partition the document. Run `i` addresses exactly the bytes
    /// of the document from its own start to the start of the next run; the
    /// first run starts at 0 and the last one ends with the document, so the
    /// runs leave no gap and do not overlap.
    pub proof fn lemma_runs_partition(self)
        requires
            self.in_bounds(),
        ensures
            self.offset(0) == 0,
            self.offset(self.runs.len() as int) == self.bytes().len(),
            forall|i: int|
                #![trigger self.runs[i]]
                0 <= i < self.runs.len() ==> ({
                    &&& 0 <= self.offset(i) <= self.offset(i + 1) <= self.bytes().len()
                    &&& self.bytes().subrange(self.offset(i), self.offset(i + 1))
                        == self.resolve(self.runs[i])
                }),
    {
        self.lemma_offsets(0, 0);
        assert forall|i: int| #![trigger self.runs[i]] 0 <= i < self.runs.len() implies {
            &&& 0 <= self.offset(i) <= self.offset(i + 1) <= self.bytes().len()
            &&& self.bytes().subrange(self.offset(i), self.offset(i + 1)) == self.resolve(
                self.runs[i],
            )
        } by {
            self.lemma_offsets(i, i + 1);
            self.lemma_cut(i);
            self.lemma_cut(i + 1);
        }
    }

    /// At most one run contains a given position, and some run does exactly
    /// when the position lies before the end of the document.
    pub proof fn lemma_run_at(self, index: int)
        requires
            self.in_bounds(),
            0 <= index,
        ensures
            self.run_at(index) is None <==> index >= self.bytes().len(),
            self.run_at(index) matches Some(i) ==> self.covers(i, index),
            forall|i: int| self.covers(i, index) ==> self.run_at(index) == Some(i),
    {
        let n = self.runs.len() as int;
        self.lemma_offsets(0, n);
        if index < self.bytes().len() {
            self.lemma_some_run_covers(index, n);
        }
        assert forall|i: int| self.covers(i, index) implies self.run_at(index) == Some(i) by {
            let j = choose|j: int| self.covers(j, index);
            if i < j {
                self.lemma_offsets(i + 1, j);
            }
            if j < i {
                self.lemma_offsets(j + 1, i);
            }
        }
        assert forall|i: int| self.covers(i, index) implies index < self.bytes().len() by {
            self.lemma_offsets(i + 1, n);
        }
    }

    proof fn lemma_some_run_covers(self, index: int, k: int)
        requires
            0 <= index < self.offset(k),
            0 <= k <= self.runs.len(),
        ensures
            exists|i: int| self.covers(i, index),
        decreases k,
    {
        if self.offset(k - 1) <= index {
            assert(self.covers(k - 1, index));
        } else {
            self.lemma_some_run_covers(index, k - 1);
        }
    }

    /// A span that lies within its buffer still does when the edit buffer
    /// grows, and addresses the same bytes as before.
    pub proof fn lemma_grow_keeps_span(self, other: PieceTable, text: Seq<u8>, span: Span)
        requires
            self.holds(span),
            other.original == self.original,
            other.edits == self.edits + text,
        ensures
            other.holds(span),
            other.resolve(span) == self.resolve(span),
    {
    }

    /// While the runs stay and the edit buffer only grows, the document stays.
    pub proof fn lemma_grow_keeps_bytes(self, other: PieceTable, text: Seq<u8>)
        requires
            self.in_bounds(),
            other.original == self.original,
            other.edits == self.edits + text,
            other.runs == self.runs,
        ensures
            other.in_bounds(),
            other.bytes() == self.bytes(),
    {
        assert forall|k: int| 0 <= k < self.runs.len() implies other.holds(
            #[trigger] other.runs[k],
        ) && other.pieces()[k] == self.pieces()[k] by {
            self.lemma_grow_keeps_span(other, text, self.runs[k]);
        }
        assert(other.pieces() == self.pieces());
    }

    /// A span that lies within its buffer still does after an insertion, and
    /// addresses the same bytes as before: what is stored is never changed,
    /// wherever the insertion is made and whatever it inserts.
    pub proof fn lemma_insert_keeps_spans(self, index: int, text: Seq<u8>, span: Span)
        requires
            self.holds(span),
        ensures
            self.insert(index, text).holds(span),
            self.insert(index, text).resolve(span) == self.resolve(span),
    {
        self.lemma_grow_keeps_span(self.insert(index, text), text, span);
    }

    /// Non-destructive edit. A span that addresses whole characters still
    /// does after an insertion of UTF-8 text, and addresses the same bytes:
    /// whatever could be read before the insertion reads the same after it.
    pub proof fn lemma_insert_keeps_text(self, index: int, text: Seq<u8>, span: Span)
        requires
            valid_utf8(self.original),
            valid_utf8(self.edits),
            valid_utf8(text),
            self.is_text(span),
        ensures
            self.insert(index, text).is_text(span),
            self.insert(index, text).resolve(span) == self.resolve(span),
    {
        self.lemma_insert_keeps_spans(index, text, span);
        if span.in_edits {
            crate::text::lemma_boundary_concat(self.edits, text, span.start);
            crate::text::lemma_boundary_concat(self.edits, text, span.end);
        }
    }

    /// Appending a run for new text appends the text to the document.
    pub proof fn lemma_appended(self, text: Seq<u8>)
        requires
            self.in_bounds(),
        ensures
            self.appended(text).in_bounds(),
            self.appended(text).bytes() == self.bytes() + text,
    {
        let after = self.appended(text);
        let fresh = self.fresh(text.len() as int);
        assert(after.resolve(fresh) == text);
        assert forall|k: int| 0 <= k < after.runs.len() implies after.holds(
            #[trigger] after.runs[k],
        ) by {
            if k < self.runs.len() {
                self.lemma_grow_keeps_span(after, text, self.runs[k]);
            }
        }
        assert forall|k: int| 0 <= k < self.runs.len() implies after.pieces()[k]
            == self.pieces()[k] by {
            self.lemma_grow_keeps_span(after, text, self.runs[k]);
        }
        assert(after.pieces() == self.pieces().push(text));
        self.pieces().lemma_flatten_push(text);
    }

    /// Splitting the run that contains `index` and putting a run for new text
    /// between the parts puts the text at `index` of the document.
    pub proof fn lemma_split(self, i: int, index: int, text: Seq<u8>)
        requires
            self.in_bounds(),
            self.covers(i, index),
        ensures
            self.split(i, index, text).in_bounds(),
            self.split(i, index, text).bytes() == self.bytes().subrange(0, index) + text
                + self.bytes().subrange(index, self.bytes().len() as int),
            index < self.bytes().len(),
    {
        let after = self.split(i, index, text);
        let fresh = self.fresh(text.len() as int);
        let run = self.runs[i];
        let left = self.left_of(i, index);
        let right = self.right_of(i, index);
        self.lemma_cut(i);
        self.lemma_cut(i + 1);
        self.lemma_offsets(i + 1, self.runs.len() as int);
        assert(self.holds(run));
        assert(self.holds(left) && self.holds(right));
        self.lemma_grow_keeps_span(after, text, left);
        self.lemma_grow_keeps_span(after, text, right);
        assert(after.resolve(fresh) == text);
        assert(self.resolve(left) + self.resolve(right) == self.resolve(run));
        assert forall|k: int| 0 <= k < after.runs.len() implies after.holds(
            #[trigger] after.runs[k],
        ) by {
            if k < i {
                assert(after.runs[k] == self.runs[k]);
                self.lemma_grow_keeps_span(after, text, self.runs[k]);
            } else if k > i + 2 {
                assert(after.runs[k] == self.runs[k - 2]);
                self.lemma_grow_keeps_span(after, text, self.runs[k - 2]);
            }
        }
        let head = self.pieces().take(i);
        let tail = self.pieces().skip(i + 1);
        let middle = seq![self.resolve(left), text, self.resolve(right)];
        assert(after.pieces() == head + middle + tail) by {
            assert(after.pieces().len() == (head + middle + tail).len());
            assert forall|k: int| 0 <= k < after.pieces().len() implies after.pieces()[k] == (head
                + middle + tail)[k] by {
                if k < i {
                    assert(after.runs[k] == self.runs[k]);
                    self.lemma_grow_keeps_span(after, text, self.runs[k]);
                } else if k > i + 2 {
                    assert(after.runs[k] == self.runs[k - 2]);
                    self.lemma_grow_keeps_span(after, text, self.runs[k - 2]);
                }
            }
        }
        assert(middle.flatten() == self.resolve(left) + text + self.resolve(right)) by {
            assert(middle == seq![self.resolve(left)].push(text).push(self.resolve(right)));
            seq![self.resolve(left)].lemma_flatten_singleton();
            seq![self.resolve(left)].lemma_flatten_push(text);
            seq![self.resolve(left)].push(text).lemma_flatten_push(self.resolve(right));
        }
        lemma_flatten_concat(head + middle, tail);
        lemma_flatten_concat(head, middle);
        let l = self.resolve(left);
        let r = self.resolve(right);
        assert(after.bytes() == self.before(i) + (l + text + r) + self.after(i + 1));
        assert(self.bytes() == self.before(i) + (l + r) + self.after(i + 1));
        assert(index == self.before(i).len() + l.len());
        lemma_splice_middle(self.before(i), l, r, self.after(i + 1), text);
    }

    /// Inserting into the piece table gives the document that inserting into
    /// a plain byte string at the same offset gives, and leaves every run
    /// within its buffer.
    pub proof fn lemma_insert_splices(self, index: int, text: Seq<u8>)
        requires
            self.in_bounds(),
            0 <= index,
        ensures
            self.insert(index, text).in_bounds(),
            self.insert(index, text).bytes() == splice(self.bytes(), index, text),
    {
        self.lemma_run_at(index);
        match self.run_at(index) {
            Some(i) => {
                self.lemma_split(i, index, text);
            },
            None => {
                self.lemma_appended(text);
            },
        }
    }

    /// Round trip: after any sequence of insertions the document equals the
    /// plain byte string on which the same insertions were made, at the same
    /// offsets and in the same order.
    pub proof fn lemma_round_trip(self, edits: Seq<(int, Seq<u8>)>)
        requires
            self.in_bounds(),
            forall|k: int| 0 <= k < edits.len() ==> 0 <= (#[trigger] edits[k]).0,
        ensures
            self.insert_all(edits).in_bounds(),
            self.insert_all(edits).bytes() == splice_all(self.bytes(), edits),
        decreases edits.len(),
    {
        if edits.len() > 0 {
            self.lemma_round_trip(edits.drop_last());
            self.insert_all(edits.drop_last()).lemma_insert_splices(
                edits.last().0,
                edits.last().1,
            );
        }
    }

    /// What two lists of spans address, one list after the other, is what
    /// the first addresses followed by what the second does.
    pub proof fn lemma_span_bytes_concat(self, first: Seq<Span>, second: Seq<Span>)
        ensures
            self.span_bytes(first + second) == self.span_bytes(first) + self.span_bytes(second),
            self.span_bytes(Seq::empty()) == Seq::<u8>::empty(),
    {
        let a = self.with_runs(first).pieces();
        let b = self.with_runs(second).pieces();
        assert(self.with_runs(first + second).pieces() == a + b);
        lemma_flatten_concat(a, b);
        assert(self.with_runs(Seq::empty()).pieces() == Seq::<Seq<u8>>::empty());
    }

    /// What a single span addresses.
    pub proof fn lemma_span_bytes_one(self, span: Span)
        ensures
            self.span_bytes(seq![span]) == self.resolve(span),
    {
        let pieces = self.with_runs(seq![span]).pieces();
        assert(pieces == seq![self.resolve(span)]);
        pieces.lemma_flatten_singleton();
    }

    /// Two lists of spans address whole characters exactly when each of
    /// them does.
    pub proof fn lemma_all_text_concat(self, first: Seq<Span>, second: Seq<Span>)
        ensures
            self.all_text(first + second) <==> self.all_text(first) && self.all_text(second),
    {
        if self.all_text(first + second) {
            assert forall|i: int| 0 <= i < first.len() implies self.is_text(
                #[trigger] first[i],
            ) by {
                assert((first + second)[i] == first[i]);
            }
            assert forall|i: int| 0 <= i < second.len() implies self.is_text(
                #[trigger] second[i],
            ) by {
                assert((first + second)[first.len() + i] == second[i]);
            }
        }
        if self.all_text(first) && self.all_text(second) {
            assert forall|i: int| 0 <= i < (first + second).len() implies self.is_text(
                #[trigger] (first + second)[i],
            ) by {
                if i < first.len() {
                    assert((first + second)[i] == first[i]);
                } else {
                    assert((first + second)[i] == second[i - first.len()]);
                }
            }
        }
    }

    /// A well-formed table keeps every run within its buffer.
    pub proof fn lemma_wf_in_bounds(self)
        requires
            self.wf(),
        ensures
            self.in_bounds(),
    {
        assert forall|i: int| 0 <= i < self.runs.len() implies self.holds(
            #[trigger] self.runs[i],
        ) by {
            assert(self.is_text(self.runs[i]));
        }
    }

    /// The document of a well-formed table is UTF-8, and so is every part of
    /// it that ends where a run starts.
    pub proof fn lemma_bytes_valid(self, i: int)
        requires
            self.wf(),
            0 <= i <= self.runs.len(),
        ensures
            valid_utf8(self.before(i)),
            valid_utf8(self.bytes()),
    {
        self.lemma_wf_in_bounds();
        self.lemma_before_valid(i);
        self.lemma_before_valid(self.runs.len() as int);
        self.lemma_cut(self.runs.len() as int);
    }

    proof fn lemma_before_valid(self, i: int)
        requires
            self.wf(),
            0 <= i <= self.runs.len(),
        ensures
            valid_utf8(self.before(i)),
        decreases i,
    {
        self.lemma_wf_in_bounds();
        if i > 0 {
            self.lemma_before_valid(i - 1);
            self.lemma_cut(i - 1);
            self.lemma_cut(i);
            let run = self.runs[i - 1];
            assert(self.is_text(run));
            crate::text::lemma_text_range(self.buffer(run.in_edits), run.start, run.end);
            let pieces = self.pieces();
            assert(pieces.take(i) == pieces.take(i - 1).push(pieces[i - 1]));
            pieces.take(i - 1).lemma_flatten_push(pieces[i - 1]);
            valid_utf8_concat(self.before(i - 1), self.resolve(run));
        } else {
            assert(self.pieces().take(0) == Seq::<Seq<u8>>::empty());
        }
    }

    /// A position inside a run is a character boundary of the document
    /// exactly when the matching position is one of the run's buffer.
    pub proof fn lemma_boundary_in_run(self, i: int, index: int)
        requires
            self.wf(),
            self.covers(i, index),
        ensures
            is_char_boundary(self.bytes(), index) <==> is_char_boundary(
                self.buffer(self.runs[i].in_edits),
                self.runs[i].start + (index - self.offset(i)),
            ),
    {
        let run = self.runs[i];
        let buffer = self.buffer(run.in_edits);
        let cut = run.start + (index - self.offset(i));
        self.lemma_wf_in_bounds();
        self.lemma_bytes_valid(i);
        self.lemma_runs_partition();
        assert(self.is_text(run));
        assert(self.bytes().subrange(self.offset(i), self.offset(i + 1)) == self.resolve(run));
        let piece = self.bytes().subrange(self.offset(i), self.offset(i + 1));
        assert(self.bytes()[index] == piece[index - self.offset(i)]);
        assert(self.resolve(run)[index - self.offset(i)] == buffer[cut]);
        crate::text::lemma_boundary_by_byte(self.bytes(), index);
        crate::text::lemma_boundary_by_byte(buffer, cut);
    }

    /// A position inside run `i` splits the document into what stands before
    /// the run with the start of the run, and the rest of the run with what
    /// stands behind it. All four parts are UTF-8 when the position is a
    /// character boundary.
    pub proof fn lemma_place(self, i: int, within: int)
        requires
            self.wf(),
            0 <= i < self.runs.len(),
            0 <= within <= self.runs[i].len(),
            is_char_boundary(self.bytes(), self.offset(i) + within),
        ensures
            valid_utf8(self.bytes()),
            0 <= self.offset(i) + within <= self.bytes().len(),
            self.bytes().subrange(0, self.offset(i) + within) == self.before(i) + self.resolve(
                self.runs[i],
            ).subrange(0, within),
            self.bytes().subrange(self.offset(i) + within, self.bytes().len() as int)
                == self.resolve(self.runs[i]).subrange(within, self.runs[i].len()) + self.after(
                i + 1,
            ),
            valid_utf8(self.before(i)),
            valid_utf8(self.resolve(self.runs[i]).subrange(0, within)),
            valid_utf8(self.resolve(self.runs[i]).subrange(within, self.runs[i].len())),
            valid_utf8(self.after(i + 1)),
            self.offset(i + 1) == self.offset(i) + self.runs[i].len(),
    {
        let run = self.runs[i];
        let piece = self.resolve(run);
        let at = self.offset(i) + within;
        self.lemma_wf_in_bounds();
        self.lemma_bytes_valid(i);
        self.lemma_after_valid(i + 1);
        self.lemma_cut(i);
        self.lemma_cut(i + 1);
        assert(self.holds(run));
        assert(self.is_text(run));
        crate::text::lemma_text_range(self.buffer(run.in_edits), run.start, run.end);
        self.lemma_boundary_in_run_end(i, within);
        valid_utf8_split(piece, within);
        assert(self.bytes() == self.before(i) + piece + self.after(i + 1));
        assert(self.bytes().subrange(0, at) == self.before(i) + piece.subrange(0, within));
        assert(self.bytes().subrange(at, self.bytes().len() as int) == piece.subrange(
            within,
            run.len(),
        ) + self.after(i + 1));
    }

    /// A position in run `i`, its end included, is a character boundary of
    /// the document exactly when it is one of what the run addresses.
    pub proof fn lemma_boundary_in_run_end(self, i: int, within: int)
        requires
            self.wf(),
            0 <= i < self.runs.len(),
            0 <= within <= self.runs[i].len(),
        ensures
            is_char_boundary(self.bytes(), self.offset(i) + within) <==> is_char_boundary(
                self.resolve(self.runs[i]),
                within,
            ),
    {
        let run = self.runs[i];
        let piece = self.resolve(run);
        self.lemma_wf_in_bounds();
        self.lemma_bytes_valid(i);
        self.lemma_cut(i);
        self.lemma_cut(i + 1);
        self.lemma_after_valid(i + 1);
        assert(self.is_text(run));
        crate::text::lemma_text_range(self.buffer(run.in_edits), run.start, run.end);
        valid_utf8_concat(piece, self.after(i + 1));
        assert(self.bytes() == self.before(i) + (piece + self.after(i + 1)));
        crate::text::lemma_boundary_concat(
            self.before(i),
            piece + self.after(i + 1),
            self.offset(i) + within,
        );
        crate::text::lemma_boundary_concat(piece, self.after(i + 1), within);
    }

    /// The document from the start of a run on is UTF-8.
    pub proof fn lemma_after_valid(self, i: int)
        requires
            self.wf(),
            0 <= i <= self.runs.len(),
        ensures
            valid_utf8(self.after(i)),
        decreases self.runs.len() - i,
    {
        self.lemma_wf_in_bounds();
        self.lemma_cut(i);
        if i < self.runs.len() {
            self.lemma_after_valid(i + 1);
            let run = self.runs[i];
            assert(self.is_text(run));
            crate::text::lemma_text_range(self.buffer(run.in_edits), run.start, run.end);
            valid_utf8_concat(self.resolve(run), self.after(i + 1));
        }
    }

    /// An insertion of UTF-8 text at a character boundary of the document, or
    /// at or past its end, leaves the table well-formed.
    pub proof fn lemma_insert_wf(self, index: int, text: Seq<u8>)
        requires
            self.wf(),
            valid_utf8(text),
            0 <= index,
            index >= self.bytes().len() || is_char_boundary(self.bytes(), index),
        ensures
            self.insert(index, text).wf(),
    {
        let after = self.insert(index, text);
        let fresh = self.fresh(text.len() as int);
        self.lemma_wf_in_bounds();
        self.lemma_run_at(index);
        valid_utf8_concat(self.edits, text);
        assert forall|span: Span| self.is_text(span) implies after.is_text(span) by {
            if span.in_edits {
                crate::text::lemma_boundary_concat(self.edits, text, span.start);
                crate::text::lemma_boundary_concat(self.edits, text, span.end);
            }
        }
        assert(after.is_text(fresh)) by {
            is_char_boundary_start_end_of_seq(self.edits);
            is_char_boundary_start_end_of_seq(after.edits);
            crate::text::lemma_boundary_concat(self.edits, text, self.edits.len() as int);
        }
        match self.run_at(index) {
            Some(i) => {
                let run = self.runs[i];
                let left = self.left_of(i, index);
                let right = self.right_of(i, index);
                self.lemma_boundary_in_run(i, index);
                assert(self.is_text(run));
                assert(self.is_text(left) && self.is_text(right));
                assert forall|k: int| 0 <= k < after.runs.len() implies after.is_text(
                    #[trigger] after.runs[k],
                ) by {
                    if k < i {
                        assert(after.runs[k] == self.runs[k]);
                        assert(self.is_text(self.runs[k]));
                    } else if k > i + 2 {
                        assert(after.runs[k] == self.runs[k - 2]);
                        assert(self.is_text(self.runs[k - 2]));
                    }
                }
            },
            None => {
                assert forall|k: int| 0 <= k < after.runs.len() implies after.is_text(
                    #[trigger] after.runs[k],
                ) by {
                    if k < self.runs.len() {
                        assert(after.runs[k] == self.runs[k]);
                        assert(self.is_text(self.runs[k]));
                    }
                }
            },
        }
    }
}

/// A run: a half-open byte range of the original buffer or of the edit buffer.
#[derive(Clone, Copy, Debug, PartialEq, Eq)]
pub struct Run {
    pub start_index: usize,
    pub end_index: usize,
    pub append_buffer: bool,
}

impl View for Run {
    type V = Span;

    open spec fn view(&self) -> Span {
        Span {
            start: self.start_index as int,
            end: self.end_index as int,
            in_edits: self.append_buffer,
        }
    }
}

impl Run {
    /// The number of bytes that the run addresses.
    pub fn length(&self) -> (len: usize)
        requires
            self.start_index <= self.end_index,
        ensures
            len == self@.len(),
    {
        self.end_index - self.start_index
    }
}

/// The models of a list of runs, in the same order.
pub open spec fn spans(runs: Seq<Run>) -> Seq<Span> {
    Seq::new(runs.len(), |i: int| runs[i]@)
}

/// A document stored as a piece table.
pub struct Document {
    buffer: String,
    append: String,
    runs: Vec<Run>,
}

impl View for Document {
    type V = PieceTable;

    closed spec fn view(&self) -> PieceTable {
        PieceTable {
            original: encode_utf8(self.buffer@),
            edits: encode_utf8(self.append@),
            runs: spans(self.runs@),
        }
    }
}

impl Document {
    /// Every run addresses whole characters of the buffer it names.
    pub open spec fn wf(&self) -> bool {
        self@.wf()
    }

    /// A document that holds `initial`, copied into the original buffer and
    /// addressed by a single run; without an initial text, a document with
    /// no run.
    pub fn new(initial: Option<&str>) -> (document: Document)
        ensures
            document.wf(),
            document@ == PieceTable::initial(
                match initial {
                    Some(text) => Some(encode_utf8(text@)),
                    None => None,
                },
            ),
            document@.text() == (match initial {
                Some(text) => text@,
                None => Seq::<char>::empty(),
            }),
    {
        let document = match initial {
            Some(text) => {
                let run = Run { start_index: 0, end_index: byte_len(text), append_buffer: false };
                Document { buffer: text.to_owned(), append: String::new(), runs: vec![run] }
            },
            None => Document { buffer: String::new(), append: String::new(), runs: Vec::new() },
        };
        proof {
            let table = document@;
            assert(encode_utf8(Seq::<char>::empty()) == Seq::<u8>::empty());
            encode_utf8_valid_utf8(document.buffer@);
            encode_utf8_valid_utf8(document.append@);
            is_char_boundary_start_end_of_seq(table.original);
            assert(table.runs == PieceTable::initial(
                match initial {
                    Some(text) => Some(encode_utf8(text@)),
                    None => None,
                },
            ).runs);
            assert(table.wf());
            table.lemma_wf_in_bounds();
            table.lemma_cut(0);
            if initial is Some {
                table.lemma_cut(1);
                assert(table.resolve(table.runs[0]) == table.original);
            }
            encode_utf8_decode_utf8(document.buffer@);
        }
        document
    }

    /// The runs of the document, in document order.
    pub fn runs(&self) -> (runs: &Vec<Run>)
        ensures
            spans(runs@) == self@.runs,
    {
        &self.runs
    }
}

/// The text that `run` addresses in `document`.
///
/// Fails with `CorruptRun` when the run reaches outside the buffer it names
/// or cuts a character in two.
pub fn get_text<'a>(document: &'a Document, run: &Run) -> (text: Result<&'a str, EngineError>)
    ensures
        text is Ok <==> document@.is_text(run@),
        text matches Ok(t) ==> encode_utf8(t@) == document@.resolve(run@),
        text matches Err(e) ==> e == EngineError::CorruptRun,
{
    let buffer = if run.append_buffer {
        document.append.as_str()
    } else {
        document.buffer.as_str()
    };
    match slice(buffer, run.start_index, run.end_index) {
        Some(text) => Ok(text),
        None => Err(EngineError::CorruptRun),
    }
}

/// The whole text of the document: what each run addresses, in document order.
pub fn get_all_text(document: &Document) -> (text: String)
    requires
        document.wf(),
    ensures
        text@ == document@.text(),
        encode_utf8(text@) == document@.bytes(),
{
    let mut builder = String::new();
    let mut i: usize = 0;
    proof {
        document@.lemma_wf_in_bounds();
        document@.lemma_cut(0);
        assert(encode_utf8(builder@) == document@.before(0));
    }
    while i < document.runs.len()
        invariant
            document.wf(),
            document@.in_bounds(),
            i <= document.runs.len(),
            encode_utf8(builder@) == document@.before(i as int),
        decreases document.runs.len() - i,
    {
        assert(document@.is_text(document@.runs[i as int]));
        match get_text(document, &document.runs[i]) {
            Ok(piece) => {
                proof {
                    lemma_encode_concat(builder@, piece@);
                    document@.lemma_cut(i as int);
                    document@.lemma_cut(i + 1);
                    let pieces = document@.pieces();
                    assert(pieces.take(i + 1) == pieces.take(i as int).push(pieces[i as int]));
                    pieces.take(i as int).lemma_flatten_push(pieces[i as int]);
                }
                builder.append(piece);
            },
            Err(_) => {},
        }
        i += 1;
    }
    proof {
        document@.lemma_cut(i as int);
        encode_utf8_decode_utf8(builder@);
    }
    builder
}

/// Inserts `text` at the byte offset `index` of the document.
///
/// The text is appended to the edit buffer. The run that contains `index` is
/// split there and the new run placed between its halves; an offset at or
/// past the end of the document appends the new run. An offset that falls
/// inside a character is refused with `InvalidOffset` and leaves the document
/// as it was.
pub fn insert(document: &mut Document, index: usize, text: &str) -> (outcome: Result<
    (),
    EngineError,
>)
    requires
        old(document).wf(),
    ensures
        final(document).wf(),
        outcome is Ok <==> (index >= old(document)@.bytes().len() || is_char_boundary(
            old(document)@.bytes(),
            index as int,
        )),
        outcome is Ok ==> final(document)@ == old(document)@.insert(
            index as int,
            encode_utf8(text@),
        ),
        outcome is Ok ==> final(document)@.bytes() == splice(
            old(document)@.bytes(),
            index as int,
            encode_utf8(text@),
        ),
        outcome matches Err(e) ==> e == EngineError::InvalidOffset && final(document)@ == old(
            document,
        )@,
        forall|span: Span| #[trigger]
            old(document)@.is_text(span) ==> ({
                &&& final(document)@.is_text(span)
                &&& final(document)@.resolve(span) == old(document)@.resolve(span)
            }),
{
    let ghost before = document@;
    let ghost bytes = encode_utf8(text@);
    proof {
        before.lemma_wf_in_bounds();
        before.lemma_run_at(index as int);
        before.lemma_insert_splices(index as int, bytes);
        encode_utf8_valid_utf8(text@);
        lemma_encode_concat(document.append@, text@);
        assert forall|span: Span| #[trigger] before.is_text(span) implies before.insert(
            index as int,
            bytes,
        ).is_text(span) && before.insert(index as int, bytes).resolve(span) == before.resolve(
            span,
        ) by {
            before.lemma_insert_keeps_text(index as int, bytes, span);
        }
    }
    let count = document.runs.len();
    let mut i: usize = 0;
    let mut start: usize = 0;
    let mut found = false;
    while i < count && !found
        invariant
            document@ == before,
            before.in_bounds(),
            count == document.runs.len(),
            i <= count,
            start == before.offset(i as int),
            start <= index,
            found ==> before.covers(i as int, index as int),
            forall|k: int| 0 <= k < i ==> !before.covers(k, index as int),
        decreases count - i + (if found { 0int } else { 1int }),
    {
        let run = document.runs[i];
        assert(before.holds(before.runs[i as int]));
        let len = run.end_index - run.start_index;
        if index - start < len {
            found = true;
        } else {
            start = start + len;
            i += 1;
        }
    }
    if found {
        let run = document.runs[i];
        assert(before.holds(before.runs[i as int]));
        let cut = run.start_index + (index - start);
        let on_boundary = if run.append_buffer {
            document.append.as_str().is_char_boundary(cut)
        } else {
            document.buffer.as_str().is_char_boundary(cut)
        };
        proof {
            before.lemma_boundary_in_run(i as int, index as int);
        }
        if !on_boundary {
            return Err(EngineError::InvalidOffset);
        }
        proof {
            before.lemma_insert_wf(index as int, bytes);
        }
        let at = byte_len(document.append.as_str());
        document.append.append(text);
        let end = byte_len(document.append.as_str());
        let source = run.append_buffer;
        let left = Run { start_index: run.start_index, end_index: cut, append_buffer: source };
        let fresh = Run { start_index: at, end_index: end, append_buffer: true };
        let right = Run { start_index: cut, end_index: run.end_index, append_buffer: source };
        document.runs.set(i, left);
        document.runs.insert(i + 1, fresh);
        assert(i + 2 <= document.runs.len());
        document.runs.insert(i + 2, right);
        assert(document@.runs == before.insert(index as int, bytes).runs);
        Ok(())
    } else {
        assert(forall|k: int| !before.covers(k, index as int));
        proof {
            before.lemma_insert_wf(index as int, bytes);
        }
        let at = byte_len(document.append.as_str());
        document.append.append(text);
        let end = byte_len(document.append.as_str());
        document.runs.push(Run { start_index: at, end_index: end, append_buffer: true });
        assert(document@.runs == before.insert(index as int, bytes).runs);
        Ok(())
    }
}

} // verus!
