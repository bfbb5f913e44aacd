//! A skip-list rope: a mutable Unicode text container indexed both by byte
//! offset and by character (Unicode scalar value) offset, supporting
//! positional insertion, deletion and range reads at arbitrary character
//! positions.
//!
//! The document lives in a chain of small fixed-budget nodes.  Each node
//! carries a randomly chosen index height and one skip entry per level — a
//! character distance to the next node of that level — and a sentinel head
//! holds the entry points into the chain at every level; the record space
//! not taken by index entries holds the node's UTF-8 content bytes, so
//! content capacity shrinks as height grows.  Lookups walk the index levels
//! top-down.  Every operation keeps the running character and byte totals
//! and every level's distance counters consistent, and no edit ever splits
//! a multi-byte UTF-8 encoding across a node boundary.

use vstd::prelude::*;

pub mod laws;
mod node;
pub mod rope;
pub mod text;

pub use rope::JumpRope;

verus! {

use crate::text::{byte_len, removed, spliced};

/// Errors surfaced by rope operations.
#[derive(Debug, PartialEq, Eq, Structural)]
pub enum RopeError {
    /// A position or position+length argument exceeds the current character
    /// length of the document.
    PositionOutOfBounds,
    /// Reserved for byte-offset entry points that would split a multi-byte
    /// character; unreachable from the character-offset API.
    InvalidCodepoint,
}

/// The operation surface of a mutable text container addressed by character
/// (Unicode scalar value) offset.
pub trait Rope: Sized {
    /// Internal consistency of the representation; established by the
    /// constructors and preserved by every operation.
    spec fn wf(&self) -> bool;

    /// The document represented, as a sequence of Unicode scalar values.
    spec fn text(&self) -> Seq<char>;

    /// An empty document.
    fn new() -> (r: Self)
        ensures
            r.wf(),
            r.text() == Seq::<char>::empty(),
    ;

    /// Inserts `contents` at character offset `pos`.  Inserting at the end of
    /// the document is legal; a position past the end is rejected and the
    /// document is left unchanged.  Inserting the empty string succeeds as a
    /// no-op.
    fn insert(&mut self, pos: usize, contents: &str) -> (r: Result<(), RopeError>)
        requires
            old(self).wf(),
            byte_len(old(self).text()) + byte_len(contents@) <= usize::MAX,
        ensures
            final(self).wf(),
            contents@.len() == 0 ==> r is Ok && final(self).text() == old(self).text(),
            contents@.len() > 0 && pos <= old(self).text().len() ==> r is Ok
                && final(self).text() == spliced(old(self).text(), pos as int, contents@),
            contents@.len() > 0 && pos > old(self).text().len() ==> r == Err::<(), RopeError>(
                RopeError::PositionOutOfBounds,
            ) && final(self).text() == old(self).text(),
    ;

    /// Deletes `len` characters starting at character offset `pos`.  A
    /// deletion running past the end of the document is clamped to the end,
    /// but a starting position past the end is rejected — whatever the
    /// length — and the document is left unchanged.  Deleting zero
    /// characters at a valid position succeeds as a no-op.
    fn del(&mut self, pos: usize, len: usize) -> (r: Result<(), RopeError>)
        requires
            old(self).wf(),
        ensures
            final(self).wf(),
            pos > old(self).text().len() ==> r == Err::<(), RopeError>(
                RopeError::PositionOutOfBounds,
            ) && final(self).text() == old(self).text(),
            len == 0 && pos <= old(self).text().len() ==> r is Ok && final(self).text() == old(
                self,
            ).text(),
            len > 0 && pos <= old(self).text().len() ==> r is Ok && final(self).text() == removed(
                old(self).text(),
                pos as int,
                len as int,
            ),
    ;

    /// Returns the text of the character range `[pos, pos + len)`, or an
    /// error if the range does not lie within the document.
    fn slice(&self, pos: usize, len: usize) -> (r: Result<String, RopeError>)
        requires
            self.wf(),
        ensures
            pos + len <= self.text().len() ==> (r matches Ok(s) && s@ == self.text().subrange(
                pos as int,
                pos + len,
            )),
            pos + len > self.text().len() ==> r == Err::<String, RopeError>(
                RopeError::PositionOutOfBounds,
            ),
    ;

    /// Serializes the whole document; always succeeds.
    fn to_string(&self) -> (r: String)
        requires
            self.wf(),
        ensures
            r@ == self.text(),
    ;

    /// The byte length of the document's UTF-8 encoding.
    fn len(&self) -> (r: usize)
        requires
            self.wf(),
        ensures
            r == byte_len(self.text()),
    ;

    /// The number of Unicode scalar values in the document.
    fn char_len(&self) -> (r: usize)
        requires
            self.wf(),
        ensures
            r == self.text().len(),
    ;
}

} // verus!
