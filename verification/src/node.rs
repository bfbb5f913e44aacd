//! Node layout and randomized height selection.
//!
//! A node is a fixed-size record: `height` levels of index metadata plus the
//! remaining record space used for UTF-8 content bytes.  Content capacity is
//! therefore inversely proportional to height.

use vstd::prelude::*;
use rand::Rng;

verus! {

use crate::text::byte_len;

/// The likelihood (%) that a node grows one more level of index height.
pub(crate) const BIAS: u32 = 25;

/// Maximum index height of any node.
pub(crate) const MAX_HEIGHT: usize = 13;

const MAX_HEIGHT_U8: u8 = 13;

/// Record bytes taken by one level's index entry: a character-count distance
/// plus a node reference.
pub(crate) const SKIP_ENTRY_BYTES: usize = 16;

/// Total record space that a node of minimal metadata could devote to
/// content bytes.
pub(crate) fn max_bytes_per_node() -> (r: usize)
    ensures
        r == MAX_HEIGHT * SKIP_ENTRY_BYTES,
{
    MAX_HEIGHT * SKIP_ENTRY_BYTES
}

/// Content byte budget of a node of the given height: the record space not
/// taken by the `height` index entries.
pub(crate) open spec fn spec_capacity(height: int) -> int {
    (MAX_HEIGHT - height) * SKIP_ENTRY_BYTES
}

/// Relies on `rand::Rng::gen_ratio`, on the generator of `rand::thread_rng`:
/// returns `true` with probability `num/den`.  It panics only when `den == 0`
/// or `num > den`, which the precondition excludes; nothing is assumed about
/// the outcome of a flip.
#[verifier::external_body]
fn coin(num: u32, den: u32) -> bool
    requires
        0 < den,
        num <= den,
{
    rand::thread_rng().gen_ratio(num, den)
}

/// Chooses a node height: starting at 1, grow by one level with probability
/// `BIAS`% and repeat, stopping at the first failed flip or at `MAX_HEIGHT`.
pub(crate) fn random_height() -> (h: u8)
    ensures
        1 <= h as int <= MAX_HEIGHT as int,
{
    let mut h: u8 = 1;
    let mut grow = coin(BIAS, 100);
    while h < MAX_HEIGHT_U8 && grow
        invariant
            1 <= h <= MAX_HEIGHT_U8,
        decreases MAX_HEIGHT_U8 - h,
    {
        h = h + 1;
        grow = coin(BIAS, 100);
    }
    h
}

/// Height for a node that must carry content.  A record of full height has no
/// space left for content bytes, so the selection is capped one level below
/// the maximum, keeping at least one index entry's worth of content space.
pub(crate) fn content_height() -> (h: u8)
    ensures
        1 <= h as int && (h as int) < MAX_HEIGHT as int,
        SKIP_ENTRY_BYTES <= spec_capacity(h as int),
{
    let h = random_height();
    if h == MAX_HEIGHT_U8 {
        h - 1
    } else {
        h
    }
}

/// One level's worth of index metadata: the number of characters between
/// the start of the owning node's content and the start of the next node
/// participating in that level, and the chain index of that node (`None` at
/// the end of the document).
#[derive(Clone, Copy)]
pub struct SkipEntry {
    pub num_chars: usize,
    pub next: Option<usize>,
}

/// One segment of the document: a run of complete UTF-8 encoded scalar
/// values plus `height` levels of skip entries into the chain.
pub struct Node {
    pub height: u8,
    pub content: String,
    pub skips: Vec<SkipEntry>,
}

impl View for Node {
    type V = Seq<char>;

    open spec fn view(&self) -> Seq<char> {
        self.content@
    }
}

impl Node {
    /// A live node keeps its height within bounds, is never empty, and its
    /// content bytes stay within the budget its height leaves free.
    pub(crate) open spec fn wf(self) -> bool {
        &&& 1 <= self.height as int <= MAX_HEIGHT as int
        &&& self@.len() >= 1
        &&& byte_len(self@) <= spec_capacity(self.height as int)
    }

    /// The content byte budget of this node: the full record minus the
    /// space its `height` index entries take.
    pub(crate) fn capacity(&self) -> (r: usize)
        requires
            self.height as int <= MAX_HEIGHT as int,
        ensures
            r == spec_capacity(self.height as int),
    {
        max_bytes_per_node() - self.height as usize * SKIP_ENTRY_BYTES
    }

    /// The node's content as a string slice.
    pub(crate) fn to_str(&self) -> (r: &str)
        ensures
            r@ == self@,
    {
        self.content.as_str()
    }
}

} // verus!
