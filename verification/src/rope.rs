//! The rope container: a chain of content nodes addressed by character
//! offset, with running character and byte totals.

use vstd::prelude::*;

verus! {

use vstd::string::{StrSliceExecFns, StringExecFns};
use vstd::utf8::{
    decode_utf8, encode_utf8, encode_utf8_decode_utf8, encode_utf8_valid_utf8, valid_utf8,
};
use crate::Rope;
use crate::RopeError;
use crate::node::{content_height, Node, SkipEntry, MAX_HEIGHT};
use crate::text::{
    byte_len, clamped, lemma_byte_len_bounds, lemma_byte_len_concat, lemma_byte_len_split,
    lemma_byte_len_subrange_le, lemma_concat2_split, lemma_concat3_split,
    lemma_encode_utf8_concat, removed, spliced,
};

/// Concatenation of the contents of a run of nodes, in chain order.
pub(crate) open spec fn all_text(ns: Seq<Node>) -> Seq<char>
    decreases ns.len(),
{
    if ns.len() == 0 {
        Seq::empty()
    } else {
        ns[0]@ + all_text(ns.drop_first())
    }
}

/// The text of a chain splits at any node boundary.
pub(crate) proof fn lemma_all_text_split(ns: Seq<Node>, i: int)
    requires
        0 <= i <= ns.len(),
    ensures
        all_text(ns) == all_text(ns.take(i)) + all_text(ns.skip(i)),
    decreases i,
{
    if i == 0 {
        assert(ns.take(0) =~= Seq::<Node>::empty());
        assert(ns.skip(0) =~= ns);
        assert(all_text(ns.take(0)) + all_text(ns.skip(0)) =~= all_text(ns));
    } else {
        let tl = ns.drop_first();
        lemma_all_text_split(tl, i - 1);
        assert(tl.take(i - 1) =~= ns.take(i).drop_first());
        assert(tl.skip(i - 1) =~= ns.skip(i));
        assert(ns.take(i).len() != 0);
        assert(ns.take(i)[0] == ns[0]);
        assert(all_text(ns) =~= all_text(ns.take(i)) + all_text(ns.skip(i)));
    }
}

/// Extending a prefix of the chain by one node appends that node's content.
pub(crate) proof fn lemma_prefix_step(ns: Seq<Node>, i: int)
    requires
        0 <= i < ns.len(),
    ensures
        all_text(ns.take(i + 1)) == all_text(ns.take(i)) + ns[i]@,
{
    lemma_all_text_split(ns.take(i + 1), i);
    assert(ns.take(i + 1).take(i) =~= ns.take(i));
    let s = ns.take(i + 1).skip(i);
    assert(s.len() == 1);
    assert(s[0] == ns[i]);
    assert(s.drop_first().len() == 0);
    assert(all_text(s.drop_first()) =~= Seq::<char>::empty());
    assert(all_text(s) =~= ns[i]@);
}

/// The text of a chain decomposes around any single node.
pub(crate) proof fn lemma_decompose(ns: Seq<Node>, i: int)
    requires
        0 <= i < ns.len(),
    ensures
        all_text(ns) == all_text(ns.take(i)) + ns[i]@ + all_text(ns.skip(i + 1)),
{
    lemma_all_text_split(ns, i + 1);
    lemma_prefix_step(ns, i);
}

/// Splitting a prefix of the chain: the text up to node `b` is the text up
/// to node `a` followed by the text of nodes `a..b`.
pub(crate) proof fn lemma_prefix_range(ns: Seq<Node>, a: int, b: int)
    requires
        0 <= a <= b <= ns.len(),
    ensures
        all_text(ns.take(b)) == all_text(ns.take(a)) + all_text(ns.subrange(a, b)),
{
    lemma_all_text_split(ns.take(b), a);
    assert(ns.take(b).take(a) =~= ns.take(a));
    assert(ns.take(b).skip(a) =~= ns.subrange(a, b));
}

/// The text of a nonempty run of nodes starts with its first node's content.
pub(crate) proof fn lemma_span_head(ns: Seq<Node>, a: int, b: int)
    requires
        0 <= a < b <= ns.len(),
    ensures
        all_text(ns.subrange(a, b)) == ns[a]@ + all_text(ns.subrange(a + 1, b)),
{
    lemma_all_text_split(ns.subrange(a, b), 1);
    let s = ns.subrange(a, b);
    assert(s.take(1).len() == 1);
    assert(s.take(1)[0] == ns[a]);
    assert(s.take(1).drop_first().len() == 0);
    assert(all_text(s.take(1).drop_first()) =~= Seq::<char>::empty());
    assert(all_text(s.take(1)) =~= ns[a]@);
    assert(s.skip(1) =~= ns.subrange(a + 1, b));
}

/// Two chains with pointwise equal contents carry the same text.
pub(crate) proof fn lemma_all_text_congruent(ns1: Seq<Node>, ns2: Seq<Node>)
    requires
        ns1.len() == ns2.len(),
        forall|i: int| 0 <= i < ns1.len() ==> #[trigger] ns1[i]@ == ns2[i]@,
    ensures
        all_text(ns1) == all_text(ns2),
    decreases ns1.len(),
{
    if ns1.len() > 0 {
        assert forall|i: int| 0 <= i < ns1.drop_first().len() implies #[trigger] ns1.drop_first()[i]@
            == ns2.drop_first()[i]@ by {
            assert(ns1.drop_first()[i] == ns1[i + 1]);
            assert(ns2.drop_first()[i] == ns2[i + 1]);
        }
        lemma_all_text_congruent(ns1.drop_first(), ns2.drop_first());
    }
}

/// The index of the first node at or after position `j` that participates
/// in level `l` (its height exceeds `l`), or the chain length if none does.
pub(crate) open spec fn first_at(ns: Seq<Node>, j: int, l: int) -> int
    decreases ns.len() - j,
{
    if j < 0 || j >= ns.len() {
        ns.len() as int
    } else if (ns[j].height as int) > l {
        j
    } else {
        first_at(ns, j + 1, l)
    }
}

/// What a node's level-`l` skip entry must hold: the character distance
/// from the start of the node's content to the start of the next level-`l`
/// node's content, and the chain index of that node.
pub(crate) open spec fn entry_spec(ns: Seq<Node>, i: int, l: int) -> SkipEntry {
    let j = first_at(ns, i + 1, l);
    SkipEntry {
        num_chars: (ns[i]@.len() + all_text(ns.subrange(i + 1, j)).len()) as usize,
        next: if j < ns.len() {
            Some(j as usize)
        } else {
            None
        },
    }
}

/// What the sentinel's level-`l` entry must hold: the character distance
/// from the start of the document to the first level-`l` node, and its
/// chain index.
pub(crate) open spec fn head_entry_spec(ns: Seq<Node>, l: int) -> SkipEntry {
    let j = first_at(ns, 0, l);
    SkipEntry {
        num_chars: all_text(ns.subrange(0, j)).len() as usize,
        next: if j < ns.len() {
            Some(j as usize)
        } else {
            None
        },
    }
}

/// Every level's distance counters are consistent with the chain.
pub(crate) open spec fn index_ok(ns: Seq<Node>) -> bool {
    forall|i: int, l: int|
        0 <= i < ns.len() && 0 <= l < ns[i].height as int ==> #[trigger] ns[i].skips@[l]
            == entry_spec(ns, i, l) && ns[i].skips@.len() == ns[i].height as int
}

/// The sentinel's skip array holds the entry points into the chain at every
/// level.
pub(crate) open spec fn head_ok(h: Seq<SkipEntry>, ns: Seq<Node>) -> bool {
    &&& h.len() == MAX_HEIGHT as int
    &&& forall|l: int| 0 <= l < MAX_HEIGHT as int ==> #[trigger] h[l] == head_entry_spec(ns, l)
}

/// Basic facts about [`first_at`]: it lands at or after `j`, on a node tall
/// enough for the level, and skips only nodes that are not.
pub(crate) proof fn lemma_first_at_props(ns: Seq<Node>, j: int, l: int)
    requires
        0 <= j <= ns.len(),
    ensures
        j <= first_at(ns, j, l) <= ns.len(),
        first_at(ns, j, l) < ns.len() ==> (ns[first_at(ns, j, l)].height as int) > l,
        forall|m: int| j <= m < first_at(ns, j, l) ==> (#[trigger] ns[m].height as int) <= l,
    decreases ns.len() - j,
{
    if j < ns.len() && (ns[j].height as int) <= l {
        lemma_first_at_props(ns, j + 1, l);
    }
}

/// A forward scan that passed only nodes too short for level `l` and
/// stopped at the end or at a tall enough node has found [`first_at`].
pub(crate) proof fn lemma_first_at_fixed(ns: Seq<Node>, j: int, e: int, l: int)
    requires
        0 <= j <= e <= ns.len(),
        forall|m: int| j <= m < e ==> (#[trigger] ns[m].height as int) <= l,
        e == ns.len() || (ns[e].height as int) > l,
    ensures
        first_at(ns, j, l) == e,
    decreases e - j,
{
    if j < e {
        lemma_first_at_fixed(ns, j + 1, e, l);
    }
}

/// Two chains with pointwise equal heights and contents determine the same
/// skip entries.
pub(crate) proof fn lemma_first_at_congruent(ns1: Seq<Node>, ns2: Seq<Node>, j: int, l: int)
    requires
        0 <= j <= ns1.len(),
        ns1.len() == ns2.len(),
        forall|i: int| 0 <= i < ns1.len() ==> #[trigger] ns1[i].height == ns2[i].height,
    ensures
        first_at(ns1, j, l) == first_at(ns2, j, l),
    decreases ns1.len() - j,
{
    if j < ns1.len() && (ns1[j].height as int) <= l {
        lemma_first_at_congruent(ns1, ns2, j + 1, l);
    }
}

/// Two chains with pointwise equal heights and contents determine the same
/// level entries everywhere.
pub(crate) proof fn lemma_entry_congruent(ns1: Seq<Node>, ns2: Seq<Node>, i: int, l: int)
    requires
        0 <= i < ns1.len(),
        ns1.len() == ns2.len(),
        forall|m: int| 0 <= m < ns1.len() ==> #[trigger] ns1[m].height == ns2[m].height,
        forall|m: int| 0 <= m < ns1.len() ==> #[trigger] ns1[m]@ == ns2[m]@,
    ensures
        entry_spec(ns1, i, l) == entry_spec(ns2, i, l),
{
    lemma_first_at_congruent(ns1, ns2, i + 1, l);
    lemma_first_at_props(ns1, i + 1, l);
    let j = first_at(ns1, i + 1, l);
    assert forall|m: int| 0 <= m < ns1.subrange(i + 1, j).len() implies #[trigger] ns1.subrange(
        i + 1,
        j,
    )[m]@ == ns2.subrange(i + 1, j)[m]@ by {
        assert(ns1.subrange(i + 1, j)[m] == ns1[i + 1 + m]);
        assert(ns2.subrange(i + 1, j)[m] == ns2[i + 1 + m]);
    }
    lemma_all_text_congruent(ns1.subrange(i + 1, j), ns2.subrange(i + 1, j));
}

/// The character count of a contiguous run of nodes never exceeds that of
/// the whole chain.
pub(crate) proof fn lemma_all_text_range_le(ns: Seq<Node>, a: int, b: int)
    requires
        0 <= a <= b <= ns.len(),
    ensures
        all_text(ns.subrange(a, b)).len() <= all_text(ns).len(),
{
    lemma_all_text_split(ns, a);
    lemma_all_text_split(ns.skip(a), b - a);
    assert(ns.skip(a).take(b - a) =~= ns.subrange(a, b));
}

/// Walks forward from chain position `from` to the next node participating
/// in level `l`, summing the characters passed over.
fn scan_level(nodes: &Vec<Node>, from: usize, l: usize) -> (r: (usize, usize))
    requires
        from <= nodes@.len(),
        forall|i: int| 0 <= i < nodes@.len() ==> (#[trigger] nodes@[i]).wf(),
        all_text(nodes@).len() <= usize::MAX,
    ensures
        r.0 == first_at(nodes@, from as int, l as int),
        r.1 == all_text(nodes@.subrange(from as int, r.0 as int)).len(),
{
    let n = nodes.len();
    let mut j = from;
    let mut d: usize = 0;
    proof {
        assert(nodes@.subrange(from as int, from as int) =~= Seq::<Node>::empty());
        assert(all_text(nodes@.subrange(from as int, from as int)) =~= Seq::<char>::empty());
    }
    while j < n && (nodes[j].height as usize) <= l
        invariant
            n == nodes@.len(),
            from <= j <= n,
            forall|i: int| 0 <= i < nodes@.len() ==> (#[trigger] nodes@[i]).wf(),
            all_text(nodes@).len() <= usize::MAX,
            forall|m: int| from <= m < j ==> (#[trigger] nodes@[m].height as int) <= l,
            d == all_text(nodes@.subrange(from as int, j as int)).len(),
        decreases n - j,
    {
        let c = nodes[j].to_str().unicode_len();
        proof {
            lemma_prefix_range(nodes@, from as int, j as int);
            lemma_prefix_range(nodes@, from as int, j as int + 1);
            lemma_prefix_step(nodes@, j as int);
            lemma_all_text_range_le(nodes@, from as int, j as int + 1);
            assert(all_text(nodes@.take(j as int + 1)).len() == all_text(nodes@.take(j as int)).len()
                + c);
            assert(all_text(nodes@.take(j as int)).len() == all_text(nodes@.take(from as int)).len()
                + d);
            assert(all_text(nodes@.subrange(from as int, j as int + 1)).len() == d + c);
        }
        d = d + c;
        j = j + 1;
    }
    proof {
        lemma_first_at_fixed(nodes@, from as int, j as int, l as int);
    }
    (j, d)
}

/// Rebuilds every node's skip array, and the sentinel's, from the chain:
/// each level entry receives the exact character distance to the next node
/// of that level, re-establishing the index after a mutation.
fn rebuild_index(nodes: &mut Vec<Node>) -> (head: Vec<SkipEntry>)
    requires
        forall|i: int| 0 <= i < old(nodes)@.len() ==> (#[trigger] old(nodes)@[i]).wf(),
        all_text(old(nodes)@).len() <= usize::MAX,
    ensures
        final(nodes)@.len() == old(nodes)@.len(),
        forall|i: int|
            0 <= i < final(nodes)@.len() ==> #[trigger] final(nodes)@[i]@ == old(nodes)@[i]@,
        forall|i: int| 0 <= i < final(nodes)@.len() ==> (#[trigger] final(nodes)@[i]).wf(),
        all_text(final(nodes)@) == all_text(old(nodes)@),
        index_ok(final(nodes)@),
        head_ok(head@, final(nodes)@),
{
    let n = nodes.len();
    let mut i: usize = 0;
    while i < n
        invariant
            n == nodes@.len(),
            i <= n,
            forall|m: int| 0 <= m < n ==> #[trigger] nodes@[m]@ == old(nodes)@[m]@,
            forall|m: int| 0 <= m < n ==> #[trigger] nodes@[m].height == old(nodes)@[m].height,
            forall|m: int| 0 <= m < n ==> (#[trigger] nodes@[m]).wf(),
            all_text(nodes@) == all_text(old(nodes)@),
            all_text(nodes@).len() <= usize::MAX,
            forall|m: int, l: int|
                0 <= m < i && 0 <= l < nodes@[m].height as int ==> #[trigger] nodes@[m].skips@[l]
                    == entry_spec(nodes@, m, l) && nodes@[m].skips@.len() == nodes@[m].height as int,
        decreases n - i,
    {
        let ghost pre = nodes@;
        let h = nodes[i].height;
        let ci = nodes[i].to_str().unicode_len();
        let mut sk: Vec<SkipEntry> = Vec::new();
        let mut l: usize = 0;
        while l < h as usize
            invariant
                n == nodes@.len(),
                i < n,
                nodes@ == pre,
                h == nodes@[i as int].height,
                ci == nodes@[i as int]@.len(),
                forall|m: int| 0 <= m < n ==> (#[trigger] nodes@[m]).wf(),
                all_text(nodes@).len() <= usize::MAX,
                sk@.len() == l,
                l <= h as usize,
                forall|ll: int|
                    0 <= ll < l ==> #[trigger] sk@[ll] == entry_spec(nodes@, i as int, ll),
            decreases h as usize - l,
    {
            let r = scan_level(nodes, i + 1, l);
            proof {
                lemma_first_at_props(nodes@, i as int + 1, l as int);
                lemma_prefix_range(nodes@, i as int, r.0 as int);
                lemma_span_head(nodes@, i as int, r.0 as int);
                lemma_all_text_range_le(nodes@, i as int, r.0 as int);
            }
            let e = SkipEntry {
                num_chars: ci + r.1,
                next: if r.0 < n {
                    Some(r.0)
                } else {
                    None
                },
            };
            proof {
                assert(e == entry_spec(nodes@, i as int, l as int));
            }
            sk.push(e);
            l = l + 1;
        }
        nodes[i].skips = sk;
        proof {
            assert forall|m: int| 0 <= m < n implies #[trigger] nodes@[m]@ == old(nodes)@[m]@
                && nodes@[m].height == old(nodes)@[m].height && nodes@[m].wf() by {
                if m != i as int {
                    assert(nodes@[m] == pre[m]);
                }
            }
            assert forall|m: int| 0 <= m < nodes@.len() implies #[trigger] nodes@[m]@ == pre[m]@
                && nodes@[m].height == pre[m].height by {
                if m != i as int {
                    assert(nodes@[m] == pre[m]);
                }
            }
            lemma_all_text_congruent(nodes@, pre);
            assert forall|m: int, l2: int|
                0 <= m < i + 1 && 0 <= l2 < nodes@[m].height as int implies #[trigger] nodes@[m].skips@[l2]
                == entry_spec(nodes@, m, l2) && nodes@[m].skips@.len() == nodes@[m].height as int by {
                lemma_entry_congruent(pre, nodes@, m, l2);
                if m < i as int {
                    assert(nodes@[m] == pre[m]);
                    assert(pre[m].skips@[l2] == entry_spec(pre, m, l2));
                }
            }
        }
        i = i + 1;
    }
    let mut head: Vec<SkipEntry> = Vec::new();
    let mut l: usize = 0;
    while l < MAX_HEIGHT
        invariant
            n == nodes@.len(),
            forall|m: int| 0 <= m < n ==> #[trigger] nodes@[m]@ == old(nodes)@[m]@,
            forall|m: int| 0 <= m < n ==> (#[trigger] nodes@[m]).wf(),
            all_text(nodes@) == all_text(old(nodes)@),
            all_text(nodes@).len() <= usize::MAX,
            index_ok(nodes@),
            head@.len() == l,
            l <= MAX_HEIGHT,
            forall|ll: int| 0 <= ll < l ==> #[trigger] head@[ll] == head_entry_spec(nodes@, ll),
        decreases MAX_HEIGHT - l,
    {
        let r = scan_level(nodes, 0, l);
        let e = SkipEntry {
            num_chars: r.1,
            next: if r.0 < n {
                Some(r.0)
            } else {
                None
            },
        };
        proof {
            lemma_first_at_props(nodes@, 0, l as int);
            lemma_all_text_range_le(nodes@, 0, r.0 as int);
            assert(e == head_entry_spec(nodes@, l as int));
        }
        head.push(e);
        l = l + 1;
    }
    head
}

/// Position of a walk along the chain, for termination: the sentinel comes
/// before node 0.
spec fn walk_rank(at: Option<usize>) -> int {
    match at {
        Option::None => 0,
        Option::Some(i) => i as int + 1,
    }
}

/// The mutable text container: a chain of nodes plus denormalized running
/// totals of character count and byte count.
pub struct JumpRope {
    num_chars: usize,
    num_bytes: usize,
    nodes: Vec<Node>,
    // the sentinel head's skip array: the entry points into the chain at
    // every level
    head: Vec<SkipEntry>,
}

impl View for JumpRope {
    type V = Seq<char>;

    closed spec fn view(&self) -> Seq<char> {
        all_text(self.nodes@)
    }
}

impl JumpRope {
    /// Every node is well formed, the running totals reflect the chain, and
    /// every level's distance counters and entry points are consistent with
    /// the chain.
    pub closed spec fn inv(self) -> bool {
        &&& forall|i: int| 0 <= i < self.nodes@.len() ==> (#[trigger] self.nodes@[i]).wf()
        &&& self.num_chars == all_text(self.nodes@).len()
        &&& self.num_bytes == byte_len(all_text(self.nodes@))
        &&& index_ok(self.nodes@)
        &&& head_ok(self.head@, self.nodes@)
    }

    /// An empty document.
    pub fn new() -> (r: JumpRope)
        ensures
            r.inv(),
            r@ == Seq::<char>::empty(),
    {
        let mut nodes: Vec<Node> = Vec::new();
        proof {
            assert(all_text(nodes@) =~= Seq::<char>::empty());
        }
        let head = rebuild_index(&mut nodes);
        let r = JumpRope { num_chars: 0, num_bytes: 0, nodes, head };
        proof {
            assert(all_text(r.nodes@) =~= Seq::<char>::empty());
        }
        r
    }

    /// Character count of the content of node `i`.
    fn node_chars(&self, i: usize) -> (r: usize)
        requires
            i < self.nodes@.len(),
        ensures
            r == self.nodes@[i as int]@.len(),
    {
        self.nodes[i].to_str().unicode_len()
    }

    /// Serializes the whole document by walking the chain end to end.
    pub fn to_string(&self) -> (r: String)
        requires
            self.inv(),
        ensures
            r@ == self@,
    {
        let mut out = String::new();
        let mut i: usize = 0;
        let n = self.nodes.len();
        proof {
            assert(self.nodes@.take(0) =~= Seq::<Node>::empty());
        }
        while i < n
            invariant
                n == self.nodes@.len(),
                i <= n,
                out@ == all_text(self.nodes@.take(i as int)),
            decreases n - i,
        {
            proof {
                lemma_prefix_step(self.nodes@, i as int);
            }
            out.append(self.nodes[i].to_str());
            i = i + 1;
        }
        proof {
            assert(self.nodes@.take(n as int) =~= self.nodes@);
        }
        out
    }

    /// The byte length of the document's UTF-8 encoding; constant time.
    pub fn len(&self) -> (r: usize)
        requires
            self.inv(),
        ensures
            r == byte_len(self@),
    {
        self.num_bytes
    }

    /// The number of Unicode scalar values in the document; constant time.
    pub fn char_len(&self) -> (r: usize)
        requires
            self.inv(),
        ensures
            r == self@.len(),
    {
        self.num_chars
    }

    /// Recomputes the running totals from the chain and compares them with
    /// the stored ones; the invariant makes the comparison always succeed.
    pub fn check(&self) -> (ok: bool)
        requires
            self.inv(),
        ensures
            ok,
    {
        let mut chars: usize = 0;
        let mut bytes: usize = 0;
        let mut i: usize = 0;
        let n = self.nodes.len();
        proof {
            assert(self.nodes@.take(0) =~= Seq::<Node>::empty());
        }
        while i < n
            invariant
                self.inv(),
                n == self.nodes@.len(),
                i <= n,
                chars == all_text(self.nodes@.take(i as int)).len(),
                bytes == byte_len(all_text(self.nodes@.take(i as int))),
            decreases n - i,
        {
            proof {
                lemma_decompose(self.nodes@, i as int);
                lemma_byte_len_concat(
                    all_text(self.nodes@.take(i as int)) + self.nodes@[i as int]@,
                    all_text(self.nodes@.skip(i as int + 1)),
                );
                lemma_byte_len_concat(
                    all_text(self.nodes@.take(i as int)),
                    self.nodes@[i as int]@,
                );
                lemma_prefix_step(self.nodes@, i as int);
            }
            let nc = self.node_chars(i);
            let nb = self.nodes[i].to_str().len();
            chars = chars + nc;
            bytes = bytes + nb;
            i = i + 1;
        }
        proof {
            assert(self.nodes@.take(n as int) =~= self.nodes@);
        }
        chars == self.num_chars && bytes == self.num_bytes
    }

    /// Where a level walk may rest: the entry at the walk's position offers
    /// no further hop, or hopping would overshoot the target offset.
    spec fn walk_stopped(&self, at: Option<usize>, off: usize, l: int, stick: bool) -> bool {
        let e = match at {
            Option::None => self.head@[l],
            Option::Some(i) => self.nodes@[i as int].skips@[l],
        };
        e.next is None || (if stick {
            off <= e.num_chars
        } else {
            off < e.num_chars
        })
    }

    /// The traversal engine: walks the skip levels top-down from the
    /// sentinel.  At each level it advances along that level's entries while
    /// the target offset reaches past them, then drops a level carrying the
    /// remaining offset, arriving at level 0 at the node containing the
    /// target position and the in-node character offset.  With `stick`, a
    /// position at the very end of a node's content rests with that node
    /// (the insertion behaviour); without it the walk lands strictly inside
    /// a node's content.
    fn locate(&self, pos: usize, stick: bool) -> (r: (usize, usize))
        requires
            self.inv(),
            pos <= self@.len(),
            !stick ==> pos < self@.len(),
        ensures
            r.0 <= self.nodes@.len(),
            all_text(self.nodes@.take(r.0 as int)).len() + r.1 == pos,
            r.0 < self.nodes@.len() ==> r.1 <= self.nodes@[r.0 as int]@.len(),
            r.0 == self.nodes@.len() ==> r.1 == 0,
            !stick ==> r.0 < self.nodes@.len() && r.1 < self.nodes@[r.0 as int]@.len(),
    {
        let ghost ns = self.nodes@;
        let mut at: Option<usize> = None;
        let mut off: usize = pos;
        let mut level: usize = MAX_HEIGHT;
        proof {
            assert(ns.take(0) =~= Seq::<Node>::empty());
        }
        while level > 0
            invariant
                self.inv(),
                ns == self.nodes@,
                pos <= self@.len(),
                !stick ==> pos < self@.len(),
                level <= MAX_HEIGHT,
                at is None ==> off == pos,
                at matches Some(i) ==> (i < ns.len() && level as int <= ns[i as int].height as int
                    && all_text(ns.take(i as int)).len() + off == pos),
                level < MAX_HEIGHT ==> self.walk_stopped(at, off, level as int, stick),
            decreases level,
        {
            let l = level - 1;
            loop
                invariant
                    self.inv(),
                    ns == self.nodes@,
                    pos <= self@.len(),
                    !stick ==> pos < self@.len(),
                    l < MAX_HEIGHT,
                    at is None ==> off == pos,
                    at matches Some(i) ==> (i < ns.len() && (l as int) < ns[i as int].height as int
                        && all_text(ns.take(i as int)).len() + off == pos),
                ensures
                    at is None ==> off == pos,
                    at matches Some(i) ==> (i < ns.len() && (l as int) < ns[i as int].height as int
                        && all_text(ns.take(i as int)).len() + off == pos),
                    self.walk_stopped(at, off, l as int, stick),
                decreases ns.len() + 1 - walk_rank(at),
            {
                proof {
                    match at {
                        Option::None => {
                            assert(self.head@[l as int] == head_entry_spec(ns, l as int));
                        },
                        Option::Some(i) => {
                            assert(ns[i as int].skips@[l as int] == entry_spec(ns, i as int, l as int));
                        },
                    }
                }
                let e: SkipEntry = match at {
                    Option::None => self.head[l],
                    Option::Some(i) => self.nodes[i].skips[l],
                };
                let hop = match e.next {
                    Option::Some(_) => if stick {
                        off > e.num_chars
                    } else {
                        off >= e.num_chars
                    },
                    Option::None => false,
                };
                if !hop {
                    break;
                }
                let j = e.next.unwrap();
                proof {
                    match at {
                        Option::None => {
                            lemma_first_at_props(ns, 0, l as int);
                            let jj = first_at(ns, 0, l as int);
                            vstd::std_specs::vec::axiom_spec_len(&self.nodes);
                            assert(all_text(ns).len() <= usize::MAX);
                            assert(jj < ns.len());
                            lemma_all_text_range_le(ns, 0, jj);
                            assert(ns.subrange(0, jj) =~= ns.take(jj));
                            assert(e.num_chars == all_text(ns.take(jj)).len());
                            assert(j as int == jj);
                            assert(all_text(ns.take(j as int)).len() == e.num_chars);
                        },
                        Option::Some(i) => {
                            let ii = i as int;
                            lemma_first_at_props(ns, ii + 1, l as int);
                            let jj = first_at(ns, ii + 1, l as int);
                            vstd::std_specs::vec::axiom_spec_len(&self.nodes);
                            assert(all_text(ns).len() <= usize::MAX);
                            assert(jj < ns.len());
                            lemma_prefix_range(ns, ii, jj);
                            lemma_span_head(ns, ii, jj);
                            lemma_all_text_range_le(ns, ii, jj);
                            assert(all_text(ns.subrange(ii, jj)).len() == ns[ii]@.len() + all_text(
                                ns.subrange(ii + 1, jj),
                            ).len());
                            assert(e.num_chars == ns[ii]@.len() + all_text(
                                ns.subrange(ii + 1, jj),
                            ).len());
                            assert(j as int == jj);
                            assert(all_text(ns.take(jj)).len() == all_text(ns.take(ii)).len()
                                + all_text(ns.subrange(ii, jj)).len());
                            assert(all_text(ns.take(j as int)).len() == all_text(ns.take(ii)).len()
                                + e.num_chars);
                        },
                    }
                }
                off = off - e.num_chars;
                at = Some(j);
            }
            level = l;
        }
        match at {
            Option::None => {
                proof {
                    if ns.len() > 0 {
                        assert(self.head@[0] == head_entry_spec(ns, 0));
                        assert((ns[0].height as int) > 0);
                        assert(first_at(ns, 0, 0) == 0);
                        assert(ns.subrange(0, 0) =~= Seq::<Node>::empty());
                        assert(all_text(ns.subrange(0, 0)) =~= Seq::<char>::empty());
                        assert(head_entry_spec(ns, 0).num_chars == 0);
                        assert(head_entry_spec(ns, 0).next is Some);
                        assert(off == 0);
                    }
                    assert(pos == 0);
                }
                (0, 0)
            },
            Option::Some(i) => {
                proof {
                    let ii = i as int;
                    assert(ns[ii].skips@[0] == entry_spec(ns, ii, 0));
                    lemma_decompose(ns, ii);
                    assert(all_text(ns).len() <= usize::MAX);
                    lemma_first_at_props(ns, ii + 1, 0);
                    let jj = first_at(ns, ii + 1, 0);
                    if ii + 1 < ns.len() {
                        assert((ns[ii + 1].height as int) > 0);
                        assert(jj == ii + 1);
                    } else {
                        assert(jj == ns.len());
                    }
                    assert(ns.subrange(ii + 1, jj) =~= Seq::<Node>::empty());
                    assert(all_text(ns.subrange(ii + 1, jj)) =~= Seq::<char>::empty());
                    assert(entry_spec(ns, ii, 0).num_chars == ns[ii]@.len());
                    if entry_spec(ns, ii, 0).next is None {
                        assert(jj == ns.len());
                        assert(ii + 1 == ns.len());
                        lemma_prefix_step(ns, ii);
                        assert(ns.take(ns.len() as int) =~= ns);
                        assert(all_text(ns.take(ii)).len() + ns[ii]@.len() == self@.len());
                    }
                }
                (i, off)
            },
        }
    }

    /// Locates a character position strictly inside the document, by the
    /// multi-level walk: returns the index of the node containing the
    /// position and the remaining character offset within that node's
    /// content.
    fn find_read(&self, pos: usize) -> (r: (usize, usize))
        requires
            self.inv(),
            pos < self@.len(),
        ensures
            r.0 < self.nodes@.len(),
            all_text(self.nodes@.take(r.0 as int)).len() + r.1 == pos,
            r.1 < self.nodes@[r.0 as int]@.len(),
    {
        self.locate(pos, false)
    }

    /// Locates an insertion point: like [`Self::find_read`], but a position
    /// at the very end of a node's content stays with that node, so an
    /// insertion at the end of the document lands in the last node.
    fn find_insert(&self, pos: usize) -> (r: (usize, usize))
        requires
            self.inv(),
            pos <= self@.len(),
        ensures
            r.0 <= self.nodes@.len(),
            all_text(self.nodes@.take(r.0 as int)).len() + r.1 == pos,
            r.0 < self.nodes@.len() ==> r.1 <= self.nodes@[r.0 as int]@.len(),
            r.0 == self.nodes@.len() ==> r.1 == 0,
    {
        self.locate(pos, true)
    }

    /// Inserts `contents` at character offset `pos`: locates the insertion
    /// point, splices the bytes into the target node when its content budget
    /// allows, and otherwise splits the target's content around the point
    /// and redistributes it together with `contents` over new nodes.
    #[verifier::rlimit(60)]
    pub fn insert(&mut self, pos: usize, contents: &str) -> (r: Result<(), RopeError>)
        requires
            old(self).inv(),
            byte_len(old(self)@) + byte_len(contents@) <= usize::MAX,
        ensures
            final(self).inv(),
            contents@.len() == 0 ==> r is Ok && final(self)@ == old(self)@,
            contents@.len() > 0 && pos <= old(self)@.len() ==> r is Ok && final(self)@ == spliced(
                old(self)@,
                pos as int,
                contents@,
            ),
            contents@.len() > 0 && pos > old(self)@.len() ==> r == Err::<(), RopeError>(
                RopeError::PositionOutOfBounds,
            ) && final(self)@ == old(self)@,
    {
        if contents.is_empty() {
            return Ok(());
        }
        if pos > self.num_chars {
            return Err(RopeError::PositionOutOfBounds);
        }
        proof {
            lemma_byte_len_bounds(old(self)@);
            lemma_byte_len_bounds(contents@);
        }
        let added_chars = contents.unicode_len();
        let added_bytes = contents.len();
        let loc = self.find_insert(pos);
        let i: usize = loc.0;
        let off: usize = loc.1;
        let ghost ns0 = self.nodes@;
        let ghost t0 = self@;
        proof {
            if (i as int) < ns0.len() {
                lemma_decompose(ns0, i as int);
            } else {
                assert(ns0.take(i as int) =~= ns0);
            }
        }
        if i < self.nodes.len() {
            let nb = self.nodes[i].to_str().len();
            let cap = self.nodes[i].capacity();
            let nc = self.node_chars(i);
            proof {
                lemma_byte_len_split(ns0[i as int]@, off as int);
            }
            if added_bytes <= cap - nb {
                // the node absorbs the whole insertion in place
                let h = self.nodes[i].height;
                let snode = self.nodes[i].to_str();
                let mut newc = String::from_str(snode.substring_char(0, off));
                newc.append(contents);
                newc.append(snode.substring_char(off, nc));
                let newnode = Node { height: h, content: newc, skips: Vec::new() };
                proof {
                    assert(ns0[i as int]@.subrange(0, off as int) =~= ns0[i as int]@.take(
                        off as int,
                    ));
                    assert(ns0[i as int]@.subrange(off as int, nc as int) =~= ns0[i as int]@.skip(
                        off as int,
                    ));
                    lemma_byte_len_concat(
                        ns0[i as int]@.take(off as int) + contents@,
                        ns0[i as int]@.skip(off as int),
                    );
                    lemma_byte_len_concat(ns0[i as int]@.take(off as int), contents@);
                    assert(newnode.wf());
                }
                self.nodes[i] = newnode;
                proof {
                    assert forall|j: int|
                        0 <= j < self.nodes@.len() implies (#[trigger] self.nodes@[j]).wf() by {
                        if j != i as int {
                            assert(self.nodes@[j] == ns0[j]);
                        }
                    }
                    lemma_decompose(self.nodes@, i as int);
                    assert(self.nodes@.take(i as int) =~= ns0.take(i as int));
                    assert(self.nodes@.skip(i as int + 1) =~= ns0.skip(i as int + 1));
                    assert(t0.take(pos as int) =~= all_text(ns0.take(i as int)) + ns0[i as int]@.take(
                        off as int,
                    ));
                    assert(t0.skip(pos as int) =~= ns0[i as int]@.skip(off as int) + all_text(
                        ns0.skip(i as int + 1),
                    ));
                    assert(self@ =~= spliced(t0, pos as int, contents@));
                    lemma_byte_len_split(t0, pos as int);
                    lemma_byte_len_concat(t0.take(pos as int) + contents@, t0.skip(pos as int));
                    lemma_byte_len_concat(t0.take(pos as int), contents@);
                    assert(self@.len() == t0.len() + contents@.len());
                }
                self.head = rebuild_index(&mut self.nodes);
                proof {
                    assert(self@ == spliced(t0, pos as int, contents@));
                }
                self.num_chars = self.num_chars + added_chars;
                self.num_bytes = self.num_bytes + added_bytes;
                return Ok(());
            }
            // split: carve the node's content around the insertion point and
            // redistribute it together with `contents` over new nodes
            let snode = self.nodes[i].to_str();
            let mut combined = String::from_str(snode.substring_char(0, off));
            combined.append(contents);
            combined.append(snode.substring_char(off, nc));
            let _ = self.nodes.remove(i);
            proof {
                assert(ns0[i as int]@.subrange(0, off as int) =~= ns0[i as int]@.take(off as int));
                assert(ns0[i as int]@.subrange(off as int, nc as int) =~= ns0[i as int]@.skip(
                    off as int,
                ));
                assert forall|j: int|
                    0 <= j < self.nodes@.len() implies (#[trigger] self.nodes@[j]).wf() by {
                    if j < i as int {
                        assert(self.nodes@[j] == ns0[j]);
                    } else {
                        assert(self.nodes@[j] == ns0[j + 1]);
                    }
                }
                assert(self.nodes@.take(i as int) =~= ns0.take(i as int));
                assert(self.nodes@.skip(i as int) =~= ns0.skip(i as int + 1));
            }
            insert_chunks(&mut self.nodes, i, combined.as_str());
            proof {
                assert(t0.take(pos as int) =~= all_text(ns0.take(i as int)) + ns0[i as int]@.take(
                    off as int,
                ));
                assert(t0.skip(pos as int) =~= ns0[i as int]@.skip(off as int) + all_text(
                    ns0.skip(i as int + 1),
                ));
                assert(self@ =~= spliced(t0, pos as int, contents@));
                lemma_byte_len_split(t0, pos as int);
                lemma_byte_len_concat(t0.take(pos as int) + contents@, t0.skip(pos as int));
                lemma_byte_len_concat(t0.take(pos as int), contents@);
                assert(self@.len() == t0.len() + contents@.len());
            }
        } else {
            // the chain holds no node able to receive the position: the new
            // content becomes a fresh run of nodes at the end of the chain
            proof {
                assert(ns0.skip(i as int) =~= Seq::<Node>::empty());
                assert(all_text(ns0.skip(i as int)) =~= Seq::<char>::empty());
            }
            insert_chunks(&mut self.nodes, i, contents);
            proof {
                assert(pos == t0.len());
                assert(t0.take(pos as int) =~= t0);
                assert(t0.skip(pos as int) =~= Seq::<char>::empty());
                assert(self@ =~= spliced(t0, pos as int, contents@));
                lemma_byte_len_split(t0, pos as int);
                lemma_byte_len_concat(t0.take(pos as int) + contents@, t0.skip(pos as int));
                lemma_byte_len_concat(t0.take(pos as int), contents@);
                assert(self@.len() == t0.len() + contents@.len());
            }
        }
        self.head = rebuild_index(&mut self.nodes);
        proof {
            assert(self@ == spliced(t0, pos as int, contents@));
        }
        self.num_chars = self.num_chars + added_chars;
        self.num_bytes = self.num_bytes + added_bytes;
        Ok(())
    }

    /// Deletes `len` characters starting at character offset `pos`: locates
    /// the start, then removes content moving forward, unlinking any node
    /// whose content becomes empty and contracting the byte range of a node
    /// that keeps partial content.  A deletion running past the end of the
    /// document is clamped, but a starting position past the end is an
    /// error, whatever the length.
    #[verifier::rlimit(100)]
    pub fn del(&mut self, pos: usize, len: usize) -> (r: Result<(), RopeError>)
        requires
            old(self).inv(),
        ensures
            final(self).inv(),
            pos > old(self)@.len() ==> r == Err::<(), RopeError>(RopeError::PositionOutOfBounds)
                && final(self)@ == old(self)@,
            len == 0 && pos <= old(self)@.len() ==> r is Ok && final(self)@ == old(self)@,
            len > 0 && pos <= old(self)@.len() ==> r is Ok && final(self)@ == removed(
                old(self)@,
                pos as int,
                len as int,
            ),
    {
        if pos > self.num_chars {
            return Err(RopeError::PositionOutOfBounds);
        }
        if len == 0 {
            return Ok(());
        }
        let n = if len > self.num_chars - pos {
            self.num_chars - pos
        } else {
            len
        };
        let ghost t0 = self@;
        proof {
            assert(clamped(t0, pos as int, len as int) == n);
        }
        if n == 0 {
            proof {
                assert(t0.take(pos as int) =~= t0);
                assert(removed(t0, pos as int, len as int) =~= t0);
            }
            return Ok(());
        }
        let loc = self.find_read(pos);
        let mut i: usize = loc.0;
        let mut off: usize = loc.1;
        let mut done: usize = 0;
        let mut freed: usize = 0;
        proof {
            assert(t0.skip(pos as int + 0) =~= t0.skip(pos as int));
            lemma_all_text_split(self.nodes@, i as int);
            assert(all_text(self.nodes@) =~= t0.take(pos as int) + t0.skip(pos as int));
            assert(t0.subrange(pos as int, pos as int) =~= Seq::<char>::empty());
        }
        while done < n
            invariant
                pos + n <= t0.len(),
                done <= n,
                self.num_chars == t0.len(),
                self.num_bytes == byte_len(t0),
                forall|j: int| 0 <= j < self.nodes@.len() ==> (#[trigger] self.nodes@[j]).wf(),
                all_text(self.nodes@) == t0.take(pos as int) + t0.skip(pos as int + done as int),
                freed == byte_len(t0.subrange(pos as int, pos as int + done as int)),
                i <= self.nodes@.len(),
                all_text(self.nodes@.take(i as int)).len() + off == pos,
                i < self.nodes@.len() ==> off < self.nodes@[i as int]@.len(),
                i == self.nodes@.len() ==> off == 0,
            decreases n - done,
        {
            let ghost nsc = self.nodes@;
            let ghost tc = all_text(self.nodes@);
            proof {
                lemma_all_text_split(nsc, i as int);
                if i as int == nsc.len() {
                    assert(all_text(nsc.skip(i as int)).len() == 0);
                    assert(false);
                }
            }
            let nc = self.node_chars(i);
            let avail = nc - off;
            let want = n - done;
            let k = if want < avail {
                want
            } else {
                avail
            };
            let ghost u = all_text(nsc.take(i as int));
            let ghost v = nsc[i as int]@;
            let ghost w = all_text(nsc.skip(i as int + 1));
            proof {
                lemma_decompose(nsc, i as int);
                assert(tc == u + v + w);
                lemma_concat3_split(u, v, w, off as int);
                lemma_concat3_split(u, v, w, off as int + k as int);
                // relate the current text to the original document
                lemma_concat2_split(t0.take(pos as int), t0.skip(pos as int + done as int), 0);
                assert(t0.skip(pos as int + done as int).take(0) =~= Seq::<char>::empty());
                assert((t0.take(pos as int) + Seq::<char>::empty()) =~= t0.take(pos as int));
                assert(tc.take(pos as int) == t0.take(pos as int));
                assert(tc.skip(pos as int) == t0.skip(pos as int + done as int));
                lemma_concat2_split(
                    t0.take(pos as int),
                    t0.skip(pos as int + done as int),
                    k as int,
                );
                assert(t0.skip(pos as int + done as int).skip(k as int) =~= t0.skip(
                    pos as int + done as int + k as int,
                ));
                // the characters deleted this round, in both views
                assert(tc.subrange(pos as int, pos as int + k as int) =~= tc.skip(pos as int).take(
                    k as int,
                ));
                assert((v.skip(off as int) + w).take(k as int) =~= v.skip(off as int).take(k as int));
                assert(v.skip(off as int).take(k as int) =~= v.subrange(
                    off as int,
                    off as int + k as int,
                ));
                assert(t0.skip(pos as int + done as int).take(k as int) =~= t0.subrange(
                    pos as int + done as int,
                    pos as int + done as int + k as int,
                ));
                assert(v.subrange(off as int, off as int + k as int) == t0.subrange(
                    pos as int + done as int,
                    pos as int + done as int + k as int,
                ));
                // byte accounting for the deleted characters
                lemma_byte_len_split(v, off as int);
                lemma_byte_len_split(v.skip(off as int), k as int);
                assert(v.skip(off as int).skip(k as int) =~= v.skip(off as int + k as int));
                lemma_byte_len_concat(
                    t0.subrange(pos as int, pos as int + done as int),
                    t0.subrange(pos as int + done as int, pos as int + done as int + k as int),
                );
                assert(t0.subrange(pos as int, pos as int + done as int + k as int) =~= t0.subrange(
                    pos as int,
                    pos as int + done as int,
                ) + t0.subrange(pos as int + done as int, pos as int + done as int + k as int));
                lemma_byte_len_subrange_le(t0, pos as int, pos as int + done as int + k as int);
            }
            if off == 0 && k == nc {
                // the node's content is wholly deleted: unlink it; the
                // index entries spanning it are re-derived afterwards
                let gone = self.nodes.remove(i);
                freed = freed + gone.to_str().len();
                proof {
                    assert(gone == nsc[i as int]);
                    assert forall|j: int|
                        0 <= j < self.nodes@.len() implies (#[trigger] self.nodes@[j]).wf() by {
                        if j < i as int {
                            assert(self.nodes@[j] == nsc[j]);
                        } else {
                            assert(self.nodes@[j] == nsc[j + 1]);
                        }
                    }
                    assert(self.nodes@.take(i as int) =~= nsc.take(i as int));
                    assert(self.nodes@.skip(i as int) =~= nsc.skip(i as int + 1));
                    lemma_all_text_split(self.nodes@, i as int);
                    assert(all_text(self.nodes@) == u + w);
                    // off == 0 and k == nc, so the prefix is exactly `u` and
                    // the suffix after the deleted span is exactly `w`
                    assert((u + v.take(0)) =~= u);
                    assert(u == t0.take(pos as int));
                    assert(v.skip(off as int + k as int) =~= Seq::<char>::empty());
                    assert((v.skip(off as int + k as int) + w) =~= w);
                    assert(w == t0.skip(pos as int + done as int + k as int));
                }
            } else {
                // the node keeps partial content: contract its byte range
                let h = self.nodes[i].height;
                let snode = self.nodes[i].to_str();
                let oldb = snode.len();
                let mut newc = String::from_str(snode.substring_char(0, off));
                newc.append(snode.substring_char(off + k, nc));
                let newb = newc.as_str().len();
                let newnode = Node { height: h, content: newc, skips: Vec::new() };
                proof {
                    assert(nsc[i as int]@.subrange(0, off as int) =~= nsc[i as int]@.take(
                        off as int,
                    ));
                    assert(nsc[i as int]@.subrange(off as int + k as int, nc as int)
                        =~= nsc[i as int]@.skip(off as int + k as int));
                    lemma_byte_len_concat(
                        nsc[i as int]@.take(off as int),
                        nsc[i as int]@.skip(off as int + k as int),
                    );
                    assert(newnode.wf());
                }
                self.nodes[i] = newnode;
                freed = freed + (oldb - newb);
                proof {
                    assert forall|j: int|
                        0 <= j < self.nodes@.len() implies (#[trigger] self.nodes@[j]).wf() by {
                        if j != i as int {
                            assert(self.nodes@[j] == nsc[j]);
                        }
                    }
                    lemma_decompose(self.nodes@, i as int);
                    assert(self.nodes@.take(i as int) =~= nsc.take(i as int));
                    assert(self.nodes@.skip(i as int + 1) =~= nsc.skip(i as int + 1));
                    assert(all_text(self.nodes@) == u + (v.take(off as int) + v.skip(
                        off as int + k as int,
                    )) + w);
                    assert((u + v.take(off as int)) == t0.take(pos as int));
                    assert((v.skip(off as int + k as int) + w) == t0.skip(
                        pos as int + done as int + k as int,
                    ));
                    assert(all_text(self.nodes@) =~= (u + v.take(off as int)) + (v.skip(
                        off as int + k as int,
                    ) + w));
                }
                if k == avail {
                    proof {
                        vstd::std_specs::vec::axiom_spec_len(&self.nodes);
                        lemma_prefix_step(self.nodes@, i as int);
                    }
                    i = i + 1;
                    off = 0;
                }
            }
            done = done + k;
        }
        proof {
            lemma_byte_len_subrange_le(t0, pos as int, pos as int + n as int);
        }
        self.num_chars = self.num_chars - n;
        self.num_bytes = self.num_bytes - freed;
        proof {
            lemma_byte_len_split(t0, pos as int);
            lemma_byte_len_split(t0.skip(pos as int), n as int);
            assert(t0.skip(pos as int).take(n as int) =~= t0.subrange(
                pos as int,
                pos as int + n as int,
            ));
            assert(t0.skip(pos as int).skip(n as int) =~= t0.skip(pos as int + n as int));
            lemma_byte_len_concat(t0.take(pos as int), t0.skip(pos as int + n as int));
            assert(self@ =~= removed(t0, pos as int, len as int));
        }
        self.head = rebuild_index(&mut self.nodes);
        proof {
            assert(self@ == removed(t0, pos as int, len as int));
        }
        Ok(())
    }

    /// Returns the text of the character range `[pos, pos + len)`: locates
    /// the start, then walks the chain forward taking partial or whole node
    /// contents until `len` characters have been collected.
    pub fn slice(&self, pos: usize, len: usize) -> (r: Result<String, RopeError>)
        requires
            self.inv(),
        ensures
            pos + len <= self@.len() ==> (r matches Ok(s) && s@ == self@.subrange(
                pos as int,
                pos + len,
            )),
            pos + len > self@.len() ==> r == Err::<String, RopeError>(
                RopeError::PositionOutOfBounds,
            ),
    {
        if pos > self.num_chars || len > self.num_chars - pos {
            return Err(RopeError::PositionOutOfBounds);
        }
        let mut out = String::new();
        if len == 0 {
            proof {
                assert(self@.subrange(pos as int, pos as int) =~= Seq::<char>::empty());
            }
            return Ok(out);
        }
        let ghost t0 = self@;
        let loc = self.find_read(pos);
        let mut i: usize = loc.0;
        let mut off: usize = loc.1;
        let mut got: usize = 0;
        proof {
            assert(t0.subrange(pos as int, pos as int) =~= Seq::<char>::empty());
        }
        while got < len
            invariant
                self.inv(),
                t0 == self@,
                pos + len <= t0.len(),
                got <= len,
                out@ == t0.subrange(pos as int, pos as int + got as int),
                i <= self.nodes@.len(),
                all_text(self.nodes@.take(i as int)).len() + off == pos + got,
                i < self.nodes@.len() ==> off < self.nodes@[i as int]@.len(),
                i == self.nodes@.len() ==> off == 0,
            decreases len - got,
        {
            proof {
                lemma_all_text_split(self.nodes@, i as int);
                if i as int == self.nodes@.len() {
                    assert(all_text(self.nodes@.skip(i as int)).len() == 0);
                    assert(false);
                }
            }
            let nc = self.node_chars(i);
            let avail = nc - off;
            let want = len - got;
            let k = if want < avail {
                want
            } else {
                avail
            };
            let ghost u = all_text(self.nodes@.take(i as int));
            let ghost v = self.nodes@[i as int]@;
            let ghost w = all_text(self.nodes@.skip(i as int + 1));
            proof {
                lemma_decompose(self.nodes@, i as int);
                assert(t0 == u + v + w);
                lemma_concat3_split(u, v, w, off as int);
                assert(t0.subrange(
                    pos as int + got as int,
                    pos as int + got as int + k as int,
                ) =~= t0.skip(pos as int + got as int).take(k as int));
                assert((v.skip(off as int) + w).take(k as int) =~= v.skip(off as int).take(k as int));
                assert(v.skip(off as int).take(k as int) =~= v.subrange(
                    off as int,
                    off as int + k as int,
                ));
            }
            let snode = self.nodes[i].to_str();
            out.append(snode.substring_char(off, off + k));
            proof {
                assert(out@ =~= t0.subrange(pos as int, pos as int + got as int + k as int));
            }
            got = got + k;
            if k == avail {
                proof {
                    vstd::std_specs::vec::axiom_spec_len(&self.nodes);
                    lemma_prefix_step(self.nodes@, i as int);
                }
                i = i + 1;
                off = 0;
            } else {
                off = off + k;
            }
        }
        Ok(out)
    }

    /// A document holding exactly the given text.
    pub fn new_from_str(s: &str) -> (r: JumpRope)
        requires
            byte_len(s@) <= usize::MAX,
        ensures
            r.inv(),
            r@ == s@,
    {
        let mut r = JumpRope::new();
        let outcome = r.insert(0, s);
        proof {
            assert(outcome is Ok);
            if s@.len() > 0 {
                assert(Seq::<char>::empty().take(0) =~= Seq::<char>::empty());
                assert(spliced(Seq::<char>::empty(), 0, s@) =~= s@);
            }
        }
        r
    }

    /// Number of nodes in the chain.
    pub closed spec fn node_count(&self) -> int {
        self.nodes@.len() as int
    }

    /// Content of node `i`, as a character sequence.
    pub closed spec fn node_text(&self, i: int) -> Seq<char> {
        self.nodes@[i]@
    }

    /// UTF-8 content bytes of node `i`.
    pub closed spec fn node_bytes(&self, i: int) -> Seq<u8> {
        encode_utf8(self.nodes@[i]@)
    }

    /// The content bytes of the whole chain, node by node, in chain order.
    pub closed spec fn chain_bytes(&self) -> Seq<u8> {
        chain_bytes_rec(self.nodes@)
    }

    /// The stored character total.
    pub closed spec fn char_count(&self) -> int {
        self.num_chars as int
    }

    /// The stored byte total.
    pub closed spec fn byte_count(&self) -> int {
        self.num_bytes as int
    }
}

/// The content bytes of a run of nodes, in chain order.
spec fn chain_bytes_rec(ns: Seq<Node>) -> Seq<u8>
    decreases ns.len(),
{
    if ns.len() == 0 {
        Seq::empty()
    } else {
        encode_utf8(ns[0]@) + chain_bytes_rec(ns.drop_first())
    }
}

proof fn lemma_chain_bytes_rec(ns: Seq<Node>)
    ensures
        encode_utf8(all_text(ns)) == chain_bytes_rec(ns),
    decreases ns.len(),
{
    if ns.len() == 0 {
        assert(all_text(ns) =~= Seq::<char>::empty());
        assert(encode_utf8(all_text(ns)) =~= Seq::<u8>::empty());
    } else {
        lemma_encode_utf8_concat(ns[0]@, all_text(ns.drop_first()));
        lemma_chain_bytes_rec(ns.drop_first());
    }
}

/// Length consistency: in any consistent document the stored character total
/// is the character count of the document and the stored byte total is the
/// byte length of its UTF-8 encoding — so `char_len` and `len` agree with
/// what `to_string` serializes, after any sequence of successful operations.
pub proof fn lemma_length_consistency(r: &JumpRope)
    requires
        r.inv(),
    ensures
        r.char_count() == r@.len(),
        r.byte_count() == byte_len(r@),
{
}

/// No boundary corruption: each node's content bytes are valid UTF-8 on
/// their own, decode exactly to that node's characters, and concatenate to
/// the UTF-8 encoding of the whole document — no node boundary ever falls
/// inside a multi-byte encoding.
pub proof fn lemma_no_boundary_corruption(r: &JumpRope)
    requires
        r.inv(),
    ensures
        forall|i: int| 0 <= i < r.node_count() ==> valid_utf8(#[trigger] r.node_bytes(i)),
        forall|i: int|
            0 <= i < r.node_count() ==> decode_utf8(#[trigger] r.node_bytes(i)) == r.node_text(i),
        encode_utf8(r@) == r.chain_bytes(),
{
    assert forall|i: int| 0 <= i < r.node_count() implies valid_utf8(
        #[trigger] r.node_bytes(i),
    ) && decode_utf8(r.node_bytes(i)) == r.node_text(i) by {
        encode_utf8_valid_utf8(r.node_text(i));
        encode_utf8_decode_utf8(r.node_text(i));
    }
    lemma_chain_bytes_rec(r.nodes@);
}

impl Rope for JumpRope {
    open spec fn wf(&self) -> bool {
        self.inv()
    }

    open spec fn text(&self) -> Seq<char> {
        self@
    }

    fn new() -> Self {
        JumpRope::new()
    }

    fn insert(&mut self, pos: usize, contents: &str) -> Result<(), RopeError> {
        JumpRope::insert(self, pos, contents)
    }

    fn del(&mut self, pos: usize, len: usize) -> Result<(), RopeError> {
        JumpRope::del(self, pos, len)
    }

    fn slice(&self, pos: usize, len: usize) -> Result<String, RopeError> {
        JumpRope::slice(self, pos, len)
    }

    fn to_string(&self) -> String {
        JumpRope::to_string(self)
    }

    fn len(&self) -> usize {
        JumpRope::len(self)
    }

    fn char_len(&self) -> usize {
        JumpRope::char_len(self)
    }
}

/// Distributes `s` over freshly created nodes inserted at chain position
/// `at`: each new node gets an independently chosen random height and as many
/// characters as surely fit the content budget that height leaves free.
fn insert_chunks(nodes: &mut Vec<Node>, at: usize, s: &str)
    requires
        at <= old(nodes)@.len(),
        forall|j: int| 0 <= j < old(nodes)@.len() ==> (#[trigger] old(nodes)@[j]).wf(),
        s@.len() >= 1,
    ensures
        forall|j: int| 0 <= j < final(nodes)@.len() ==> (#[trigger] final(nodes)@[j]).wf(),
        all_text(final(nodes)@) == all_text(old(nodes)@.take(at as int)) + s@ + all_text(
            old(nodes)@.skip(at as int),
        ),
{
    let total = s.unicode_len();
    let mut start: usize = 0;
    let mut idx: usize = at;
    proof {
        assert(s@.take(0) =~= Seq::<char>::empty());
        assert(all_text(nodes@.take(at as int)) + s@.take(0) =~= all_text(nodes@.take(at as int)));
    }
    while start < total
        invariant
            total == s@.len(),
            start <= total,
            at <= idx,
            idx <= nodes@.len(),
            forall|j: int| 0 <= j < nodes@.len() ==> (#[trigger] nodes@[j]).wf(),
            all_text(nodes@.take(idx as int)) == all_text(old(nodes)@.take(at as int))
                + s@.take(start as int),
            nodes@.skip(idx as int) == old(nodes)@.skip(at as int),
        decreases total - start,
    {
        let ghost pre = nodes@;
        let h = content_height();
        // four bytes is the widest UTF-8 encoding, so this many characters
        // surely fit the content budget of a node of height `h`
        let step = (MAX_HEIGHT - h as usize) * 4;
        let remaining = total - start;
        let take_n = if remaining < step {
            remaining
        } else {
            step
        };
        let end = start + take_n;
        let chunk = s.substring_char(start, end);
        proof {
            lemma_byte_len_bounds(chunk@);
        }
        let node = Node { height: h, content: String::from_str(chunk), skips: Vec::new() };
        proof {
            assert(node.wf());
        }
        nodes.insert(idx, node);
        proof {
            vstd::std_specs::vec::axiom_spec_len(nodes);
            assert(idx < nodes@.len());
            assert forall|j: int| 0 <= j < nodes@.len() implies (#[trigger] nodes@[j]).wf() by {
                if j < idx as int {
                    assert(nodes@[j] == pre[j]);
                } else if j > idx as int {
                    assert(nodes@[j] == pre[j - 1]);
                }
            }
            assert(nodes@.take(idx as int) =~= pre.take(idx as int));
            assert(nodes@[idx as int] == node);
            lemma_prefix_step(nodes@, idx as int);
            assert(s@.take(end as int) =~= s@.take(start as int) + chunk@);
            assert(nodes@.skip(idx as int + 1) =~= pre.skip(idx as int));
        }
        start = end;
        idx = idx + 1;
    }
    proof {
        lemma_all_text_split(nodes@, idx as int);
        assert(s@.take(total as int) =~= s@);
    }
}

} // verus!
