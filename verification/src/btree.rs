//! A B-tree from indexed values to primary keys, in the image of a file.
//!
//! The image starts with the offset of the root node (8 bytes, 0 for an empty
//! tree). A node is `tag(1)|count(4)|keys` and then, in a leaf (tag 0), the
//! values, or else `count + 1` offsets of children. Keys and values are
//! length-prefixed, every number is big-endian. A change writes the nodes on
//! the path to it anew at the end of the image, children before their parents,
//! and then the root pointer: what was there before stays readable.

use vstd::prelude::*;

use crate::be;
use crate::be::{
    copy_range, get_u32, get_u64, put_fields, put_u32, put_u64, read_fields, same_bytes,
};
use crate::order;
use crate::order::{compare, Rank};

verus! {

/// A node with this many keys is split.
pub const ORDER: usize = 64;

/// Why an image is no tree.
#[derive(Debug, Clone, Copy, PartialEq, Eq, Structural)]
pub enum TreeError {
    /// The image ends inside a node.
    Truncated,
    /// A child does not lie before its parent.
    Misplaced,
}

/// What a node says.
pub enum NodeView {
    Internal { keys: Seq<Seq<u8>>, children: Seq<u64> },
    Leaf { keys: Seq<Seq<u8>>, values: Seq<Seq<u8>> },
}

/// Offsets, one behind the other.
pub open spec fn offsets(cs: Seq<u64>) -> Seq<u8>
    decreases cs.len(),
{
    if cs.len() == 0 {
        Seq::empty()
    } else {
        offsets(cs.drop_last()) + be::be64(cs.last())
    }
}

/// The `count` offsets from `pos` on.
pub open spec fn offsets_at(img: Seq<u8>, pos: int, count: nat) -> Option<Seq<u64>>
    decreases count,
{
    if count == 0 {
        Some(Seq::empty())
    } else {
        match offsets_at(img, pos, (count - 1) as nat) {
            None => None,
            Some(cs) => {
                let at = pos + 8 * (count - 1);
                if at + 8 > img.len() {
                    None
                } else {
                    Some(cs.push(be::u64_at(img, at)))
                }
            },
        }
    }
}

/// The bytes of a node.
pub open spec fn node_bytes(n: NodeView) -> Seq<u8> {
    match n {
        NodeView::Leaf { keys, values } => seq![0u8] + (be::be32(keys.len() as u32) + (be::fields(
            keys,
        ) + be::fields(values))),
        NodeView::Internal { keys, children } => seq![1u8] + (be::be32(keys.len() as u32) + (
        be::fields(keys) + offsets(children))),
    }
}

/// The node at `off`; nothing where the image ends inside it.
pub open spec fn node_at(img: Seq<u8>, off: int) -> Option<NodeView> {
    if off + 5 > img.len() {
        None
    } else {
        let count = be::u32_at(img, off + 1) as nat;
        match be::fields_at(img, off + 5, count) {
            None => None,
            Some((keys, mid)) => if img[off] == 0 {
                match be::fields_at(img, mid, count) {
                    None => None,
                    Some((values, _)) => Some(NodeView::Leaf { keys, values }),
                }
            } else {
                match offsets_at(img, mid, count + 1) {
                    None => None,
                    Some(children) => Some(NodeView::Internal { keys, children }),
                }
            },
        }
    }
}

/// The number of keys, from the front, that `key` does not come before.
pub open spec fn slot(keys: Seq<Seq<u8>>, key: Seq<u8>) -> int
    decreases keys.len(),
{
    if keys.len() == 0 {
        0
    } else if order::before(key, keys.last()) {
        slot(keys.drop_last(), key)
    } else {
        keys.len() as int
    }
}

/// What a leaf holds for `key`.
pub open spec fn leaf_value(keys: Seq<Seq<u8>>, values: Seq<Seq<u8>>, key: Seq<u8>) -> Option<
    Seq<u8>,
> {
    let p = slot(keys, key);
    if 0 < p && keys[p - 1] == key {
        Some(values[p - 1])
    } else {
        None
    }
}

/// What the node `n`, whose children lie before `bound`, holds for `key`.
pub open spec fn node_lookup(img: Seq<u8>, n: NodeView, bound: nat, key: Seq<u8>) -> Result<
    Option<Seq<u8>>,
    TreeError,
>
    decreases bound, 0nat,
{
    match n {
        NodeView::Leaf { keys, values } => Ok(leaf_value(keys, values, key)),
        NodeView::Internal { keys, children } => {
            let child = children[slot(keys, key)];
            if child >= bound {
                Err(TreeError::Misplaced)
            } else {
                lookup(img, child as nat, key)
            }
        },
    }
}

/// What the tree whose root is at `off` holds for `key`.
pub open spec fn lookup(img: Seq<u8>, off: nat, key: Seq<u8>) -> Result<
    Option<Seq<u8>>,
    TreeError,
>
    decreases off, 1nat,
{
    match node_at(img, off as int) {
        None => Err(TreeError::Truncated),
        Some(n) => node_lookup(img, n, off, key),
    }
}

/// The pairs of a leaf.
pub open spec fn pairs(keys: Seq<Seq<u8>>, values: Seq<Seq<u8>>) -> Seq<(Seq<u8>, Seq<u8>)> {
    Seq::new(keys.len(), |i: int| (keys[i], values[i]))
}

/// The pairs of the tree whose root is at `off`, in the order of its leaves.
pub open spec fn listing(img: Seq<u8>, off: nat) -> Result<Seq<(Seq<u8>, Seq<u8>)>, TreeError>
    decreases off, 1nat, 0nat,
{
    match node_at(img, off as int) {
        None => Err(TreeError::Truncated),
        Some(NodeView::Leaf { keys, values }) => Ok(pairs(keys, values)),
        Some(NodeView::Internal { keys, children }) => listing_of(img, off, children),
    }
}

/// The pairs of several children of the node at `off`.
pub open spec fn listing_of(img: Seq<u8>, off: nat, children: Seq<u64>) -> Result<
    Seq<(Seq<u8>, Seq<u8>)>,
    TreeError,
>
    decreases off, 0nat, children.len(),
{
    if children.len() == 0 {
        Ok(Seq::empty())
    } else {
        match listing_of(img, off, children.drop_last()) {
            Err(e) => Err(e),
            Ok(head) => if children.last() >= off {
                Err(TreeError::Misplaced)
            } else {
                match listing(img, children.last() as nat) {
                    Err(e) => Err(e),
                    Ok(tail) => Ok(head + tail),
                }
            },
        }
    }
}

/// Whether keys ascend.
pub open spec fn ascending(keys: Seq<Seq<u8>>) -> bool {
    forall|i: int, j: int|
        0 <= i < j < keys.len() ==> order::before(#[trigger] keys[i], #[trigger] keys[j])
}

/// Whether `k` lies at or above `lo` and below `hi`.
pub open spec fn within(k: Seq<u8>, lo: Option<Seq<u8>>, hi: Option<Seq<u8>>) -> bool {
    &&& lo matches Some(l) ==> !order::before(k, l)
    &&& hi matches Some(h) ==> order::before(k, h)
}

/// Whether `k` lies above `lo` and below `hi`.
pub open spec fn strictly_within(k: Seq<u8>, lo: Option<Seq<u8>>, hi: Option<Seq<u8>>) -> bool {
    &&& lo matches Some(l) ==> order::before(l, k)
    &&& hi matches Some(h) ==> order::before(k, h)
}

/// The lower bound of child `i`.
pub open spec fn lower(keys: Seq<Seq<u8>>, lo: Option<Seq<u8>>, i: int) -> Option<Seq<u8>> {
    if i == 0 {
        lo
    } else {
        Some(keys[i - 1])
    }
}

/// The upper bound of child `i`.
pub open spec fn upper(keys: Seq<Seq<u8>>, hi: Option<Seq<u8>>, i: int) -> Option<Seq<u8>> {
    if i == keys.len() {
        hi
    } else {
        Some(keys[i])
    }
}

/// The keys of a node.
pub open spec fn keys_of(n: NodeView) -> Seq<Seq<u8>> {
    match n {
        NodeView::Leaf { keys, .. } => keys,
        NodeView::Internal { keys, .. } => keys,
    }
}

/// Whether the length fields of a node can hold its lengths.
pub open spec fn node_fits(n: NodeView) -> bool {
    match n {
        NodeView::Leaf { keys, values } => {
            &&& keys.len() == values.len()
            &&& keys.len() <= u32::MAX
            &&& forall|i: int| 0 <= i < keys.len() ==> (#[trigger] keys[i]).len() <= u32::MAX
            &&& forall|i: int| 0 <= i < values.len() ==> (#[trigger] values[i]).len() <= u32::MAX
        },
        NodeView::Internal { keys, children } => {
            &&& children.len() == keys.len() + 1
            &&& keys.len() <= u32::MAX
            &&& forall|i: int| 0 <= i < keys.len() ==> (#[trigger] keys[i]).len() <= u32::MAX
        },
    }
}

/// Whether the node `n` is the root of a search tree, all of whose keys lie
/// between the bounds and whose children lie before `bound`.
pub open spec fn sound(
    img: Seq<u8>,
    n: NodeView,
    bound: nat,
    lo: Option<Seq<u8>>,
    hi: Option<Seq<u8>>,
) -> bool
    decreases bound, 0nat,
{
    &&& node_fits(n)
    &&& ascending(keys_of(n))
    &&& match n {
        NodeView::Leaf { keys, values } => forall|i: int|
            0 <= i < keys.len() ==> within(#[trigger] keys[i], lo, hi),
        NodeView::Internal { keys, children } => {
            &&& forall|i: int| 0 <= i < keys.len() ==> strictly_within(#[trigger] keys[i], lo, hi)
            &&& forall|i: int|
                0 <= i < children.len() ==> (#[trigger] children[i]) < bound && tree(
                    img,
                    children[i] as nat,
                    lower(keys, lo, i),
                    upper(keys, hi, i),
                )
        },
    }
}

/// Whether a search tree stands at `off`, all of whose keys lie between the
/// bounds, every child before its parent and no node with too many keys.
pub open spec fn tree(img: Seq<u8>, off: nat, lo: Option<Seq<u8>>, hi: Option<Seq<u8>>) -> bool
    decreases off, 1nat,
{
    match node_at(img, off as int) {
        None => false,
        Some(n) => keys_of(n).len() < ORDER && sound(img, n, off, lo, hi),
    }
}

#[derive(Debug)]
enum Node {
    Internal { keys: Vec<Vec<u8>>, children: Vec<u64> },
    Leaf { keys: Vec<Vec<u8>>, values: Vec<Vec<u8>> },
}

impl View for Node {
    type V = NodeView;

    closed spec fn view(&self) -> NodeView {
        match *self {
            Node::Internal { keys, children } => NodeView::Internal {
                keys: be::contents(keys@),
                children: children@,
            },
            Node::Leaf { keys, values } => NodeView::Leaf {
                keys: be::contents(keys@),
                values: be::contents(values@),
            },
        }
    }
}

proof fn lemma_offsets_none(img: Seq<u8>, pos: int, few: nat, many: nat)
    requires
        few <= many,
        offsets_at(img, pos, few) is None,
    ensures
        offsets_at(img, pos, many) is None,
    decreases many - few,
{
    if few < many {
        lemma_offsets_none(img, pos, few + 1, many);
    }
}

fn read_offsets(img: &[u8], pos: usize, count: u64) -> (r: Option<Vec<u64>>)
    requires
        pos <= img@.len(),
    ensures
        match r {
            Some(cs) => offsets_at(img@, pos as int, count as nat) == Some(cs@),
            None => offsets_at(img@, pos as int, count as nat) is None,
        },
{
    let mut cs: Vec<u64> = Vec::new();
    let mut cursor: usize = pos;
    let mut i: u64 = 0;
    while i < count
        invariant
            i <= count,
            pos <= cursor <= img@.len(),
            cursor == pos + 8 * i,
            offsets_at(img@, pos as int, i as nat) == Some(cs@),
        decreases count - i,
    {
        if img.len() - cursor < 8 {
            proof {
                assert(offsets_at(img@, pos as int, (i + 1) as nat) is None);
                lemma_offsets_none(img@, pos as int, (i + 1) as nat, count as nat);
            }
            return None;
        }
        cs.push(get_u64(img, cursor));
        cursor = cursor + 8;
        i += 1;
    }
    Some(cs)
}

fn read_node(img: &[u8], off: u64) -> (r: Option<Node>)
    ensures
        match r {
            Some(n) => node_at(img@, off as int) == Some(n@),
            None => node_at(img@, off as int) is None,
        },
{
    if off > img.len() as u64 || img.len() as u64 - off < 5 {
        return None;
    }
    let at: usize = off as usize;
    let count: u32 = get_u32(img, at + 1);
    match read_fields(img, at + 5, count) {
        None => None,
        Some((keys, mid)) => {
            if img[at] == 0 {
                match read_fields(img, mid, count) {
                    None => None,
                    Some((values, _)) => Some(Node::Leaf { keys, values }),
                }
            } else {
                match read_offsets(img, mid, count as u64 + 1) {
                    None => None,
                    Some(children) => Some(Node::Internal { keys, children }),
                }
            }
        },
    }
}

fn put_offsets(out: &mut Vec<u8>, cs: &Vec<u64>)
    ensures
        final(out)@ == old(out)@ + offsets(cs@),
{
    let mut i: usize = 0;
    proof {
        assert(cs@.take(0) =~= Seq::empty());
        assert(out@ =~= old(out)@ + offsets(cs@.take(0)));
    }
    while i < cs.len()
        invariant
            i <= cs@.len(),
            out@ == old(out)@ + offsets(cs@.take(i as int)),
        decreases cs@.len() - i,
    {
        put_u64(out, cs[i]);
        proof {
            assert(cs@.take(i + 1).drop_last() =~= cs@.take(i as int));
            assert(out@ =~= old(out)@ + offsets(cs@.take(i + 1)));
        }
        i += 1;
    }
    assert(cs@.take(i as int) =~= cs@);
}

/// Writes a node at the end of the image.
fn write_node(img: &mut Vec<u8>, node: &Node) -> (off: u64)
    ensures
        off == old(img)@.len(),
        final(img)@ == old(img)@ + node_bytes(node@),
{
    let off: u64 = img.len() as u64;
    match node {
        Node::Leaf { keys, values } => {
            img.push(0);
            put_u32(img, keys.len() as u32);
            put_fields(img, keys);
            put_fields(img, values);
        },
        Node::Internal { keys, children } => {
            img.push(1);
            put_u32(img, keys.len() as u32);
            put_fields(img, keys);
            put_offsets(img, children);
        },
    }
    proof {
        assert(img@ =~= old(img)@ + node_bytes(node@));
    }
    off
}

/// Counts the keys that `key` does not come before.
fn find_slot(keys: &Vec<Vec<u8>>, key: &[u8]) -> (p: usize)
    ensures
        p == slot(be::contents(keys@), key@),
        p <= keys@.len(),
{
    let ghost all = be::contents(keys@);
    let mut p: usize = keys.len();
    assert(all.take(p as int) =~= all);
    while p > 0
        invariant
            p <= keys@.len(),
            all == be::contents(keys@),
            slot(all, key@) == slot(all.take(p as int), key@),
        ensures
            p == slot(all, key@),
        decreases p,
    {
        proof {
            assert(all.take(p as int).last() == keys@[p - 1]@);
            assert(all.take(p as int).drop_last() =~= all.take(p - 1));
        }
        match compare(key, keys[p - 1].as_slice()) {
            Rank::Below => {
                p -= 1;
            },
            _ => {
                break;
            },
        }
    }
    p
}

fn search_in_node(img: &[u8], off: u64, key: &[u8]) -> (r: Result<Option<Vec<u8>>, TreeError>)
    ensures
        match r {
            Ok(Some(v)) => lookup(img@, off as nat, key@) == Ok::<Option<Seq<u8>>, TreeError>(
                Some(v@),
            ),
            Ok(None) => lookup(img@, off as nat, key@) == Ok::<Option<Seq<u8>>, TreeError>(None),
            Err(e) => lookup(img@, off as nat, key@) == Err::<Option<Seq<u8>>, TreeError>(e),
        },
    decreases off,
{
    match read_node(img, off) {
        None => Err(TreeError::Truncated),
        Some(Node::Leaf { keys, values }) => {
            proof {
                lemma_node_shape(img@, off as int);
            }
            let p: usize = find_slot(&keys, key);
            if p > 0 && same_bytes(keys[p - 1].as_slice(), key) {
                let value: Vec<u8> = copy_range(values[p - 1].as_slice(), 0, values[p - 1].len());
                assert(value@ =~= values@[p - 1]@);
                Ok(Some(value))
            } else {
                Ok(None)
            }
        },
        Some(Node::Internal { keys, children }) => {
            proof {
                lemma_node_shape(img@, off as int);
            }
            let p: usize = find_slot(&keys, key);
            let child: u64 = children[p];
            if child >= off {
                Err(TreeError::Misplaced)
            } else {
                search_in_node(img, child, key)
            }
        },
    }
}

proof fn lemma_offsets_len(img: Seq<u8>, pos: int, count: nat)
    ensures
        offsets_at(img, pos, count) matches Some(cs) ==> cs.len() == count && pos + 8 * count
            <= img.len() || count == 0,
    decreases count,
{
    if count > 0 {
        lemma_offsets_len(img, pos, (count - 1) as nat);
    }
}

proof fn lemma_node_shape(img: Seq<u8>, off: int)
    requires
        0 <= off,
    ensures
        node_at(img, off) matches Some(NodeView::Leaf { keys, values }) ==> keys.len()
            == values.len(),
        node_at(img, off) matches Some(NodeView::Internal { keys, children }) ==> children.len()
            == keys.len() + 1,
{
    if off + 5 <= img.len() {
        let count = be::u32_at(img, off + 1) as nat;
        be::lemma_fields_advance(img, off + 5, count);
        if let Some((keys, mid)) = be::fields_at(img, off + 5, count) {
            be::lemma_fields_advance(img, mid, count);
            lemma_offsets_len(img, mid, count + 1);
        }
    }
}

proof fn lemma_offsets_grow(img: Seq<u8>, more: Seq<u8>, pos: int, count: nat)
    requires
        0 <= pos,
        offsets_at(img, pos, count) is Some,
    ensures
        offsets_at(img + more, pos, count) == offsets_at(img, pos, count),
    decreases count,
{
    if count > 0 {
        lemma_offsets_grow(img, more, pos, (count - 1) as nat);
        let at = pos + 8 * (count - 1);
        assert((img + more).subrange(at, at + 8) =~= img.subrange(at, at + 8));
    }
}

proof fn lemma_node_grow(img: Seq<u8>, more: Seq<u8>, off: int)
    requires
        0 <= off,
        node_at(img, off) is Some,
    ensures
        node_at(img + more, off) == node_at(img, off),
{
    let whole = img + more;
    assert(whole.subrange(off + 1, off + 5) =~= img.subrange(off + 1, off + 5));
    let count = be::u32_at(img, off + 1) as nat;
    be::lemma_fields_grow(img, more, off + 5, count);
    be::lemma_fields_advance(img, off + 5, count);
    if let Some((keys, mid)) = be::fields_at(img, off + 5, count) {
        if img[off] == 0 {
            be::lemma_fields_grow(img, more, mid, count);
        } else {
            lemma_offsets_grow(img, more, mid, count + 1);
        }
    }
}

proof fn lemma_tree_grow(
    img: Seq<u8>,
    more: Seq<u8>,
    off: nat,
    lo: Option<Seq<u8>>,
    hi: Option<Seq<u8>>,
)
    requires
        tree(img, off, lo, hi),
    ensures
        tree(img + more, off, lo, hi),
        forall|k: Seq<u8>| #[trigger] lookup(img + more, off, k) == lookup(img, off, k),
    decreases off, 1nat,
{
    lemma_node_grow(img, more, off as int);
    if let Some(n) = node_at(img, off as int) {
        lemma_sound_grow(img, more, n, off, lo, hi);
        assert forall|k: Seq<u8>| #[trigger] lookup(img + more, off, k) == lookup(img, off, k) by {
            assert(node_lookup(img + more, n, off, k) == node_lookup(img, n, off, k));
        }
    }
}

proof fn lemma_sound_grow(
    img: Seq<u8>,
    more: Seq<u8>,
    n: NodeView,
    bound: nat,
    lo: Option<Seq<u8>>,
    hi: Option<Seq<u8>>,
)
    requires
        sound(img, n, bound, lo, hi),
    ensures
        sound(img + more, n, bound, lo, hi),
        forall|k: Seq<u8>|
            #[trigger] node_lookup(img + more, n, bound, k) == node_lookup(img, n, bound, k),
    decreases bound, 0nat,
{
    if let NodeView::Internal { keys, children } = n {
        assert forall|i: int| 0 <= i < children.len() implies (#[trigger] children[i]) < bound
            && tree(img + more, children[i] as nat, lower(keys, lo, i), upper(keys, hi, i)) by {
            lemma_tree_grow(
                img,
                more,
                children[i] as nat,
                lower(keys, lo, i),
                upper(keys, hi, i),
            );
        }
        assert forall|k: Seq<u8>|
            #[trigger] node_lookup(img + more, n, bound, k) == node_lookup(img, n, bound, k) by {
            lemma_slot_range(keys, k);
            let i = slot(keys, k);
            lemma_tree_grow(
                img,
                more,
                children[i] as nat,
                lower(keys, lo, i),
                upper(keys, hi, i),
            );
            assert(lookup(img + more, children[i] as nat, k) == lookup(img, children[i] as nat, k));
        }
    }
}

proof fn lemma_offsets_stand(img: Seq<u8>, pos: int, cs: Seq<u64>)
    requires
        be::stands(img, pos, offsets(cs)),
    ensures
        offsets(cs).len() == 8 * cs.len(),
        offsets_at(img, pos, cs.len()) == Some(cs),
    decreases cs.len(),
{
    if cs.len() == 0 {
        assert(cs =~= Seq::empty());
    } else {
        let rest = cs.drop_last();
        let last = cs[cs.len() - 1];
        be::lemma_be64(last);
        be::lemma_stands_split(img, pos, offsets(rest), be::be64(last));
        lemma_offsets_stand(img, pos, rest);
        be::lemma_u64_at(img, pos + offsets(rest).len(), last);
        assert(rest.push(last) =~= cs);
    }
}

proof fn lemma_node_stands(img: Seq<u8>, off: int, n: NodeView)
    requires
        be::stands(img, off, node_bytes(n)),
        node_fits(n),
    ensures
        node_at(img, off) == Some(n),
{
    let count = be::be32(keys_of(n).len() as u32);
    let keys = keys_of(n);
    be::lemma_be32(keys.len() as u32);
    let tag: u8 = match n {
        NodeView::Leaf { .. } => 0,
        NodeView::Internal { .. } => 1,
    };
    let tail = match n {
        NodeView::Leaf { values, .. } => be::fields(values),
        NodeView::Internal { children, .. } => offsets(children),
    };
    assert(node_bytes(n) == seq![tag] + (count + (be::fields(keys) + tail)));
    be::lemma_stands_split(img, off, seq![tag], count + (be::fields(keys) + tail));
    assert(img[off] == img.subrange(off, off + 1)[0]);
    be::lemma_stands_split(img, off + 1, count, be::fields(keys) + tail);
    be::lemma_u32_at(img, off + 1, keys.len() as u32);
    be::lemma_stands_split(img, off + 5, be::fields(keys), tail);
    be::lemma_fields_stand(img, off + 5, keys);
    let mid = off + 5 + be::fields(keys).len();
    match n {
        NodeView::Leaf { values, .. } => {
            be::lemma_fields_stand(img, mid, values);
        },
        NodeView::Internal { children, .. } => {
            lemma_offsets_stand(img, mid, children);
        },
    }
}

/// A sound node written at the end of the image is a tree there.
proof fn lemma_written(
    img: Seq<u8>,
    n: NodeView,
    lo: Option<Seq<u8>>,
    hi: Option<Seq<u8>>,
)
    requires
        sound(img, n, img.len(), lo, hi),
        keys_of(n).len() < ORDER,
    ensures
        tree(img + node_bytes(n), img.len(), lo, hi),
        forall|k: Seq<u8>|
            #[trigger] lookup(img + node_bytes(n), img.len(), k) == node_lookup(
                img,
                n,
                img.len(),
                k,
            ),
{
    let whole = img + node_bytes(n);
    assert(whole.subrange(img.len() as int, whole.len() as int) =~= node_bytes(n));
    lemma_node_stands(whole, img.len() as int, n);
    lemma_sound_grow(img, node_bytes(n), n, img.len(), lo, hi);
    assert forall|k: Seq<u8>|
        #[trigger] lookup(whole, img.len(), k) == node_lookup(img, n, img.len(), k) by {
        assert(node_lookup(whole, n, img.len(), k) == node_lookup(img, n, img.len(), k));
    }
}

proof fn lemma_slot_range(keys: Seq<Seq<u8>>, key: Seq<u8>)
    ensures
        0 <= slot(keys, key) <= keys.len(),
        slot(keys, key) > 0 ==> !order::before(key, keys[slot(keys, key) - 1]),
        forall|j: int|
            slot(keys, key) <= j < keys.len() ==> order::before(key, #[trigger] keys[j]),
    decreases keys.len(),
{
    if keys.len() > 0 && order::before(key, keys.last()) {
        let rest = keys.drop_last();
        lemma_slot_range(rest, key);
        assert forall|j: int| slot(keys, key) <= j < keys.len() implies order::before(
            key,
            #[trigger] keys[j],
        ) by {
            if j < rest.len() {
                assert(rest[j] == keys[j]);
            }
        }
    }
}

/// In ascending keys the slot parts those that `key` comes before from the
/// others, and is the only place that does.
proof fn lemma_slot(keys: Seq<Seq<u8>>, key: Seq<u8>)
    requires
        ascending(keys),
    ensures
        forall|j: int|
            0 <= j < slot(keys, key) ==> !order::before(key, #[trigger] keys[j]),
{
    lemma_slot_range(keys, key);
    let p = slot(keys, key);
    assert forall|j: int| 0 <= j < p implies !order::before(key, #[trigger] keys[j]) by {
        if j < p - 1 && order::before(key, keys[j]) {
            order::lemma_transitive(key, keys[j], keys[p - 1]);
        }
    }
}

proof fn lemma_slot_is(keys: Seq<Seq<u8>>, key: Seq<u8>, p: int)
    requires
        ascending(keys),
        0 <= p <= keys.len(),
        p > 0 ==> !order::before(key, keys[p - 1]),
        p < keys.len() ==> order::before(key, keys[p]),
    ensures
        slot(keys, key) == p,
{
    lemma_slot_range(keys, key);
    lemma_slot(keys, key);
    let q = slot(keys, key);
    if q < p {
        if q < p - 1 {
            order::lemma_transitive(key, keys[q], keys[p - 1]);
        }
    } else if p < q {
        assert(!order::before(key, keys[p]));
    }
}

/// In ascending keys a leaf holds exactly its pairs.
proof fn lemma_leaf_value(keys: Seq<Seq<u8>>, values: Seq<Seq<u8>>, key: Seq<u8>)
    requires
        ascending(keys),
    ensures
        forall|i: int|
            0 <= i < keys.len() && #[trigger] keys[i] == key ==> leaf_value(keys, values, key)
                == Some(values[i]),
        (forall|i: int| 0 <= i < keys.len() ==> #[trigger] keys[i] != key) ==> leaf_value(
            keys,
            values,
            key,
        ) is None,
{
    lemma_slot_range(keys, key);
    assert forall|i: int| 0 <= i < keys.len() && #[trigger] keys[i] == key implies leaf_value(
        keys,
        values,
        key,
    ) == Some(values[i]) by {
        order::lemma_irreflexive(key);
        lemma_slot_is(keys, key, i + 1);
    }
}

/// Why two slots of ascending keys are in place: the new key fits between its
/// neighbours.
proof fn lemma_ascending_insert(keys: Seq<Seq<u8>>, p: int, key: Seq<u8>)
    requires
        ascending(keys),
        0 <= p <= keys.len(),
        p > 0 ==> order::before(keys[p - 1], key),
        p < keys.len() ==> order::before(key, keys[p]),
    ensures
        ascending(keys.insert(p, key)),
{
    let new = keys.insert(p, key);
    assert forall|i: int, j: int| 0 <= i < j < new.len() implies order::before(
        #[trigger] new[i],
        #[trigger] new[j],
    ) by {
        if i < p && j == p {
            if i < p - 1 {
                order::lemma_transitive(keys[i], keys[p - 1], key);
            }
        } else if i == p && j > p {
            if j - 1 > p {
                order::lemma_transitive(key, keys[p], keys[j - 1]);
            }
        }
    }
}

/// Where a changed node went: to one place, or in two halves around a key.
enum Placed {
    One(u64),
    Split(Vec<u8>, u64, u64),
}

spec fn placed_tree(img: Seq<u8>, p: Placed, lo: Option<Seq<u8>>, hi: Option<Seq<u8>>) -> bool {
    match p {
        Placed::One(o) => o < img.len() && tree(img, o as nat, lo, hi),
        Placed::Split(m, l, r) => {
            &&& l < img.len()
            &&& r < img.len()
            &&& m@.len() <= u32::MAX
            &&& strictly_within(m@, lo, hi)
            &&& tree(img, l as nat, lo, Some(m@))
            &&& tree(img, r as nat, Some(m@), hi)
        },
    }
}

spec fn placed_lookup(img: Seq<u8>, p: Placed, k: Seq<u8>) -> Result<Option<Seq<u8>>, TreeError> {
    match p {
        Placed::One(o) => lookup(img, o as nat, k),
        Placed::Split(m, l, r) => if order::before(k, m@) {
            lookup(img, l as nat, k)
        } else {
            lookup(img, r as nat, k)
        },
    }
}

/// Whether a node that went to one place went behind the first `len` bytes.
spec fn placed_behind(p: Placed, len: nat) -> bool {
    p matches Placed::One(o) ==> len <= o
}

/// Whether `after` is `before` with something behind it.
pub open spec fn grown(before: Seq<u8>, after: Seq<u8>) -> bool {
    before.len() <= after.len() && after.subrange(0, before.len() as int) == before
}

spec fn rest(before: Seq<u8>, after: Seq<u8>) -> Seq<u8> {
    after.subrange(before.len() as int, after.len() as int)
}

proof fn lemma_grown(before: Seq<u8>, after: Seq<u8>)
    requires
        grown(before, after),
    ensures
        before + rest(before, after) == after,
{
    assert(before + rest(before, after) =~= after);
}

proof fn lemma_sound_bound(
    img: Seq<u8>,
    n: NodeView,
    near: nat,
    far: nat,
    lo: Option<Seq<u8>>,
    hi: Option<Seq<u8>>,
)
    requires
        near <= far,
        sound(img, n, near, lo, hi),
    ensures
        sound(img, n, far, lo, hi),
        forall|k: Seq<u8>| #[trigger] node_lookup(img, n, far, k) == node_lookup(img, n, near, k),
{
    if let NodeView::Internal { keys, children } = n {
        assert forall|k: Seq<u8>|
            #[trigger] node_lookup(img, n, far, k) == node_lookup(img, n, near, k) by {
            lemma_slot_range(keys, k);
            assert(children[slot(keys, k)] < near);
        }
    }
}

proof fn lemma_split_leaf(
    img: Seq<u8>,
    keys: Seq<Seq<u8>>,
    values: Seq<Seq<u8>>,
    mid: int,
    bound: nat,
    lo: Option<Seq<u8>>,
    hi: Option<Seq<u8>>,
)
    requires
        sound(img, NodeView::Leaf { keys, values }, bound, lo, hi),
        0 < mid < keys.len(),
    ensures
        strictly_within(keys[mid], lo, hi),
        sound(
            img,
            NodeView::Leaf { keys: keys.take(mid), values: values.take(mid) },
            bound,
            lo,
            Some(keys[mid]),
        ),
        sound(
            img,
            NodeView::Leaf { keys: keys.skip(mid), values: values.skip(mid) },
            bound,
            Some(keys[mid]),
            hi,
        ),
        forall|k: Seq<u8>|
            #[trigger] leaf_value(keys, values, k) == if order::before(k, keys[mid]) {
                leaf_value(keys.take(mid), values.take(mid), k)
            } else {
                leaf_value(keys.skip(mid), values.skip(mid), k)
            },
{
    let m = keys[mid];
    let lk = keys.take(mid);
    let lv = values.take(mid);
    let rk = keys.skip(mid);
    let rv = values.skip(mid);
    assert(order::before(keys[0], m));
    if let Some(l) = lo {
        assert(within(keys[0], lo, hi));
        order::lemma_total(l, keys[0]);
        if l != keys[0] {
            order::lemma_transitive(l, keys[0], m);
        }
    }
    assert(within(m, lo, hi));
    assert(ascending(lk));
    assert(ascending(rk));
    assert forall|i: int| 0 <= i < lk.len() implies within(#[trigger] lk[i], lo, Some(m)) by {
        assert(lk[i] == keys[i]);
        assert(within(keys[i], lo, hi));
    }
    assert forall|i: int| 0 <= i < rk.len() implies within(#[trigger] rk[i], Some(m), hi) by {
        assert(rk[i] == keys[mid + i]);
        assert(within(keys[mid + i], lo, hi));
        if i == 0 {
            order::lemma_irreflexive(m);
        } else {
            order::lemma_asymmetric(m, keys[mid + i]);
        }
    }
    assert forall|i: int| 0 <= i < lk.len() implies (#[trigger] lk[i]).len() <= u32::MAX by {
        assert(lk[i] == keys[i]);
    }
    assert forall|i: int| 0 <= i < rk.len() implies (#[trigger] rk[i]).len() <= u32::MAX by {
        assert(rk[i] == keys[mid + i]);
    }
    assert forall|i: int| 0 <= i < lv.len() implies (#[trigger] lv[i]).len() <= u32::MAX by {
        assert(lv[i] == values[i]);
    }
    assert forall|i: int| 0 <= i < rv.len() implies (#[trigger] rv[i]).len() <= u32::MAX by {
        assert(rv[i] == values[mid + i]);
    }
    assert forall|k: Seq<u8>|
        #[trigger] leaf_value(keys, values, k) == if order::before(k, m) {
            leaf_value(lk, lv, k)
        } else {
            leaf_value(rk, rv, k)
        } by {
        lemma_leaf_value(keys, values, k);
        lemma_leaf_value(lk, lv, k);
        lemma_leaf_value(rk, rv, k);
        if exists|i: int| 0 <= i < keys.len() && keys[i] == k {
            let i = choose|i: int| 0 <= i < keys.len() && keys[i] == k;
            if i < mid {
                assert(order::before(keys[i], m));
                assert(lk[i] == k);
            } else {
                if i == mid {
                    order::lemma_irreflexive(m);
                } else {
                    order::lemma_asymmetric(m, keys[i]);
                }
                assert(rk[i - mid] == k);
            }
        } else {
            assert forall|i: int| 0 <= i < lk.len() implies #[trigger] lk[i] != k by {
                assert(lk[i] == keys[i]);
            }
            assert forall|i: int| 0 <= i < rk.len() implies #[trigger] rk[i] != k by {
                assert(rk[i] == keys[mid + i]);
            }
        }
    }
}

proof fn lemma_split_internal(
    img: Seq<u8>,
    keys: Seq<Seq<u8>>,
    children: Seq<u64>,
    mid: int,
    bound: nat,
    lo: Option<Seq<u8>>,
    hi: Option<Seq<u8>>,
)
    requires
        sound(img, NodeView::Internal { keys, children }, bound, lo, hi),
        0 < mid < keys.len(),
    ensures
        strictly_within(keys[mid], lo, hi),
        sound(
            img,
            NodeView::Internal { keys: keys.take(mid), children: children.take(mid + 1) },
            bound,
            lo,
            Some(keys[mid]),
        ),
        sound(
            img,
            NodeView::Internal { keys: keys.skip(mid + 1), children: children.skip(mid + 1) },
            bound,
            Some(keys[mid]),
            hi,
        ),
        forall|k: Seq<u8>|
            #[trigger] node_lookup(img, NodeView::Internal { keys, children }, bound, k)
                == if order::before(k, keys[mid]) {
                node_lookup(
                    img,
                    NodeView::Internal { keys: keys.take(mid), children: children.take(mid + 1) },
                    bound,
                    k,
                )
            } else {
                node_lookup(
                    img,
                    NodeView::Internal {
                        keys: keys.skip(mid + 1),
                        children: children.skip(mid + 1),
                    },
                    bound,
                    k,
                )
            },
{
    let m = keys[mid];
    let lk = keys.take(mid);
    let lc = children.take(mid + 1);
    let rk = keys.skip(mid + 1);
    let rc = children.skip(mid + 1);
    assert(strictly_within(m, lo, hi));
    assert(ascending(lk));
    assert(ascending(rk));
    assert forall|i: int| 0 <= i < lk.len() implies strictly_within(
        #[trigger] lk[i],
        lo,
        Some(m),
    ) && lk[i].len() <= u32::MAX by {
        assert(lk[i] == keys[i]);
        assert(strictly_within(keys[i], lo, hi));
    }
    assert forall|i: int| 0 <= i < rk.len() implies strictly_within(
        #[trigger] rk[i],
        Some(m),
        hi,
    ) && rk[i].len() <= u32::MAX by {
        assert(rk[i] == keys[mid + 1 + i]);
        assert(strictly_within(keys[mid + 1 + i], lo, hi));
    }
    assert forall|i: int| 0 <= i < lc.len() implies (#[trigger] lc[i]) < bound && tree(
        img,
        lc[i] as nat,
        lower(lk, lo, i),
        upper(lk, Some(m), i),
    ) by {
        assert(lc[i] == children[i]);
        assert(lower(lk, lo, i) == lower(keys, lo, i));
        assert(upper(lk, Some(m), i) == upper(keys, hi, i));
    }
    assert forall|i: int| 0 <= i < rc.len() implies (#[trigger] rc[i]) < bound && tree(
        img,
        rc[i] as nat,
        lower(rk, Some(m), i),
        upper(rk, hi, i),
    ) by {
        assert(rc[i] == children[mid + 1 + i]);
        assert(lower(rk, Some(m), i) == lower(keys, lo, mid + 1 + i));
        assert(upper(rk, hi, i) == upper(keys, hi, mid + 1 + i));
    }
    assert forall|k: Seq<u8>|
        #[trigger] node_lookup(img, NodeView::Internal { keys, children }, bound, k)
            == if order::before(k, m) {
            node_lookup(img, NodeView::Internal { keys: lk, children: lc }, bound, k)
        } else {
            node_lookup(img, NodeView::Internal { keys: rk, children: rc }, bound, k)
        } by {
        let p = slot(keys, k);
        lemma_slot_range(keys, k);
        lemma_slot(keys, k);
        if order::before(k, m) {
            assert(p <= mid);
            lemma_slot_is(lk, k, p);
        } else {
            assert(p > mid);
            if p > mid + 1 {
                assert(rk[p - mid - 2] == keys[p - 1]);
            }
            lemma_slot_is(rk, k, p - mid - 1);
        }
    }
}

/// Writes a node at the end of the image, in two halves if it has too many
/// keys.
fn place(
    img: &mut Vec<u8>,
    node: Node,
    Ghost(lo): Ghost<Option<Seq<u8>>>,
    Ghost(hi): Ghost<Option<Seq<u8>>>,
) -> (p: Placed)
    ensures
        grown(old(img)@, final(img)@),
        placed_behind(p, old(img)@.len()),
        sound(old(img)@, node@, old(img)@.len(), lo, hi) && keys_of(node@).len() <= ORDER ==> {
            &&& placed_tree(final(img)@, p, lo, hi)
            &&& forall|k: Seq<u8>|
                #[trigger] placed_lookup(final(img)@, p, k) == node_lookup(
                    old(img)@,
                    node@,
                    old(img)@.len(),
                    k,
                )
        },
{
    let ghost start = img@;
    let ghost whole = node@;
    let ghost good = sound(start, whole, start.len(), lo, hi) && keys_of(whole).len() <= ORDER;
    let (left, right, m) = match node {
        Node::Leaf { mut keys, mut values } => {
            if keys.len() < ORDER || values.len() != keys.len() {
                let leaf = Node::Leaf { keys, values };
                return place_one(img, leaf, Ghost(lo), Ghost(hi));
            }
            let mid: usize = keys.len() / 2;
            let ghost ks = be::contents(keys@);
            let ghost vs = be::contents(values@);
            let m: Vec<u8> = copy_range(keys[mid].as_slice(), 0, keys[mid].len());
            let right_keys = keys.split_off(mid);
            let right_values = values.split_off(mid);
            proof {
                assert(m@ =~= ks[mid as int]);
                assert(be::contents(keys@) =~= ks.take(mid as int));
                assert(be::contents(values@) =~= vs.take(mid as int));
                assert(be::contents(right_keys@) =~= ks.skip(mid as int));
                assert(be::contents(right_values@) =~= vs.skip(mid as int));
                if good {
                    lemma_split_leaf(start, ks, vs, mid as int, start.len(), lo, hi);
                    assert forall|k: Seq<u8>|
                        #[trigger] node_lookup(start, whole, start.len(), k) == Ok::<
                            Option<Seq<u8>>,
                            TreeError,
                        >(
                            if order::before(k, m@) {
                                leaf_value(ks.take(mid as int), vs.take(mid as int), k)
                            } else {
                                leaf_value(ks.skip(mid as int), vs.skip(mid as int), k)
                            },
                        ) by {
                        assert(leaf_value(ks, vs, k) == leaf_value(ks, vs, k));
                    }
                }
            }
            (
                Node::Leaf { keys, values },
                Node::Leaf { keys: right_keys, values: right_values },
                m,
            )
        },
        Node::Internal { mut keys, mut children } => {
            if keys.len() < ORDER || children.len() == 0 || children.len() - 1 != keys.len() {
                let internal = Node::Internal { keys, children };
                return place_one(img, internal, Ghost(lo), Ghost(hi));
            }
            let mid: usize = keys.len() / 2;
            let ghost ks = be::contents(keys@);
            let ghost cs = children@;
            let right_keys = keys.split_off(mid + 1);
            let right_children = children.split_off(mid + 1);
            let m: Vec<u8> = match keys.pop() {
                Some(m) => m,
                None => Vec::new(),
            };
            proof {
                assert(m@ =~= ks[mid as int]);
                assert(be::contents(keys@) =~= ks.take(mid as int));
                assert(children@ =~= cs.take(mid + 1));
                assert(be::contents(right_keys@) =~= ks.skip(mid + 1));
                assert(right_children@ =~= cs.skip(mid + 1));
                if good {
                    lemma_split_internal(start, ks, cs, mid as int, start.len(), lo, hi);
                }
            }
            (
                Node::Internal { keys, children },
                Node::Internal { keys: right_keys, children: right_children },
                m,
            )
        },
    };
    let r: u64 = write_node(img, &right);
    let ghost between = img@;
    let l: u64 = write_node(img, &left);
    let p = Placed::Split(m, l, r);
    proof {
        assert(img@.subrange(0, start.len() as int) =~= start);
        if good {
            let more = node_bytes(right@);
            lemma_written(start, right@, Some(m@), hi);
            lemma_sound_grow(start, more, left@, start.len(), lo, Some(m@));
            lemma_sound_bound(between, left@, start.len(), between.len(), lo, Some(m@));
            lemma_written(between, left@, lo, Some(m@));
            lemma_tree_grow(between, node_bytes(left@), r as nat, Some(m@), hi);
            assert forall|k: Seq<u8>|
                #[trigger] placed_lookup(img@, p, k) == node_lookup(
                    start,
                    whole,
                    start.len(),
                    k,
                ) by {
                if order::before(k, m@) {
                    assert(lookup(img@, l as nat, k) == node_lookup(
                        between,
                        left@,
                        between.len(),
                        k,
                    ));
                    assert(node_lookup(between, left@, between.len(), k) == node_lookup(
                        between,
                        left@,
                        start.len(),
                        k,
                    ));
                    assert(node_lookup(between, left@, start.len(), k) == node_lookup(
                        start,
                        left@,
                        start.len(),
                        k,
                    ));
                } else {
                    assert(lookup(img@, r as nat, k) == lookup(between, r as nat, k));
                    assert(lookup(between, r as nat, k) == node_lookup(
                        start,
                        right@,
                        start.len(),
                        k,
                    ));
                }
            }
        }
    }
    p
}

fn place_one(
    img: &mut Vec<u8>,
    node: Node,
    Ghost(lo): Ghost<Option<Seq<u8>>>,
    Ghost(hi): Ghost<Option<Seq<u8>>>,
) -> (p: Placed)
    ensures
        grown(old(img)@, final(img)@),
        placed_behind(p, old(img)@.len()),
        sound(old(img)@, node@, old(img)@.len(), lo, hi) && keys_of(node@).len() < ORDER ==> {
            &&& placed_tree(final(img)@, p, lo, hi)
            &&& forall|k: Seq<u8>|
                #[trigger] placed_lookup(final(img)@, p, k) == node_lookup(
                    old(img)@,
                    node@,
                    old(img)@.len(),
                    k,
                )
        },
{
    let o: u64 = write_node(img, &node);
    let p = Placed::One(o);
    proof {
        assert(img@.subrange(0, old(img)@.len() as int) =~= old(img)@);
        if sound(old(img)@, node@, old(img)@.len(), lo, hi) && keys_of(node@).len() < ORDER {
            lemma_written(old(img)@, node@, lo, hi);
            assert(node_bytes(node@).len() > 0);
            assert forall|k: Seq<u8>|
                #[trigger] placed_lookup(img@, p, k) == node_lookup(
                    old(img)@,
                    node@,
                    old(img)@.len(),
                    k,
                ) by {
                assert(lookup(img@, o as nat, k) == lookup(img@, o as nat, k));
            }
        }
    }
    p
}

/// `found` with `value` put at `key`.
pub open spec fn with_put(
    found: Result<Option<Seq<u8>>, TreeError>,
    k: Seq<u8>,
    key: Seq<u8>,
    value: Seq<u8>,
) -> Result<Option<Seq<u8>>, TreeError> {
    if k == key {
        Ok(Some(value))
    } else {
        found
    }
}

proof fn lemma_put_in_leaf(
    img: Seq<u8>,
    keys: Seq<Seq<u8>>,
    values: Seq<Seq<u8>>,
    new_keys: Seq<Seq<u8>>,
    new_values: Seq<Seq<u8>>,
    bound: nat,
    lo: Option<Seq<u8>>,
    hi: Option<Seq<u8>>,
    key: Seq<u8>,
    value: Seq<u8>,
)
    requires
        sound(img, NodeView::Leaf { keys, values }, bound, lo, hi),
        keys.len() < ORDER,
        within(key, lo, hi),
        key.len() <= u32::MAX,
        value.len() <= u32::MAX,
        ({
            let p = slot(keys, key);
            if p > 0 && keys[p - 1] == key {
                new_keys == keys && new_values == values.update(p - 1, value)
            } else {
                new_keys == keys.insert(p, key) && new_values == values.insert(p, value)
            }
        }),
    ensures
        sound(img, NodeView::Leaf { keys: new_keys, values: new_values }, bound, lo, hi),
        new_keys.len() <= ORDER,
        forall|k: Seq<u8>|
            #[trigger] leaf_value(new_keys, new_values, k) == (if k == key {
                Some(value)
            } else {
                leaf_value(keys, values, k)
            }),
{
    let p = slot(keys, key);
    lemma_slot_range(keys, key);
    lemma_slot(keys, key);
    if p > 0 && keys[p - 1] == key {
        assert forall|i: int| 0 <= i < new_values.len() implies (#[trigger] new_values[i]).len()
            <= u32::MAX by {
            if i != p - 1 {
                assert(new_values[i] == values[i]);
            }
        }
        assert forall|k: Seq<u8>|
            #[trigger] leaf_value(new_keys, new_values, k) == (if k == key {
                Some(value)
            } else {
                leaf_value(keys, values, k)
            }) by {
            lemma_leaf_value(keys, values, k);
            lemma_leaf_value(new_keys, new_values, k);
        }
    } else {
        if p > 0 {
            order::lemma_total(keys[p - 1], key);
        }
        lemma_ascending_insert(keys, p, key);
        assert forall|i: int| 0 <= i < new_keys.len() implies within(
            #[trigger] new_keys[i],
            lo,
            hi,
        ) && new_keys[i].len() <= u32::MAX by {
            if i < p {
                assert(new_keys[i] == keys[i]);
            } else if i > p {
                assert(new_keys[i] == keys[i - 1]);
            }
        }
        assert forall|i: int| 0 <= i < new_values.len() implies (#[trigger] new_values[i]).len()
            <= u32::MAX by {
            if i < p {
                assert(new_values[i] == values[i]);
            } else if i > p {
                assert(new_values[i] == values[i - 1]);
            }
        }
        assert forall|k: Seq<u8>|
            #[trigger] leaf_value(new_keys, new_values, k) == (if k == key {
                Some(value)
            } else {
                leaf_value(keys, values, k)
            }) by {
            lemma_leaf_value(keys, values, k);
            lemma_leaf_value(new_keys, new_values, k);
            if k == key {
                assert(new_keys[p] == key);
            } else if exists|i: int| 0 <= i < keys.len() && keys[i] == k {
                let i = choose|i: int| 0 <= i < keys.len() && keys[i] == k;
                if i < p {
                    assert(new_keys[i] == k);
                } else {
                    assert(new_keys[i + 1] == k);
                }
            } else {
                assert forall|i: int| 0 <= i < new_keys.len() implies #[trigger] new_keys[i]
                    != k by {
                    if i < p {
                        assert(new_keys[i] == keys[i]);
                    } else if i > p {
                        assert(new_keys[i] == keys[i - 1]);
                    }
                }
            }
        }
    }
}

proof fn lemma_descend(
    img: Seq<u8>,
    keys: Seq<Seq<u8>>,
    children: Seq<u64>,
    bound: nat,
    k: Seq<u8>,
)
    requires
        children[slot(keys, k)] < bound,
    ensures
        node_lookup(img, NodeView::Internal { keys, children }, bound, k) == lookup(
            img,
            children[slot(keys, k)] as nat,
            k,
        ),
{
}

/// A child that went to one place.
proof fn lemma_child_moved(
    before: Seq<u8>,
    img: Seq<u8>,
    keys: Seq<Seq<u8>>,
    children: Seq<u64>,
    off: nat,
    lo: Option<Seq<u8>>,
    hi: Option<Seq<u8>>,
    key: Seq<u8>,
    value: Seq<u8>,
    o: u64,
)
    requires
        grown(before, img),
        off <= before.len(),
        sound(before, NodeView::Internal { keys, children }, off, lo, hi),
        ({
            let p = slot(keys, key);
            &&& o < img.len()
            &&& tree(img, o as nat, lower(keys, lo, p), upper(keys, hi, p))
            &&& forall|k: Seq<u8>|
                #[trigger] lookup(img, o as nat, k) == with_put(
                    lookup(before, children[p] as nat, k),
                    k,
                    key,
                    value,
                )
        }),
    ensures
        ({
            let n = NodeView::Internal { keys, children: children.update(slot(keys, key), o) };
            &&& sound(img, n, img.len(), lo, hi)
            &&& forall|k: Seq<u8>|
                #[trigger] node_lookup(img, n, img.len(), k) == with_put(
                    node_lookup(before, NodeView::Internal { keys, children }, off, k),
                    k,
                    key,
                    value,
                )
        }),
{
    let p = slot(keys, key);
    let old_node = NodeView::Internal { keys, children };
    let cs = children.update(p, o);
    let n = NodeView::Internal { keys, children: cs };
    lemma_slot_range(keys, key);
    lemma_grown(before, img);
    lemma_sound_grow(before, rest(before, img), old_node, off, lo, hi);
    assert forall|i: int| 0 <= i < cs.len() implies (#[trigger] cs[i]) < img.len() && tree(
        img,
        cs[i] as nat,
        lower(keys, lo, i),
        upper(keys, hi, i),
    ) by {
        if i != p {
            assert(cs[i] == children[i]);
        }
    }
    assert forall|k: Seq<u8>|
        #[trigger] node_lookup(img, n, img.len(), k) == with_put(
            node_lookup(before, old_node, off, k),
            k,
            key,
            value,
        ) by {
        lemma_slot_range(keys, k);
        let q = slot(keys, k);
        assert(children[q] < off);
        assert(cs[q] < img.len());
        lemma_descend(img, keys, cs, img.len(), k);
        lemma_descend(before, keys, children, off, k);
        if q == p {
            assert(cs[q] == o);
            assert(lookup(img, o as nat, k) == with_put(
                lookup(before, children[p] as nat, k),
                k,
                key,
                value,
            ));
        } else {
            assert(cs[q] == children[q]);
            lemma_descend(img, keys, children, off, k);
            assert(node_lookup(img, old_node, off, k) == node_lookup(before, old_node, off, k));
        }
    }
}

/// What is known of a child that went to two places, around `m`.
spec fn halves(
    before: Seq<u8>,
    img: Seq<u8>,
    keys: Seq<Seq<u8>>,
    child: u64,
    lo: Option<Seq<u8>>,
    hi: Option<Seq<u8>>,
    key: Seq<u8>,
    value: Seq<u8>,
    m: Seq<u8>,
    l: u64,
    r: u64,
) -> bool {
    &&& l < img.len()
    &&& r < img.len()
    &&& m.len() <= u32::MAX
    &&& strictly_within(m, lo, hi)
    &&& tree(img, l as nat, lo, Some(m))
    &&& tree(img, r as nat, Some(m), hi)
    &&& forall|k: Seq<u8>|
        #![trigger lookup(img, l as nat, k)]
        #![trigger lookup(img, r as nat, k)]
        (if order::before(k, m) {
            lookup(img, l as nat, k)
        } else {
            lookup(img, r as nat, k)
        }) == with_put(lookup(before, child as nat, k), k, key, value)
}

/// A node one of whose children went to two places.
spec fn widened(keys: Seq<Seq<u8>>, children: Seq<u64>, p: int, m: Seq<u8>, l: u64, r: u64) -> NodeView {
    NodeView::Internal {
        keys: keys.insert(p, m),
        children: children.update(p, l).insert(p + 1, r),
    }
}

proof fn lemma_widened_sound(
    before: Seq<u8>,
    img: Seq<u8>,
    keys: Seq<Seq<u8>>,
    children: Seq<u64>,
    off: nat,
    lo: Option<Seq<u8>>,
    hi: Option<Seq<u8>>,
    p: int,
    m: Seq<u8>,
    l: u64,
    r: u64,
)
    requires
        grown(before, img),
        off <= before.len(),
        sound(before, NodeView::Internal { keys, children }, off, lo, hi),
        keys.len() < ORDER,
        0 <= p <= keys.len(),
        l < img.len(),
        r < img.len(),
        m.len() <= u32::MAX,
        strictly_within(m, lower(keys, lo, p), upper(keys, hi, p)),
        tree(img, l as nat, lower(keys, lo, p), Some(m)),
        tree(img, r as nat, Some(m), upper(keys, hi, p)),
    ensures
        sound(img, widened(keys, children, p, m, l, r), img.len(), lo, hi),
{
    let old_node = NodeView::Internal { keys, children };
    let ks = keys.insert(p, m);
    let cs = children.update(p, l).insert(p + 1, r);
    lemma_grown(before, img);
    lemma_sound_grow(before, rest(before, img), old_node, off, lo, hi);
    lemma_ascending_insert(keys, p, m);
    assert forall|i: int| 0 <= i < ks.len() implies strictly_within(#[trigger] ks[i], lo, hi)
        && ks[i].len() <= u32::MAX by {
        if i < p {
            assert(ks[i] == keys[i]);
        } else if i > p {
            assert(ks[i] == keys[i - 1]);
        } else {
            if p > 0 {
                assert(strictly_within(keys[p - 1], lo, hi));
                if let Some(b) = lo {
                    order::lemma_transitive(b, keys[p - 1], m);
                }
            }
            if p < keys.len() {
                assert(strictly_within(keys[p], lo, hi));
                if let Some(b) = hi {
                    order::lemma_transitive(m, keys[p], b);
                }
            }
        }
    }
    assert forall|i: int| 0 <= i < cs.len() implies (#[trigger] cs[i]) < img.len() && tree(
        img,
        cs[i] as nat,
        lower(ks, lo, i),
        upper(ks, hi, i),
    ) by {
        if i < p {
            assert(cs[i] == children[i]);
            assert(lower(ks, lo, i) == lower(keys, lo, i));
            assert(upper(ks, hi, i) == upper(keys, hi, i));
        } else if i == p {
            assert(cs[i] == l);
            assert(lower(ks, lo, i) == lower(keys, lo, i));
            assert(upper(ks, hi, i) == Some(m));
        } else if i == p + 1 {
            assert(cs[i] == r);
            assert(lower(ks, lo, i) == Some(m));
            assert(upper(ks, hi, i) == upper(keys, hi, p));
        } else {
            assert(cs[i] == children[i - 1]);
            assert(lower(ks, lo, i) == lower(keys, lo, i - 1));
            assert(upper(ks, hi, i) == upper(keys, hi, i - 1));
        }
    }
}

/// Where a widened node looks for a key.
proof fn lemma_widened_slot(
    keys: Seq<Seq<u8>>,
    p: int,
    m: Seq<u8>,
    k: Seq<u8>,
)
    requires
        ascending(keys),
        0 <= p <= keys.len(),
        p > 0 ==> order::before(keys[p - 1], m),
        p < keys.len() ==> order::before(m, keys[p]),
    ensures
        slot(keys.insert(p, m), k) == if slot(keys, k) < p {
            slot(keys, k)
        } else if slot(keys, k) > p {
            slot(keys, k) + 1
        } else if order::before(k, m) {
            p
        } else {
            p + 1
        },
{
    let ks = keys.insert(p, m);
    lemma_ascending_insert(keys, p, m);
    lemma_slot_range(keys, k);
    lemma_slot(keys, k);
    let q = slot(keys, k);
    if q == p {
        if order::before(k, m) {
            lemma_slot_is(ks, k, p);
        } else {
            lemma_slot_is(ks, k, p + 1);
        }
    } else if q < p {
        lemma_slot_is(ks, k, q);
    } else {
        assert(ks[q] == keys[q - 1]);
        lemma_slot_is(ks, k, q + 1);
    }
}

/// A child that went to two places.
proof fn lemma_child_split(
    before: Seq<u8>,
    img: Seq<u8>,
    keys: Seq<Seq<u8>>,
    children: Seq<u64>,
    off: nat,
    lo: Option<Seq<u8>>,
    hi: Option<Seq<u8>>,
    key: Seq<u8>,
    value: Seq<u8>,
    m: Seq<u8>,
    l: u64,
    r: u64,
)
    requires
        grown(before, img),
        off <= before.len(),
        sound(before, NodeView::Internal { keys, children }, off, lo, hi),
        keys.len() < ORDER,
        halves(
            before,
            img,
            keys,
            children[slot(keys, key)],
            lower(keys, lo, slot(keys, key)),
            upper(keys, hi, slot(keys, key)),
            key,
            value,
            m,
            l,
            r,
        ),
    ensures
        ({
            let n = widened(keys, children, slot(keys, key), m, l, r);
            &&& sound(img, n, img.len(), lo, hi)
            &&& forall|k: Seq<u8>|
                #[trigger] node_lookup(img, n, img.len(), k) == with_put(
                    node_lookup(before, NodeView::Internal { keys, children }, off, k),
                    k,
                    key,
                    value,
                )
        }),
{
    let p = slot(keys, key);
    let old_node = NodeView::Internal { keys, children };
    let ks = keys.insert(p, m);
    let cs = children.update(p, l).insert(p + 1, r);
    let n = widened(keys, children, p, m, l, r);
    lemma_slot_range(keys, key);
    lemma_widened_sound(before, img, keys, children, off, lo, hi, p, m, l, r);
    lemma_grown(before, img);
    lemma_sound_grow(before, rest(before, img), old_node, off, lo, hi);
    assert forall|k: Seq<u8>|
        #[trigger] node_lookup(img, n, img.len(), k) == with_put(
            node_lookup(before, old_node, off, k),
            k,
            key,
            value,
        ) by {
        lemma_slot_range(keys, k);
        lemma_widened_slot(keys, p, m, k);
        let q = slot(keys, k);
        assert(children[q] < off);
        assert(cs[slot(ks, k)] < img.len());
        lemma_descend(img, ks, cs, img.len(), k);
        lemma_descend(before, keys, children, off, k);
        if q == p {
            if order::before(k, m) {
                assert(cs[p] == l);
                assert(lookup(img, l as nat, k) == with_put(
                    lookup(before, children[p] as nat, k),
                    k,
                    key,
                    value,
                ));
            } else {
                assert(cs[p + 1] == r);
                assert(lookup(img, r as nat, k) == with_put(
                    lookup(before, children[p] as nat, k),
                    k,
                    key,
                    value,
                ));
            }
        } else {
            lemma_descend(img, keys, children, off, k);
            assert(node_lookup(img, old_node, off, k) == node_lookup(before, old_node, off, k));
        }
    }
}

proof fn lemma_slot_within(
    keys: Seq<Seq<u8>>,
    key: Seq<u8>,
    lo: Option<Seq<u8>>,
    hi: Option<Seq<u8>>,
)
    requires
        within(key, lo, hi),
    ensures
        within(key, lower(keys, lo, slot(keys, key)), upper(keys, hi, slot(keys, key))),
{
    lemma_slot_range(keys, key);
}

/// Puts `key` and `value` into the tree at `off`, writing every changed node
/// at the end of the image.
fn insert_into_node(
    img: &mut Vec<u8>,
    off: u64,
    key: &[u8],
    value: &[u8],
    Ghost(lo): Ghost<Option<Seq<u8>>>,
    Ghost(hi): Ghost<Option<Seq<u8>>>,
) -> (r: Result<Placed, TreeError>)
    ensures
        grown(old(img)@, final(img)@),
        r matches Ok(p) ==> placed_behind(p, old(img)@.len()),
        match r {
            Ok(_) => lookup(old(img)@, off as nat, key@) is Ok,
            Err(e) => final(img)@ == old(img)@ && lookup(old(img)@, off as nat, key@) == Err::<
                Option<Seq<u8>>,
                TreeError,
            >(e),
        },
        tree(old(img)@, off as nat, lo, hi) && within(key@, lo, hi) && key@.len() <= u32::MAX
            && value@.len() <= u32::MAX ==> {
            &&& r is Ok
            &&& placed_tree(final(img)@, r->Ok_0, lo, hi)
            &&& forall|k: Seq<u8>|
                #[trigger] placed_lookup(final(img)@, r->Ok_0, k) == with_put(
                    lookup(old(img)@, off as nat, k),
                    k,
                    key@,
                    value@,
                )
        },
    decreases off,
{
    let ghost start = img@;
    let ghost good = tree(start, off as nat, lo, hi) && within(key@, lo, hi) && key@.len()
        <= u32::MAX && value@.len() <= u32::MAX;
    proof {
        assert(start.subrange(0, start.len() as int) =~= start);
        lemma_node_shape(start, off as int);
    }
    match read_node(img.as_slice(), off) {
        None => Err(TreeError::Truncated),
        Some(Node::Leaf { mut keys, mut values }) => {
            let ghost ks = be::contents(keys@);
            let ghost vs = be::contents(values@);
            let p: usize = find_slot(&keys, key);
            let new_value: Vec<u8> = copy_range(value, 0, value.len());
            assert(new_value@ =~= value@);
            if p > 0 && same_bytes(keys[p - 1].as_slice(), key) {
                values[p - 1] = new_value;
                proof {
                    assert(be::contents(values@) =~= vs.update(p - 1, value@));
                }
            } else {
                let new_key: Vec<u8> = copy_range(key, 0, key.len());
                assert(new_key@ =~= key@);
                keys.insert(p, new_key);
                values.insert(p, new_value);
                proof {
                    assert(be::contents(keys@) =~= ks.insert(p as int, key@));
                    assert(be::contents(values@) =~= vs.insert(p as int, value@));
                }
            }
            let leaf = Node::Leaf { keys, values };
            let ghost n = leaf@;
            proof {
                if good {
                    lemma_sound_bound(
                        start,
                        NodeView::Leaf { keys: ks, values: vs },
                        off as nat,
                        if off <= start.len() {
                            start.len()
                        } else {
                            off as nat
                        },
                        lo,
                        hi,
                    );
                    lemma_put_in_leaf(
                        start,
                        ks,
                        vs,
                        be::contents(keys@),
                        be::contents(values@),
                        start.len(),
                        lo,
                        hi,
                        key@,
                        value@,
                    );
                }
            }
            let placed = place(img, leaf, Ghost(lo), Ghost(hi));
            proof {
                if good {
                    assert forall|k: Seq<u8>|
                        #[trigger] placed_lookup(img@, placed, k) == with_put(
                            lookup(start, off as nat, k),
                            k,
                            key@,
                            value@,
                        ) by {
                        assert(placed_lookup(img@, placed, k) == node_lookup(
                            start,
                            n,
                            start.len(),
                            k,
                        ));
                        assert(leaf_value(be::contents(keys@), be::contents(values@), k)
                            == leaf_value(be::contents(keys@), be::contents(values@), k));
                    }
                }
            }
            Ok(placed)
        },
        Some(Node::Internal { mut keys, mut children }) => {
            let ghost ks = be::contents(keys@);
            let ghost cs = children@;
            let p: usize = find_slot(&keys, key);
            let child: u64 = children[p];
            if child >= off {
                proof {
                    assert(good ==> cs[p as int] < off);
                }
                return Err(TreeError::Misplaced);
            }
            proof {
                if good {
                    lemma_slot_within(ks, key@, lo, hi);
                }
            }
            let placed = match insert_into_node(
                img,
                child,
                key,
                value,
                Ghost(lower(ks, lo, p as int)),
                Ghost(upper(ks, hi, p as int)),
            ) {
                Ok(placed) => placed,
                Err(e) => return Err(e),
            };
            let ghost between = img@;
            let ghost at = p as int;
            proof {
                if good {
                    lemma_offset_inside(start, off as int);
                }
            }
            match placed {
                Placed::One(o) => {
                    children[p] = o;
                    proof {
                        if good {
                            assert forall|k: Seq<u8>|
                                #[trigger] lookup(between, o as nat, k) == with_put(
                                    lookup(start, cs[at] as nat, k),
                                    k,
                                    key@,
                                    value@,
                                ) by {
                                assert(placed_lookup(between, placed, k) == lookup(
                                    between,
                                    o as nat,
                                    k,
                                ));
                            }
                            lemma_child_moved(
                                start,
                                between,
                                ks,
                                cs,
                                off as nat,
                                lo,
                                hi,
                                key@,
                                value@,
                                o,
                            );
                        }
                    }
                },
                Placed::Split(m, l, r) => {
                    let ghost gm = m@;
                    proof {
                        if good {
                            assert forall|k: Seq<u8>|
                                #![trigger lookup(between, l as nat, k)]
                                #![trigger lookup(between, r as nat, k)]
                                (if order::before(k, gm) {
                                    lookup(between, l as nat, k)
                                } else {
                                    lookup(between, r as nat, k)
                                }) == with_put(
                                    lookup(start, cs[at] as nat, k),
                                    k,
                                    key@,
                                    value@,
                                ) by {
                                assert(placed_lookup(between, placed, k) == with_put(
                                    lookup(start, cs[at] as nat, k),
                                    k,
                                    key@,
                                    value@,
                                ));
                            }
                            lemma_child_split(
                                start,
                                between,
                                ks,
                                cs,
                                off as nat,
                                lo,
                                hi,
                                key@,
                                value@,
                                gm,
                                l,
                                r,
                            );
                        }
                    }
                    keys.insert(p, m);
                    children[p] = l;
                    assert(children.len() == cs.len());
                    children.insert(p + 1, r);
                    proof {
                        assert(be::contents(keys@) =~= ks.insert(at, gm));
                        assert(children@ =~= cs.update(at, l).insert(at + 1, r));
                    }
                },
            }
            let internal = Node::Internal { keys, children };
            let ghost n = internal@;
            let again = place(img, internal, Ghost(lo), Ghost(hi));
            proof {
                assert(img@.subrange(0, start.len() as int) =~= between.subrange(
                    0,
                    start.len() as int,
                )) by {
                    assert(img@.subrange(0, between.len() as int) == between);
                    assert forall|i: int| 0 <= i < start.len() implies img@[i] == between[i] by {
                        assert(img@.subrange(0, between.len() as int)[i] == img@[i]);
                    }
                }
                if good {
                    assert forall|k: Seq<u8>|
                        #[trigger] placed_lookup(img@, again, k) == with_put(
                            lookup(start, off as nat, k),
                            k,
                            key@,
                            value@,
                        ) by {
                        assert(placed_lookup(img@, again, k) == node_lookup(
                            between,
                            n,
                            between.len(),
                            k,
                        ));
                    }
                }
            }
            Ok(again)
        },
    }
}

proof fn lemma_offset_inside(img: Seq<u8>, off: int)
    requires
        node_at(img, off) is Some,
    ensures
        off < img.len(),
{
}

/// The pairs of a list.
pub open spec fn pair_views(ps: Seq<(Vec<u8>, Vec<u8>)>) -> Seq<(Seq<u8>, Seq<u8>)> {
    ps.map_values(|p: (Vec<u8>, Vec<u8>)| (p.0@, p.1@))
}

proof fn lemma_listing_err(img: Seq<u8>, off: nat, children: Seq<u64>, n: int, e: TreeError)
    requires
        0 <= n <= children.len(),
        listing_of(img, off, children.take(n)) == Err::<Seq<(Seq<u8>, Seq<u8>)>, TreeError>(e),
    ensures
        listing_of(img, off, children) == Err::<Seq<(Seq<u8>, Seq<u8>)>, TreeError>(e),
    decreases children.len() - n,
{
    if n == children.len() {
        assert(children.take(n) =~= children);
    } else {
        assert(children.take(n + 1).drop_last() =~= children.take(n));
        lemma_listing_err(img, off, children, n + 1, e);
    }
}

fn scan_node(img: &[u8], off: u64) -> (r: Result<Vec<(Vec<u8>, Vec<u8>)>, TreeError>)
    ensures
        match r {
            Ok(ps) => listing(img@, off as nat) == Ok::<Seq<(Seq<u8>, Seq<u8>)>, TreeError>(
                pair_views(ps@),
            ),
            Err(e) => listing(img@, off as nat) == Err::<Seq<(Seq<u8>, Seq<u8>)>, TreeError>(e),
        },
    decreases off,
{
    proof {
        lemma_node_shape(img@, off as int);
    }
    match read_node(img, off) {
        None => Err(TreeError::Truncated),
        Some(Node::Leaf { keys, values }) => {
            let mut out: Vec<(Vec<u8>, Vec<u8>)> = Vec::new();
            let mut i: usize = 0;
            while i < keys.len()
                invariant
                    i <= keys@.len(),
                    keys@.len() == values@.len(),
                    out@.len() == i,
                    forall|j: int|
                        0 <= j < i ==> (#[trigger] out@[j]).0@ == keys@[j]@ && out@[j].1@
                            == values@[j]@,
                decreases keys@.len() - i,
            {
                let k: Vec<u8> = copy_range(keys[i].as_slice(), 0, keys[i].len());
                let v: Vec<u8> = copy_range(values[i].as_slice(), 0, values[i].len());
                proof {
                    assert(k@ =~= keys@[i as int]@);
                    assert(v@ =~= values@[i as int]@);
                }
                out.push((k, v));
                i += 1;
            }
            proof {
                assert(pair_views(out@) =~= pairs(be::contents(keys@), be::contents(values@)));
            }
            Ok(out)
        },
        Some(Node::Internal { keys, children }) => {
            let mut out: Vec<(Vec<u8>, Vec<u8>)> = Vec::new();
            let mut i: usize = 0;
            proof {
                assert(children@.take(0) =~= Seq::empty());
                assert(pair_views(out@) =~= Seq::empty());
            }
            while i < children.len()
                invariant
                    i <= children@.len(),
                    node_at(img@, off as int) == Some(
                        NodeView::Internal { keys: be::contents(keys@), children: children@ },
                    ),
                    listing_of(img@, off as nat, children@.take(i as int)) == Ok::<
                        Seq<(Seq<u8>, Seq<u8>)>,
                        TreeError,
                    >(pair_views(out@)),
                decreases children@.len() - i,
            {
                let child: u64 = children[i];
                proof {
                    assert(children@.take(i + 1).drop_last() =~= children@.take(i as int));
                    assert(children@.take(i + 1).last() == child);
                }
                if child >= off {
                    proof {
                        lemma_listing_err(
                            img@,
                            off as nat,
                            children@,
                            i + 1,
                            TreeError::Misplaced,
                        );
                    }
                    return Err(TreeError::Misplaced);
                }
                match scan_node(img, child) {
                    Ok(ps) => {
                        let ghost head = out@;
                        let ghost tail = ps@;
                        let mut ps = ps;
                        out.append(&mut ps);
                        proof {
                            assert(pair_views(out@) =~= pair_views(head) + pair_views(tail));
                        }
                    },
                    Err(e) => {
                        proof {
                            lemma_listing_err(img@, off as nat, children@, i + 1, e);
                        }
                        return Err(e);
                    },
                }
                i += 1;
            }
            assert(children@.take(i as int) =~= children@);
            Ok(out)
        },
    }
}

/// Whether the keys of pairs ascend.
pub open spec fn pairs_ascend(ps: Seq<(Seq<u8>, Seq<u8>)>) -> bool {
    forall|i: int, j: int|
        0 <= i < j < ps.len() ==> order::before((#[trigger] ps[i]).0, (#[trigger] ps[j]).0)
}

proof fn lemma_within_trans(
    k: Seq<u8>,
    lo: Option<Seq<u8>>,
    hi: Option<Seq<u8>>,
    keys: Seq<Seq<u8>>,
    i: int,
)
    requires
        0 <= i <= keys.len(),
        forall|j: int| 0 <= j < keys.len() ==> strictly_within(#[trigger] keys[j], lo, hi),
        within(k, lower(keys, lo, i), upper(keys, hi, i)),
    ensures
        within(k, lo, hi),
{
    if i > 0 {
        assert(strictly_within(keys[i - 1], lo, hi));
        if let Some(l) = lo {
            if order::before(k, l) {
                order::lemma_transitive(k, l, keys[i - 1]);
            }
        }
    }
    if i < keys.len() {
        assert(strictly_within(keys[i], lo, hi));
        if let Some(h) = hi {
            order::lemma_transitive(k, keys[i], h);
        }
    }
}

/// What holds of the listing of a tree.
spec fn listed(
    img: Seq<u8>,
    off: nat,
    ps: Seq<(Seq<u8>, Seq<u8>)>,
    lo: Option<Seq<u8>>,
    hi: Option<Seq<u8>>,
) -> bool {
    &&& pairs_ascend(ps)
    &&& forall|i: int|
        0 <= i < ps.len() ==> within((#[trigger] ps[i]).0, lo, hi) && lookup(img, off, ps[i].0)
            == Ok::<Option<Seq<u8>>, TreeError>(Some(ps[i].1))
    &&& forall|k: Seq<u8>|
        #[trigger] lookup(img, off, k) == Ok::<Option<Seq<u8>>, TreeError>(None) || exists|i: int|
            0 <= i < ps.len() && (#[trigger] ps[i]).0 == k
}

proof fn lemma_listing_children(
    img: Seq<u8>,
    off: nat,
    keys: Seq<Seq<u8>>,
    children: Seq<u64>,
    lo: Option<Seq<u8>>,
    hi: Option<Seq<u8>>,
    c: int,
)
    requires
        sound(img, NodeView::Internal { keys, children }, off, lo, hi),
        0 <= c <= children.len(),
    ensures
        listing_of(img, off, children.take(c)) is Ok,
        ({
            let ps = listing_of(img, off, children.take(c))->Ok_0;
            &&& pairs_ascend(ps)
            &&& forall|i: int|
                #![trigger ps[i]]
                0 <= i < ps.len() ==> within(ps[i].0, lo, hi) && slot(keys, ps[i].0) < c
                    && lookup(img, children[slot(keys, ps[i].0)] as nat, ps[i].0) == Ok::<
                    Option<Seq<u8>>,
                    TreeError,
                >(Some(ps[i].1))
            &&& forall|k: Seq<u8>|
                slot(keys, k) < c ==> #[trigger] lookup(
                    img,
                    children[slot(keys, k)] as nat,
                    k,
                ) == Ok::<Option<Seq<u8>>, TreeError>(None) || exists|i: int|
                    0 <= i < ps.len() && (#[trigger] ps[i]).0 == k
        }),
    decreases off, 0nat, c,
{
    if c == 0 {
        assert(children.take(0) =~= Seq::empty());
        assert forall|k: Seq<u8>| slot(keys, k) < 0 implies #[trigger] lookup(
            img,
            children[slot(keys, k)] as nat,
            k,
        ) == Ok::<Option<Seq<u8>>, TreeError>(None) by {
            lemma_slot_range(keys, k);
        }
    } else {
        let d = c - 1;
        let child = children[d];
        lemma_listing_children(img, off, keys, children, lo, hi, d);
        assert(children.take(c).drop_last() =~= children.take(d));
        assert(children.take(c).last() == child);
        let lower_d = lower(keys, lo, d);
        let upper_d = upper(keys, hi, d);
        lemma_listing(img, child as nat, lower_d, upper_d);
        let head = listing_of(img, off, children.take(d))->Ok_0;
        let tail = listing(img, child as nat)->Ok_0;
        let ps = head + tail;
        assert(listing_of(img, off, children.take(c)) == Ok::<
            Seq<(Seq<u8>, Seq<u8>)>,
            TreeError,
        >(ps));
        assert forall|i: int| 0 <= i < tail.len() implies slot(keys, (#[trigger] tail[i]).0) == d
            && within(tail[i].0, lo, hi) by {
            lemma_within_trans(tail[i].0, lo, hi, keys, d);
            lemma_slot_is(keys, tail[i].0, d);
        }
        assert forall|i: int, j: int| 0 <= i < j < ps.len() implies order::before(
            (#[trigger] ps[i]).0,
            (#[trigger] ps[j]).0,
        ) by {
            if j < head.len() {
            } else if i >= head.len() {
                assert(ps[i] == tail[i - head.len()]);
                assert(ps[j] == tail[j - head.len()]);
            } else {
                let a = ps[i].0;
                let b = ps[j].0;
                assert(ps[j] == tail[j - head.len()]);
                assert(slot(keys, a) < d);
                assert(slot(keys, b) == d);
                lemma_slot_range(keys, a);
                lemma_slot_range(keys, b);
                // `a` lies below the key before slot `d` and `b` does not.
                assert(order::before(a, keys[d - 1]));
                order::lemma_total(keys[d - 1], b);
                if keys[d - 1] != b {
                    order::lemma_transitive(a, keys[d - 1], b);
                }
            }
        }
        assert forall|i: int|
            #![trigger ps[i]]
            0 <= i < ps.len() implies within(ps[i].0, lo, hi) && slot(keys, ps[i].0) < c && lookup(
            img,
            children[slot(keys, ps[i].0)] as nat,
            ps[i].0,
        ) == Ok::<Option<Seq<u8>>, TreeError>(Some(ps[i].1)) by {
            if i >= head.len() {
                assert(ps[i] == tail[i - head.len()]);
            } else {
                assert(ps[i] == head[i]);
            }
        }
        assert forall|k: Seq<u8>| slot(keys, k) < c implies #[trigger] lookup(
            img,
            children[slot(keys, k)] as nat,
            k,
        ) == Ok::<Option<Seq<u8>>, TreeError>(None) || exists|i: int|
            0 <= i < ps.len() && (#[trigger] ps[i]).0 == k by {
            if slot(keys, k) < d {
                if exists|i: int| 0 <= i < head.len() && (#[trigger] head[i]).0 == k {
                    let i = choose|i: int| 0 <= i < head.len() && (#[trigger] head[i]).0 == k;
                    assert(ps[i].0 == k);
                }
            } else {
                if exists|i: int| 0 <= i < tail.len() && (#[trigger] tail[i]).0 == k {
                    let i = choose|i: int| 0 <= i < tail.len() && (#[trigger] tail[i]).0 == k;
                    assert(ps[head.len() + i].0 == k);
                }
            }
        }
    }
}

proof fn lemma_listing(img: Seq<u8>, off: nat, lo: Option<Seq<u8>>, hi: Option<Seq<u8>>)
    requires
        tree(img, off, lo, hi),
    ensures
        listing(img, off) is Ok,
        listed(img, off, listing(img, off)->Ok_0, lo, hi),
    decreases off, 1nat, 0int,
{
    match node_at(img, off as int) {
        Some(NodeView::Leaf { keys, values }) => {
            let ps = pairs(keys, values);
            assert forall|i: int| 0 <= i < ps.len() implies within((#[trigger] ps[i]).0, lo, hi)
                && lookup(img, off, ps[i].0) == Ok::<Option<Seq<u8>>, TreeError>(
                Some(ps[i].1),
            ) by {
                lemma_leaf_value(keys, values, keys[i]);
            }
            assert forall|k: Seq<u8>|
                #[trigger] lookup(img, off, k) == Ok::<Option<Seq<u8>>, TreeError>(None)
                    || exists|i: int| 0 <= i < ps.len() && (#[trigger] ps[i]).0 == k by {
                lemma_leaf_value(keys, values, k);
                if exists|i: int| 0 <= i < keys.len() && keys[i] == k {
                    let i = choose|i: int| 0 <= i < keys.len() && keys[i] == k;
                    assert(ps[i].0 == k);
                }
            }
        },
        Some(NodeView::Internal { keys, children }) => {
            lemma_listing_children(img, off, keys, children, lo, hi, children.len() as int);
            assert(children.take(children.len() as int) =~= children);
            let ps = listing_of(img, off, children)->Ok_0;
            assert forall|k: Seq<u8>| #[trigger] lookup(img, off, k) == lookup(
                img,
                children[slot(keys, k)] as nat,
                k,
            ) by {
                lemma_slot_range(keys, k);
                assert(children[slot(keys, k)] < off);
                lemma_descend(img, keys, children, off, k);
            }
            assert forall|i: int| 0 <= i < ps.len() implies within((#[trigger] ps[i]).0, lo, hi)
                && lookup(img, off, ps[i].0) == Ok::<Option<Seq<u8>>, TreeError>(
                Some(ps[i].1),
            ) by {
                assert(lookup(img, off, ps[i].0) == lookup(
                    img,
                    children[slot(keys, ps[i].0)] as nat,
                    ps[i].0,
                ));
            }
            assert forall|k: Seq<u8>|
                #[trigger] lookup(img, off, k) == Ok::<Option<Seq<u8>>, TreeError>(None)
                    || exists|i: int| 0 <= i < ps.len() && (#[trigger] ps[i]).0 == k by {
                lemma_slot_range(keys, k);
                assert(lookup(img, off, k) == lookup(img, children[slot(keys, k)] as nat, k));
            }
        },
        None => {},
    }
}

/// The root that a file names; none for an empty or cut-off file.
pub open spec fn root_in(file: Seq<u8>) -> Option<u64> {
    if file.len() < 8 || be::u64_at(file, 0) == 0 {
        None
    } else {
        Some(be::u64_at(file, 0))
    }
}

/// The nodes that a file holds, at their offsets, with the root pointer blank.
pub open spec fn image_in(file: Seq<u8>) -> Seq<u8> {
    if root_in(file) is None {
        Seq::empty()
    } else {
        be::be64(0) + file.skip(8)
    }
}

/// The file of a tree.
pub open spec fn file_of(root: Option<u64>, image: Seq<u8>) -> Seq<u8> {
    match root {
        None => be::be64(0),
        Some(r) => be::be64(r) + image.skip(8),
    }
}

/// What the tree with the given root holds for `key`.
pub open spec fn get_in(root: Option<u64>, image: Seq<u8>, key: Seq<u8>) -> Result<
    Option<Seq<u8>>,
    TreeError,
> {
    match root {
        None => Ok(None),
        Some(r) => lookup(image, r as nat, key),
    }
}

/// Whether a search tree with the given root stands in the image.
pub open spec fn tree_in(root: Option<u64>, image: Seq<u8>) -> bool {
    match root {
        None => image.len() == 0,
        Some(r) => {
            &&& 8 <= r
            &&& 8 <= image.len()
            &&& image.take(8) == be::be64(0)
            &&& tree(image, r as nat, None, None)
        },
    }
}

/// Whether one search tree becomes another once `key` is mapped to `value`.
pub open spec fn inserted(
    before: (Option<u64>, Seq<u8>),
    key: Seq<u8>,
    value: Seq<u8>,
    after: (Option<u64>, Seq<u8>),
) -> bool {
    &&& tree_in(after.0, after.1)
    &&& after.0 is Some
    &&& forall|k: Seq<u8>| #[trigger]
        get_in(after.0, after.1, k) == with_put(get_in(before.0, before.1, k), k, key, value)
}

/// A B-tree index: it maps indexed values to primary keys.
pub struct BTree {
    image: Vec<u8>,
    root: Option<u64>,
}

impl BTree {
    /// The nodes at their offsets.
    pub closed spec fn image(&self) -> Seq<u8> {
        self.image@
    }

    /// The offset of the root.
    pub closed spec fn root(&self) -> Option<u64> {
        self.root
    }

    /// What the tree holds for `key`.
    pub open spec fn get(&self, key: Seq<u8>) -> Result<Option<Seq<u8>>, TreeError> {
        get_in(self.root(), self.image(), key)
    }

    /// Whether the image holds a search tree.
    pub open spec fn valid(&self) -> bool {
        tree_in(self.root(), self.image())
    }

    /// The tree that a file holds; the empty tree for an empty file.
    pub fn open(file: &[u8]) -> (t: BTree)
        ensures
            t.root() == root_in(file@),
            t.image() == image_in(file@),
            t.root() is None ==> t.valid(),
    {
        if file.len() < 8 {
            return BTree { image: Vec::new(), root: None };
        }
        let root: u64 = get_u64(file, 0);
        if root == 0 {
            return BTree { image: Vec::new(), root: None };
        }
        let mut image: Vec<u8> = Vec::new();
        put_u64(&mut image, 0);
        let mut nodes: Vec<u8> = copy_range(file, 8, file.len());
        image.append(&mut nodes);
        proof {
            assert(image@ =~= be::be64(0) + file@.skip(8));
        }
        BTree { image, root: Some(root) }
    }

    /// Maps `key` to `value`, in place of what it was mapped to. In a damaged
    /// tree this fails, and changes nothing, where the way down to the key does:
    /// the error is the one that a search for the key meets.
    pub fn insert(&mut self, key: &[u8], value: &[u8]) -> (r: Result<(), TreeError>)
        requires
            key@.len() <= u32::MAX,
            value@.len() <= u32::MAX,
        ensures
            old(self).valid() ==> {
                &&& r is Ok
                &&& final(self).valid()
                &&& inserted(
                    (old(self).root(), old(self).image()),
                    key@,
                    value@,
                    (final(self).root(), final(self).image()),
                )
            },
            match r {
                Ok(_) => {
                    &&& old(self).get(key@) is Ok
                    &&& final(self).root() is Some
                    &&& old(self).root() is Some ==> old(self).image().len()
                        <= final(self).root()->0
                },
                Err(e) => {
                    &&& old(self).get(key@) == Err::<Option<Seq<u8>>, TreeError>(e)
                    &&& final(self).root() == old(self).root()
                    &&& final(self).image() == old(self).image()
                },
            },
            old(self).root() is Some || old(self).image().len() == 0 ==> grown(
                old(self).image(),
                final(self).image(),
            ),
    {
        match self.root {
            None => {
                let mut image: Vec<u8> = Vec::new();
                put_u64(&mut image, 0);
                proof {
                    be::lemma_be64(0);
                    assert(image@ =~= be::be64(0));
                }
                let k: Vec<u8> = copy_range(key, 0, key.len());
                let v: Vec<u8> = copy_range(value, 0, value.len());
                let mut keys: Vec<Vec<u8>> = Vec::new();
                keys.push(k);
                let mut values: Vec<Vec<u8>> = Vec::new();
                values.push(v);
                let leaf = Node::Leaf { keys, values };
                let ghost start = image@;
                let ghost ks = seq![key@];
                let ghost vs = seq![value@];
                proof {
                    assert(k@ =~= key@);
                    assert(v@ =~= value@);
                    assert(be::contents(keys@) =~= ks);
                    assert(be::contents(values@) =~= vs);
                    assert(sound(start, leaf@, start.len(), None, None));
                    lemma_written(start, leaf@, None, None);
                }
                let o: u64 = write_node(&mut image, &leaf);
                self.image = image;
                self.root = Some(o);
                proof {
                    assert(self.image@.take(8) =~= be::be64(0));
                    assert forall|x: Seq<u8>|
                        #[trigger] self.get(x) == with_put(old(self).get(x), x, key@, value@) by {
                        lemma_leaf_value(ks, vs, x);
                        assert(lookup(self.image@, o as nat, x) == node_lookup(
                            start,
                            NodeView::Leaf { keys: ks, values: vs },
                            start.len(),
                            x,
                        ));
                        if x == key@ {
                            assert(ks[0] == x);
                        }
                    }
                }
                proof {
                    if old(self).valid() {
                        assert forall|k: Seq<u8>| #[trigger]
                            get_in(self.root(), self.image(), k) == with_put(
                                get_in(old(self).root(), old(self).image(), k),
                                k,
                                key@,
                                value@,
                            ) by {
                            assert(self.get(k) == with_put(old(self).get(k), k, key@, value@));
                        }
                    }
                    assert(old(self).image().len() == 0 ==> self.image@.subrange(0, 0)
                        =~= old(self).image());
                }
                Ok(())
            },
            Some(r) => {
                let ghost start = self.image@;
                let placed = match insert_into_node(
                    &mut self.image,
                    r,
                    key,
                    value,
                    Ghost(None),
                    Ghost(None),
                ) {
                    Ok(p) => p,
                    Err(e) => return Err(e),
                };
                let ghost between = self.image@;
                assert(grown(start, between));
                match placed {
                    Placed::One(o) => {
                        self.root = Some(o);
                        proof {
                            if old(self).valid() {
                                lemma_root_kept(start, between, o as nat);
                                assert forall|x: Seq<u8>|
                                    #[trigger] self.get(x) == with_put(
                                        old(self).get(x),
                                        x,
                                        key@,
                                        value@,
                                    ) by {
                                    assert(placed_lookup(between, placed, x) == lookup(
                                        between,
                                        o as nat,
                                        x,
                                    ));
                                }
                            }
                        }
                    },
                    Placed::Split(m, left, right) => {
                        let ghost gm = m@;
                        let mut keys: Vec<Vec<u8>> = Vec::new();
                        keys.push(m);
                        let mut children: Vec<u64> = Vec::new();
                        children.push(left);
                        children.push(right);
                        let top = Node::Internal { keys, children };
                        let ghost ks = seq![gm];
                        let ghost cs = seq![left, right];
                        let ghost n = NodeView::Internal { keys: ks, children: cs };
                        proof {
                            assert(be::contents(keys@) =~= ks);
                            assert(children@ =~= cs);
                            assert(top@ == n);
                            if old(self).valid() {
                                assert forall|i: int| 0 <= i < cs.len() implies (#[trigger] cs[i])
                                    < between.len() && tree(
                                    between,
                                    cs[i] as nat,
                                    lower(ks, None, i),
                                    upper(ks, None, i),
                                ) by {
                                    if i == 0 {
                                        assert(upper(ks, None, 0) == Some(gm));
                                    } else {
                                        assert(lower(ks, None, 1) == Some(gm));
                                    }
                                }
                                assert(sound(between, n, between.len(), None, None));
                                lemma_written(between, n, None, None);
                            }
                        }
                        let o: u64 = write_node(&mut self.image, &top);
                        self.root = Some(o);
                        proof {
                            if old(self).valid() {
                                lemma_root_kept(start, between, r as nat);
                                assert(self.image@.take(8) =~= between.take(8));
                                assert forall|x: Seq<u8>|
                                    #[trigger] self.get(x) == with_put(
                                        old(self).get(x),
                                        x,
                                        key@,
                                        value@,
                                    ) by {
                                    assert(placed_lookup(between, placed, x) == with_put(
                                        old(self).get(x),
                                        x,
                                        key@,
                                        value@,
                                    ));
                                    assert(lookup(self.image@, o as nat, x) == node_lookup(
                                        between,
                                        n,
                                        between.len(),
                                        x,
                                    ));
                                    if order::before(x, gm) {
                                        lemma_slot_is(ks, x, 0);
                                    } else {
                                        lemma_slot_is(ks, x, 1);
                                    }
                                    lemma_descend(between, ks, cs, between.len(), x);
                                }
                            }
                        }
                    },
                }
                proof {
                    if old(self).valid() {
                        assert forall|k: Seq<u8>| #[trigger]
                            get_in(self.root(), self.image(), k) == with_put(
                                get_in(old(self).root(), old(self).image(), k),
                                k,
                                key@,
                                value@,
                            ) by {
                            assert(self.get(k) == with_put(old(self).get(k), k, key@, value@));
                        }
                    }
                    assert(self.image@.subrange(0, start.len() as int) =~= start);
                }
                Ok(())
            },
        }
    }

    /// What `key` is mapped to.
    pub fn search(&self, key: &[u8]) -> (r: Result<Option<Vec<u8>>, TreeError>)
        ensures
            match r {
                Ok(Some(v)) => self.get(key@) == Ok::<Option<Seq<u8>>, TreeError>(Some(v@)),
                Ok(None) => self.get(key@) == Ok::<Option<Seq<u8>>, TreeError>(None),
                Err(e) => self.get(key@) == Err::<Option<Seq<u8>>, TreeError>(e),
            },
    {
        match self.root {
            None => Ok(None),
            Some(r) => search_in_node(self.image.as_slice(), r, key),
        }
    }

    /// All pairs, in ascending order of their keys.
    pub fn scan(&self) -> (r: Result<Vec<(Vec<u8>, Vec<u8>)>, TreeError>)
        ensures
            self.root() is None ==> (r matches Ok(ps) && ps@.len() == 0),
            self.root() matches Some(root) ==> match r {
                Ok(ps) => listing(self.image(), root as nat) == Ok::<
                    Seq<(Seq<u8>, Seq<u8>)>,
                    TreeError,
                >(pair_views(ps@)),
                Err(e) => listing(self.image(), root as nat) == Err::<
                    Seq<(Seq<u8>, Seq<u8>)>,
                    TreeError,
                >(e),
            },
    {
        match self.root {
            None => Ok(Vec::new()),
            Some(r) => scan_node(self.image.as_slice(), r),
        }
    }

    /// The size of the image. What an insert adds stands behind it.
    pub fn image_len(&self) -> (n: usize)
        ensures
            n == self.image().len(),
    {
        self.image.len()
    }

    /// The part of the image from `from` on.
    pub fn image_from(&self, from: usize) -> (bytes: Vec<u8>)
        requires
            from <= self.image().len(),
        ensures
            bytes@ == self.image().skip(from as int),
    {
        let bytes = copy_range(self.image.as_slice(), from, self.image.len());
        assert(bytes@ =~= self.image@.skip(from as int));
        bytes
    }

    /// The root pointer as it stands at the start of the file.
    pub fn header(&self) -> (bytes: Vec<u8>)
        ensures
            bytes@ == be::be64(
                match self.root() {
                    Some(r) => r,
                    None => 0,
                },
            ),
    {
        let mut bytes: Vec<u8> = Vec::new();
        let root: u64 = match self.root {
            Some(r) => r,
            None => 0,
        };
        put_u64(&mut bytes, root);
        proof {
            assert(bytes@ =~= be::be64(root));
        }
        bytes
    }
}

proof fn lemma_root_kept(before: Seq<u8>, after: Seq<u8>, o: nat)
    requires
        grown(before, after),
        8 <= before.len(),
        before.take(8) == be::be64(0),
    ensures
        after.take(8) == be::be64(0),
        8 <= after.len(),
{
    assert(after.take(8) =~= before.take(8)) by {
        assert forall|i: int| 0 <= i < 8 implies after[i] == before[i] by {
            assert(after.subrange(0, before.len() as int)[i] == after[i]);
        }
    }
}

/// A scan of a valid tree lists its keys in ascending order, and lists exactly
/// what a search finds.
pub proof fn law_scan_lists_what_search_finds(
    root: u64,
    image: Seq<u8>,
    ps: Seq<(Seq<u8>, Seq<u8>)>,
    k: Seq<u8>,
    v: Seq<u8>,
)
    requires
        tree_in(Some(root), image),
        listing(image, root as nat) == Ok::<Seq<(Seq<u8>, Seq<u8>)>, TreeError>(ps),
    ensures
        pairs_ascend(ps),
        ps.contains((k, v)) <==> get_in(Some(root), image, k) == Ok::<
            Option<Seq<u8>>,
            TreeError,
        >(Some(v)),
{
    lemma_listing(image, root as nat, None, None);
    if ps.contains((k, v)) {
        let i = ps.index_of((k, v));
        assert(ps[i] == (k, v));
    }
    if lookup(image, root as nat, k) == Ok::<Option<Seq<u8>>, TreeError>(Some(v)) {
        let i = choose|i: int| 0 <= i < ps.len() && (#[trigger] ps[i]).0 == k;
        assert(ps[i].1 == v);
        assert(ps[i] == (k, v));
    }
}

/// A valid tree can be listed.
pub proof fn law_valid_tree_can_be_scanned(root: u64, image: Seq<u8>)
    requires
        tree_in(Some(root), image),
    ensures
        listing(image, root as nat) is Ok,
{
    lemma_listing(image, root as nat, None, None);
}

/// The value that the last of several writes gave a key.
pub open spec fn last_put(puts: Seq<(Seq<u8>, Seq<u8>)>, k: Seq<u8>) -> Option<Seq<u8>>
    decreases puts.len(),
{
    if puts.len() == 0 {
        None
    } else if puts.last().0 == k {
        Some(puts.last().1)
    } else {
        last_put(puts.drop_last(), k)
    }
}

/// Whether these are the trees that arise from an empty one, insert by insert.
pub open spec fn built(
    puts: Seq<(Seq<u8>, Seq<u8>)>,
    trees: Seq<(Option<u64>, Seq<u8>)>,
) -> bool {
    &&& trees.len() == puts.len() + 1
    &&& trees[0] == (None::<u64>, Seq::<u8>::empty())
    &&& forall|i: int|
        0 <= i < puts.len() ==> inserted(trees[i], (#[trigger] puts[i]).0, puts[i].1, trees[i + 1])
}

proof fn lemma_built(
    puts: Seq<(Seq<u8>, Seq<u8>)>,
    trees: Seq<(Option<u64>, Seq<u8>)>,
    k: Seq<u8>,
)
    requires
        built(puts, trees),
    ensures
        tree_in(trees.last().0, trees.last().1),
        get_in(trees.last().0, trees.last().1, k) == Ok::<Option<Seq<u8>>, TreeError>(
            last_put(puts, k),
        ),
        puts.len() > 0 ==> trees.last().0 is Some,
    decreases puts.len(),
{
    if puts.len() > 0 {
        let n = puts.len() - 1;
        let fewer = puts.drop_last();
        let first = trees.drop_last();
        assert forall|i: int| 0 <= i < fewer.len() implies inserted(
            first[i],
            (#[trigger] fewer[i]).0,
            fewer[i].1,
            first[i + 1],
        ) by {
            assert(fewer[i] == puts[i]);
        }
        lemma_built(fewer, first, k);
        assert(puts[n] == puts.last());
        assert(inserted(trees[n], puts[n].0, puts[n].1, trees[n + 1]));
        assert(first.last() == trees[n]);
    }
}

/// After any inserts into an empty tree, in any order and with any repetitions,
/// a search finds the last value of each key, and a scan lists each key once, in
/// ascending order, with its last value.
pub proof fn law_scan_gives_the_last_value_of_each_key(
    puts: Seq<(Seq<u8>, Seq<u8>)>,
    trees: Seq<(Option<u64>, Seq<u8>)>,
    k: Seq<u8>,
    v: Seq<u8>,
)
    requires
        built(puts, trees),
    ensures
        ({
            let (root, image) = trees.last();
            &&& get_in(root, image, k) == Ok::<Option<Seq<u8>>, TreeError>(last_put(puts, k))
            &&& root is None <==> puts.len() == 0
            &&& root matches Some(r) ==> (listing(image, r as nat) matches Ok(ps) && pairs_ascend(
                ps,
            ) && (ps.contains((k, v)) <==> last_put(puts, k) == Some(v)))
        }),
{
    lemma_built(puts, trees, k);
    let (root, image) = trees.last();
    if let Some(r) = root {
        law_valid_tree_can_be_scanned(r, image);
        law_scan_lists_what_search_finds(r, image, listing(image, r as nat)->Ok_0, k, v);
    }
}

/// A tree survives being written to a file and opened again.
pub proof fn law_tree_survives_reopening(root: Option<u64>, image: Seq<u8>, key: Seq<u8>)
    requires
        tree_in(root, image),
    ensures
        root_in(file_of(root, image)) == root,
        get_in(root_in(file_of(root, image)), image_in(file_of(root, image)), key) == get_in(
            root,
            image,
            key,
        ),
        tree_in(root_in(file_of(root, image)), image_in(file_of(root, image))),
{
    be::lemma_be64(0);
    match root {
        None => {
            assert(be::be64(0).subrange(0, 8) =~= be::be64(0));
        },
        Some(r) => {
            let file = file_of(root, image);
            be::lemma_be64(r);
            assert(file.subrange(0, 8) =~= be::be64(r));
            assert(image_in(file) =~= image) by {
                assert(image =~= image.take(8) + image.skip(8));
                assert(file.skip(8) =~= image.skip(8));
            }
        },
    }
}

/// A node is written as a byte that tells leaves from inner nodes, the number of
/// its keys, the keys, and the values or the places of its children in eight bytes
/// each. A file begins with the place of the root.
pub proof fn law_bytes_of_a_node_have_their_places(
    keys: Seq<Seq<u8>>,
    values: Seq<Seq<u8>>,
    children: Seq<u64>,
    i: int,
    root: u64,
    image: Seq<u8>,
)
    requires
        keys.len() <= u32::MAX,
    ensures
        ({
            let leaf = node_bytes(NodeView::Leaf { keys, values });
            let inner = node_bytes(NodeView::Internal { keys, children });
            let at = 5 + be::fields(keys).len();
            &&& leaf[0] == 0
            &&& be::u32_at(leaf, 1) == keys.len()
            &&& leaf.subrange(5, at as int) == be::fields(keys)
            &&& leaf.skip(at as int) == be::fields(values)
            &&& inner[0] == 1
            &&& be::u32_at(inner, 1) == keys.len()
            &&& inner.subrange(5, at as int) == be::fields(keys)
            &&& inner.len() == at + 8 * children.len()
            &&& 0 <= i < children.len() ==> be::u64_at(inner, at + 8 * i) == children[i]
        }),
        be::u64_at(file_of(Some(root), image), 0) == root,
        file_of(Some(root), image).skip(8) == image.skip(8),
        file_of(None, image) == seq![0u8, 0u8, 0u8, 0u8, 0u8, 0u8, 0u8, 0u8],
{
    let n = keys.len() as u32;
    let leaf = node_bytes(NodeView::Leaf { keys, values });
    let inner = node_bytes(NodeView::Internal { keys, children });
    let at = 5 + be::fields(keys).len();
    be::lemma_be32(n);
    be::lemma_be64(root);
    assert(leaf.subrange(1, 5) =~= be::be32(n));
    be::lemma_u32_at(leaf, 1, n);
    assert(leaf.subrange(5, at as int) =~= be::fields(keys));
    assert(leaf.skip(at as int) =~= be::fields(values));
    lemma_places(children, i);
    assert(inner.subrange(1, 5) =~= be::be32(n));
    be::lemma_u32_at(inner, 1, n);
    assert(inner.subrange(5, at as int) =~= be::fields(keys));
    if 0 <= i < children.len() {
        be::lemma_be64(children[i]);
        assert(inner.subrange(at + 8 * i, at + 8 * i + 8) =~= offsets(children).subrange(
            8 * i,
            8 * i + 8,
        ));
        be::lemma_u64_at(inner, at + 8 * i, children[i]);
    }
    let file = file_of(Some(root), image);
    assert(file.subrange(0, 8) =~= be::be64(root));
    be::lemma_u64_at(file, 0, root);
    assert(file.skip(8) =~= image.skip(8));
    reveal(be::be32);
    reveal(be::be64);
    assert(be::be64(0) =~= seq![0u8, 0u8, 0u8, 0u8, 0u8, 0u8, 0u8, 0u8]);
}

proof fn lemma_places(cs: Seq<u64>, i: int)
    ensures
        offsets(cs).len() == 8 * cs.len(),
        0 <= i < cs.len() ==> offsets(cs).subrange(8 * i, 8 * i + 8) == be::be64(cs[i]),
    decreases cs.len(),
{
    if cs.len() > 0 {
        let head = cs.drop_last();
        lemma_places(head, i);
        be::lemma_be64(cs.last());
        if 0 <= i < head.len() {
            assert(head[i] == cs[i]);
            assert(offsets(cs).subrange(8 * i, 8 * i + 8) =~= offsets(head).subrange(
                8 * i,
                8 * i + 8,
            ));
        } else if i == head.len() {
            assert(offsets(cs).subrange(8 * i, 8 * i + 8) =~= be::be64(cs.last()));
        }
    }
}

} // verus!
