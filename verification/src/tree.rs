//! Tree engine: owns the byte image and the parsed header; computes node size
//! and node count; performs positional byte-offset/bit-shift arithmetic;
//! executes bit-exact record reads and read-modify-write record writes; and
//! grows the image when writing beyond the current extent.
//!
//! A node view is a plain value (position plus decoded subitems); every
//! navigation or mutation operation takes the tree it belongs to by explicit
//! reference, so at most one operation is in flight per tree at a time.
use vstd::prelude::*;

verus! {

use vstd::arithmetic::div_mod::lemma_fundamental_div_mod;
use vstd::arithmetic::div_mod::lemma_fundamental_div_mod_converse;
use vstd::arithmetic::div_mod::lemma_div_is_ordered;
use vstd::arithmetic::div_mod::lemma_div_is_ordered_by_denominator;
use vstd::arithmetic::div_mod::lemma_div_multiples_vanish;
use vstd::arithmetic::div_mod::lemma_mod_pos_bound;
use vstd::arithmetic::mul::lemma_mul_is_commutative;
use vstd::arithmetic::mul::lemma_mul_is_distributive_add;
use vstd::arithmetic::mul::lemma_mul_inequality;
use vstd::arithmetic::mul::lemma_mul_is_distributive_add_other_way;
use vstd::arithmetic::mul::lemma_mul_nonnegative;
use crate::span::read_bit_range;
use crate::span::write_bit_range;
use vstd::arithmetic::power2::lemma2_to64;
use vstd::arithmetic::power2::lemma_pow2_adds;
use vstd::arithmetic::power2::lemma_pow2_strictly_increases;
use vstd::arithmetic::power2::lemma_pow2_unfold;
use vstd::arithmetic::power2::pow2;
use crate::header::decode_header;
use crate::header::declared_count;
use crate::header::encode_header;
use crate::header::header_bytes;
use crate::header::header_parses;
use crate::header::header_prefix_ok;
use crate::header::lemma_header_round_trip;
use crate::header::spec_identifier;
use crate::header::spec_version;
use crate::utils::bits_of_bytes;
use crate::utils::byte_bit;
use crate::Feature;
use crate::NodeError;
use crate::TreeFileError;
use crate::TreeOpenMode;

/// The sum of the subitem widths, in bits.
pub open spec fn sum_widths(widths: Seq<u32>) -> nat
    decreases widths.len(),
{
    if widths.len() == 0 {
        0
    } else {
        sum_widths(widths.drop_last()) + widths.last() as nat
    }
}

/// ⌊log2(n)⌋, taken as 0 at 0.
pub open spec fn floor_log2(n: nat) -> nat
    decreases n,
{
    if n < 2 {
        0
    } else {
        1 + floor_log2(n / 2)
    }
}

/// A tree file image.
#[derive(Debug)]
pub struct Tree {
    /// The byte image of the tree file.
    pub storage: Vec<u8>,
    /// The mode in which the tree file was opened.
    pub mode: TreeOpenMode,
    /// The total size (in bytes) of the headers.
    pub header_size: usize,
    /// The features supported by the tree file.
    pub features: Vec<Feature>,
    /// The size of each node subitem in bits.
    pub subitems: Vec<u32>,
}

/// A node of the tree: its level-order position and its decoded subitems.
#[derive(Debug)]
pub struct Node {
    /// The traversal position.
    pub position: u128,
    /// The node's subitems in bits.
    pub subitems: Vec<Vec<bool>>,
}

/// A byte-image length within machine range: it fits a `usize`, and its bit
/// count fits a `u64`.
pub open spec fn len_fits(len: int) -> bool {
    len <= usize::MAX && 8 * len <= u64::MAX
}

impl Tree {
    /// The Disabling feature is active.
    pub open spec fn disabling(self) -> bool {
        self.features@.contains(Feature::Disabling)
    }

    /// Node size in bits: the sum of the subitem widths, plus one presence
    /// bit when the Disabling feature is active.
    pub open spec fn node_size_spec(self) -> nat {
        sum_widths(self.subitems@) + if self.disabling() {
            1nat
        } else {
            0nat
        }
    }

    /// The bits of the node-record region, after the header bytes.
    pub open spec fn data_bits(self) -> Seq<bool> {
        bits_of_bytes(self.storage@).skip(8 * self.header_size as int)
    }

    /// The number of whole records the record region holds.
    pub open spec fn node_count_spec(self) -> nat {
        self.data_bits().len() / self.node_size_spec()
    }

    /// The record bits of the node at `position`.
    pub open spec fn record_bits(self, position: int) -> Seq<bool> {
        self.data_bits().subrange(
            position * self.node_size_spec(),
            position * self.node_size_spec() + self.node_size_spec(),
        )
    }

    /// The node at `position` is enabled: always, unless the Disabling
    /// feature is active and the record's presence bit is clear.
    pub open spec fn record_enabled(self, position: int) -> bool {
        !self.disabling() || self.record_bits(position)[0]
    }

    /// The record's payload: its bits after the presence bit, if any.
    pub open spec fn payload_bits(self, position: int) -> Seq<bool> {
        if self.disabling() {
            self.record_bits(position).skip(1)
        } else {
            self.record_bits(position)
        }
    }

    /// The bits of subitem `i` of the node at `position`.
    pub open spec fn node_subitem(self, position: int, i: int) -> Seq<bool> {
        self.payload_bits(position).subrange(
            sum_widths(self.subitems@.take(i)) as int,
            sum_widths(self.subitems@.take(i)) as int + self.subitems@[i] as int,
        )
    }

    /// A record exists at `position` and reads as enabled.
    pub open spec fn node_ok(self, position: int) -> bool {
        &&& 0 <= position < self.node_count_spec()
        &&& self.record_enabled(position)
    }

    /// Structural well-formedness: the cached header fields agree with the
    /// header encoded at the front of the byte image.
    pub open spec fn wf(self) -> bool {
        &&& self.header_size == 16 + 4 * self.subitems@.len()
        &&& self.subitems@.len() <= u32::MAX
        &&& self.storage@.len() >= self.header_size
        &&& header_parses(self.storage@, self.disabling(), self.subitems@)
    }

    /// The schema and image on which the engine's arithmetic stays in machine
    /// range: at least one bit per record, a node size that fits a `u32`, and
    /// an image whose bit count fits a `u64`.
    pub open spec fn usable(self) -> bool {
        &&& 1 <= self.node_size_spec()
        &&& self.node_size_spec() <= u32::MAX
        &&& self.node_size_spec() + 15 <= usize::MAX
        &&& len_fits(self.storage@.len() as int)
    }
}

/// The views of a sequence of bit vectors.
pub open spec fn bits_view(items: Seq<Vec<bool>>) -> Seq<Seq<bool>> {
    Seq::new(items.len(), |i: int| items[i]@)
}

/// The provided subitems' bit lengths match the schema widths exactly.
pub open spec fn widths_match(items: Seq<Seq<bool>>, widths: Seq<u32>) -> bool {
    &&& items.len() == widths.len()
    &&& forall|i: int| 0 <= i < widths.len() ==> #[trigger] items[i].len() == widths[i]
}

/// The concatenation of the subitems' bits, in schema order.
pub open spec fn concat_bits(items: Seq<Seq<bool>>) -> Seq<bool>
    decreases items.len(),
{
    if items.len() == 0 {
        Seq::empty()
    } else {
        concat_bits(items.drop_last()) + items.last()
    }
}

/// The record bits written for a node: the presence bit (set iff the node is
/// not disabled) when Disabling is active, then the subitems concatenated.
pub open spec fn record_of(disabling: bool, disabled: bool, items: Seq<Seq<bool>>) -> Seq<bool> {
    (if disabling {
        seq![!disabled]
    } else {
        Seq::<bool>::empty()
    }) + concat_bits(items)
}

/// Concatenated subitems that match the schema have the schema's total width.
pub proof fn lemma_concat_bits_len(items: Seq<Seq<bool>>, widths: Seq<u32>)
    requires
        widths_match(items, widths),
    ensures
        concat_bits(items).len() == sum_widths(widths),
    decreases items.len(),
{
    if items.len() > 0 {
        assert(widths_match(items.drop_last(), widths.drop_last()));
        lemma_concat_bits_len(items.drop_last(), widths.drop_last());
    }
}

/// A record that matches the schema has the schema's record size.
pub proof fn lemma_record_of_len(disabling: bool, disabled: bool, items: Seq<Seq<bool>>, widths: Seq<u32>)
    requires
        widths_match(items, widths),
    ensures
        record_of(disabling, disabled, items).len() == sum_widths(widths) + (if disabling {
            1nat
        } else {
            0nat
        }),
{
    lemma_concat_bits_len(items, widths);
}

/// Each subitem sits at its own slot of the concatenation, located by the
/// prefix sum of the schema widths.
pub proof fn lemma_concat_bits_slot(items: Seq<Seq<bool>>, widths: Seq<u32>, i: int)
    requires
        widths_match(items, widths),
        0 <= i < items.len(),
    ensures
        concat_bits(items).subrange(
            sum_widths(widths.take(i)) as int,
            sum_widths(widths.take(i)) as int + widths[i] as int,
        ) == items[i],
    decreases items.len(),
{
    lemma_concat_bits_len(items, widths);
    assert(widths_match(items.drop_last(), widths.drop_last()));
    lemma_concat_bits_len(items.drop_last(), widths.drop_last());
    if i == items.len() - 1 {
        assert(widths.take(i) =~= widths.drop_last());
        assert(concat_bits(items).subrange(
            sum_widths(widths.take(i)) as int,
            sum_widths(widths.take(i)) as int + widths[i] as int,
        ) =~= items.last());
    } else {
        lemma_concat_bits_slot(items.drop_last(), widths.drop_last(), i);
        assert(widths.drop_last().take(i) =~= widths.take(i));
        lemma_sum_widths_take_step(widths, i);
        lemma_sum_widths_take_bound(widths.drop_last(), i + 1);
        assert(widths.drop_last().take(i + 1) =~= widths.take(i + 1));
        assert(sum_widths(widths.take(i)) + widths[i] <= sum_widths(widths.drop_last()));
        assert(concat_bits(items).subrange(
            sum_widths(widths.take(i)) as int,
            sum_widths(widths.take(i)) as int + widths[i] as int,
        ) =~= concat_bits(items.drop_last()).subrange(
            sum_widths(widths.take(i)) as int,
            sum_widths(widths.take(i)) as int + widths[i] as int,
        ));
    }
}

/// A step of building the concatenation one subitem at a time.
pub proof fn lemma_concat_bits_take_step(items: Seq<Seq<bool>>, i: int)
    requires
        0 <= i < items.len(),
    ensures
        concat_bits(items.take(i + 1)) == concat_bits(items.take(i)) + items[i],
{
    assert(items.take(i + 1).drop_last() =~= items.take(i));
    assert(items.take(i + 1).last() == items[i]);
}

/// The position of the parent of a non-root position.
pub open spec fn parent_position(position: int) -> int {
    (position - 1) / 2
}

/// The canonical complete-binary-tree child position: `2 × position + 1` for
/// the left child (index 0) and `2 × position + 2` for the right (index 1).
pub open spec fn child_position(position: int, index: int) -> int {
    2 * position + 1 + index
}

/// The outcome of writing the record built from `items` at `position`:
/// width validation happens before any byte is touched, a collision is
/// reported before any growth, and otherwise the image transitions by
/// `updated_at` and the result is the confirming re-read.
pub open spec fn is_set_node_result(
    pre: Tree,
    post: Tree,
    items: Seq<Seq<bool>>,
    position: int,
    overwrite: bool,
    disabled: bool,
    r: Result<Node, NodeError>,
) -> bool {
    match r {
        Err(NodeError::InvalidSubitem) => post == pre && !widths_match(items, pre.subitems@),
        Err(NodeError::NodeAlreadyExists) => post == pre && widths_match(items, pre.subitems@)
            && !overwrite && position < pre.node_count_spec(),
        Err(NodeError::Disabled) => widths_match(items, pre.subitems@) && (overwrite || position
            >= pre.node_count_spec()) && disabled && pre.disabling() && pre.updated_at(
            post,
            position,
            record_of(pre.disabling(), disabled, items),
        ),
        Ok(node) => widths_match(items, pre.subitems@) && (overwrite || position
            >= pre.node_count_spec()) && !(disabled && pre.disabling()) && pre.updated_at(
            post,
            position,
            record_of(pre.disabling(), disabled, items),
        ) && node.position as int == position && node.subitems@.len() == items.len() && (forall|
            i: int,
        |
            0 <= i < items.len() ==> #[trigger] node.subitems@[i]@ == items[i]),
        _ => false,
    }
}

/// The outcome of reading the node at `position` from `tree`: `Unexistent`
/// exactly beyond the current node count, `Disabled` exactly on a present
/// record whose presence bit is clear, and otherwise the decoded subitems.
pub open spec fn is_node_read(tree: Tree, position: nat, r: Result<Node, NodeError>) -> bool {
    match r {
        Err(NodeError::Unexistent) => position >= tree.node_count_spec(),
        Err(NodeError::Disabled) => {
            &&& position < tree.node_count_spec()
            &&& tree.disabling()
            &&& !tree.record_bits(position as int)[0]
        },
        Ok(node) => {
            &&& tree.node_ok(position as int)
            &&& node.position as nat == position
            &&& node.subitems@.len() == tree.subitems@.len()
            &&& forall|i: int|
                0 <= i < tree.subitems@.len() ==> #[trigger] node.subitems@[i]@
                    == tree.node_subitem(position as int, i)
        },
        _ => false,
    }
}

/// Whether a feature list contains the Disabling feature.
fn vec_has_disabling(features: &Vec<Feature>) -> (r: bool)
    ensures
        r == features@.contains(Feature::Disabling),
{
    let mut i: usize = 0;
    while i < features.len()
        invariant
            i <= features@.len(),
            forall|t: int| 0 <= t < i ==> features@[t] != Feature::Disabling,
        decreases features@.len() - i,
    {
        if features[i] == Feature::Disabling {
            return true;
        }
        i = i + 1;
    }
    false
}

/// A prefix sum of widths grows by the next width.
pub proof fn lemma_sum_widths_take_step(widths: Seq<u32>, i: int)
    requires
        0 <= i < widths.len(),
    ensures
        sum_widths(widths.take(i + 1)) == sum_widths(widths.take(i)) + widths[i],
{
    assert(widths.take(i + 1).drop_last() =~= widths.take(i));
    assert(widths.take(i + 1).last() == widths[i]);
}

/// A prefix sum of widths is bounded by the whole sum.
pub proof fn lemma_sum_widths_take_bound(widths: Seq<u32>, i: int)
    requires
        0 <= i <= widths.len(),
    ensures
        sum_widths(widths.take(i)) <= sum_widths(widths),
    decreases widths.len() - i,
{
    if i == widths.len() {
        assert(widths.take(i) =~= widths);
    } else {
        lemma_sum_widths_take_step(widths, i);
        lemma_sum_widths_take_bound(widths, i + 1);
    }
}

/// ⌊log2(x)⌋ for positive x.
fn floor_log2_u128(x: u128) -> (r: u32)
    requires
        x >= 1,
    ensures
        r as nat == floor_log2(x as nat),
{
    let mut v: u128 = x;
    let mut r: u32 = 0;
    proof {
        lemma2_to64();
    }
    while v >= 2
        invariant
            1 <= v <= x,
            floor_log2(x as nat) == r + floor_log2(v as nat),
            pow2(r as nat) * v as nat <= x as nat,
            r <= 127,
        decreases v,
    {
        proof {
            lemma_pow2_unfold(r as nat + 1);
            lemma_fundamental_div_mod(v as int, 2);
            assert(pow2(r as nat + 1) * ((v as nat) / 2) <= pow2(r as nat) * (v as nat))
                by (nonlinear_arith)
                requires
                    pow2(r as nat + 1) == 2 * pow2(r as nat),
                    2 * ((v as nat) / 2) <= v as nat,
            ;
            assert(1 <= (v as nat) / 2) by {
                assert(v >= 2);
            }
            assert(pow2(r as nat + 1) <= pow2(r as nat + 1) * ((v as nat) / 2)) by (
            nonlinear_arith)
                requires
                    1 <= (v as nat) / 2,
            ;
            if r as nat + 1 >= 128 {
                lemma2_to64();
                lemma_pow2_adds(64, 64);
                if r as nat + 1 > 128 {
                    lemma_pow2_strictly_increases(128, r as nat + 1);
                }
                assert(pow2(128) <= pow2(r as nat + 1));
                assert(pow2(64) == 0x10000000000000000);
                assert(pow2(128) == 0x100000000000000000000000000000000);
                assert(false);
            }
        }
        v = v / 2;
        r = r + 1;
    }
    r
}

impl Tree {
    /// Open a tree from the byte image of an existent tree file.
    pub fn open(storage: Vec<u8>, mode: TreeOpenMode) -> (r: Result<Tree, TreeFileError>)
        ensures
            match r {
                Ok(tree) => {
                    &&& tree.wf()
                    &&& tree.storage@ == storage@
                    &&& tree.mode == mode
                    &&& header_parses(storage@, tree.disabling(), tree.subitems@)
                    &&& tree.features@ == (if byte_bit(storage@[10], 0) {
                        seq![Feature::Disabling]
                    } else {
                        Seq::<Feature>::empty()
                    })
                },
                Err(TreeFileError::MissingHeaders) => storage@.len() < 16 || (header_prefix_ok(
                    storage@,
                ) && storage@.len() < 16 + 4 * declared_count(storage@)),
                Err(TreeFileError::InvalidIdentifier) => storage@.len() >= 16 && storage@.subrange(
                    0,
                    8,
                ) != spec_identifier(),
                Err(TreeFileError::UnsupportedFormatVersion) => storage@.len() >= 16
                    && storage@.subrange(0, 8) == spec_identifier() && storage@.subrange(8, 10)
                    != spec_version(),
                _ => false,
            },
    {
        let parsed = match decode_header(&storage) {
            Ok(parsed) => parsed,
            Err(e) => {
                return Err(e);
            },
        };
        let features: Vec<Feature> = parsed.0;
        let subitems: Vec<u32> = parsed.1;
        let image_len: usize = storage.len();
        proof {
            assert(image_len >= 16 + 4 * subitems@.len());
        }
        let header_size: usize = 16 + 4 * subitems.len();
        Ok(Tree { storage, mode, header_size, features, subitems })
    }

    /// Create a new tree image holding only the encoded header for the
    /// requested features and subitem widths.
    pub fn create(mode: TreeOpenMode, features: Vec<Feature>, subitems: Vec<u32>) -> (tree: Tree)
        requires
            subitems@.len() <= u32::MAX,
            sum_widths(subitems@) + 1 <= u32::MAX,
            sum_widths(subitems@) + 16 <= usize::MAX,
        ensures
            tree.wf(),
            tree.mode == mode,
            tree.features@ == features@,
            tree.subitems@ == subitems@,
            tree.storage@ == header_bytes(features@.contains(Feature::Disabling), subitems@),
            tree.data_bits().len() == 0,
            tree.node_size_spec() >= 1 ==> tree.usable() && tree.node_count_spec() == 0,
    {
        let disabling: bool = vec_has_disabling(&features);
        let storage: Vec<u8> = encode_header(disabling, &subitems);
        proof {
            lemma_header_round_trip(disabling, subitems@);
        }
        let header_size: usize = storage.len();
        let tree = Tree { storage, mode, header_size, features, subitems };
        proof {
            assert(tree.data_bits().len() == 0);
            assert(8 * tree.storage@.len() <= 8 * (16 + 4 * 0x1_0000_0000));
        }
        tree
    }

    /// The total node size in bits (including the presence bit when the
    /// Disabling feature is supported).
    pub fn node_size(&self) -> (size: u32)
        requires
            self.node_size_spec() <= u32::MAX,
        ensures
            size as nat == self.node_size_spec(),
    {
        let mut size: u32 = 0;
        let mut i: usize = 0;
        while i < self.subitems.len()
            invariant
                i <= self.subitems@.len(),
                self.node_size_spec() <= u32::MAX,
                size as nat == sum_widths(self.subitems@.take(i as int)),
            decreases self.subitems@.len() - i,
        {
            proof {
                lemma_sum_widths_take_step(self.subitems@, i as int);
                lemma_sum_widths_take_bound(self.subitems@, i as int + 1);
            }
            size = size + self.subitems[i];
            i = i + 1;
        }
        proof {
            assert(self.subitems@.take(self.subitems@.len() as int) =~= self.subitems@);
        }
        if self.has_disabling() {
            size = size + 1;
        }
        size
    }

    /// Whether the tree's format supports the Disabling feature.
    pub fn has_disabling(&self) -> (r: bool)
        ensures
            r == self.disabling(),
    {
        vec_has_disabling(&self.features)
    }

    /// The number of whole node records the image holds. Might return a
    /// slightly low value when the image's trailing bits are fewer than one
    /// full record; that approximation is accepted behavior.
    pub fn nodes(&self) -> (count: u64)
        requires
            self.wf(),
            self.usable(),
        ensures
            count as nat == self.node_count_spec(),
    {
        let data_len: usize = self.storage.len() - self.header_size;
        let size: u32 = self.node_size();
        ((data_len as u64) * 8) / (size as u64)
    }

    /// The image length after a write at `position`: grown to cover every
    /// position up to and including it, never shrunk.
    pub open spec fn spec_grown_len(self, position: int) -> int {
        let needed = self.header_size + ((position + 1) * self.node_size_spec() + 7) / 8;
        if needed > self.storage@.len() {
            needed
        } else {
            self.storage@.len() as int
        }
    }

    /// A write at `position` keeps the image within machine range.
    pub open spec fn fits_growth(self, position: int) -> bool {
        len_fits(self.spec_grown_len(position))
    }

    /// The image transition of writing record `rec` at `position`: the image
    /// grows just enough to cover the position, the record's bit range holds
    /// `rec`, every other previously stored bit is unchanged, bits newly
    /// materialized by growth are zero, and the header bytes, schema, and
    /// mode stay as they were.
    pub open spec fn updated_at(self, post: Tree, position: int, rec: Seq<bool>) -> bool {
        let s = 8 * self.header_size + position * self.node_size_spec();
        &&& post.storage@.len() == self.spec_grown_len(position)
        &&& post.mode == self.mode
        &&& post.header_size == self.header_size
        &&& post.features@ == self.features@
        &&& post.subitems@ == self.subitems@
        &&& forall|t: int|
            0 <= t < self.header_size ==> #[trigger] post.storage@[t] == self.storage@[t]
        &&& forall|i: int|
            0 <= i < 8 * post.storage@.len() ==> #[trigger] bits_of_bytes(post.storage@)[i] == (
            if s <= i < s + rec.len() {
                rec[i - s]
            } else if i < 8 * self.storage@.len() {
                bits_of_bytes(self.storage@)[i]
            } else {
                false
            })
    }

    /// The record of a node that exists lies within the record region.
    pub proof fn lemma_record_range(self, position: int)
        requires
            self.usable(),
            0 <= position < self.node_count_spec(),
        ensures
            0 <= position * self.node_size_spec(),
            position * self.node_size_spec() + self.node_size_spec() <= self.data_bits().len(),
    {
        let ns = self.node_size_spec() as int;
        let dl = self.data_bits().len() as int;
        let count = self.node_count_spec() as int;
        lemma_fundamental_div_mod(dl, ns);
        lemma_mod_pos_bound(dl, ns);
        assert(ns * count <= dl);
        lemma_mul_inequality(position + 1, count, ns);
        lemma_mul_is_distributive_add_other_way(ns, position, 1);
        lemma_mul_nonnegative(position, ns);
        assert((position + 1) * ns == position * ns + ns);
        assert(count * ns == ns * count) by {
            vstd::arithmetic::mul::lemma_mul_is_commutative(count, ns);
        }
    }

    /// Arithmetic facts about the grown image length for a write at `position`.
    pub proof fn lemma_grown_len(self, position: int)
        requires
            self.wf(),
            self.usable(),
            0 <= position,
        ensures
            self.spec_grown_len(position) >= self.storage@.len(),
            (position + 1) * self.node_size_spec() <= 8 * (self.spec_grown_len(position)
                - self.header_size),
            position >= self.node_count_spec() ==> self.spec_grown_len(position)
                == self.header_size + ((position + 1) * self.node_size_spec() + 7) / 8
                && self.spec_grown_len(position) > self.storage@.len(),
            position < self.node_count_spec() ==> self.spec_grown_len(position)
                == self.storage@.len(),
    {
        let ns = self.node_size_spec() as int;
        let hs = self.header_size as int;
        let len = self.storage@.len() as int;
        let dl = 8 * (len - hs);
        let count = self.node_count_spec() as int;
        let cb = ((position + 1) * ns + 7) / 8;
        let needed = hs + cb;
        lemma_mul_nonnegative(position + 1, ns);
        lemma_fundamental_div_mod((position + 1) * ns + 7, 8);
        lemma_mod_pos_bound((position + 1) * ns + 7, 8);
        assert((position + 1) * ns <= 8 * cb <= (position + 1) * ns + 7);
        lemma_fundamental_div_mod(dl, ns);
        lemma_mod_pos_bound(dl, ns);
        assert(self.data_bits().len() == dl);
        assert(dl == ns * count + dl % ns);
        if position >= count {
            assert(dl < ns * (count + 1)) by {
                lemma_mul_is_distributive_add(ns, count, 1);
            }
            lemma_mul_inequality(count + 1, position + 1, ns);
            lemma_mul_is_commutative(count + 1, ns);
            assert(dl < (position + 1) * ns);
            assert(8 * (needed - hs) >= (position + 1) * ns);
            assert(needed > len);
        } else {
            lemma_mul_inequality(position + 1, count, ns);
            lemma_mul_is_commutative(position + 1, ns);
            lemma_mul_is_commutative(count, ns);
            assert((position + 1) * ns <= dl);
            lemma_div_is_ordered((position + 1) * ns + 7, dl + 7, 8);
            crate::utils::lemma_mul8_div_mod(len - hs, 7);
            assert((dl + 7) / 8 == len - hs);
            assert(needed <= len);
        }
    }

    /// What a completed write transition means at the record level: the new
    /// record is stored at its position, the node count covers it, and every
    /// other existing record is untouched.
    pub proof fn lemma_updated_record(self, post: Tree, position: int, rec: Seq<bool>)
        requires
            self.wf(),
            self.usable(),
            0 <= position,
            rec.len() == self.node_size_spec(),
            self.fits_growth(position),
            self.updated_at(post, position, rec),
        ensures
            post.wf(),
            post.usable(),
            post.disabling() == self.disabling(),
            post.node_size_spec() == self.node_size_spec(),
            post.node_count_spec() >= position + 1,
            post.node_count_spec() >= self.node_count_spec(),
            post.record_bits(position) == rec,
            forall|q: int|
                0 <= q < self.node_count_spec() && q != position ==> post.record_bits(q)
                    == self.record_bits(q),
    {
        let ns = self.node_size_spec() as int;
        let hs = self.header_size as int;
        let len = self.storage@.len() as int;
        let plen = post.storage@.len() as int;
        let s = 8 * hs + position * ns;
        let dl = 8 * (len - hs);
        let pdl = 8 * (plen - hs);
        self.lemma_grown_len(position);
        assert(post.disabling() == self.disabling());
        assert(post.node_size_spec() == self.node_size_spec());
        assert(post.data_bits().len() == pdl);
        // the header bytes are unchanged, so the header still parses
        assert(post.storage@.subrange(0, 8) =~= self.storage@.subrange(0, 8));
        assert(post.storage@.subrange(8, 10) =~= self.storage@.subrange(8, 10));
        assert(post.storage@[10] == self.storage@[10]);
        assert(post.storage@.subrange(12, 16) =~= self.storage@.subrange(12, 16));
        assert forall|i: int| 0 <= i < post.subitems@.len() implies #[trigger] post.storage@
            .subrange(16 + 4 * i, 20 + 4 * i) == self.storage@.subrange(16 + 4 * i, 20 + 4 * i) by {
            assert(post.storage@.subrange(16 + 4 * i, 20 + 4 * i) =~= self.storage@.subrange(
                16 + 4 * i,
                20 + 4 * i,
            ));
        }
        assert(post.wf());
        // node counts
        lemma_mul_nonnegative(position, ns);
        assert((position + 1) * ns == position * ns + ns) by {
            lemma_mul_is_distributive_add_other_way(ns, position, 1);
        }
        assert((position + 1) * ns <= pdl);
        lemma_div_is_ordered((position + 1) * ns, pdl, ns);
        lemma_mul_is_commutative(position + 1, ns);
        lemma_div_multiples_vanish(position + 1, ns);
        assert(post.node_count_spec() >= position + 1);
        lemma_div_is_ordered(dl, pdl, ns);
        assert(post.node_count_spec() >= self.node_count_spec());
        // the written record reads back
        assert forall|k: int| 0 <= k < ns implies post.data_bits()[position * ns + k] == rec[k] by {
            assert(bits_of_bytes(post.storage@)[s + k] == rec[k]);
        }
        assert(post.record_bits(position) =~= rec);
        // every other existing record is untouched
        assert forall|q: int|
            0 <= q < self.node_count_spec() && q != position implies post.record_bits(q)
            == self.record_bits(q) by {
            self.lemma_record_range(q);
            assert((q + 1) * ns == q * ns + ns) by {
                lemma_mul_is_distributive_add_other_way(ns, q, 1);
            }
            if q < position {
                lemma_mul_inequality(q + 1, position, ns);
            } else {
                lemma_mul_inequality(position + 1, q, ns);
            }
            assert forall|k: int| 0 <= k < ns implies #[trigger] post.data_bits()[q * ns + k]
                == self.data_bits()[q * ns + k] by {
                let i = 8 * hs + q * ns + k;
                assert(bits_of_bytes(post.storage@)[i] == bits_of_bytes(self.storage@)[i]);
            }
            assert(post.record_bits(q) =~= self.record_bits(q));
        }
    }

    /// Decoding a record built by `record_of` recovers the subitems and the
    /// enabled state it was built from.
    pub proof fn lemma_record_decode(self, position: int, disabled: bool, items: Seq<Seq<bool>>)
        requires
            widths_match(items, self.subitems@),
            self.record_bits(position) == record_of(self.disabling(), disabled, items),
        ensures
            self.record_enabled(position) == (!self.disabling() || !disabled),
            forall|i: int| 0 <= i < items.len() ==> self.node_subitem(position, i) == items[i],
    {
        lemma_concat_bits_len(items, self.subitems@);
        assert(self.payload_bits(position) =~= concat_bits(items));
        assert forall|i: int| 0 <= i < items.len() implies self.node_subitem(position, i)
            == items[i] by {
            lemma_concat_bits_slot(items, self.subitems@, i);
            lemma_sum_widths_take_bound(self.subitems@, i);
            assert(self.node_subitem(position, i) =~= concat_bits(items).subrange(
                sum_widths(self.subitems@.take(i)) as int,
                sum_widths(self.subitems@.take(i)) as int + self.subitems@[i] as int,
            ));
        }
    }

    /// Round trip: after writing a record built from `items` at `position`,
    /// that position holds a node again, with exactly the subitems and the
    /// enabled state that were written.
    pub proof fn lemma_set_node_round_trip(
        self,
        post: Tree,
        position: int,
        disabled: bool,
        items: Seq<Seq<bool>>,
    )
        requires
            self.wf(),
            self.usable(),
            0 <= position,
            widths_match(items, self.subitems@),
            self.fits_growth(position),
            self.updated_at(post, position, record_of(self.disabling(), disabled, items)),
        ensures
            post.wf(),
            post.usable(),
            post.disabling() == self.disabling(),
            post.node_size_spec() == self.node_size_spec(),
            post.node_count_spec() >= position + 1,
            post.node_count_spec() >= self.node_count_spec(),
            post.record_enabled(position) == (!self.disabling() || !disabled),
            forall|i: int| 0 <= i < items.len() ==> post.node_subitem(position, i) == items[i],
            forall|q: int|
                0 <= q < self.node_count_spec() && q != position ==> post.record_bits(q)
                    == self.record_bits(q),
    {
        let rec = record_of(self.disabling(), disabled, items);
        lemma_record_of_len(self.disabling(), disabled, items, self.subitems@);
        self.lemma_updated_record(post, position, rec);
        post.lemma_record_decode(position, disabled, items);
    }

    /// Get a node by its traversal position.
    pub fn node(&self, position: u128) -> (r: Result<Node, NodeError>)
        requires
            self.wf(),
            self.usable(),
        ensures
            is_node_read(*self, position as nat, r),
    {
        let size32: u32 = self.node_size();
        let count: u64 = self.nodes();
        if position >= count as u128 {
            return Err(NodeError::Unexistent);
        }
        let p = position;
        proof {
            self.lemma_record_range(p as int);
        }
        let ns: u128 = size32 as u128;
        let bit_off: u128 = p * ns;
        let abs_start: u128 = 8 * (self.header_size as u128) + bit_off;
        proof {
            assert(abs_start + ns <= 8 * self.storage@.len());
            lemma_fundamental_div_mod(abs_start as int, 8);
            lemma_mod_pos_bound(abs_start as int, 8);
        }
        let start_byte: usize = (abs_start / 8) as usize;
        let pad: usize = (abs_start % 8) as usize;
        let len_bits: usize = size32 as usize;
        let bits: Vec<bool> = read_bit_range(&self.storage, start_byte, pad, len_bits);
        proof {
            assert(8 * start_byte as int + pad as int == abs_start as int);
            assert(bits@ =~= self.record_bits(p as int));
        }
        let disabling: bool = self.has_disabling();
        if disabling {
            if !bits[0] {
                return Err(NodeError::Disabled);
            }
        }
        let payload_start: usize = if disabling {
            1
        } else {
            0
        };
        let mut subitems: Vec<Vec<bool>> = Vec::new();
        let mut offset: usize = payload_start;
        let mut i: usize = 0;
        while i < self.subitems.len()
            invariant
                i <= self.subitems@.len(),
                subitems@.len() == i,
                self.usable(),
                disabling == self.disabling(),
                payload_start == (if disabling {
                    1int
                } else {
                    0int
                }),
                bits@ == self.record_bits(p as int),
                bits@.len() == self.node_size_spec(),
                offset as nat == payload_start as nat + sum_widths(self.subitems@.take(i as int)),
                forall|t: int|
                    0 <= t < i ==> #[trigger] subitems@[t]@ == self.node_subitem(p as int, t),
            decreases self.subitems@.len() - i,
        {
            proof {
                lemma_sum_widths_take_step(self.subitems@, i as int);
                lemma_sum_widths_take_bound(self.subitems@, i as int + 1);
                assert(payload_start + sum_widths(self.subitems@.take(i as int + 1))
                    <= self.node_size_spec());
            }
            let w: usize = self.subitems[i] as usize;
            let mut sub: Vec<bool> = Vec::new();
            let mut k: usize = 0;
            while k < w
                invariant
                    k <= w,
                    offset + w <= usize::MAX,
                    offset + w <= bits@.len(),
                    sub@ == bits@.subrange(offset as int, offset as int + k),
                decreases w - k,
            {
                sub.push(bits[offset + k]);
                proof {
                    assert(sub@ =~= bits@.subrange(offset as int, offset as int + k + 1));
                }
                k = k + 1;
            }
            subitems.push(sub);
            proof {
                let t = i as int;
                assert(self.payload_bits(p as int) == bits@.skip(payload_start as int));
                assert(sub@ =~= self.node_subitem(p as int, t));
            }
            offset = offset + w;
            i = i + 1;
        }
        Ok(Node { position, subitems })
    }

    /// Set a node by its traversal position. Unless `overwrite` is true, the
    /// call fails when the position already holds a decodable record, even a
    /// disabled one. A write beyond the current extent grows the image,
    /// implicitly materializing every skipped position as a zero-filled
    /// record. The write itself is a byte-aligned read-modify-write of the
    /// minimal byte span holding the record, so the neighboring records that
    /// share a boundary byte are never disturbed. Returns the re-read node at
    /// `position` as confirmation, which is the `Disabled` error when a
    /// disabled record was just written.
    #[verifier::rlimit(100)]
    pub fn set_node(
        &mut self,
        subitems: &Vec<Vec<bool>>,
        position: &u128,
        overwrite: bool,
        disabled: bool,
    ) -> (r: Result<Node, NodeError>)
        requires
            old(self).wf(),
            old(self).usable(),
            widths_match(bits_view(subitems@), old(self).subitems@) ==> old(self).fits_growth(
                *position as int,
            ),
        ensures
            final(self).wf(),
            final(self).usable(),
            is_set_node_result(
                *old(self),
                *final(self),
                bits_view(subitems@),
                *position as int,
                overwrite,
                disabled,
                r,
            ),
    {
        let ghost pre = *old(self);
        let ghost items = bits_view(subitems@);
        // validate every subitem width before any byte is touched
        if subitems.len() != self.subitems.len() {
            return Err(NodeError::InvalidSubitem);
        }
        let mut vi: usize = 0;
        while vi < self.subitems.len()
            invariant
                *self == pre,
                pre.wf(),
                pre.usable(),
                vi <= self.subitems@.len(),
                subitems@.len() == self.subitems@.len(),
                items == bits_view(subitems@),
                forall|t: int| 0 <= t < vi ==> #[trigger] items[t].len() == self.subitems@[t],
            decreases self.subitems@.len() - vi,
        {
            if subitems[vi].len() != self.subitems[vi] as usize {
                proof {
                    assert(items[vi as int].len() != pre.subitems@[vi as int]);
                }
                return Err(NodeError::InvalidSubitem);
            }
            vi = vi + 1;
        }
        proof {
            assert(widths_match(items, pre.subitems@));
        }
        // build the record's bit sequence
        let disabling: bool = self.has_disabling();
        let size32: u32 = self.node_size();
        let ghost prefix = if pre.disabling() {
            seq![!disabled]
        } else {
            Seq::<bool>::empty()
        };
        let mut record: Vec<bool> = Vec::new();
        if disabling {
            record.push(!disabled);
        }
        proof {
            assert(record@ =~= prefix + concat_bits(items.take(0)));
        }
        let mut i: usize = 0;
        while i < subitems.len()
            invariant
                *self == pre,
                i <= subitems@.len(),
                subitems@.len() == pre.subitems@.len(),
                items == bits_view(subitems@),
                widths_match(items, pre.subitems@),
                record@ == prefix + concat_bits(items.take(i as int)),
            decreases subitems@.len() - i,
        {
            let sub: &Vec<bool> = &subitems[i];
            let w: usize = sub.len();
            let mut k: usize = 0;
            while k < w
                invariant
                    k <= w,
                    w == sub@.len(),
                    i < subitems@.len(),
                    sub@ == items[i as int],
                    record@ == prefix + concat_bits(items.take(i as int)) + items[i as int].take(
                        k as int,
                    ),
                decreases w - k,
            {
                record.push(sub[k]);
                proof {
                    assert(record@ =~= prefix + concat_bits(items.take(i as int)) + items[
                        i as int
                    ].take(k as int + 1));
                }
                k = k + 1;
            }
            proof {
                lemma_concat_bits_take_step(items, i as int);
                assert(items[i as int].take(w as int) =~= items[i as int]);
                assert(record@ =~= prefix + concat_bits(items.take(i as int + 1)));
            }
            i = i + 1;
        }
        proof {
            assert(items.take(items.len() as int) =~= items);
            assert(record@ == record_of(pre.disabling(), disabled, items));
            lemma_record_of_len(pre.disabling(), disabled, items, pre.subitems@);
            assert(record@.len() == pre.node_size_spec());
        }
        // presence of any decodable record, even disabled, is a collision
        let count: u64 = self.nodes();
        let p: u128 = *position;
        if !overwrite && p < count as u128 {
            return Err(NodeError::NodeAlreadyExists);
        }
        let ns_u: u128 = size32 as u128;
        proof {
            pre.lemma_grown_len(p as int);
        }
        // grow the image to cover every position up to and including `p`
        if p >= count as u128 {
            proof {
                assert((p as int + 1) * pre.node_size_spec() <= 8 * (pre.spec_grown_len(p as int)
                    - pre.header_size));
                assert(8 * pre.spec_grown_len(p as int) <= u64::MAX);
                assert(p as int + 1 <= (p as int + 1) * pre.node_size_spec()) by (nonlinear_arith)
                    requires
                        pre.node_size_spec() >= 1,
                        p as int >= 0,
                ;
                assert(p as int + 1 <= u64::MAX);
            }
            let needed_bits: u128 = (p + 1) * ns_u;
            let needed_bytes: u128 = (needed_bits + 7) / 8;
            let target_len: u128 = self.header_size as u128 + needed_bytes;
            proof {
                assert(target_len == pre.spec_grown_len(p as int));
                assert(target_len <= usize::MAX);
            }
            while (self.storage.len() as u128) < target_len
                invariant
                    target_len <= usize::MAX,
                    self.mode == pre.mode,
                    self.header_size == pre.header_size,
                    self.features == pre.features,
                    self.subitems == pre.subitems,
                    pre.storage@.len() <= self.storage@.len(),
                    self.storage@.len() <= target_len,
                    self.storage@.take(pre.storage@.len() as int) == pre.storage@,
                    forall|t: int|
                        pre.storage@.len() <= t < self.storage@.len() ==> #[trigger] self.storage@[t]
                            == 0u8,
                decreases target_len - self.storage@.len(),
            {
                self.storage.push(0u8);
                proof {
                    assert(self.storage@.take(pre.storage@.len() as int) =~= pre.storage@);
                }
            }
        }
        proof {
            assert(self.storage@.len() == pre.spec_grown_len(p as int));
            assert(self.storage@.take(pre.storage@.len() as int) =~= pre.storage@);
            lemma_mul_nonnegative(p as int, pre.node_size_spec() as int);
            assert((p as int + 1) * pre.node_size_spec() == p as int * pre.node_size_spec()
                + pre.node_size_spec()) by {
                lemma_mul_is_distributive_add_other_way(pre.node_size_spec() as int, p as int, 1);
            }
            assert(8 * pre.header_size + p as int * pre.node_size_spec()
                + pre.node_size_spec() <= 8 * self.storage@.len());
            assert(8 * self.storage@.len() <= u64::MAX);
        }
        let ghost mid = self.storage@;
        // byte-aligned read-modify-write of the minimal span holding the record
        let abs_start: u128 = 8 * (self.header_size as u128) + p * ns_u;
        proof {
            assert(abs_start + ns_u <= 8 * self.storage@.len());
            lemma_fundamental_div_mod(abs_start as int, 8);
            lemma_mod_pos_bound(abs_start as int, 8);
        }
        let start_byte: usize = (abs_start / 8) as usize;
        let pad: usize = (abs_start % 8) as usize;
        write_bit_range(&mut self.storage, start_byte, pad, &record);
        proof {
            let hs = pre.header_size as int;
            let ns = pre.node_size_spec() as int;
            let s = 8 * hs + p as int * ns;
            let len0 = pre.storage@.len() as int;
            let grown = pre.spec_grown_len(p as int);
            assert(8 * start_byte as int + pad as int == abs_start as int);
            assert(s == abs_start as int);
            // the header bytes lie before the spliced span
            assert(hs <= start_byte as int) by {
                lemma_div_is_ordered(8 * hs, abs_start as int, 8);
                lemma_div_multiples_vanish(hs, 8);
            }
            assert forall|t: int| 0 <= t < hs implies #[trigger] self.storage@[t]
                == pre.storage@[t] by {
                assert(self.storage@[t] == mid[t]);
                assert(mid[t] == pre.storage@[t]);
            }
            // every bit of the image is the spliced record, the old bit, or a
            // zero bit materialized by growth
            assert forall|j: int| 0 <= j < 8 * self.storage@.len() implies #[trigger] bits_of_bytes(
                self.storage@,
            )[j] == (if s <= j < s + record@.len() {
                record@[j - s]
            } else if j < 8 * len0 {
                bits_of_bytes(pre.storage@)[j]
            } else {
                false
            }) by {
                if !(s <= j < s + record@.len()) {
                    assert(bits_of_bytes(self.storage@)[j] == bits_of_bytes(mid)[j]);
                    lemma_fundamental_div_mod(j, 8);
                    lemma_mod_pos_bound(j, 8);
                    let q = j / 8;
                    let m = j % 8;
                    assert(bits_of_bytes(mid)[j] == crate::utils::byte_bit(mid[q], m));
                    if j < 8 * len0 {
                        assert(q < len0);
                        assert(mid[q] == pre.storage@[q]);
                        assert(bits_of_bytes(pre.storage@)[j] == crate::utils::byte_bit(
                            pre.storage@[q],
                            m,
                        ));
                    } else {
                        assert(q >= len0);
                        assert(mid[q] == 0u8);
                        crate::utils::lemma_zero_byte_bits(m);
                    }
                }
            }
            assert(pre.updated_at(*self, p as int, record@));
            pre.lemma_set_node_round_trip(*self, p as int, disabled, items);
        }
        // re-read the node at `position` as confirmation
        let result = self.node(p);
        proof {
            assert(is_node_read(*self, p as nat, result));
            assert(self.node_count_spec() >= p as int + 1);
            match &result {
                Ok(node) => {
                    assert(self.record_enabled(p as int));
                    assert(!(disabled && pre.disabling()));
                },
                Err(NodeError::Disabled) => {
                    assert(!self.record_enabled(p as int));
                    assert(disabled && pre.disabling());
                },
                Err(NodeError::Unexistent) => {
                    assert(false);
                },
                _ => {
                    assert(false);
                },
            }
        }
        result
    }

    /// The tree's root node.
    pub fn root(&self) -> (r: Result<Node, NodeError>)
        requires
            self.wf(),
            self.usable(),
        ensures
            is_node_read(*self, 0, r),
    {
        self.node(0)
    }

    /// Whether the record at `position` reads as enabled, looking only at
    /// its presence bit.
    fn record_enabled_at(&self, position: u128) -> (r: bool)
        requires
            self.wf(),
            self.usable(),
            (position as int) < self.node_count_spec(),
        ensures
            r == self.record_enabled(position as int),
    {
        if !self.has_disabling() {
            return true;
        }
        let size32: u32 = self.node_size();
        proof {
            self.lemma_record_range(position as int);
        }
        let ns: u128 = size32 as u128;
        let abs_start: u128 = 8 * (self.header_size as u128) + position * ns;
        proof {
            assert(abs_start as int + 1 <= 8 * self.storage@.len());
            lemma_fundamental_div_mod(abs_start as int, 8);
            lemma_mod_pos_bound(abs_start as int, 8);
        }
        let start_byte: usize = (abs_start / 8) as usize;
        let pad: usize = (abs_start % 8) as usize;
        let bits: Vec<bool> = read_bit_range(&self.storage, start_byte, pad, 1);
        proof {
            assert(8 * start_byte as int + pad as int == abs_start as int);
            assert(bits@[0] == self.record_bits(position as int)[0]);
        }
        bits[0]
    }

    /// The number of levels spanned by the current node count.
    pub fn levels(&self) -> (r: u32)
        requires
            self.wf(),
            self.usable(),
        ensures
            r as nat == (if self.node_count_spec() == 0 {
                0nat
            } else {
                floor_log2(self.node_count_spec())
            }),
    {
        let count: u64 = self.nodes();
        if count != 0 {
            floor_log2_u128(count as u128)
        } else {
            0
        }
    }
}

/// Whether the provided subitems' widths match the tree's schema.
fn check_widths(tree: &Tree, subitems: &Vec<Vec<bool>>) -> (r: bool)
    ensures
        r == widths_match(bits_view(subitems@), tree.subitems@),
{
    let ghost items = bits_view(subitems@);
    if subitems.len() != tree.subitems.len() {
        return false;
    }
    let mut i: usize = 0;
    while i < tree.subitems.len()
        invariant
            i <= tree.subitems@.len(),
            subitems@.len() == tree.subitems@.len(),
            items == bits_view(subitems@),
            forall|t: int| 0 <= t < i ==> #[trigger] items[t].len() == tree.subitems@[t],
        decreases tree.subitems@.len() - i,
    {
        if subitems[i].len() != tree.subitems[i] as usize {
            proof {
                assert(items[i as int].len() != tree.subitems@[i as int]);
            }
            return false;
        }
        i = i + 1;
    }
    true
}

impl Node {
    /// Get the level (depth) of the node: ⌊log2(position)⌋, 0 at the root.
    pub fn level(&self) -> (r: u32)
        ensures
            r as nat == floor_log2(self.position as nat),
    {
        if self.position != 0 {
            floor_log2_u128(self.position)
        } else {
            0
        }
    }

    /// Get the parent of the node; fails `Unexistent` at the root.
    pub fn parent(&self, tree: &Tree) -> (r: Result<Node, NodeError>)
        requires
            tree.wf(),
            tree.usable(),
        ensures
            self.position == 0 ==> r == Result::<Node, NodeError>::Err(NodeError::Unexistent),
            self.position > 0 ==> is_node_read(
                *tree,
                parent_position(self.position as int) as nat,
                r,
            ),
    {
        if self.position == 0 {
            return Err(NodeError::Unexistent);
        }
        tree.node((self.position - 1) / 2)
    }

    /// Get a child of the node. Index 0 is the left child, index 1 is the
    /// right child; any other index is invalid.
    pub fn child(&self, tree: &Tree, index: u8) -> (r: Result<Node, NodeError>)
        requires
            tree.wf(),
            tree.usable(),
        ensures
            index > 1 ==> r == Result::<Node, NodeError>::Err(NodeError::InvalidIndex),
            index <= 1 ==> is_node_read(
                *tree,
                child_position(self.position as int, index as int) as nat,
                r,
            ),
    {
        if index > 1 {
            return Err(NodeError::InvalidIndex);
        }
        if self.position > u64::MAX as u128 {
            proof {
                lemma_count_bounded(*tree);
            }
            return Err(NodeError::Unexistent);
        }
        tree.node(2 * self.position + 1 + index as u128)
    }

    /// Check if the node is a leaf (neither of its children reads back).
    pub fn is_leaf(&self, tree: &Tree) -> (r: bool)
        requires
            tree.wf(),
            tree.usable(),
        ensures
            r == (!tree.node_ok(child_position(self.position as int, 0)) && !tree.node_ok(
                child_position(self.position as int, 1),
            )),
    {
        let left = self.child(tree, 0);
        let right = self.child(tree, 1);
        left.is_err() && right.is_err()
    }

    /// Add a child to the node at the canonical child position, creating the
    /// record enabled.
    pub fn add_child(
        &self,
        tree: &mut Tree,
        index: u8,
        subitems: Vec<Vec<bool>>,
        overwrite: bool,
    ) -> (r: Result<Node, NodeError>)
        requires
            old(tree).wf(),
            old(tree).usable(),
            2 * self.position as int + 2 <= u128::MAX,
            index <= 1 && widths_match(bits_view(subitems@), old(tree).subitems@) ==> old(
                tree,
            ).fits_growth(child_position(self.position as int, index as int)),
        ensures
            index > 1 ==> (r matches Err(NodeError::InvalidIndex)) && *final(tree) == *old(tree),
            index <= 1 ==> is_set_node_result(
                *old(tree),
                *final(tree),
                bits_view(subitems@),
                child_position(self.position as int, index as int),
                overwrite,
                false,
                r,
            ),
    {
        if index > 1 {
            return Err(NodeError::InvalidIndex);
        }
        let child_pos: u128 = 2 * self.position + 1 + index as u128;
        tree.set_node(&subitems, &child_pos, overwrite, false)
    }

    /// Disables the node: rewrites the record in place with the node's own
    /// subitems and a cleared presence bit. Fails `MissingFeature` when the
    /// format lacks Disabling; a width mismatch of the cached subitems leaves
    /// the tree untouched.
    pub fn disable(&self, tree: &mut Tree) -> (r: Result<(), NodeError>)
        requires
            old(tree).wf(),
            old(tree).usable(),
            widths_match(bits_view(self.subitems@), old(tree).subitems@) ==> old(tree).fits_growth(
                self.position as int,
            ),
        ensures
            final(tree).wf(),
            final(tree).usable(),
            match r {
                Err(NodeError::MissingFeature) => !old(tree).disabling() && *final(tree) == *old(
                    tree,
                ),
                Ok(u) => old(tree).disabling() && (if widths_match(
                    bits_view(self.subitems@),
                    old(tree).subitems@,
                ) {
                    old(tree).updated_at(
                        *final(tree),
                        self.position as int,
                        record_of(true, true, bits_view(self.subitems@)),
                    )
                } else {
                    *final(tree) == *old(tree)
                }),
                _ => false,
            },
    {
        if !tree.has_disabling() {
            return Err(NodeError::MissingFeature);
        }
        let _ = tree.set_node(&self.subitems, &self.position, true, true);
        Ok(())
    }

    /// Enables the node: rewrites the record in place with the node's own
    /// subitems and a set presence bit. Fails `MissingFeature` when the
    /// format lacks Disabling.
    pub fn enable(&self, tree: &mut Tree) -> (r: Result<(), NodeError>)
        requires
            old(tree).wf(),
            old(tree).usable(),
            widths_match(bits_view(self.subitems@), old(tree).subitems@) ==> old(tree).fits_growth(
                self.position as int,
            ),
        ensures
            final(tree).wf(),
            final(tree).usable(),
            match r {
                Err(NodeError::MissingFeature) => !old(tree).disabling() && *final(tree) == *old(
                    tree,
                ),
                Ok(u) => old(tree).disabling() && (if widths_match(
                    bits_view(self.subitems@),
                    old(tree).subitems@,
                ) {
                    old(tree).updated_at(
                        *final(tree),
                        self.position as int,
                        record_of(true, false, bits_view(self.subitems@)),
                    )
                } else {
                    *final(tree) == *old(tree)
                }),
                _ => false,
            },
    {
        if !tree.has_disabling() {
            return Err(NodeError::MissingFeature);
        }
        let _ = tree.set_node(&self.subitems, &self.position, true, false);
        Ok(())
    }

    /// Update the node's subitems: rewrites the record in place, preserving
    /// its enabled state. Fails `InvalidSubitem` on a width mismatch, before
    /// any byte is touched, and `Unexistent` beyond the current extent — it
    /// never creates a node.
    pub fn update(&mut self, tree: &mut Tree, subitems: Vec<Vec<bool>>) -> (r: Result<
        (),
        NodeError,
    >)
        requires
            old(tree).wf(),
            old(tree).usable(),
        ensures
            final(tree).wf(),
            final(tree).usable(),
            final(self).position == old(self).position,
            match r {
                Err(NodeError::InvalidSubitem) => *final(tree) == *old(tree) && *final(self)
                    == *old(self) && !widths_match(bits_view(subitems@), old(tree).subitems@),
                Err(NodeError::Unexistent) => *final(tree) == *old(tree) && *final(self) == *old(
                    self,
                ) && widths_match(bits_view(subitems@), old(tree).subitems@) && old(
                    self,
                ).position as int >= old(tree).node_count_spec(),
                Ok(u) => widths_match(bits_view(subitems@), old(tree).subitems@) && (old(
                    self,
                ).position as int) < old(tree).node_count_spec() && old(tree).updated_at(
                    *final(tree),
                    old(self).position as int,
                    record_of(
                        old(tree).disabling(),
                        !old(tree).record_enabled(old(self).position as int),
                        bits_view(subitems@),
                    ),
                ) && final(self).subitems == subitems,
                _ => false,
            },
    {
        if !check_widths(tree, &subitems) {
            return Err(NodeError::InvalidSubitem);
        }
        let count: u64 = tree.nodes();
        if self.position >= count as u128 {
            return Err(NodeError::Unexistent);
        }
        let enabled: bool = tree.record_enabled_at(self.position);
        proof {
            tree.lemma_grown_len(self.position as int);
        }
        let result = tree.set_node(&subitems, &self.position, true, !enabled);
        proof {
            match &result {
                Err(NodeError::InvalidSubitem) => {
                    assert(false);
                },
                Err(NodeError::NodeAlreadyExists) => {
                    assert(false);
                },
                _ => {},
            }
        }
        self.subitems = subitems;
        Ok(())
    }

    /// Refresh the node's cached data from the tree image, surfacing
    /// `Unexistent` when the position no longer decodes (it was disabled, or
    /// lies beyond the extent).
    pub fn refresh(&mut self, tree: &Tree) -> (r: Result<Node, NodeError>)
        requires
            tree.wf(),
            tree.usable(),
        ensures
            match r {
                Err(NodeError::Unexistent) => *final(self) == *old(self) && !tree.node_ok(
                    old(self).position as int,
                ),
                Ok(node) => {
                    &&& is_node_read(*tree, old(self).position as nat, r)
                    &&& final(self).position == old(self).position
                    &&& final(self).subitems@.len() == tree.subitems@.len()
                    &&& forall|i: int|
                        0 <= i < tree.subitems@.len() ==> #[trigger] final(self).subitems@[i]@
                            == tree.node_subitem(old(self).position as int, i)
                },
                _ => false,
            },
    {
        let first = tree.node(self.position);
        match first {
            Err(_) => Err(NodeError::Unexistent),
            Ok(node) => {
                let again = tree.node(self.position);
                match again {
                    Ok(node_again) => {
                        self.position = node.position;
                        self.subitems = node.subitems;
                        Ok(node_again)
                    },
                    Err(_) => {
                        proof {
                            assert(false);
                        }
                        Err(NodeError::Unexistent)
                    },
                }
            },
        }
    }
}

/// Non-interference: writing a record at one position never alters the
/// record bits, the enabled state, or the decoded subitems of any other
/// position that already existed.
pub proof fn lemma_write_preserves_other_nodes(
    pre: Tree,
    post: Tree,
    position: int,
    rec: Seq<bool>,
    q: int,
)
    requires
        pre.wf(),
        pre.usable(),
        0 <= position,
        rec.len() == pre.node_size_spec(),
        pre.fits_growth(position),
        pre.updated_at(post, position, rec),
        0 <= q < pre.node_count_spec(),
        q != position,
    ensures
        q < post.node_count_spec(),
        post.record_bits(q) == pre.record_bits(q),
        post.record_enabled(q) == pre.record_enabled(q),
        forall|i: int|
            0 <= i < pre.subitems@.len() ==> post.node_subitem(q, i) == pre.node_subitem(q, i),
{
    pre.lemma_updated_record(post, position, rec);
    assert(post.payload_bits(q) == pre.payload_bits(q));
    assert forall|i: int| 0 <= i < pre.subitems@.len() implies post.node_subitem(q, i)
        == pre.node_subitem(q, i) by {
        assert(post.node_subitem(q, i) =~= pre.node_subitem(q, i));
    }
}

/// Growth: after a write beyond the previous extent, every position that was
/// skipped decodes as a zero-filled record — disabled when the format has
/// Disabling, enabled with all-zero subitems otherwise. This holds of images
/// whose bits past the old extent are zero, as in any image produced by
/// `create` and grown only by `set_node`; an image opened from bytes with
/// stray set bits in that slack is the exception.
pub proof fn lemma_growth_zero_fills(
    pre: Tree,
    post: Tree,
    position: int,
    rec: Seq<bool>,
    q: int,
)
    requires
        pre.wf(),
        pre.usable(),
        0 <= position,
        rec.len() == pre.node_size_spec(),
        pre.fits_growth(position),
        pre.updated_at(post, position, rec),
        pre.node_count_spec() <= q < position,
        forall|j: int|
            pre.node_count_spec() * pre.node_size_spec() <= j < pre.data_bits().len()
                ==> !pre.data_bits()[j],
    ensures
        q < post.node_count_spec(),
        post.record_bits(q) == Seq::new(pre.node_size_spec(), |k: int| false),
        pre.disabling() ==> !post.record_enabled(q),
        forall|i: int|
            0 <= i < pre.subitems@.len() ==> post.node_subitem(q, i) == Seq::new(
                pre.subitems@[i] as nat,
                |k: int| false,
            ),
{
    let ns = pre.node_size_spec() as int;
    let hs = pre.header_size as int;
    let count = pre.node_count_spec() as int;
    let dl = pre.data_bits().len() as int;
    pre.lemma_updated_record(post, position, rec);
    assert((q + 1) * ns == q * ns + ns) by {
        lemma_mul_is_distributive_add_other_way(ns, q, 1);
    }
    lemma_mul_inequality(q + 1, position, ns);
    lemma_mul_inequality(count, q, ns);
    lemma_mul_is_commutative(count, ns);
    lemma_mul_nonnegative(q, ns);
    assert((position + 1) * ns <= 8 * (post.storage@.len() - hs)) by {
        pre.lemma_grown_len(position);
    }
    assert((position + 1) * ns == position * ns + ns) by {
        lemma_mul_is_distributive_add_other_way(ns, position, 1);
    }
    assert forall|k: int| 0 <= k < ns implies #[trigger] post.data_bits()[q * ns + k] == false by {
        let j = q * ns + k;
        let i = 8 * hs + j;
        assert(j + 8 * hs < 8 * post.storage@.len());
        assert(bits_of_bytes(post.storage@)[i] == (if j < dl {
            bits_of_bytes(pre.storage@)[i]
        } else {
            false
        }));
        if j < dl {
            assert(count * ns <= j);
            assert(!pre.data_bits()[j]);
        }
    }
    post.lemma_record_range(q);
    assert forall|k: int| 0 <= k < ns implies !(#[trigger] post.record_bits(q)[k]) by {
        assert(post.record_bits(q)[k] == post.data_bits()[q * ns + k]);
    }
    assert(post.record_bits(q) =~= Seq::new(ns as nat, |k: int| false));
    assert forall|i: int| 0 <= i < pre.subitems@.len() implies post.node_subitem(q, i) == Seq::new(
        pre.subitems@[i] as nat,
        |k: int| false,
    ) by {
        lemma_sum_widths_take_step(pre.subitems@, i);
        lemma_sum_widths_take_bound(pre.subitems@, i + 1);
        assert(post.node_subitem(q, i) =~= Seq::new(pre.subitems@[i] as nat, |k: int| false));
    }
}

/// Disable/enable idempotence: disabling a node and then re-enabling it with
/// its own subitems restores the image bit for bit; in between, the position
/// still counts as existent, so it reads as `Disabled`, never `Unexistent`.
pub proof fn lemma_disable_enable_round_trip(
    t0: Tree,
    t1: Tree,
    t2: Tree,
    position: int,
    items: Seq<Seq<bool>>,
)
    requires
        t0.wf(),
        t0.usable(),
        t0.disabling(),
        0 <= position < t0.node_count_spec(),
        widths_match(items, t0.subitems@),
        t0.record_bits(position) == record_of(true, false, items),
        t0.updated_at(t1, position, record_of(true, true, items)),
        t1.updated_at(t2, position, record_of(true, false, items)),
    ensures
        position < t1.node_count_spec(),
        !t1.record_enabled(position),
        t2.storage@.len() == t0.storage@.len(),
        bits_of_bytes(t2.storage@) == bits_of_bytes(t0.storage@),
{
    let ns = t0.node_size_spec() as int;
    let hs = t0.header_size as int;
    let s = 8 * hs + position * ns;
    let rec_off = record_of(true, true, items);
    let rec_on = record_of(true, false, items);
    lemma_record_of_len(true, true, items, t0.subitems@);
    lemma_record_of_len(true, false, items, t0.subitems@);
    t0.lemma_grown_len(position);
    t0.lemma_updated_record(t1, position, rec_off);
    t1.lemma_grown_len(position);
    t1.lemma_updated_record(t2, position, rec_on);
    assert(t1.record_bits(position)[0] == rec_off[0]);
    assert(!t1.record_enabled(position));
    assert(t2.storage@.len() == t0.storage@.len());
    assert forall|i: int| 0 <= i < 8 * t0.storage@.len() implies #[trigger] bits_of_bytes(
        t2.storage@,
    )[i] == bits_of_bytes(t0.storage@)[i] by {
        if s <= i < s + ns {
            assert(bits_of_bytes(t2.storage@)[i] == rec_on[i - s]);
            assert(t0.record_bits(position)[i - s] == rec_on[i - s]);
            t0.lemma_record_range(position);
            assert(t0.record_bits(position)[i - s] == t0.data_bits()[position * ns + (i - s)]);
            assert(bits_of_bytes(t0.storage@)[i] == t0.data_bits()[position * ns + (i - s)]);
        } else {
            assert(bits_of_bytes(t2.storage@)[i] == bits_of_bytes(t1.storage@)[i]);
            assert(bits_of_bytes(t1.storage@)[i] == bits_of_bytes(t0.storage@)[i]);
        }
    }
    assert(bits_of_bytes(t2.storage@) =~= bits_of_bytes(t0.storage@));
}

/// Parent/child inverse: the children of position P are 2P + 1 and 2P + 2,
/// the parent of either child is P, and every non-root position is the
/// appropriate child of its own parent.
pub proof fn lemma_parent_child_inverse(position: int, index: int)
    requires
        position >= 0,
        0 <= index <= 1,
    ensures
        child_position(position, 0) == 2 * position + 1,
        child_position(position, 1) == 2 * position + 2,
        parent_position(child_position(position, index)) == position,
        position > 0 ==> child_position(
            parent_position(position),
            if position % 2 == 1 {
                0int
            } else {
                1int
            },
        ) == position,
{
    lemma_fundamental_div_mod_converse(2 * position + index, 2, position, index);
    if position > 0 {
        let q = (position - 1) / 2;
        let r = (position - 1) % 2;
        lemma_fundamental_div_mod(position - 1, 2);
        lemma_mod_pos_bound(position - 1, 2);
        if r == 0 {
            lemma_fundamental_div_mod_converse(position, 2, q, 1);
            assert(position % 2 == 1);
        } else {
            lemma_fundamental_div_mod_converse(position, 2, q + 1, 0);
            assert(position % 2 == 0);
        }
    }
}

/// For positive n, ⌊log2(n)⌋ is the exponent of the power of two that
/// brackets n.
pub proof fn lemma_floor_log2_bounds(n: nat)
    requires
        n >= 1,
    ensures
        pow2(floor_log2(n)) <= n < pow2(floor_log2(n) + 1),
    decreases n,
{
    lemma2_to64();
    if n < 2 {
        lemma_pow2_unfold(1);
    } else {
        lemma_floor_log2_bounds(n / 2);
        lemma_fundamental_div_mod(n as int, 2);
        lemma_mod_pos_bound(n as int, 2);
        lemma_pow2_unfold(floor_log2(n));
        lemma_pow2_unfold(floor_log2(n) + 1);
    }
}

/// The node count never exceeds the image's bit count.
pub proof fn lemma_count_bounded(tree: Tree)
    requires
        tree.wf(),
        tree.usable(),
    ensures
        tree.node_count_spec() <= u64::MAX,
{
    let dl = tree.data_bits().len() as int;
    let ns = tree.node_size_spec() as int;
    lemma_div_is_ordered_by_denominator(dl, 1, ns);
    assert(dl / 1 == dl) by {
        lemma_fundamental_div_mod_converse(dl, 1, dl, 0);
    }
}

} // verus!
