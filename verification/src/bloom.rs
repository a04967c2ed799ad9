//! The `karma-bloom-v1` blob: split-block Bloom filters for pruning equality on
//! high-cardinality columns, where a [`crate::zonemap`] cannot help.
//!
//! The construction is Apache Parquet's split-block Bloom filter: 256-bit blocks of
//! eight 32-bit words, XXH64 (seed 0) of the value's canonical bytes, block chosen
//! by the hash's upper 32 bits, and a per-word mask from eight odd salts.
//!
//! **No false negatives:** [`Bloom::might_contain`] returning `false` proves the
//! value is absent from the zone (safe to skip); `true` is only "maybe" (read it).
use crate::bytes;
use crate::bytes::Cur;
use crate::text;
use crate::zonemap;
use crate::zonemap::Datum;
use crate::zonemap::Value;
use std::collections::HashMap;
use vstd::prelude::*;

verus! {

broadcast use vstd::std_specs::hash::group_hash_axioms;

/// The Puffin blob type of a set of Bloom filters.
pub const BLOOM_BLOB_TYPE: &'static str = "karma-bloom-v1";

/// The version byte of the payload.
pub const VERSION: u8 = 1;

/// The eight odd salts of the mask.
pub const SALT: [u32; 8] = [
    0x47b6_137b,
    0x4497_4d91,
    0x8824_ad5b,
    0xa2b7_289d,
    0x7054_95c7,
    0x2df1_424b,
    0x9efc_4947,
    0x5c6b_fb31,
];

/// Default sizing: bits per distinct value (about 1% false positives).
pub const DEFAULT_BITS_PER_VALUE: usize = 16;

/// Why a Bloom payload cannot be read.
#[derive(Clone, Copy, Debug, PartialEq, Eq)]
pub enum BloomError {
    Truncated,
    BadVersion(u8),
}

/// A [`BloomError`] in words.
pub open spec fn error_words(e: BloomError) -> Seq<char> {
    match e {
        BloomError::Truncated => "truncated bloom payload"@,
        BloomError::BadVersion(v) => "unsupported bloom version "@ + text::decimal(v as nat),
    }
}

impl BloomError {
    /// The error in words.
    pub fn message(&self) -> (r: String)
        ensures
            r@ == error_words(*self),
    {
        match self {
            BloomError::Truncated => "truncated bloom payload".to_owned(),
            BloomError::BadVersion(v) => {
                let mut out: String = "unsupported bloom version ".to_owned();
                text::put_decimal(&mut out, *v as u64);
                out
            },
        }
    }
}

/// The XXH64 hash of a byte string under a seed.
pub uninterp spec fn xxh64(seed: u64, data: Seq<u8>) -> u64;

/// `twox_hash::XxHash64::oneshot`: hashes the bytes at once. The result depends on the seed
/// and the bytes alone; what it is on given bytes is left to its name.
#[verifier::external_body]
fn xxh64_oneshot(seed: u64, data: &[u8]) -> (r: u64)
    ensures
        r == xxh64(seed, data@),
{
    twox_hash::XxHash64::oneshot(seed, data)
}

/// The bytes of a datum that are hashed; none for `Null`, which is never inserted or probed.
pub open spec fn canonical(d: Datum) -> Option<Seq<u8>> {
    match d {
        Datum::Null => None,
        Datum::Decimal { unscaled, scale } => Some(
            bytes::le_bytes(unscaled as int, 16) + bytes::le_bytes(scale as int, 4),
        ),
        _ => Some(zonemap::natural_bytes(d)),
    }
}

/// The hash of a datum; none for `Null`.
pub open spec fn hash_of(d: Datum) -> Option<u64> {
    match canonical(d) {
        Some(s) => Some(xxh64(0, s)),
        None => None,
    }
}

/// The canonical bytes of a value: raw bytes, little-endian numbers (a float by its pattern),
/// a decimal as sixteen bytes of its unscaled value and four of its scale.
pub fn canonical_bytes(v: &Value) -> (r: Option<Vec<u8>>)
    ensures
        match r {
            Some(b) => canonical(v@) == Some(b@),
            None => canonical(v@) is None,
        },
{
    match v {
        Value::Null => None,
        Value::Decimal { unscaled, scale } => {
            let mut out: Vec<u8> = Vec::new();
            bytes::put_le(&mut out, *unscaled, 16);
            bytes::put_le(&mut out, *scale as i128, 4);
            proof {
                assert(out@ =~= bytes::le_bytes(*unscaled as int, 16) + bytes::le_bytes(
                    *scale as int,
                    4,
                ));
            }
            Some(out)
        },
        _ => Some(zonemap::single_value_bytes(v, v.inferred_type())),
    }
}

/// XXH64 (seed 0) of a value's canonical bytes; `None` for `Null` (a value predicate never
/// matches NULL).
pub fn value_hash(v: &Value) -> (r: Option<u64>)
    ensures
        r == hash_of(v@),
{
    match canonical_bytes(v) {
        Some(b) => Some(xxh64_oneshot(0, b.as_slice())),
        None => None,
    }
}

/// The bit that a hash sets in word `i` of its block.
pub open spec fn mask_bit(h: u64, i: int) -> u32 {
    ((((h as int % 0x1_0000_0000) * SALT@[i]) % 0x1_0000_0000) / 0x800_0000) as u32
}

/// The block that a hash falls into, of `n`.
pub open spec fn block_of(h: u64, n: nat) -> int {
    ((h as int / 0x1_0000_0000) * n) / 0x1_0000_0000
}

/// Whether bit `b` of a word is set.
pub open spec fn has_bit(w: u32, b: u32) -> bool {
    w & (1u32 << b) != 0
}

/// A block with the bits of a hash set.
pub open spec fn marked(block: Seq<u32>, h: u64) -> Seq<u32> {
    Seq::new(8, |i: int| block[i] | (1u32 << mask_bit(h, i)))
}

/// A filter with a hash inserted.
pub open spec fn inserted(f: Seq<Seq<u32>>, h: u64) -> Seq<Seq<u32>> {
    f.update(block_of(h, f.len()), marked(f[block_of(h, f.len())], h))
}

/// Whether every bit of a hash is set in its block.
pub open spec fn holds(f: Seq<Seq<u32>>, h: u64) -> bool {
    forall|i: int|
        0 <= i < 8 ==> has_bit(#[trigger] f[block_of(h, f.len())][i], mask_bit(h, i))
}

/// A filter with a datum inserted; `Null` leaves it as it is.
pub open spec fn with_datum(f: Seq<Seq<u32>>, d: Datum) -> Seq<Seq<u32>> {
    match hash_of(d) {
        Some(h) => inserted(f, h),
        None => f,
    }
}

/// A filter with data inserted one after another.
pub open spec fn with_data(f: Seq<Seq<u32>>, ds: Seq<Datum>) -> Seq<Seq<u32>>
    decreases ds.len(),
{
    if ds.len() == 0 {
        f
    } else {
        with_datum(with_data(f, ds.drop_last()), ds.last())
    }
}

/// What a probe answers: "maybe" unless a filter with blocks lacks a bit of the datum's hash.
pub open spec fn maybe_in(f: Seq<Seq<u32>>, d: Datum) -> bool {
    match hash_of(d) {
        Some(h) => f.len() == 0 || holds(f, h),
        None => true,
    }
}

/// A filter of `n` blocks with no bit set.
pub open spec fn blank(n: nat) -> Seq<Seq<u32>> {
    Seq::new(n, |i: int| Seq::new(8, |j: int| 0u32))
}

/// Whether a datum is hashed and none of those before it has its canonical bytes.
pub open spec fn is_new(before: Seq<Datum>, d: Datum) -> bool {
    canonical(d) is Some && forall|k: int|
        0 <= k < before.len() ==> canonical(#[trigger] before[k]) != canonical(d)
}

/// How many distinct data there are: `Null` does not count, equal canonical bytes count once.
pub open spec fn distinct(ds: Seq<Datum>) -> nat
    decreases ds.len(),
{
    if ds.len() == 0 {
        0
    } else {
        distinct(ds.drop_last()) + if is_new(ds.drop_last(), ds.last()) {
            1nat
        } else {
            0
        }
    }
}

/// A repeated value asks for no more bits.
pub proof fn law_repeats_cost_nothing(ds: Seq<Datum>, d: Datum)
    requires
        ds.contains(d),
    ensures
        distinct(ds.push(d)) == distinct(ds),
{
    let k = choose|k: int| 0 <= k < ds.len() && ds[k] == d;
    assert(ds.push(d).drop_last() =~= ds);
    assert(canonical(ds[k]) == canonical(d));
}

/// How many blocks hold `bits` bits: a block is 256 bits, and there is at least one.
pub open spec fn blocks_for(bits: int) -> nat {
    if bits <= 256 {
        1
    } else {
        ((bits + 255) / 256) as nat
    }
}

/// A split-block Bloom filter: blocks of eight 32-bit words.
#[derive(Clone, Debug, PartialEq, Eq)]
pub struct Bloom {
    blocks: Vec<[u32; 8]>,
}

impl View for Bloom {
    type V = Seq<Seq<u32>>;

    closed spec fn view(&self) -> Seq<Seq<u32>> {
        self.blocks@.map_values(|b: [u32; 8]| b@)
    }
}

/// Every block has eight words.
pub open spec fn shaped(f: Seq<Seq<u32>>) -> bool {
    forall|i: int| 0 <= i < f.len() ==> (#[trigger] f[i]).len() == 8
}

proof fn lemma_block_in_range(h: u64, n: nat)
    requires
        n > 0,
    ensures
        0 <= block_of(h, n) < n,
{
    let u = h as int / 0x1_0000_0000;
    assert(0 <= u * n < 0x1_0000_0000 * n) by (nonlinear_arith)
        requires
            0 <= u < 0x1_0000_0000,
            n > 0,
    ;
}

/// The bit of word `i` that a hash sets.
fn word_bit(h: u64, i: usize) -> (r: u32)
    requires
        i < 8,
    ensures
        r == mask_bit(h, i as int),
        r < 32,
{
    let x: u64 = h % 0x1_0000_0000;
    let salt: u64 = SALT[i] as u64;
    proof {
        assert(x * salt <= 0xffff_ffff * 0xffff_ffff) by (nonlinear_arith)
            requires
                x <= 0xffff_ffff,
                salt <= 0xffff_ffff,
        ;
    }
    (((x * salt) % 0x1_0000_0000) / 0x800_0000) as u32
}

/// Whether two values have the same canonical bytes.
fn same_canonical(a: &Value, b: &Value) -> (r: bool)
    ensures
        r == (canonical(a@) == canonical(b@)),
{
    match (canonical_bytes(a), canonical_bytes(b)) {
        (Some(x), Some(y)) => bytes::same(x.as_slice(), y.as_slice()),
        (None, None) => true,
        _ => false,
    }
}

/// Whether one of the values at some positions has the canonical bytes of the one at `i`.
fn seen_before(values: &[Value], positions: &Vec<usize>, i: usize) -> (r: bool)
    requires
        i < values@.len(),
        forall|j: int| 0 <= j < positions@.len() ==> #[trigger] positions@[j] < values@.len(),
    ensures
        r <==> exists|j: int|
            0 <= j < positions@.len() && canonical(values@[#[trigger] positions@[j] as int]@)
                == canonical(values@[i as int]@),
{
    let mut j: usize = 0;
    while j < positions.len()
        invariant
            j <= positions@.len(),
            i < values@.len(),
            forall|k: int| 0 <= k < positions@.len() ==> #[trigger] positions@[k] < values@.len(),
            forall|k: int|
                0 <= k < j ==> canonical(values@[#[trigger] positions@[k] as int]@) != canonical(
                    values@[i as int]@,
                ),
        decreases positions@.len() - j,
    {
        if same_canonical(&values[positions[j]], &values[i]) {
            return true;
        }
        j = j + 1;
    }
    false
}

/// Whether the positions kept for the hash of the datum at `k` hold one with its canonical bytes.
spec fn stands_for(first: Map<u64, Vec<usize>>, ds: Seq<Datum>, k: int) -> bool {
    match hash_of(ds[k]) {
        Some(h) => first.contains_key(h) && exists|j: int|
            0 <= j < first[h]@.len() && canonical(ds[#[trigger] first[h]@[j] as int]) == canonical(
                ds[k],
            ),
        None => true,
    }
}

proof fn lemma_counted(
    ds: Seq<Datum>,
    i: usize,
    h: u64,
    before: Map<u64, Vec<usize>>,
    were: Seq<usize>,
    now: Vec<usize>,
    seen: bool,
)
    requires
        i < ds.len(),
        hash_of(ds[i as int]) == Some(h),
        forall|k: int| 0 <= k < i ==> stands_for(before, ds, k),
        if before.contains_key(h) {
            before[h]@ == were
        } else {
            were.len() == 0
        },
        forall|j: int| 0 <= j < were.len() ==> #[trigger] were[j] < i,
        seen <==> exists|j: int|
            0 <= j < were.len() && canonical(ds[#[trigger] were[j] as int]) == canonical(
                ds[i as int],
            ),
        now@ == (if seen {
            were
        } else {
            were.push(i)
        }),
    ensures
        seen <==> !is_new(ds.take(i as int), ds[i as int]),
        forall|k: int| 0 <= k <= i ==> stands_for(before.insert(h, now), ds, k),
{
    let after = before.insert(h, now);
    let head = ds.take(i as int);
    if seen {
        let j = choose|j: int|
            0 <= j < were.len() && canonical(ds[#[trigger] were[j] as int]) == canonical(
                ds[i as int],
            );
        assert(head[were[j] as int] == ds[were[j] as int]);
    } else {
        assert forall|k: int| 0 <= k < head.len() implies canonical(#[trigger] head[k])
            != canonical(ds[i as int]) by {
            assert(head[k] == ds[k]);
            assert(stands_for(before, ds, k));
        }
    }
    assert forall|k: int| 0 <= k <= i implies stands_for(after, ds, k) by {
        if k < i {
            assert(stands_for(before, ds, k));
            if hash_of(ds[k]) == Some(h) {
                let j = choose|j: int|
                    0 <= j < before[h]@.len() && canonical(ds[#[trigger] before[h]@[j] as int])
                        == canonical(ds[k]);
                assert(after[h]@[j] == were[j]);
            }
        } else if seen {
            let j = choose|j: int|
                0 <= j < were.len() && canonical(ds[#[trigger] were[j] as int]) == canonical(
                    ds[i as int],
                );
            assert(after[h]@[j] == were[j]);
        } else {
            assert(after[h]@[were.len() as int] == i);
        }
    }
}

/// Count the distinct values. Those of one hash stand together, and only they are compared.
fn count_distinct(values: &[Value]) -> (r: usize)
    ensures
        r == distinct(zonemap::data(values@)),
{
    let ghost ds = zonemap::data(values@);
    let mut first: HashMap<u64, Vec<usize>> = HashMap::new();
    let mut n: usize = 0;
    let mut i: usize = 0;
    proof {
        assert(ds.take(0) =~= Seq::<Datum>::empty());
    }
    while i < values.len()
        invariant
            i <= values@.len(),
            ds == zonemap::data(values@),
            n == distinct(ds.take(i as int)),
            n <= i,
            forall|h: u64, j: int|
                #![trigger first@[h]@[j]]
                first@.contains_key(h) && 0 <= j < first@[h]@.len() ==> first@[h]@[j] < i,
            forall|k: int| 0 <= k < i ==> stands_for(first@, ds, k),
        decreases values@.len() - i,
    {
        proof {
            assert(ds.take(i + 1).drop_last() =~= ds.take(i as int));
            assert(ds.take(i + 1).last() == values@[i as int]@);
        }
        if let Some(h) = value_hash(&values[i]) {
            let ghost before = first@;
            let mut positions: Vec<usize> = match first.remove(&h) {
                Some(ps) => ps,
                None => Vec::new(),
            };
            let ghost were = positions@;
            proof {
                assert(before.contains_key(h) ==> before[h]@ == were);
                assert forall|j: int| 0 <= j < were.len() implies #[trigger] were[j] < i by {
                    assert(before[h]@[j] < i);
                }
            }
            let seen: bool = seen_before(values, &positions, i);
            if !seen {
                positions.push(i);
                n = n + 1;
            }
            proof {
                assert forall|j: int| 0 <= j < were.len() implies canonical(
                    ds[#[trigger] were[j] as int],
                ) == canonical(values@[were[j] as int]@) by {}
                lemma_counted(ds, i, h, before, were, positions, seen);
                assert(before.remove(h).insert(h, positions) =~= before.insert(h, positions));
            }
            first.insert(h, positions);
        }
        i = i + 1;
    }
    proof {
        assert(ds.take(i as int) =~= ds);
    }
    n
}

impl Bloom {
    /// Every block of a filter has eight words.
    pub proof fn law_blocks_have_eight_words(&self)
        ensures
            shaped(self@),
    {
    }

    /// A blank filter with a fixed number of blocks (at least 1).
    pub fn with_blocks(num_blocks: usize) -> (r: Bloom)
        ensures
            r@ == blank(if num_blocks == 0 { 1nat } else { num_blocks as nat }),
    {
        let n: usize = if num_blocks == 0 {
            1
        } else {
            num_blocks
        };
        let zero: [u32; 8] = [0, 0, 0, 0, 0, 0, 0, 0];
        let mut blocks: Vec<[u32; 8]> = Vec::new();
        let mut i: usize = 0;
        while i < n
            invariant
                i <= n,
                blocks@.len() == i,
                forall|k: int| 0 <= k < i ==> blocks@[k] == zero,
            decreases n - i,
        {
            blocks.push(zero);
            i = i + 1;
        }
        let r = Bloom { blocks };
        proof {
            assert(zero@ =~= Seq::new(8, |j: int| 0u32));
            assert(r@ =~= blank(n as nat));
        }
        r
    }

    /// Build a filter over `values`, sized `bits_per_value` bits per distinct value that is not
    /// null.
    pub fn build(values: &[Value], bits_per_value: usize) -> (r: Bloom)
        requires
            distinct(zonemap::data(values@)) * bits_per_value <= usize::MAX,
        ensures
            r@ == with_data(
                blank(blocks_for(distinct(zonemap::data(values@)) * bits_per_value)),
                zonemap::data(values@),
            ),
    {
        let ghost ds = zonemap::data(values@);
        let n: usize = count_distinct(values);
        let bits: usize = n * bits_per_value;
        let num_blocks: usize = if bits <= 256 {
            1
        } else if bits % 256 == 0 {
            bits / 256
        } else {
            bits / 256 + 1
        };
        let mut b: Bloom = Bloom::with_blocks(num_blocks);
        let ghost start = b@;
        let mut i: usize = 0;
        proof {
            assert(ds.take(0) =~= Seq::<Datum>::empty());
        }
        while i < values.len()
            invariant
                i <= values@.len(),
                ds == zonemap::data(values@),
                b@ == with_data(start, ds.take(i as int)),
                b@.len() == num_blocks > 0,
            decreases values@.len() - i,
        {
            proof {
                assert(ds.take(i + 1).drop_last() =~= ds.take(i as int));
                assert(ds.take(i + 1).last() == values@[i as int]@);
            }
            b.insert(&values[i]);
            i = i + 1;
        }
        proof {
            assert(ds.take(i as int) =~= ds);
        }
        b
    }

    pub fn num_blocks(&self) -> (r: usize)
        ensures
            r == self@.len(),
    {
        self.blocks.len()
    }

    /// The block that a hash falls into: its upper 32 bits, scaled to the number of blocks.
    fn block_index(&self, h: u64) -> (r: usize)
        requires
            self@.len() > 0,
        ensures
            r == block_of(h, self@.len()),
            r < self@.len(),
    {
        let n: u128 = self.blocks.len() as u128;
        let upper: u128 = h as u128 / 0x1_0000_0000;
        proof {
            lemma_block_in_range(h, self@.len());
            assert(upper * n <= 0x1_0000_0000 * 0x1_0000_0000_0000_0000) by (nonlinear_arith)
                requires
                    upper <= 0x1_0000_0000,
                    n <= 0x1_0000_0000_0000_0000,
            ;
        }
        ((upper * n) / 0x1_0000_0000) as usize
    }

    /// Insert a value; `Null` is not inserted.
    pub fn insert(&mut self, v: &Value)
        requires
            old(self)@.len() > 0 || v@ is Null,
        ensures
            final(self)@ == with_datum(old(self)@, v@),
            final(self)@.len() == old(self)@.len(),
    {
        if let Some(h) = value_hash(v) {
            self.insert_hash(h);
        }
    }

    /// Set the bits of a hash.
    pub fn insert_hash(&mut self, h: u64)
        requires
            old(self)@.len() > 0,
        ensures
            final(self)@ == inserted(old(self)@, h),
            final(self)@.len() == old(self)@.len(),
    {
        let idx: usize = self.block_index(h);
        let mut block: [u32; 8] = self.blocks[idx];
        let ghost before = block@;
        let mut i: usize = 0;
        while i < 8
            invariant
                i <= 8,
                before.len() == 8,
                forall|k: int| 0 <= k < i ==> block@[k] == before[k] | (1u32 << mask_bit(h, k)),
                forall|k: int| i <= k < 8 ==> block@[k] == before[k],
            decreases 8 - i,
        {
            let bit: u32 = word_bit(h, i);
            block[i] = block[i] | (1u32 << bit);
            i = i + 1;
        }
        self.blocks.set(idx, block);
        proof {
            assert(block@ =~= marked(before, h));
            assert(self@ =~= inserted(old(self)@, h));
        }
    }

    /// `false`: `v` is definitely absent; `true`: maybe present. `Null` probes and a filter
    /// without blocks answer `true` (conservative: never a false "absent").
    pub fn might_contain(&self, v: &Value) -> (r: bool)
        ensures
            r == maybe_in(self@, v@),
    {
        match value_hash(v) {
            Some(h) => self.check_hash(h),
            None => true,
        }
    }

    /// Whether every bit of a hash is set; `true` for a filter without blocks.
    pub fn check_hash(&self, h: u64) -> (r: bool)
        ensures
            r == (self@.len() == 0 || holds(self@, h)),
    {
        if self.blocks.len() == 0 {
            return true;
        }
        let idx: usize = self.block_index(h);
        let mut i: usize = 0;
        while i < 8
            invariant
                i <= 8,
                idx == block_of(h, self@.len()),
                idx < self@.len(),
                self@.len() == self.blocks@.len(),
                forall|k: int|
                    0 <= k < i ==> has_bit(#[trigger] self@[idx as int][k], mask_bit(h, k)),
            decreases 8 - i,
        {
            let bit: u32 = word_bit(h, i);
            proof {
                assert(self@[idx as int][i as int] == self.blocks@[idx as int]@[i as int]);
            }
            if self.blocks[idx][i] & (1u32 << bit) == 0 {
                return false;
            }
            i = i + 1;
        }
        true
    }
}

proof fn lemma_bits_stay(w: u32, b: u32, c: u32)
    ensures
        has_bit(w, c) ==> has_bit(w | (1u32 << b), c),
        b < 32 ==> has_bit(w | (1u32 << b), b),
{
    assert(w & (1u32 << c) != 0 ==> (w | (1u32 << b)) & (1u32 << c) != 0) by (bit_vector);
    assert(b < 32 ==> (w | (1u32 << b)) & (1u32 << b) != 0) by (bit_vector);
}

/// An insert keeps every hash the filter held, and the filter holds the new one.
pub proof fn law_insert_only_adds(f: Seq<Seq<u32>>, h: u64, other: u64)
    requires
        f.len() > 0,
        shaped(f),
    ensures
        holds(inserted(f, h), h),
        holds(f, other) ==> holds(inserted(f, h), other),
        inserted(f, h).len() == f.len(),
        shaped(inserted(f, h)),
{
    let n = f.len();
    let g = inserted(f, h);
    lemma_block_in_range(h, n);
    lemma_block_in_range(other, n);
    assert forall|i: int| 0 <= i < 8 implies has_bit(
        #[trigger] g[block_of(h, n)][i],
        mask_bit(h, i),
    ) by {
        lemma_bits_stay(f[block_of(h, n)][i], mask_bit(h, i), mask_bit(h, i));
    }
    if holds(f, other) {
        assert forall|i: int| 0 <= i < 8 implies has_bit(
            #[trigger] g[block_of(other, n)][i],
            mask_bit(other, i),
        ) by {
            assert(has_bit(f[block_of(other, n)][i], mask_bit(other, i)));
            lemma_bits_stay(f[block_of(h, n)][i], mask_bit(h, i), mask_bit(other, i));
        }
    }
}

/// No false negatives: a filter answers "maybe" for every datum inserted into it, and for
/// every one it answered "maybe" for before.
pub proof fn law_no_false_negatives(f: Seq<Seq<u32>>, ds: Seq<Datum>, d: Datum)
    requires
        f.len() > 0,
        shaped(f),
    ensures
        ds.contains(d) || maybe_in(f, d) ==> maybe_in(with_data(f, ds), d),
        with_data(f, ds).len() == f.len(),
        shaped(with_data(f, ds)),
    decreases ds.len(),
{
    if ds.len() > 0 {
        let g = with_data(f, ds.drop_last());
        law_no_false_negatives(f, ds.drop_last(), d);
        match (hash_of(ds.last()), hash_of(d)) {
            (Some(h), Some(other)) => law_insert_only_adds(g, h, other),
            (Some(h), None) => law_insert_only_adds(g, h, h),
            _ => {},
        }
        if ds.contains(d) {
            let k = choose|k: int| 0 <= k < ds.len() && ds[k] == d;
            if k < ds.len() - 1 {
                assert(ds.drop_last()[k] == d);
            }
        }
    }
}

/// A filter built over values answers "maybe" for each of them.
pub proof fn law_build_finds_its_values(ds: Seq<Datum>, bits_per_value: usize, d: Datum)
    requires
        ds.contains(d),
    ensures
        maybe_in(with_data(blank(blocks_for(distinct(ds) * bits_per_value)), ds), d),
{
    law_no_false_negatives(blank(blocks_for(distinct(ds) * bits_per_value)), ds, d);
}

/// One Bloom filter of one column in one zone.
#[derive(Clone, Debug, PartialEq, Eq)]
pub struct BloomEntry {
    pub zone_id: u32,
    pub field_id: i32,
    pub bloom: Bloom,
}

/// What a [`BloomEntry`] holds.
#[verifier::ext_equal]
pub struct EntryModel {
    pub zone_id: u32,
    pub field_id: i32,
    pub bloom: Seq<Seq<u32>>,
}

impl View for BloomEntry {
    type V = EntryModel;

    open spec fn view(&self) -> EntryModel {
        EntryModel { zone_id: self.zone_id, field_id: self.field_id, bloom: self.bloom@ }
    }
}

/// One Bloom per (zone, column): the `karma-bloom-v1` blob payload.
#[derive(Clone, Debug, PartialEq, Eq)]
pub struct ZoneBlooms {
    pub entries: Vec<BloomEntry>,
}

impl View for ZoneBlooms {
    type V = Seq<EntryModel>;

    open spec fn view(&self) -> Seq<EntryModel> {
        self.entries@.map_values(|e: BloomEntry| e@)
    }
}

impl Default for ZoneBlooms {
    fn default() -> (r: Self)
        ensures
            r@ == Seq::<EntryModel>::empty(),
    {
        let r = ZoneBlooms { entries: Vec::new() };
        proof {
            assert(r@ =~= Seq::<EntryModel>::empty());
        }
        r
    }
}

/// The filter recorded first for a zone and a field.
pub open spec fn first_filter(es: Seq<EntryModel>, zone_id: u32, field_id: i32) -> Option<
    Seq<Seq<u32>>,
>
    decreases es.len(),
{
    if es.len() == 0 {
        None
    } else if es[0].zone_id == zone_id && es[0].field_id == field_id {
        Some(es[0].bloom)
    } else {
        first_filter(es.drop_first(), zone_id, field_id)
    }
}

/// Membership for a zone and a column; a missing filter is "maybe".
pub open spec fn maybe_in_zone(
    es: Seq<EntryModel>,
    zone_id: u32,
    field_id: i32,
    d: Datum,
) -> bool {
    match first_filter(es, zone_id, field_id) {
        Some(f) => maybe_in(f, d),
        None => true,
    }
}

/// The words of a block from `i` on, as stored.
pub open spec fn words_bytes(block: Seq<u32>, i: int) -> Seq<u8>
    decreases block.len() - i,
{
    if 0 <= i < block.len() {
        bytes::le_bytes(block[i] as int, 4) + words_bytes(block, i + 1)
    } else {
        Seq::empty()
    }
}

/// The blocks of a filter from `i` on, as stored.
pub open spec fn blocks_bytes(f: Seq<Seq<u32>>, i: int) -> Seq<u8>
    decreases f.len() - i,
{
    if 0 <= i < f.len() {
        words_bytes(f[i], 0) + blocks_bytes(f, i + 1)
    } else {
        Seq::empty()
    }
}

pub open spec fn entry_bytes(e: EntryModel) -> Seq<u8> {
    bytes::le_bytes(e.zone_id as int, 4) + bytes::le_bytes(e.field_id as int, 4)
        + bytes::le_bytes(e.bloom.len() as int, 4) + blocks_bytes(e.bloom, 0)
}

/// The entries from `i` on, as stored.
pub open spec fn entries_bytes(es: Seq<EntryModel>, i: int) -> Seq<u8>
    decreases es.len() - i,
{
    if 0 <= i < es.len() {
        entry_bytes(es[i]) + entries_bytes(es, i + 1)
    } else {
        Seq::empty()
    }
}

/// A whole payload: version, entry count, entries.
pub open spec fn zone_blooms_bytes(es: Seq<EntryModel>) -> Seq<u8> {
    seq![VERSION] + bytes::le_bytes(es.len() as int, 4) + entries_bytes(es, 0)
}

/// The block stored at position `p`.
pub open spec fn block_at(b: Seq<u8>, p: int) -> Seq<u32> {
    Seq::new(8, |i: int| bytes::le_unsigned(b.subrange(p + 4 * i, p + 4 * i + 4)) as u32)
}

/// The `n` blocks stored from position `p`.
pub open spec fn blocks_at(b: Seq<u8>, p: int, n: nat) -> Seq<Seq<u32>> {
    Seq::new(n, |k: int| block_at(b, p + 32 * k))
}

/// The entry at position `p` and the position after it; `None` where the input ends first.
pub open spec fn parse_entry(b: Seq<u8>, p: int) -> Option<(EntryModel, int)> {
    if p + 12 > b.len() {
        None
    } else {
        let n = bytes::le_unsigned(b.subrange(p + 8, p + 12)) as nat;
        if p + 12 + 32 * n > b.len() {
            None
        } else {
            Some(
                (
                    EntryModel {
                        zone_id: bytes::le_unsigned(b.subrange(p, p + 4)) as u32,
                        field_id: bytes::le_signed(b.subrange(p + 4, p + 8)) as i32,
                        bloom: blocks_at(b, p + 12, n),
                    },
                    p + 12 + 32 * n,
                ),
            )
        }
    }
}

/// `n` entries, one after another, from position `p`.
pub open spec fn parse_entries(b: Seq<u8>, p: int, n: nat) -> Option<Seq<EntryModel>>
    decreases n,
{
    if n == 0 {
        Some(Seq::empty())
    } else {
        match parse_entry(b, p) {
            None => None,
            Some((e, q)) => match parse_entries(b, q, (n - 1) as nat) {
                None => None,
                Some(rest) => Some(seq![e] + rest),
            },
        }
    }
}

/// The filters a payload holds, or why it cannot be read. Bytes after the last entry are not
/// looked at.
pub open spec fn parse_zone_blooms(b: Seq<u8>) -> Result<Seq<EntryModel>, BloomError> {
    if b.len() < 1 {
        Err(BloomError::Truncated)
    } else if b[0] != VERSION {
        Err(BloomError::BadVersion(b[0]))
    } else if b.len() < 5 {
        Err(BloomError::Truncated)
    } else {
        match parse_entries(b, 5, bytes::le_unsigned(b.subrange(1, 5)) as nat) {
            None => Err(BloomError::Truncated),
            Some(es) => Ok(es),
        }
    }
}

impl Bloom {
    /// Append the blocks, word by word, little-endian.
    fn write_bytes(&self, out: &mut Vec<u8>)
        ensures
            final(out)@ == old(out)@ + blocks_bytes(self@, 0),
    {
        let mut k: usize = 0;
        while k < self.blocks.len()
            invariant
                k <= self.blocks@.len() == self@.len(),
                out@ + blocks_bytes(self@, k as int) == old(out)@ + blocks_bytes(self@, 0),
            decreases self.blocks@.len() - k,
        {
            let ghost block = self@[k as int];
            let ghost start = out@;
            let mut i: usize = 0;
            while i < 8
                invariant
                    i <= 8,
                    k < self.blocks@.len(),
                    block == self.blocks@[k as int]@,
                    block.len() == 8,
                    out@ + words_bytes(block, i as int) == start + words_bytes(block, 0),
                decreases 8 - i,
            {
                let ghost before = out@;
                bytes::put_le(out, self.blocks[k][i] as i128, 4);
                proof {
                    assert(out@ + words_bytes(block, i + 1) =~= before + words_bytes(
                        block,
                        i as int,
                    ));
                }
                i = i + 1;
            }
            proof {
                assert(out@ =~= start + words_bytes(block, 0));
                assert(out@ + blocks_bytes(self@, k + 1) =~= start + blocks_bytes(
                    self@,
                    k as int,
                ));
            }
            k = k + 1;
        }
        proof {
            assert(out@ =~= out@ + blocks_bytes(self@, k as int));
        }
    }

    /// Read `num_blocks` blocks.
    fn read_bytes(c: &mut Cur, num_blocks: u32) -> (r: Result<Bloom, BloomError>)
        requires
            old(c).wf(),
        ensures
            final(c).wf(),
            final(c).b == old(c).b,
            match r {
                Ok(f) => old(c).has(32 * num_blocks) && f@ == blocks_at(
                    old(c).b@,
                    old(c).p as int,
                    num_blocks as nat,
                ) && final(c).p == old(c).p + 32 * num_blocks,
                Err(e) => !old(c).has(32 * num_blocks) && e == BloomError::Truncated,
            },
    {
        let ghost b = c.b@;
        let ghost p = c.p as int;
        let mut blocks: Vec<[u32; 8]> = Vec::new();
        let mut k: u32 = 0;
        while k < num_blocks
            invariant
                k <= num_blocks,
                c.wf(),
                c.b == old(c).b,
                c.b@ == b,
                old(c).p == p,
                c.p == p + 32 * k,
                blocks@.len() == k,
                forall|j: int| 0 <= j < k ==> (#[trigger] blocks@[j])@ == block_at(b, p + 32 * j),
            decreases num_blocks - k,
        {
            let mut block: [u32; 8] = [0, 0, 0, 0, 0, 0, 0, 0];
            let mut i: usize = 0;
            while i < 8
                invariant
                    i <= 8,
                    k < num_blocks,
                    c.wf(),
                    c.b == old(c).b,
                    c.b@ == b,
                    old(c).p == p,
                    c.p == p + 32 * k + 4 * i,
                    forall|j: int| 0 <= j < i ==> block@[j] == block_at(b, p + 32 * k)[j],
                decreases 8 - i,
            {
                match c.u32() {
                    Some(w) => {
                        block[i] = w;
                    },
                    None => return Err(BloomError::Truncated),
                }
                i = i + 1;
            }
            proof {
                assert(block@ =~= block_at(b, p + 32 * k));
            }
            blocks.push(block);
            k = k + 1;
        }
        let r = Bloom { blocks };
        proof {
            assert(r@ =~= blocks_at(b, p, num_blocks as nat));
        }
        Ok(r)
    }
}

impl ZoneBlooms {
    pub fn new(entries: Vec<BloomEntry>) -> (r: Self)
        ensures
            r.entries == entries,
            r@ == entries@.map_values(|e: BloomEntry| e@),
    {
        Self { entries }
    }

    /// The filter of a zone and a column.
    pub fn get(&self, zone_id: u32, field_id: i32) -> (r: Option<&Bloom>)
        ensures
            match r {
                Some(f) => first_filter(self@, zone_id, field_id) == Some(f@),
                None => first_filter(self@, zone_id, field_id) is None,
            },
    {
        let mut i: usize = 0;
        proof {
            assert(self@.skip(0) =~= self@);
        }
        while i < self.entries.len()
            invariant
                i <= self.entries@.len(),
                first_filter(self@, zone_id, field_id) == first_filter(
                    self@.skip(i as int),
                    zone_id,
                    field_id,
                ),
            decreases self.entries@.len() - i,
        {
            proof {
                assert(self@.skip(i as int)[0] == self.entries@[i as int]@);
                assert(self@.skip(i as int).drop_first() =~= self@.skip(i + 1));
            }
            if self.entries[i].zone_id == zone_id && self.entries[i].field_id == field_id {
                return Some(&self.entries[i].bloom);
            }
            i = i + 1;
        }
        None
    }

    /// Conservative membership for a (zone, column): a missing Bloom is "maybe" (cannot prove
    /// absence) so the zone is not skipped on that axis.
    pub fn might_contain(&self, zone_id: u32, field_id: i32, v: &Value) -> (r: bool)
        ensures
            r == maybe_in_zone(self@, zone_id, field_id, v@),
    {
        match self.get(zone_id, field_id) {
            Some(f) => f.might_contain(v),
            None => true,
        }
    }

    /// Serialize to the `karma-bloom-v1` payload.
    pub fn encode(&self) -> (r: Vec<u8>)
        ensures
            r@ == zone_blooms_bytes(self@),
    {
        let mut out: Vec<u8> = Vec::new();
        out.push(VERSION);
        bytes::put_le(&mut out, self.entries.len() as i128, 4);
        let mut i: usize = 0;
        proof {
            assert(out@ + entries_bytes(self@, 0) =~= zone_blooms_bytes(self@));
        }
        while i < self.entries.len()
            invariant
                i <= self.entries@.len(),
                out@ + entries_bytes(self@, i as int) == zone_blooms_bytes(self@),
            decreases self.entries@.len() - i,
        {
            let ghost before = out@;
            let e: &BloomEntry = &self.entries[i];
            bytes::put_le(&mut out, e.zone_id as i128, 4);
            bytes::put_le(&mut out, e.field_id as i128, 4);
            bytes::put_le(&mut out, e.bloom.num_blocks() as i128, 4);
            e.bloom.write_bytes(&mut out);
            proof {
                assert(self@[i as int] == e@);
                assert(out@ =~= before + entry_bytes(e@));
                assert(out@ + entries_bytes(self@, i + 1) =~= before + entries_bytes(
                    self@,
                    i as int,
                ));
            }
            i = i + 1;
        }
        proof {
            assert(out@ =~= out@ + entries_bytes(self@, i as int));
        }
        out
    }

    /// Parse a `karma-bloom-v1` payload.
    pub fn decode(bytes: &[u8]) -> (r: Result<ZoneBlooms, BloomError>)
        ensures
            match r {
                Ok(zb) => parse_zone_blooms(bytes@) == Ok::<Seq<EntryModel>, BloomError>(zb@),
                Err(e) => parse_zone_blooms(bytes@) == Err::<Seq<EntryModel>, BloomError>(e),
            },
    {
        let mut cur = Cur { b: bytes, p: 0 };
        let c = &mut cur;
        let version: u8 = match c.u8() {
            Some(v) => v,
            None => return Err(BloomError::Truncated),
        };
        if version != VERSION {
            return Err(BloomError::BadVersion(version));
        }
        let count: u32 = match c.u32() {
            Some(v) => v,
            None => return Err(BloomError::Truncated),
        };
        let mut entries: Vec<BloomEntry> = Vec::new();
        let mut i: u32 = 0;
        let ghost model = Seq::<EntryModel>::empty();
        let ghost all = parse_entries(bytes@, 5, count as nat);
        proof {
            assert(all is Some ==> Seq::empty() + all->0 =~= all->0);
            assert(entries@.map_values(|x: BloomEntry| x@) =~= model);
        }
        while i < count
            invariant
                i <= count,
                c.wf(),
                c.b@ == bytes@,
                model == entries@.map_values(|x: BloomEntry| x@),
                all == match parse_entries(bytes@, c.p as int, (count - i) as nat) {
                    Some(rest) => Some(model + rest),
                    None => None,
                },
                parse_zone_blooms(bytes@) == match all {
                    None => Err(BloomError::Truncated),
                    Some(es) => Ok(es),
                },
            decreases count - i,
        {
            let ghost p = c.p as int;
            let zone_id: u32 = match c.u32() {
                Some(v) => v,
                None => return Err(BloomError::Truncated),
            };
            let field_id: i32 = match c.i32() {
                Some(v) => v,
                None => return Err(BloomError::Truncated),
            };
            let num_blocks: u32 = match c.u32() {
                Some(v) => v,
                None => return Err(BloomError::Truncated),
            };
            let bloom: Bloom = match Bloom::read_bytes(c, num_blocks) {
                Ok(v) => v,
                Err(e) => return Err(e),
            };
            let entry = BloomEntry { zone_id, field_id, bloom };
            proof {
                assert(parse_entry(bytes@, p) == Some((entry@, c.p as int)));
                let rest = parse_entries(bytes@, c.p as int, (count - i - 1) as nat);
                if rest is Some {
                    assert(model + (seq![entry@] + rest->0) =~= model.push(entry@) + rest->0);
                }
                model = model.push(entry@);
            }
            entries.push(entry);
            proof {
                assert(entries@.map_values(|x: BloomEntry| x@) =~= model);
            }
            i = i + 1;
        }
        proof {
            assert(model + Seq::<EntryModel>::empty() =~= model);
        }
        Ok(ZoneBlooms { entries })
    }
}

proof fn lemma_words_stand(b: Seq<u8>, p: int, block: Seq<u32>, i: int)
    requires
        0 <= i <= block.len(),
        bytes::stands_at(b, p, words_bytes(block, i)),
    ensures
        words_bytes(block, i).len() == 4 * (block.len() - i),
        forall|k: int|
            i <= k < block.len() ==> bytes::le_unsigned(
                b.subrange(p + 4 * (k - i), p + 4 * (k - i) + 4),
            ) == #[trigger] block[k],
    decreases block.len() - i,
{
    if i < block.len() {
        let s = bytes::le_bytes(block[i] as int, 4);
        bytes::lemma_le_bytes_len(block[i] as int, 4);
        bytes::lemma_pow256_values();
        bytes::lemma_stands_split(b, p, s, words_bytes(block, i + 1));
        bytes::lemma_stands_unsigned(b, p, block[i] as int, 4);
        lemma_words_stand(b, p + 4, block, i + 1);
        assert forall|k: int| i <= k < block.len() implies bytes::le_unsigned(
            b.subrange(p + 4 * (k - i), p + 4 * (k - i) + 4),
        ) == #[trigger] block[k] by {
            if k > i {
                assert(p + 4 + 4 * (k - (i + 1)) == p + 4 * (k - i));
            }
        }
    }
}

proof fn lemma_blocks_stand(b: Seq<u8>, p: int, f: Seq<Seq<u32>>, i: int)
    requires
        0 <= i <= f.len(),
        shaped(f),
        bytes::stands_at(b, p, blocks_bytes(f, i)),
    ensures
        blocks_bytes(f, i).len() == 32 * (f.len() - i),
        forall|k: int| i <= k < f.len() ==> block_at(b, p + 32 * (k - i)) == #[trigger] f[k],
    decreases f.len() - i,
{
    if i < f.len() {
        let s = words_bytes(f[i], 0);
        bytes::lemma_stands_split(b, p, s, blocks_bytes(f, i + 1));
        lemma_words_stand(b, p, f[i], 0);
        lemma_blocks_stand(b, p + 32, f, i + 1);
        assert forall|k: int| i <= k < f.len() implies block_at(b, p + 32 * (k - i))
            == #[trigger] f[k] by {
            if k > i {
                assert(p + 32 + 32 * (k - (i + 1)) == p + 32 * (k - i));
            } else {
                assert(block_at(b, p) =~= f[i]);
            }
        }
    }
}

/// Filters that read back as they were written: the counts are stored in four bytes, and a
/// block is eight words.
pub open spec fn storable(es: Seq<EntryModel>) -> bool {
    &&& es.len() <= u32::MAX
    &&& forall|i: int|
        0 <= i < es.len() ==> (#[trigger] es[i]).bloom.len() <= u32::MAX && shaped(es[i].bloom)
}

proof fn lemma_entry_reads_back(b: Seq<u8>, p: int, e: EntryModel)
    requires
        bytes::stands_at(b, p, entry_bytes(e)),
        e.bloom.len() <= u32::MAX,
        shaped(e.bloom),
    ensures
        parse_entry(b, p) == Some((e, p + entry_bytes(e).len())),
{
    let s1 = bytes::le_bytes(e.zone_id as int, 4);
    let s2 = bytes::le_bytes(e.field_id as int, 4);
    let s3 = bytes::le_bytes(e.bloom.len() as int, 4);
    let s4 = blocks_bytes(e.bloom, 0);
    bytes::lemma_le_bytes_len(e.zone_id as int, 4);
    bytes::lemma_le_bytes_len(e.field_id as int, 4);
    bytes::lemma_le_bytes_len(e.bloom.len() as int, 4);
    bytes::lemma_pow256_values();
    reveal_with_fuel(bytes::pow256, 4);
    bytes::lemma_stands_split(b, p, s1 + s2 + s3, s4);
    bytes::lemma_stands_split(b, p, s1 + s2, s3);
    bytes::lemma_stands_split(b, p, s1, s2);
    bytes::lemma_stands_unsigned(b, p, e.zone_id as int, 4);
    bytes::lemma_le_signed_inverse(e.field_id as int, 4);
    bytes::lemma_stands_unsigned(b, p + 8, e.bloom.len() as int, 4);
    lemma_blocks_stand(b, p + 12, e.bloom, 0);
    assert forall|k: int| 0 <= k < e.bloom.len() implies block_at(b, p + 12 + 32 * k)
        == #[trigger] e.bloom[k] by {
        assert(32 * (k - 0) == 32 * k);
    }
    assert(blocks_at(b, p + 12, e.bloom.len()) =~= e.bloom);
}

proof fn lemma_entries_read_back(b: Seq<u8>, p: int, es: Seq<EntryModel>, i: int)
    requires
        0 <= i <= es.len(),
        bytes::stands_at(b, p, entries_bytes(es, i)),
        storable(es),
    ensures
        parse_entries(b, p, (es.len() - i) as nat) == Some(es.skip(i)),
    decreases es.len() - i,
{
    if i < es.len() {
        let s = entry_bytes(es[i]);
        bytes::lemma_stands_split(b, p, s, entries_bytes(es, i + 1));
        lemma_entry_reads_back(b, p, es[i]);
        lemma_entries_read_back(b, p + s.len(), es, i + 1);
        assert(seq![es[i]] + es.skip(i + 1) =~= es.skip(i));
    } else {
        assert(es.skip(i) =~= Seq::<EntryModel>::empty());
    }
}

/// Decoding encoded filters gives them back, whatever follows them.
pub proof fn law_zone_blooms_round_trip(es: Seq<EntryModel>, trailing: Seq<u8>)
    requires
        storable(es),
    ensures
        parse_zone_blooms(zone_blooms_bytes(es) + trailing) == Ok::<Seq<EntryModel>, BloomError>(
            es,
        ),
        parse_zone_blooms(zone_blooms_bytes(es)) == Ok::<Seq<EntryModel>, BloomError>(es),
{
    lemma_round_trip(es, trailing);
    lemma_round_trip(es, Seq::empty());
    assert(zone_blooms_bytes(es) + Seq::empty() =~= zone_blooms_bytes(es));
}

proof fn lemma_round_trip(es: Seq<EntryModel>, trailing: Seq<u8>)
    requires
        storable(es),
    ensures
        parse_zone_blooms(zone_blooms_bytes(es) + trailing) == Ok::<Seq<EntryModel>, BloomError>(
            es,
        ),
{
    let whole = zone_blooms_bytes(es);
    let b = whole + trailing;
    let s1 = seq![VERSION];
    let s2 = bytes::le_bytes(es.len() as int, 4);
    assert(b.subrange(0, whole.len() as int) =~= whole);
    bytes::lemma_le_bytes_len(es.len() as int, 4);
    bytes::lemma_pow256_values();
    bytes::lemma_stands_split(b, 0, s1 + s2, entries_bytes(es, 0));
    bytes::lemma_stands_split(b, 0, s1, s2);
    assert(b[0] == s1[0]);
    bytes::lemma_stands_unsigned(b, 1, es.len() as int, 4);
    lemma_entries_read_back(b, 5, es, 0);
    assert(es.skip(0) =~= es);
}

proof fn lemma_cut_entry(b: Seq<u8>, k: int, p: int)
    requires
        0 <= p <= k <= b.len(),
        parse_entry(b, p) is Some,
    ensures
        parse_entry(b, p) matches Some((_, q)) && p <= q <= b.len() && parse_entry(b.take(k), p)
            == (if q <= k {
            parse_entry(b, p)
        } else {
            None
        }),
{
    let c = b.take(k);
    let n = bytes::le_unsigned(b.subrange(p + 8, p + 12)) as nat;
    bytes::lemma_le_unsigned_bound(b.subrange(p + 8, p + 12));
    if p + 12 <= k {
        assert(c.subrange(p, p + 4) =~= b.subrange(p, p + 4));
        assert(c.subrange(p + 4, p + 8) =~= b.subrange(p + 4, p + 8));
        assert(c.subrange(p + 8, p + 12) =~= b.subrange(p + 8, p + 12));
        if p + 12 + 32 * n <= k {
            assert forall|j: int| 0 <= j < n implies #[trigger] blocks_at(c, p + 12, n)[j]
                == blocks_at(b, p + 12, n)[j] by {
                let at = p + 12 + 32 * j;
                assert forall|i: int| 0 <= i < 8 implies #[trigger] block_at(c, at)[i] == block_at(
                    b,
                    at,
                )[i] by {
                    assert(c.subrange(at + 4 * i, at + 4 * i + 4) =~= b.subrange(
                        at + 4 * i,
                        at + 4 * i + 4,
                    ));
                }
                assert(block_at(c, at) =~= block_at(b, at));
            }
            assert(blocks_at(c, p + 12, n) =~= blocks_at(b, p + 12, n));
        }
    }
}

proof fn lemma_cut_entries(b: Seq<u8>, k: int, p: int, es: Seq<EntryModel>, i: int)
    requires
        0 <= i <= es.len(),
        0 <= p <= k < b.len(),
        bytes::stands_at(b, p, entries_bytes(es, i)),
        p + entries_bytes(es, i).len() == b.len(),
        storable(es),
    ensures
        parse_entries(b.take(k), p, (es.len() - i) as nat) is None,
    decreases es.len() - i,
{
    if i < es.len() {
        let s = entry_bytes(es[i]);
        bytes::lemma_stands_split(b, p, s, entries_bytes(es, i + 1));
        lemma_entry_reads_back(b, p, es[i]);
        lemma_cut_entry(b, k, p);
        if p + s.len() <= k {
            lemma_cut_entries(b, k, p + s.len(), es, i + 1);
        }
    }
}

/// Encoded filters that are cut short anywhere are truncated, never read as something else.
pub proof fn law_cut_zone_blooms_are_truncated(es: Seq<EntryModel>, k: int)
    requires
        storable(es),
        0 <= k < zone_blooms_bytes(es).len(),
    ensures
        parse_zone_blooms(zone_blooms_bytes(es).take(k)) == Err::<Seq<EntryModel>, BloomError>(
            BloomError::Truncated,
        ),
{
    let b = zone_blooms_bytes(es);
    let s1 = seq![VERSION];
    let s2 = bytes::le_bytes(es.len() as int, 4);
    assert(b.subrange(0, b.len() as int) =~= b);
    bytes::lemma_le_bytes_len(es.len() as int, 4);
    bytes::lemma_pow256_values();
    bytes::lemma_stands_split(b, 0, s1 + s2, entries_bytes(es, 0));
    bytes::lemma_stands_split(b, 0, s1, s2);
    assert(b[0] == s1[0]);
    bytes::lemma_stands_unsigned(b, 1, es.len() as int, 4);
    if k >= 5 {
        assert(b.take(k).subrange(1, 5) =~= b.subrange(1, 5));
        lemma_cut_entries(b, k, 5, es, 0);
    }
}

/// A payload is refused for its version exactly where its first byte is another version.
pub proof fn law_unknown_versions_are_refused(b: Seq<u8>, v: u8)
    ensures
        parse_zone_blooms(b) == Err::<Seq<EntryModel>, BloomError>(BloomError::BadVersion(v))
            <==> b.len() > 0 && b[0] == v && v != VERSION,
{
}

/// The top five bits of the low 32 bits of a product.
pub open spec fn top_five(x: int, salt: int) -> int {
    ((x * salt) % 0x1_0000_0000) / 0x800_0000
}

/// The mask of the format: the low half of a hash is multiplied by one odd salt per word, in
/// this order, and the top five bits of the 32-bit product number the bit of that word.
pub proof fn law_words_are_salted_in_order(h: u64)
    ensures
        mask_bit(h, 0) == top_five(h as int % 0x1_0000_0000, 0x47b6_137b),
        mask_bit(h, 1) == top_five(h as int % 0x1_0000_0000, 0x4497_4d91),
        mask_bit(h, 2) == top_five(h as int % 0x1_0000_0000, 0x8824_ad5b),
        mask_bit(h, 3) == top_five(h as int % 0x1_0000_0000, 0xa2b7_289d),
        mask_bit(h, 4) == top_five(h as int % 0x1_0000_0000, 0x7054_95c7),
        mask_bit(h, 5) == top_five(h as int % 0x1_0000_0000, 0x2df1_424b),
        mask_bit(h, 6) == top_five(h as int % 0x1_0000_0000, 0x9efc_4947),
        mask_bit(h, 7) == top_five(h as int % 0x1_0000_0000, 0x5c6b_fb31),
        forall|i: int| 0 <= i < 8 ==> #[trigger] mask_bit(h, i) < 32,
{
}

/// A bit of a word is found by shifting it down to place 0.
pub proof fn law_bits_stand_at_their_place(w: u32, b: u32)
    requires
        b < 32,
    ensures
        has_bit(w, b) <==> (w >> b) & 1 == 1,
{
    assert(w & (1u32 << b) != 0 <==> (w >> b) & 1 == 1) by (bit_vector)
        requires
            b < 32,
    ;
}

proof fn lemma_one_bit(w: u32, b: u32, c: u32)
    requires
        b < 32,
        c < 32,
    ensures
        has_bit(w | (1u32 << b), c) <==> has_bit(w, c) || b == c,
{
    assert((w | (1u32 << b)) & (1u32 << c) != 0 <==> (w & (1u32 << c) != 0 || b == c))
        by (bit_vector)
        requires
            b < 32,
            c < 32,
    ;
}

/// Inserting a hash sets one bit in each word of one block and changes nothing else. Bit `j` of
/// word `i` of block `k` is set afterwards if it was set before, or if the block is the one that
/// the upper half of the hash scales to and the bit is the one of the word's salt.
pub proof fn law_insert_sets_one_bit_per_word(f: Seq<Seq<u32>>, h: u64, k: int, i: int, j: u32)
    requires
        f.len() > 0,
        shaped(f),
        0 <= k < f.len(),
        0 <= i < 8,
        j < 32,
    ensures
        has_bit(inserted(f, h)[k][i], j) <==> has_bit(f[k][i], j) || (k == ((h as int
            / 0x1_0000_0000) * f.len()) / 0x1_0000_0000 && j == mask_bit(h, i)),
        inserted(f, h).len() == f.len(),
        inserted(f, h)[k].len() == 8,
{
    lemma_block_in_range(h, f.len());
    law_words_are_salted_in_order(h);
    assert(mask_bit(h, i) < 32);
    lemma_one_bit(f[k][i], mask_bit(h, i), j);
}

/// A probe of a filter with blocks answers "maybe" if and only if each of the eight words of
/// the block that the upper half of the hash scales to has the bit of its salt.
pub proof fn law_probe_asks_all_eight_words(f: Seq<Seq<u32>>, h: u64, k: int)
    requires
        f.len() > 0,
        k == ((h as int / 0x1_0000_0000) * f.len()) / 0x1_0000_0000,
    ensures
        holds(f, h) <==> {
            &&& has_bit(f[k][0], mask_bit(h, 0))
            &&& has_bit(f[k][1], mask_bit(h, 1))
            &&& has_bit(f[k][2], mask_bit(h, 2))
            &&& has_bit(f[k][3], mask_bit(h, 3))
            &&& has_bit(f[k][4], mask_bit(h, 4))
            &&& has_bit(f[k][5], mask_bit(h, 5))
            &&& has_bit(f[k][6], mask_bit(h, 6))
            &&& has_bit(f[k][7], mask_bit(h, 7))
        },
{
    let b = block_of(h, f.len());
    assert(k == b);
    if holds(f, h) {
        assert forall|i: int| 0 <= i < 8 implies #[trigger] has_bit(f[k][i], mask_bit(h, i)) by {
            assert(has_bit(f[b][i], mask_bit(h, i)));
        }
    }
    if has_bit(f[k][0], mask_bit(h, 0)) && has_bit(f[k][1], mask_bit(h, 1)) && has_bit(
        f[k][2],
        mask_bit(h, 2),
    ) && has_bit(f[k][3], mask_bit(h, 3)) && has_bit(f[k][4], mask_bit(h, 4)) && has_bit(
        f[k][5],
        mask_bit(h, 5),
    ) && has_bit(f[k][6], mask_bit(h, 6)) && has_bit(f[k][7], mask_bit(h, 7)) {
        assert forall|i: int| 0 <= i < 8 implies has_bit(
            #[trigger] f[block_of(h, f.len())][i],
            mask_bit(h, i),
        ) by {
            assert(i == 0 || i == 1 || i == 2 || i == 3 || i == 4 || i == 5 || i == 6 || i == 7);
        }
    }
}

/// A product is cut to its low 32 bits by the multiples of `2^32` in it.
proof fn lemma_product(x: int, salt: int, high: int, low: int)
    requires
        x * salt == high * 0x1_0000_0000 + low,
        0 <= low < 0x1_0000_0000,
    ensures
        top_five(x, salt) == low / 0x800_0000,
{
}

proof fn lemma_known_products()
    ensures
        top_five(0xad77_0999, 0x47b6_137b) == 13,
        top_five(0xad77_0999, 0x4497_4d91) == 11,
        top_five(0xad77_0999, 0x8824_ad5b) == 23,
        top_five(0xad77_0999, 0xa2b7_289d) == 21,
        top_five(0xad77_0999, 0x7054_95c7) == 6,
        top_five(0xad77_0999, 0x2df1_424b) == 14,
        top_five(0xad77_0999, 0x9efc_4947) == 29,
        top_five(0xad77_0999, 0x5c6b_fb31) == 29,
{
    lemma_product(0xad77_0999, 0x47b6_137b, 815227773, 1873672067);
    lemma_product(0xad77_0999, 0x4497_4d91, 779756626, 1536062633);
    lemma_product(0xad77_0999, 0x8824_ad5b, 1547704141, 3159412323);
    lemma_product(0xad77_0999, 0xa2b7_289d, 1849782191, 2850015957);
    lemma_product(0xad77_0999, 0x7054_95c7, 1276994751, 911377135);
    lemma_product(0xad77_0999, 0x2df1_424b, 522282667, 1885487571);
    lemma_product(0xad77_0999, 0x9efc_4947, 1807379136, 3999025775);
    lemma_product(0xad77_0999, 0x5c6b_fb31, 1050669672, 3911506249);
}

#[verifier::rlimit(40)]
proof fn lemma_known_bits()
    ensures
        mask_bit(0x44bc_2cf5_ad77_0999, 0) == 13,
        mask_bit(0x44bc_2cf5_ad77_0999, 1) == 11,
        mask_bit(0x44bc_2cf5_ad77_0999, 2) == 23,
        mask_bit(0x44bc_2cf5_ad77_0999, 3) == 21,
        mask_bit(0x44bc_2cf5_ad77_0999, 4) == 6,
        mask_bit(0x44bc_2cf5_ad77_0999, 5) == 14,
        mask_bit(0x44bc_2cf5_ad77_0999, 6) == 29,
        mask_bit(0x44bc_2cf5_ad77_0999, 7) == 29,
{
    let h = 0x44bc_2cf5_ad77_0999u64;
    let low = h as int % 0x1_0000_0000;
    assert(low == 0xad77_0999);
    lemma_known_products();
    law_words_are_salted_in_order(h);
}

proof fn lemma_blank_or(b: u32)
    ensures
        0u32 | b == b,
{
    assert(0u32 | b == b) by (bit_vector);
}

/// The block of a known hash, XXH64 of the bytes `abc`, under the construction of the format: one
/// bit per word, and a filter of one block that has these bits answers "maybe" for the hash.
#[verifier::rlimit(40)]
pub proof fn law_known_hash_marks_known_bits(f: Seq<Seq<u32>>)
    requires
        f.len() == 1,
    ensures
        marked(blank(1)[0], 0x44bc_2cf5_ad77_0999) == seq![
            1u32 << 13,
            1u32 << 11,
            1u32 << 23,
            1u32 << 21,
            1u32 << 6,
            1u32 << 14,
            1u32 << 29,
            1u32 << 29,
        ],
        holds(f, 0x44bc_2cf5_ad77_0999) <==> has_bit(f[0][0], 13) && has_bit(f[0][1], 11)
            && has_bit(f[0][2], 23) && has_bit(f[0][3], 21) && has_bit(f[0][4], 6) && has_bit(
            f[0][5],
            14,
        ) && has_bit(f[0][6], 29) && has_bit(f[0][7], 29),
{
    let h = 0x44bc_2cf5_ad77_0999u64;
    lemma_known_bits();
    law_probe_asks_all_eight_words(f, h, 0);
    lemma_blank_or(1u32 << 13);
    lemma_blank_or(1u32 << 11);
    lemma_blank_or(1u32 << 23);
    lemma_blank_or(1u32 << 21);
    lemma_blank_or(1u32 << 6);
    lemma_blank_or(1u32 << 14);
    lemma_blank_or(1u32 << 29);
    let block = blank(1)[0];
    let bits = seq![
        1u32 << 13,
        1u32 << 11,
        1u32 << 23,
        1u32 << 21,
        1u32 << 6,
        1u32 << 14,
        1u32 << 29,
        1u32 << 29,
    ];
    assert forall|i: int| 0 <= i < 8 implies marked(block, h)[i] == bits[i] by {
        assert(marked(block, h)[i] == 0u32 | (1u32 << mask_bit(h, i)));
    }
    assert(marked(block, h) =~= bits);
}

/// Whether the hash of one of the data sets bit `j` of word `i` of block `k`, of `n`.
pub open spec fn some_hash_marks(ds: Seq<Datum>, n: nat, k: int, i: int, j: u32) -> bool {
    exists|q: int|
        0 <= q < ds.len() && (#[trigger] hash_of(ds[q]) matches Some(h) && k == ((h as int
            / 0x1_0000_0000) * n) / 0x1_0000_0000 && j == mask_bit(h, i))
}

/// A filter holds the bits of its values and no others, in whatever order they came.
pub proof fn law_bits_come_from_the_values(
    f: Seq<Seq<u32>>,
    ds: Seq<Datum>,
    k: int,
    i: int,
    j: u32,
)
    requires
        f.len() > 0,
        shaped(f),
        0 <= k < f.len(),
        0 <= i < 8,
        j < 32,
    ensures
        has_bit(with_data(f, ds)[k][i], j) <==> has_bit(f[k][i], j) || some_hash_marks(
            ds,
            f.len(),
            k,
            i,
            j,
        ),
    decreases ds.len(),
{
    if ds.len() > 0 {
        let n = f.len();
        let before = ds.drop_last();
        law_bits_come_from_the_values(f, before, k, i, j);
        law_no_false_negatives(f, before, Datum::Null);
        assert forall|q: int| 0 <= q < before.len() implies before[q] == #[trigger] ds[q] by {}
        match hash_of(ds.last()) {
            Some(h) => {
                law_insert_sets_one_bit_per_word(with_data(f, before), h, k, i, j);
                assert(ds[ds.len() - 1] == ds.last());
                if k == ((h as int / 0x1_0000_0000) * n) / 0x1_0000_0000 && j == mask_bit(h, i) {
                    assert(hash_of(ds[ds.len() - 1]) == Some(h));
                    assert(some_hash_marks(ds, n, k, i, j));
                }
            },
            None => {},
        }
        if some_hash_marks(before, n, k, i, j) {
            let q = choose|q: int|
                0 <= q < before.len() && (#[trigger] hash_of(before[q]) matches Some(h) && k == ((
                h as int / 0x1_0000_0000) * n) / 0x1_0000_0000 && j == mask_bit(h, i));
            assert(hash_of(ds[q]) == hash_of(before[q]));
            assert(some_hash_marks(ds, n, k, i, j));
        }
        if some_hash_marks(ds, n, k, i, j) {
            let q = choose|q: int|
                0 <= q < ds.len() && (#[trigger] hash_of(ds[q]) matches Some(h) && k == ((h as int
                    / 0x1_0000_0000) * n) / 0x1_0000_0000 && j == mask_bit(h, i));
            if q < before.len() {
                assert(hash_of(before[q]) == hash_of(ds[q]));
                assert(some_hash_marks(before, n, k, i, j));
            }
        }
    }
}

/// A fresh filter has no bit set, and a value is denied by it.
pub proof fn law_fresh_filters_deny_all(n: nat, d: Datum)
    requires
        n > 0,
        !(d is Null),
    ensures
        blank(n).len() == n,
        shaped(blank(n)),
        forall|k: int, i: int| 0 <= k < n && 0 <= i < 8 ==> (#[trigger] blank(n)[k][i]) == 0,
        !maybe_in(blank(n), d),
{
    match hash_of(d) {
        Some(h) => {
            lemma_block_in_range(h, n);
            let b = mask_bit(h, 0);
            assert(0u32 & (1u32 << b) == 0) by (bit_vector);
            assert(!has_bit(blank(n)[block_of(h, n)][0], mask_bit(h, 0)));
        },
        None => {},
    }
}

/// A filter gets the least number of 256-bit blocks, but at least one, that hold the bits asked
/// for.
pub proof fn law_blocks_are_as_few_as_hold_the_bits(bits: int, n: nat)
    ensures
        blocks_for(bits) >= 1,
        256 * blocks_for(bits) >= bits,
        n >= 1 && 256 * n >= bits ==> blocks_for(bits) <= n,
{
}

/// The number of distinct data is the number of different byte strings that are hashed.
pub proof fn law_distinct_counts_byte_strings(ds: Seq<Datum>)
    ensures
        hashed_strings(ds).finite(),
        distinct(ds) == hashed_strings(ds).len(),
    decreases ds.len(),
{
    if ds.len() > 0 {
        let before = ds.drop_last();
        law_distinct_counts_byte_strings(before);
        assert forall|s: Seq<u8>| #[trigger] hashed_strings(ds).contains(s) <==> hashed_strings(
            before,
        ).contains(s) || canonical(ds.last()) == Some(s) by {
            if hashed_strings(before).contains(s) {
                let k = choose|k: int|
                    0 <= k < before.len() && #[trigger] canonical(before[k]) == Some(s);
                assert(canonical(ds[k]) == Some(s));
            }
            if canonical(ds.last()) == Some(s) {
                assert(canonical(ds[ds.len() - 1]) == Some(s));
            }
            if hashed_strings(ds).contains(s) {
                let k = choose|k: int| 0 <= k < ds.len() && #[trigger] canonical(ds[k]) == Some(s);
                if k < before.len() {
                    assert(canonical(before[k]) == Some(s));
                }
            }
        }
        match canonical(ds.last()) {
            Some(s) => {
                assert(hashed_strings(ds) =~= hashed_strings(before).insert(s));
                if is_new(before, ds.last()) {
                    assert(!hashed_strings(before).contains(s));
                } else {
                    let k = choose|k: int|
                        0 <= k < before.len() && canonical(#[trigger] before[k]) == canonical(
                            ds.last(),
                        );
                    assert(canonical(before[k]) == Some(s));
                    assert(hashed_strings(before).contains(s));
                    assert(hashed_strings(ds) =~= hashed_strings(before));
                }
            },
            None => {
                assert(hashed_strings(ds) =~= hashed_strings(before));
            },
        }
    } else {
        assert(hashed_strings(ds) =~= Set::<Seq<u8>>::empty());
    }
}

/// The byte strings that stand for the data in a filter.
pub open spec fn hashed_strings(ds: Seq<Datum>) -> Set<Seq<u8>> {
    Set::new(
        |s: Seq<u8>| exists|k: int| 0 <= k < ds.len() && #[trigger] canonical(ds[k]) == Some(s),
    )
}

/// The bytes that are hashed. A string is hashed as it stands; numbers are hashed low byte
/// first: integers, times and timestamps as eight bytes, dates as four, a float by its pattern,
/// a boolean as one byte, a decimal as sixteen bytes of its unscaled number and four of its
/// scale. The seed is 0, and `Null` has no hash.
#[verifier::rlimit(40)]
pub proof fn law_canonical_bytes_spell_the_value(
    b: bool,
    x: i64,
    bits: u64,
    s: Seq<u8>,
    unscaled: i128,
    scale: i32,
    day: i32,
)
    ensures
        canonical(Datum::Bytes(s)) == Some(s),
        canonical(Datum::Bool(b)) matches Some(t) && t.len() == 1 && t[0] == (if b {
            1u8
        } else {
            0u8
        }),
        canonical(Datum::I64(x)) matches Some(t) && t.len() == 8 && bytes::spells(t, x as int),
        canonical(Datum::Time(x)) matches Some(t) && t.len() == 8 && bytes::spells(t, x as int),
        canonical(Datum::Timestamp(x)) matches Some(t) && t.len() == 8 && bytes::spells(
            t,
            x as int,
        ),
        canonical(Datum::F64(bits)) matches Some(t) && t.len() == 8 && bytes::spells(
            t,
            bits as int,
        ),
        canonical(Datum::Date(day)) matches Some(t) && t.len() == 4 && bytes::spells(
            t,
            day as int,
        ),
        canonical(Datum::Decimal { unscaled, scale }) matches Some(t) && t.len() == 20
            && bytes::spells_at(t, 0, 16, unscaled as int) && bytes::spells_at(
            t,
            16,
            4,
            scale as int,
        ),
        hash_of(Datum::Bytes(s)) == Some(xxh64(0, s)),
        hash_of(Datum::Null) is None,
{
    bytes::law_le_bytes_are_the_digits(x as int, 8);
    bytes::law_le_bytes_are_the_digits(bits as int, 8);
    bytes::law_le_bytes_are_the_digits(day as int, 4);
    let lo = bytes::le_bytes(unscaled as int, 16);
    let hi = bytes::le_bytes(scale as int, 4);
    bytes::law_le_bytes_are_the_digits(unscaled as int, 16);
    bytes::law_le_bytes_are_the_digits(scale as int, 4);
    assert((lo + hi).subrange(0, 16) =~= lo);
    assert((lo + hi).subrange(16, 20) =~= hi);
    bytes::lemma_stands_spells(lo + hi, 0, unscaled as int, 16);
    bytes::lemma_stands_spells(lo + hi, 16, scale as int, 4);
}

/// A hash depends on the hashed bytes alone.
pub proof fn law_hash_is_that_of_the_canonical_bytes(d: Datum)
    requires
        !(d is Null),
    ensures
        canonical(d) matches Some(s) && hash_of(d) == Some(xxh64(0, s)),
{
}

/// Where the entry of filter `i` starts: behind the version byte, the count, and for each filter
/// before it twelve bytes and 32 for each of its blocks.
pub open spec fn entry_start(es: Seq<EntryModel>, i: int) -> int
    decreases i,
{
    if i <= 0 {
        5
    } else {
        entry_start(es, i - 1) + 12 + 32 * es[i - 1].bloom.len()
    }
}

proof fn lemma_entry_stands(b: Seq<u8>, es: Seq<EntryModel>, from: int, i: int)
    requires
        0 <= from <= i <= es.len(),
        storable(es),
        bytes::stands_at(b, entry_start(es, from), entries_bytes(es, from)),
    ensures
        bytes::stands_at(b, entry_start(es, i), entries_bytes(es, i)),
        i < es.len() ==> bytes::stands_at(b, entry_start(es, i), entry_bytes(es[i])),
        i < es.len() ==> entry_bytes(es[i]).len() == 12 + 32 * es[i].bloom.len(),
    decreases i - from,
{
    if from < es.len() {
        let e = es[from];
        bytes::lemma_stands_split(b, entry_start(es, from), entry_bytes(e), entries_bytes(es, from + 1));
        let t = blocks_bytes(e.bloom, 0);
        assert(t.subrange(0, t.len() as int) =~= t);
        lemma_blocks_stand(t, 0, e.bloom, 0);
        bytes::lemma_le_bytes_len(e.zone_id as int, 4);
        bytes::lemma_le_bytes_len(e.field_id as int, 4);
        bytes::lemma_le_bytes_len(e.bloom.len() as int, 4);
    }
    if from < i {
        lemma_entry_stands(b, es, from + 1, i);
    }
}

proof fn lemma_word_stands(b: Seq<u8>, p: int, block: Seq<u32>, i: int, w: int)
    requires
        0 <= i <= w < block.len(),
        bytes::stands_at(b, p, words_bytes(block, i)),
    ensures
        bytes::spells_at(b, p + 4 * (w - i), 4, block[w] as int),
    decreases block.len() - i,
{
    let s = bytes::le_bytes(block[i] as int, 4);
    bytes::lemma_le_bytes_len(block[i] as int, 4);
    bytes::lemma_stands_split(b, p, s, words_bytes(block, i + 1));
    bytes::lemma_stands_spells(b, p, block[i] as int, 4);
    if i < w {
        lemma_word_stands(b, p + 4, block, i + 1, w);
    }
}

proof fn lemma_block_stands(b: Seq<u8>, p: int, f: Seq<Seq<u32>>, i: int, k: int)
    requires
        0 <= i <= k < f.len(),
        shaped(f),
        bytes::stands_at(b, p, blocks_bytes(f, i)),
    ensures
        bytes::stands_at(b, p + 32 * (k - i), words_bytes(f[k], 0)),
    decreases f.len() - i,
{
    let s = words_bytes(f[i], 0);
    bytes::lemma_stands_split(b, p, s, blocks_bytes(f, i + 1));
    lemma_words_stand(b, p, f[i], 0);
    if i < k {
        lemma_block_stands(b, p + 32, f, i + 1, k);
    }
}

/// How a payload is laid out. Byte 0 is 1; then the number of filters in four bytes. The entry
/// of a filter is its zone in four bytes, its field in four, the number of its blocks in four,
/// and its blocks of eight words of four bytes; every number stands low byte first. Nothing
/// follows the last entry.
pub proof fn law_zone_blooms_layout(es: Seq<EntryModel>, i: int, k: int, w: int)
    requires
        storable(es),
    ensures
        zone_blooms_bytes(es).len() == entry_start(es, es.len() as int),
        zone_blooms_bytes(es)[0] == 1,
        bytes::spells_at(zone_blooms_bytes(es), 1, 4, es.len() as int),
        0 <= i < es.len() ==> {
            let p = entry_start(es, i);
            &&& bytes::spells_at(zone_blooms_bytes(es), p, 4, es[i].zone_id as int)
            &&& bytes::spells_at(zone_blooms_bytes(es), p + 4, 4, es[i].field_id as int)
            &&& bytes::spells_at(zone_blooms_bytes(es), p + 8, 4, es[i].bloom.len() as int)
            &&& 0 <= k < es[i].bloom.len() && 0 <= w < 8 ==> bytes::spells_at(
                zone_blooms_bytes(es),
                p + 12 + 32 * k + 4 * w,
                4,
                es[i].bloom[k][w] as int,
            )
        },
{
    let b = zone_blooms_bytes(es);
    let s1 = seq![VERSION];
    let s2 = bytes::le_bytes(es.len() as int, 4);
    let s3 = entries_bytes(es, 0);
    assert(b.subrange(0, b.len() as int) =~= b);
    bytes::lemma_le_bytes_len(es.len() as int, 4);
    bytes::lemma_stands_split(b, 0, s1 + s2, s3);
    bytes::lemma_stands_split(b, 0, s1, s2);
    bytes::lemma_stands_spells(b, 1, es.len() as int, 4);
    lemma_entry_stands(b, es, 0, es.len() as int);
    lemma_entries_len(es, 0);
    if 0 <= i < es.len() {
        lemma_entry_stands(b, es, 0, i);
        let p = entry_start(es, i);
        let e = es[i];
        let t1 = bytes::le_bytes(e.zone_id as int, 4);
        let t2 = bytes::le_bytes(e.field_id as int, 4);
        let t3 = bytes::le_bytes(e.bloom.len() as int, 4);
        let t4 = blocks_bytes(e.bloom, 0);
        bytes::lemma_le_bytes_len(e.zone_id as int, 4);
        bytes::lemma_le_bytes_len(e.field_id as int, 4);
        bytes::lemma_le_bytes_len(e.bloom.len() as int, 4);
        bytes::lemma_stands_split(b, p, t1 + t2 + t3, t4);
        bytes::lemma_stands_split(b, p, t1 + t2, t3);
        bytes::lemma_stands_split(b, p, t1, t2);
        bytes::lemma_stands_spells(b, p, e.zone_id as int, 4);
        bytes::lemma_stands_spells(b, p + 4, e.field_id as int, 4);
        bytes::lemma_stands_spells(b, p + 8, e.bloom.len() as int, 4);
        if 0 <= k < e.bloom.len() && 0 <= w < 8 {
            lemma_block_stands(b, p + 12, e.bloom, 0, k);
            lemma_word_stands(b, p + 12 + 32 * k, e.bloom[k], 0, w);
        }
    }
}

proof fn lemma_entries_len(es: Seq<EntryModel>, i: int)
    requires
        0 <= i <= es.len(),
        storable(es),
    ensures
        entry_start(es, i) + entries_bytes(es, i).len() == entry_start(es, es.len() as int),
    decreases es.len() - i,
{
    if i < es.len() {
        let e = es[i];
        lemma_entries_len(es, i + 1);
        let t = blocks_bytes(e.bloom, 0);
        assert(t.subrange(0, t.len() as int) =~= t);
        lemma_blocks_stand(t, 0, e.bloom, 0);
        bytes::lemma_le_bytes_len(e.zone_id as int, 4);
        bytes::lemma_le_bytes_len(e.field_id as int, 4);
        bytes::lemma_le_bytes_len(e.bloom.len() as int, 4);
    }
}

/// Words that are read from some bytes stand there.
proof fn lemma_read_words_stand(b: Seq<u8>, p: int, i: int)
    requires
        0 <= p,
        p + 32 <= b.len(),
        0 <= i <= 8,
    ensures
        bytes::stands_at(b, p + 4 * i, words_bytes(block_at(b, p), i)),
        words_bytes(block_at(b, p), i).len() == 4 * (8 - i),
    decreases 8 - i,
{
    let block = block_at(b, p);
    if i < 8 {
        let at = p + 4 * i;
        lemma_read_words_stand(b, p, i + 1);
        bytes::lemma_read_stands(b, at, 4);
        bytes::lemma_le_unsigned_bound(b.subrange(at, at + 4));
        bytes::lemma_pow256_values();
        assert(block[i] as int == bytes::le_unsigned(b.subrange(at, at + 4)));
        bytes::lemma_le_bytes_len(block[i] as int, 4);
        bytes::lemma_stands_join(
            b,
            at,
            bytes::le_bytes(block[i] as int, 4),
            words_bytes(block, i + 1),
        );
    } else {
        assert(b.subrange(p + 32, p + 32) =~= Seq::<u8>::empty());
    }
}

/// Blocks that are read from some bytes stand there.
proof fn lemma_read_blocks_stand(b: Seq<u8>, p: int, n: nat, i: int)
    requires
        0 <= p,
        p + 32 * n <= b.len(),
        0 <= i <= n,
    ensures
        bytes::stands_at(b, p + 32 * i, blocks_bytes(blocks_at(b, p, n), i)),
        blocks_bytes(blocks_at(b, p, n), i).len() == 32 * (n - i),
    decreases n - i,
{
    let f = blocks_at(b, p, n);
    if i < n {
        let at = p + 32 * i;
        lemma_read_blocks_stand(b, p, n, i + 1);
        lemma_read_words_stand(b, at, 0);
        assert(f[i] == block_at(b, at));
        bytes::lemma_stands_join(b, at, words_bytes(f[i], 0), blocks_bytes(f, i + 1));
    } else {
        assert(b.subrange(p + 32 * n, p + 32 * n) =~= Seq::<u8>::empty());
    }
}

/// An entry that is read from some bytes stands there.
proof fn lemma_read_entry_stands(b: Seq<u8>, p: int, e: EntryModel, q: int)
    requires
        0 <= p,
        parse_entry(b, p) == Some((e, q)),
    ensures
        bytes::stands_at(b, p, entry_bytes(e)),
        q == p + entry_bytes(e).len(),
        e.bloom.len() <= u32::MAX,
        shaped(e.bloom),
{
    let n = bytes::le_unsigned(b.subrange(p + 8, p + 12)) as nat;
    bytes::lemma_le_unsigned_bound(b.subrange(p, p + 4));
    bytes::lemma_le_signed_unsigned(b.subrange(p + 4, p + 8));
    bytes::lemma_le_unsigned_bound(b.subrange(p + 8, p + 12));
    bytes::lemma_pow256_values();
    bytes::law_le_signed_has_the_digits(b.subrange(p + 4, p + 8));
    bytes::lemma_read_stands(b, p, 4);
    bytes::lemma_read_stands(b, p + 4, 4);
    bytes::lemma_read_stands(b, p + 8, 4);
    assert(bytes::pow256(3) == 0x100_0000) by {
        reveal_with_fuel(bytes::pow256, 4);
    }
    assert(e.field_id as int == bytes::le_signed(b.subrange(p + 4, p + 8)));
    lemma_read_blocks_stand(b, p + 12, n, 0);
    let t1 = bytes::le_bytes(e.zone_id as int, 4);
    let t2 = bytes::le_bytes(e.field_id as int, 4);
    let t3 = bytes::le_bytes(e.bloom.len() as int, 4);
    let t4 = blocks_bytes(e.bloom, 0);
    bytes::lemma_le_bytes_len(e.zone_id as int, 4);
    bytes::lemma_le_bytes_len(e.field_id as int, 4);
    bytes::lemma_le_bytes_len(e.bloom.len() as int, 4);
    bytes::lemma_stands_join(b, p, t1, t2);
    bytes::lemma_stands_join(b, p, t1 + t2, t3);
    bytes::lemma_stands_join(b, p, t1 + t2 + t3, t4);
}

proof fn lemma_read_entries_stand(b: Seq<u8>, p: int, n: nat)
    requires
        0 <= p <= b.len(),
    ensures
        parse_entries(b, p, n) matches Some(es) ==> es.len() == n && bytes::stands_at(
            b,
            p,
            entries_bytes(es, 0),
        ) && forall|i: int|
            0 <= i < n ==> (#[trigger] es[i]).bloom.len() <= u32::MAX && shaped(es[i].bloom),
    decreases n,
{
    if parse_entries(b, p, n) is Some {
        let es = parse_entries(b, p, n)->0;
        if n > 0 {
            let (e, q) = parse_entry(b, p)->0;
            let rest = parse_entries(b, q, (n - 1) as nat)->0;
            lemma_read_entry_stands(b, p, e, q);
            lemma_read_entries_stand(b, q, (n - 1) as nat);
            assert(es == seq![e] + rest);
            lemma_entries_shift(e, rest, 0);
            bytes::lemma_stands_join(b, p, entry_bytes(e), entries_bytes(rest, 0));
            assert forall|i: int| 0 <= i < n implies (#[trigger] es[i]).bloom.len() <= u32::MAX
                && shaped(es[i].bloom) by {
                if i > 0 {
                    assert(es[i] == rest[i - 1]);
                }
            }
        } else {
            assert(b.subrange(p, p) =~= Seq::<u8>::empty());
        }
    }
}

proof fn lemma_entries_shift(e: EntryModel, rest: Seq<EntryModel>, i: int)
    requires
        0 <= i <= rest.len(),
    ensures
        entries_bytes(seq![e] + rest, i + 1) == entries_bytes(rest, i),
    decreases rest.len() - i,
{
    if i < rest.len() {
        lemma_entries_shift(e, rest, i + 1);
        assert((seq![e] + rest)[i + 1] == rest[i]);
    }
}

/// What is read is what was written: bytes that are read as filters begin with the bytes that
/// these filters are written as. So nothing is read but a payload.
pub proof fn law_read_blooms_write_back(b: Seq<u8>, es: Seq<EntryModel>)
    requires
        parse_zone_blooms(b) == Ok::<Seq<EntryModel>, BloomError>(es),
    ensures
        storable(es),
        zone_blooms_bytes(es).len() <= b.len(),
        b.take(zone_blooms_bytes(es).len() as int) == zone_blooms_bytes(es),
{
    let n = bytes::le_unsigned(b.subrange(1, 5)) as nat;
    bytes::lemma_le_unsigned_bound(b.subrange(1, 5));
    bytes::lemma_pow256_values();
    lemma_read_entries_stand(b, 5, n);
    bytes::lemma_read_stands(b, 1, 4);
    bytes::lemma_le_bytes_len(n as int, 4);
    let s1 = seq![VERSION];
    let s2 = bytes::le_bytes(n as int, 4);
    assert(b.subrange(0, 1) =~= s1);
    bytes::lemma_stands_join(b, 0, s1, s2);
    bytes::lemma_stands_join(b, 0, s1 + s2, entries_bytes(es, 0));
    assert(b.take(zone_blooms_bytes(es).len() as int) =~= b.subrange(
        0,
        zone_blooms_bytes(es).len() as int,
    ));
}

/// The filter of a zone and a field is that of the first entry that names both; without one
/// there is no filter, and every probe answers "maybe".
pub proof fn law_first_entry_gives_the_filter(
    es: Seq<EntryModel>,
    zone_id: u32,
    field_id: i32,
    i: int,
    d: Datum,
)
    requires
        0 <= i <= es.len(),
        forall|k: int|
            0 <= k < i ==> (#[trigger] es[k]).zone_id != zone_id || es[k].field_id != field_id,
        i < es.len() ==> es[i].zone_id == zone_id && es[i].field_id == field_id,
    ensures
        i < es.len() ==> first_filter(es, zone_id, field_id) == Some(es[i].bloom),
        i < es.len() ==> maybe_in_zone(es, zone_id, field_id, d) == maybe_in(es[i].bloom, d),
        i == es.len() ==> first_filter(es, zone_id, field_id) is None && maybe_in_zone(
            es,
            zone_id,
            field_id,
            d,
        ),
    decreases es.len(),
{
    if i > 0 {
        let rest = es.drop_first();
        assert(es[0].zone_id != zone_id || es[0].field_id != field_id);
        assert forall|k: int| 0 <= k < i - 1 implies (#[trigger] rest[k]).zone_id != zone_id
            || rest[k].field_id != field_id by {
            assert(rest[k] == es[k + 1]);
        }
        law_first_entry_gives_the_filter(rest, zone_id, field_id, i - 1, d);
    }
}

/// An error names what was found: the version that was read, in decimal.
pub proof fn law_errors_name_the_version(v: u8)
    ensures
        text::names(
            error_words(BloomError::BadVersion(v)),
            "unsupported bloom version "@,
            text::decimal(v as nat),
            Seq::empty(),
        ),
        error_words(BloomError::Truncated) == "truncated bloom payload"@,
{
    let head = "unsupported bloom version "@;
    let none = Seq::<char>::empty();
    text::lemma_names(head, text::decimal(v as nat), none);
    assert(head + text::decimal(v as nat) + none =~= head + text::decimal(v as nat));
}

/// A filter made with a number of blocks has as many, but at least one, and no bit is set; a
/// filter without blocks, as it may be read, denies nothing.
pub proof fn law_filters_have_a_block(
    num_blocks: usize,
    fresh: Bloom,
    filter: Bloom,
    h: u64,
    answer: bool,
    k: int,
    i: int,
)
    requires
        call_ensures(Bloom::with_blocks, (num_blocks,), fresh),
        call_ensures(Bloom::check_hash, (&filter, h), answer),
    ensures
        num_blocks == 0 ==> fresh@.len() == 1,
        num_blocks > 0 ==> fresh@.len() == num_blocks,
        0 <= k < fresh@.len() && 0 <= i < 8 ==> fresh@[k][i] == 0,
        filter@.len() == 0 ==> answer,
        filter@.len() > 0 ==> answer == holds(filter@, h),
{
}

/// A filter that is built has the bits of its values and no others, in blocks enough for the
/// bits asked for per distinct value.
pub proof fn law_built_filters_hold_their_values(
    values: &[Value],
    bits_per_value: usize,
    filter: Bloom,
    k: int,
    i: int,
    j: u32,
)
    requires
        call_ensures(Bloom::build, (values, bits_per_value), filter),
        0 <= k < filter@.len(),
        0 <= i < 8,
        j < 32,
    ensures
        256 * filter@.len() >= distinct(zonemap::data(values@)) * bits_per_value,
        has_bit(filter@[k][i], j) <==> some_hash_marks(
            zonemap::data(values@),
            filter@.len(),
            k,
            i,
            j,
        ),
{
    let ds = zonemap::data(values@);
    let bits = distinct(ds) * bits_per_value;
    let n = blocks_for(bits);
    law_blocks_are_as_few_as_hold_the_bits(bits as int, n);
    law_fresh_filters_deny_all(n, Datum::Bool(true));
    law_no_false_negatives(blank(n), ds, Datum::Null);
    law_bits_come_from_the_values(blank(n), ds, k, i, j);
    assert(blank(n)[k][i] == 0);
    assert(0u32 & (1u32 << j) == 0) by (bit_vector);
}

/// Decoding undoes encoding, for every set of filters whose counts fit in four bytes.
pub proof fn law_encoded_blooms_decode(
    zb: ZoneBlooms,
    encoded: Vec<u8>,
    read: &[u8],
    r: Result<ZoneBlooms, BloomError>,
)
    requires
        storable(zb@),
        call_ensures(ZoneBlooms::encode, (&zb,), encoded),
        read@ == encoded@,
        call_ensures(ZoneBlooms::decode, (read,), r),
    ensures
        r matches Ok(out) && out@ == zb@,
{
    law_zone_blooms_round_trip(zb@, Seq::empty());
}

/// A probe never denies a value that the filter was built of.
pub proof fn law_built_filters_never_deny_their_values(
    values: &[Value],
    bits_per_value: usize,
    filter: Bloom,
    i: int,
    answer: bool,
)
    requires
        0 <= i < values@.len(),
        call_ensures(Bloom::build, (values, bits_per_value), filter),
        call_ensures(Bloom::might_contain, (&filter, &values@[i]), answer),
    ensures
        answer,
{
    let ds = zonemap::data(values@);
    assert(ds[i] == values@[i]@);
    assert(ds.contains(values@[i]@));
    law_build_finds_its_values(ds, bits_per_value, values@[i]@);
}

/// The numbers of the format, and what a model says of an entry.
pub proof fn law_models_mirror_the_entries(e: BloomEntry, zb: ZoneBlooms, i: int)
    ensures
        e@.zone_id == e.zone_id,
        e@.field_id == e.field_id,
        e@.bloom == e.bloom@,
        zb@.len() == zb.entries@.len(),
        0 <= i < zb.entries@.len() ==> zb@[i] == zb.entries@[i]@,
        VERSION == 1,
        DEFAULT_BITS_PER_VALUE == 16,
        BLOOM_BLOB_TYPE@ == "karma-bloom-v1"@,
{
}

} // verus!
