//! Least-significant-digit radix sort of 32-bit keys, one byte per pass.
use vstd::prelude::*;

verus! {

/// Number of byte-wide passes needed to sort a 32-bit key.
pub const PASSES: usize = 4;

/// Number of buckets of one pass: one per byte value.
pub const BUCKETS: usize = 256;

/// Weight of the byte that pass `level` examines: `256^level`.
pub open spec fn weight(level: int) -> int {
    if level <= 0 {
        1
    } else if level == 1 {
        0x100
    } else if level == 2 {
        0x1_0000
    } else if level == 3 {
        0x100_0000
    } else {
        0x1_0000_0000
    }
}

/// The byte of `key` that pass `level` buckets on.
pub open spec fn digit(key: u32, level: int) -> int {
    (key as int / weight(level)) % 256
}

/// The part of `key` made of its `level` least significant bytes.
pub open spec fn low(key: u32, level: int) -> int {
    key as int % weight(level)
}

/// How many of the first `n` keys have byte `b` at `level`.
pub open spec fn count_eq(keys: Seq<u32>, level: int, n: int, b: int) -> nat
    decreases n,
{
    if n <= 0 {
        0
    } else {
        count_eq(keys, level, n - 1, b) + if digit(keys[n - 1], level) == b {
            1nat
        } else {
            0nat
        }
    }
}

/// How many of the first `n` keys have a byte below `b` at `level`.
pub open spec fn count_lt(keys: Seq<u32>, level: int, n: int, b: int) -> nat
    decreases n,
{
    if n <= 0 {
        0
    } else {
        count_lt(keys, level, n - 1, b) + if digit(keys[n - 1], level) < b {
            1nat
        } else {
            0nat
        }
    }
}

/// Where a stable counting pass at `level` places the key found at `j`.
pub open spec fn slot(keys: Seq<u32>, level: int, j: int) -> int {
    let d = digit(keys[j], level);
    (count_lt(keys, level, keys.len() as int, d) + count_eq(keys, level, j, d)) as int
}

proof fn lemma_digit_range(key: u32, level: int)
    ensures
        0 <= digit(key, level) < 256,
        0 <= low(key, level) < weight(level),
        weight(level) > 0,
{
}

/// Splitting the low `level + 1` bytes into the byte at `level` and the bytes below it.
proof fn lemma_low_split(key: u32, level: int)
    requires
        0 <= level < 4,
    ensures
        low(key, level + 1) == digit(key, level) * weight(level) + low(key, level),
        low(key, 0) == 0,
        low(key, 4) == key,
{
    let x = key;
    if level == 0 {
        assert(x % 256 == ((x / 1) % 256) * 1 + x % 1) by (bit_vector);
    } else if level == 1 {
        assert(x % 65536 == ((x / 256) % 256) * 256 + x % 256) by (bit_vector);
    } else if level == 2 {
        assert(x % 16777216 == ((x / 65536) % 256) * 65536 + x % 65536) by (bit_vector);
    } else {
        assert(x as int % 4294967296 == ((x / 16777216) % 256) * 16777216 + x % 16777216)
            by (bit_vector);
    }
    assert(x % 1 == 0) by (bit_vector);
    assert(x as int % 4294967296 == x) by (bit_vector);
}

/// The byte of `key` that pass `level` examines.
fn digit_of(key: u32, level: usize) -> (d: usize)
    requires
        level < PASSES,
    ensures
        d as int == digit(key, level as int),
        d < BUCKETS,
{
    let shift: u32 = (level as u32) * 8;
    let d = (key >> shift) & 0xff;
    proof {
        if level == 0 {
            assert((key >> shift) & 0xff == (key / 1) % 256) by (bit_vector)
                requires
                    shift == 0,
            ;
        } else if level == 1 {
            assert((key >> shift) & 0xff == (key / 256) % 256) by (bit_vector)
                requires
                    shift == 8,
            ;
        } else if level == 2 {
            assert((key >> shift) & 0xff == (key / 65536) % 256) by (bit_vector)
                requires
                    shift == 16,
            ;
        } else {
            assert((key >> shift) & 0xff == (key / 16777216) % 256) by (bit_vector)
                requires
                    shift == 24,
            ;
        }
    }
    d as usize
}

proof fn lemma_count_bounds(keys: Seq<u32>, level: int, n: int, b: int)
    requires
        0 <= n <= keys.len(),
    ensures
        count_eq(keys, level, n, b) <= n,
        count_lt(keys, level, n, b) <= n,
    decreases n,
{
    if n > 0 {
        lemma_count_bounds(keys, level, n - 1, b);
    }
}

proof fn lemma_count_lt_step(keys: Seq<u32>, level: int, n: int, b: int)
    requires
        0 <= n <= keys.len(),
    ensures
        count_lt(keys, level, n, b + 1) == count_lt(keys, level, n, b) + count_eq(
            keys,
            level,
            n,
            b,
        ),
    decreases n,
{
    if n > 0 {
        lemma_count_lt_step(keys, level, n - 1, b);
    }
}

proof fn lemma_count_lt_ends(keys: Seq<u32>, level: int, n: int)
    requires
        0 <= n <= keys.len(),
    ensures
        count_lt(keys, level, n, 0) == 0,
        count_lt(keys, level, n, 256) == n,
    decreases n,
{
    if n > 0 {
        lemma_count_lt_ends(keys, level, n - 1);
        lemma_digit_range(keys[n - 1], level);
    }
}

proof fn lemma_count_lt_mono(keys: Seq<u32>, level: int, n: int, b1: int, b2: int)
    requires
        0 <= n <= keys.len(),
        b1 <= b2,
    ensures
        count_lt(keys, level, n, b1) <= count_lt(keys, level, n, b2),
    decreases n,
{
    if n > 0 {
        lemma_count_lt_mono(keys, level, n - 1, b1, b2);
    }
}

proof fn lemma_count_eq_mono(keys: Seq<u32>, level: int, i: int, j: int, b: int)
    requires
        0 <= i <= j <= keys.len(),
    ensures
        count_eq(keys, level, i, b) <= count_eq(keys, level, j, b),
    decreases j,
{
    if i < j {
        lemma_count_eq_mono(keys, level, i, j - 1, b);
    }
}

/// The slot of a key lies inside the buffer.
proof fn lemma_slot_bound(keys: Seq<u32>, level: int, j: int)
    requires
        0 <= j < keys.len(),
    ensures
        count_lt(keys, level, keys.len() as int, digit(keys[j], level)) <= slot(keys, level, j),
        slot(keys, level, j) < count_lt(keys, level, keys.len() as int, digit(keys[j], level) + 1),
        0 <= slot(keys, level, j) < keys.len(),
{
    let n = keys.len() as int;
    let d = digit(keys[j], level);
    lemma_digit_range(keys[j], level);
    lemma_count_eq_mono(keys, level, j + 1, n, d);
    lemma_count_lt_step(keys, level, n, d);
    lemma_count_lt_mono(keys, level, n, d + 1, 256);
    lemma_count_lt_ends(keys, level, n);
}

/// Slots follow the byte first and the input order second.
proof fn lemma_slot_order(keys: Seq<u32>, level: int, i: int, j: int)
    requires
        0 <= i < keys.len(),
        0 <= j < keys.len(),
        digit(keys[i], level) < digit(keys[j], level) || (digit(keys[i], level) == digit(
            keys[j],
            level,
        ) && i < j),
    ensures
        slot(keys, level, i) < slot(keys, level, j),
{
    let n = keys.len() as int;
    lemma_slot_bound(keys, level, i);
    lemma_slot_bound(keys, level, j);
    if digit(keys[i], level) < digit(keys[j], level) {
        lemma_count_lt_mono(keys, level, n, digit(keys[i], level) + 1, digit(keys[j], level));
    } else {
        lemma_count_eq_mono(keys, level, i + 1, j, digit(keys[i], level));
    }
}

proof fn lemma_find_bucket(keys: Seq<u32>, level: int, k: int, b: int) -> (c: int)
    requires
        0 <= b <= 256,
        0 <= k,
        k < count_lt(keys, level, keys.len() as int, b),
    ensures
        0 <= c < b,
        count_lt(keys, level, keys.len() as int, c) <= k,
        k < count_lt(keys, level, keys.len() as int, c + 1),
    decreases b,
{
    let n = keys.len() as int;
    lemma_count_lt_ends(keys, level, n);
    if k < count_lt(keys, level, n, b - 1) {
        lemma_find_bucket(keys, level, k, b - 1)
    } else {
        b - 1
    }
}

proof fn lemma_nth_with_digit(keys: Seq<u32>, level: int, m: int, b: int, r: int) -> (j: int)
    requires
        0 <= m <= keys.len(),
        0 <= r < count_eq(keys, level, m, b),
    ensures
        0 <= j < m,
        digit(keys[j], level) == b,
        count_eq(keys, level, j, b) == r,
    decreases m,
{
    if r < count_eq(keys, level, m - 1, b) {
        lemma_nth_with_digit(keys, level, m - 1, b, r)
    } else {
        m - 1
    }
}

/// Every position of the buffer is the slot of some key.
proof fn lemma_slot_onto(keys: Seq<u32>, level: int, k: int) -> (j: int)
    requires
        0 <= k < keys.len(),
    ensures
        0 <= j < keys.len(),
        slot(keys, level, j) == k,
{
    let n = keys.len() as int;
    lemma_count_lt_ends(keys, level, n);
    let b = lemma_find_bucket(keys, level, k, 256);
    lemma_count_lt_step(keys, level, n, b);
    let r = k - count_lt(keys, level, n, b);
    lemma_nth_with_digit(keys, level, n, b, r)
}

/// `a` comes strictly before `b` when ordered by key first and by id second.
pub open spec fn lex_lt(key_a: int, id_a: u32, key_b: int, id_b: u32) -> bool {
    key_a < key_b || (key_a == key_b && id_a < id_b)
}

/// The pairs are in strictly increasing order of (low `level` bytes of the key, id).
pub open spec fn sorted_on_low(keys: Seq<u32>, ids: Seq<u32>, level: int) -> bool {
    forall|p: int, q: int|
        #![trigger keys[p], keys[q]]
        0 <= p < q < keys.len() ==> lex_lt(low(keys[p], level), ids[p], low(keys[q], level), ids[q])
}

/// Some position of `ids` holds `i`.
pub open spec fn has_id(ids: Seq<u32>, i: int) -> bool {
    exists|p: int| 0 <= p < ids.len() && ids[p] == i
}

/// `ids` lists every position of `base` and `keys` holds the key of each listed position.
pub open spec fn tracks(base: Seq<u32>, keys: Seq<u32>, ids: Seq<u32>) -> bool {
    &&& keys.len() == base.len()
    &&& ids.len() == base.len()
    &&& forall|p: int|
        0 <= p < ids.len() ==> #[trigger] ids[p] < base.len() && keys[p] == base[ids[p] as int]
    &&& forall|i: int| 0 <= i < base.len() ==> #[trigger] has_id(ids, i)
}

/// `out` holds each input key at its slot.
pub open spec fn scattered(keys: Seq<u32>, ids: Seq<u32>, level: int, out_keys: Seq<u32>, out_ids: Seq<u32>) -> bool {
    &&& out_keys.len() == keys.len()
    &&& out_ids.len() == keys.len()
    &&& forall|j: int|
        0 <= j < keys.len() ==> out_keys[#[trigger] slot(keys, level, j)] == keys[j]
            && out_ids[slot(keys, level, j)] == ids[j]
}

/// One stable counting pass on the byte at `level` extends the sorted prefix of bytes by one.
proof fn lemma_pass(
    base: Seq<u32>,
    keys: Seq<u32>,
    ids: Seq<u32>,
    level: int,
    out_keys: Seq<u32>,
    out_ids: Seq<u32>,
)
    requires
        0 <= level < 4,
        tracks(base, keys, ids),
        sorted_on_low(keys, ids, level),
        scattered(keys, ids, level, out_keys, out_ids),
    ensures
        tracks(base, out_keys, out_ids),
        sorted_on_low(out_keys, out_ids, level + 1),
{
    let n = keys.len() as int;
    assert forall|p: int| 0 <= p < n implies #[trigger] out_ids[p] < base.len() && out_keys[p]
        == base[out_ids[p] as int] by {
        let j = lemma_slot_onto(keys, level, p);
    }
    assert forall|i: int| 0 <= i < n implies #[trigger] has_id(out_ids, i) by {
        assert(has_id(ids, i));
        let p = choose|p: int| 0 <= p < ids.len() && ids[p] == i;
        lemma_slot_bound(keys, level, p);
        assert(out_ids[slot(keys, level, p)] == i);
    }
    assert forall|p: int, q: int| 0 <= p < q < n implies #[trigger] lex_lt(
        low(out_keys[p], level + 1),
        out_ids[p],
        low(out_keys[q], level + 1),
        out_ids[q],
    ) by {
        let jp = lemma_slot_onto(keys, level, p);
        let jq = lemma_slot_onto(keys, level, q);
        let dp = digit(keys[jp], level);
        let dq = digit(keys[jq], level);
        lemma_low_split(keys[jp], level);
        lemma_low_split(keys[jq], level);
        lemma_digit_range(keys[jp], level);
        lemma_digit_range(keys[jq], level);
        let w = weight(level);
        let lp = low(keys[jp], level);
        let lq = low(keys[jq], level);
        if dq < dp {
            lemma_slot_order(keys, level, jq, jp);
        } else if dp < dq {
            assert(dp * w + lp < dq * w + lq) by (nonlinear_arith)
                requires
                    dp < dq,
                    0 <= lp < w,
                    0 <= lq,
            ;
        } else {
            if jq < jp {
                lemma_slot_order(keys, level, jq, jp);
            } else {
                assert(jp != jq);
                assert(lex_lt(lp, ids[jp], lq, ids[jq]));
            }
        }
    }
}

/// Start of each bucket at `level`: how many keys have a smaller byte there.
fn bucket_starts(keys: &Vec<u32>, level: usize) -> (starts: Vec<u32>)
    requires
        level < PASSES,
        keys.len() <= u32::MAX,
    ensures
        starts.len() == BUCKETS,
        forall|b: int|
            0 <= b < 256 ==> #[trigger] starts[b] == count_lt(keys@, level as int, keys.len() as int, b),
{
    let ghost lv = level as int;
    let n = keys.len();
    let mut counts: Vec<u32> = vec![0u32; BUCKETS];
    let mut i: usize = 0;
    while i < n
        invariant
            i <= n,
            n == keys.len(),
            n <= u32::MAX,
            lv == level,
            level < PASSES,
            counts.len() == BUCKETS,
            forall|b: int| 0 <= b < 256 ==> #[trigger] counts[b] == count_eq(keys@, lv, i as int, b),
        decreases n - i,
    {
        let d = digit_of(keys[i], level);
        proof {
            lemma_count_bounds(keys@, lv, i as int, d as int);
        }
        counts.set(d, counts[d] + 1);
        i += 1;
    }
    let mut total: u32 = 0;
    let mut b: usize = 0;
    proof {
        lemma_count_lt_ends(keys@, lv, n as int);
    }
    while b < BUCKETS
        invariant
            b <= BUCKETS,
            n == keys.len(),
            n <= u32::MAX,
            lv == level,
            counts.len() == BUCKETS,
            total == count_lt(keys@, lv, n as int, b as int),
            forall|c: int| 0 <= c < b ==> #[trigger] counts[c] == count_lt(keys@, lv, n as int, c),
            forall|c: int| b <= c < 256 ==> #[trigger] counts[c] == count_eq(keys@, lv, n as int, c),
        decreases BUCKETS - b,
    {
        let current = counts[b];
        proof {
            lemma_count_lt_step(keys@, lv, n as int, b as int);
            lemma_count_lt_mono(keys@, lv, n as int, b as int + 1, 256);
            lemma_count_lt_ends(keys@, lv, n as int);
        }
        counts.set(b, total);
        total = total + current;
        b += 1;
    }
    counts
}

/// Writes each key and id to the next free place of its bucket, in input order.
fn scatter_elements(
    keys: &Vec<u32>,
    ids: &Vec<u32>,
    level: usize,
    starts: Vec<u32>,
    out_keys: &mut Vec<u32>,
    out_ids: &mut Vec<u32>,
)
    requires
        level < PASSES,
        keys.len() <= u32::MAX,
        ids.len() == keys.len(),
        old(out_keys).len() == keys.len(),
        old(out_ids).len() == keys.len(),
        starts.len() == BUCKETS,
        forall|b: int|
            0 <= b < 256 ==> #[trigger] starts[b] == count_lt(keys@, level as int, keys.len() as int, b),
    ensures
        scattered(keys@, ids@, level as int, final(out_keys)@, final(out_ids)@),
{
    let ghost lv = level as int;
    let n = keys.len();
    let mut offsets = starts;
    let mut i: usize = 0;
    while i < n
        invariant
            i <= n,
            n == keys.len(),
            n <= u32::MAX,
            ids.len() == n,
            lv == level,
            level < PASSES,
            out_keys.len() == n,
            out_ids.len() == n,
            offsets.len() == BUCKETS,
            forall|b: int|
                0 <= b < 256 ==> #[trigger] offsets[b] == count_lt(keys@, lv, n as int, b)
                    + count_eq(keys@, lv, i as int, b),
            forall|j: int|
                0 <= j < i ==> out_keys[#[trigger] slot(keys@, lv, j)] == keys[j] && out_ids[slot(
                    keys@,
                    lv,
                    j,
                )] == ids[j],
        decreases n - i,
    {
        let key = keys[i];
        let d = digit_of(key, level);
        let pos = offsets[d] as usize;
        proof {
            lemma_slot_bound(keys@, lv, i as int);
            assert(pos == slot(keys@, lv, i as int));
            assert forall|j: int| 0 <= j < i implies slot(keys@, lv, j) != pos by {
                lemma_digit_range(keys[j], lv);
                lemma_slot_bound(keys@, lv, j);
                if digit(keys[j], lv) <= digit(key, lv) {
                    lemma_slot_order(keys@, lv, j, i as int);
                } else {
                    lemma_slot_order(keys@, lv, i as int, j);
                }
            }
        }
        out_keys.set(pos, key);
        out_ids.set(pos, ids[i]);
        proof {
            assert forall|j: int| 0 <= j <= i implies out_keys@[#[trigger] slot(keys@, lv, j)]
                == keys@[j] && out_ids@[slot(keys@, lv, j)] == ids@[j] by {
                lemma_slot_bound(keys@, lv, j);
            }
        }
        offsets.set(d, offsets[d] + 1);
        i += 1;
    }
}

/// Sorts positions `0..keys.len()` by key; equal keys keep their input order.
pub fn radix_sort_keys(keys: Vec<u32>) -> (ids: Vec<u32>)
    requires
        keys.len() <= u32::MAX,
    ensures
        ids.len() == keys.len(),
        forall|p: int| 0 <= p < ids.len() ==> #[trigger] ids[p] < keys.len(),
        forall|i: int| 0 <= i < keys.len() ==> #[trigger] has_id(ids@, i),
        forall|p: int, q: int|
            #![trigger ids[p], ids[q]]
            0 <= p < q < ids.len() ==> lex_lt(
                keys[ids[p] as int] as int,
                ids[p],
                keys[ids[q] as int] as int,
                ids[q],
            ),
{
    let ghost base = keys@;
    let n = keys.len();
    let mut keys = keys;
    let mut ids: Vec<u32> = Vec::with_capacity(n);
    let mut i: usize = 0;
    while i < n
        invariant
            i <= n,
            n == keys.len(),
            n <= u32::MAX,
            ids.len() == i,
            forall|p: int| 0 <= p < i ==> #[trigger] ids[p] == p,
        decreases n - i,
    {
        ids.push(i as u32);
        i += 1;
    }
    proof {
        assert forall|i: int| 0 <= i < n implies #[trigger] has_id(ids@, i) by {
            assert(ids@[i] == i);
        }
        assert forall|p: int, q: int| 0 <= p < q < n implies #[trigger] lex_lt(
            low(keys@[p], 0),
            ids@[p],
            low(keys@[q], 0),
            ids@[q],
        ) by {
            lemma_low_split(keys@[p], 0);
            lemma_low_split(keys@[q], 0);
        }
    }
    let mut temp_keys: Vec<u32> = vec![0u32; n];
    let mut temp_ids: Vec<u32> = vec![0u32; n];
    let mut level: usize = 0;
    while level < PASSES
        invariant
            level <= PASSES,
            n == base.len(),
            n <= u32::MAX,
            temp_keys.len() == n,
            temp_ids.len() == n,
            tracks(base, keys@, ids@),
            sorted_on_low(keys@, ids@, level as int),
        decreases PASSES - level,
    {
        let starts = bucket_starts(&keys, level);
        scatter_elements(&keys, &ids, level, starts, &mut temp_keys, &mut temp_ids);
        proof {
            lemma_pass(base, keys@, ids@, level as int, temp_keys@, temp_ids@);
        }
        std::mem::swap(&mut keys, &mut temp_keys);
        std::mem::swap(&mut ids, &mut temp_ids);
        level += 1;
    }
    proof {
        assert forall|p: int, q: int| 0 <= p < q < n implies #[trigger] lex_lt(
            base[ids@[p] as int] as int,
            ids@[p],
            base[ids@[q] as int] as int,
            ids@[q],
        ) by {
            lemma_low_split(keys@[p], 3);
            lemma_low_split(keys@[q], 3);
            assert(keys@[p] == base[ids@[p] as int]);
            assert(keys@[q] == base[ids@[q] as int]);
        }
    }
    ids
}

} // verus!
