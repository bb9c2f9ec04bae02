//! Growth strategies: which site splits, or which cell a new site spawns
//! into, when the population controller owes a spawn.
//!
//! Selection works on integer cell areas. Random draws go through the
//! collection's seeded ChaCha generator, so runs are reproducible; the
//! selection logic itself is exact and verified for every possible draw.

use vstd::prelude::*;
use vstd::string::StringSliceAdditionalSpecFns;

use crate::VoronoiError;

verus! {

/// How new sites are added while the population grows.
#[derive(Clone, Copy, Debug, PartialEq, Eq, Structural)]
pub enum SplitStrategy {
    /// Split the site whose cell has the largest remaining area.
    Max,
    /// Split a site drawn with probability proportional to remaining area.
    Weighted,
    /// Split the site farthest from its nearest neighbor.
    Isolated,
    /// Spawn a new site at the centroid of the largest remaining cell.
    Centroid,
    /// Spawn a new site at the pixel farthest from every site.
    Farthest,
    /// Spawn like `Centroid`, but only while sites are well spaced.
    Poisson,
}

/// rand_chacha's seeded deterministic generator, declared so that it can
/// stand in signatures; its state is opaque here.
#[verifier::external_type_specification]
#[verifier::external_body]
pub struct ExChaCha8Rng(rand_chacha::ChaCha8Rng);

/// Relies on rand's `Rng::gen_range` over `0..bound`: one uniform draw from
/// the generator, strictly below `bound`; panics only on an empty range.
#[verifier::external_body]
fn rng_below(rng: &mut rand_chacha::ChaCha8Rng, bound: u64) -> (r: u64)
    requires
        bound > 0,
    ensures
        r < bound,
{
    rand::Rng::gen_range(rng, 0..bound)
}

/// ASCII lowercase of one byte.
pub open spec fn lower_byte(b: u8) -> u8 {
    if 65 <= b <= 90 {
        (b + 32) as u8
    } else {
        b
    }
}

/// ASCII lowercase of a byte string.
pub open spec fn lower_bytes(s: Seq<u8>) -> Seq<u8> {
    s.map_values(|b: u8| lower_byte(b))
}

pub open spec fn name_max() -> Seq<u8> {
    seq![109u8, 97u8, 120u8]
}

pub open spec fn name_weighted() -> Seq<u8> {
    seq![119u8, 101u8, 105u8, 103u8, 104u8, 116u8, 101u8, 100u8]
}

pub open spec fn name_isolated() -> Seq<u8> {
    seq![105u8, 115u8, 111u8, 108u8, 97u8, 116u8, 101u8, 100u8]
}

pub open spec fn name_centroid() -> Seq<u8> {
    seq![99u8, 101u8, 110u8, 116u8, 114u8, 111u8, 105u8, 100u8]
}

pub open spec fn name_farthest() -> Seq<u8> {
    seq![102u8, 97u8, 114u8, 116u8, 104u8, 101u8, 115u8, 116u8]
}

pub open spec fn name_poisson() -> Seq<u8> {
    seq![112u8, 111u8, 105u8, 115u8, 115u8, 111u8, 110u8]
}

/// The strategy a name denotes, ASCII-case-insensitively: one of "max",
/// "weighted", "isolated", "centroid", "farthest", "poisson".
pub open spec fn strategy_of(bytes: Seq<u8>) -> Option<SplitStrategy> {
    let low = lower_bytes(bytes);
    if low == name_max() {
        Some(SplitStrategy::Max)
    } else if low == name_weighted() {
        Some(SplitStrategy::Weighted)
    } else if low == name_isolated() {
        Some(SplitStrategy::Isolated)
    } else if low == name_centroid() {
        Some(SplitStrategy::Centroid)
    } else if low == name_farthest() {
        Some(SplitStrategy::Farthest)
    } else if low == name_poisson() {
        Some(SplitStrategy::Poisson)
    } else {
        None
    }
}

fn bytes_eq(a: &Vec<u8>, b: &[u8]) -> (r: bool)
    ensures
        r <==> a@ =~= b@,
{
    if a.len() != b.len() {
        return false;
    }
    let n = a.len();
    let mut i: usize = 0;
    while i < n
        invariant
            0 <= i <= n,
            n == a@.len() == b@.len(),
            forall|j: int| 0 <= j < i ==> a@[j] == b@[j],
        decreases n - i,
    {
        if a[i] != b[i] {
            return false;
        }
        i = i + 1;
    }
    true
}

/// Parse a bare strategy name, ASCII-case-insensitively. A string that
/// denotes no strategy is the configuration error.
pub fn parse_strategy(s: &str) -> (r: Result<SplitStrategy, VoronoiError>)
    ensures
        match strategy_of(s.spec_bytes()) {
            Some(st) => r == Ok::<SplitStrategy, VoronoiError>(st),
            None => r == Err::<SplitStrategy, VoronoiError>(VoronoiError::InvalidStrategy),
        },
{
    let bytes = s.as_bytes();
    let n = bytes.len();
    let mut low: Vec<u8> = Vec::new();
    let mut i: usize = 0;
    while i < n
        invariant
            0 <= i <= n,
            n == bytes@.len(),
            low@ == lower_bytes(bytes@.take(i as int)),
        decreases n - i,
    {
        let b = bytes[i];
        if b >= 65 && b <= 90 {
            low.push(b + 32);
        } else {
            low.push(b);
        }
        proof {
            assert(lower_bytes(bytes@.take(i as int + 1)) =~= lower_bytes(
                bytes@.take(i as int),
            ).push(lower_byte(bytes@[i as int])));
        }
        i = i + 1;
    }
    proof {
        assert(bytes@.take(n as int) =~= bytes@);
    }

    if bytes_eq(&low, &[109, 97, 120]) {
        proof {
            assert(low@ =~= name_max());
        }
        Ok(SplitStrategy::Max)
    } else if bytes_eq(&low, &[119, 101, 105, 103, 104, 116, 101, 100]) {
        proof {
            assert(low@ =~= name_weighted());
        }
        Ok(SplitStrategy::Weighted)
    } else if bytes_eq(&low, &[105, 115, 111, 108, 97, 116, 101, 100]) {
        proof {
            assert(low@ =~= name_isolated());
        }
        Ok(SplitStrategy::Isolated)
    } else if bytes_eq(&low, &[99, 101, 110, 116, 114, 111, 105, 100]) {
        proof {
            assert(low@ =~= name_centroid());
        }
        Ok(SplitStrategy::Centroid)
    } else if bytes_eq(&low, &[102, 97, 114, 116, 104, 101, 115, 116]) {
        proof {
            assert(low@ =~= name_farthest());
        }
        Ok(SplitStrategy::Farthest)
    } else if bytes_eq(&low, &[112, 111, 105, 115, 115, 111, 110]) {
        proof {
            assert(low@ =~= name_poisson());
        }
        Ok(SplitStrategy::Poisson)
    } else {
        proof {
            assert(low@ != name_max());
            assert(low@ != name_weighted());
            assert(low@ != name_isolated());
            assert(low@ != name_centroid());
            assert(low@ != name_farthest());
            assert(low@ != name_poisson());
        }
        Err(VoronoiError::InvalidStrategy)
    }
}

/// The smaller of two lengths.
pub open spec fn limit(n: int, m: int) -> int {
    if n <= m {
        n
    } else {
        m
    }
}

/// Sum of the first `k` areas.
pub open spec fn prefix_total(areas: Seq<u64>, k: int) -> int
    decreases k,
{
    if k <= 0 {
        0
    } else {
        prefix_total(areas, k - 1) + areas[k - 1]
    }
}

/// Prefix totals of nonnegative areas never decrease.
pub proof fn lemma_prefix_mono(areas: Seq<u64>, i: int, j: int)
    requires
        0 <= i <= j <= areas.len(),
    ensures
        prefix_total(areas, i) <= prefix_total(areas, j),
    decreases j - i,
{
    if i < j {
        lemma_prefix_mono(areas, i, j - 1);
    }
}

/// The cell that a cumulative-sum draw of `r` lands in: the first index
/// whose prefix total passes `r`.
pub fn weighted_index(areas: &Vec<u64>, n: usize, r: u64) -> (idx: usize)
    requires
        n <= areas@.len(),
        r < prefix_total(areas@, n as int),
        prefix_total(areas@, n as int) <= u64::MAX,
    ensures
        idx < n,
        prefix_total(areas@, idx as int) <= r < prefix_total(areas@, idx as int + 1),
        areas@[idx as int] > 0,
{
    let mut i: usize = 0;
    let mut cum: u64 = 0;
    while i < n
        invariant
            0 <= i <= n,
            n <= areas@.len(),
            cum == prefix_total(areas@, i as int),
            r >= cum,
            r < prefix_total(areas@, n as int),
            prefix_total(areas@, n as int) <= u64::MAX,
        decreases n - i,
    {
        proof {
            lemma_prefix_mono(areas@, i as int + 1, n as int);
        }
        cum = cum + areas[i];
        if r < cum {
            return i;
        }
        i = i + 1;
    }
    proof {
        assert(false);
    }
    0
}

/// Pick the site to split under the `Max` strategy: the first site whose
/// remaining area is largest, or a uniform random site if every remaining
/// area is zero.
pub fn pick_split_site(
    areas: &Vec<u64>,
    num_sites: usize,
    rng: &mut rand_chacha::ChaCha8Rng,
) -> (idx: usize)
    requires
        num_sites > 0,
    ensures
        idx < num_sites,
        (exists|j: int| 0 <= j < limit(num_sites as int, areas@.len() as int) && areas@[j] > 0)
            ==> {
            &&& idx < limit(num_sites as int, areas@.len() as int)
            &&& areas@[idx as int] > 0
            &&& forall|j: int|
                0 <= j < limit(num_sites as int, areas@.len() as int) ==> #[trigger] areas@[j]
                    <= areas@[idx as int]
            &&& forall|j: int| 0 <= j < idx ==> #[trigger] areas@[j] < areas@[idx as int]
        },
{
    let n = if num_sites <= areas.len() {
        num_sites
    } else {
        areas.len()
    };
    let mut max: u64 = 0;
    let mut idx: usize = 0;
    let mut i: usize = 0;
    while i < n
        invariant
            0 <= i <= n,
            n == limit(num_sites as int, areas@.len() as int),
            n <= areas@.len(),
            max == 0 ==> idx == 0 && forall|j: int| 0 <= j < i ==> #[trigger] areas@[j] == 0,
            max > 0 ==> {
                &&& idx < i
                &&& areas@[idx as int] == max
                &&& forall|j: int| 0 <= j < i ==> #[trigger] areas@[j] <= max
                &&& forall|j: int| 0 <= j < idx ==> #[trigger] areas@[j] < max
            },
        decreases n - i,
    {
        if areas[i] > max {
            max = areas[i];
            idx = i;
        }
        i = i + 1;
    }
    if max > 0 {
        idx
    } else {
        rng_below(rng, num_sites as u64) as usize
    }
}

/// A cell is eligible to receive a spawn while it is unmasked and still has
/// pixels.
pub open spec fn spawn_eligible(areas: Seq<u32>, mask: Seq<bool>, j: int) -> bool {
    &&& !mask[j]
    &&& areas[j] > 0
}

/// Pick the cell a new site spawns into (`Centroid` and `Poisson`): the
/// first unmasked cell of largest positive area, or cell 0 if none
/// qualifies. The picked cell is masked so that one frame spawns into a
/// cell at most once.
pub fn pick_spawn_cell(areas: &Vec<u32>, mask: &mut Vec<bool>, n_limit: usize) -> (idx: usize)
    requires
        n_limit <= areas@.len(),
        n_limit <= old(mask)@.len(),
    ensures
        final(mask)@.len() == old(mask)@.len(),
        if exists|j: int| 0 <= j < n_limit && spawn_eligible(areas@, old(mask)@, j) {
            &&& idx < n_limit
            &&& spawn_eligible(areas@, old(mask)@, idx as int)
            &&& forall|j: int|
                0 <= j < n_limit && spawn_eligible(areas@, old(mask)@, j) ==> #[trigger] areas@[j]
                    <= areas@[idx as int]
            &&& forall|j: int|
                0 <= j < idx && spawn_eligible(areas@, old(mask)@, j) ==> #[trigger] areas@[j]
                    < areas@[idx as int]
        } else {
            idx == 0
        },
        final(mask)@ == if idx < old(mask)@.len() {
            old(mask)@.update(idx as int, true)
        } else {
            old(mask)@
        },
{
    let mut max: u32 = 0;
    let mut idx: usize = 0;
    let mut i: usize = 0;
    while i < n_limit
        invariant
            0 <= i <= n_limit,
            n_limit <= areas@.len(),
            n_limit <= mask@.len(),
            mask@ == old(mask)@,
            max == 0 ==> idx == 0 && forall|j: int|
                0 <= j < i ==> !spawn_eligible(areas@, mask@, j),
            max > 0 ==> {
                &&& idx < i
                &&& spawn_eligible(areas@, mask@, idx as int)
                &&& areas@[idx as int] == max
                &&& forall|j: int|
                    0 <= j < i && spawn_eligible(areas@, mask@, j) ==> #[trigger] areas@[j] <= max
                &&& forall|j: int|
                    0 <= j < idx && spawn_eligible(areas@, mask@, j) ==> #[trigger] areas@[j] < max
            },
        decreases n_limit - i,
    {
        if !mask[i] && areas[i] > max {
            max = areas[i];
            idx = i;
        }
        i = i + 1;
    }
    if idx < mask.len() {
        mask.set(idx, true);
    }
    idx
}

/// Whether a site may still act this frame: sites beyond the mask's length
/// count as unmasked.
pub open spec fn unmasked(mask: Seq<bool>, j: int) -> bool {
    !(j < mask.len() && mask[j])
}

/// Pick the site to split under the `Isolated` strategy: the first
/// unmasked site whose nearest-neighbor distance is largest, or site 0 if
/// every site is masked. Distances arrive as order-preserving integer
/// keys; the bit pattern of a nonnegative f64 is one, since unsigned bit
/// order and numeric order agree there.
pub fn pick_most_isolated(nn_keys: &Vec<u64>, mask: &Vec<bool>) -> (idx: usize)
    ensures
        nn_keys@.len() > 0 ==> idx < nn_keys@.len(),
        nn_keys@.len() == 0 ==> idx == 0,
        (exists|j: int| 0 <= j < nn_keys@.len() && unmasked(mask@, j)) ==> {
            &&& unmasked(mask@, idx as int)
            &&& forall|j: int|
                0 <= j < nn_keys@.len() && unmasked(mask@, j) ==> #[trigger] nn_keys@[j]
                    <= nn_keys@[idx as int]
            &&& forall|j: int|
                0 <= j < idx && unmasked(mask@, j) ==> #[trigger] nn_keys@[j]
                    < nn_keys@[idx as int]
        },
        !(exists|j: int| 0 <= j < nn_keys@.len() && unmasked(mask@, j)) ==> idx == 0,
{
    let n = nn_keys.len();
    let mut found = false;
    let mut best: usize = 0;
    let mut best_key: u64 = 0;
    let mut i: usize = 0;
    while i < n
        invariant
            0 <= i <= n,
            n == nn_keys@.len(),
            !found ==> best == 0 && forall|j: int| 0 <= j < i ==> !unmasked(mask@, j),
            found ==> {
                &&& best < i
                &&& unmasked(mask@, best as int)
                &&& nn_keys@[best as int] == best_key
                &&& forall|j: int|
                    0 <= j < i && unmasked(mask@, j) ==> #[trigger] nn_keys@[j] <= best_key
                &&& forall|j: int|
                    0 <= j < best && unmasked(mask@, j) ==> #[trigger] nn_keys@[j] < best_key
            },
        decreases n - i,
    {
        let skip = i < mask.len() && mask[i];
        if !skip {
            if !found || nn_keys[i] > best_key {
                found = true;
                best = i;
                best_key = nn_keys[i];
            }
        }
        i = i + 1;
    }
    best
}

/// Pick the scan position whose key is smallest, earliest position winning
/// ties: the removal controller hands each sampled site's
/// closest-neighbor distance as a key and removes the winner.
pub fn pick_min_position(keys: &Vec<u64>) -> (k: usize)
    ensures
        keys@.len() > 0 ==> {
            &&& k < keys@.len()
            &&& forall|j: int| 0 <= j < keys@.len() ==> #[trigger] keys@[j] >= keys@[k as int]
            &&& forall|j: int| 0 <= j < k ==> #[trigger] keys@[j] > keys@[k as int]
        },
        keys@.len() == 0 ==> k == 0,
{
    let n = keys.len();
    if n == 0 {
        return 0;
    }
    let mut k: usize = 0;
    let mut min_key: u64 = keys[0];
    let mut i: usize = 1;
    while i < n
        invariant
            1 <= i <= n,
            n == keys@.len(),
            k < i,
            keys@[k as int] == min_key,
            forall|j: int| 0 <= j < i ==> #[trigger] keys@[j] >= min_key,
            forall|j: int| 0 <= j < k ==> #[trigger] keys@[j] > min_key,
        decreases n - i,
    {
        if keys[i] < min_key {
            k = i;
            min_key = keys[i];
        }
        i = i + 1;
    }
    k
}

/// Pick the site to split under the `Weighted` strategy: a draw from the
/// discrete distribution proportional to remaining areas, or a uniform
/// random site if the areas sum to zero.
pub fn pick_weighted_site(areas: &Vec<u64>, num_sites: usize, rng: &mut rand_chacha::ChaCha8Rng)
    -> (idx: usize)
    requires
        num_sites > 0,
        prefix_total(areas@, limit(num_sites as int, areas@.len() as int)) <= u64::MAX,
    ensures
        idx < num_sites,
        prefix_total(areas@, limit(num_sites as int, areas@.len() as int)) > 0 ==> {
            &&& idx < limit(num_sites as int, areas@.len() as int)
            &&& areas@[idx as int] > 0
            &&& prefix_total(areas@, idx as int) < prefix_total(areas@, idx as int + 1)
        },
{
    let n = if num_sites <= areas.len() {
        num_sites
    } else {
        areas.len()
    };
    let mut total: u64 = 0;
    let mut i: usize = 0;
    while i < n
        invariant
            0 <= i <= n,
            n <= areas@.len(),
            n == limit(num_sites as int, areas@.len() as int),
            total == prefix_total(areas@, i as int),
            prefix_total(areas@, n as int) <= u64::MAX,
        decreases n - i,
    {
        proof {
            lemma_prefix_mono(areas@, i as int + 1, n as int);
        }
        total = total + areas[i];
        i = i + 1;
    }
    if total > 0 {
        let r = rng_below(rng, total);
        let idx = weighted_index(areas, n, r);
        proof {
            assert((r as int) < prefix_total(areas@, n as int));
            assert(prefix_total(areas@, idx as int) <= r as int);
            assert((r as int) < prefix_total(areas@, idx as int + 1));
        }
        idx
    } else {
        rng_below(rng, num_sites as u64) as usize
    }
}

} // verus!
