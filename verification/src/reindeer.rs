//! A herd of reindeer: the sum of their strengths, and a contest that names the
//! fastest, the tallest, the best magician and the greatest consumer of candies.

use vstd::prelude::*;
use crate::text::{i32_text, int_decimal};

verus! {

/// A reindeer of the herd. Its speed is held as its rank in the total order of
/// `f64::total_cmp`, which is all that the contest reads of it.
pub struct Reindeer {
    pub name: String,
    pub strength: i32,
    pub speed_rank: i64,
    pub height: i32,
    pub antler_width: i32,
    pub snow_magic_power: i32,
    pub favorite_food: String,
    pub candies: i32,
}

/// The rank of an `f64`, given by its bits, in the order of `f64::total_cmp`: the bits
/// of a value without its sign bit count upwards, those with it downwards below zero.
pub open spec fn speed_rank_spec(bits: u64) -> int {
    if bits < 0x8000_0000_0000_0000 {
        bits as int
    } else {
        0x7fff_ffff_ffff_ffff - bits as int
    }
}

/// The rank of an `f64`, given by `to_bits`, in the order of `f64::total_cmp`.
pub fn speed_rank(bits: u64) -> (r: i64)
    ensures
        r == speed_rank_spec(bits),
{
    if bits < 0x8000_0000_0000_0000 {
        bits as i64
    } else {
        let magnitude = (bits - 0x8000_0000_0000_0000) as i64;
        -1 - magnitude
    }
}

/// The bits of the `f64` whose rank is `rank`: `speed_rank` undone.
pub fn speed_bits(rank: i64) -> (bits: u64)
    ensures
        speed_rank_spec(bits) == rank,
{
    if rank >= 0 {
        rank as u64
    } else {
        (0x7fff_ffff_ffff_ffff - rank as i128) as u64
    }
}

/// `speed_rank` and `speed_bits` undo each other: every `u64` has exactly one rank in
/// the `i64` range, and every `i64` is the rank of exactly one bit pattern.
pub proof fn lemma_speed_rank_is_a_bijection(bits: u64, rank: i64)
    ensures
        i64::MIN <= speed_rank_spec(bits) <= i64::MAX,
        speed_rank_spec(bits) == rank <==> bits as int == (if rank >= 0 {
            rank as int
        } else {
            0x7fff_ffff_ffff_ffff - rank
        }),
{
}

/// The sum of the strengths of the first `k` reindeer.
pub open spec fn strength_prefix(herd: Seq<Reindeer>, k: int) -> int
    decreases k,
{
    if k <= 0 {
        0
    } else {
        strength_prefix(herd, k - 1) + herd[k - 1].strength
    }
}

/// Every running sum of the strengths fits in an `i32`.
pub open spec fn strength_sums_fit(herd: Seq<Reindeer>) -> bool {
    forall|k: int|
        0 <= k <= herd.len() ==> i32::MIN <= #[trigger] strength_prefix(herd, k) <= i32::MAX
}

/// The total strength of the herd, summed in `i32` from the first reindeer on; `None`
/// where a running sum leaves the `i32` range.
pub fn checked_strength(reindeers: &Vec<Reindeer>) -> (r: Option<i32>)
    ensures
        r is Some <==> strength_sums_fit(reindeers@),
        r matches Some(s) ==> s == strength_prefix(reindeers@, reindeers@.len() as int),
{
    let mut total: i32 = 0;
    let mut i: usize = 0;
    while i < reindeers.len()
        invariant
            i <= reindeers@.len(),
            total == strength_prefix(reindeers@, i as int),
            forall|k: int|
                0 <= k <= i ==> i32::MIN <= #[trigger] strength_prefix(reindeers@, k) <= i32::MAX,
        decreases reindeers@.len() - i,
    {
        match total.checked_add(reindeers[i].strength) {
            Some(t) => {
                total = t;
            },
            None => {
                assert(!(i32::MIN <= strength_prefix(reindeers@, i + 1) <= i32::MAX));
                return None;
            },
        }
        i = i + 1;
    }
    Some(total)
}

/// The total strength of a herd whose running sums of strength all fit in an `i32`.
pub fn strength(reindeers: &Vec<Reindeer>) -> (r: i32)
    requires
        strength_sums_fit(reindeers@),
    ensures
        r == strength_prefix(reindeers@, reindeers@.len() as int),
{
    match checked_strength(reindeers) {
        Some(total) => total,
        None => 0,
    }
}

/// What a contest ranks the reindeer by.
#[derive(Debug, PartialEq, Eq, Clone, Copy, Structural)]
pub enum Criterion {
    Speed,
    Height,
    SnowMagicPower,
    Candies,
}

pub open spec fn key(r: Reindeer, c: Criterion) -> int {
    match c {
        Criterion::Speed => r.speed_rank as int,
        Criterion::Height => r.height as int,
        Criterion::SnowMagicPower => r.snow_magic_power as int,
        Criterion::Candies => r.candies as int,
    }
}

/// Reindeer `i` ranks highest by `c`, and is the last of those that do, as `max_by`
/// and `max_by_key` choose.
pub open spec fn is_last_max(herd: Seq<Reindeer>, c: Criterion, i: int) -> bool {
    &&& 0 <= i < herd.len()
    &&& forall|j: int| 0 <= j < herd.len() ==> key(#[trigger] herd[j], c) <= key(herd[i], c)
    &&& forall|j: int| i < j < herd.len() ==> key(#[trigger] herd[j], c) < key(herd[i], c)
}

/// The reindeer that wins on `c`.
pub open spec fn winner(herd: Seq<Reindeer>, c: Criterion) -> int {
    choose|i: int| is_last_max(herd, c, i)
}

pub open spec fn fastest_line(r: Reindeer) -> Seq<char> {
    "Speeding past the finish line with a strength of "@ + int_decimal(r.strength as int)
        + " is "@ + r.name@
}

pub open spec fn tallest_line(r: Reindeer) -> Seq<char> {
    r.name@ + " is standing tall with his "@ + int_decimal(r.antler_width as int)
        + " cm wide antlers"@
}

pub open spec fn magician_line(r: Reindeer) -> Seq<char> {
    r.name@ + " could blast you away with a snow magic power of "@ + int_decimal(
        r.snow_magic_power as int,
    )
}

pub open spec fn consumer_line(r: Reindeer) -> Seq<char> {
    r.name@ + " ate lots of candies, but also some grass"@
}

/// The four announcements of a contest.
pub struct ContestResults {
    pub fastest: String,
    pub tallest: String,
    pub magician: String,
    pub consumer: String,
}

/// At most one reindeer is the last of those ranking highest.
proof fn lemma_last_max_unique(herd: Seq<Reindeer>, c: Criterion, i: int, j: int)
    requires
        is_last_max(herd, c, i),
        is_last_max(herd, c, j),
    ensures
        i == j,
{
    if i < j {
        assert(key(herd[j], c) < key(herd[i], c));
        assert(key(herd[i], c) <= key(herd[j], c));
    } else if j < i {
        assert(key(herd[i], c) < key(herd[j], c));
        assert(key(herd[j], c) <= key(herd[i], c));
    }
}

/// In a herd that is not empty, the winner on any criterion ranks highest on it, and
/// every reindeer after it ranks strictly lower.
pub proof fn lemma_winner_ranks_highest(herd: Seq<Reindeer>, c: Criterion)
    requires
        herd.len() > 0,
    ensures
        is_last_max(herd, c, winner(herd, c)),
{
    let i = last_max_witness(herd, c, herd.len() as int);
    assert(is_last_max(herd, c, i));
}

/// The last highest-ranking reindeer among the first `n`.
proof fn last_max_witness(herd: Seq<Reindeer>, c: Criterion, n: int) -> (i: int)
    requires
        0 < n <= herd.len(),
    ensures
        0 <= i < n,
        forall|j: int| 0 <= j < n ==> key(#[trigger] herd[j], c) <= key(herd[i], c),
        forall|j: int| i < j < n ==> key(#[trigger] herd[j], c) < key(herd[i], c),
    decreases n,
{
    if n == 1 {
        assert(key(herd[0], c) <= key(herd[0], c));
        0
    } else {
        let k = last_max_witness(herd, c, n - 1);
        if key(herd[n - 1], c) >= key(herd[k], c) {
            n - 1
        } else {
            k
        }
    }
}

/// The index of the reindeer that wins on `c`.
fn last_max(herd: &Vec<Reindeer>, c: Criterion) -> (i: usize)
    requires
        herd@.len() > 0,
    ensures
        i == winner(herd@, c),
        is_last_max(herd@, c, i as int),
{
    let mut best: usize = 0;
    let mut j: usize = 1;
    while j < herd.len()
        invariant
            0 <= best < j <= herd@.len(),
            forall|k: int| 0 <= k < j ==> key(#[trigger] herd@[k], c) <= key(herd@[best as int], c),
            forall|k: int| best < k < j ==> key(#[trigger] herd@[k], c) < key(herd@[best as int], c),
        decreases herd@.len() - j,
    {
        let r = &herd[j];
        let b = &herd[best];
        let higher_or_equal = match c {
            Criterion::Speed => r.speed_rank >= b.speed_rank,
            Criterion::Height => r.height >= b.height,
            Criterion::SnowMagicPower => r.snow_magic_power >= b.snow_magic_power,
            Criterion::Candies => r.candies >= b.candies,
        };
        if higher_or_equal {
            best = j;
        }
        j = j + 1;
    }
    proof {
        lemma_winner_ranks_highest(herd@, c);
        lemma_last_max_unique(herd@, c, best as int, winner(herd@, c));
    }
    best
}

impl ContestResults {
    /// Runs the contest; the herd must not be empty.
    pub fn new(reindeers: Vec<Reindeer>) -> (r: Self)
        requires
            reindeers@.len() > 0,
        ensures
            r.fastest@ == fastest_line(reindeers@[winner(reindeers@, Criterion::Speed)]),
            r.tallest@ == tallest_line(reindeers@[winner(reindeers@, Criterion::Height)]),
            r.magician@ == magician_line(
                reindeers@[winner(reindeers@, Criterion::SnowMagicPower)],
            ),
            r.consumer@ == consumer_line(reindeers@[winner(reindeers@, Criterion::Candies)]),
    {
        proof {
            reveal_strlit("Speeding past the finish line with a strength of ");
            reveal_strlit(" is ");
            reveal_strlit(" is standing tall with his ");
            reveal_strlit(" cm wide antlers");
            reveal_strlit(" could blast you away with a snow magic power of ");
            reveal_strlit(" ate lots of candies, but also some grass");
        }
        let fastest = &reindeers[last_max(&reindeers, Criterion::Speed)];
        let tallest = &reindeers[last_max(&reindeers, Criterion::Height)];
        let magician = &reindeers[last_max(&reindeers, Criterion::SnowMagicPower)];
        let consumer = &reindeers[last_max(&reindeers, Criterion::Candies)];

        let mut f = String::new();
        f.append("Speeding past the finish line with a strength of ");
        f.append(i32_text(fastest.strength).as_str());
        f.append(" is ");
        f.append(fastest.name.as_str());

        let mut t = tallest.name.clone();
        t.append(" is standing tall with his ");
        t.append(i32_text(tallest.antler_width).as_str());
        t.append(" cm wide antlers");

        let mut m = magician.name.clone();
        m.append(" could blast you away with a snow magic power of ");
        m.append(i32_text(magician.snow_magic_power).as_str());

        let mut c = consumer.name.clone();
        c.append(" ate lots of candies, but also some grass");

        ContestResults { fastest: f, tallest: t, magician: m, consumer: c }
    }
}

/// Each announcement names the reindeer that ranks highest by its own field, and the
/// last of those tied: the speed rank for the fastest, the height for the tallest, the
/// snow magic power for the magician and the candies for the consumer.
pub proof fn lemma_winners_rank_by_their_fields(herd: Seq<Reindeer>)
    requires
        herd.len() > 0,
    ensures
        ({
            let i = winner(herd, Criterion::Speed);
            &&& 0 <= i < herd.len()
            &&& forall|j: int| 0 <= j < herd.len() ==> (#[trigger] herd[j]).speed_rank <= herd[i].speed_rank
            &&& forall|j: int| i < j < herd.len() ==> (#[trigger] herd[j]).speed_rank < herd[i].speed_rank
        }),
        ({
            let i = winner(herd, Criterion::Height);
            &&& 0 <= i < herd.len()
            &&& forall|j: int| 0 <= j < herd.len() ==> (#[trigger] herd[j]).height <= herd[i].height
            &&& forall|j: int| i < j < herd.len() ==> (#[trigger] herd[j]).height < herd[i].height
        }),
        ({
            let i = winner(herd, Criterion::SnowMagicPower);
            &&& 0 <= i < herd.len()
            &&& forall|j: int|
                0 <= j < herd.len() ==> (#[trigger] herd[j]).snow_magic_power
                    <= herd[i].snow_magic_power
            &&& forall|j: int|
                i < j < herd.len() ==> (#[trigger] herd[j]).snow_magic_power
                    < herd[i].snow_magic_power
        }),
        ({
            let i = winner(herd, Criterion::Candies);
            &&& 0 <= i < herd.len()
            &&& forall|j: int| 0 <= j < herd.len() ==> (#[trigger] herd[j]).candies <= herd[i].candies
            &&& forall|j: int| i < j < herd.len() ==> (#[trigger] herd[j]).candies < herd[i].candies
        }),
{
    lemma_winner_ranks_highest(herd, Criterion::Speed);
    lemma_winner_ranks_highest(herd, Criterion::Height);
    lemma_winner_ranks_highest(herd, Criterion::SnowMagicPower);
    lemma_winner_ranks_highest(herd, Criterion::Candies);
}

/// The running sum over the first `k` reindeer reads their strengths and nothing else:
/// herds that agree on those strengths agree on the sum.
pub proof fn lemma_strength_reads_only_strengths(h1: Seq<Reindeer>, h2: Seq<Reindeer>, k: int)
    requires
        0 <= k <= h1.len(),
        k <= h2.len(),
        forall|i: int| 0 <= i < k ==> (#[trigger] h1[i]).strength == h2[i].strength,
    ensures
        strength_prefix(h1, k) == strength_prefix(h2, k),
    decreases k,
{
    if k > 0 {
        lemma_strength_reads_only_strengths(h1, h2, k - 1);
        assert(h1[k - 1].strength == h2[k - 1].strength);
    }
}

/// A herd of one totals its own strength.
pub proof fn lemma_strength_of_one(r: Reindeer)
    ensures
        strength_prefix(seq![r], 1) == r.strength,
{
    assert(strength_prefix(seq![r], 0) == 0);
}

/// A reindeer joining the herd adds its strength to the total.
pub proof fn lemma_strength_of_one_more(herd: Seq<Reindeer>, r: Reindeer)
    ensures
        strength_prefix(herd.push(r), herd.len() + 1int) == strength_prefix(herd, herd.len() as int)
            + r.strength,
{
    lemma_strength_reads_only_strengths(herd.push(r), herd, herd.len() as int);
}

} // verus!
