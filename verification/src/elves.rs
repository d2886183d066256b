//! Counting elves and shelves in a text, byte by byte, with the leftmost,
//! non-overlapping matching of `str::matches`.

use vstd::prelude::*;
use vstd::string::StringSliceAdditionalSpecFns;
use vstd::utf8::is_char_boundary;

verus! {

/// `pat` occurs in `b` at byte `i`.
pub open spec fn occurs_at(b: Seq<u8>, pat: Seq<u8>, i: int) -> bool {
    0 <= i && i + pat.len() <= b.len() && b.subrange(i, i + pat.len()) == pat
}

/// The starts of the leftmost, non-overlapping occurrences of `pat` in `b` at or after
/// byte `from`: after a match the search goes on behind it.
pub open spec fn match_positions(b: Seq<u8>, pat: Seq<u8>, from: int) -> Seq<int>
    decreases b.len() - from,
{
    if pat.len() == 0 || from < 0 || from + pat.len() > b.len() {
        seq![]
    } else if occurs_at(b, pat, from) {
        seq![from] + match_positions(b, pat, from + pat.len())
    } else {
        match_positions(b, pat, from + 1)
    }
}

/// The number of matches that `str::matches(pat).count()` gives.
pub open spec fn match_count(b: Seq<u8>, pat: Seq<u8>) -> nat {
    match_positions(b, pat, 0).len()
}

/// The bytes of `elf`.
pub open spec fn elf() -> Seq<u8> {
    seq![101u8, 108u8, 102u8]
}

/// The bytes of `shelf`.
pub open spec fn shelf() -> Seq<u8> {
    seq![115u8, 104u8, 101u8, 108u8, 102u8]
}

/// The bytes of `elf on a shelf`.
pub open spec fn elf_on_a_shelf() -> Seq<u8> {
    elf_on_a() + shelf()
}

/// The bytes of `elf on a ` (nine of them), what stands before a shelf that holds an elf.
pub open spec fn elf_on_a() -> Seq<u8> {
    seq![101u8, 108u8, 102u8, 32u8, 111u8, 110u8, 32u8, 97u8, 32u8]
}

/// Every `shelf` match has nine bytes before it, and they start on a character boundary,
/// so that the nine bytes before it can be cut out of the text.
pub open spec fn shelf_windows_ok(b: Seq<u8>) -> bool {
    let ps = match_positions(b, shelf(), 0);
    forall|k: int|
        0 <= k < ps.len() ==> #[trigger] ps[k] >= 9 && is_char_boundary(b, ps[k] - 9)
}

/// The shelves among `ps` whose nine bytes before are not `elf on a `.
pub open spec fn count_bare(b: Seq<u8>, ps: Seq<int>) -> nat
    decreases ps.len(),
{
    if ps.len() == 0 {
        0
    } else {
        count_bare(b, ps.drop_last()) + (if b.subrange(ps.last() - 9, ps.last()) != elf_on_a() {
            1nat
        } else {
            0nat
        })
    }
}

/// The three counts of a text.
#[derive(Debug, PartialEq, Eq, Clone, Copy, Structural)]
pub struct ElfCounts {
    pub elfs: usize,
    pub elf_shelves: usize,
    pub elf_not_shelves: usize,
}

fn occurs_at_exec(b: &[u8], pat: &[u8], i: usize) -> (r: bool)
    requires
        i <= b@.len(),
    ensures
        r == occurs_at(b@, pat@, i as int),
{
    if pat.len() > b.len() - i {
        return false;
    }
    let mut k: usize = 0;
    while k < pat.len()
        invariant
            i + pat@.len() <= b@.len(),
            b@.len() <= usize::MAX,
            k <= pat@.len(),
            forall|j: int| 0 <= j < k ==> b@[i + j] == pat@[j],
        decreases pat@.len() - k,
    {
        if b[i + k] != pat[k] {
            assert(b@.subrange(i as int, i + pat@.len())[k as int] != pat@[k as int]);
            return false;
        }
        k = k + 1;
    }
    assert(b@.subrange(i as int, i + pat@.len()) =~= pat@);
    true
}

proof fn lemma_positions_end(b: Seq<u8>, pat: Seq<u8>, from: int)
    requires
        from + pat.len() > b.len(),
    ensures
        match_positions(b, pat, from) == Seq::<int>::empty(),
{
}

/// `str::matches(pat).count()` on the bytes of `b`.
pub fn count_matches(b: &[u8], pat: &[u8]) -> (r: usize)
    requires
        pat@.len() > 0,
    ensures
        r == match_count(b@, pat@),
{
    let mut i: usize = 0;
    let mut count: usize = 0;
    let ghost mut found: Seq<int> = seq![];
    while i < b.len() && pat.len() <= b.len() - i
        invariant
            i <= b@.len(),
            pat@.len() > 0,
            count == found.len(),
            count <= i,
            match_positions(b@, pat@, 0) == found + match_positions(b@, pat@, i as int),
        decreases b@.len() - i,
    {
        if occurs_at_exec(b, pat, i) {
            proof {
                assert(match_positions(b@, pat@, i as int) == seq![i as int] + match_positions(
                    b@,
                    pat@,
                    i + pat@.len(),
                ));
                assert(found + (seq![i as int] + match_positions(b@, pat@, i + pat@.len()))
                    =~= found.push(i as int) + match_positions(b@, pat@, i + pat@.len()));
                found = found.push(i as int);
            }
            count = count + 1;
            i = i + pat.len();
        } else {
            i = i + 1;
        }
    }
    proof {
        lemma_positions_end(b@, pat@, i as int);
        assert(found + Seq::<int>::empty() =~= found);
    }
    count
}

/// Whether every `shelf` in `data` has nine bytes before it that start on a character
/// boundary: the condition under which the shelf count can look behind each shelf.
pub fn shelf_windows_in_bounds(data: &str) -> (r: bool)
    ensures
        r == shelf_windows_ok(data.spec_bytes()),
{
    let b = data.as_bytes();
    let pat = vec![115u8, 104u8, 101u8, 108u8, 102u8];
    assert(pat@ =~= shelf());
    let p = pat.as_slice();
    let mut i: usize = 0;
    let ghost mut found: Seq<int> = seq![];
    while i < b.len() && 5 <= b.len() - i
        invariant
            b@ == data.spec_bytes(),
            p@ == shelf(),
            i <= b@.len(),
            match_positions(b@, shelf(), 0) == found + match_positions(b@, shelf(), i as int),
            forall|k: int|
                0 <= k < found.len() ==> #[trigger] found[k] >= 9 && is_char_boundary(
                    b@,
                    found[k] - 9,
                ),
        decreases b@.len() - i,
    {
        if occurs_at_exec(b, p, i) {
            if i < 9 || !data.is_char_boundary(i - 9) {
                proof {
                    let ps = match_positions(b@, shelf(), 0);
                    assert(match_positions(b@, shelf(), i as int) == seq![i as int]
                        + match_positions(b@, shelf(), i + 5));
                    assert(ps[found.len() as int] == i);
                }
                return false;
            }
            proof {
                assert(match_positions(b@, shelf(), i as int) == seq![i as int] + match_positions(
                    b@,
                    shelf(),
                    i + 5,
                ));
                assert(found + (seq![i as int] + match_positions(b@, shelf(), i + 5))
                    =~= found.push(i as int) + match_positions(b@, shelf(), i + 5));
                found = found.push(i as int);
            }
            i = i + 5;
        } else {
            i = i + 1;
        }
    }
    proof {
        lemma_positions_end(b@, shelf(), i as int);
        assert(found + Seq::<int>::empty() =~= found);
    }
    true
}

/// The shelves of `data` that the nine bytes before them do not mark as holding an elf.
fn count_bare_shelves(b: &[u8]) -> (r: usize)
    requires
        shelf_windows_ok(b@),
    ensures
        r == count_bare(b@, match_positions(b@, shelf(), 0)),
{
    let pat = vec![115u8, 104u8, 101u8, 108u8, 102u8];
    assert(pat@ =~= shelf());
    let p = pat.as_slice();
    let before = vec![101u8, 108u8, 102u8, 32u8, 111u8, 110u8, 32u8, 97u8, 32u8];
    assert(before@ =~= elf_on_a());
    let q = before.as_slice();
    let mut i: usize = 0;
    let mut count: usize = 0;
    let ghost mut found: Seq<int> = seq![];
    while i < b.len() && 5 <= b.len() - i
        invariant
            p@ == shelf(),
            q@ == elf_on_a(),
            shelf_windows_ok(b@),
            i <= b@.len(),
            match_positions(b@, shelf(), 0) == found + match_positions(b@, shelf(), i as int),
            count == count_bare(b@, found),
            count <= found.len() <= i,
        decreases b@.len() - i,
    {
        if occurs_at_exec(b, p, i) {
            let ghost ps = match_positions(b@, shelf(), 0);
            proof {
                assert(match_positions(b@, shelf(), i as int) == seq![i as int] + match_positions(
                    b@,
                    shelf(),
                    i + 5,
                ));
                assert(ps[found.len() as int] == i);
                assert(found + (seq![i as int] + match_positions(b@, shelf(), i + 5))
                    =~= found.push(i as int) + match_positions(b@, shelf(), i + 5));
            }
            let start = i - 9;
            let marked = occurs_at_exec(b, q, start);
            proof {
                let f2 = found.push(i as int);
                assert(f2.drop_last() =~= found);
                found = f2;
            }
            if !marked {
                count = count + 1;
            }
            i = i + 5;
        } else {
            i = i + 1;
        }
    }
    proof {
        lemma_positions_end(b@, shelf(), i as int);
        assert(found + Seq::<int>::empty() =~= found);
    }
    count
}

/// Counts the elves of a text: every `elf`, every `elf on a shelf`, and every `shelf`
/// whose nine bytes before are not `elf on a `.
pub fn count_elfs(data: &str) -> (r: ElfCounts)
    requires
        shelf_windows_ok(data.spec_bytes()),
    ensures
        r.elfs == match_count(data.spec_bytes(), elf()),
        r.elf_shelves == match_count(data.spec_bytes(), elf_on_a_shelf()),
        r.elf_not_shelves == count_bare(
            data.spec_bytes(),
            match_positions(data.spec_bytes(), shelf(), 0),
        ),
{
    let b = data.as_bytes();
    let elf_bytes = vec![101u8, 108u8, 102u8];
    assert(elf_bytes@ =~= elf());
    let both = vec![
        101u8,
        108u8,
        102u8,
        32u8,
        111u8,
        110u8,
        32u8,
        97u8,
        32u8,
        115u8,
        104u8,
        101u8,
        108u8,
        102u8,
    ];
    assert(both@ =~= elf_on_a_shelf());
    let elfs = count_matches(b, elf_bytes.as_slice());
    let elf_shelves = count_matches(b, both.as_slice());
    let elf_not_shelves = count_bare_shelves(b);
    ElfCounts { elfs, elf_shelves, elf_not_shelves }
}

/// The number of bytes at or after `from` where `pat` occurs, overlapping or not.
pub open spec fn occurrences(b: Seq<u8>, pat: Seq<u8>, from: int) -> nat
    decreases b.len() - from,
{
    if from < 0 || from + pat.len() > b.len() || pat.len() == 0 {
        0
    } else {
        (if occurs_at(b, pat, from) {
            1nat
        } else {
            0nat
        }) + occurrences(b, pat, from + 1)
    }
}

proof fn lemma_elf_matches_from(b: Seq<u8>, from: int)
    requires
        0 <= from,
    ensures
        match_positions(b, elf(), from).len() == occurrences(b, elf(), from),
    decreases b.len() - from,
{
    if from + 3 > b.len() {
    } else if occurs_at(b, elf(), from) {
        lemma_elf_matches_from(b, from + 3);
        // An `elf` starts with `e`, and neither `l` nor `f` is one.
        assert(b[from] == b.subrange(from, from + 3)[0]);
        assert(b[from + 1] == b.subrange(from, from + 3)[1]);
        assert(b[from + 2] == b.subrange(from, from + 3)[2]);
        assert(!occurs_at(b, elf(), from + 1)) by {
            if from + 4 <= b.len() {
                assert(b.subrange(from + 1, from + 4)[0] == b[from + 1]);
            }
        }
        assert(!occurs_at(b, elf(), from + 2)) by {
            if from + 5 <= b.len() {
                assert(b.subrange(from + 2, from + 5)[0] == b[from + 2]);
            }
        }
        assert(occurrences(b, elf(), from + 1) == occurrences(b, elf(), from + 2));
        assert(occurrences(b, elf(), from + 2) == occurrences(b, elf(), from + 3));
    } else {
        lemma_elf_matches_from(b, from + 1);
    }
}

/// `elf` never overlaps itself, so the leftmost, non-overlapping matches that `elfs`
/// counts are all of its occurrences, those inside `shelf` or `Belfast` among them.
pub proof fn lemma_every_elf_is_counted(b: Seq<u8>)
    ensures
        match_count(b, elf()) == occurrences(b, elf(), 0),
{
    lemma_elf_matches_from(b, 0);
}

proof fn lemma_occurrences_shrink(b: Seq<u8>, pat: Seq<u8>, from: int, to: int)
    requires
        0 <= from <= to,
    ensures
        occurrences(b, pat, to) <= occurrences(b, pat, from),
    decreases to - from,
{
    if from < to {
        lemma_occurrences_shrink(b, pat, from + 1, to);
    }
}

proof fn lemma_shelved_elves_from(b: Seq<u8>, from: int)
    requires
        0 <= from,
    ensures
        match_positions(b, elf_on_a_shelf(), from).len() <= occurrences(b, elf(), from),
    decreases b.len() - from,
{
    let p = elf_on_a_shelf();
    if from + 14 > b.len() {
    } else if occurs_at(b, p, from) {
        lemma_shelved_elves_from(b, from + 14);
        lemma_occurrences_shrink(b, elf(), from + 1, from + 14);
        assert(b.subrange(from, from + 3) =~= b.subrange(from, from + 14).subrange(0, 3));
        assert(p.subrange(0, 3) =~= elf());
        assert(occurs_at(b, elf(), from));
    } else {
        lemma_shelved_elves_from(b, from + 1);
        if from + 3 <= b.len() {
            assert(occurrences(b, elf(), from) >= occurrences(b, elf(), from + 1));
        }
    }
}

/// Every `elf on a shelf` begins with an `elf`, so there are never more of them than
/// there are elves.
pub proof fn lemma_shelved_elves_are_elves(b: Seq<u8>)
    ensures
        match_count(b, elf_on_a_shelf()) <= match_count(b, elf()),
{
    lemma_shelved_elves_from(b, 0);
    lemma_every_elf_is_counted(b);
}

proof fn lemma_matches_hold_the_pattern_from(b: Seq<u8>, pat: Seq<u8>, from: int)
    ensures
        forall|k: int|
            0 <= k < match_positions(b, pat, from).len() ==> {
                let p = #[trigger] match_positions(b, pat, from)[k];
                &&& from <= p
                &&& p + pat.len() <= b.len()
                &&& b.subrange(p, p + pat.len()) == pat
            },
    decreases b.len() - from,
{
    if pat.len() == 0 || from < 0 || from + pat.len() > b.len() {
    } else if occurs_at(b, pat, from) {
        lemma_matches_hold_the_pattern_from(b, pat, from + pat.len());
        let rest = match_positions(b, pat, from + pat.len());
        assert forall|k: int| 0 <= k < match_positions(b, pat, from).len() implies {
            let p = #[trigger] match_positions(b, pat, from)[k];
            &&& from <= p
            &&& p + pat.len() <= b.len()
            &&& b.subrange(p, p + pat.len()) == pat
        } by {
            assert(match_positions(b, pat, from) == seq![from] + rest);
            if k > 0 {
                assert(match_positions(b, pat, from)[k] == rest[k - 1]);
            } else {
                assert(match_positions(b, pat, from)[k] == from);
            }
        }
    } else {
        lemma_matches_hold_the_pattern_from(b, pat, from + 1);
        assert(match_positions(b, pat, from) == match_positions(b, pat, from + 1));
    }
}

/// Every match that is counted holds the pattern byte for byte: the bytes there equal
/// the pattern exactly, with no folding of case or any other leeway.
pub proof fn lemma_matches_hold_the_pattern(b: Seq<u8>, pat: Seq<u8>)
    ensures
        forall|k: int|
            0 <= k < match_positions(b, pat, 0).len() ==> {
                let p = #[trigger] match_positions(b, pat, 0)[k];
                &&& 0 <= p
                &&& p + pat.len() <= b.len()
                &&& b.subrange(p, p + pat.len()) == pat
            },
{
    lemma_matches_hold_the_pattern_from(b, pat, 0);
}

/// A text in which the exact bytes of the pattern stand nowhere has no match.
pub proof fn lemma_no_pattern_no_match(b: Seq<u8>, pat: Seq<u8>)
    requires
        forall|i: int|
            0 <= i && i + pat.len() <= b.len() ==> #[trigger] b.subrange(i, i + pat.len()) != pat,
    ensures
        match_count(b, pat) == 0,
{
    lemma_matches_hold_the_pattern(b, pat);
    if match_positions(b, pat, 0).len() > 0 {
        let p = match_positions(b, pat, 0)[0];
        assert(b.subrange(p, p + pat.len()) == pat);
    }
}

/// The shelf at `p` ends an `elf on a shelf`: the fourteen bytes from `p - 9` are those
/// of `elf on a shelf`.
pub open spec fn ends_elf_on_a_shelf(b: Seq<u8>, p: int) -> bool {
    9 <= p && p + 5 <= b.len() && b.subrange(p - 9, p + 5) == elf_on_a_shelf()
}

proof fn lemma_bare_shelves_of(b: Seq<u8>, ps: Seq<int>)
    requires
        forall|k: int|
            0 <= k < ps.len() ==> 9 <= #[trigger] ps[k] && ps[k] + 5 <= b.len() && b.subrange(
                ps[k],
                ps[k] + 5,
            ) == shelf(),
    ensures
        count_bare(b, ps) + ps.filter(|p: int| ends_elf_on_a_shelf(b, p)).len() == ps.len(),
    decreases ps.len(),
{
    reveal(Seq::filter);
    if ps.len() > 0 {
        let q = ps.drop_last();
        let p = ps.last();
        assert forall|k: int|
            0 <= k < q.len() implies 9 <= #[trigger] q[k] && q[k] + 5 <= b.len() && b.subrange(
                q[k],
                q[k] + 5,
            ) == shelf() by {
            assert(q[k] == ps[k]);
        }
        lemma_bare_shelves_of(b, q);
        assert(ps[ps.len() - 1] == p);
        let before = b.subrange(p - 9, p);
        let window = b.subrange(p - 9, p + 5);
        assert(window =~= before + b.subrange(p, p + 5));
        if before == elf_on_a() {
            assert(window =~= elf_on_a_shelf());
        } else {
            assert(window != elf_on_a_shelf()) by {
                if window == elf_on_a_shelf() {
                    assert forall|j: int| 0 <= j < 9 implies before[j] == elf_on_a()[j] by {
                        assert(before[j] == window[j]);
                        assert(elf_on_a_shelf()[j] == elf_on_a()[j]);
                    }
                    assert(before =~= elf_on_a());
                }
            }
        }
    }
}

/// A shelf counts as bare exactly when it does not end an `elf on a shelf`: the bare
/// count is the number of shelves less the number of those that end one.
pub proof fn lemma_bare_shelves_are_those_without_an_elf(b: Seq<u8>)
    requires
        shelf_windows_ok(b),
    ensures
        count_bare(b, match_positions(b, shelf(), 0)) + match_positions(b, shelf(), 0).filter(
            |p: int| ends_elf_on_a_shelf(b, p),
        ).len() == match_positions(b, shelf(), 0).len(),
{
    let ps = match_positions(b, shelf(), 0);
    lemma_matches_hold_the_pattern(b, shelf());
    assert forall|k: int|
        0 <= k < ps.len() implies 9 <= #[trigger] ps[k] && ps[k] + 5 <= b.len() && b.subrange(
            ps[k],
            ps[k] + 5,
        ) == shelf() by {
        assert(ps[k] >= 9 && is_char_boundary(b, ps[k] - 9));
    }
    lemma_bare_shelves_of(b, ps);
}

} // verus!
