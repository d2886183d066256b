//! Packet ids taken from a URL path: every non-empty `/`-separated field is a
//! decimal `i32`, the ids are folded with XOR starting from zero, and the result is
//! cubed.

use vstd::prelude::*;
use vstd::string::StringSliceAdditionalSpecFns;
use crate::text::{int_decimal, nat_decimal};

verus! {

/// The byte of `/`.
pub open spec fn is_slash(b: u8) -> bool {
    b == 47u8
}

/// An ASCII decimal digit.
pub open spec fn is_digit(b: u8) -> bool {
    48u8 <= b <= 57u8
}

pub open spec fn all_digits(d: Seq<u8>) -> bool {
    forall|i: int| 0 <= i < d.len() ==> is_digit(#[trigger] d[i])
}

/// The value of a run of decimal digits, most significant digit first.
pub open spec fn digits_value(d: Seq<u8>) -> int
    decreases d.len(),
{
    if d.len() == 0 {
        0
    } else {
        10 * digits_value(d.drop_last()) + (d.last() - 48)
    }
}

/// What `i32::from_str` gives for these bytes: an optional `+` or `-`, then at least
/// one ASCII digit and nothing else, and a value that fits in an `i32`.
pub open spec fn parse_i32_spec(b: Seq<u8>) -> Option<i32> {
    if b.len() == 0 {
        None
    } else {
        let signed = b[0] == 43u8 || b[0] == 45u8;
        let d = if signed { b.drop_first() } else { b };
        let v = if b[0] == 45u8 { -digits_value(d) } else { digits_value(d) };
        if d.len() == 0 || !all_digits(d) || v < i32::MIN || v > i32::MAX {
            None
        } else {
            Some(v as i32)
        }
    }
}

/// The non-empty fields of `cur ++ b` when split at `/`, where `cur` is a field that
/// has been read but not yet closed.
pub open spec fn fields_from(b: Seq<u8>, cur: Seq<u8>) -> Seq<Seq<u8>>
    decreases b.len(),
{
    if b.len() == 0 {
        if cur.len() > 0 {
            seq![cur]
        } else {
            seq![]
        }
    } else if is_slash(b[0]) {
        (if cur.len() > 0 {
            seq![cur]
        } else {
            seq![]
        }) + fields_from(b.drop_first(), seq![])
    } else {
        fields_from(b.drop_first(), cur.push(b[0]))
    }
}

/// The non-empty `/`-separated fields of a path, in order.
pub open spec fn packet_fields(b: Seq<u8>) -> Seq<Seq<u8>> {
    fields_from(b, seq![])
}

/// Every field is a valid `i32`.
pub open spec fn all_fields_parse(fields: Seq<Seq<u8>>) -> bool {
    forall|i: int| 0 <= i < fields.len() ==> (#[trigger] parse_i32_spec(fields[i])) is Some
}

/// The ids that the fields hold.
pub open spec fn field_values(fields: Seq<Seq<u8>>) -> Seq<i32> {
    fields.map_values(|f: Seq<u8>| parse_i32_spec(f)->0)
}

/// `ids[0] ^ ids[1] ^ ...`, starting from zero.
pub open spec fn xor_fold(ids: Seq<i32>) -> i32
    decreases ids.len(),
{
    if ids.len() == 0 {
        0
    } else {
        xor_fold(ids.drop_last()) ^ ids.last()
    }
}

pub open spec fn cube(x: int) -> int {
    x * x * x
}

pub open spec fn fits_i32(x: int) -> bool {
    i32::MIN <= x <= i32::MAX
}

/// Why a path gives no sled id.
#[derive(Debug, PartialEq, Eq, Clone, Copy, Structural)]
pub enum PacketError {
    /// A non-empty field is not a decimal `i32`.
    InvalidPacketId,
    /// The cube of the folded ids does not fit in an `i32`.
    Overflow,
}

/// The answer for a path: the cube of the XOR of its ids.
pub open spec fn sled_id_spec(b: Seq<u8>) -> Result<i32, PacketError> {
    let fields = packet_fields(b);
    if !all_fields_parse(fields) {
        Err(PacketError::InvalidPacketId)
    } else {
        let x = xor_fold(field_values(fields));
        if fits_i32(cube(x as int)) {
            Ok(cube(x as int) as i32)
        } else {
            Err(PacketError::Overflow)
        }
    }
}

proof fn lemma_capped_step(v: int, d: int, cap: int)
    requires
        v >= 0,
        0 <= d <= 9,
        cap > 0,
    ensures
        (if 10 * (if v < cap { v } else { cap }) + d < cap {
            10 * (if v < cap { v } else { cap }) + d
        } else {
            cap
        }) == (if 10 * v + d < cap {
            10 * v + d
        } else {
            cap
        }),
{
}

/// Parses `b[start..end]` as `i32::from_str` does.
pub fn parse_packet_id(b: &[u8], start: usize, end: usize) -> (r: Option<i32>)
    requires
        start <= end <= b@.len(),
    ensures
        r == parse_i32_spec(b@.subrange(start as int, end as int)),
{
    let ghost s = b@.subrange(start as int, end as int);
    if start == end {
        return None;
    }
    let first = b[start];
    assert(s[0] == first);
    let signed = first == 43u8 || first == 45u8;
    let dstart = if signed {
        start + 1
    } else {
        start
    };
    let ghost d = b@.subrange(dstart as int, end as int);
    assert(d == (if signed {
        s.drop_first()
    } else {
        s
    }));
    if dstart == end {
        return None;
    }
    // The value read so far, capped just above what an `i32` can hold.
    let cap: i64 = 2147483649;
    let mut acc: i64 = 0;
    let mut i: usize = dstart;
    while i < end
        invariant
            dstart <= i <= end <= b@.len(),
            d == b@.subrange(dstart as int, end as int),
            s == b@.subrange(start as int, end as int),
            s.len() > 0,
            s[0] == first,
            signed == (first == 43u8 || first == 45u8),
            d == (if signed {
                s.drop_first()
            } else {
                s
            }),
            forall|j: int| dstart <= j < i ==> is_digit(#[trigger] b@[j]),
            digits_value(d.take(i - dstart)) >= 0,
            acc == (if digits_value(d.take(i - dstart)) < cap {
                digits_value(d.take(i - dstart))
            } else {
                cap as int
            }),
            cap == 2147483649,
        decreases end - i,
    {
        let c = b[i];
        if c < 48u8 || c > 57u8 {
            assert(!is_digit(d[i - dstart]));
            assert(!all_digits(d));
            assert(parse_i32_spec(s) is None);
            return None;
        }
        let ghost before = d.take(i - dstart);
        assert(d.take(i + 1 - dstart).drop_last() =~= before);
        assert(d.take(i + 1 - dstart).last() == c);
        proof {
            lemma_capped_step(digits_value(before), (c - 48) as int, cap as int);
        }
        let next = 10 * acc + (c - 48u8) as i64;
        acc = if next < cap {
            next
        } else {
            cap
        };
        i = i + 1;
    }
    assert(d.take(end - dstart) =~= d);
    assert(all_digits(d)) by {
        assert forall|k: int| 0 <= k < d.len() implies is_digit(#[trigger] d[k]) by {
            assert(d[k] == b@[dstart + k]);
        }
    }
    if first == 45u8 {
        if acc > 2147483648 {
            None
        } else {
            Some((-acc) as i32)
        }
    } else {
        if acc > 2147483647 {
            None
        } else {
            Some(acc as i32)
        }
    }
}

/// Cubes `x`, as `i32::pow(x, 3)` does when it does not overflow.
pub fn cube_i32(x: i32) -> (r: Option<i32>)
    ensures
        r is Some <==> fits_i32(cube(x as int)),
        r matches Some(c) ==> c == cube(x as int),
{
    let w = x as i64;
    assert(0 <= w * w <= 0x4000_0000_0000_0000) by (nonlinear_arith)
        requires
            -0x8000_0000 <= w <= 0x7fff_ffff,
    ;
    let sq = w * w;
    if sq > 0x8000_0000 {
        // |x| > 46340, so |x^3| is far beyond the i32 range.
        assert(!fits_i32(cube(x as int))) by (nonlinear_arith)
            requires
                sq == w * w,
                sq > 0x8000_0000,
                w == x,
        {
            assert(w != 0);
            assert(w * w * w == sq * w);
            if w > 0 {
                assert(sq * w >= sq);
            } else {
                assert(sq * w <= -sq);
            }
        }
        return None;
    }
    assert(-0x4000_0000_0000_0000 <= sq * w <= 0x4000_0000_0000_0000) by (nonlinear_arith)
        requires
            0 <= sq <= 0x8000_0000,
            -0x8000_0000 <= w <= 0x7fff_ffff,
    ;
    let c = sq * w;
    assert(c == cube(x as int)) by (nonlinear_arith)
        requires
            c == sq * w,
            sq == w * w,
            w == x,
    ;
    if c < -2147483648 || c > 2147483647 {
        None
    } else {
        Some(c as i32)
    }
}

proof fn lemma_fields_slash(b: Seq<u8>, cur: Seq<u8>)
    requires
        b.len() > 0,
        is_slash(b[0]),
    ensures
        fields_from(b, cur) == (if cur.len() > 0 {
            seq![cur]
        } else {
            seq![]
        }) + fields_from(b.drop_first(), seq![]),
{
}

proof fn lemma_fields_other(b: Seq<u8>, cur: Seq<u8>)
    requires
        b.len() > 0,
        !is_slash(b[0]),
    ensures
        fields_from(b, cur) == fields_from(b.drop_first(), cur.push(b[0])),
{
}

proof fn lemma_close_field(done: Seq<Seq<u8>>, cur: Seq<u8>, v: i32, later: Seq<Seq<u8>>)
    requires
        all_fields_parse(done),
        parse_i32_spec(cur) == Some(v),
    ensures
        all_fields_parse(done.push(cur)),
        field_values(done.push(cur)) == field_values(done).push(v),
        xor_fold(field_values(done.push(cur))) == xor_fold(field_values(done)) ^ v,
        done + (seq![cur] + later) == done.push(cur) + later,
{
    let d2 = done.push(cur);
    assert forall|k: int| 0 <= k < d2.len() implies (#[trigger] parse_i32_spec(d2[k])) is Some by {
        if k < done.len() {
            assert(d2[k] == done[k]);
        }
    }
    assert(field_values(d2) =~= field_values(done).push(v));
    assert(field_values(d2).drop_last() =~= field_values(done));
    assert(done + (seq![cur] + later) =~= d2 + later);
}

proof fn lemma_bad_field(done: Seq<Seq<u8>>, cur: Seq<u8>, later: Seq<Seq<u8>>)
    requires
        parse_i32_spec(cur) is None,
    ensures
        !all_fields_parse(done + (seq![cur] + later)),
{
    let fs = done + (seq![cur] + later);
    assert(fs[done.len() as int] == cur);
}

/// The sled id of a path: every non-empty `/`-separated field of `tail` is parsed as an
/// `i32`, the ids are folded with XOR from zero, and the fold is cubed; an error where a
/// field is not an `i32` or the cube overflows.
pub fn sled_id(tail: &str) -> (r: Result<i32, PacketError>)
    ensures
        r == sled_id_spec(tail.spec_bytes()),
{
    let b = tail.as_bytes();
    let n = b.len();
    let ghost whole = b@;
    let ghost mut done: Seq<Seq<u8>> = seq![];
    let mut acc: i32 = 0;
    let mut start: usize = 0;
    let mut i: usize = 0;
    assert(whole.skip(0) =~= whole);
    assert(whole.subrange(0, 0) =~= Seq::<u8>::empty());
    assert(seq![] + packet_fields(whole) =~= packet_fields(whole));
    while i < n
        invariant
            n == b@.len(),
            whole == b@,
            whole == tail.spec_bytes(),
            start <= i <= n,
            packet_fields(whole) == done + fields_from(
                whole.skip(i as int),
                whole.subrange(start as int, i as int),
            ),
            all_fields_parse(done),
            acc == xor_fold(field_values(done)),
        decreases n - i,
    {
        let ghost cur = whole.subrange(start as int, i as int);
        let ghost rest = whole.skip(i as int);
        if b[i] == 47u8 {
            let ghost later = fields_from(whole.skip(i + 1), seq![]);
            proof {
                lemma_fields_slash(rest, cur);
                assert(rest.drop_first() =~= whole.skip(i + 1));
                assert(whole.subrange(i + 1, i + 1) =~= Seq::<u8>::empty());
            }
            if start < i {
                match parse_packet_id(b, start, i) {
                    Some(v) => {
                        proof {
                            lemma_close_field(done, cur, v, later);
                            done = done.push(cur);
                        }
                        acc = acc ^ v;
                    },
                    None => {
                        proof {
                            lemma_bad_field(done, cur, later);
                        }
                        return Err(PacketError::InvalidPacketId);
                    },
                }
            } else {
                assert(done + (seq![] + later) =~= done + later);
            }
            start = i + 1;
        } else {
            proof {
                lemma_fields_other(rest, cur);
                assert(rest.drop_first() =~= whole.skip(i + 1));
                assert(cur.push(b@[i as int]) =~= whole.subrange(start as int, i + 1));
            }
        }
        i = i + 1;
    }
    let ghost cur = whole.subrange(start as int, n as int);
    assert(whole.skip(n as int) =~= Seq::<u8>::empty());
    if start < n {
        match parse_packet_id(b, start, n) {
            Some(v) => {
                proof {
                    lemma_close_field(done, cur, v, seq![]);
                    assert(seq![cur] + Seq::<Seq<u8>>::empty() =~= seq![cur]);
                    assert(done.push(cur) + Seq::<Seq<u8>>::empty() =~= done.push(cur));
                    done = done.push(cur);
                }
                acc = acc ^ v;
            },
            None => {
                proof {
                    lemma_bad_field(done, cur, seq![]);
                    assert(fields_from(whole.skip(n as int), cur) == seq![cur]);
                    assert(seq![cur] + Seq::<Seq<u8>>::empty() =~= seq![cur]);
                    assert(packet_fields(whole) == done + (seq![cur] + Seq::<Seq<u8>>::empty()));
                }
                return Err(PacketError::InvalidPacketId);
            },
        }
    } else {
        assert(done + Seq::<Seq<u8>>::empty() =~= done);
    }
    assert(packet_fields(whole) == done);
    match cube_i32(acc) {
        Some(c) => Ok(c),
        None => Err(PacketError::Overflow),
    }
}

/// The sled id of a path whose fields are all `i32` ids and whose cube fits in an
/// `i32`.
pub fn d1(tail: &str) -> (r: i32)
    requires
        sled_id_spec(tail.spec_bytes()) is Ok,
    ensures
        sled_id_spec(tail.spec_bytes()) == Ok::<i32, PacketError>(r),
{
    match sled_id(tail) {
        Ok(id) => id,
        Err(_) => 0,
    }
}

proof fn lemma_xor_swap(a: i32, b: i32, c: i32)
    ensures
        (a ^ b) ^ c == (a ^ c) ^ b,
{
    assert((a ^ b) ^ c == (a ^ c) ^ b) by (bit_vector);
}

proof fn lemma_xor_twice(a: i32, n: i32)
    ensures
        (a ^ n) ^ n == a,
{
    assert((a ^ n) ^ n == a) by (bit_vector);
}

/// Taking one field out of the fold and XOR-ing its id in afterwards changes nothing.
proof fn lemma_xor_remove(f: Seq<Seq<u8>>, j: int)
    requires
        0 <= j < f.len(),
    ensures
        xor_fold(field_values(f)) == xor_fold(field_values(f.remove(j))) ^ parse_i32_spec(
            f[j],
        )->0,
    decreases f.len(),
{
    let v = field_values(f);
    if j == f.len() - 1 {
        assert(f.remove(j) =~= f.drop_last());
        assert(field_values(f.drop_last()) =~= v.drop_last());
    } else {
        let g = f.drop_last();
        lemma_xor_remove(g, j);
        let h = f.remove(j);
        assert(h.drop_last() =~= g.remove(j));
        assert(field_values(g) =~= v.drop_last());
        assert(field_values(h).drop_last() =~= field_values(g.remove(j)));
        assert(field_values(h).last() == v.last());
        lemma_xor_swap(
            xor_fold(field_values(g.remove(j))),
            parse_i32_spec(f[j])->0,
            v.last(),
        );
    }
}

proof fn lemma_xor_fold_by_multiset(f1: Seq<Seq<u8>>, f2: Seq<Seq<u8>>)
    requires
        f1.to_multiset() == f2.to_multiset(),
    ensures
        xor_fold(field_values(f1)) == xor_fold(field_values(f2)),
    decreases f1.len(),
{
    broadcast use vstd::seq_lib::group_to_multiset_ensures;
    broadcast use vstd::multiset::group_multiset_axioms;

    if f1.len() == 0 {
        assert(f2.to_multiset().len() == 0);
        assert(field_values(f1) =~= Seq::<i32>::empty());
        assert(field_values(f2) =~= Seq::<i32>::empty());
    } else {
        let x = f1.last();
        let g1 = f1.drop_last();
        assert(g1.push(x) =~= f1);
        assert(f1.to_multiset() =~= g1.to_multiset().insert(x));
        assert(f2.to_multiset().count(x) > 0);
        assert(f2.contains(x));
        let j = choose|j: int| 0 <= j < f2.len() && f2[j] == x;
        let g2 = f2.remove(j);
        assert(g2.to_multiset() =~= f2.to_multiset().remove(x));
        assert(g1.to_multiset() =~= g2.to_multiset());
        lemma_xor_fold_by_multiset(g1, g2);
        lemma_xor_remove(f2, j);
        assert(field_values(f1).drop_last() =~= field_values(g1));
    }
}

/// The sled id does not depend on the order of the fields: two paths whose non-empty
/// fields are the same multiset give the same answer.
pub proof fn lemma_field_order_does_not_matter(b1: Seq<u8>, b2: Seq<u8>)
    requires
        packet_fields(b1).to_multiset() == packet_fields(b2).to_multiset(),
    ensures
        sled_id_spec(b1) == sled_id_spec(b2),
{
    broadcast use vstd::seq_lib::group_to_multiset_ensures;

    let f1 = packet_fields(b1);
    let f2 = packet_fields(b2);
    assert(all_fields_parse(f1) == all_fields_parse(f2)) by {
        if all_fields_parse(f1) {
            assert forall|i: int| 0 <= i < f2.len() implies (#[trigger] parse_i32_spec(
                f2[i],
            )) is Some by {
                assert(f2.contains(f2[i]));
                assert(f1.to_multiset().count(f2[i]) > 0);
                let k = choose|k: int| 0 <= k < f1.len() && f1[k] == f2[i];
                assert(parse_i32_spec(f1[k]) is Some);
            }
        }
        if all_fields_parse(f2) {
            assert forall|i: int| 0 <= i < f1.len() implies (#[trigger] parse_i32_spec(
                f1[i],
            )) is Some by {
                assert(f1.contains(f1[i]));
                assert(f2.to_multiset().count(f1[i]) > 0);
                let k = choose|k: int| 0 <= k < f2.len() && f2[k] == f1[i];
                assert(parse_i32_spec(f2[k]) is Some);
            }
        }
    }
    lemma_xor_fold_by_multiset(f1, f2);
}

/// The bytes of the decimal text of `n`.
pub open spec fn decimal_bytes(n: int) -> Seq<u8> {
    int_decimal(n).map_values(|c: char| c as u8)
}

proof fn lemma_nat_decimal_bytes(m: nat)
    ensures
        nat_decimal(m).map_values(|c: char| c as u8).len() > 0,
        all_digits(nat_decimal(m).map_values(|c: char| c as u8)),
        digits_value(nat_decimal(m).map_values(|c: char| c as u8)) == m,
    decreases m,
{
    let d = nat_decimal(m).map_values(|c: char| c as u8);
    if m < 10 {
        assert(d.len() == 1);
        assert(d[0] == 48 + m);
        assert(d.drop_last() =~= Seq::<u8>::empty());
        assert(digits_value(d.drop_last()) == 0);
        assert(d.last() == d[0]);
        assert(digits_value(d) == 10 * digits_value(d.drop_last()) + (d.last() - 48));
    } else {
        lemma_nat_decimal_bytes(m / 10);
        let d1 = nat_decimal(m / 10).map_values(|c: char| c as u8);
        assert(d.drop_last() =~= d1);
        assert(d.last() == 48 + m % 10);
        assert(digits_value(d) == 10 * digits_value(d.drop_last()) + (d.last() - 48));
        assert(m == 10 * (m / 10) + m % 10);
        assert forall|i: int| 0 <= i < d.len() implies is_digit(#[trigger] d[i]) by {
            if i < d1.len() {
                assert(d[i] == d1[i]);
            }
        }
    }
}

/// The decimal text of an `i32` is a field that parses back to it.
proof fn lemma_decimal_field(n: i32)
    ensures
        decimal_bytes(n as int).len() > 0,
        parse_i32_spec(decimal_bytes(n as int)) == Some(n),
        forall|i: int|
            0 <= i < decimal_bytes(n as int).len() ==> !is_slash(
                #[trigger] decimal_bytes(n as int)[i],
            ),
{
    let b = decimal_bytes(n as int);
    if n < 0 {
        let m = (-n) as nat;
        lemma_nat_decimal_bytes(m);
        let d = nat_decimal(m).map_values(|c: char| c as u8);
        assert(b =~= seq![45u8] + d);
        assert(b.drop_first() =~= d);
        assert forall|i: int| 0 <= i < b.len() implies !is_slash(#[trigger] b[i]) by {
            if i > 0 {
                assert(b[i] == d[i - 1]);
                assert(is_digit(d[i - 1]));
            }
        }
    } else {
        let m = n as nat;
        lemma_nat_decimal_bytes(m);
        assert(is_digit(b[0]));
        assert forall|i: int| 0 <= i < b.len() implies !is_slash(#[trigger] b[i]) by {
            assert(is_digit(b[i]));
        }
    }
}

/// A `/` splits the fields of what stands before it from those of what stands after it.
proof fn lemma_fields_split(b: Seq<u8>, c: Seq<u8>, cur: Seq<u8>)
    ensures
        fields_from(b + seq![47u8] + c, cur) == fields_from(b, cur) + fields_from(c, seq![]),
    decreases b.len(),
{
    let whole = b + seq![47u8] + c;
    if b.len() == 0 {
        assert(whole.drop_first() =~= c);
        assert(fields_from(b, cur) == (if cur.len() > 0 {
            seq![cur]
        } else {
            seq![]
        }));
    } else {
        assert(whole[0] == b[0]);
        assert(whole.drop_first() =~= b.drop_first() + seq![47u8] + c);
        if is_slash(b[0]) {
            lemma_fields_split(b.drop_first(), c, seq![]);
            let closed: Seq<Seq<u8>> = if cur.len() > 0 {
                seq![cur]
            } else {
                seq![]
            };
            assert(closed + (fields_from(b.drop_first(), seq![]) + fields_from(c, seq![]))
                =~= (closed + fields_from(b.drop_first(), seq![])) + fields_from(c, seq![]));
        } else {
            lemma_fields_split(b.drop_first(), c, cur.push(b[0]));
        }
    }
}

/// A run of bytes without `/` is a single field.
proof fn lemma_single_field(d: Seq<u8>, cur: Seq<u8>)
    requires
        cur.len() + d.len() > 0,
        forall|i: int| 0 <= i < d.len() ==> !is_slash(#[trigger] d[i]),
    ensures
        fields_from(d, cur) == seq![cur + d],
    decreases d.len(),
{
    if d.len() == 0 {
        assert(cur + d =~= cur);
    } else {
        assert(!is_slash(d[0]));
        assert forall|i: int| 0 <= i < d.drop_first().len() implies !is_slash(
            #[trigger] d.drop_first()[i],
        ) by {
            assert(d.drop_first()[i] == d[i + 1]);
        }
        lemma_single_field(d.drop_first(), cur.push(d[0]));
        assert(cur.push(d[0]) + d.drop_first() =~= cur + d);
    }
}

/// An id given twice cancels: appending `/n/n` to a path, with `n` in decimal, leaves
/// its sled id as it was.
pub proof fn lemma_repeated_id_cancels(b: Seq<u8>, n: i32)
    ensures
        sled_id_spec(b + seq![47u8] + decimal_bytes(n as int) + seq![47u8] + decimal_bytes(
            n as int,
        )) == sled_id_spec(b),
{
    let e = decimal_bytes(n as int);
    lemma_decimal_field(n);
    let front = b + seq![47u8] + e;
    lemma_fields_split(front, e, seq![]);
    lemma_fields_split(b, e, seq![]);
    lemma_single_field(e, seq![]);
    assert(Seq::<u8>::empty() + e =~= e);
    let f = packet_fields(b);
    let g = packet_fields(front + seq![47u8] + e);
    assert(packet_fields(front) == f + seq![e]);
    assert(g == packet_fields(front) + seq![e]);
    assert(g =~= f.push(e).push(e));
    assert(all_fields_parse(g) == all_fields_parse(f)) by {
        if all_fields_parse(f) {
            assert forall|i: int| 0 <= i < g.len() implies (#[trigger] parse_i32_spec(
                g[i],
            )) is Some by {
                if i < f.len() {
                    assert(g[i] == f[i]);
                }
            }
        }
        if all_fields_parse(g) {
            assert forall|i: int| 0 <= i < f.len() implies (#[trigger] parse_i32_spec(
                f[i],
            )) is Some by {
                assert(g[i] == f[i]);
            }
        }
    }
    assert(field_values(g).drop_last() =~= field_values(f.push(e)));
    assert(field_values(f.push(e)).drop_last() =~= field_values(f));
    assert(field_values(g).last() == n);
    assert(field_values(f.push(e)).last() == n);
    assert(xor_fold(field_values(f.push(e))) == xor_fold(field_values(f)) ^ n);
    assert(xor_fold(field_values(g)) == xor_fold(field_values(f.push(e))) ^ n);
    lemma_xor_twice(xor_fold(field_values(f)), n);
    assert(xor_fold(field_values(g)) == xor_fold(field_values(f)));
    assert(fits_i32(cube(xor_fold(field_values(g)) as int)) == fits_i32(cube(xor_fold(field_values(f)) as int)));
}

} // verus!
