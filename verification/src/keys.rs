//! The keys under which the records are stored: an order as its eight bytes,
//! most significant first, so that keys sort as the orders do.

use vstd::prelude::*;

verus! {

/// 256 to the power `width`.
pub open spec fn pow256(width: nat) -> nat
    decreases width,
{
    if width == 0 {
        1
    } else {
        256 * pow256((width - 1) as nat)
    }
}

/// The number that a byte string stands for, most significant byte first.
pub open spec fn be_value(bytes: Seq<u8>) -> nat
    decreases bytes.len(),
{
    if bytes.len() == 0 {
        0
    } else {
        be_value(bytes.drop_last()) * 256 + bytes.last() as nat
    }
}

/// The last `width` bytes of `value`, most significant first.
pub open spec fn be_bytes(value: nat, width: nat) -> Seq<u8>
    decreases width,
{
    if width == 0 {
        Seq::empty()
    } else {
        be_bytes(value / 256, (width - 1) as nat).push((value % 256) as u8)
    }
}

/// The key of an order.
pub open spec fn order_key(order: u64) -> Seq<u8> {
    be_bytes(order as nat, 8)
}

/// Whether `a` comes before `b` where byte strings are sorted byte by byte:
/// at the first place where they differ `a` has the smaller byte, or `a` ends
/// there and `b` goes on.
pub open spec fn sorts_before(a: Seq<u8>, b: Seq<u8>) -> bool {
    ||| exists|i: int|
        0 <= i < a.len() && i < b.len() && a.take(i) == b.take(i) && #[trigger] a[i] < b[i]
    ||| a.len() < b.len() && a == b.take(a.len() as int)
}

/// `be_bytes` gives as many bytes as it is asked for.
pub proof fn lemma_be_bytes_len(value: nat, width: nat)
    ensures
        be_bytes(value, width).len() == width,
    decreases width,
{
    if width > 0 {
        lemma_be_bytes_len(value / 256, (width - 1) as nat);
    }
}

/// A byte string stands for a number below 256 to the power of its length.
pub proof fn lemma_be_value_bound(bytes: Seq<u8>)
    ensures
        be_value(bytes) < pow256(bytes.len()),
    decreases bytes.len(),
{
    if bytes.len() > 0 {
        lemma_be_value_bound(bytes.drop_last());
    }
}

/// The powers of 256 grow with the exponent, and none is zero.
pub proof fn lemma_pow256_grows(a: nat, b: nat)
    requires
        a <= b,
    ensures
        pow256(a) <= pow256(b),
        pow256(a) >= 1,
    decreases b,
{
    if a < b {
        lemma_pow256_grows(a, (b - 1) as nat);
    } else if a > 0 {
        lemma_pow256_grows((a - 1) as nat, (a - 1) as nat);
    }
}

/// Every order is below 256 to the power 8.
pub proof fn lemma_order_fits(order: u64)
    ensures
        order < pow256(8),
        pow256(7) == 0x100_0000_0000_0000,
{
    reveal_with_fuel(pow256, 9);
}

/// The bytes of a number that fits in `width` bytes stand for that number.
pub proof fn lemma_value_of_bytes(value: nat, width: nat)
    requires
        value < pow256(width),
    ensures
        be_value(be_bytes(value, width)) == value,
    decreases width,
{
    if width > 0 {
        lemma_value_of_bytes(value / 256, (width - 1) as nat);
        let bytes = be_bytes(value, width);
        assert(bytes.drop_last() =~= be_bytes(value / 256, (width - 1) as nat));
    }
}

/// The bytes of the number that a byte string stands for are that string.
pub proof fn lemma_bytes_of_value(bytes: Seq<u8>)
    ensures
        be_bytes(be_value(bytes), bytes.len()) == bytes,
    decreases bytes.len(),
{
    if bytes.len() > 0 {
        lemma_bytes_of_value(bytes.drop_last());
        let value = be_value(bytes);
        assert(value / 256 == be_value(bytes.drop_last()));
        assert(value % 256 == bytes.last());
        assert(be_bytes(value, bytes.len()) =~= bytes);
    }
}

/// Two byte strings of one length that differ have a first place where they
/// do.
pub proof fn lemma_first_difference(a: Seq<u8>, b: Seq<u8>) -> (i: int)
    requires
        a.len() == b.len(),
        a != b,
    ensures
        0 <= i < a.len(),
        a.take(i) == b.take(i),
        a[i] != b[i],
    decreases a.len(),
{
    if a.len() == 0 {
        assert(a =~= b);
        0
    } else if a.drop_last() == b.drop_last() {
        let i = a.len() - 1;
        if a[i] == b[i] {
            assert(a =~= a.drop_last().push(a[i]));
            assert(b =~= b.drop_last().push(b[i]));
        }
        assert(a.take(i) =~= a.drop_last());
        assert(b.take(i) =~= b.drop_last());
        i
    } else {
        let i = lemma_first_difference(a.drop_last(), b.drop_last());
        assert(a.take(i) =~= a.drop_last().take(i));
        assert(b.take(i) =~= b.drop_last().take(i));
        i
    }
}

/// Where the first `k` bytes of `a` stand for less than those of `b`, all of
/// `a` stands for less than all of `b`.
pub proof fn lemma_less_from_prefix(a: Seq<u8>, b: Seq<u8>, k: int)
    requires
        a.len() == b.len(),
        0 <= k <= a.len(),
        be_value(a.take(k)) < be_value(b.take(k)),
    ensures
        be_value(a) < be_value(b),
    decreases a.len() - k,
{
    if k < a.len() {
        assert(a.take(k + 1).drop_last() =~= a.take(k));
        assert(b.take(k + 1).drop_last() =~= b.take(k));
        lemma_less_from_prefix(a, b, k + 1);
    } else {
        assert(a.take(k) =~= a);
        assert(b.take(k) =~= b);
    }
}

/// Byte strings of one length sort as the numbers do that they stand for.
pub proof fn lemma_sorts_as_value(a: Seq<u8>, b: Seq<u8>)
    requires
        a.len() == b.len(),
    ensures
        sorts_before(a, b) <==> be_value(a) < be_value(b),
{
    if sorts_before(a, b) {
        let i = choose|i: int|
            0 <= i < a.len() && i < b.len() && a.take(i) == b.take(i) && #[trigger] a[i] < b[i];
        assert(a.take(i + 1).drop_last() =~= a.take(i));
        assert(b.take(i + 1).drop_last() =~= b.take(i));
        lemma_less_from_prefix(a, b, i + 1);
    }
    if be_value(a) < be_value(b) {
        let i = lemma_first_difference(a, b);
        if a[i] > b[i] {
            assert(a.take(i + 1).drop_last() =~= a.take(i));
            assert(b.take(i + 1).drop_last() =~= b.take(i));
            lemma_less_from_prefix(b, a, i + 1);
        }
        assert(a[i] < b[i]);
    }
}

/// The key of an order stands for the order, and every key of eight bytes is
/// the key of the order that it stands for.
pub proof fn lemma_order_key_round_trip(order: u64, key: Seq<u8>)
    ensures
        order_key(order).len() == 8,
        be_value(order_key(order)) == order,
        key.len() == 8 ==> be_value(key) <= u64::MAX && order_key(be_value(key) as u64) == key,
{
    lemma_order_fits(order);
    lemma_be_bytes_len(order as nat, 8);
    lemma_value_of_bytes(order as nat, 8);
    if key.len() == 8 {
        lemma_be_value_bound(key);
        reveal_with_fuel(pow256, 9);
        lemma_bytes_of_value(key);
    }
}

/// The keys of two orders sort as the orders do.
pub proof fn lemma_order_key_keeps_order(a: u64, b: u64)
    ensures
        a < b <==> sorts_before(order_key(a), order_key(b)),
        a == b <==> order_key(a) == order_key(b),
{
    lemma_order_key_round_trip(a, order_key(a));
    lemma_order_key_round_trip(b, order_key(b));
    lemma_sorts_as_value(order_key(a), order_key(b));
}

/// The key of `order`.
pub fn encode_order_key(order: u64) -> (key: [u8; 8])
    ensures
        key@ == order_key(order),
{
    let mut key: [u8; 8] = [0u8; 8];
    let mut rest: u64 = order;
    let mut i: usize = 8;
    proof {
        assert(key@.skip(8) =~= Seq::<u8>::empty());
        assert(order_key(order) =~= be_bytes(rest as nat, 8) + key@.skip(8));
    }
    while i > 0
        invariant
            i <= 8,
            order_key(order) == be_bytes(rest as nat, i as nat) + key@.skip(i as int),
        decreases i,
    {
        let ghost before = key@;
        i -= 1;
        key[i] = (rest % 256) as u8;
        proof {
            assert(key@.skip(i as int) =~= seq![(rest % 256) as u8] + before.skip(i + 1));
            assert(be_bytes(rest as nat, (i + 1) as nat) + before.skip(i + 1) =~= be_bytes(
                (rest / 256) as nat,
                i as nat,
            ) + key@.skip(i as int));
        }
        rest = rest / 256;
    }
    proof {
        assert(key@.skip(0) =~= key@);
        assert(be_bytes(rest as nat, 0) + key@ =~= key@);
    }
    key
}

/// The order whose key is `key`, or `None` where `key` is no key of an order:
/// where it does not have eight bytes.
pub fn decode_order_key(key: &[u8]) -> (r: Option<u64>)
    ensures
        key@.len() == 8 ==> r == Some(be_value(key@) as u64) && order_key(r->0) == key@,
        key@.len() != 8 ==> r is None,
{
    if key.len() != 8 {
        return None;
    }
    let mut value: u64 = 0;
    let mut i: usize = 0;
    proof {
        assert(key@.take(0) =~= Seq::<u8>::empty());
    }
    while i < 8
        invariant
            i <= 8,
            key@.len() == 8,
            value == be_value(key@.take(i as int)),
        decreases 8 - i,
    {
        proof {
            lemma_be_value_bound(key@.take(i as int));
            lemma_pow256_grows(i as nat, 7);
            lemma_order_fits(0);
            assert(key@.take(i + 1).drop_last() =~= key@.take(i as int));
        }
        value = value * 256 + key[i] as u64;
        i += 1;
    }
    proof {
        assert(key@.take(8) =~= key@);
        lemma_order_key_round_trip(value, key@);
    }
    Some(value)
}

} // verus!
