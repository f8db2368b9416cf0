//! Varints, big-endian integers and byte-string order.
use vstd::arithmetic::div_mod::lemma_div_denominator;
use vstd::arithmetic::power::{lemma_pow0, lemma_pow1, lemma_pow_positive, pow};
use vstd::prelude::*;

verus! {

/// Most bytes that a valid varint takes.
pub const MAX_VARINT_LEN: usize = 10;

// ---------------------------------------------------------------------------
// Varints (unsigned LEB128)
// ---------------------------------------------------------------------------
/// The unsigned LEB128 encoding of `n`: seven bits a byte, least significant
/// first, the high bit set on every byte but the last.
pub open spec fn varint(n: nat) -> Seq<u8>
    decreases n,
{
    if n < 128 {
        seq![n as u8]
    } else {
        seq![(n % 128 + 128) as u8] + varint(n / 128)
    }
}

/// The number that the LEB128 bytes of `s` from position `at` stand for, and
/// how many bytes they are; `None` where `s` ends before the last of them.
pub open spec fn parse_varint(s: Seq<u8>, at: int) -> Option<(nat, nat)>
    decreases s.len() - at,
{
    if at < 0 || at >= s.len() {
        None
    } else if s[at] < 128 {
        Some((s[at] as nat, 1))
    } else {
        match parse_varint(s, at + 1) {
            Some((value, len)) => Some(((s[at] - 128 + 128 * value) as nat, len + 1)),
            None => None,
        }
    }
}

/// Whether a varint starts at position `at` of `s`: complete, at most ten bytes
/// long, and no larger than a `u64`.
pub open spec fn valid_varint(s: Seq<u8>, at: int) -> bool {
    match parse_varint(s, at) {
        Some((value, len)) => value <= u64::MAX && len <= MAX_VARINT_LEN,
        None => false,
    }
}

pub proof fn lemma_varint_len(n: nat)
    ensures
        1 <= varint(n).len(),
        n <= u64::MAX ==> varint(n).len() <= MAX_VARINT_LEN,
{
    reveal_with_fuel(varint, 11);
}

/// The bytes of a varint: seven bits of the number in each, least significant first,
/// and the high bit set on every byte but the last. There are no more bytes than the
/// number needs.
pub proof fn lemma_varint_bytes(n: nat)
    ensures
        n < pow(128, varint(n).len()),
        varint(n).len() > 1 ==> pow(128, (varint(n).len() - 1) as nat) <= n,
        forall|i: int|
            0 <= i < varint(n).len() ==> #[trigger] varint(n)[i] == (n as int / pow(128, i as nat))
                % 128 + if i < varint(n).len() - 1 {
                128int
            } else {
                0
            },
    decreases n,
{
    let v = varint(n);
    lemma_pow0(128);
    if n < 128 {
        lemma_pow1(128);
    } else {
        let rest = varint(n / 128);
        lemma_varint_len(n / 128);
        lemma_varint_bytes(n / 128);
        let len = rest.len();
        assert(v.len() == len + 1);
        assert(pow(128, len + 1) == 128 * pow(128, len)) by {
            reveal(pow);
        }
        assert(pow(128, len) == 128 * pow(128, (len - 1) as nat)) by {
            reveal(pow);
        }
        if len == 1 {
            assert(pow(128, 0) == 1);
        }
        assert forall|i: int| 0 <= i < v.len() implies #[trigger] v[i] == (n as int / pow(
            128,
            i as nat,
        )) % 128 + if i < v.len() - 1 {
            128int
        } else {
            0
        } by {
            if i > 0 {
                let p = pow(128, (i - 1) as nat);
                assert(v[i] == rest[i - 1]);
                assert(rest[i - 1] == ((n / 128) as int / p) % 128 + if i - 1 < len - 1 {
                    128int
                } else {
                    0
                });
                assert(pow(128, i as nat) == 128 * p) by {
                    reveal(pow);
                }
                lemma_pow_positive(128, (i - 1) as nat);
                lemma_div_denominator(n as int, 128, p);
            } else {
                assert(v[0] == n % 128 + 128);
                assert(n as int / 1 == n);
            }
        }
    }
}

/// What a varint stands for: the low seven bits are those of its first byte, and the
/// rest is the varint behind that byte, if its high bit is set.
pub proof fn lemma_parse_varint_step(s: Seq<u8>, at: int)
    requires
        0 <= at < s.len(),
    ensures
        s[at] < 128 ==> parse_varint(s, at) == Some((s[at] as nat, 1nat)),
        s[at] >= 128 ==> match parse_varint(s, at) {
            Some((value, len)) => value % 128 == s[at] - 128 && len > 1 && parse_varint(s, at + 1)
                == Some((value / 128, (len - 1) as nat)),
            None => parse_varint(s, at + 1) is None,
        },
{
    lemma_parse_varint_bounds(s, at + 1);
}

/// A varint is valid if and only if all of it is there, it has at most ten bytes, and it
/// stands for no more than a `u64`. The varint of every `u64` is.
pub proof fn lemma_valid_varint(s: Seq<u8>, at: int)
    ensures
        valid_varint(s, at) <==> (parse_varint(s, at) matches Some((value, len)) && value
            <= 0xFFFF_FFFF_FFFF_FFFF && len <= 10),
        forall|n: u64| #[trigger] valid_varint(varint(n as nat), 0),
{
    assert forall|n: u64| #[trigger] valid_varint(varint(n as nat), 0) by {
        let v = varint(n as nat);
        lemma_varint_len(n as nat);
        assert(v.subrange(0, v.len() as int) =~= v);
        lemma_parse_varint_of_varint(v, 0, n as nat);
    }
}

/// A larger number never has a shorter varint.
pub proof fn lemma_varint_len_monotonic(a: nat, b: nat)
    requires
        a <= b,
    ensures
        varint(a).len() <= varint(b).len(),
    decreases b,
{
    if b >= 128 && a >= 128 {
        lemma_varint_len_monotonic(a / 128, b / 128);
    }
    lemma_varint_len(b / 128);
}

/// Reading a varint at a place where one was written gives the number back,
/// whatever bytes stand before and after it.
pub proof fn lemma_parse_varint_of_varint(s: Seq<u8>, at: int, n: nat)
    requires
        0 <= at,
        at + varint(n).len() <= s.len(),
        s.subrange(at, at + varint(n).len()) == varint(n),
    ensures
        parse_varint(s, at) == Some((n, varint(n).len())),
    decreases n,
{
    let v = varint(n);
    lemma_varint_len(n);
    assert(s[at] == s.subrange(at, at + v.len())[0]);
    if n >= 128 {
        let rest = varint(n / 128);
        assert(v.len() == rest.len() + 1);
        assert(s.subrange(at + 1, at + 1 + rest.len()) =~= rest) by {
            assert forall|i: int| 0 <= i < rest.len() implies s.subrange(
                at + 1,
                at + 1 + rest.len(),
            )[i] == rest[i] by {
                assert(s.subrange(at, at + v.len())[i + 1] == v[i + 1]);
            }
        }
        lemma_parse_varint_of_varint(s, at + 1, n / 128);
        assert(n % 128 + 128 * (n / 128) == n);
    }
}

/// A parsed varint lies inside the bytes that it was read from.
pub proof fn lemma_parse_varint_bounds(s: Seq<u8>, at: int)
    ensures
        parse_varint(s, at) matches Some((value, len)) ==> 0 <= at && 1 <= len && at + len
            <= s.len(),
    decreases s.len() - at,
{
    if 0 <= at < s.len() && s[at] >= 128 {
        lemma_parse_varint_bounds(s, at + 1);
    }
}

/// A varint that is read from the first bytes is read from all.
pub proof fn lemma_parse_varint_prefix(s: Seq<u8>, cut: int, at: int)
    requires
        0 <= cut <= s.len(),
    ensures
        parse_varint(s.take(cut), at) is Some ==> parse_varint(s, at) == parse_varint(
            s.take(cut),
            at,
        ),
    decreases cut - at,
{
    if 0 <= at < cut && s[at] >= 128 {
        lemma_parse_varint_prefix(s, cut, at + 1);
    }
}

/// A varint is read from the bytes that it takes.
pub proof fn lemma_parse_varint_within(s: Seq<u8>, cut: int, at: int)
    requires
        0 <= cut <= s.len(),
    ensures
        parse_varint(s, at) matches Some((value, len)) ==> at + len <= cut ==> parse_varint(
            s.take(cut),
            at,
        ) == Some((value, len)),
    decreases s.len() - at,
{
    if 0 <= at < s.len() && s[at] >= 128 {
        lemma_parse_varint_within(s, cut, at + 1);
        lemma_parse_varint_bounds(s, at + 1);
    }
}

/// No varint of a number is shorter than the one that [`varint`] gives.
pub proof fn lemma_parse_varint_minimal(s: Seq<u8>, at: int)
    ensures
        parse_varint(s, at) matches Some((value, len)) ==> varint(value).len() <= len,
    decreases s.len() - at,
{
    if 0 <= at < s.len() && s[at] >= 128 {
        lemma_parse_varint_minimal(s, at + 1);
        if let Some((value, len)) = parse_varint(s, at + 1) {
            let whole = (s[at] - 128 + 128 * value) as nat;
            assert(whole / 128 == value);
        }
    }
}

/// Encodes `value` as a varint.
pub fn encode_varint(value: usize) -> (bytes: Vec<u8>)
    ensures
        bytes@ == varint(value as nat),
        1 <= bytes@.len() <= MAX_VARINT_LEN,
{
    let mut bytes: Vec<u8> = Vec::with_capacity(MAX_VARINT_LEN);
    let mut rest: usize = value;
    while rest >= 128
        invariant
            bytes@ + varint(rest as nat) == varint(value as nat),
        decreases rest,
    {
        let ghost before = bytes@;
        bytes.push((rest % 128) as u8 + 128);
        proof {
            let low = seq![(rest as nat % 128 + 128) as u8];
            assert(varint(rest as nat) == low + varint(rest as nat / 128));
            assert(bytes@ + varint(rest as nat / 128) =~= before + (low + varint(
                rest as nat / 128,
            )));
        }
        rest = rest / 128;
    }
    let ghost before = bytes@;
    bytes.push(rest as u8);
    assert(bytes@ =~= before + varint(rest as nat));
    proof {
        lemma_varint_len(value as nat);
    }
    bytes
}

/// How many bytes the varint of `len` takes.
pub fn varint_size_from_len(len: usize) -> (size: usize)
    ensures
        size == varint(len as nat).len(),
        1 <= size <= MAX_VARINT_LEN,
{
    proof {
        lemma_varint_len(len as nat);
    }
    let mut size: usize = 1;
    let mut rest: usize = len;
    while rest >= 128
        invariant
            1 <= size,
            size + varint(rest as nat).len() == varint(len as nat).len() + 1,
            varint(len as nat).len() <= MAX_VARINT_LEN,
        decreases rest,
    {
        proof {
            lemma_varint_len(rest as nat / 128);
        }
        rest = rest / 128;
        size = size + 1;
    }
    size
}

/// Reads the varint at `offset`: its value, and the bytes that it takes; `None`
/// where no valid varint starts there.
pub fn decode_varint(buffer: &[u8], offset: usize) -> (decoded: Option<(u64, usize)>)
    ensures
        decoded is Some <==> valid_varint(buffer@, offset as int),
        decoded matches Some((value, len)) ==> {
            &&& parse_varint(buffer@, offset as int) == Some((value as nat, len as nat))
            &&& 1 <= len <= MAX_VARINT_LEN
            &&& offset + len <= buffer.len()
        },
{
    decode_varint_within(buffer, offset, MAX_VARINT_LEN)
}

/// [`decode_varint`], with `budget` in place of the ten bytes.
fn decode_varint_within(buffer: &[u8], offset: usize, budget: usize) -> (decoded: Option<
    (u64, usize),
>)
    ensures
        decoded is Some <==> (parse_varint(buffer@, offset as int) matches Some((value, len))
            && value <= u64::MAX && len <= budget),
        decoded matches Some((value, len)) ==> {
            &&& parse_varint(buffer@, offset as int) == Some((value as nat, len as nat))
            &&& 1 <= len <= budget
            &&& offset + len <= buffer.len()
        },
    decreases budget,
{
    proof {
        lemma_parse_varint_bounds(buffer@, offset as int);
    }
    if budget == 0 || offset >= buffer.len() {
        return None;
    }
    let byte: u8 = buffer[offset];
    if byte < 128 {
        return Some((byte as u64, 1));
    }
    let low: u64 = (byte - 128) as u64;
    match decode_varint_within(buffer, offset + 1, budget - 1) {
        Some((high, len)) => {
            if high <= (u64::MAX - low) / 128 {
                Some((low + 128 * high, len + 1))
            } else {
                None
            }
        },
        None => None,
    }
}

// ---------------------------------------------------------------------------
// Big-endian integers
// ---------------------------------------------------------------------------
/// The last `len` base-256 digits of `n`, most significant first.
pub open spec fn be_bytes(n: nat, len: nat) -> Seq<u8>
    decreases len,
{
    if len == 0 {
        Seq::empty()
    } else {
        be_bytes(n / 256, (len - 1) as nat).push((n % 256) as u8)
    }
}

/// The number whose base-256 digits are `s`, most significant first.
pub open spec fn be_value(s: Seq<u8>) -> nat
    decreases s.len(),
{
    if s.len() == 0 {
        0
    } else {
        be_value(s.drop_last()) * 256 + s.last() as nat
    }
}

pub proof fn lemma_be_bytes_len(n: nat, len: nat)
    ensures
        be_bytes(n, len).len() == len,
    decreases len,
{
    if len > 0 {
        lemma_be_bytes_len(n / 256, (len - 1) as nat);
    }
}

/// The more significant bytes of a number come first, and each byte weighs 256 times
/// the one behind it.
pub proof fn lemma_be_value_concat(front: Seq<u8>, back: Seq<u8>)
    ensures
        be_value(front + back) == be_value(front) * pow(256, back.len()) + be_value(back),
        front.len() == 1 ==> be_value(front) == front[0],
    decreases back.len(),
{
    if front.len() == 1 {
        assert(front.drop_last() =~= Seq::<u8>::empty());
        assert(be_value(front.drop_last()) == 0);
    }
    if back.len() == 0 {
        assert(front + back =~= front);
        lemma_pow0(256);
    } else {
        let rest = back.drop_last();
        assert((front + back).drop_last() =~= front + rest);
        lemma_be_value_concat(front, rest);
        let f = be_value(front) as int;
        let p = pow(256, rest.len());
        assert(pow(256, back.len()) == 256 * p) by {
            reveal(pow);
        }
        assert((f * p) * 256 == f * (256 * p)) by (nonlinear_arith);
    }
}

/// Bytes stand for a number below the power of 256 that they are many.
pub proof fn lemma_be_value_bound(s: Seq<u8>)
    ensures
        be_value(s) < pow(256, s.len()),
        s.len() == 8 ==> be_value(s) <= u64::MAX,
    decreases s.len(),
{
    if s.len() == 0 {
        lemma_pow0(256);
    } else {
        lemma_be_value_bound(s.drop_last());
        assert(pow(256, s.len()) == 256 * pow(256, (s.len() - 1) as nat)) by {
            reveal(pow);
        }
    }
    if s.len() == 8 {
        assert(pow(256, 8) == 0x1_0000_0000_0000_0000) by {
            reveal_with_fuel(pow, 9);
        }
    }
}

/// Two big-endian bytes: the first weighs 256 times the second.
pub proof fn lemma_be_value_of_two(high: u8, low: u8)
    ensures
        be_value(seq![high, low]) == 256 * high + low,
{
    lemma_be_value_concat(seq![high], seq![low]);
    lemma_be_value_concat(seq![low], Seq::empty());
    assert(seq![high] + seq![low] =~= seq![high, low]);
    lemma_pow1(256);
}

/// The value of the digits of `n` is `n`, where the digits are enough to hold it.
pub proof fn lemma_be_value_of_be_bytes(n: nat, len: nat)
    requires
        n < vstd::arithmetic::power::pow(256, len),
    ensures
        be_value(be_bytes(n, len)) == n,
    decreases len,
{
    reveal(vstd::arithmetic::power::pow);
    if len > 0 {
        let rest = (len - 1) as nat;
        assert(n / 256 < vstd::arithmetic::power::pow(256, rest)) by (nonlinear_arith)
            requires
                n < 256 * vstd::arithmetic::power::pow(256, rest),
        ;
        lemma_be_value_of_be_bytes(n / 256, rest);
        assert(be_bytes(n, len).drop_last() =~= be_bytes(n / 256, rest));
    }
}

pub proof fn lemma_be_value_of_u64(n: u64)
    ensures
        be_value(be_bytes(n as nat, 8)) == n,
        be_bytes(n as nat, 8).len() == 8,
{
    assert(vstd::arithmetic::power::pow(256, 8) == 0x1_0000_0000_0000_0000) by {
        reveal_with_fuel(vstd::arithmetic::power::pow, 9);
    }
    lemma_be_value_of_be_bytes(n as nat, 8);
    lemma_be_bytes_len(n as nat, 8);
}

pub proof fn lemma_be_value_of_u32(n: u32)
    ensures
        be_value(be_bytes(n as nat, 4)) == n,
        be_bytes(n as nat, 4).len() == 4,
{
    assert(vstd::arithmetic::power::pow(256, 4) == 0x1_0000_0000) by {
        reveal_with_fuel(vstd::arithmetic::power::pow, 5);
    }
    lemma_be_value_of_be_bytes(n as nat, 4);
    lemma_be_bytes_len(n as nat, 4);
}

/// The big-endian number in the eight bytes from `offset` on.
pub fn get_be_u64(buffer: &[u8], offset: usize) -> (value: u64)
    requires
        offset + 8 <= buffer.len(),
    ensures
        value == be_value(buffer@.subrange(offset as int, offset + 8)),
{
    let high: u32 = get_be_u32(buffer, offset);
    let low: u32 = get_be_u32(buffer, offset + 4);
    proof {
        let s = buffer@.subrange(offset as int, offset + 8);
        let h = buffer@.subrange(offset as int, offset + 4);
        let l = buffer@.subrange(offset + 4, offset + 8);
        reveal_with_fuel(be_value, 5);
        assert(s.drop_last().drop_last().drop_last().drop_last() =~= h);
        assert(s.drop_last().drop_last().drop_last().last() == l[0]);
        assert(s.drop_last().drop_last().last() == l[1]);
        assert(s.drop_last().last() == l[2]);
        assert(s.last() == l[3]);
    }
    high as u64 * 0x1_0000_0000 + low as u64
}

/// The big-endian number in the four bytes from `offset` on.
pub fn get_be_u32(buffer: &[u8], offset: usize) -> (value: u32)
    requires
        offset + 4 <= buffer.len(),
    ensures
        value == be_value(buffer@.subrange(offset as int, offset + 4)),
{
    let high: u16 = get_be_u16(buffer, offset);
    let low: u16 = get_be_u16(buffer, offset + 2);
    proof {
        let s = buffer@.subrange(offset as int, offset + 4);
        let h = buffer@.subrange(offset as int, offset + 2);
        let l = buffer@.subrange(offset + 2, offset + 4);
        reveal_with_fuel(be_value, 3);
        assert(s.drop_last().drop_last() =~= h);
        assert(s.drop_last().last() == l[0]);
        assert(s.last() == l[1]);
    }
    high as u32 * 0x1_0000 + low as u32
}

/// The big-endian number in the two bytes from `offset` on.
pub fn get_be_u16(buffer: &[u8], offset: usize) -> (value: u16)
    requires
        offset + 2 <= buffer.len(),
    ensures
        value == be_value(buffer@.subrange(offset as int, offset + 2)),
{
    proof {
        let s = buffer@.subrange(offset as int, offset + 2);
        reveal_with_fuel(be_value, 3);
        assert(s.drop_last().last() == s[0]);
        assert(s.last() == s[1]);
    }
    buffer[offset] as u16 * 256 + buffer[offset + 1] as u16
}

// ---------------------------------------------------------------------------
// Buffers
// ---------------------------------------------------------------------------
/// `buffer` with `bytes` in place of what stood at `offset` and after.
#[verifier::opaque]
pub open spec fn overwritten(buffer: Seq<u8>, offset: int, bytes: Seq<u8>) -> Seq<u8> {
    buffer.subrange(0, offset) + bytes + buffer.subrange(
        offset + bytes.len(),
        buffer.len() as int,
    )
}

/// Copies `bytes` into `buffer` at `offset`.
pub fn write_at(buffer: &mut Vec<u8>, offset: usize, bytes: &[u8])
    requires
        offset + bytes@.len() <= old(buffer).len(),
    ensures
        final(buffer)@.len() == old(buffer)@.len(),
        final(buffer)@ == overwritten(old(buffer)@, offset as int, bytes@),
{
    reveal(overwritten);
    let mut i: usize = 0;
    while i < bytes.len()
        invariant
            i <= bytes@.len(),
            offset + bytes@.len() <= buffer.len() == old(buffer)@.len(),
            buffer@ =~= overwritten(old(buffer)@, offset as int, bytes@.take(i as int)),
        decreases bytes@.len() - i,
    {
        reveal(overwritten);
        buffer[offset + i] = bytes[i];
        i = i + 1;
    }
    assert(bytes@.take(i as int) =~= bytes@);
}

/// Appends the last `len` base-256 digits of `value`, most significant first.
pub fn push_be(buffer: &mut Vec<u8>, value: u64, len: usize)
    ensures
        final(buffer)@ == old(buffer)@ + be_bytes(value as nat, len as nat),
    decreases len,
{
    if len > 0 {
        push_be(buffer, value / 256, len - 1);
        buffer.push((value % 256) as u8);
    }
    assert(buffer@ =~= old(buffer)@ + be_bytes(value as nat, len as nat));
}

// ---------------------------------------------------------------------------
// The order of keys
// ---------------------------------------------------------------------------
/// How one key stands to another in byte-wise lexicographic order.
#[derive(Clone, Copy, Debug, PartialEq, Eq, Structural)]
pub enum KeyOrder {
    Less,
    Equal,
    Greater,
}

/// Byte-wise lexicographic order: `a` comes before `b`.
pub open spec fn bytes_lt(a: Seq<u8>, b: Seq<u8>) -> bool
    decreases b.len(),
{
    if b.len() == 0 {
        false
    } else if a.len() == 0 {
        true
    } else if a[0] != b[0] {
        a[0] < b[0]
    } else {
        bytes_lt(a.skip(1), b.skip(1))
    }
}

/// How `a` stands to `b`.
pub open spec fn order_of(a: Seq<u8>, b: Seq<u8>) -> KeyOrder {
    if a == b {
        KeyOrder::Equal
    } else if bytes_lt(a, b) {
        KeyOrder::Less
    } else {
        KeyOrder::Greater
    }
}

/// Of two keys, one comes first or they are equal, and never two of these at once.
pub proof fn lemma_bytes_lt_total(a: Seq<u8>, b: Seq<u8>)
    ensures
        bytes_lt(a, b) || a == b || bytes_lt(b, a),
        !(bytes_lt(a, b) && bytes_lt(b, a)),
        a == b ==> !bytes_lt(a, b),
    decreases a.len(),
{
    if a.len() > 0 && b.len() > 0 && a[0] == b[0] {
        lemma_bytes_lt_total(a.skip(1), b.skip(1));
        if a.skip(1) == b.skip(1) {
            assert(a =~= seq![a[0]] + a.skip(1));
            assert(b =~= seq![b[0]] + b.skip(1));
        }
    } else if a.len() == 0 && b.len() == 0 {
        assert(a =~= b);
    }
}

pub proof fn lemma_bytes_lt_transitive(a: Seq<u8>, b: Seq<u8>, c: Seq<u8>)
    requires
        bytes_lt(a, b),
        bytes_lt(b, c),
    ensures
        bytes_lt(a, c),
    decreases a.len(),
{
    if a.len() > 0 && a[0] == b[0] && b[0] == c[0] {
        lemma_bytes_lt_transitive(a.skip(1), b.skip(1), c.skip(1));
    }
}

/// Two keys that agree before position `i` compare as what they hold from there.
pub proof fn lemma_bytes_lt_from(a: Seq<u8>, b: Seq<u8>, i: int)
    requires
        0 <= i <= a.len(),
        i <= b.len(),
        a.take(i) == b.take(i),
    ensures
        bytes_lt(a, b) == bytes_lt(a.skip(i), b.skip(i)),
    decreases i,
{
    if i == 0 {
        assert(a.skip(0) =~= a);
        assert(b.skip(0) =~= b);
    } else {
        assert(a[0] == a.take(i)[0]);
        assert(b[0] == b.take(i)[0]);
        assert(a.skip(1).take(i - 1) =~= a.take(i).skip(1));
        assert(b.skip(1).take(i - 1) =~= b.take(i).skip(1));
        lemma_bytes_lt_from(a.skip(1), b.skip(1), i - 1);
        assert(a.skip(1).skip(i - 1) =~= a.skip(i));
        assert(b.skip(1).skip(i - 1) =~= b.skip(i));
    }
}

/// `a` ends at position `i` where `b` goes on, or has the smaller byte there.
pub open spec fn before_at(a: Seq<u8>, b: Seq<u8>, i: int) -> bool {
    0 <= i < b.len() && (i == a.len() || i < a.len() && a[i] < b[i])
}

/// One key comes before another if and only if they agree up to some position, and there
/// it ends or has the smaller byte.
pub proof fn lemma_bytes_lt_first_difference(a: Seq<u8>, b: Seq<u8>)
    ensures
        bytes_lt(a, b) <==> exists|i: int| #[trigger] before_at(a, b, i) && a.take(i) == b.take(i),
    decreases a.len(),
{
    if bytes_lt(a, b) {
        if a.len() == 0 || a[0] != b[0] {
            assert(before_at(a, b, 0));
            assert(a.take(0) =~= b.take(0));
        } else {
            lemma_bytes_lt_first_difference(a.skip(1), b.skip(1));
            let i = choose|i: int| #[trigger]
                before_at(a.skip(1), b.skip(1), i) && a.skip(1).take(i) == b.skip(1).take(i);
            assert(before_at(a, b, i + 1));
            assert(a.take(i + 1) =~= seq![a[0]] + a.skip(1).take(i));
            assert(b.take(i + 1) =~= seq![b[0]] + b.skip(1).take(i));
        }
    }
    if exists|i: int| #[trigger] before_at(a, b, i) && a.take(i) == b.take(i) {
        let i = choose|i: int| #[trigger] before_at(a, b, i) && a.take(i) == b.take(i);
        lemma_bytes_lt_from(a, b, i);
        if i < a.len() {
            assert(a.skip(i)[0] == a[i]);
        }
        assert(b.skip(i)[0] == b[i]);
    }
}

/// Compares two keys.
pub fn key_order(a: &[u8], b: &[u8]) -> (order: KeyOrder)
    ensures
        order == order_of(a@, b@),
        order is Equal <==> a@ == b@,
        order is Less <==> bytes_lt(a@, b@),
        order is Greater <==> bytes_lt(b@, a@),
{
    proof {
        lemma_bytes_lt_total(a@, b@);
    }
    let mut i: usize = 0;
    while i < a.len() && i < b.len() && a[i] == b[i]
        invariant
            i <= a@.len(),
            i <= b@.len(),
            a@.take(i as int) == b@.take(i as int),
        decreases a@.len() - i,
    {
        proof {
            assert(a@.take(i + 1) =~= a@.take(i as int).push(a@[i as int]));
            assert(b@.take(i + 1) =~= b@.take(i as int).push(b@[i as int]));
        }
        i = i + 1;
    }
    proof {
        lemma_bytes_lt_from(a@, b@, i as int);
        if i == a@.len() && i == b@.len() {
            assert(a@.take(i as int) =~= a@);
            assert(b@.take(i as int) =~= b@);
        }
    }
    if i < b.len() {
        if i == a.len() || a[i] < b[i] {
            proof {
                lemma_bytes_lt_total(a@, b@);
            }
            KeyOrder::Less
        } else {
            KeyOrder::Greater
        }
    } else if i < a.len() {
        KeyOrder::Greater
    } else {
        KeyOrder::Equal
    }
}

/// A number, or the largest number where it is larger.
pub open spec fn capped(n: nat) -> usize {
    if n <= usize::MAX {
        n as usize
    } else {
        usize::MAX
    }
}

/// The digits of the number that bytes stand for are these bytes.
pub proof fn lemma_be_bytes_of_be_value(s: Seq<u8>)
    ensures
        be_bytes(be_value(s), s.len()) == s,
    decreases s.len(),
{
    if s.len() == 0 {
        assert(be_bytes(be_value(s), 0) =~= s);
    } else {
        lemma_be_bytes_of_be_value(s.drop_last());
        assert(be_value(s) / 256 == be_value(s.drop_last()));
        assert(be_value(s) % 256 == s.last());
        assert(be_bytes(be_value(s), s.len()) =~= s);
    }
}

} // verus!
