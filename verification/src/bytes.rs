//! Byte-level helpers shared by the container codec and the metadata grammar:
//! big-endian 32-bit fields, decimal numbers, and separator-based splitting
//! and joining of byte strings.
use vstd::prelude::*;

verus! {

/// The 32-bit value spelled by four bytes in big-endian order.
pub open spec fn be32_spec(b0: u8, b1: u8, b2: u8, b3: u8) -> u32 {
    ((b0 as u32) << 24) | ((b1 as u32) << 16) | ((b2 as u32) << 8) | (b3 as u32)
}

/// The four big-endian bytes of a 32-bit value.
pub open spec fn be32_bytes(v: u32) -> Seq<u8> {
    seq![(v >> 24) as u8, (v >> 16) as u8, (v >> 8) as u8, v as u8]
}

pub proof fn lemma_be32_of_bytes(b0: u8, b1: u8, b2: u8, b3: u8)
    ensures
        be32_bytes(be32_spec(b0, b1, b2, b3)) == seq![b0, b1, b2, b3],
{
    let v = be32_spec(b0, b1, b2, b3);
    assert((((((b0 as u32) << 24) | ((b1 as u32) << 16) | ((b2 as u32) << 8) | (b3 as u32))
        >> 24) as u8) == b0) by (bit_vector);
    assert((((((b0 as u32) << 24) | ((b1 as u32) << 16) | ((b2 as u32) << 8) | (b3 as u32))
        >> 16) as u8) == b1) by (bit_vector);
    assert((((((b0 as u32) << 24) | ((b1 as u32) << 16) | ((b2 as u32) << 8) | (b3 as u32))
        >> 8) as u8) == b2) by (bit_vector);
    assert(((((b0 as u32) << 24) | ((b1 as u32) << 16) | ((b2 as u32) << 8) | (b3 as u32)) as u8)
        == b3) by (bit_vector);
    assert(be32_bytes(v) =~= seq![b0, b1, b2, b3]);
}

pub proof fn lemma_be32_round_trip(v: u32)
    ensures
        be32_spec((v >> 24) as u8, (v >> 16) as u8, (v >> 8) as u8, v as u8) == v,
{
    assert((((((v >> 24) as u8) as u32) << 24) | ((((v >> 16) as u8) as u32) << 16)
        | ((((v >> 8) as u8) as u32) << 8) | ((v as u8) as u32)) == v) by (bit_vector);
}

/// Reads a big-endian 32-bit value out of four bytes.
pub fn be32(b0: u8, b1: u8, b2: u8, b3: u8) -> (r: u32)
    ensures
        r == be32_spec(b0, b1, b2, b3),
{
    ((b0 as u32) << 24) | ((b1 as u32) << 16) | ((b2 as u32) << 8) | (b3 as u32)
}

/// Appends the four big-endian bytes of `v` to `out`.
pub fn push_be32(out: &mut Vec<u8>, v: u32)
    ensures
        final(out)@ == old(out)@ + be32_bytes(v),
{
    out.push((v >> 24) as u8);
    out.push((v >> 16) as u8);
    out.push((v >> 8) as u8);
    out.push(v as u8);
    assert(out@ =~= old(out)@ + be32_bytes(v));
}

/// Copies `v[a..b]` into a fresh vector.
pub fn subvec(v: &Vec<u8>, a: usize, b: usize) -> (r: Vec<u8>)
    requires
        a <= b <= v@.len(),
    ensures
        r@ == v@.subrange(a as int, b as int),
{
    let mut r: Vec<u8> = Vec::new();
    let mut i: usize = a;
    while i < b
        invariant
            a <= i <= b <= v@.len(),
            r@ == v@.subrange(a as int, i as int),
        decreases b - i,
    {
        r.push(v[i]);
        i = i + 1;
        assert(r@ =~= v@.subrange(a as int, i as int));
    }
    r
}

/// Appends all of `src` to `out`.
pub fn extend_bytes(out: &mut Vec<u8>, src: &Vec<u8>)
    ensures
        final(out)@ == old(out)@ + src@,
{
    let mut i: usize = 0;
    while i < src.len()
        invariant
            i <= src@.len(),
            out@ == old(out)@ + src@.subrange(0, i as int),
        decreases src@.len() - i,
    {
        out.push(src[i]);
        i = i + 1;
        assert(out@ =~= old(out)@ + src@.subrange(0, i as int));
    }
    assert(out@ =~= old(out)@ + src@);
}

// ---------------------------------------------------------------------------
// Decimal numbers
// ---------------------------------------------------------------------------

pub open spec fn is_digit(b: u8) -> bool {
    48 <= b <= 57
}

pub open spec fn all_digits(s: Seq<u8>) -> bool {
    forall|i: int| 0 <= i < s.len() ==> is_digit(#[trigger] s[i])
}

/// The decimal digits of `n`, most significant first.
pub open spec fn dec_bytes(n: u32) -> Seq<u8>
    decreases n,
{
    if n < 10 {
        seq![(48 + n) as u8]
    } else {
        dec_bytes((n / 10) as u32).push((48 + n % 10) as u8)
    }
}

/// The numeric value of a digit string.
pub open spec fn dec_val(s: Seq<u8>) -> int
    decreases s.len(),
{
    if s.len() == 0 {
        0
    } else {
        dec_val(s.drop_last()) * 10 + (s.last() - 48)
    }
}

pub proof fn lemma_dec_bytes_digits(n: u32)
    ensures
        dec_bytes(n).len() >= 1,
        all_digits(dec_bytes(n)),
    decreases n,
{
    if n >= 10 {
        lemma_dec_bytes_digits((n / 10) as u32);
    }
}

pub proof fn lemma_dec_round_trip(n: u32)
    ensures
        dec_val(dec_bytes(n)) == n,
    decreases n,
{
    if n < 10 {
        let s = dec_bytes(n);
        assert(s =~= seq![(48 + n) as u8]);
        assert(s.drop_last() =~= Seq::<u8>::empty());
        assert(dec_val(s.drop_last()) == 0);
        assert(s.last() == (48 + n) as u8);
        assert(dec_val(s) == 0 * 10 + ((48 + n) as u8 - 48));
    } else {
        lemma_dec_round_trip((n / 10) as u32);
        let s = dec_bytes(n);
        assert(s.drop_last() =~= dec_bytes((n / 10) as u32));
        assert(s.last() == (48 + n % 10) as u8);
        assert(dec_val(s) == dec_val(s.drop_last()) * 10 + (s.last() - 48));
        assert(dec_val(s.drop_last()) == n / 10);
        assert((n / 10) * 10 + n % 10 == n) by {
            vstd::arithmetic::div_mod::lemma_fundamental_div_mod(n as int, 10);
        }
    }
}

/// Serializes `n` in decimal.
pub fn dec_of_u32(n: u32) -> (r: Vec<u8>)
    ensures
        r@ == dec_bytes(n),
{
    let mut digits: Vec<u8> = Vec::new();
    let mut m: u32 = n;
    // collect digits least significant first
    loop
        invariant_except_break
            dec_bytes(n) == dec_bytes(m) + digits@.reverse(),
        ensures
            dec_bytes(n) == digits@.reverse(),
        decreases m,
    {
        let ghost pre = digits@;
        if m < 10 {
            digits.push((48 + m) as u8);
            proof {
                assert(dec_bytes(m) =~= seq![(48 + m) as u8]);
                assert(dec_bytes(m) + pre.reverse() =~= digits@.reverse());
            }
            break;
        } else {
            digits.push((48 + m % 10) as u8);
            proof {
                assert(dec_bytes(m) + pre.reverse() =~= dec_bytes((m / 10) as u32)
                    + digits@.reverse());
            }
            m = m / 10;
        }
    }
    let mut r: Vec<u8> = Vec::new();
    let mut i: usize = digits.len();
    while i > 0
        invariant
            i <= digits@.len(),
            r@ == digits@.reverse().subrange(0, digits@.len() - i),
        decreases i,
    {
        i = i - 1;
        r.push(digits[i]);
        assert(r@ =~= digits@.reverse().subrange(0, digits@.len() - i));
    }
    assert(r@ =~= digits@.reverse());
    r
}

/// Parses a decimal digit string; `None` when `s` is empty, holds a
/// non-digit, or spells a value above `u32::MAX`.
pub fn parse_u32(s: &Vec<u8>) -> (r: Option<u32>)
    ensures
        match r {
            Some(n) => s@.len() >= 1 && all_digits(s@) && dec_val(s@) == n,
            None => s@.len() == 0 || !all_digits(s@) || dec_val(s@) > u32::MAX,
        },
{
    if s.len() == 0 {
        return None;
    }
    let mut acc: u64 = 0;
    let mut i: usize = 0;
    while i < s.len()
        invariant
            i <= s@.len(),
            acc == dec_val(s@.subrange(0, i as int)),
            acc <= u32::MAX,
            forall|j: int| 0 <= j < i ==> is_digit(#[trigger] s@[j]),
        decreases s@.len() - i,
    {
        let b = s[i];
        if b < 48 || b > 57 {
            return None;
        }
        acc = acc * 10 + ((b - 48) as u64);
        proof {
            assert(s@.subrange(0, i + 1).drop_last() =~= s@.subrange(0, i as int));
        }
        i = i + 1;
        if acc > u32::MAX as u64 {
            proof {
                if all_digits(s@) {
                    lemma_dec_val_monotone(s@, i as int);
                }
            }
            return None;
        }
    }
    proof {
        assert(s@.subrange(0, s@.len() as int) =~= s@);
    }
    Some(acc as u32)
}

/// A digit string's value never shrinks as the string grows.
proof fn lemma_dec_val_monotone(s: Seq<u8>, i: int)
    requires
        0 <= i <= s.len(),
        all_digits(s),
    ensures
        dec_val(s) >= dec_val(s.subrange(0, i)),
    decreases s.len() - i,
{
    if i < s.len() {
        lemma_dec_val_monotone(s, i + 1);
        assert(s.subrange(0, i + 1).drop_last() =~= s.subrange(0, i));
        assert(s.subrange(0, i + 1).last() == s[i]);
        assert(dec_val(s.subrange(0, i + 1)) == dec_val(s.subrange(0, i)) * 10 + (s[i] - 48));
        assert(is_digit(s[i]));
        assert(dec_val(s.subrange(0, i)) >= 0) by {
            lemma_dec_val_nonneg(s.subrange(0, i));
        }
    } else {
        assert(s.subrange(0, s.len() as int) =~= s);
    }
}

pub proof fn lemma_dec_val_nonneg(s: Seq<u8>)
    requires
        all_digits(s),
    ensures
        dec_val(s) >= 0,
    decreases s.len(),
{
    if s.len() > 0 {
        assert(all_digits(s.drop_last()));
        lemma_dec_val_nonneg(s.drop_last());
    }
}

// ---------------------------------------------------------------------------
// Splitting and joining on a separator byte
// ---------------------------------------------------------------------------

/// Index of the first occurrence of `sep` in `s`, or `s.len()`.
pub open spec fn find_byte(s: Seq<u8>, sep: u8) -> int
    decreases s.len(),
{
    if s.len() == 0 {
        0
    } else if s[0] == sep {
        0
    } else {
        1 + find_byte(s.drop_first(), sep)
    }
}

pub proof fn lemma_find_byte_props(s: Seq<u8>, sep: u8)
    ensures
        0 <= find_byte(s, sep) <= s.len(),
        find_byte(s, sep) < s.len() ==> s[find_byte(s, sep)] == sep,
        forall|j: int| 0 <= j < find_byte(s, sep) ==> s[j] != sep,
    decreases s.len(),
{
    if s.len() > 0 && s[0] != sep {
        lemma_find_byte_props(s.drop_first(), sep);
        assert forall|j: int| 0 <= j < find_byte(s, sep) implies s[j] != sep by {
            if j > 0 {
                assert(s.drop_first()[j - 1] != sep);
                assert(s[j] == s.drop_first()[j - 1]);
            }
        }
    }
}

pub proof fn lemma_find_byte_at(s: Seq<u8>, sep: u8, i: int)
    requires
        0 <= i <= s.len(),
        forall|j: int| 0 <= j < i ==> s[j] != sep,
        i == s.len() || s[i] == sep,
    ensures
        find_byte(s, sep) == i,
    decreases s.len(),
{
    if i == 0 {
    } else {
        lemma_find_byte_at(s.drop_first(), sep, i - 1);
    }
}

/// Splits `s` at every occurrence of `sep`; the result always holds at
/// least one piece, and none of the pieces contains `sep`.
pub open spec fn split_on(s: Seq<u8>, sep: u8) -> Seq<Seq<u8>>
    decreases s.len(),
{
    let i = find_byte(s, sep);
    if 0 <= i < s.len() {
        seq![s.subrange(0, i)] + split_on(s.subrange(i + 1, s.len() as int), sep)
    } else {
        seq![s]
    }
}

/// Joins pieces with `sep` between neighbours (no trailing separator).
pub open spec fn join_on(items: Seq<Seq<u8>>, sep: u8) -> Seq<u8>
    decreases items.len(),
{
    if items.len() == 0 {
        Seq::empty()
    } else if items.len() == 1 {
        items[0]
    } else {
        items[0] + seq![sep] + join_on(items.drop_first(), sep)
    }
}

pub open spec fn no_byte(s: Seq<u8>, sep: u8) -> bool {
    forall|i: int| 0 <= i < s.len() ==> s[i] != sep
}

pub open spec fn none_has_byte(items: Seq<Seq<u8>>, sep: u8) -> bool {
    forall|i: int| 0 <= i < items.len() ==> no_byte(#[trigger] items[i], sep)
}

/// Splitting undoes joining, for any non-empty piece list whose pieces are
/// free of the separator.
pub proof fn lemma_split_join(items: Seq<Seq<u8>>, sep: u8)
    requires
        items.len() >= 1,
        none_has_byte(items, sep),
    ensures
        split_on(join_on(items, sep), sep) == items,
    decreases items.len(),
{
    let s = join_on(items, sep);
    if items.len() == 1 {
        assert(no_byte(items[0], sep));
        lemma_find_byte_at(s, sep, s.len() as int);
        assert(split_on(s, sep) =~= seq![items[0]]);
        assert(split_on(s, sep) =~= items);
    } else {
        let rest = join_on(items.drop_first(), sep);
        assert(s == items[0] + seq![sep] + rest);
        let i = items[0].len() as int;
        assert(forall|j: int| 0 <= j < i ==> s[j] != sep) by {
            assert(no_byte(items[0], sep));
            assert(forall|j: int| 0 <= j < i ==> s[j] == items[0][j]);
        }
        assert(s[i] == sep);
        lemma_find_byte_at(s, sep, i);
        assert(s.subrange(0, i) =~= items[0]);
        assert(s.subrange(i + 1, s.len() as int) =~= rest);
        assert(forall|k: int| 0 <= k < items.drop_first().len()
            ==> no_byte(#[trigger] items.drop_first()[k], sep)) by {
            assert(forall|k: int| 0 <= k < items.drop_first().len()
                ==> items.drop_first()[k] == items[k + 1]);
        }
        lemma_split_join(items.drop_first(), sep);
        assert(split_on(s, sep) =~= seq![items[0]] + items.drop_first());
        assert(seq![items[0]] + items.drop_first() =~= items);
    }
}

/// Splits `v` at every occurrence of `sep`.
pub fn split_on_exec(v: &Vec<u8>, sep: u8) -> (r: Vec<Vec<u8>>)
    ensures
        r.deep_view() == split_on(v@, sep),
{
    let mut out: Vec<Vec<u8>> = Vec::new();
    proof {
        assert(v@.subrange(0, v@.len() as int) =~= v@);
        assert(out.deep_view() + split_on(v@, sep) =~= split_on(v@, sep));
    }
    let mut pos: usize = 0;
    loop
        invariant
            pos <= v@.len(),
            out.deep_view() + split_on(v@.subrange(pos as int, v@.len() as int), sep)
                == split_on(v@, sep),
        decreases v@.len() - pos + 1,
    {
        let ghost tail = v@.subrange(pos as int, v@.len() as int);
        // find the next separator
        let mut i: usize = pos;
        while i < v.len() && v[i] != sep
            invariant
                pos <= i <= v@.len(),
                forall|j: int| pos <= j < i ==> v@[j] != sep,
            decreases v@.len() - i,
        {
            i = i + 1;
        }
        proof {
            assert(forall|j: int| 0 <= j < i - pos ==> tail[j] != sep);
            assert(i < v@.len() ==> tail[i - pos] == sep);
            lemma_find_byte_at(tail, sep, i - pos);
        }
        let ghost pre = out.deep_view();
        let piece = subvec(v, pos, i);
        out.push(piece);
        proof {
            assert(out.deep_view() =~~= pre + seq![piece@]);
        }
        if i == v.len() {
            proof {
                assert(piece@ =~= tail);
                assert(split_on(tail, sep) =~= seq![tail]);
                assert(out.deep_view() =~~= split_on(v@, sep));
            }
            return out;
        }
        proof {
            assert(piece@ =~= tail.subrange(0, (i - pos) as int));
            assert(v@.subrange(i + 1, v@.len() as int)
                =~= tail.subrange(i - pos + 1, tail.len() as int));
            assert(split_on(tail, sep) =~~= seq![piece@] + split_on(
                v@.subrange(i + 1, v@.len() as int), sep));
            assert(out.deep_view() + split_on(v@.subrange(i + 1, v@.len() as int), sep)
                =~~= split_on(v@, sep));
        }
        pos = i + 1;
    }
}

/// Joins pieces with `sep` between neighbours.
pub fn join_on_exec(items: &Vec<Vec<u8>>, sep: u8) -> (r: Vec<u8>)
    ensures
        r@ == join_on(items.deep_view(), sep),
{
    let ghost dv = items.deep_view();
    let mut out: Vec<u8> = Vec::new();
    let mut i: usize = 0;
    while i < items.len()
        invariant
            i <= items@.len(),
            dv == items.deep_view(),
            dv.len() == items@.len(),
            out@ == join_on(dv.subrange(0, i as int), sep),
        decreases items@.len() - i,
    {
        if i > 0 {
            out.push(sep);
        }
        let item = &items[i];
        proof {
            assert(dv[i as int] == item@);
        }
        extend_bytes(&mut out, item);
        proof {
            lemma_join_push(dv, sep, i as int);
        }
        i = i + 1;
    }
    proof {
        assert(dv.subrange(0, dv.len() as int) =~= dv);
    }
    out
}

/// Appending one more piece to a join adds a separator (when the prefix was
/// non-empty) and the piece.
proof fn lemma_join_push(items: Seq<Seq<u8>>, sep: u8, i: int)
    requires
        0 <= i < items.len(),
    ensures
        i == 0 ==> join_on(items.subrange(0, 1), sep) == join_on(items.subrange(0, 0), sep)
            + items[0],
        i > 0 ==> join_on(items.subrange(0, i + 1), sep) == join_on(items.subrange(0, i), sep)
            + seq![sep] + items[i],
{
    if i == 0 {
        assert(join_on(items.subrange(0, 1), sep) == items.subrange(0, 1)[0]);
        assert(items.subrange(0, 1)[0] == items[0]);
        assert(join_on(items.subrange(0, 0), sep) + items[0] =~= items[0]);
    } else {
        lemma_join_snoc(items.subrange(0, i + 1), sep);
        assert(items.subrange(0, i + 1).drop_last() =~= items.subrange(0, i));
        assert(items.subrange(0, i + 1).last() == items[i]);
    }
}

/// Unfolds a join at its last piece.
proof fn lemma_join_snoc(items: Seq<Seq<u8>>, sep: u8)
    requires
        items.len() >= 2,
    ensures
        join_on(items, sep) == join_on(items.drop_last(), sep) + seq![sep] + items.last(),
    decreases items.len(),
{
    if items.len() == 2 {
        assert(items.drop_last() =~= seq![items[0]]);
        assert(join_on(items.drop_last(), sep) == items[0]);
        assert(items.drop_first() =~= seq![items[1]]);
        assert(join_on(items, sep) == items[0] + seq![sep] + items[1]);
    } else {
        lemma_join_snoc(items.drop_first(), sep);
        assert(items.drop_first().drop_last() =~= items.drop_last().drop_first());
        assert(items.drop_first().last() == items.last());
        assert(join_on(items, sep) == items[0] + seq![sep] + join_on(items.drop_first(), sep));
        assert(join_on(items.drop_last(), sep) == items.drop_last()[0] + seq![sep]
            + join_on(items.drop_last().drop_first(), sep));
        assert(items.drop_last()[0] == items[0]);
        assert(join_on(items, sep) =~= join_on(items.drop_last(), sep) + seq![sep]
            + items.last());
    }
}

/// True when `s` begins with `p`.
pub open spec fn starts_with(s: Seq<u8>, p: Seq<u8>) -> bool {
    p.len() <= s.len() && s.subrange(0, p.len() as int) == p
}

/// Tests whether `s` begins with the bytes of `p`.
pub fn starts_with_exec(s: &Vec<u8>, p: &Vec<u8>) -> (r: bool)
    ensures
        r == starts_with(s@, p@),
{
    if p.len() > s.len() {
        return false;
    }
    let mut i: usize = 0;
    while i < p.len()
        invariant
            i <= p@.len() <= s@.len(),
            forall|j: int| 0 <= j < i ==> s@[j] == p@[j],
        decreases p@.len() - i,
    {
        if s[i] != p[i] {
            assert(s@.subrange(0, p@.len() as int)[i as int] != p@[i as int]);
            return false;
        }
        i = i + 1;
    }
    assert(s@.subrange(0, p@.len() as int) =~= p@);
    true
}

/// Compares two byte vectors.
pub fn bytes_eq(a: &Vec<u8>, b: &Vec<u8>) -> (r: bool)
    ensures
        r == (a@ == b@),
{
    if a.len() != b.len() {
        return false;
    }
    let mut i: usize = 0;
    while i < a.len()
        invariant
            i <= a@.len(),
            a@.len() == b@.len(),
            forall|j: int| 0 <= j < i ==> a@[j] == b@[j],
        decreases a@.len() - i,
    {
        if a[i] != b[i] {
            return false;
        }
        i = i + 1;
    }
    proof {
        assert(a@ =~= b@);
    }
    true
}

} // verus!
