//! Distinguished Encoding Rules: the octets of a value with its tag and
//! definite, minimal length.
use vstd::prelude::*;

verus! {

/// The minimal big-endian octets of a number (one octet for zero).
pub open spec fn be_bytes(n: nat) -> Seq<u8>
    decreases n,
{
    if n < 256 {
        seq![n as u8]
    } else {
        be_bytes(n / 256).push((n % 256) as u8)
    }
}

/// The number that big-endian octets stand for.
pub open spec fn be_value(s: Seq<u8>) -> nat
    decreases s.len(),
{
    if s.len() == 0 {
        0
    } else {
        be_value(s.drop_last()) * 256 + s.last() as nat
    }
}

/// 256 to the power `k`.
pub open spec fn pow256(k: nat) -> nat
    decreases k,
{
    if k == 0 {
        1
    } else {
        256 * pow256((k - 1) as nat)
    }
}

/// The DER length octets of a content length.
pub open spec fn len_octets(n: nat) -> Seq<u8> {
    if n < 128 {
        seq![n as u8]
    } else {
        seq![(128 + be_bytes(n).len()) as u8] + be_bytes(n)
    }
}

/// A value with a single-octet tag.
pub open spec fn tlv(tag: u8, content: Seq<u8>) -> Seq<u8> {
    seq![tag] + len_octets(content.len()) + content
}

/// `s` stands in `b` at `pos` and ends at or before `end`.
pub open spec fn at_within(b: Seq<u8>, pos: int, end: int, s: Seq<u8>) -> bool {
    &&& 0 <= pos
    &&& pos + s.len() <= end
    &&& end <= b.len()
    &&& b.subrange(pos, pos + s.len()) == s
}

/// The content octets of a non-negative INTEGER.
pub open spec fn uint_content(n: nat) -> Seq<u8> {
    if be_bytes(n)[0] >= 128 {
        seq![0u8] + be_bytes(n)
    } else {
        be_bytes(n)
    }
}

/// The single-octet tags that the Erik objects use.
pub const TAG_INTEGER: u8 = 0x02;
pub const TAG_OCTET_STRING: u8 = 0x04;
pub const TAG_OID: u8 = 0x06;
pub const TAG_IA5_STRING: u8 = 0x16;
pub const TAG_GENERALIZED_TIME: u8 = 0x18;
pub const TAG_SEQUENCE: u8 = 0x30;
pub const TAG_CTX_0_CONSTRUCTED: u8 = 0xa0;
pub const TAG_CTX_6: u8 = 0x86;

/// Minimal octets are at least one octet, and start with a non-zero octet
/// unless the number is zero.
pub proof fn lemma_be_bytes_len(n: nat)
    ensures
        be_bytes(n).len() >= 1,
        n > 0 ==> be_bytes(n)[0] != 0,
        n < 256 ==> be_bytes(n).len() == 1,
        n >= 256 ==> be_bytes(n).len() >= 2,
    decreases n,
{
    if n >= 256 {
        lemma_be_bytes_len(n / 256);
    }
}

/// A number below 256^k takes at most `k` octets.
pub proof fn lemma_be_bytes_bound(n: nat, k: nat)
    requires
        k >= 1,
        n < pow256(k),
    ensures
        be_bytes(n).len() <= k,
    decreases n,
{
    if n >= 256 {
        assert(k >= 2) by {
            if k == 1 {
                assert(pow256(1) == 256 * pow256(0));
            }
        }
        assert(pow256(k) == 256 * pow256((k - 1) as nat));
        assert(n / 256 < pow256((k - 1) as nat)) by (nonlinear_arith)
            requires n < 256 * pow256((k - 1) as nat);
        lemma_be_bytes_bound(n / 256, (k - 1) as nat);
    }
}

/// Reading the minimal octets of a number gives the number back.
pub proof fn lemma_be_value_of_bytes(n: nat)
    ensures
        be_value(be_bytes(n)) == n,
    decreases n,
{
    if n < 256 {
        let s = be_bytes(n);
        assert(s.drop_last() =~= Seq::<u8>::empty());
        assert(be_value(s.drop_last()) == 0);
    } else {
        lemma_be_value_of_bytes(n / 256);
        let s = be_bytes(n);
        assert(s.drop_last() =~= be_bytes(n / 256));
        assert(s.last() as nat == n % 256);
        assert((n / 256) * 256 + n % 256 == n) by (nonlinear_arith);
    }
}

/// Octets that start with a non-zero octet stand for at least
/// 256^(len - 1).
pub proof fn lemma_be_value_positive(s: Seq<u8>)
    requires
        s.len() >= 1,
        s[0] != 0,
    ensures
        be_value(s) >= pow256((s.len() - 1) as nat),
    decreases s.len(),
{
    if s.len() == 1 {
        assert(s.drop_last() =~= Seq::<u8>::empty());
    } else {
        lemma_be_value_positive(s.drop_last());
        let a = be_value(s.drop_last());
        let p = pow256((s.len() - 2) as nat);
        assert(pow256((s.len() - 1) as nat) == 256 * p);
        assert(a * 256 + s.last() as nat >= 256 * p) by (nonlinear_arith)
            requires a >= p;
    }
}

/// `k` octets stand for a number below 256^k.
pub proof fn lemma_be_value_bound(s: Seq<u8>)
    ensures
        be_value(s) < pow256(s.len()),
    decreases s.len(),
{
    if s.len() > 0 {
        lemma_be_value_bound(s.drop_last());
        let a = be_value(s.drop_last());
        let p = pow256((s.len() - 1) as nat);
        let x = s.last() as nat;
        assert(a * 256 + x < 256 * p) by (nonlinear_arith)
            requires a < p, x < 256;
    }
}

/// Octets without a leading zero are the minimal octets of their number.
pub proof fn lemma_be_bytes_of_value(s: Seq<u8>)
    requires
        s.len() >= 1,
        s[0] != 0 || s.len() == 1,
    ensures
        be_bytes(be_value(s)) == s,
    decreases s.len(),
{
    if s.len() == 1 {
        assert(s.drop_last() =~= Seq::<u8>::empty());
        assert(be_value(s.drop_last()) == 0);
        assert(be_value(s) == s[0] as nat);
        assert(be_bytes(be_value(s)) =~= s);
    } else {
        let t = s.drop_last();
        lemma_be_bytes_of_value(t);
        lemma_be_value_positive(t);
        assert(pow256((t.len() - 1) as nat) >= 1) by {
            lemma_pow256_positive((t.len() - 1) as nat);
        }
        let a = be_value(t);
        let x = s.last() as nat;
        let v = a * 256 + x;
        assert(v >= 256 && v / 256 == a && v % 256 == x) by (nonlinear_arith)
            requires a >= 1, x < 256, v == a * 256 + x;
        assert(be_bytes(v) =~= s);
    }
}

/// Powers of 256 are positive.
pub proof fn lemma_pow256_positive(k: nat)
    ensures
        pow256(k) >= 1,
    decreases k,
{
    if k > 0 {
        lemma_pow256_positive((k - 1) as nat);
    }
}

/// A `usize` fits in eight octets.
pub proof fn lemma_usize_below_pow8()
    ensures
        usize::MAX < pow256(8),
{
    reveal_with_fuel(pow256, 9);
    assert(pow256(8) == 0x1_0000_0000_0000_0000);
}

/// The length octets of a `usize` length take one to nine octets.
pub proof fn lemma_len_octets_len(n: nat)
    requires
        n <= usize::MAX,
    ensures
        1 <= len_octets(n).len() <= 9,
{
    lemma_be_bytes_len(n);
    lemma_usize_below_pow8();
    lemma_be_bytes_bound(n, 8);
}

/// Appends the minimal big-endian octets of `n`.
pub fn push_be(out: &mut Vec<u8>, n: usize)
    ensures
        final(out)@ == old(out)@ + be_bytes(n as nat),
    decreases n,
{
    if n < 256 {
        out.push(n as u8);
        assert(final(out)@ =~= old(out)@ + be_bytes(n as nat));
    } else {
        push_be(out, n / 256);
        out.push((n % 256) as u8);
        assert(final(out)@ =~= old(out)@ + be_bytes(n as nat));
    }
}

/// Appends the length octets of a content of `n` octets.
pub fn push_len(out: &mut Vec<u8>, n: usize)
    ensures
        final(out)@ == old(out)@ + len_octets(n as nat),
{
    if n < 128 {
        out.push(n as u8);
        assert(final(out)@ =~= old(out)@ + len_octets(n as nat));
    } else {
        let mut digits: Vec<u8> = Vec::new();
        push_be(&mut digits, n);
        proof {
            lemma_len_octets_len(n as nat);
            lemma_be_bytes_len(n as nat);
        }
        out.push((128 + digits.len()) as u8);
        let mut i: usize = 0;
        while i < digits.len()
            invariant
                i <= digits@.len(),
                digits@ == be_bytes(n as nat),
                n >= 128,
                out@ == old(out)@ + seq![(128 + digits@.len()) as u8] + digits@.subrange(0, i as int),
            decreases digits@.len() - i,
        {
            out.push(digits[i]);
            i = i + 1;
            assert(out@ =~= old(out)@ + seq![(128 + digits@.len()) as u8] + digits@.subrange(0, i as int));
        }
        assert(digits@.subrange(0, digits@.len() as int) =~= digits@);
        assert(final(out)@ =~= old(out)@ + len_octets(n as nat));
    }
}

/// Appends a value with tag `tag` and content `content`.
pub fn push_tlv(out: &mut Vec<u8>, tag: u8, content: &[u8])
    ensures
        final(out)@ == old(out)@ + tlv(tag, content@),
{
    out.push(tag);
    push_len(out, content.len());
    let mut i: usize = 0;
    let ghost mid = out@;
    while i < content.len()
        invariant
            i <= content@.len(),
            mid == old(out)@ + seq![tag] + len_octets(content@.len()),
            out@ == mid + content@.subrange(0, i as int),
        decreases content@.len() - i,
    {
        out.push(content[i]);
        i = i + 1;
        assert(out@ =~= mid + content@.subrange(0, i as int));
    }
    assert(content@.subrange(0, content@.len() as int) =~= content@);
    assert(final(out)@ =~= old(out)@ + tlv(tag, content@));
}

proof fn lemma_len_octets_shape(n: nat)
    requires
        n <= usize::MAX,
    ensures
        n < 128 ==> len_octets(n) == seq![n as u8],
        n >= 128 ==> {
            let k = be_bytes(n).len();
            &&& 1 <= k <= 8
            &&& len_octets(n).len() == 1 + k
            &&& len_octets(n)[0] == 128 + k
            &&& be_bytes(n)[0] != 0
            &&& len_octets(n).subrange(1, 1 + k as int) == be_bytes(n)
        },
{
    lemma_len_octets_len(n);
    lemma_be_bytes_len(n);
    if n >= 128 {
        let k = be_bytes(n).len();
        assert(len_octets(n).subrange(1, 1 + k as int) =~= be_bytes(n));
    }
}

proof fn lemma_at_within_index(b: Seq<u8>, pos: int, end: int, s: Seq<u8>, k: int)
    requires
        at_within(b, pos, end, s),
        0 <= k < s.len(),
    ensures
        b[pos + k] == s[k],
{
    assert(b.subrange(pos, pos + s.len())[k] == b[pos + k]);
}

proof fn lemma_at_within_sub(b: Seq<u8>, pos: int, end: int, s: Seq<u8>, x: int, y: int)
    requires
        at_within(b, pos, end, s),
        0 <= x <= y <= s.len(),
    ensures
        b.subrange(pos + x, pos + y) == s.subrange(x, y),
{
    assert(b.subrange(pos + x, pos + y) =~= b.subrange(pos, pos + s.len()).subrange(x, y));
}

/// Reads `k` octets at `i` as a big-endian number.
fn read_be(b: &[u8], i: usize, k: usize) -> (v: u128)
    requires
        1 <= k <= 8,
        i + k <= b@.len(),
    ensures
        v as nat == be_value(b@.subrange(i as int, i + k)),
{
    let ghost digits = b@.subrange(i as int, i + k);
    let _blen = b.len();
    let mut v: u128 = 0;
    let mut j: usize = 0;
    proof {
        reveal_with_fuel(pow256, 9);
    }
    while j < k
        invariant
            1 <= k <= 8,
            i + k <= b@.len(),
            b@.len() == _blen,
            digits == b@.subrange(i as int, i + k),
            j <= k,
            v as nat == be_value(digits.subrange(0, j as int)),
            v < pow256(j as nat),
            pow256(8) == 0x1_0000_0000_0000_0000,
        decreases k - j,
    {
        proof {
            let s = digits.subrange(0, j + 1);
            assert(s.drop_last() =~= digits.subrange(0, j as int));
            assert(pow256((j + 1) as nat) == 256 * pow256(j as nat));
            lemma_pow_mono(j as nat + 1, 8);
        }
        assert(i + j < b@.len());
        let x = b[i + j];
        assert(v * 256 + x < 256 * pow256(j as nat)) by (nonlinear_arith)
            requires v < pow256(j as nat), x < 256;
        v = v * 256 + x as u128;
        j = j + 1;
    }
    assert(digits.subrange(0, k as int) =~= digits);
    v
}

/// Reads the length octets at `i`, before `end`: the length and the position
/// after the length octets.
pub fn parse_len(b: &[u8], i: usize, end: usize) -> (r: Option<(usize, usize)>)
    requires
        i <= end <= b@.len(),
    ensures
        r matches Some((n, j)) ==> i < j <= end && b@.subrange(i as int, j as int) == len_octets(
            n as nat,
        ),
        forall|n: nat|
            n <= usize::MAX && #[trigger] at_within(b@, i as int, end as int, len_octets(n)) ==> r
                == Some((n as usize, (i + len_octets(n).len()) as usize)),
{
    if i >= end {
        proof {
            assert forall|n: nat| n <= usize::MAX implies !#[trigger] at_within(b@, i as int, end as int, len_octets(n)) by {
                lemma_len_octets_len(n);
            }
        }
        return None;
    }
    let first = b[i];
    if first < 128 {
        proof {
            assert(b@.subrange(i as int, i + 1) =~= len_octets(first as nat));
            assert forall|n: nat| n <= usize::MAX && #[trigger] at_within(b@, i as int, end as int, len_octets(n))
                implies n == first as nat by {
                lemma_len_octets_shape(n);
                lemma_at_within_index(b@, i as int, end as int, len_octets(n), 0);
            }
        }
        return Some((first as usize, i + 1));
    }
    if first == 128 || first > 136 || (first - 128) as usize > end - i - 1 {
        proof {
            assert forall|n: nat| n <= usize::MAX implies !#[trigger] at_within(b@, i as int, end as int, len_octets(n)) by {
                lemma_len_octets_shape(n);
                if at_within(b@, i as int, end as int, len_octets(n)) {
                    lemma_at_within_index(b@, i as int, end as int, len_octets(n), 0);
                }
            }
        }
        return None;
    }
    let k: usize = (first - 128) as usize;
    let ghost digits = b@.subrange(i + 1, i + 1 + k);
    let v = read_be(b, i + 1, k);
    let ok = b[i + 1] != 0 && v >= 128 && v <= usize::MAX as u128;
    proof {
        assert forall|n: nat| n <= usize::MAX && #[trigger] at_within(b@, i as int, end as int, len_octets(n))
            implies ok && v as nat == n by {
            lemma_len_octets_shape(n);
            lemma_at_within_index(b@, i as int, end as int, len_octets(n), 0);
            assert(n >= 128);
            lemma_at_within_sub(b@, i as int, end as int, len_octets(n), 1, 1 + k as int);
            assert(be_bytes(n) == digits);
            lemma_be_value_of_bytes(n);
            assert(be_bytes(n)[0] == digits[0]);
        }
    }
    if !ok {
        return None;
    }
    proof {
        lemma_be_bytes_of_value(digits);
        lemma_be_bytes_len(v as nat);
        assert(b@.subrange(i as int, i + 1 + k) =~= len_octets(v as nat));
    }
    Some((v as usize, i + 1 + k))
}

proof fn lemma_pow_mono(a: nat, b: nat)
    requires
        a <= b,
    ensures
        pow256(a) <= pow256(b),
    decreases b,
{
    if a < b {
        lemma_pow_mono(a, (b - 1) as nat);
        lemma_pow256_positive((b - 1) as nat);
    }
}

/// Reads the value at `pos`, which must end at or before `end`: its tag and
/// the bounds of its content.
pub fn parse_tlv(b: &[u8], pos: usize, end: usize) -> (r: Option<(u8, usize, usize)>)
    requires
        pos <= end <= b@.len(),
    ensures
        r matches Some((t, s, e)) ==> pos < s <= e <= end && b@.subrange(pos as int, e as int) == tlv(
            t,
            b@.subrange(s as int, e as int),
        ),
        forall|t: u8, c: Seq<u8>| #[trigger]
            at_within(b@, pos as int, end as int, tlv(t, c)) ==> r == Some(
                (t, (pos + 1 + len_octets(c.len()).len()) as usize, (pos + tlv(t, c).len()) as usize),
            ) && b@.subrange(pos + 1 + len_octets(c.len()).len(), pos + tlv(t, c).len()) == c,
{
    if pos >= end {
        proof {
            assert forall|t: u8, c: Seq<u8>| !#[trigger] at_within(b@, pos as int, end as int, tlv(t, c)) by {
                assert(tlv(t, c).len() >= 1);
            }
        }
        return None;
    }
    let tag = b[pos];
    let lr = parse_len(b, pos + 1, end);
    proof {
        assert forall|t: u8, c: Seq<u8>| #[trigger] at_within(b@, pos as int, end as int, tlv(t, c))
            implies t == tag && c.len() <= usize::MAX && at_within(b@, pos + 1, end as int, len_octets(c.len()))
            && b@.subrange(pos + 1 + len_octets(c.len()).len(), pos + tlv(t, c).len()) == c by {
            let w = b@.subrange(pos as int, pos + tlv(t, c).len());
            assert(w[0] == tag);
            let lo = len_octets(c.len());
            assert(b@.subrange(pos + 1, pos + 1 + lo.len()) =~= w.subrange(1, 1 + lo.len() as int));
            assert(w.subrange(1, 1 + lo.len() as int) =~= lo);
            assert(b@.subrange(pos + 1 + lo.len(), pos + tlv(t, c).len()) =~= w.subrange(1 + lo.len() as int, w.len() as int));
            assert(w.subrange(1 + lo.len() as int, w.len() as int) =~= c);
        }
    }
    match lr {
        None => {
            return None;
        },
        Some((n, j)) => {
            if n > end - j {
                proof {
                    assert forall|t: u8, c: Seq<u8>| !#[trigger] at_within(b@, pos as int, end as int, tlv(t, c)) by {
                        if at_within(b@, pos as int, end as int, tlv(t, c)) {
                            assert(at_within(b@, pos + 1, end as int, len_octets(c.len())));
                        }
                    }
                }
                return None;
            }
            proof {
                assert(b@.subrange(pos as int, (j + n) as int) =~= tlv(tag, b@.subrange(j as int, (j + n) as int)));
                assert forall|t: u8, c: Seq<u8>| #[trigger] at_within(b@, pos as int, end as int, tlv(t, c))
                    implies n == c.len() && j == pos + 1 + len_octets(c.len()).len() by {
                    assert(at_within(b@, pos + 1, end as int, len_octets(c.len())));
                }
            }
            Some((tag, j, j + n))
        },
    }
}

} // verus!

verus! {

/// Reads a value with tag `tag` at `pos`: the bounds of its content.
pub fn take_tlv(b: &[u8], pos: usize, end: usize, tag: u8) -> (r: Option<(usize, usize)>)
    requires
        pos <= end <= b@.len(),
    ensures
        r matches Some((s, e)) ==> pos < s <= e <= end && b@.subrange(pos as int, e as int) == tlv(
            tag,
            b@.subrange(s as int, e as int),
        ),
        forall|c: Seq<u8>| #[trigger]
            at_within(b@, pos as int, end as int, tlv(tag, c)) ==> r == Some(
                ((pos + 1 + len_octets(c.len()).len()) as usize, (pos + tlv(tag, c).len()) as usize),
            ) && b@.subrange(pos + 1 + len_octets(c.len()).len(), pos + tlv(tag, c).len()) == c,
{
    match parse_tlv(b, pos, end) {
        Some((t, s, e)) => {
            if t == tag {
                Some((s, e))
            } else {
                proof {
                    assert forall|c: Seq<u8>| !#[trigger] at_within(b@, pos as int, end as int, tlv(tag, c)) by {
                        if at_within(b@, pos as int, end as int, tlv(tag, c)) {
                            assert(at_within(b@, pos as int, end as int, tlv(tag, c)));
                        }
                    }
                }
                None
            }
        },
        None => None,
    }
}

/// The content octets of a non-negative INTEGER below 2^32.
pub fn uint_bytes(n: u32) -> (r: Vec<u8>)
    ensures
        r@ == uint_content(n as nat),
{
    let mut be: Vec<u8> = Vec::new();
    push_be(&mut be, n as usize);
    proof {
        lemma_be_bytes_len(n as nat);
    }
    assert(be@ == be_bytes(n as nat));
    if be[0] >= 128 {
        let mut r: Vec<u8> = Vec::new();
        r.push(0u8);
        crate::bytes_util::append_bytes(&mut r, be.as_slice());
        assert(r@ =~= seq![0u8] + be_bytes(n as nat));
        r
    } else {
        be
    }
}

/// Reads the content of a non-negative INTEGER below 2^32, which must be
/// minimally encoded.
pub fn read_uint(c: &[u8]) -> (r: Option<u32>)
    ensures
        r matches Some(n) ==> uint_content(n as nat) == c@,
        forall|n: u32| #[trigger] uint_content(n as nat) == c@ ==> r == Some(n),
{
    proof {
        assert forall|n: u32| #[trigger] uint_content(n as nat) == c@ implies
            c@.len() >= 1 && c@[0] < 128 && (c@.len() > 1 && c@[0] == 0 ==> c@[1] >= 128)
            && (c@.len() > 1 && c@[0] != 0 ==> be_bytes(n as nat) == c@)
            && (c@.len() > 1 && c@[0] == 0 ==> be_bytes(n as nat) == c@.drop_first())
            && (c@.len() == 1 ==> be_bytes(n as nat) == c@) by {
            lemma_be_bytes_len(n as nat);
            let bb = be_bytes(n as nat);
            if bb[0] >= 128 {
                assert((seq![0u8] + bb)[1] == bb[0]);
                assert((seq![0u8] + bb).drop_first() =~= bb);
            } else {
                if c@.len() > 1 && c@[0] == 0 {
                    assert(n > 0 ==> bb[0] != 0);
                    assert(n < 256 ==> bb.len() == 1);
                }
            }
        }
    }
    if c.len() == 0 || c[0] >= 128 || (c.len() > 1 && c[0] == 0 && c[1] < 128) {
        return None;
    }
    let start: usize = if c.len() > 1 && c[0] == 0 { 1 } else { 0 };
    let k = c.len() - start;
    let ghost mag = c@.subrange(start as int, c@.len() as int);
    if k > 4 {
        proof {
            assert forall|n: u32| #[trigger] uint_content(n as nat) != c@ by {
                if uint_content(n as nat) == c@ {
                    reveal_with_fuel(pow256, 5);
                    lemma_be_bytes_bound(n as nat, 4);
                    if start == 1 {
                        assert(mag =~= c@.drop_first());
                    } else {
                        assert(mag =~= c@);
                    }
                }
            }
        }
        return None;
    }
    let v = read_be(c, start, k);
    proof {
        reveal_with_fuel(pow256, 5);
        lemma_be_value_bound(mag);
        lemma_pow_mono(k as nat, 4);
    }
    let n = v as u32;
    proof {
        if start == 1 {
            assert(mag =~= c@.drop_first());
        } else {
            assert(mag =~= c@);
        }
        lemma_be_bytes_of_value(mag);
        assert(be_bytes(n as nat) == mag);
        if start == 1 {
            assert(seq![0u8] + mag =~= c@);
        }
        assert forall|m: u32| #[trigger] uint_content(m as nat) == c@ implies m == n by {
            lemma_be_value_of_bytes(m as nat);
        }
    }
    Some(n)
}

} // verus!

verus! {

/// Where `x + y` stands at `p`, `x` stands at `p` and `y` right after it.
pub proof fn lemma_split(b: Seq<u8>, p: int, e: int, x: Seq<u8>, y: Seq<u8>)
    requires
        at_within(b, p, e, x + y),
    ensures
        at_within(b, p, e, x),
        at_within(b, p + x.len(), e, y),
{
    assert(b.subrange(p, p + x.len()) =~= b.subrange(p, p + (x + y).len()).subrange(0, x.len() as int));
    assert((x + y).subrange(0, x.len() as int) =~= x);
    assert(b.subrange(p + x.len(), p + x.len() + y.len()) =~= b.subrange(p, p + (x + y).len()).subrange(
        x.len() as int,
        (x + y).len() as int,
    ));
    assert((x + y).subrange(x.len() as int, (x + y).len() as int) =~= y);
}

/// A range of `b` stands where it is.
pub proof fn lemma_content_at(b: Seq<u8>, s: int, e: int, c: Seq<u8>)
    requires
        0 <= s <= e <= b.len(),
        b.subrange(s, e) == c,
    ensures
        at_within(b, s, e, c),
        s + c.len() == e,
{
}

/// Reads a value with tag `tag` at `pos`: a copy of its content and the
/// position after it.
pub fn take_content(b: &[u8], pos: usize, end: usize, tag: u8) -> (r: Option<(Vec<u8>, usize)>)
    requires
        pos <= end <= b@.len(),
    ensures
        r matches Some((v, e)) ==> pos < e <= end && b@.subrange(pos as int, e as int) == tlv(tag, v@),
        forall|c: Seq<u8>| #[trigger]
            at_within(b@, pos as int, end as int, tlv(tag, c)) ==> (r matches Some((v, e)) && v@ == c && e
                == pos + tlv(tag, c).len()),
{
    match take_tlv(b, pos, end, tag) {
        Some((s, e)) => {
            let v = crate::bytes_util::copy_bytes(&b[s..e]);
            assert(v@ =~= b@.subrange(s as int, e as int));
            Some((v, e))
        },
        None => None,
    }
}

/// A greater number takes at least as many octets.
pub proof fn lemma_be_bytes_mono(n: nat, m: nat)
    requires
        n <= m,
    ensures
        be_bytes(n).len() <= be_bytes(m).len(),
    decreases m,
{
    lemma_be_bytes_len(n);
    lemma_be_bytes_len(m);
    if n >= 256 {
        assert(n / 256 <= m / 256) by (nonlinear_arith)
            requires n <= m;
        lemma_be_bytes_mono(n / 256, m / 256);
    }
}

/// A longer content takes at least as many length octets.
pub proof fn lemma_len_octets_mono(n: nat, m: nat)
    requires
        n <= m,
    ensures
        len_octets(n).len() <= len_octets(m).len(),
{
    lemma_be_bytes_mono(n, m);
}

/// A longer content makes a longer value.
pub proof fn lemma_tlv_longer(t: u8, c1: Seq<u8>, c2: Seq<u8>)
    requires
        c1.len() > c2.len(),
    ensures
        tlv(t, c1).len() > tlv(t, c2).len(),
{
    lemma_len_octets_mono(c2.len(), c1.len());
}

} // verus!
