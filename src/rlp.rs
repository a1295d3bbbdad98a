//! The RLP framing used on the wire: byte strings, unsigned integers and
//! lists, with encoders and strict decoders proved against one statement of
//! the canonical encoding.
use vstd::prelude::*;

verus! {

/// `256` to the power `k`.
pub open spec fn pow256(k: nat) -> nat
    decreases k,
{
    if k == 0 {
        1
    } else {
        256 * pow256((k - 1) as nat)
    }
}

/// The shortest big-endian bytes of `n`: none for zero, else no leading zero.
pub open spec fn be_bytes(n: nat) -> Seq<u8>
    decreases n,
{
    if n == 0 {
        seq![]
    } else {
        be_bytes(n / 256) + seq![(n % 256) as u8]
    }
}

/// The number that the big-endian bytes `b` spell.
pub open spec fn be_value(b: Seq<u8>) -> nat
    decreases b.len(),
{
    if b.len() == 0 {
        0
    } else {
        be_value(b.drop_last()) * 256 + (b.last() as nat)
    }
}

/// The header of a string (`list` false) or a list (`list` true) whose payload
/// has `len` bytes.
pub open spec fn header(list: bool, len: nat) -> Seq<u8> {
    let base: nat = if list {
        0xc0
    } else {
        0x80
    };
    if len < 56 {
        seq![(base + len) as u8]
    } else {
        seq![(base + 55 + be_bytes(len).len()) as u8] + be_bytes(len)
    }
}

/// The encoding of the byte string `b`: a single byte below `0x80` stands for
/// itself, anything else follows a string header.
pub open spec fn rlp_string(b: Seq<u8>) -> Seq<u8> {
    if b.len() == 1 && b[0] < 0x80 {
        b
    } else {
        header(false, b.len()) + b
    }
}

/// The encoding of the unsigned integer `n`: its shortest big-endian bytes, as
/// a string.
pub open spec fn rlp_uint(n: nat) -> Seq<u8> {
    rlp_string(be_bytes(n))
}

/// The encoding of a list whose items, encoded one after another, are `payload`.
pub open spec fn rlp_list(payload: Seq<u8>) -> Seq<u8> {
    header(true, payload.len()) + payload
}

/// The encoding of a string (`list` false) or a list (`list` true) with payload `p`.
pub open spec fn rlp_item(list: bool, p: Seq<u8>) -> Seq<u8> {
    if list {
        rlp_list(p)
    } else {
        rlp_string(p)
    }
}

/// Whether `x` holds `p` from index `pos` on.
pub open spec fn holds_at(x: Seq<u8>, pos: int, p: Seq<u8>) -> bool {
    0 <= pos && pos + p.len() <= x.len() && x.subrange(pos, pos + p.len()) == p
}

/// Why a buffer could not be decoded.
#[derive(Debug, Clone, Copy, PartialEq, Eq, Structural)]
pub enum DecodeError {
    /// A number does not fit the type that it is read into.
    Overflow,
    /// A number has a leading zero byte.
    LeadingZero,
    /// The buffer ends before the item does.
    InputTooShort,
    /// A single byte below `0x80` was written with a string header.
    NonCanonicalSingleByte,
    /// A length below 56 was written in the long form.
    NonCanonicalSize,
    /// A list was found where a string belongs.
    UnexpectedList,
    /// A string was found where a list belongs.
    UnexpectedString,
    /// The items of a list do not fill it exactly.
    ListLengthMismatch,
    /// A string that should be text is not well-formed UTF-8.
    InvalidUtf8,
}

proof fn lemma_pow256_8()
    ensures
        pow256(8) == 0x1_0000_0000_0000_0000,
{
    reveal_with_fuel(pow256, 9);
}

proof fn lemma_pow256_monotone(a: nat, b: nat)
    requires
        a <= b,
    ensures
        pow256(a) <= pow256(b),
    decreases b,
{
    if a < b {
        lemma_pow256_monotone(a, (b - 1) as nat);
    }
}

/// The shortest bytes of `n` spell `n`.
proof fn lemma_be_value_of_bytes(n: nat)
    ensures
        be_value(be_bytes(n)) == n,
        n > 0 ==> be_bytes(n).len() > 0 && be_bytes(n)[0] != 0,
    decreases n,
{
    if n > 0 {
        lemma_be_value_of_bytes(n / 256);
        let b = be_bytes(n);
        assert(b.drop_last() =~= be_bytes(n / 256));
        assert(n == (n / 256) * 256 + n % 256);
        if n / 256 == 0 {
            assert(b[0] == (n % 256) as u8);
        } else {
            assert(b[0] == be_bytes(n / 256)[0]);
        }
    }
}

/// Bytes without a leading zero are the shortest bytes of their value.
proof fn lemma_be_bytes_of_value(b: Seq<u8>)
    requires
        b.len() == 0 || b[0] != 0,
    ensures
        be_bytes(be_value(b)) == b,
        b.len() > 0 ==> be_value(b) > 0,
    decreases b.len(),
{
    if b.len() > 0 {
        let init = b.drop_last();
        lemma_be_bytes_of_value(init);
        let v = be_value(b);
        assert(v == be_value(init) * 256 + b.last());
        if init.len() == 0 {
            assert(b.last() == b[0]);
        }
        assert(v > 0);
        assert(v / 256 == be_value(init)) by (nonlinear_arith)
            requires
                v == be_value(init) * 256 + b.last(),
                b.last() < 256,
        ;
        assert(v % 256 == b.last()) by (nonlinear_arith)
            requires
                v == be_value(init) * 256 + b.last(),
                b.last() < 256,
        ;
        assert(be_bytes(v) =~= be_bytes(v / 256) + seq![(v % 256) as u8]);
        assert(b =~= init + seq![b.last()]);
    }
}

/// A number below `256^k` has at most `k` shortest bytes.
proof fn lemma_be_bytes_len(n: nat, k: nat)
    requires
        n < pow256(k),
    ensures
        be_bytes(n).len() <= k,
    decreases k,
{
    if n > 0 {
        assert(k > 0);
        assert(n / 256 < pow256((k - 1) as nat)) by (nonlinear_arith)
            requires
                n < 256 * pow256((k - 1) as nat),
        ;
        lemma_be_bytes_len(n / 256, (k - 1) as nat);
    }
}

/// `k` bytes spell a number below `256^k`.
proof fn lemma_be_value_bound(b: Seq<u8>)
    ensures
        be_value(b) < pow256(b.len()),
    decreases b.len(),
{
    if b.len() > 0 {
        let init = b.drop_last();
        lemma_be_value_bound(init);
        let v = be_value(init);
        let p = pow256(init.len());
        assert(v * 256 + b.last() < 256 * p) by (nonlinear_arith)
            requires
                v < p,
                b.last() < 256,
        ;
    }
}

/// Headers of payloads that fit the machine are well formed: the long form
/// spells the length in one to eight bytes.
proof fn lemma_long_length(len: nat)
    requires
        56 <= len < 0x1_0000_0000_0000_0000,
    ensures
        1 <= be_bytes(len).len() <= 8,
        be_bytes(len)[0] != 0,
        be_value(be_bytes(len)) == len,
{
    lemma_pow256_8();
    lemma_be_bytes_len(len, 8);
    lemma_be_value_of_bytes(len);
}

/// Appends the shortest big-endian bytes of `n`.
fn push_be_bytes(n: u64, out: &mut Vec<u8>)
    ensures
        final(out)@ == old(out)@ + be_bytes(n as nat),
    decreases n,
{
    if n > 0 {
        push_be_bytes(n / 256, out);
        out.push((n % 256) as u8);
        assert(be_bytes(n as nat) == be_bytes((n / 256) as nat) + seq![(n % 256) as u8]);
    }
}

/// Appends every byte of `b`.
fn push_all(b: &[u8], out: &mut Vec<u8>)
    ensures
        final(out)@ == old(out)@ + b@,
{
    let ghost start = out@;
    let mut i: usize = 0;
    while i < b.len()
        invariant
            i <= b@.len(),
            out@ == start + b@.subrange(0, i as int),
        decreases b@.len() - i,
    {
        out.push(b[i]);
        i = i + 1;
        assert(out@ =~= start + b@.subrange(0, i as int));
    }
    assert(b@.subrange(0, b@.len() as int) =~= b@);
}

/// Appends the header of a string (`list` false) or a list (`list` true)
/// whose payload has `len` bytes.
pub fn push_header(list: bool, len: usize, out: &mut Vec<u8>)
    ensures
        final(out)@ == old(out)@ + header(list, len as nat),
{
    let base: u8 = if list {
        0xc0
    } else {
        0x80
    };
    if len < 56 {
        out.push(base + len as u8);
        assert(out@ =~= old(out)@ + header(list, len as nat));
    } else {
        let mut bytes: Vec<u8> = Vec::new();
        push_be_bytes(len as u64, &mut bytes);
        proof {
            lemma_long_length(len as nat);
        }
        out.push(base + 55 + bytes.len() as u8);
        push_all(bytes.as_slice(), out);
        assert(out@ =~= old(out)@ + header(list, len as nat));
    }
}

/// Appends the encoding of the byte string `b`.
pub fn push_string(b: &[u8], out: &mut Vec<u8>)
    ensures
        final(out)@ == old(out)@ + rlp_string(b@),
{
    if b.len() == 1 && b[0] < 0x80 {
        out.push(b[0]);
        assert(out@ =~= old(out)@ + rlp_string(b@));
    } else {
        push_header(false, b.len(), out);
        push_all(b, out);
        assert(out@ =~= old(out)@ + rlp_string(b@));
    }
}

/// Appends the encoding of the unsigned integer `n`.
pub fn push_uint(n: u64, out: &mut Vec<u8>)
    ensures
        final(out)@ == old(out)@ + rlp_uint(n as nat),
{
    let mut bytes: Vec<u8> = Vec::new();
    push_be_bytes(n, &mut bytes);
    assert(bytes@ =~= be_bytes(n as nat));
    push_string(bytes.as_slice(), out);
}

/// Appends the encoding of a list whose encoded items are `payload`.
pub fn push_list(payload: &[u8], out: &mut Vec<u8>)
    ensures
        final(out)@ == old(out)@ + rlp_list(payload@),
{
    push_header(true, payload.len(), out);
    push_all(payload, out);
    assert(out@ =~= old(out)@ + rlp_list(payload@));
}

/// Reads the `k` big-endian bytes of `buf` from `start` on.
fn read_be(buf: &[u8], start: usize, k: usize) -> (r: u64)
    requires
        start + k <= buf@.len(),
        k <= 8,
    ensures
        r as nat == be_value(buf@.subrange(start as int, start + k)),
{
    let n = buf.len();
    let mut v: u64 = 0;
    let mut i: usize = 0;
    while i < k
        invariant
            n == buf@.len(),
            start + k <= buf@.len(),
            k <= 8,
            i <= k,
            v as nat == be_value(buf@.subrange(start as int, start + i)),
        decreases k - i,
    {
        proof {
            let b = buf@.subrange(start as int, start + i);
            lemma_be_value_bound(b);
            lemma_pow256_8();
            lemma_pow256_monotone(i as nat, 7);
            assert(pow256(7) == 0x100_0000_0000_0000) by {
                reveal_with_fuel(pow256, 8);
            }
            let next = buf@.subrange(start as int, start + i + 1);
            assert(next.drop_last() =~= b);
        }
        v = v * 256 + buf[start + i] as u64;
        i = i + 1;
    }
    v
}

/// Reads the header of the item at `pos` in `buf`: whether it is a list, and
/// where its payload starts and ends. The header is read strictly: exactly
/// the canonical encodings are accepted.
#[verifier::rlimit(100)]
pub fn read_header(buf: &[u8], pos: usize) -> (r: Result<(bool, usize, usize), DecodeError>)
    requires
        pos <= buf@.len(),
    ensures
        r matches Ok((l, s, e)) ==> pos <= s <= e <= buf@.len() && buf@.subrange(pos as int, e as int)
            == rlp_item(l, buf@.subrange(s as int, e as int)),
        forall|l: bool, p: Seq<u8>|
            holds_at(buf@, pos as int, #[trigger] rlp_item(l, p)) ==> (r matches Ok((l2, s, e))
                && l2 == l && e == pos + rlp_item(l, p).len() && s + p.len() == e),
{
    if pos >= buf.len() {
        return Err(DecodeError::InputTooShort);
    }
    let b = buf[pos];
    let ghost x = buf@;
    proof {
        assert forall|l: bool, p: Seq<u8>| holds_at(x, pos as int, #[trigger] rlp_item(l, p))
            implies rlp_item(l, p)[0] == b && (p.len() >= 56 ==> 1 <= be_bytes(p.len()).len() <= 8)
            by {
            assert(x.subrange(pos as int, pos + rlp_item(l, p).len())[0] == x[pos as int]);
            if p.len() >= 56 {
                lemma_long_length(p.len());
            }
        }
    }
    if b < 0x80 {
        let r = Ok((false, pos, pos + 1));
        proof {
            assert(x.subrange(pos as int, pos + 1) =~= seq![b]);
            assert forall|l: bool, p: Seq<u8>| holds_at(x, pos as int, #[trigger] rlp_item(l, p))
                implies (r matches Ok((l2, s, e)) && l2 == l && e == pos + rlp_item(l, p).len() && s
                + p.len() == e) by {
                if l || !(p.len() == 1 && p[0] < 0x80) {
                    if p.len() >= 56 {
                        lemma_long_length(p.len());
                    }
                }
            }
        }
        return r;
    }
    if b < 0xb8 || (b >= 0xc0 && b < 0xf8) {
        let l = b >= 0xc0;
        let len: usize = if l {
            (b - 0xc0) as usize
        } else {
            (b - 0x80) as usize
        };
        let s = pos + 1;
        if len > buf.len() - s {
            proof {
                assert forall|l: bool, p: Seq<u8>| !holds_at(x, pos as int, #[trigger] rlp_item(l, p)) by {
                    if holds_at(x, pos as int, rlp_item(l, p)) && p.len() >= 56 {
                        lemma_long_length(p.len());
                    }
                }
            }
            return Err(DecodeError::InputTooShort);
        }
        if !l && len == 1 && buf[s] < 0x80 {
            proof {
                assert forall|l: bool, p: Seq<u8>| !holds_at(x, pos as int, #[trigger] rlp_item(l, p)) by {
                    if holds_at(x, pos as int, rlp_item(l, p)) {
                        if p.len() >= 56 {
                            lemma_long_length(p.len());
                        }
                        assert(x.subrange(pos as int, pos + rlp_item(l, p).len())[1] == x[s as int]);
                    }
                }
            }
            return Err(DecodeError::NonCanonicalSingleByte);
        }
        let r = Ok((l, s, s + len));
        proof {
            assert(x.subrange(pos as int, (s + len) as int) =~= rlp_item(l, x.subrange(s as int, (s + len) as int)));
            assert forall|l: bool, p: Seq<u8>| holds_at(x, pos as int, #[trigger] rlp_item(l, p))
                implies (r matches Ok((l2, s, e)) && l2 == l && e == pos + rlp_item(l, p).len() && s
                + p.len() == e) by {
                if p.len() >= 56 {
                    lemma_long_length(p.len());
                }
            }
        }
        return r;
    }
    let l = b >= 0xf8;
    let k: usize = if l {
        (b - 0xf7) as usize
    } else {
        (b - 0xb7) as usize
    };
    let s0 = pos + 1;
    if k > buf.len() - s0 {
        proof {
            assert forall|l: bool, p: Seq<u8>| !holds_at(x, pos as int, #[trigger] rlp_item(l, p)) by {
                if holds_at(x, pos as int, rlp_item(l, p)) && p.len() >= 56 {
                    lemma_long_length(p.len());
                }
            }
        }
        return Err(DecodeError::InputTooShort);
    }
    if buf[s0] == 0 {
        proof {
            assert forall|l: bool, p: Seq<u8>| !holds_at(x, pos as int, #[trigger] rlp_item(l, p)) by {
                if holds_at(x, pos as int, rlp_item(l, p)) {
                    lemma_long_length(p.len());
                    assert(x.subrange(pos as int, pos + rlp_item(l, p).len())[1] == x[s0 as int]);
                }
            }
        }
        return Err(DecodeError::LeadingZero);
    }
    let v = read_be(buf, s0, k);
    let s = s0 + k;
    let ghost lb = x.subrange(s0 as int, s as int);
    proof {
        lemma_be_bytes_of_value(lb);
        assert forall|l: bool, p: Seq<u8>| holds_at(x, pos as int, #[trigger] rlp_item(l, p))
            implies p.len() == v && p.len() >= 56 by {
            lemma_long_length(p.len());
            let item = rlp_item(l, p);
            assert(x.subrange(s0 as int, s as int) =~= item.subrange(1, 1 + k as int));
            assert(item.subrange(1, 1 + k as int) =~= be_bytes(p.len()));
        }
    }
    if v < 56 {
        return Err(DecodeError::NonCanonicalSize);
    }
    if v > (buf.len() - s) as u64 {
        return Err(DecodeError::InputTooShort);
    }
    let e = s + v as usize;
    let r = Ok((l, s, e));
    proof {
        assert(x.subrange(pos as int, e as int) =~= rlp_item(l, x.subrange(s as int, e as int)));
    }
    r
}

/// Reads the byte string at `pos` in `buf`: where its bytes start and end.
pub fn read_string(buf: &[u8], pos: usize) -> (r: Result<(usize, usize), DecodeError>)
    requires
        pos <= buf@.len(),
    ensures
        r matches Ok((s, e)) ==> pos <= s <= e <= buf@.len() && buf@.subrange(pos as int, e as int)
            == rlp_string(buf@.subrange(s as int, e as int)),
        forall|p: Seq<u8>|
            holds_at(buf@, pos as int, #[trigger] rlp_string(p)) ==> (r matches Ok((s, e)) && e
                == pos + rlp_string(p).len() && buf@.subrange(s as int, e as int) == p),
{
    let h = read_header(buf, pos);
    proof {
        assert forall|p: Seq<u8>| holds_at(buf@, pos as int, #[trigger] rlp_string(p)) implies h is Ok by {
            assert(rlp_item(false, p) == rlp_string(p));
        }
    }
    let (l, s, e) = h?;
    proof {
        assert forall|p: Seq<u8>| holds_at(buf@, pos as int, #[trigger] rlp_string(p)) implies !l
            && e == pos + rlp_string(p).len() && buf@.subrange(s as int, e as int) == p by {
            assert(rlp_item(false, p) == rlp_string(p));
            let item = rlp_string(p);
            assert(buf@.subrange(s as int, e as int) =~= item.subrange(item.len() - p.len(), item.len() as int));
        }
    }
    if l {
        return Err(DecodeError::UnexpectedList);
    }
    Ok((s, e))
}

/// Reads the unsigned integer at `pos` in `buf`, and where its encoding ends.
pub fn read_uint(buf: &[u8], pos: usize) -> (r: Result<(u64, usize), DecodeError>)
    requires
        pos <= buf@.len(),
    ensures
        r matches Ok((v, e)) ==> holds_at(buf@, pos as int, rlp_uint(v as nat)) && e == pos
            + rlp_uint(v as nat).len(),
        forall|n: nat|
            n <= u64::MAX && holds_at(buf@, pos as int, #[trigger] rlp_uint(n)) ==> r == Ok::<
                (u64, usize),
                DecodeError,
            >((n as u64, (pos + rlp_uint(n).len()) as usize)),
{
    let (s, e) = read_string(buf, pos)?;
    let ghost b = buf@.subrange(s as int, e as int);
    proof {
        assert forall|n: nat| n <= u64::MAX && holds_at(buf@, pos as int, #[trigger] rlp_uint(n))
            implies b == be_bytes(n) && e == pos + rlp_uint(n).len() && b.len() <= 8 && (b.len() == 0
            || b[0] != 0) && be_value(b) == n by {
            assert(rlp_string(be_bytes(n)) == rlp_uint(n));
            lemma_pow256_8();
            lemma_be_bytes_len(n, 8);
            lemma_be_value_of_bytes(n);
        }
    }
    if e - s > 8 {
        return Err(DecodeError::Overflow);
    }
    if e > s && buf[s] == 0 {
        return Err(DecodeError::LeadingZero);
    }
    let v = read_be(buf, s, e - s);
    proof {
        lemma_be_bytes_of_value(b);
        assert(buf@.subrange(pos as int, e as int) == rlp_uint(v as nat));
    }
    Ok((v, e))
}

} // verus!
