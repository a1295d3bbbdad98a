//! Capability types: what a peer advertises, the cached view of an
//! advertisement, and the capabilities that two peers share.
use crate::version::{
    eth_version_messages, eth_version_number, eth_version_of, EthVersion, ParseVersionError,
};
use crate::rlp::{
    holds_at, push_list, push_string, push_uint, read_header, read_string, read_uint, rlp_item,
    rlp_list, rlp_string, rlp_uint, DecodeError,
};
use vstd::prelude::*;
use vstd::std_specs::convert::FromSpec;
use vstd::string::StringSliceAdditionalSpecFns;
use vstd::utf8::{
    decode_utf8, decode_utf8_encode_utf8, encode_utf8, encode_utf8_decode_utf8,
    encode_utf8_valid_utf8, valid_utf8,
};

verus! {

/// Declares `bytes::Bytes`, the payload of a raw capability message, which
/// this library carries without reading.
#[verifier::external_type_specification]
#[verifier::external_body]
pub struct ExBytes(bytes::Bytes);

/// Relies on `Bytes::clone`, which the derived `Clone` of
/// `RawCapabilityMessage` calls; nothing is assumed of the copy.
pub assume_specification[ <bytes::Bytes as Clone>::clone ](b: &bytes::Bytes) -> bytes::Bytes;

/// The name of the `eth` sub-protocol.
pub open spec fn eth_name() -> Seq<char> {
    seq!['e', 't', 'h']
}

/// Whether two strings hold the same characters.
fn str_equal(a: &str, b: &str) -> (r: bool)
    ensures
        r == (a@ == b@),
{
    let x = a.as_bytes();
    let y = b.as_bytes();
    proof {
        encode_utf8_decode_utf8(a@);
        encode_utf8_decode_utf8(b@);
    }
    if x.len() != y.len() {
        return false;
    }
    let mut i: usize = 0;
    while i < x.len()
        invariant
            x@ == a.spec_bytes(),
            y@ == b.spec_bytes(),
            x@.len() == y@.len(),
            i <= x@.len(),
            forall|j: int| 0 <= j < i ==> x@[j] == y@[j],
        decreases x@.len() - i,
    {
        if x[i] != y[i] {
            return false;
        }
        i = i + 1;
    }
    assert(x@ =~= y@);
    true
}

/// Whether `s` is the name of the `eth` sub-protocol.
fn is_eth_name(s: &str) -> (r: bool)
    ensures
        r == (s@ == eth_name()),
{
    proof {
        reveal_strlit("eth");
        assert("eth"@ =~= eth_name());
    }
    str_equal(s, "eth")
}

/// A message of some capability: its id, offset included, and its payload.
#[derive(Debug, Clone, PartialEq, Eq)]
pub struct RawCapabilityMessage {
    /// Identifier of the message.
    pub id: usize,
    /// Actual payload.
    pub payload: bytes::Bytes,
}

/// A message that a session hands up: either one of the `eth` sub-protocol,
/// decoded into the message type `M`, or one of another capability.
#[derive(Debug)]
pub enum CapabilityMessage<M> {
    /// Eth sub-protocol message.
    Eth(M),
    /// Any other capability message.
    Other(RawCapabilityMessage),
}

/// A supported capability: the name of a sub-protocol and its version.
#[derive(Clone, Debug, PartialEq, Eq, Default, Hash)]
pub struct Capability {
    /// The name of the subprotocol.
    pub name: String,
    /// The version of the subprotocol.
    pub version: usize,
}

impl Capability {
    /// Whether the capability is `eth` at version 66.
    pub open spec fn spec_is_eth_v66(&self) -> bool {
        self.name@ == eth_name() && self.version == 66
    }

    /// Whether the capability is `eth` at version 67.
    pub open spec fn spec_is_eth_v67(&self) -> bool {
        self.name@ == eth_name() && self.version == 67
    }

    /// Creates a new `Capability` with the given name and version.
    pub fn new(name: String, version: usize) -> (r: Capability)
        ensures
            r.name == name,
            r.version == version,
    {
        Capability { name, version }
    }

    /// Whether this is eth v66 protocol.
    pub fn is_eth_v66(&self) -> (r: bool)
        ensures
            r == self.spec_is_eth_v66(),
    {
        is_eth_name(self.name.as_str()) && self.version == 66
    }

    /// Whether this is eth v67.
    pub fn is_eth_v67(&self) -> (r: bool)
        ensures
            r == self.spec_is_eth_v67(),
    {
        is_eth_name(self.name.as_str()) && self.version == 67
    }
}

/// Whether some capability of `s` is `eth` at version 66.
pub open spec fn any_eth_v66(s: Seq<Capability>) -> bool {
    exists|i: int| 0 <= i < s.len() && (#[trigger] s[i]).spec_is_eth_v66()
}

/// Whether some capability of `s` is `eth` at version 67.
pub open spec fn any_eth_v67(s: Seq<Capability>) -> bool {
    exists|i: int| 0 <= i < s.len() && (#[trigger] s[i]).spec_is_eth_v67()
}

/// Scans `v` once for the two `eth` versions of interest.
fn scan_eth_versions(v: &Vec<Capability>) -> (r: (bool, bool))
    ensures
        r.0 == any_eth_v66(v@),
        r.1 == any_eth_v67(v@),
{
    let mut e66 = false;
    let mut e67 = false;
    let mut i: usize = 0;
    while i < v.len()
        invariant
            i <= v@.len(),
            e66 == exists|j: int| 0 <= j < i && (#[trigger] v@[j]).spec_is_eth_v66(),
            e67 == exists|j: int| 0 <= j < i && (#[trigger] v@[j]).spec_is_eth_v67(),
        decreases v@.len() - i,
    {
        if v[i].is_eth_v66() {
            e66 = true;
        }
        if v[i].is_eth_v67() {
            e67 = true;
        }
        i = i + 1;
    }
    (e66, e67)
}

/// All capabilities of a node, in the order in which they were advertised,
/// with the presence of `eth/66` and `eth/67` cached.
#[derive(Debug, Eq, PartialEq)]
pub struct Capabilities {
    /// All capabilities and their versions.
    inner: Vec<Capability>,
    eth_66: bool,
    eth_67: bool,
}

impl View for Capabilities {
    type V = Seq<Capability>;

    closed spec fn view(&self) -> Seq<Capability> {
        self.inner@
    }
}

impl Capabilities {
    /// The cached flags agree with the list.
    #[verifier::type_invariant]
    spec fn flags_agree(&self) -> bool {
        &&& self.eth_66 == any_eth_v66(self.inner@)
        &&& self.eth_67 == any_eth_v67(self.inner@)
    }

    /// The cached presence of `eth/66`.
    pub closed spec fn cached_eth_v66(&self) -> bool {
        self.eth_66
    }

    /// The cached presence of `eth/67`.
    pub closed spec fn cached_eth_v67(&self) -> bool {
        self.eth_67
    }

    /// Building the cache from a list keeps the list as it is, in its order,
    /// and sets each flag exactly when some capability of the list is `eth` at
    /// that version.
    pub proof fn lemma_from_keeps_list(v: Vec<Capability>)
        ensures
            Capabilities::from_spec(v)@ == v@,
            Capabilities::from_spec(v).cached_eth_v66() == any_eth_v66(v@),
            Capabilities::from_spec(v).cached_eth_v67() == any_eth_v67(v@),
    {
    }

    /// Returns all capabilities.
    pub fn capabilities(&self) -> (r: &[Capability])
        ensures
            r@ == self@,
    {
        self.inner.as_slice()
    }

    /// Consumes the type and returns all capabilities.
    pub fn into_inner(self) -> (r: Vec<Capability>)
        ensures
            r@ == self@,
    {
        self.inner
    }

    /// Whether the peer supports the `eth` sub-protocol.
    pub fn supports_eth(&self) -> (r: bool)
        ensures
            r == (any_eth_v66(self@) || any_eth_v67(self@)),
    {
        proof {
            use_type_invariant(self);
        }
        self.eth_67 || self.eth_66
    }

    /// Whether the peer supports the eth v66 protocol.
    pub fn supports_eth_v66(&self) -> (r: bool)
        ensures
            r == any_eth_v66(self@),
    {
        proof {
            use_type_invariant(self);
        }
        self.eth_66
    }

    /// Whether the peer supports the eth v67 protocol.
    pub fn supports_eth_v67(&self) -> (r: bool)
        ensures
            r == any_eth_v67(self@),
    {
        proof {
            use_type_invariant(self);
        }
        self.eth_67
    }
}

impl From<Vec<Capability>> for Capabilities {
    fn from(value: Vec<Capability>) -> (r: Capabilities) {
        let (eth_66, eth_67) = scan_eth_versions(&value);
        Capabilities { inner: value, eth_66, eth_67 }
    }
}

impl Clone for Capabilities {
    fn clone(&self) -> (r: Capabilities) {
        Capabilities::from(self.inner.clone())
    }
}

impl vstd::std_specs::convert::FromSpecImpl<Vec<Capability>> for Capabilities {
    open spec fn obeys_from_spec() -> bool {
        true
    }

    closed spec fn from_spec(v: Vec<Capability>) -> Capabilities {
        Capabilities { inner: v, eth_66: any_eth_v66(v@), eth_67: any_eth_v67(v@) }
    }
}

/// Whether two capabilities have the same name and version.
pub open spec fn same_capability(a: Capability, b: Capability) -> bool {
    a.name@ == b.name@ && a.version == b.version
}

/// Whether two lists hold the same capabilities in the same order.
pub open spec fn same_capabilities(a: Seq<Capability>, b: Seq<Capability>) -> bool {
    a.len() == b.len() && forall|i: int| 0 <= i < a.len() ==> same_capability(#[trigger] a[i], b[i])
}

/// The encoding of a capability: a list of its name, as UTF-8, and its version.
pub open spec fn capability_rlp(c: Capability) -> Seq<u8> {
    rlp_list(rlp_string(encode_utf8(c.name@)) + rlp_uint(c.version as nat))
}

/// The encodings of the capabilities of `s`, one after another.
pub open spec fn capabilities_payload(s: Seq<Capability>) -> Seq<u8>
    decreases s.len(),
{
    if s.len() == 0 {
        seq![]
    } else {
        capabilities_payload(s.drop_last()) + capability_rlp(s.last())
    }
}

/// The encoding of a list of capabilities.
pub open spec fn capabilities_rlp(s: Seq<Capability>) -> Seq<u8> {
    rlp_list(capabilities_payload(s))
}

/// Relies on `std::str::from_utf8`: it accepts exactly the well-formed UTF-8
/// byte strings, and reads the characters that they encode.
#[verifier::external_body]
fn utf8_str(b: &[u8]) -> (r: Option<&str>)
    ensures
        r is Some <==> valid_utf8(b@),
        r matches Some(t) ==> t@ == decode_utf8(b@),
{
    std::str::from_utf8(b).ok()
}

/// The bytes of `buf` from `s` to `e`.
fn copy_range(buf: &[u8], s: usize, e: usize) -> (r: Vec<u8>)
    requires
        s <= e <= buf@.len(),
    ensures
        r@ == buf@.subrange(s as int, e as int),
{
    let mut r: Vec<u8> = Vec::new();
    let mut i: usize = s;
    while i < e
        invariant
            s <= i <= e <= buf@.len(),
            r@ == buf@.subrange(s as int, i as int),
        decreases e - i,
    {
        r.push(buf[i]);
        i = i + 1;
        assert(r@ =~= buf@.subrange(s as int, i as int));
    }
    r
}

/// Where `x` holds `a` followed by `b`, it holds each of them.
proof fn lemma_holds_parts(x: Seq<u8>, s: int, a: Seq<u8>, b: Seq<u8>)
    requires
        holds_at(x, s, a + b),
    ensures
        holds_at(x, s, a),
        holds_at(x, s + a.len(), b),
{
    let ab = a + b;
    assert(x.subrange(s, s + a.len()) =~= x.subrange(s, s + ab.len()).subrange(0, a.len() as int));
    assert(ab.subrange(0, a.len() as int) =~= a);
    assert(x.subrange(s + a.len(), s + ab.len()) =~= x.subrange(s, s + ab.len()).subrange(
        a.len() as int,
        ab.len() as int,
    ));
    assert(ab.subrange(a.len() as int, ab.len() as int) =~= b);
}

impl Capability {
    /// Appends the encoding of the capability to `out`.
    pub fn encode(&self, out: &mut Vec<u8>)
        ensures
            final(out)@ == old(out)@ + capability_rlp(*self),
    {
        let mut payload: Vec<u8> = Vec::new();
        push_string(self.name.as_str().as_bytes(), &mut payload);
        push_uint(self.version as u64, &mut payload);
        assert(payload@ =~= rlp_string(encode_utf8(self.name@)) + rlp_uint(self.version as nat));
        push_list(payload.as_slice(), out);
    }

    /// Decodes the capability whose encoding starts at `pos` in `buf`, and
    /// where that encoding ends.
    pub fn decode(buf: &[u8], pos: usize) -> (r: Result<(Capability, usize), DecodeError>)
        requires
            pos <= buf@.len(),
        ensures
            r matches Ok((c, e)) ==> holds_at(buf@, pos as int, capability_rlp(c)) && e == pos
                + capability_rlp(c).len(),
            forall|c: Capability|
                holds_at(buf@, pos as int, #[trigger] capability_rlp(c)) ==> (r matches Ok((d, e))
                    && same_capability(d, c) && e == pos + capability_rlp(c).len()),
    {
        let ghost x = buf@;
        let ghost fits = exists|c: Capability| holds_at(x, pos as int, #[trigger] capability_rlp(c));
        let ghost c0 = choose|c: Capability| holds_at(x, pos as int, #[trigger] capability_rlp(c));
        let ghost nb0 = encode_utf8(c0.name@);
        let ghost p0 = rlp_string(nb0) + rlp_uint(c0.version as nat);
        proof {
            if fits {
                assert(rlp_item(true, p0) == capability_rlp(c0));
            }
        }
        let (l, s, e) = match read_header(buf, pos) {
            Ok(h) => h,
            Err(err) => {
                return Err(err);
            },
        };
        proof {
            if fits {
                assert(x.subrange(s as int, e as int) =~= capability_rlp(c0).subrange(
                    capability_rlp(c0).len() - p0.len(),
                    capability_rlp(c0).len() as int,
                ));
                assert(holds_at(x, pos as int, rlp_item(true, p0)));
                assert(s + p0.len() == e);
                assert(rlp_list(p0).subrange(rlp_list(p0).len() - p0.len(), rlp_list(p0).len() as int) =~= p0);
                assert(holds_at(x, s as int, p0));
                lemma_holds_parts(x, s as int, rlp_string(nb0), rlp_uint(c0.version as nat));
            }
        }
        if !l {
            return Err(DecodeError::UnexpectedString);
        }
        let (ns, ne) = match read_string(buf, s) {
            Ok(h) => h,
            Err(err) => {
                return Err(err);
            },
        };
        proof {
            if fits {
                assert(holds_at(x, ne as int, rlp_uint(c0.version as nat)));
            }
        }
        let (v, ve) = match read_uint(buf, ne) {
            Ok(h) => h,
            Err(err) => {
                return Err(err);
            },
        };
        let bytes = copy_range(buf, ns, ne);
        proof {
            if fits {
                encode_utf8_valid_utf8(c0.name@);
                encode_utf8_decode_utf8(c0.name@);
            }
        }
        if ve != e {
            return Err(DecodeError::ListLengthMismatch);
        }
        if v > usize::MAX as u64 {
            return Err(DecodeError::Overflow);
        }
        let name = match utf8_str(bytes.as_slice()) {
            Some(t) => t.to_owned(),
            None => {
                return Err(DecodeError::InvalidUtf8);
            },
        };
        let c = Capability { name, version: v as usize };
        proof {
            decode_utf8_encode_utf8(bytes@);
            assert(x.subrange(s as int, e as int) =~= x.subrange(s as int, ne as int) + x.subrange(
                ne as int,
                e as int,
            ));
            assert(x.subrange(pos as int, e as int) =~= capability_rlp(c));
            if fits {
                assert(same_capability(c, c0));
            }
            assert forall|d: Capability| holds_at(x, pos as int, #[trigger] capability_rlp(d))
                implies same_capability(c, d) && e == pos + capability_rlp(d).len() by {
                let nd = encode_utf8(d.name@);
                let pd = rlp_string(nd) + rlp_uint(d.version as nat);
                assert(rlp_item(true, pd) == capability_rlp(d));
                assert(s + pd.len() == e);
                assert(rlp_list(pd).subrange(rlp_list(pd).len() - pd.len(), rlp_list(pd).len() as int) =~= pd);
                assert(holds_at(x, s as int, pd));
                lemma_holds_parts(x, s as int, rlp_string(nd), rlp_uint(d.version as nat));
                assert(bytes@ == nd);
                encode_utf8_decode_utf8(d.name@);
                assert(holds_at(x, ne as int, rlp_uint(d.version as nat)));
            }
        }
        Ok((c, e))
    }
}

/// The encodings of the first `j` capabilities of `s` open those of all of
/// them, and are shorter when `j` leaves some out.
proof fn lemma_payload_prefix(s: Seq<Capability>, j: int)
    requires
        0 <= j <= s.len(),
    ensures
        capabilities_payload(s.take(j)).len() <= capabilities_payload(s).len(),
        capabilities_payload(s).subrange(0, capabilities_payload(s.take(j)).len() as int)
            == capabilities_payload(s.take(j)),
        j < s.len() ==> capabilities_payload(s.take(j)).len() < capabilities_payload(s).len(),
    decreases s.len(),
{
    if j == s.len() {
        assert(s.take(j) =~= s);
        assert(capabilities_payload(s).subrange(0, capabilities_payload(s).len() as int)
            =~= capabilities_payload(s));
    } else {
        let init = s.drop_last();
        assert(init.take(j) =~= s.take(j));
        lemma_payload_prefix(init, j);
        let a = capabilities_payload(init);
        let b = capability_rlp(s.last());
        assert(b.len() > 0);
        assert((a + b).subrange(0, capabilities_payload(s.take(j)).len() as int) =~= a.subrange(
            0,
            capabilities_payload(s.take(j)).len() as int,
        ));
    }
}

/// The encodings of the first `j + 1` capabilities are those of the first `j`
/// followed by that of capability `j`.
proof fn lemma_payload_step(s: Seq<Capability>, j: int)
    requires
        0 <= j < s.len(),
    ensures
        capabilities_payload(s.take(j + 1)) == capabilities_payload(s.take(j)) + capability_rlp(s[j]),
{
    assert(s.take(j + 1).drop_last() =~= s.take(j));
}

/// Decoding reads back what encoding wrote: whatever follows it, the
/// encoding of a list opens the buffer, so `decode` returns a list with the
/// same capabilities in the same order; that list has the same flags.
pub proof fn lemma_round_trip(c: Capabilities, rest: Seq<u8>)
    ensures
        holds_at(capabilities_rlp(c@) + rest, 0, capabilities_rlp(c@)),
        forall|d: Seq<Capability>|
            #[trigger] same_capabilities(d, c@) ==> any_eth_v66(d) == any_eth_v66(c@)
                && any_eth_v67(d) == any_eth_v67(c@),
{
    let x = capabilities_rlp(c@) + rest;
    assert(x.subrange(0, capabilities_rlp(c@).len() as int) =~= capabilities_rlp(c@));
    assert forall|d: Seq<Capability>| #[trigger] same_capabilities(d, c@) implies any_eth_v66(d)
        == any_eth_v66(c@) && any_eth_v67(d) == any_eth_v67(c@) by {
        if any_eth_v66(d) {
            let i = choose|i: int| 0 <= i < d.len() && (#[trigger] d[i]).spec_is_eth_v66();
            assert(same_capability(d[i], c@[i]));
        }
        if any_eth_v66(c@) {
            let i = choose|i: int| 0 <= i < c@.len() && (#[trigger] c@[i]).spec_is_eth_v66();
            assert(same_capability(d[i], c@[i]));
        }
        if any_eth_v67(d) {
            let i = choose|i: int| 0 <= i < d.len() && (#[trigger] d[i]).spec_is_eth_v67();
            assert(same_capability(d[i], c@[i]));
        }
        if any_eth_v67(c@) {
            let i = choose|i: int| 0 <= i < c@.len() && (#[trigger] c@[i]).spec_is_eth_v67();
            assert(same_capability(d[i], c@[i]));
        }
    }
}

impl Capabilities {
    /// Appends the encoding of the capability list to `out`.
    pub fn encode(&self, out: &mut Vec<u8>)
        ensures
            final(out)@ == old(out)@ + capabilities_rlp(self@),
    {
        let mut payload: Vec<u8> = Vec::new();
        let mut i: usize = 0;
        while i < self.inner.len()
            invariant
                i <= self.inner@.len(),
                payload@ == capabilities_payload(self.inner@.take(i as int)),
            decreases self.inner@.len() - i,
        {
            proof {
                lemma_payload_step(self.inner@, i as int);
            }
            self.inner[i].encode(&mut payload);
            i = i + 1;
        }
        assert(self.inner@.take(i as int) =~= self.inner@);
        push_list(payload.as_slice(), out);
    }

    /// Decodes the capability list whose encoding opens `buf`, and the number
    /// of bytes that the encoding takes. The flags are computed from the
    /// decoded list.
    pub fn decode(buf: &[u8]) -> (r: Result<(Capabilities, usize), DecodeError>)
        ensures
            r matches Ok((c, n)) ==> holds_at(buf@, 0, capabilities_rlp(c@)) && n
                == capabilities_rlp(c@).len(),
            forall|s: Seq<Capability>|
                holds_at(buf@, 0, #[trigger] capabilities_rlp(s)) ==> (r matches Ok((c, n))
                    && same_capabilities(c@, s) && n == capabilities_rlp(s).len()),
    {
        let ghost x = buf@;
        proof {
            assert forall|t: Seq<Capability>| holds_at(x, 0, #[trigger] capabilities_rlp(t)) implies
                holds_at(x, 0, rlp_item(true, capabilities_payload(t))) by {}
        }
        let (l, s, e) = match read_header(buf, 0) {
            Ok(h) => h,
            Err(err) => {
                proof {
                    assert forall|t: Seq<Capability>| !holds_at(x, 0, #[trigger] capabilities_rlp(t)) by {
                        if holds_at(x, 0, capabilities_rlp(t)) {
                            assert(holds_at(x, 0, rlp_item(true, capabilities_payload(t))));
                        }
                    }
                }
                return Err(err);
            },
        };
        proof {
            assert forall|t: Seq<Capability>| holds_at(x, 0, #[trigger] capabilities_rlp(t)) implies l
                && x.subrange(s as int, e as int) == capabilities_payload(t) by {
                let pt = capabilities_payload(t);
                assert(holds_at(x, 0, rlp_item(true, pt)));
                assert(rlp_list(pt).subrange(rlp_list(pt).len() - pt.len(), rlp_list(pt).len() as int) =~= pt);
            }
        }
        if !l {
            return Err(DecodeError::UnexpectedString);
        }
        let mut items: Vec<Capability> = Vec::new();
        let mut p: usize = s;
        assert(x.subrange(s as int, p as int) =~= capabilities_payload(items@));
        while p < e
            invariant
                x == buf@,
                s <= p <= e <= x.len(),
                x.subrange(s as int, p as int) == capabilities_payload(items@),
                forall|t: Seq<Capability>| holds_at(x, 0, #[trigger] capabilities_rlp(t))
                    ==> capabilities_payload(t) == x.subrange(s as int, e as int),
                forall|t: Seq<Capability>| #[trigger]
                    capabilities_payload(t) == x.subrange(s as int, e as int) ==> items@.len()
                        <= t.len() && same_capabilities(items@, t.take(items@.len() as int)) && p
                        == s + capabilities_payload(t.take(items@.len() as int)).len(),
            decreases e - p,
        {
            let ghost k = items@.len() as int;
            proof {
                assert forall|t: Seq<Capability>| #[trigger] capabilities_payload(t) == x.subrange(
                    s as int,
                    e as int,
                ) implies k < t.len() && holds_at(x, p as int, capability_rlp(t[k])) && p
                    + capability_rlp(t[k]).len() <= e by {
                    lemma_payload_prefix(t, k);
                    if k == t.len() {
                        assert(t.take(k) =~= t);
                    }
                    lemma_payload_prefix(t, k + 1);
                    lemma_payload_step(t, k);
                    let a = capabilities_payload(t.take(k));
                    let b = capability_rlp(t[k]);
                    let q = capabilities_payload(t);
                    let len = (a + b).len() as int;
                    assert(holds_at(x, s as int, q));
                    assert(q =~= (a + b) + q.subrange(len, q.len() as int));
                    lemma_holds_parts(x, s as int, a + b, q.subrange(len, q.len() as int));
                    lemma_holds_parts(x, s as int, a, b);
                }
            }
            let (c, ce) = match Capability::decode(buf, p) {
                Ok(d) => d,
                Err(err) => {
                    proof {
                        assert forall|t: Seq<Capability>| !holds_at(x, 0, #[trigger] capabilities_rlp(t)) by {
                            if holds_at(x, 0, capabilities_rlp(t)) {
                                assert(holds_at(x, p as int, capability_rlp(t[k])));
                            }
                        }
                    }
                    return Err(err);
                },
            };
            if ce > e {
                proof {
                    assert forall|t: Seq<Capability>| !holds_at(x, 0, #[trigger] capabilities_rlp(t)) by {
                        if holds_at(x, 0, capabilities_rlp(t)) {
                            assert(holds_at(x, p as int, capability_rlp(t[k])));
                        }
                    }
                }
                return Err(DecodeError::ListLengthMismatch);
            }
            let ghost old_items = items@;
            items.push(c);
            proof {
                assert(items@.drop_last() =~= old_items);
                assert(x.subrange(s as int, ce as int) =~= x.subrange(s as int, p as int) + x.subrange(
                    p as int,
                    ce as int,
                ));
                assert forall|t: Seq<Capability>| #[trigger] capabilities_payload(t) == x.subrange(
                    s as int,
                    e as int,
                ) implies items@.len() <= t.len() && same_capabilities(items@, t.take(items@.len() as int))
                    && ce == s + capabilities_payload(t.take(items@.len() as int)).len() by {
                    lemma_payload_step(t, k);
                    assert forall|i: int| 0 <= i < items@.len() implies same_capability(
                        #[trigger] items@[i],
                        t.take(k + 1)[i],
                    ) by {
                        if i < k {
                            assert(same_capability(old_items[i], t.take(k)[i]));
                        }
                    }
                }
            }
            p = ce;
        }
        let caps = Capabilities::from(items);
        proof {
            assert(x.subrange(0, e as int) =~= rlp_list(capabilities_payload(caps@)));
            assert forall|t: Seq<Capability>| holds_at(x, 0, #[trigger] capabilities_rlp(t)) implies
                same_capabilities(caps@, t) && e == capabilities_rlp(t).len() by {
                let k = caps@.len() as int;
                lemma_payload_prefix(t, k);
                assert(t.take(k) =~= t);
            }
        }
        Ok((caps, e))
    }
}

/// A capability that both peers share: its agreed version and the first
/// message id that it occupies in the session.
#[derive(Debug, Clone, PartialEq, Eq, Hash)]
#[allow(inconsistent_fields)]
pub enum SharedCapability {
    /// The `eth` capability.
    Eth { version: EthVersion, offset: u8 },
    /// An unknown capability.
    UnknownCapability { name: String, version: u8, offset: u8 },
}

/// An error that may occur while creating a [`SharedCapability`] or reading its
/// message count.
#[derive(Debug, Clone, Copy, PartialEq, Eq, Structural)]
pub enum SharedCapabilityError {
    /// Unsupported `eth` version.
    UnsupportedVersion(ParseVersionError),
    /// Cannot determine the number of messages for unknown capabilities.
    UnknownCapability,
}

impl SharedCapability {
    /// The name of the capability.
    pub open spec fn spec_name(&self) -> Seq<char> {
        match self {
            SharedCapability::Eth { .. } => eth_name(),
            SharedCapability::UnknownCapability { name, .. } => name@,
        }
    }

    /// The version number of the capability.
    pub open spec fn spec_version(&self) -> u8 {
        match self {
            SharedCapability::Eth { version, .. } => eth_version_number(*version),
            SharedCapability::UnknownCapability { version, .. } => *version,
        }
    }

    /// The first message id of the capability.
    pub open spec fn spec_offset(&self) -> u8 {
        match self {
            SharedCapability::Eth { offset, .. } => *offset,
            SharedCapability::UnknownCapability { offset, .. } => *offset,
        }
    }

    /// The number of message ids that the capability occupies, where known.
    pub open spec fn spec_num_messages(&self) -> Option<u8> {
        match self {
            SharedCapability::Eth { version, .. } => Some(eth_version_messages(*version)),
            SharedCapability::UnknownCapability { .. } => None,
        }
    }

    /// Resolves the capability `name` at `version` to a shared capability
    /// that starts at message id `offset`.
    pub fn new(name: &str, version: u8, offset: u8) -> (r: Result<SharedCapability, SharedCapabilityError>)
        ensures
            name@ == eth_name() ==> match eth_version_of(version) {
                Some(v) => (r matches Ok(c) && c == (SharedCapability::Eth { version: v, offset })),
                None => r == Err::<SharedCapability, SharedCapabilityError>(
                    SharedCapabilityError::UnsupportedVersion(ParseVersionError(version)),
                ),
            },
            name@ != eth_name() ==> (r matches Ok(
                SharedCapability::UnknownCapability { name: n, version: v, offset: o },
            ) && n@ == name@ && v == version && o == offset),
    {
        if is_eth_name(name) {
            match EthVersion::from_u8(version) {
                Ok(v) => Ok(SharedCapability::Eth { version: v, offset }),
                Err(e) => Err(SharedCapabilityError::UnsupportedVersion(e)),
            }
        } else {
            Ok(SharedCapability::UnknownCapability { name: name.to_owned(), version, offset })
        }
    }

    /// Returns the name of the capability.
    pub fn name(&self) -> (r: &str)
        ensures
            r@ == self.spec_name(),
    {
        match self {
            SharedCapability::Eth { .. } => {
                proof {
                    reveal_strlit("eth");
                    assert("eth"@ =~= eth_name());
                }
                "eth"
            },
            SharedCapability::UnknownCapability { name, .. } => name.as_str(),
        }
    }

    /// Returns the version of the capability.
    pub fn version(&self) -> (r: u8)
        ensures
            r == self.spec_version(),
    {
        match self {
            SharedCapability::Eth { version, .. } => version.as_u8(),
            SharedCapability::UnknownCapability { version, .. } => *version,
        }
    }

    /// Returns the message id offset of the capability.
    pub fn offset(&self) -> (r: u8)
        ensures
            r == self.spec_offset(),
    {
        match self {
            SharedCapability::Eth { offset, .. } => *offset,
            SharedCapability::UnknownCapability { offset, .. } => *offset,
        }
    }

    /// Returns the number of protocol messages supported by this capability.
    pub fn num_messages(&self) -> (r: Result<u8, SharedCapabilityError>)
        ensures
            match self.spec_num_messages() {
                Some(n) => r == Ok::<u8, SharedCapabilityError>(n),
                None => r == Err::<u8, SharedCapabilityError>(
                    SharedCapabilityError::UnknownCapability,
                ),
            },
    {
        match self {
            SharedCapability::Eth { version, .. } => Ok(version.total_messages()),
            _ => Err(SharedCapabilityError::UnknownCapability),
        }
    }
}

} // verus!
