//! Obfuscation methods and sets of them, and the networks they are used on.

use crate::encoding::hex_encode;
use vstd::prelude::*;

verus! {

/// Unique identifier for an obfuscation method.
#[derive(Debug, Clone, Copy, PartialEq, Eq, Hash, Structural)]
pub enum MethodId {
    /// obfs4: TLS/obfuscated TCP to relay bridge.
    Obfs4,
    /// WebTunnel: HTTP/2 + WebSocket Upgrade on :443.
    WebTunnel,
    /// Masque: HTTP/3 DATAGRAM (future).
    Masque,
    /// VeilFront: honest-front HTTPS relay with session-bound ticket auth.
    /// Client opens standard TLS 1.3, sends auth record in first application data.
    /// Relay routes to tunnel (valid ticket) or real site (everything else).
    VeilFront,
}

/// All known methods, in priority order for scoring.
pub open spec fn all_methods() -> Seq<MethodId> {
    seq![MethodId::Obfs4, MethodId::WebTunnel, MethodId::Masque, MethodId::VeilFront]
}

impl MethodId {
    /// The number of the method, which is also its place in the priority order.
    pub open spec fn number(self) -> int {
        match self {
            MethodId::Obfs4 => 0,
            MethodId::WebTunnel => 1,
            MethodId::Masque => 2,
            MethodId::VeilFront => 3,
        }
    }

    /// All known methods, in priority order for scoring.
    pub fn all() -> (r: &'static [MethodId])
        ensures
            r@ == all_methods(),
    {
        &[MethodId::Obfs4, MethodId::WebTunnel, MethodId::Masque, MethodId::VeilFront]
    }

    /// The number under which the method is stored.
    pub fn code(&self) -> (r: u8)
        ensures
            r == self.number(),
    {
        match self {
            MethodId::Obfs4 => 0,
            MethodId::WebTunnel => 1,
            MethodId::Masque => 2,
            MethodId::VeilFront => 3,
        }
    }

    /// The bitmask bit of the method: bit N stands for method number N.
    pub open spec fn mask(self) -> u32 {
        match self {
            MethodId::Obfs4 => 1,
            MethodId::WebTunnel => 2,
            MethodId::Masque => 4,
            MethodId::VeilFront => 8,
        }
    }

    /// Convert to the bitmask bit.
    pub fn bit(&self) -> (r: u32)
        ensures
            r == self.mask(),
            r == 1u32 << (self.number() as u32),
    {
        assert(1u32 << 0u32 == 1u32 && 1u32 << 1u32 == 2u32 && 1u32 << 2u32 == 4u32 && 1u32 << 3u32
            == 8u32) by (bit_vector);
        match self {
            MethodId::Obfs4 => 1,
            MethodId::WebTunnel => 2,
            MethodId::Masque => 4,
            MethodId::VeilFront => 8,
        }
    }

    /// Human-readable name.
    pub open spec fn spelled(self) -> Seq<char> {
        match self {
            MethodId::Obfs4 => "obfs4"@,
            MethodId::WebTunnel => "webtunnel"@,
            MethodId::Masque => "masque"@,
            MethodId::VeilFront => "veil-front"@,
        }
    }

    /// Human-readable name.
    pub fn name(&self) -> (r: &'static str)
        ensures
            r@ == self.spelled(),
    {
        match self {
            MethodId::Obfs4 => "obfs4",
            MethodId::WebTunnel => "webtunnel",
            MethodId::Masque => "masque",
            MethodId::VeilFront => "veil-front",
        }
    }
}

/// Opaque network identifier used as the key for per-network scoring.
///
/// Computed by the caller from SSID, BSSID, carrier info, etc., and treated as opaque bytes.
#[derive(Debug, PartialEq, Eq, Hash)]
pub struct NetworkFingerprint {
    bytes: Vec<u8>,
}

impl View for NetworkFingerprint {
    type V = Seq<u8>;

    closed spec fn view(&self) -> Seq<u8> {
        self.bytes@
    }
}

impl Clone for NetworkFingerprint {
    fn clone(&self) -> (r: Self)
        ensures
            r@ == self@,
    {
        NetworkFingerprint { bytes: vstd::slice::slice_to_vec(self.bytes.as_slice()) }
    }
}

/// The fingerprint used when the caller does not provide one: sixteen zero bytes.
pub open spec fn default_fingerprint() -> Seq<u8> {
    Seq::new(16, |i: int| 0u8)
}

impl NetworkFingerprint {
    /// Create from raw bytes.
    pub fn new(bytes: Vec<u8>) -> (r: Self)
        ensures
            r@ == bytes@,
    {
        NetworkFingerprint { bytes }
    }

    /// Access raw bytes.
    pub fn as_bytes(&self) -> (r: &[u8])
        ensures
            r@ == self@,
    {
        self.bytes.as_slice()
    }

    /// What scores are stored under: the first sixteen bytes, or all of fewer.
    pub fn storage_key(&self) -> (r: &[u8])
        ensures
            r@ == if self@.len() <= 16 {
                self@
            } else {
                self@.take(16)
            },
    {
        if self.bytes.len() <= 16 {
            self.bytes.as_slice()
        } else {
            let head: &[u8] = vstd::slice::slice_subrange(self.bytes.as_slice(), 0, 16);
            assert(head@ =~= self@.take(16));
            head
        }
    }

    /// Short hex display (first 4 bytes).
    pub fn short_hex(&self) -> (r: String)
        ensures
            r@ == crate::encoding::hex_of(
                self@.take(
                    if self@.len() < 4 {
                        self@.len() as int
                    } else {
                        4
                    },
                ),
            ),
    {
        let n: usize = if self.bytes.len() < 4 {
            self.bytes.len()
        } else {
            4
        };
        let head: &[u8] = vstd::slice::slice_subrange(self.bytes.as_slice(), 0, n);
        assert(head@ =~= self@.take(n as int));
        hex_encode(head)
    }
}

impl Default for NetworkFingerprint {
    /// Default fingerprint used when caller doesn't provide one.
    fn default() -> (r: Self)
        ensures
            r@ == default_fingerprint(),
    {
        let bytes: Vec<u8> = vec![0; 16];
        assert(bytes@ =~= default_fingerprint());
        NetworkFingerprint { bytes }
    }
}

/// Bitmask of allowed obfuscation methods.
#[derive(Debug, Clone, Copy, PartialEq, Eq, Structural)]
pub struct MethodSet(pub u32);

impl MethodSet {
    /// Whether a method is allowed: its bit is not set.
    pub open spec fn allows(self, method: MethodId) -> bool {
        self.0 & method.mask() == 0
    }

    /// The allowed methods, in priority order.
    pub open spec fn allowed(self) -> Seq<MethodId> {
        all_methods().filter(|m: MethodId| self.allows(m))
    }

    /// All methods enabled (no bit set).
    pub fn all() -> (r: Self)
        ensures
            r == MethodSet(0),
            forall|m: MethodId| #[trigger] r.allows(m),
    {
        proof {
            assert forall|m: MethodId| #[trigger] MethodSet(0).allows(m) by {
                let mask = m.mask();
                assert(0u32 & mask == 0) by (bit_vector);
            }
        }
        MethodSet(0)
    }

    /// Empty set: no methods allowed (every bit set).
    pub fn none() -> (r: Self)
        ensures
            r == MethodSet(u32::MAX),
            forall|m: MethodId| !#[trigger] r.allows(m),
    {
        proof {
            assert forall|m: MethodId| !#[trigger] MethodSet(u32::MAX).allows(m) by {
                let mask = m.mask();
                assert(0xffff_ffffu32 & mask == mask) by (bit_vector);
            }
        }
        MethodSet(u32::MAX)
    }

    /// Create from a bitmask where bit N stands for method number N.
    /// A bit value of 0 means enabled, 1 means disabled; 0 is all enabled.
    pub fn from_bitmask(bits: u32) -> (r: Self)
        ensures
            r == MethodSet(bits),
    {
        MethodSet(bits)
    }

    /// Check if a method is allowed.
    pub fn contains(&self, method: MethodId) -> (r: bool)
        ensures
            r == self.allows(method),
    {
        (self.0 & method.bit()) == 0
    }

    /// All allowed methods, in priority order.
    pub fn iter_allowed(&self) -> (r: Vec<MethodId>)
        ensures
            r@ == self.allowed(),
    {
        let all: &'static [MethodId] = MethodId::all();
        let mut out: Vec<MethodId> = Vec::new();
        let mut i: usize = 0;
        proof {
            reveal(Seq::filter);
            assert(all@.take(0) =~= Seq::empty());
        }
        while i < all.len()
            invariant
                i <= all@.len(),
                out@ == all@.take(i as int).filter(|m: MethodId| self.allows(m)),
            decreases all@.len() - i,
        {
            proof {
                reveal(Seq::filter);
                assert(all@.take(i + 1).drop_last() =~= all@.take(i as int));
            }
            if self.contains(all[i]) {
                out.push(all[i]);
            }
            i = i + 1;
        }
        assert(all@.take(i as int) =~= all@);
        out
    }
}

/// Bit N of the mask switches method number N off, and no other: a set made from the bits of some
/// methods forbids exactly those.
pub proof fn law_a_bit_disables_its_method_only(a: MethodId, b: MethodId)
    ensures
        MethodSet(a.mask()).allows(b) <==> a != b,
{
    assert(forall|x: u32, y: u32|
        (x == 1 || x == 2 || x == 4 || x == 8) && (y == 1 || y == 2 || y == 4 || y == 8) ==> ((
        #[trigger] (x & y) == 0) <==> x != y)) by (bit_vector);
    let (x, y) = (a.mask(), b.mask());
    assert((x & y == 0) <==> x != y);
}

/// Bit N of a mask is looked at for method number N: the method is allowed exactly if the mask,
/// shifted down by its number, is even.
pub proof fn law_a_mask_is_read_by_number(bits: u32, method: MethodId)
    ensures
        method == MethodId::Obfs4 ==> (MethodSet(bits).allows(method) <==> bits % 2 == 0),
        method == MethodId::WebTunnel ==> (MethodSet(bits).allows(method) <==> bits / 2 % 2 == 0),
        method == MethodId::Masque ==> (MethodSet(bits).allows(method) <==> bits / 4 % 2 == 0),
        method == MethodId::VeilFront ==> (MethodSet(bits).allows(method) <==> bits / 8 % 2 == 0),
{
    assert((bits & 1 == 0 <==> bits % 2 == 0) && (bits & 2 == 0 <==> bits / 2 % 2 == 0) && (bits
        & 4 == 0 <==> bits / 4 % 2 == 0) && (bits & 8 == 0 <==> bits / 8 % 2 == 0)) by (bit_vector);
}

/// The allowed methods are listed in the order of their numbers, each once, and no other is.
pub proof fn law_allowed_methods_are_listed_in_order(set: MethodSet, m: MethodId, i: int, j: int)
    ensures
        set.allowed().contains(m) <==> set.allows(m),
        0 <= i < j < set.allowed().len() ==> set.allowed()[i].number()
            < set.allowed()[j].number(),
{
    reveal_with_fuel(Seq::filter, 5);
    let all = all_methods();
    let keep = |x: MethodId| set.allows(x);
    let (a, b, c) = (all.drop_last(), all.drop_last().drop_last(), seq![all[0]]);
    assert(b.drop_last() =~= c);
    assert(c.drop_last() =~= Seq::empty());
    let listed = set.allowed();
    assert(all[m.number()] == m);
    if set.allows(m) {
        all.lemma_filter_contains(keep, m.number());
    }
    if listed.contains(m) {
        let k = choose|k: int| 0 <= k < listed.len() && listed[k] == m;
        all.lemma_filter_pred(keep, k);
    }
}

}
