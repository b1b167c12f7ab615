use vstd::prelude::*;

use md5::Digest;

use crate::codec::{pow2, pow2_exec, lemma_pow2_64, lemma_pow2_mono};
use crate::names::{first_match, ClosedSet};

verus! {

/// A Rocksoft CRC model.
#[derive(Debug, Clone, Copy, PartialEq, Eq, Structural)]
pub struct CrcSpec {
    pub width: u8,
    pub poly: u64,
    pub init: u64,
    pub xorout: u64,
    pub refin: bool,
    pub refout: bool,
}

#[derive(Debug, Clone, Copy, PartialEq, Eq, Structural)]
pub enum Algo {
    Crc(CrcSpec),
    /// RFC 1071 Internet checksum (the IPv4 header checksum).
    IpChecksum,
    Md5,
    Sha1,
    Sha256,
}

/// A CRC model a register can run: 1 to 64 bits wide.
pub open spec fn algo_ok(a: Algo) -> bool {
    match a {
        Algo::Crc(s) => 1 <= s.width <= 64,
        _ => true,
    }
}

/// A Rocksoft CRC model with `refin`/`refout` tied together, which is how
/// every preset below is specified.
pub open spec fn crc_model(width: u8, poly: u64, init: u64, xorout: u64, refl: bool) -> Algo {
    Algo::Crc(CrcSpec { width, poly, init, xorout, refin: refl, refout: refl })
}

fn crc(width: u8, poly: u64, init: u64, xorout: u64, refl: bool) -> (r: Algo)
    ensures
        r == crc_model(width, poly, init, xorout, refl),
{
    Algo::Crc(CrcSpec { width, poly, init, xorout, refin: refl, refout: refl })
}

/// Every algorithm a digest field accepts, by name.
pub open spec fn algos_table() -> Seq<(&'static str, Algo)> {
    seq![
        // CRC-16/IBM-3740 (aka CCITT-FALSE)
        ("crc16_ccitt", crc_model(16, 0x1021, 0xFFFF, 0x0000, false)),
        // CRC-16/ARC (aka IBM)
        ("crc16_ibm", crc_model(16, 0x8005, 0x0000, 0x0000, true)),
        ("crc32", crc_model(32, 0x04C11DB7, 0xFFFF_FFFF, 0xFFFF_FFFF, true)),
        ("crc32c", crc_model(32, 0x1EDC6F41, 0xFFFF_FFFF, 0xFFFF_FFFF, true)),
        ("crc64_xz", crc_model(64, 0x42F0E1EBA9EA3693, 0xFFFF_FFFF_FFFF_FFFF, 0xFFFF_FFFF_FFFF_FFFF, true)),
        ("ip", Algo::IpChecksum),
        ("md5", Algo::Md5),
        ("sha1", Algo::Sha1),
        ("sha256", Algo::Sha256),
    ]
}

/// The closed set of digest algorithms.
pub fn algos() -> (r: ClosedSet<Algo>)
    ensures
        r.names@ == algos_table(),
        r.aliases@.len() == 0,
        !r.loose,
{
    let names = vec![
        ("crc16_ccitt", crc(16, 0x1021, 0xFFFF, 0x0000, false)),
        ("crc16_ibm", crc(16, 0x8005, 0x0000, 0x0000, true)),
        ("crc32", crc(32, 0x04C11DB7, 0xFFFF_FFFF, 0xFFFF_FFFF, true)),
        ("crc32c", crc(32, 0x1EDC6F41, 0xFFFF_FFFF, 0xFFFF_FFFF, true)),
        ("crc64_xz", crc(64, 0x42F0E1EBA9EA3693, 0xFFFF_FFFF_FFFF_FFFF, 0xFFFF_FFFF_FFFF_FFFF, true)),
        ("ip", Algo::IpChecksum),
        ("md5", Algo::Md5),
        ("sha1", Algo::Sha1),
        ("sha256", Algo::Sha256),
    ];
    proof { assert(names@ =~= algos_table()); }
    ClosedSet {
        what: "digest algorithm",
        allowed: "crc16_ccitt/crc16_ibm/crc32/crc32c/crc64_xz/ip/md5/sha1/sha256",
        loose: false,
        names,
        aliases: Vec::new(),
    }
}

impl Algo {
    /// The preset a name stands for.
    pub fn preset(name: &str) -> (r: Option<Algo>)
        ensures
            r == first_match(algos_table(), false, name@, 0),
    {
        let set = algos();
        match set.parse(name) {
            Ok(a) => Some(a),
            Err(_) => None,
        }
    }

    pub open spec fn spec_width_bytes(&self) -> nat {
        match self {
            Algo::Crc(s) => (s.width / 8) as nat,
            Algo::IpChecksum => 2,
            Algo::Md5 => 16,
            Algo::Sha1 => 20,
            Algo::Sha256 => 32,
        }
    }

    /// How many bytes the digest field occupies.
    pub fn width_bytes(&self) -> (r: usize)
        ensures
            r == self.spec_width_bytes(),
    {
        match self {
            Algo::Crc(s) => (s.width / 8) as usize,
            Algo::IpChecksum => 2,
            Algo::Md5 => 16,
            Algo::Sha1 => 20,
            Algo::Sha256 => 32,
        }
    }

    /// Whether a register can run this model (a CRC 1 to 64 bits wide).
    pub fn runnable(&self) -> (r: bool)
        ensures
            r == algo_ok(*self),
    {
        match self {
            Algo::Crc(s) => 1 <= s.width && s.width <= 64,
            _ => true,
        }
    }

    /// A CRC or the Internet checksum is an integer (in the byte-order
    /// context); a hash is bytes.
    pub fn is_int(&self) -> (r: bool)
        ensures
            r == (self is Crc || self is IpChecksum),
    {
        match self {
            Algo::Crc(_) | Algo::IpChecksum => true,
            _ => false,
        }
    }
}

// ---------- CRC ----------

/// The low `width` bits set.
pub open spec fn width_mask(width: nat) -> u64 {
    if width >= 64 { u64::MAX } else { (pow2(width) - 1) as u64 }
}

fn mask(width: u8) -> (r: u64)
    requires
        width <= 64,
    ensures
        r == width_mask(width as nat),
{
    if width >= 64 {
        u64::MAX
    } else {
        proof { lemma_pow2_64(); lemma_pow2_mono(width as nat, 64); }
        (pow2_exec(width as u32) - 1) as u64
    }
}

/// One bit shifted through the CRC register (bit-serial Rocksoft model).
pub open spec fn crc_step(spec: CrcSpec, state: u64, bit_in: u64) -> u64 {
    let m = width_mask(spec.width as nat);
    let top = (state >> ((spec.width - 1) as u64)) & 1;
    let shifted = (state << 1u64) & m;
    if top ^ bit_in == 1 { shifted ^ (spec.poly & m) } else { shifted }
}

/// The `i`-th bit a byte feeds in: least significant first with `refin`.
pub open spec fn crc_input_bit(spec: CrcSpec, byte: u8, i: nat) -> u64 {
    if spec.refin { ((byte >> (i as u8)) & 1) as u64 } else { ((byte >> ((7 - i) as u8)) & 1) as u64 }
}

/// The register after the first `n` bits of `byte`.
pub open spec fn crc_byte_bits(spec: CrcSpec, state: u64, byte: u8, n: nat) -> u64
    decreases n,
{
    if n == 0 {
        state
    } else {
        crc_step(spec, crc_byte_bits(spec, state, byte, (n - 1) as nat), crc_input_bit(spec, byte, (n - 1) as nat))
    }
}

/// The register after feeding `data`, byte by byte.
pub open spec fn crc_feed(spec: CrcSpec, state: u64, data: Seq<u8>) -> u64
    decreases data.len(),
{
    if data.len() == 0 { state } else { crc_byte_bits(spec, crc_feed(spec, state, data.drop_last()), data.last(), 8) }
}

/// The low `n` bits of `v` mirrored into the top of a `width`-bit field.
pub open spec fn reflect_bits(v: u64, width: nat, n: nat) -> u64
    decreases n,
{
    if n == 0 {
        0
    } else {
        let r = reflect_bits(v, width, (n - 1) as nat);
        if (v >> ((n - 1) as u64)) & 1 == 1 { r | (1u64 << ((width - n) as u64)) } else { r }
    }
}

/// The CRC of `data` under a model.
pub open spec fn crc_of(spec: CrcSpec, data: Seq<u8>) -> u64 {
    let w = spec.width as nat;
    let st = crc_feed(spec, spec.init & width_mask(w), data);
    let out = if spec.refout { reflect_bits(st, w, w) } else { st };
    (out ^ spec.xorout) & width_mask(w)
}

/// Feeding two pieces one after the other is feeding their concatenation.
pub proof fn lemma_crc_feed_concat(spec: CrcSpec, state: u64, a: Seq<u8>, b: Seq<u8>)
    ensures
        crc_feed(spec, crc_feed(spec, state, a), b) == crc_feed(spec, state, a + b),
    decreases b.len(),
{
    if b.len() == 0 {
        assert(a + b =~= a);
    } else {
        lemma_crc_feed_concat(spec, state, a, b.drop_last());
        assert((a + b).drop_last() =~= a + b.drop_last());
        assert((a + b).last() == b.last());
    }
}

// ---------- Internet checksum ----------

/// The sum of the 16-bit big-endian words of `data` (an odd last byte is
/// the high byte of a word whose low byte is 0).
pub open spec fn ip_words(data: Seq<u8>) -> nat
    decreases data.len(),
{
    if data.len() == 0 {
        0
    } else if data.len() == 1 {
        data[0] as nat * 256
    } else {
        data[0] as nat * 256 + data[1] as nat + ip_words(data.subrange(2, data.len() as int))
    }
}

/// End-around-carry folding of a sum into 16 bits: 0 stays 0, anything else
/// lands in `1..=0xFFFF`, congruent modulo `0xFFFF`.
pub open spec fn ones_fold(t: nat) -> nat {
    if t == 0 { 0 } else { ((t - 1) as nat % 65535) + 1 }
}

/// The RFC 1071 checksum of `data`: the ones' complement of the folded sum.
pub open spec fn ip_of(data: Seq<u8>) -> u64 {
    (0xFFFF - ones_fold(ip_words(data))) as u64
}

proof fn lemma_ip_words_concat(a: Seq<u8>, b: Seq<u8>)
    requires
        a.len() % 2 == 0,
    ensures
        ip_words(a + b) == ip_words(a) + ip_words(b),
    decreases a.len(),
{
    if a.len() == 0 {
        assert(a + b =~= b);
    } else {
        let rest = a.subrange(2, a.len() as int);
        lemma_ip_words_concat(rest, b);
        assert((a + b).subrange(2, (a + b).len() as int) =~= rest + b);
    }
}

/// RFC 1071 padding: an input of odd length is summed as if one zero byte
/// were appended, so appending a zero byte to any input leaves its
/// Internet checksum unchanged.
pub proof fn lemma_ip_zero_pad(d: Seq<u8>)
    ensures
        ip_of(d.push(0)) == ip_of(d),
        ip_words(d.push(0)) == ip_words(d),
{
    lemma_ip_words_pad(d);
}

/// A checksum verifies: an even-length input followed by its own Internet
/// checksum (high byte first) has checksum 0.
pub proof fn lemma_ip_self_check(d: Seq<u8>)
    requires
        d.len() % 2 == 0,
    ensures
        ip_of(d + seq![(ip_of(d) / 256) as u8, (ip_of(d) % 256) as u8]) == 0,
{
    let c = ip_of(d);
    let s = ip_words(d);
    assert(ones_fold(s) <= 0xFFFF) by {
        if s > 0 {
            assert(((s - 1) as nat % 65535) < 65535);
        }
    }
    let hi = (c / 256) as u8;
    let lo = (c % 256) as u8;
    lemma_ip_words_split(d, seq![hi, lo], hi, lo);
    assert(hi as nat * 256 + lo as nat == c as nat);
    lemma_fold_add(s, c as nat);
    assert(ones_fold(s) + c as nat == 0xFFFF);
    assert(ones_fold(0xFFFF) == 0xFFFF);
}

proof fn lemma_ip_words_pad(d: Seq<u8>)
    ensures
        ip_words(d.push(0)) == ip_words(d),
    decreases d.len(),
{
    if d.len() >= 2 {
        let rest = d.subrange(2, d.len() as int);
        lemma_ip_words_pad(rest);
        assert(d.push(0).subrange(2, d.len() + 1 as int) =~= rest.push(0));
        assert(d.push(0)[0] == d[0] && d.push(0)[1] == d[1]);
    } else if d.len() == 1 {
        assert(d.push(0).subrange(2, 2) =~= Seq::<u8>::empty());
        assert(d.push(0)[0] == d[0] && d.push(0)[1] == 0);
        assert(ip_words(Seq::<u8>::empty()) == 0);
    } else {
        assert(d.push(0) =~= seq![0u8]);
    }
}

/// The Internet checksum sums 16-bit words, high byte first: the words of
/// a concatenation whose first part has even length are the words of each
/// part, and a two-byte input is the one word `hi * 256 + lo`.
pub proof fn lemma_ip_words_split(a: Seq<u8>, b: Seq<u8>, hi: u8, lo: u8)
    requires
        a.len() % 2 == 0,
    ensures
        ip_words(a + b) == ip_words(a) + ip_words(b),
        ip_words(seq![hi, lo]) == hi as nat * 256 + lo as nat,
{
    lemma_ip_words_concat(a, b);
    let w = seq![hi, lo];
    assert(w.subrange(2, 2) =~= Seq::<u8>::empty());
    assert(w[0] == hi && w[1] == lo && w.len() == 2);
    assert(ip_words(Seq::<u8>::empty()) == 0);
}

proof fn lemma_fold_add(s: nat, x: nat)
    ensures
        ones_fold(ones_fold(s) + x) == ones_fold(s + x),
{
    if s > 0 {
        let q = ((s - 1) as nat) / 65535;
        vstd::arithmetic::div_mod::lemma_fundamental_div_mod((s - 1) as int, 65535);
        // s - 1 == 65535 * q + (ones_fold(s) - 1)
        let f = ones_fold(s);
        assert((s + x - 1) as int == 65535 * q + (f + x - 1)) by (nonlinear_arith)
            requires (s - 1) as int == 65535 * q + ((s - 1) as nat % 65535), f == ((s - 1) as nat % 65535) + 1;
        vstd::arithmetic::div_mod::lemma_mod_multiples_vanish(q as int, (f + x - 1) as int, 65535);
    }
}

/// One end-around-carry fold of a 32-bit sum keeps its folded value.
proof fn lemma_fold_step(s: u32)
    ensures
        ones_fold(((s & 0xFFFF) + (s >> 16)) as nat) == ones_fold(s as nat),
        (s & 0xFFFF) + (s >> 16) <= s,
        s > 0xFFFF ==> (s & 0xFFFF) + (s >> 16) < s,
{
    assert(s & 0xFFFF == s % 65536) by (bit_vector);
    assert(s >> 16 == s / 65536) by (bit_vector);
    let q = (s / 65536) as nat;
    let t = ((s & 0xFFFF) + (s >> 16)) as nat;
    assert(s as nat == 65536 * q + s as nat % 65536);
    assert(s as nat == t + 65535 * q);
    if s > 0 {
        assert(t > 0);
        vstd::arithmetic::div_mod::lemma_mod_multiples_vanish(q as int, (t - 1) as int, 65535);
        assert((s - 1) as int == 65535 * q + (t - 1));
    }
}

// ---------- hashes ----------

/// What MD5 gives for `data`.
pub uninterp spec fn md5_of(data: Seq<u8>) -> Seq<u8>;
/// What SHA-1 gives for `data`.
pub uninterp spec fn sha1_of(data: Seq<u8>) -> Seq<u8>;
/// What SHA-256 gives for `data`.
pub uninterp spec fn sha256_of(data: Seq<u8>) -> Seq<u8>;

/// `md5::Md5::digest`: the 16-byte MD5 digest of `data`.
#[verifier::external_body]
fn md5_digest(data: &[u8]) -> (r: Vec<u8>)
    ensures
        r@ == md5_of(data@),
        r@.len() == 16,
{
    md5::Md5::digest(data).to_vec()
}

/// `sha1::Sha1::digest`: the 20-byte SHA-1 digest of `data`.
#[verifier::external_body]
fn sha1_digest(data: &[u8]) -> (r: Vec<u8>)
    ensures
        r@ == sha1_of(data@),
        r@.len() == 20,
{
    sha1::Sha1::digest(data).to_vec()
}

/// `sha2::Sha256::digest`: the 32-byte SHA-256 digest of `data`.
#[verifier::external_body]
fn sha256_digest(data: &[u8]) -> (r: Vec<u8>)
    ensures
        r@ == sha256_of(data@),
        r@.len() == 32,
{
    sha2::Sha256::digest(data).to_vec()
}

// ---------- the running digest ----------

#[derive(Debug, Clone, PartialEq)]
pub enum DigestVal {
    Int(u64),
    Bytes(Vec<u8>),
}

/// Whether `d` is what `algo` gives for `data`.
pub open spec fn digest_is(d: DigestVal, algo: Algo, data: Seq<u8>) -> bool {
    match algo {
        Algo::Crc(s) => d == DigestVal::Int(crc_of(s, data)),
        Algo::IpChecksum => d == DigestVal::Int(ip_of(data)),
        Algo::Md5 => d matches DigestVal::Bytes(b) && b@ == md5_of(data),
        Algo::Sha1 => d matches DigestVal::Bytes(b) && b@ == sha1_of(data),
        Algo::Sha256 => d matches DigestVal::Bytes(b) && b@ == sha256_of(data),
    }
}

enum HState {
    Crc { spec: CrcSpec, state: u64 },
    Ip { sum: u32, odd: Option<u8> },
    Buffered { algo: Algo, data: Vec<u8> },
}

/// A digest being computed: bytes are fed in pieces, `finalize` gives the
/// digest of everything fed.
pub struct Hasher {
    st: HState,
    fed: Ghost<Seq<u8>>,
}

impl Hasher {
    /// The algorithm this hasher runs.
    pub closed spec fn algo(&self) -> Algo {
        match self.st {
            HState::Crc { spec, .. } => Algo::Crc(spec),
            HState::Ip { .. } => Algo::IpChecksum,
            HState::Buffered { algo, .. } => algo,
        }
    }

    /// Everything fed so far.
    pub closed spec fn fed(&self) -> Seq<u8> {
        self.fed@
    }

    /// The running state stands for the bytes fed so far.
    pub closed spec fn wf(&self) -> bool {
        let d = self.fed@;
        match self.st {
            HState::Crc { spec, state } => 1 <= spec.width <= 64
                && state == crc_feed(spec, spec.init & width_mask(spec.width as nat), d),
            HState::Ip { sum, odd } => {
                let even = d.subrange(0, d.len() - d.len() % 2);
                &&& sum <= 0xFFFF
                &&& ones_fold(sum as nat) == ones_fold(ip_words(even))
                &&& (d.len() % 2 == 1 <==> odd is Some)
                &&& (odd matches Some(b) ==> b == d.last())
            },
            HState::Buffered { algo, data } => data@ == d && (algo is Md5 || algo is Sha1 || algo is Sha256),
        }
    }

    pub fn new(algo: &Algo) -> (h: Hasher)
        requires
            algo_ok(*algo),
        ensures
            h.wf(),
            h.algo() == *algo,
            h.fed() == Seq::<u8>::empty(),
    {
        match algo {
            Algo::Crc(spec) => {
                let m = mask(spec.width);
                Hasher { st: HState::Crc { spec: *spec, state: spec.init & m }, fed: Ghost(Seq::empty()) }
            },
            Algo::IpChecksum => Hasher { st: HState::Ip { sum: 0, odd: None }, fed: Ghost(Seq::empty()) },
            _ => Hasher { st: HState::Buffered { algo: *algo, data: Vec::new() }, fed: Ghost(Seq::empty()) },
        }
    }

    /// Feeds one byte.
    pub fn update_byte(&mut self, b: u8)
        requires
            old(self).wf(),
        ensures
            final(self).wf(),
            final(self).algo() == old(self).algo(),
            final(self).fed() == old(self).fed().push(b),
    {
        let ghost d = self.fed@;
        let ghost d2 = d.push(b);
        match &mut self.st {
            HState::Crc { spec, state } => {
                let m = mask(spec.width);
                let mut s = *state;
                let mut i: u32 = 0;
                while i < 8
                    invariant
                        1 <= spec.width <= 64,
                        m == width_mask(spec.width as nat),
                        i <= 8,
                        s == crc_byte_bits(*spec, crc_feed(*spec, spec.init & width_mask(spec.width as nat), d), b, i as nat),
                    decreases 8 - i,
                {
                    let bit_in: u64 = if spec.refin { ((b >> (i as u8)) & 1) as u64 } else { ((b >> ((7 - i) as u8)) & 1) as u64 };
                    let top = (s >> ((spec.width - 1) as u64)) & 1;
                    let shifted = (s << 1u64) & m;
                    s = if top ^ bit_in == 1 { shifted ^ (spec.poly & m) } else { shifted };
                    i = i + 1;
                }
                *state = s;
                proof { assert(d2.drop_last() =~= d); }
            },
            HState::Ip { sum, odd } => {
                match *odd {
                    Some(hi) => {
                        let ghost s0 = *sum as nat;
                        let mut s: u32 = *sum + (hi as u32) * 256 + b as u32;
                        let ghost raw = s as nat;
                        while s > 0xFFFF
                            invariant
                                ones_fold(s as nat) == ones_fold(raw),
                            decreases s,
                        {
                            proof { lemma_fold_step(s); }
                            s = (s & 0xFFFF) + (s >> 16);
                        }
                        *sum = s;
                        *odd = None;
                        proof {
                            let even = d.subrange(0, d.len() - 1);
                            let pair = seq![hi, b];
                            assert(d2.subrange(0, d2.len() - d2.len() % 2) =~= even + pair);
                            lemma_ip_words_concat(even, pair);
                            assert(ip_words(pair.subrange(2, 2)) == 0);
                            assert(ip_words(pair) == hi as nat * 256 + b as nat);
                            lemma_fold_add(ip_words(even), hi as nat * 256 + b as nat);
                            lemma_fold_add(s0, hi as nat * 256 + b as nat);
                        }
                    },
                    None => {
                        *odd = Some(b);
                        proof {
                            assert(d2.subrange(0, d2.len() - d2.len() % 2) =~= d.subrange(0, d.len() - d.len() % 2));
                        }
                    },
                }
            },
            HState::Buffered { data, .. } => {
                data.push(b);
            },
        }
        self.fed = Ghost(d2);
    }

    /// Feeds `data`.
    pub fn update(&mut self, data: &[u8])
        requires
            old(self).wf(),
        ensures
            final(self).wf(),
            final(self).algo() == old(self).algo(),
            final(self).fed() == old(self).fed() + data@,
    {
        let mut i: usize = 0;
        while i < data.len()
            invariant
                self.wf(),
                self.algo() == old(self).algo(),
                i <= data@.len(),
                self.fed() == old(self).fed() + data@.subrange(0, i as int),
            decreases data@.len() - i,
        {
            self.update_byte(data[i]);
            proof { assert(data@.subrange(0, i + 1) =~= data@.subrange(0, i as int).push(data@[i as int])); }
            i = i + 1;
        }
        proof { assert(data@.subrange(0, data@.len() as int) =~= data@); }
    }

    /// Feeds `buf[start..end]`.
    pub fn update_range(&mut self, buf: &[u8], start: usize, end: usize)
        requires
            old(self).wf(),
            start <= end <= buf@.len(),
        ensures
            final(self).wf(),
            final(self).algo() == old(self).algo(),
            final(self).fed() == old(self).fed() + buf@.subrange(start as int, end as int),
    {
        let mut i = start;
        while i < end
            invariant
                self.wf(),
                self.algo() == old(self).algo(),
                start <= i <= end <= buf@.len(),
                self.fed() == old(self).fed() + buf@.subrange(start as int, i as int),
            decreases end - i,
        {
            self.update_byte(buf[i]);
            proof { assert(buf@.subrange(start as int, i + 1) =~= buf@.subrange(start as int, i as int).push(buf@[i as int])); }
            i = i + 1;
        }
    }

    /// Feeds `n` zero bytes.
    pub fn update_zeros(&mut self, n: usize)
        requires
            old(self).wf(),
        ensures
            final(self).wf(),
            final(self).algo() == old(self).algo(),
            final(self).fed() == old(self).fed() + Seq::new(n as nat, |i: int| 0u8),
    {
        let mut i: usize = 0;
        while i < n
            invariant
                self.wf(),
                self.algo() == old(self).algo(),
                i <= n,
                self.fed() == old(self).fed() + Seq::new(i as nat, |j: int| 0u8),
            decreases n - i,
        {
            self.update_byte(0);
            proof { assert(Seq::new((i + 1) as nat, |j: int| 0u8) =~= Seq::new(i as nat, |j: int| 0u8).push(0u8)); }
            i = i + 1;
        }
    }

    /// The digest of everything fed.
    pub fn finalize(self) -> (d: DigestVal)
        requires
            self.wf(),
        ensures
            digest_is(d, self.algo(), self.fed()),
    {
        let ghost fed = self.fed@;
        match self.st {
            HState::Crc { spec, state } => {
                let w = spec.width;
                let mut out = state;
                if spec.refout {
                    out = reflect(state, w);
                }
                DigestVal::Int((out ^ spec.xorout) & mask(w))
            },
            HState::Ip { sum, odd } => {
                let mut s: u32 = sum;
                let ghost raw: nat;
                match odd {
                    Some(hi) => {
                        s = s + (hi as u32) * 256;
                        proof {
                            let even = fed.subrange(0, fed.len() - 1);
                            assert(fed =~= even + seq![hi]);
                            lemma_ip_words_concat(even, seq![hi]);
                            lemma_fold_add(ip_words(even), hi as nat * 256);
                            lemma_fold_add(sum as nat, hi as nat * 256);
                            raw = s as nat;
                        }
                    },
                    None => {
                        proof {
                            assert(fed.subrange(0, fed.len() as int) =~= fed);
                            raw = s as nat;
                        }
                    },
                }
                while s > 0xFFFF
                    invariant
                        ones_fold(s as nat) == ones_fold(raw),
                    decreases s,
                {
                    proof { lemma_fold_step(s); }
                    s = (s & 0xFFFF) + (s >> 16);
                }
                proof {
                    if s > 0 {
                        assert(ones_fold(s as nat) == s) by {
                            vstd::arithmetic::div_mod::lemma_small_mod((s - 1) as nat, 65535);
                        }
                    }
                }
                DigestVal::Int((0xFFFF - s) as u64)
            },
            HState::Buffered { algo, data } => {
                match algo {
                    Algo::Md5 => DigestVal::Bytes(md5_digest(data.as_slice())),
                    Algo::Sha1 => DigestVal::Bytes(sha1_digest(data.as_slice())),
                    _ => DigestVal::Bytes(sha256_digest(data.as_slice())),
                }
            },
        }
    }
}

/// The low `width` bits of `v` mirrored.
fn reflect(v: u64, width: u8) -> (r: u64)
    requires
        1 <= width <= 64,
    ensures
        r == reflect_bits(v, width as nat, width as nat),
{
    let mut out: u64 = 0;
    let mut i: u8 = 0;
    while i < width
        invariant
            i <= width <= 64,
            out == reflect_bits(v, width as nat, i as nat),
        decreases width - i,
    {
        if (v >> (i as u64)) & 1 == 1 {
            out = out | (1u64 << ((width - 1 - i) as u64));
        }
        i = i + 1;
    }
    out
}

} // verus!
