//! SHA-1 (FIPS 180-4) and HMAC-SHA1 (RFC 2104), as TOTP (RFC 6238) needs them.
use vstd::prelude::*;

verus! {

/// SHA-1 chaining state: the five 32-bit words `H0..H4`.
pub type Sha1State = (u32, u32, u32, u32, u32);

/// The initial hash value of FIPS 180-4 §5.3.1.
pub open spec fn sha1_init() -> Sha1State {
    (0x67452301u32, 0xEFCDAB89u32, 0x98BADCFEu32, 0x10325476u32, 0xC3D2E1F0u32)
}

/// Left rotation of a 32-bit word by `n` bits (`0 < n < 32`).
pub open spec fn rotl(x: u32, n: u32) -> u32 {
    (x << n) | (x >> ((32 - n) as u32))
}

/// The round function `f_t` of FIPS 180-4 §4.1.1.
pub open spec fn f_t(t: int, b: u32, c: u32, d: u32) -> u32 {
    if t < 20 {
        (b & c) | (!b & d)
    } else if t < 40 {
        b ^ c ^ d
    } else if t < 60 {
        (b & c) | (b & d) | (c & d)
    } else {
        b ^ c ^ d
    }
}

/// The round constant `K_t` of FIPS 180-4 §4.2.1.
pub open spec fn k_t(t: int) -> u32 {
    if t < 20 {
        0x5A827999u32
    } else if t < 40 {
        0x6ED9EBA1u32
    } else if t < 60 {
        0x8F1BBCDCu32
    } else {
        0xCA62C1D6u32
    }
}

/// The big-endian 32-bit word at byte offset `i` of `s`.
pub open spec fn word_be(s: Seq<u8>, i: int) -> u32 {
    ((s[i] as u32) << 24u32) | ((s[i + 1] as u32) << 16u32) | ((s[i + 2] as u32) << 8u32) | (
    s[i + 3] as u32)
}

/// The first `n` words of the message schedule of a 64-byte block.
pub open spec fn schedule(block: Seq<u8>, n: nat) -> Seq<u32>
    decreases n,
{
    if n == 0 {
        seq![]
    } else {
        let w = schedule(block, (n - 1) as nat);
        let t = n - 1;
        w.push(
            if t < 16 {
                word_be(block, 4 * t)
            } else {
                rotl(w[t - 3] ^ w[t - 8] ^ w[t - 14] ^ w[t - 16], 1)
            },
        )
    }
}

/// One round of the compression function.
pub open spec fn sha1_round(s: Sha1State, t: int, w: u32) -> Sha1State {
    let temp = rotl(s.0, 5).wrapping_add(f_t(t, s.1, s.2, s.3)).wrapping_add(s.4).wrapping_add(
        k_t(t),
    ).wrapping_add(w);
    (temp, s.0, rotl(s.1, 30), s.2, s.3)
}

/// The state after the first `n` rounds over the schedule `w`.
pub open spec fn sha1_rounds(s: Sha1State, w: Seq<u32>, n: nat) -> Sha1State
    decreases n,
{
    if n == 0 {
        s
    } else {
        sha1_round(sha1_rounds(s, w, (n - 1) as nat), n - 1, w[n - 1])
    }
}

/// The compression of one 64-byte block into the chaining state `h`.
pub open spec fn compress(h: Sha1State, block: Seq<u8>) -> Sha1State {
    let r = sha1_rounds(h, schedule(block, 80), 80);
    (
        h.0.wrapping_add(r.0),
        h.1.wrapping_add(r.1),
        h.2.wrapping_add(r.2),
        h.3.wrapping_add(r.3),
        h.4.wrapping_add(r.4),
    )
}

/// The chaining state after compressing every whole 64-byte block of `data`.
pub open spec fn process(h: Sha1State, data: Seq<u8>) -> Sha1State
    decreases data.len(),
{
    if data.len() < 64 {
        h
    } else {
        process(compress(h, data.take(64)), data.skip(64))
    }
}

/// The big-endian bytes of a 64-bit value.
pub open spec fn be64(v: u64) -> Seq<u8> {
    seq![
        (v >> 56u64) as u8,
        (v >> 48u64) as u8,
        (v >> 40u64) as u8,
        (v >> 32u64) as u8,
        (v >> 24u64) as u8,
        (v >> 16u64) as u8,
        (v >> 8u64) as u8,
        v as u8,
    ]
}

/// The big-endian bytes of a 32-bit value.
pub open spec fn be32(v: u32) -> Seq<u8> {
    seq![(v >> 24u32) as u8, (v >> 16u32) as u8, (v >> 8u32) as u8, v as u8]
}

/// The message length in bits, modulo 2^64, as the padding records it.
pub open spec fn bit_length(len: nat) -> u64 {
    ((len * 8) % 0x1_0000_0000_0000_0000) as u64
}

/// Number of zero bytes between the `0x80` marker and the length field.
pub open spec fn zero_fill(len: nat) -> nat {
    ((128 - (len + 9) % 64) % 64) as nat
}

/// The padded message of FIPS 180-4 §5.1.1.
pub open spec fn pad(msg: Seq<u8>) -> Seq<u8> {
    msg + seq![0x80u8] + Seq::new(zero_fill(msg.len()), |i: int| 0u8) + be64(
        bit_length(msg.len()),
    )
}

/// The 20-byte digest of a final chaining state.
pub open spec fn state_bytes(h: Sha1State) -> Seq<u8> {
    be32(h.0) + be32(h.1) + be32(h.2) + be32(h.3) + be32(h.4)
}

/// SHA-1 of `msg`.
pub open spec fn sha1_spec(msg: Seq<u8>) -> Seq<u8> {
    state_bytes(process(sha1_init(), pad(msg)))
}

/// The HMAC key block: the key (hashed first when longer than a block),
/// padded with zeros to 64 bytes.
pub open spec fn hmac_key_block(key: Seq<u8>) -> Seq<u8> {
    let k = if key.len() > 64 {
        sha1_spec(key)
    } else {
        key
    };
    k + Seq::new((64 - k.len()) as nat, |i: int| 0u8)
}

/// The key block XORed with a pad byte.
pub open spec fn xor_pad(k: Seq<u8>, p: u8) -> Seq<u8> {
    Seq::new(64, |i: int| k[i] ^ p)
}

/// HMAC-SHA1 of `msg` under `key` (RFC 2104).
pub open spec fn hmac_sha1_spec(key: Seq<u8>, msg: Seq<u8>) -> Seq<u8> {
    let k0 = hmac_key_block(key);
    sha1_spec(xor_pad(k0, 0x5c) + sha1_spec(xor_pad(k0, 0x36) + msg))
}

proof fn lemma_process_append(h: Sha1State, a: Seq<u8>, b: Seq<u8>)
    requires
        a.len() % 64 == 0,
    ensures
        process(h, a + b) == process(process(h, a), b),
    decreases a.len(),
{
    if a.len() == 0 {
        assert(a + b == b);
    } else {
        assert((a + b).take(64) == a.take(64));
        assert((a + b).skip(64) == a.skip(64) + b);
        lemma_process_append(compress(h, a.take(64)), a.skip(64), b);
    }
}

proof fn lemma_schedule_len(block: Seq<u8>, n: nat)
    ensures
        schedule(block, n).len() == n,
    decreases n,
{
    if n > 0 {
        lemma_schedule_len(block, (n - 1) as nat);
    }
}

/// The big-endian word at `data[o..o+4]`.
fn word_at(data: &Vec<u8>, o: usize) -> (w: u32)
    requires
        o + 4 <= data.len(),
    ensures
        w == word_be(data@, o as int),
{
    ((data[o] as u32) << 24u32) | ((data[o + 1] as u32) << 16u32) | ((data[o + 2] as u32) << 8u32)
        | (data[o + 3] as u32)
}

/// Compresses the block `data[off..off+64]` into `h`.
fn compress_block(h: Sha1State, data: &Vec<u8>, off: usize) -> (r: Sha1State)
    requires
        off + 64 <= data.len(),
    ensures
        r == compress(h, data@.subrange(off as int, off + 64)),
{
    let ghost block = data@.subrange(off as int, off + 64);
    let mut w: Vec<u32> = Vec::new();
    let mut t: usize = 0;
    while t < 80
        invariant
            t <= 80,
            off + 64 <= data.len(),
            block == data@.subrange(off as int, off + 64),
            w@ == schedule(block, t as nat),
        decreases 80 - t,
    {
        proof {
            lemma_schedule_len(block, t as nat);
        }
        let v = if t < 16 {
            let x = word_at(data, off + 4 * t);
            assert(word_be(block, 4 * t) == word_be(data@, off + 4 * t));
            x
        } else {
            let x = w[t - 3] ^ w[t - 8] ^ w[t - 14] ^ w[t - 16];
            (x << 1u32) | (x >> 31u32)
        };
        w.push(v);
        t += 1;
    }
    proof {
        lemma_schedule_len(block, 80);
    }
    let (mut a, mut b, mut c, mut d, mut e) = h;
    let mut t: usize = 0;
    while t < 80
        invariant
            t <= 80,
            w@ == schedule(block, 80),
            w@.len() == 80,
            (a, b, c, d, e) == sha1_rounds(h, w@, t as nat),
        decreases 80 - t,
    {
        let f = if t < 20 {
            (b & c) | (!b & d)
        } else if t < 40 {
            b ^ c ^ d
        } else if t < 60 {
            (b & c) | (b & d) | (c & d)
        } else {
            b ^ c ^ d
        };
        let k: u32 = if t < 20 {
            0x5A827999
        } else if t < 40 {
            0x6ED9EBA1
        } else if t < 60 {
            0x8F1BBCDC
        } else {
            0xCA62C1D6
        };
        let temp = ((a << 5u32) | (a >> 27u32)).wrapping_add(f).wrapping_add(e).wrapping_add(
            k,
        ).wrapping_add(w[t]);
        e = d;
        d = c;
        c = (b << 30u32) | (b >> 2u32);
        b = a;
        a = temp;
        t += 1;
    }
    (
        h.0.wrapping_add(a),
        h.1.wrapping_add(b),
        h.2.wrapping_add(c),
        h.3.wrapping_add(d),
        h.4.wrapping_add(e),
    )
}

/// Appends the big-endian bytes of `v`.
fn push_be32(out: &mut Vec<u8>, v: u32)
    ensures
        final(out)@ == old(out)@ + be32(v),
{
    out.push((v >> 24u32) as u8);
    out.push((v >> 16u32) as u8);
    out.push((v >> 8u32) as u8);
    out.push(v as u8);
}

/// Appends the big-endian bytes of `v`.
pub fn push_be64(out: &mut Vec<u8>, v: u64)
    ensures
        final(out)@ == old(out)@ + be64(v),
{
    out.push((v >> 56u64) as u8);
    out.push((v >> 48u64) as u8);
    out.push((v >> 40u64) as u8);
    out.push((v >> 32u64) as u8);
    out.push((v >> 24u64) as u8);
    out.push((v >> 16u64) as u8);
    out.push((v >> 8u64) as u8);
    out.push(v as u8);
}

/// Compresses the whole blocks `data[lo..hi]` into `h`.
fn process_blocks(h: Sha1State, data: &Vec<u8>, lo: usize, hi: usize) -> (r: Sha1State)
    requires
        lo <= hi <= data.len(),
        (hi - lo) % 64 == 0,
    ensures
        r == process(h, data@.subrange(lo as int, hi as int)),
{
    let mut g = h;
    let mut off: usize = lo;
    while off < hi
        invariant
            lo <= off <= hi,
            hi <= data.len(),
            (hi - off) % 64 == 0,
            process(h, data@.subrange(lo as int, hi as int)) == process(
                g,
                data@.subrange(off as int, hi as int),
            ),
        decreases hi - off,
    {
        let ghost rest = data@.subrange(off as int, hi as int);
        assert(rest.take(64) == data@.subrange(off as int, off + 64));
        assert(rest.skip(64) == data@.subrange(off + 64, hi as int));
        g = compress_block(g, data, off);
        off += 64;
    }
    assert(data@.subrange(hi as int, hi as int).len() == 0);
    g
}

/// The final one or two blocks of the padded message: the bytes after the
/// last whole block, the `0x80` marker, the zero fill and the bit length.
fn final_blocks(msg: &Vec<u8>, full: usize) -> (tail: Vec<u8>)
    requires
        full == msg@.len() / 64 * 64,
    ensures
        msg@.take(full as int) + tail@ == pad(msg@),
        tail@.len() == 64 || tail@.len() == 128,
{
    let len = msg.len();
    let mut tail: Vec<u8> = Vec::new();
    let mut i: usize = full;
    while i < len
        invariant
            full <= i <= len,
            len == msg@.len(),
            tail@ == msg@.subrange(full as int, i as int),
        decreases len - i,
    {
        tail.push(msg[i]);
        i += 1;
    }
    tail.push(0x80);
    let rem = len - full;
    let zeros: usize = (128 - (rem + 9) % 64) % 64;
    assert(zeros == zero_fill(len as nat));
    let ghost before = tail@;
    let mut z: usize = 0;
    while z < zeros
        invariant
            z <= zeros,
            zeros < 64,
            tail@ == before + Seq::new(z as nat, |i: int| 0u8),
        decreases zeros - z,
    {
        tail.push(0);
        z += 1;
        assert(tail@ == before + Seq::new(z as nat, |i: int| 0u8));
    }
    let bits = (len as u64).wrapping_mul(8);
    assert(bits == bit_length(len as nat));
    push_be64(&mut tail, bits);
    assert(msg@.take(full as int) + msg@.subrange(full as int, len as int) == msg@);
    assert(msg@.take(full as int) + tail@ == pad(msg@));
    tail
}

/// SHA-1 digest of `msg`.
pub fn sha1(msg: &Vec<u8>) -> (digest: Vec<u8>)
    ensures
        digest@ == sha1_spec(msg@),
        digest@.len() == 20,
{
    let full = msg.len() / 64 * 64;
    let h0: Sha1State = (0x67452301, 0xEFCDAB89, 0x98BADCFE, 0x10325476, 0xC3D2E1F0);
    let h = process_blocks(h0, msg, 0, full);
    let tail = final_blocks(msg, full);
    let h = process_blocks(h, &tail, 0, tail.len());
    proof {
        assert(msg@.subrange(0, full as int) == msg@.take(full as int));
        assert(tail@.subrange(0, tail@.len() as int) == tail@);
        lemma_process_append(sha1_init(), msg@.take(full as int), tail@);
    }
    let mut digest: Vec<u8> = Vec::new();
    push_be32(&mut digest, h.0);
    push_be32(&mut digest, h.1);
    push_be32(&mut digest, h.2);
    push_be32(&mut digest, h.3);
    push_be32(&mut digest, h.4);
    digest
}

/// HMAC-SHA1 of `msg` under `key`.
pub fn hmac_sha1(key: &[u8], msg: &[u8]) -> (mac: Vec<u8>)
    ensures
        mac@ == hmac_sha1_spec(key@, msg@),
        mac@.len() == 20,
{
    let mut k: Vec<u8> = Vec::new();
    let klen = key.len();
    let mut i: usize = 0;
    while i < klen
        invariant
            i <= klen,
            klen == key@.len(),
            k@ == key@.take(i as int),
        decreases klen - i,
    {
        k.push(key[i]);
        i += 1;
    }
    assert(key@.take(klen as int) == key@);
    if klen > 64 {
        k = sha1(&k);
    }
    let ghost kk = k@;
    while k.len() < 64
        invariant
            k@.len() <= 64,
            k@.len() >= kk.len(),
            k@ == kk + Seq::new((k@.len() - kk.len()) as nat, |i: int| 0u8),
        decreases 64 - k@.len(),
    {
        k.push(0);
        assert(k@ == kk + Seq::new((k@.len() - kk.len()) as nat, |i: int| 0u8));
    }
    assert(k@ == hmac_key_block(key@));
    let mut inner: Vec<u8> = Vec::new();
    let mut outer: Vec<u8> = Vec::new();
    let mut j: usize = 0;
    while j < 64
        invariant
            j <= 64,
            k@.len() == 64,
            inner@ == xor_pad(k@, 0x36).take(j as int),
            outer@ == xor_pad(k@, 0x5c).take(j as int),
        decreases 64 - j,
    {
        inner.push(k[j] ^ 0x36);
        outer.push(k[j] ^ 0x5c);
        j += 1;
        assert(inner@ == xor_pad(k@, 0x36).take(j as int));
        assert(outer@ == xor_pad(k@, 0x5c).take(j as int));
    }
    assert(inner@ == xor_pad(k@, 0x36));
    assert(outer@ == xor_pad(k@, 0x5c));
    let ghost ipad = inner@;
    let mlen = msg.len();
    let mut m: usize = 0;
    while m < mlen
        invariant
            m <= mlen,
            mlen == msg@.len(),
            inner@ == ipad + msg@.take(m as int),
        decreases mlen - m,
    {
        inner.push(msg[m]);
        m += 1;
        assert(inner@ == ipad + msg@.take(m as int));
    }
    assert(msg@.take(mlen as int) == msg@);
    let ih = sha1(&inner);
    let ghost opad = outer@;
    let mut n: usize = 0;
    while n < 20
        invariant
            n <= 20,
            ih@.len() == 20,
            outer@ == opad + ih@.take(n as int),
        decreases 20 - n,
    {
        outer.push(ih[n]);
        n += 1;
        assert(outer@ == opad + ih@.take(n as int));
    }
    assert(ih@.take(20) == ih@);
    sha1(&outer)
}

} // verus!
