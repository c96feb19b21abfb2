//! A parametric Base64 codec: a 64-character charset fixed at construction,
//! with optional `=` padding. Encoding drains the input through 3-byte
//! groups, MSB-first; decoding accepts sextets until the first `=`.
use vstd::prelude::*;

verus! {

/// The byte value of the padding character `=`.
pub const PAD_BYTE: u8 = 61;

/// The byte value that marks an invalid entry in the reverse table.
pub const INVALID_SEXTET: u8 = 255;

/// First sextet of a 3-byte group: top 6 bits of byte 0.
pub open spec fn sx0(b0: u8) -> u8 {
    b0 >> 2
}

/// Second sextet: low 2 bits of byte 0, top 4 bits of byte 1.
pub open spec fn sx1(b0: u8, b1: u8) -> u8 {
    ((b0 & 0x03) << 4) | (b1 >> 4)
}

/// Third sextet: low 4 bits of byte 1, top 2 bits of byte 2.
pub open spec fn sx2(b1: u8, b2: u8) -> u8 {
    ((b1 & 0x0f) << 2) | (b2 >> 6)
}

/// Fourth sextet: low 6 bits of byte 2.
pub open spec fn sx3(b2: u8) -> u8 {
    b2 & 0x3f
}

/// First byte recombined from two adjacent sextets.
pub open spec fn dx0(v0: u8, v1: u8) -> u8 {
    (v0 << 2) | (v1 >> 4)
}

/// Second byte recombined from two adjacent sextets.
pub open spec fn dx1(v1: u8, v2: u8) -> u8 {
    ((v1 & 0x0f) << 4) | (v2 >> 2)
}

/// Third byte recombined from two adjacent sextets.
pub open spec fn dx2(v2: u8, v3: u8) -> u8 {
    ((v2 & 0x03) << 6) | v3
}

/// The sextet values of a byte sequence, MSB-first, with a partial final
/// group left-padded with zero bits to a multiple of 6.
pub open spec fn b64_sextets_of(s: Seq<u8>) -> Seq<u8>
    decreases s.len(),
{
    if s.len() >= 3 {
        seq![sx0(s[0]), sx1(s[0], s[1]), sx2(s[1], s[2]), sx3(s[2])] + b64_sextets_of(s.skip(3))
    } else if s.len() == 2 {
        seq![sx0(s[0]), sx1(s[0], s[1]), sx2(s[1], 0)]
    } else if s.len() == 1 {
        seq![sx0(s[0]), sx1(s[0], 0)]
    } else {
        Seq::empty()
    }
}

/// The unpadded encoding of `s` under charset `cs`.
pub open spec fn b64_encode_raw(cs: Seq<u8>, s: Seq<u8>) -> Seq<u8>
    decreases s.len(),
{
    if s.len() >= 3 {
        seq![
            cs[sx0(s[0]) as int],
            cs[sx1(s[0], s[1]) as int],
            cs[sx2(s[1], s[2]) as int],
            cs[sx3(s[2]) as int],
        ] + b64_encode_raw(cs, s.skip(3))
    } else if s.len() == 2 {
        seq![cs[sx0(s[0]) as int], cs[sx1(s[0], s[1]) as int], cs[sx2(s[1], 0) as int]]
    } else if s.len() == 1 {
        seq![cs[sx0(s[0]) as int], cs[sx1(s[0], 0) as int]]
    } else {
        Seq::empty()
    }
}

/// How many `=` characters a padded encoding appends.
pub open spec fn b64_pad_count(pad: bool, n: nat) -> nat {
    if pad {
        if n % 3 == 1 {
            2
        } else if n % 3 == 2 {
            1
        } else {
            0
        }
    } else {
        0
    }
}

/// The encoding of `s` under charset `cs`, with padding if `pad`.
pub open spec fn b64_encode(cs: Seq<u8>, pad: bool, s: Seq<u8>) -> Seq<u8> {
    b64_encode_raw(cs, s) + Seq::new(b64_pad_count(pad, s.len()), |i: int| PAD_BYTE)
}

/// The exact length of an encoding of `n` input bytes.
pub open spec fn spec_encode_len(pad: bool, n: nat) -> nat {
    if pad {
        ((n + 2) / 3) * 4
    } else {
        n / 3 * 4 + (n % 3 * 4 + 2) / 3
    }
}

/// The output length that a decode of `n` encoded bytes never exceeds.
pub open spec fn spec_decode_len(pad: bool, n: nat) -> nat {
    if pad {
        (n / 4) * 3
    } else {
        (n * 3) / 4
    }
}

/// The sextet values of the encoded text up to the first `=`, or `None`
/// if a byte before the first `=` is not in the charset.
pub open spec fn b64_scan(dec: Seq<u8>, s: Seq<u8>) -> Option<Seq<u8>>
    decreases s.len(),
{
    if s.len() == 0 {
        Some(Seq::empty())
    } else if s[0] == PAD_BYTE {
        Some(Seq::empty())
    } else if dec[s[0] as int] == INVALID_SEXTET {
        None
    } else {
        match b64_scan(dec, s.skip(1)) {
            Some(t) => Some(seq![dec[s[0] as int]] + t),
            None => None,
        }
    }
}

/// The bytes recombined from a sequence of sextet values; a trailing
/// group shorter than 8 bits yields nothing.
pub open spec fn b64_bytes_of(v: Seq<u8>) -> Seq<u8>
    decreases v.len(),
{
    if v.len() >= 4 {
        seq![dx0(v[0], v[1]), dx1(v[1], v[2]), dx2(v[2], v[3])] + b64_bytes_of(v.skip(4))
    } else if v.len() == 3 {
        seq![dx0(v[0], v[1]), dx1(v[1], v[2])]
    } else if v.len() == 2 {
        seq![dx0(v[0], v[1])]
    } else {
        Seq::empty()
    }
}

/// The full decode of encoded text `s` under reverse table `dec`.
pub open spec fn b64_decode(dec: Seq<u8>, s: Seq<u8>) -> Option<Seq<u8>> {
    match b64_scan(dec, s) {
        Some(v) => Some(b64_bytes_of(v)),
        None => None,
    }
}

/// Character `i` of the standard charset `A-Z a-z 0-9 + /`.
pub open spec fn std_b64_char(i: int) -> u8 {
    if 0 <= i < 26 {
        (65 + i) as u8
    } else if 26 <= i < 52 {
        (71 + i) as u8
    } else if 52 <= i < 62 {
        (i - 4) as u8
    } else if i == 62 {
        43
    } else {
        47
    }
}

/// The standard charset as a sequence.
pub open spec fn std_charset() -> Seq<u8> {
    Seq::new(64, |i: int| std_b64_char(i))
}

/// A charset a codec can be built from: 64 characters, none of them `=`,
/// no two alike.
pub open spec fn valid_charset(cs: Seq<u8>) -> bool {
    &&& cs.len() == 64
    &&& (forall|i: int| 0 <= i < 64 ==> #[trigger] cs[i] != PAD_BYTE)
    &&& (forall|i: int, j: int| 0 <= i < j < 64 ==> cs[i] != cs[j])
}

/// A Base64 codec: a forward table of 64 distinct characters, its
/// precomputed reverse table, and a padding flag.
pub struct Base64Codec {
    enc: Vec<u8>,
    dec: Vec<u8>,
    pad: bool,
}

impl Base64Codec {
    /// The forward table (index to character).
    pub closed spec fn charset(&self) -> Seq<u8> {
        self.enc@
    }

    /// The reverse table (character to index; 255 marks an invalid entry).
    pub closed spec fn dec_map(&self) -> Seq<u8> {
        self.dec@
    }

    /// The padding flag.
    pub closed spec fn padding(&self) -> bool {
        self.pad
    }

    /// The tables are consistent: 64 distinct characters, none of them `=`,
    /// and the reverse table inverts the forward table exactly.
    pub closed spec fn wf(&self) -> bool {
        &&& self.enc@.len() == 64
        &&& self.dec@.len() == 256
        &&& (forall|i: int|
            0 <= i < 64 ==> #[trigger] self.dec@[self.enc@[i] as int] == i as u8)
        &&& (forall|i: int| 0 <= i < 64 ==> #[trigger] self.enc@[i] != PAD_BYTE)
        &&& (forall|b: int|
            0 <= b < 256 ==> #[trigger] self.dec@[b] == INVALID_SEXTET || (self.dec@[b] < 64
                && self.enc@[self.dec@[b] as int] == b as u8))
    }

    /// Builds a codec from a 64-character charset. Returns `None` exactly
    /// when the charset has the wrong length, contains `=`, or repeats a
    /// character.
    pub fn new(charset: &[u8], pad: bool) -> (r: Option<Base64Codec>)
        ensures
            r matches Some(c) ==> c.wf() && c.charset() == charset@ && c.padding() == pad,
            r is Some <==> valid_charset(charset@),
    {
        if charset.len() != 64 {
            return None;
        }
        let mut dec: Vec<u8> = Vec::new();
        let mut j: usize = 0;
        while j < 256
            invariant
                j <= 256,
                dec@.len() == j,
                forall|b: int| 0 <= b < j ==> dec@[b] == INVALID_SEXTET,
            decreases 256 - j,
        {
            dec.push(255);
            j += 1;
        }
        let mut enc: Vec<u8> = Vec::new();
        let mut i: usize = 0;
        while i < 64
            invariant
                i <= 64,
                charset@.len() == 64,
                enc@ == charset@.take(i as int),
                dec@.len() == 256,
                forall|k: int| 0 <= k < i ==> #[trigger] dec@[charset@[k] as int] == k as u8,
                forall|k: int| 0 <= k < i ==> #[trigger] charset@[k] != PAD_BYTE,
                forall|b: int|
                    0 <= b < 256 ==> #[trigger] dec@[b] == INVALID_SEXTET || (dec@[b] < i
                        && charset@[dec@[b] as int] == b as u8),
            decreases 64 - i,
        {
            let c = charset[i];
            if c == 61 {
                return None;
            }
            if dec[c as usize] != 255 {
                let ghost d = dec@[c as int] as int;
                assert(charset@[d] == charset@[i as int] && d < i);
                return None;
            }
            dec[c as usize] = i as u8;
            enc.push(c);
            i += 1;
        }
        assert(enc@ =~= charset@);
        assert forall|a: int, b: int| 0 <= a < b < 64 implies charset@[a] != charset@[b] by {
            if charset@[a] == charset@[b] {
                assert(dec@[charset@[a] as int] == a as u8);
                assert(dec@[charset@[b] as int] == b as u8);
            }
        }
        Some(Base64Codec { enc, dec, pad })
    }

    /// Builds a codec over the standard charset `A-Z a-z 0-9 + /`.
    pub fn standard(pad: bool) -> (c: Base64Codec)
        ensures
            c.wf(),
            c.charset() == std_charset(),
            c.padding() == pad,
    {
        let mut cs: Vec<u8> = Vec::new();
        let mut i: usize = 0;
        while i < 64
            invariant
                i <= 64,
                cs@.len() == i,
                forall|k: int| 0 <= k < i ==> cs@[k] == std_b64_char(k),
            decreases 64 - i,
        {
            let c: u8 = if i < 26 {
                (65 + i) as u8
            } else if i < 52 {
                (71 + i) as u8
            } else if i < 62 {
                (i - 4) as u8
            } else if i == 62 {
                43
            } else {
                47
            };
            cs.push(c);
            i += 1;
        }
        assert(cs@ =~= std_charset());
        match Base64Codec::new(cs.as_slice(), pad) {
            Some(c) => c,
            None => {
                proof {
                    assert(false);
                }
                Base64Codec { enc: Vec::new(), dec: Vec::new(), pad }
            },
        }
    }

    /// Exact length of the encoding of `n` input bytes.
    pub fn encode_len(&self, n: usize) -> (r: usize)
        requires
            spec_encode_len(self.padding(), n as nat) <= usize::MAX,
        ensures
            r == spec_encode_len(self.padding(), n as nat),
    {
        if self.pad {
            ((n + 2) / 3) * 4
        } else {
            n / 3 * 4 + (n % 3 * 4 + 2) / 3
        }
    }

    /// The output length that a decode of `n` encoded bytes never exceeds,
    /// for well-formed input of this codec's variant.
    pub fn decode_len(&self, n: usize) -> (r: usize)
        requires
            (n as nat) * 3 <= usize::MAX,
        ensures
            r == spec_decode_len(self.padding(), n as nat),
    {
        if self.pad {
            (n / 4) * 3
        } else {
            (n * 3) / 4
        }
    }

    /// Encodes `input`, appending `=` padding in the padded variant.
    pub fn encode(&self, input: &[u8]) -> (r: Vec<u8>)
        requires
            self.wf(),
        ensures
            r@ == b64_encode(self.charset(), self.padding(), input@),
            r@.len() == spec_encode_len(self.padding(), input@.len()),
    {
        let ghost cs = self.charset();
        let mut out: Vec<u8> = Vec::new();
        let mut i: usize = 0;
        assert(input@.skip(0) =~= input@);
        while input.len() - i >= 3
            invariant
                self.wf(),
                cs == self.charset(),
                i <= input@.len(),
                i % 3 == 0,
                out@.len() == i / 3 * 4,
                out@ + b64_encode_raw(cs, input@.skip(i as int)) == b64_encode_raw(cs, input@),
            decreases input@.len() - i,
        {
            let b0 = input[i];
            let b1 = input[i + 1];
            let b2 = input[i + 2];
            let v0 = b0 >> 2;
            let v1 = ((b0 & 0x03) << 4) | (b1 >> 4);
            let v2 = ((b1 & 0x0f) << 2) | (b2 >> 6);
            let v3 = b2 & 0x3f;
            proof {
                lemma_sextets_in_range(b0, b1, b2);
                assert(input@.skip(i as int)[0] == b0);
                assert(input@.skip(i as int)[1] == b1);
                assert(input@.skip(i as int)[2] == b2);
                assert(input@.skip(i as int).skip(3) =~= input@.skip(i as int + 3));
            }
            out.push(self.enc[v0 as usize]);
            out.push(self.enc[v1 as usize]);
            out.push(self.enc[v2 as usize]);
            out.push(self.enc[v3 as usize]);
            i += 3;
        }
        let rem = input.len() - i;
        proof {
            if rem == 1 {
                lemma_sextets_in_range(input@[i as int], 0, 0);
                assert(input@.skip(i as int)[0] == input@[i as int]);
            }
            if rem == 2 {
                lemma_sextets_in_range(input@[i as int], input@[i as int + 1], 0);
                assert(input@.skip(i as int)[0] == input@[i as int]);
                assert(input@.skip(i as int)[1] == input@[i as int + 1]);
            }
        }
        if rem == 1 {
            let b0 = input[i];
            out.push(self.enc[(b0 >> 2) as usize]);
            out.push(self.enc[(((b0 & 0x03) << 4) | (0u8 >> 4)) as usize]);
        } else if rem == 2 {
            let b0 = input[i];
            let b1 = input[i + 1];
            out.push(self.enc[(b0 >> 2) as usize]);
            out.push(self.enc[((((b0 & 0x03) << 4)) | (b1 >> 4)) as usize]);
            out.push(self.enc[((((b1 & 0x0f) << 2)) | (0u8 >> 6)) as usize]);
        }
        assert(out@ =~= b64_encode_raw(cs, input@));
        proof {
            lemma_encode_raw_len(cs, input@);
        }
        if self.pad {
            let pads: usize = if rem == 0 {
                0
            } else {
                3 - rem
            };
            let mut p: usize = 0;
            while p < pads
                invariant
                    p <= pads,
                    out@ == b64_encode_raw(cs, input@) + Seq::new(p as nat, |q: int| PAD_BYTE),
                decreases pads - p,
            {
                out.push(61);
                assert(out@ =~= b64_encode_raw(cs, input@) + Seq::new(
                    (p + 1) as nat,
                    |q: int| PAD_BYTE,
                ));
                p += 1;
            }
        }
        assert(out@ =~= b64_encode(cs, self.padding(), input@));
        proof {
            lemma_encode_len(cs, self.padding(), input@);
        }
        out
    }
}

impl Base64Codec {
    /// Decodes `input` up to the first `=`; `None` when a byte before the
    /// first `=` is outside the charset.
    pub fn decode(&self, input: &[u8]) -> (r: Option<Vec<u8>>)
        requires
            self.wf(),
        ensures
            r matches Some(v) ==> b64_decode(self.dec_map(), input@) == Some(v@),
            r is None ==> b64_decode(self.dec_map(), input@) is None,
    {
        let ghost dm = self.dec_map();
        let mut vals: Vec<u8> = Vec::new();
        let mut i: usize = 0;
        let mut stop = false;
        assert(input@.skip(0) =~= input@);
        while i < input.len() && !stop
            invariant
                self.wf(),
                dm == self.dec_map(),
                i <= input@.len(),
                stop ==> b64_scan(dm, input@) == Some(vals@),
                !stop ==> match b64_scan(dm, input@.skip(i as int)) {
                    Some(t) => b64_scan(dm, input@) == Some(vals@ + t),
                    None => b64_scan(dm, input@) is None,
                },
            decreases input@.len() - i, (if stop { 0int } else { 1int }),
        {
            let c = input[i];
            proof {
                assert(input@.skip(i as int)[0] == c);
                assert(input@.skip(i as int).skip(1) =~= input@.skip(i as int + 1));
            }
            if c == 61 {
                assert(vals@ + Seq::<u8>::empty() =~= vals@);
                stop = true;
            } else {
                let v = self.dec[c as usize];
                if v == 255 {
                    return None;
                }
                let ghost old_vals = vals@;
                vals.push(v);
                i += 1;
                proof {
                    if let Some(t) = b64_scan(dm, input@.skip(i as int)) {
                        assert(old_vals + (seq![v] + t) =~= vals@ + t);
                    }
                }
            }
        }
        proof {
            if !stop {
                assert(input@.skip(i as int) =~= Seq::<u8>::empty());
                assert(vals@ + Seq::<u8>::empty() =~= vals@);
            }
        }
        let mut out: Vec<u8> = Vec::new();
        let mut j: usize = 0;
        assert(vals@.skip(0) =~= vals@);
        while vals.len() - j >= 4
            invariant
                j <= vals@.len(),
                out@ + b64_bytes_of(vals@.skip(j as int)) == b64_bytes_of(vals@),
            decreases vals@.len() - j,
        {
            let v0 = vals[j];
            let v1 = vals[j + 1];
            let v2 = vals[j + 2];
            let v3 = vals[j + 3];
            proof {
                assert(vals@.skip(j as int)[0] == v0);
                assert(vals@.skip(j as int)[1] == v1);
                assert(vals@.skip(j as int)[2] == v2);
                assert(vals@.skip(j as int)[3] == v3);
                assert(vals@.skip(j as int).skip(4) =~= vals@.skip(j as int + 4));
            }
            out.push((v0 << 2) | (v1 >> 4));
            out.push(((v1 & 0x0f) << 4) | (v2 >> 2));
            out.push(((v2 & 0x03) << 6) | v3);
            j += 4;
        }
        let rem = vals.len() - j;
        proof {
            if rem >= 1 {
                assert(vals@.skip(j as int)[0] == vals@[j as int]);
            }
            if rem >= 2 {
                assert(vals@.skip(j as int)[1] == vals@[j as int + 1]);
            }
            if rem >= 3 {
                assert(vals@.skip(j as int)[2] == vals@[j as int + 2]);
            }
        }
        if rem == 3 {
            let v0 = vals[j];
            let v1 = vals[j + 1];
            let v2 = vals[j + 2];
            out.push((v0 << 2) | (v1 >> 4));
            out.push(((v1 & 0x0f) << 4) | (v2 >> 2));
        } else if rem == 2 {
            let v0 = vals[j];
            let v1 = vals[j + 1];
            out.push((v0 << 2) | (v1 >> 4));
        }
        assert(out@ =~= b64_bytes_of(vals@));
        Some(out)
    }
}

impl Base64Codec {
    /// Encodes `input` into the front of `output`, leaving the bytes past
    /// the encoded length unchanged.
    pub fn encode_slice(&self, input: &[u8], output: &mut Vec<u8>)
        requires
            self.wf(),
            old(output)@.len() >= spec_encode_len(self.padding(), input@.len()),
        ensures
            final(output)@.len() == old(output)@.len(),
            final(output)@ == b64_encode(self.charset(), self.padding(), input@) + old(output)@.skip(
                spec_encode_len(self.padding(), input@.len()) as int,
            ),
    {
        let enc = self.encode(input);
        let mut k: usize = 0;
        while k < enc.len()
            invariant
                k <= enc@.len(),
                enc@.len() <= output@.len(),
                output@.len() == old(output)@.len(),
                forall|t: int| 0 <= t < k ==> output@[t] == enc@[t],
                forall|t: int| k <= t < output@.len() ==> output@[t] == old(output)@[t],
            decreases enc@.len() - k,
        {
            let b = enc[k];
            output[k] = b;
            k += 1;
        }
        assert(output@ =~= enc@ + old(output)@.skip(enc@.len() as int));
    }

    /// Decodes into the front of `output`; returns the number of bytes
    /// written, or `None` when a byte before the first `=` is outside the
    /// charset (then `output` is unchanged).
    pub fn decode_slice(&self, input: &[u8], output: &mut Vec<u8>) -> (r: Option<usize>)
        requires
            self.wf(),
            b64_decode(self.dec_map(), input@) matches Some(v) ==> old(output)@.len() >= v.len(),
        ensures
            final(output)@.len() == old(output)@.len(),
            r matches Some(n) ==> n <= final(output)@.len() && b64_decode(self.dec_map(), input@)
                == Some(final(output)@.take(n as int)) && final(output)@.skip(n as int)
                == old(output)@.skip(n as int),
            r is None ==> b64_decode(self.dec_map(), input@) is None && final(output)@ == old(
                output,
            )@,
    {
        match self.decode(input) {
            Some(v) => {
                let n = v.len();
                let mut k: usize = 0;
                while k < n
                    invariant
                        k <= n,
                        n == v@.len() <= output@.len(),
                        output@.len() == old(output)@.len(),
                        forall|t: int| 0 <= t < k ==> output@[t] == v@[t],
                        forall|t: int| k <= t < output@.len() ==> output@[t] == old(output)@[t],
                    decreases n - k,
                {
                    let b = v[k];
                    output[k] = b;
                    k += 1;
                }
                assert(output@.take(n as int) =~= v@);
                assert(output@.skip(n as int) =~= old(output)@.skip(n as int));
                Some(n)
            },
            None => None,
        }
    }
}

/// Each sextet of a 3-byte group indexes within a 64-entry table.
pub proof fn lemma_sextets_in_range(b0: u8, b1: u8, b2: u8)
    by (bit_vector)
    ensures
        sx0(b0) < 64,
        sx1(b0, b1) < 64,
        sx2(b1, b2) < 64,
        sx3(b2) < 64,
{
}

/// The unpadded encoding of `n` bytes has exactly the unpadded length.
pub proof fn lemma_encode_raw_len(cs: Seq<u8>, s: Seq<u8>)
    ensures
        b64_encode_raw(cs, s).len() == spec_encode_len(false, s.len()),
    decreases s.len(),
{
    if s.len() >= 3 {
        lemma_encode_raw_len(cs, s.skip(3));
    }
}

/// The encoding of `n` bytes has exactly the length `spec_encode_len` gives:
/// padded, four characters per started 3-byte group; unpadded, one character
/// per started 6-bit group.
pub proof fn lemma_encode_len(cs: Seq<u8>, pad: bool, s: Seq<u8>)
    ensures
        b64_encode(cs, pad, s).len() == spec_encode_len(pad, s.len()),
{
    lemma_encode_raw_len(cs, s);
}

/// Recombining the sextets of a group returns the group's bytes.
proof fn lemma_group_recombine(b0: u8, b1: u8, b2: u8)
    by (bit_vector)
    ensures
        dx0(sx0(b0), sx1(b0, b1)) == b0,
        dx1(sx1(b0, b1), sx2(b1, b2)) == b1,
        dx2(sx2(b1, b2), sx3(b2)) == b2,
{
}

/// Scanning a charset character consumes it and yields its sextet value.
proof fn lemma_scan_cons(c: &Base64Codec, v: u8, rest: Seq<u8>)
    requires
        c.wf(),
        v < 64,
    ensures
        b64_scan(c.dec_map(), seq![c.charset()[v as int]] + rest) == match b64_scan(
            c.dec_map(),
            rest,
        ) {
            Some(t) => Some(seq![v] + t),
            None => None::<Seq<u8>>,
        },
{
    let s = seq![c.charset()[v as int]] + rest;
    assert(s[0] == c.charset()[v as int]);
    assert(s.skip(1) =~= rest);
    assert(c.charset()[v as int] != PAD_BYTE);
    assert(c.dec_map()[c.charset()[v as int] as int] == v);
}

/// Scanning an unpadded encoding followed by padding (or nothing) yields
/// exactly the input's sextet values.
proof fn lemma_scan_encode_raw(c: &Base64Codec, s: Seq<u8>, p: Seq<u8>)
    requires
        c.wf(),
        p.len() == 0 || p[0] == PAD_BYTE,
    ensures
        b64_scan(c.dec_map(), b64_encode_raw(c.charset(), s) + p) == Some(b64_sextets_of(s)),
    decreases s.len(),
{
    let cs = c.charset();
    let dm = c.dec_map();
    if s.len() >= 3 {
        lemma_sextets_in_range(s[0], s[1], s[2]);
        let a0 = sx0(s[0]);
        let a1 = sx1(s[0], s[1]);
        let a2 = sx2(s[1], s[2]);
        let a3 = sx3(s[2]);
        lemma_scan_encode_raw(c, s.skip(3), p);
        let e3 = b64_encode_raw(cs, s.skip(3)) + p;
        let e2 = seq![cs[a3 as int]] + e3;
        let e1 = seq![cs[a2 as int]] + e2;
        let e0 = seq![cs[a1 as int]] + e1;
        lemma_scan_cons(c, a3, e3);
        lemma_scan_cons(c, a2, e2);
        lemma_scan_cons(c, a1, e1);
        lemma_scan_cons(c, a0, e0);
        assert(seq![cs[a0 as int]] + e0 =~= b64_encode_raw(cs, s) + p);
        assert(seq![a0] + (seq![a1] + (seq![a2] + (seq![a3] + b64_sextets_of(s.skip(3)))))
            =~= b64_sextets_of(s));
    } else if s.len() == 2 {
        lemma_sextets_in_range(s[0], s[1], 0);
        let a0 = sx0(s[0]);
        let a1 = sx1(s[0], s[1]);
        let a2 = sx2(s[1], 0);
        assert(b64_scan(dm, p) == Some(Seq::<u8>::empty()));
        let e2 = p;
        let e1 = seq![cs[a2 as int]] + e2;
        let e0 = seq![cs[a1 as int]] + e1;
        lemma_scan_cons(c, a2, e2);
        lemma_scan_cons(c, a1, e1);
        lemma_scan_cons(c, a0, e0);
        assert(seq![cs[a0 as int]] + e0 =~= b64_encode_raw(cs, s) + p);
        assert(seq![a0] + (seq![a1] + (seq![a2] + Seq::<u8>::empty())) =~= b64_sextets_of(s));
    } else if s.len() == 1 {
        lemma_sextets_in_range(s[0], 0, 0);
        let a0 = sx0(s[0]);
        let a1 = sx1(s[0], 0);
        assert(b64_scan(dm, p) == Some(Seq::<u8>::empty()));
        let e1 = p;
        let e0 = seq![cs[a1 as int]] + e1;
        lemma_scan_cons(c, a1, e1);
        lemma_scan_cons(c, a0, e0);
        assert(seq![cs[a0 as int]] + e0 =~= b64_encode_raw(cs, s) + p);
        assert(seq![a0] + (seq![a1] + Seq::<u8>::empty()) =~= b64_sextets_of(s));
    } else {
        assert(b64_encode_raw(cs, s) + p =~= p);
    }
}

/// Recombining the sextet values of a byte sequence returns that sequence.
proof fn lemma_bytes_of_sextets(s: Seq<u8>)
    ensures
        b64_bytes_of(b64_sextets_of(s)) == s,
    decreases s.len(),
{
    if s.len() >= 3 {
        lemma_group_recombine(s[0], s[1], s[2]);
        lemma_bytes_of_sextets(s.skip(3));
        let v = b64_sextets_of(s);
        assert(v.skip(4) =~= b64_sextets_of(s.skip(3)));
        assert(b64_bytes_of(v) =~= s);
    } else if s.len() == 2 {
        lemma_group_recombine(s[0], s[1], 0);
        assert(b64_bytes_of(b64_sextets_of(s)) =~= s);
    } else if s.len() == 1 {
        lemma_group_recombine(s[0], 0, 0);
        assert(b64_bytes_of(b64_sextets_of(s)) =~= s);
    } else {
        assert(b64_bytes_of(b64_sextets_of(s)) =~= s);
    }
}

/// Law: decoding an encoding returns the original bytes, in the padded and
/// in the unpadded variant alike.
pub proof fn lemma_base64_round_trip(c: &Base64Codec, s: Seq<u8>)
    requires
        c.wf(),
    ensures
        b64_decode(c.dec_map(), b64_encode(c.charset(), c.padding(), s)) == Some(s),
{
    let p = Seq::new(b64_pad_count(c.padding(), s.len()), |i: int| PAD_BYTE);
    lemma_scan_encode_raw(c, s, p);
    lemma_bytes_of_sextets(s);
}

} // verus!
