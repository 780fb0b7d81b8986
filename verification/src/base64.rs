use vstd::prelude::*;
use vstd::string::StrSliceExecFns;

verus! {

// ------------------------------------------------------------------
// URL-safe, unpadded binary-to-text encoding, six bits per character.
// ------------------------------------------------------------------
/// The alphabet: sextet value to character.
pub open spec fn b64_char(v: int) -> char {
    if v < 26 {
        (65 + v) as char
    } else if v < 52 {
        (97 + (v - 26)) as char
    } else if v < 62 {
        (48 + (v - 52)) as char
    } else if v == 62 {
        '-'
    } else {
        '_'
    }
}

/// The sextet value of a character, -1 for one outside the alphabet.
pub open spec fn b64_val(c: char) -> int {
    if 'A' <= c && c <= 'Z' {
        c as int - 65
    } else if 'a' <= c && c <= 'z' {
        (c as int - 97) + 26
    } else if '0' <= c && c <= '9' {
        (c as int - 48) + 52
    } else if c == '-' {
        62
    } else if c == '_' {
        63
    } else {
        -1
    }
}

pub proof fn lemma_b64_val_char(v: int)
    requires
        0 <= v < 64,
    ensures
        b64_val(b64_char(v)) == v,
{
}

/// Encode bytes, three at a time, into four characters each; a final one or
/// two bytes become two or three characters with the spare bits zero.
pub open spec fn b64_encode(b: Seq<u8>) -> Seq<char>
    decreases b.len(),
{
    if b.len() == 0 {
        Seq::empty()
    } else if b.len() == 1 {
        let b0 = b[0] as int;
        seq![b64_char(b0 / 4), b64_char((b0 % 4) * 16)]
    } else if b.len() == 2 {
        let b0 = b[0] as int;
        let b1 = b[1] as int;
        seq![b64_char(b0 / 4), b64_char((b0 % 4) * 16 + b1 / 16), b64_char((b1 % 16) * 4)]
    } else {
        let b0 = b[0] as int;
        let b1 = b[1] as int;
        let b2 = b[2] as int;
        seq![
            b64_char(b0 / 4),
            b64_char((b0 % 4) * 16 + b1 / 16),
            b64_char((b1 % 16) * 4 + b2 / 64),
            b64_char(b2 % 64),
        ] + b64_encode(b.skip(3))
    }
}

/// Decode characters, four at a time, into three bytes each; a trailing pair
/// or triple yields one or two bytes and must carry zero spare bits. A single
/// trailing character, a character outside the alphabet, or non-zero spare
/// bits make the text undecodable.
pub open spec fn b64_decode(s: Seq<char>) -> Option<Seq<u8>>
    decreases s.len(),
{
    if s.len() == 0 {
        Some(Seq::empty())
    } else if s.len() == 1 {
        None
    } else if s.len() == 2 {
        let v0 = b64_val(s[0]);
        let v1 = b64_val(s[1]);
        if v0 >= 0 && v1 >= 0 && v1 % 16 == 0 {
            Some(seq![(v0 * 4 + v1 / 16) as u8])
        } else {
            None
        }
    } else if s.len() == 3 {
        let v0 = b64_val(s[0]);
        let v1 = b64_val(s[1]);
        let v2 = b64_val(s[2]);
        if v0 >= 0 && v1 >= 0 && v2 >= 0 && v2 % 4 == 0 {
            Some(seq![(v0 * 4 + v1 / 16) as u8, ((v1 % 16) * 16 + v2 / 4) as u8])
        } else {
            None
        }
    } else {
        let v0 = b64_val(s[0]);
        let v1 = b64_val(s[1]);
        let v2 = b64_val(s[2]);
        let v3 = b64_val(s[3]);
        if v0 >= 0 && v1 >= 0 && v2 >= 0 && v3 >= 0 {
            match b64_decode(s.skip(4)) {
                Some(r) => Some(
                    seq![
                        (v0 * 4 + v1 / 16) as u8,
                        ((v1 % 16) * 16 + v2 / 4) as u8,
                        ((v2 % 4) * 64 + v3) as u8,
                    ] + r,
                ),
                None => None,
            }
        } else {
            None
        }
    }
}

/// Decoding inverts encoding.
pub proof fn lemma_b64_roundtrip(b: Seq<u8>)
    ensures
        b64_decode(b64_encode(b)) == Some(b),
    decreases b.len(),
{
    let e = b64_encode(b);
    if b.len() == 0 {
        assert(e.len() == 0);
        assert(b64_decode(e) == Some(Seq::<u8>::empty()));
        assert(Seq::<u8>::empty() =~= b);
    } else if b.len() == 1 {
        let b0 = b[0] as int;
        lemma_b64_val_char(b0 / 4);
        lemma_b64_val_char((b0 % 4) * 16);
        assert(((b0 % 4) * 16) % 16 == 0);
        assert((b0 / 4) * 4 + ((b0 % 4) * 16) / 16 == b0);
        assert(b64_decode(e) == Some(seq![b[0]]));
        assert(seq![b[0]] =~= b);
    } else if b.len() == 2 {
        let b0 = b[0] as int;
        let b1 = b[1] as int;
        let v0 = b0 / 4;
        let v1 = (b0 % 4) * 16 + b1 / 16;
        let v2 = (b1 % 16) * 4;
        lemma_b64_val_char(v0);
        lemma_b64_val_char(v1);
        lemma_b64_val_char(v2);
        assert(v2 % 4 == 0);
        assert(v1 / 16 == b0 % 4);
        assert(v1 % 16 == b1 / 16);
        assert(v0 * 4 + v1 / 16 == b0);
        assert((v1 % 16) * 16 + v2 / 4 == b1);
        assert(b64_decode(e) == Some(seq![b[0], b[1]]));
        assert(seq![b[0], b[1]] =~= b);
    } else {
        let b0 = b[0] as int;
        let b1 = b[1] as int;
        let b2 = b[2] as int;
        let v0 = b0 / 4;
        let v1 = (b0 % 4) * 16 + b1 / 16;
        let v2 = (b1 % 16) * 4 + b2 / 64;
        let v3 = b2 % 64;
        lemma_b64_val_char(v0);
        lemma_b64_val_char(v1);
        lemma_b64_val_char(v2);
        lemma_b64_val_char(v3);
        let rest = b64_encode(b.skip(3));
        assert(e.len() == 4 + rest.len());
        assert(e[0] == b64_char(v0) && e[1] == b64_char(v1) && e[2] == b64_char(v2) && e[3]
            == b64_char(v3));
        assert(e.skip(4) =~= rest);
        lemma_b64_roundtrip(b.skip(3));
        assert(v1 / 16 == b0 % 4);
        assert(v1 % 16 == b1 / 16);
        assert(v2 / 4 == (b1 % 16) * 4 / 4 + b2 / 64 / 4 || true);
        assert(v2 % 4 == (b2 / 64) % 4 && v2 / 4 == b1 % 16) by {
            assert(0 <= b2 / 64 < 4);
        }
        assert((b2 / 64) % 4 == b2 / 64);
        assert(v0 * 4 + v1 / 16 == b0);
        assert((v1 % 16) * 16 + v2 / 4 == b1);
        assert((v2 % 4) * 64 + v3 == b2);
        assert(b64_decode(e) == Some(seq![b[0], b[1], b[2]] + b.skip(3)));
        assert(seq![b[0], b[1], b[2]] + b.skip(3) =~= b);
    }
}

/// The alphabet character of a sextet.
fn b64_char_of(v: u8) -> (c: char)
    requires
        v < 64,
    ensures
        c == b64_char(v as int),
{
    if v < 26 {
        (65 + v) as char
    } else if v < 52 {
        (97 + (v - 26)) as char
    } else if v < 62 {
        (48 + (v - 52)) as char
    } else if v == 62 {
        '-'
    } else {
        '_'
    }
}

/// The sextet value of a character, or -1 outside the alphabet.
fn b64_val_of(c: char) -> (r: i32)
    ensures
        r as int == b64_val(c),
{
    let u = c as u32;
    if 'A' <= c && c <= 'Z' {
        (u - 65) as i32
    } else if 'a' <= c && c <= 'z' {
        (u - 97) as i32 + 26
    } else if '0' <= c && c <= '9' {
        (u - 48) as i32 + 52
    } else if c == '-' {
        62
    } else if c == '_' {
        63
    } else {
        -1
    }
}

/// Encode a byte list into the URL-safe alphabet, unpadded.
pub fn b64_encode_text(bytes: &Vec<u8>) -> (s: String)
    ensures
        s@ == b64_encode(bytes@),
{
    let mut out = String::new();
    let mut i: usize = 0;
    proof {
        assert(bytes@.skip(0) =~= bytes@);
        assert(out@ + b64_encode(bytes@) =~= b64_encode(bytes@));
    }
    while bytes.len() - i >= 3
        invariant
            i <= bytes.len(),
            i % 3 == 0,
            out@ + b64_encode(bytes@.skip(i as int)) == b64_encode(bytes@),
        decreases bytes.len() - i,
    {
        let ghost pre = bytes@.skip(i as int);
        let b0 = bytes[i];
        let b1 = bytes[i + 1];
        let b2 = bytes[i + 2];
        proof {
            assert(pre.len() >= 3);
            assert(pre[0] == bytes@[i as int] && pre[1] == bytes@[i as int + 1] && pre[2]
                == bytes@[i as int + 2]);
            assert(pre.skip(3) =~= bytes@.skip(i as int + 3));
        }
        out.push(b64_char_of(b0 / 4));
        out.push(b64_char_of((b0 % 4) * 16 + b1 / 16));
        out.push(b64_char_of((b1 % 16) * 4 + b2 / 64));
        out.push(b64_char_of(b2 % 64));
        proof {
            assert(out@ + b64_encode(bytes@.skip(i as int + 3)) =~= b64_encode(bytes@));
        }
        i += 3;
    }
    let rem = bytes.len() - i;
    let ghost pre = bytes@.skip(i as int);
    if rem == 1 {
        let b0 = bytes[i];
        proof {
            assert(pre.len() == 1);
            assert(pre[0] == bytes@[i as int]);
        }
        out.push(b64_char_of(b0 / 4));
        out.push(b64_char_of((b0 % 4) * 16));
        proof {
            assert(out@ =~= b64_encode(bytes@));
        }
    } else if rem == 2 {
        let b0 = bytes[i];
        let b1 = bytes[i + 1];
        proof {
            assert(pre.len() == 2);
            assert(pre[0] == bytes@[i as int] && pre[1] == bytes@[i as int + 1]);
        }
        out.push(b64_char_of(b0 / 4));
        out.push(b64_char_of((b0 % 4) * 16 + b1 / 16));
        out.push(b64_char_of((b1 % 16) * 4));
        proof {
            assert(out@ =~= b64_encode(bytes@));
        }
    } else {
        proof {
            assert(pre.len() == 0);
            assert(out@ =~= b64_encode(bytes@));
        }
    }
    out
}

/// Join a decoded prefix with the decoding of the remaining text.
pub open spec fn b64_join(prefix: Seq<u8>, o: Option<Seq<u8>>) -> Option<Seq<u8>> {
    match o {
        Some(r) => Some(prefix + r),
        None => None,
    }
}

/// Decode URL-safe unpadded text back into bytes; None when the text is not
/// a possible encoding.
pub fn b64_decode_text(s: &str) -> (r: Option<Vec<u8>>)
    ensures
        match r {
            Some(v) => b64_decode(s@) == Some(v@),
            None => b64_decode(s@) is None,
        },
{
    let n = s.unicode_len();
    let mut out: Vec<u8> = Vec::new();
    let mut i: usize = 0;
    proof {
        assert(out@ =~= Seq::<u8>::empty());
        assert(s@.skip(0) =~= s@);
        assert(b64_join(out@, b64_decode(s@.skip(0))) == b64_decode(s@)) by {
            match b64_decode(s@) {
                Some(x) => {
                    assert(out@ + x =~= x);
                },
                None => {},
            }
        }
    }
    while n - i >= 4
        invariant
            i <= n,
            n == s@.len(),
            b64_decode(s@) == b64_join(out@, b64_decode(s@.skip(i as int))),
        decreases n - i,
    {
        let ghost pre = s@.skip(i as int);
        let c0 = s.get_char(i);
        let c1 = s.get_char(i + 1);
        let c2 = s.get_char(i + 2);
        let c3 = s.get_char(i + 3);
        proof {
            assert(pre.len() >= 4);
            assert(pre[0] == s@[i as int] && pre[1] == s@[i as int + 1] && pre[2] == s@[i as int
                + 2] && pre[3] == s@[i as int + 3]);
            assert(pre.skip(4) =~= s@.skip(i as int + 4));
        }
        let v0 = b64_val_of(c0);
        let v1 = b64_val_of(c1);
        let v2 = b64_val_of(c2);
        let v3 = b64_val_of(c3);
        if v0 < 0 || v1 < 0 || v2 < 0 || v3 < 0 {
            proof {
                assert(b64_decode(pre) is None);
            }
            return None;
        }
        let ghost before = out@;
        out.push(((v0 * 4 + v1 / 16) as u8));
        out.push((((v1 % 16) * 16 + v2 / 4) as u8));
        out.push((((v2 % 4) * 64 + v3) as u8));
        proof {
            let w0 = b64_val(pre[0]);
            let w1 = b64_val(pre[1]);
            let w2 = b64_val(pre[2]);
            let w3 = b64_val(pre[3]);
            let bytes3 = seq![
                (w0 * 4 + w1 / 16) as u8,
                ((w1 % 16) * 16 + w2 / 4) as u8,
                ((w2 % 4) * 64 + w3) as u8,
            ];
            assert(out@ =~= before + bytes3);
            assert(b64_decode(pre) == b64_join(bytes3, b64_decode(pre.skip(4))));
            match b64_decode(pre.skip(4)) {
                Some(x) => {
                    assert(before + (bytes3 + x) =~= (before + bytes3) + x);
                },
                None => {},
            }
            assert(b64_join(before, b64_decode(pre)) == b64_join(out@, b64_decode(pre.skip(4))));
        }
        i += 4;
    }
    let rem = n - i;
    let ghost pre = s@.skip(i as int);
    if rem == 0 {
        proof {
            assert(pre.len() == 0);
            assert(b64_decode(pre) == Some(Seq::<u8>::empty()));
            assert(out@ + Seq::<u8>::empty() =~= out@);
        }
        Some(out)
    } else if rem == 1 {
        proof {
            assert(pre.len() == 1);
            assert(b64_decode(pre) is None);
        }
        None
    } else if rem == 2 {
        let c0 = s.get_char(i);
        let c1 = s.get_char(i + 1);
        proof {
            assert(pre[0] == s@[i as int] && pre[1] == s@[i as int + 1]);
        }
        let v0 = b64_val_of(c0);
        let v1 = b64_val_of(c1);
        if v0 < 0 || v1 < 0 || v1 % 16 != 0 {
            proof {
                assert(b64_decode(pre) is None);
            }
            return None;
        }
        let ghost before = out@;
        out.push(((v0 * 4 + v1 / 16) as u8));
        proof {
            assert(b64_decode(pre) == Some(seq![(b64_val(pre[0]) * 4 + b64_val(pre[1]) / 16) as u8]));
            assert(out@ =~= before + seq![(b64_val(pre[0]) * 4 + b64_val(pre[1]) / 16) as u8]);
        }
        Some(out)
    } else {
        let c0 = s.get_char(i);
        let c1 = s.get_char(i + 1);
        let c2 = s.get_char(i + 2);
        proof {
            assert(rem == 3);
            assert(pre[0] == s@[i as int] && pre[1] == s@[i as int + 1] && pre[2] == s@[i as int
                + 2]);
        }
        let v0 = b64_val_of(c0);
        let v1 = b64_val_of(c1);
        let v2 = b64_val_of(c2);
        if v0 < 0 || v1 < 0 || v2 < 0 || v2 % 4 != 0 {
            proof {
                assert(b64_decode(pre) is None);
            }
            return None;
        }
        let ghost before = out@;
        out.push(((v0 * 4 + v1 / 16) as u8));
        out.push((((v1 % 16) * 16 + v2 / 4) as u8));
        proof {
            let w0 = b64_val(pre[0]);
            let w1 = b64_val(pre[1]);
            let w2 = b64_val(pre[2]);
            assert(b64_decode(pre) == Some(seq![
                (w0 * 4 + w1 / 16) as u8,
                ((w1 % 16) * 16 + w2 / 4) as u8,
            ]));
            assert(out@ =~= before + seq![(w0 * 4 + w1 / 16) as u8, ((w1 % 16) * 16 + w2 / 4) as u8]);
        }
        Some(out)
    }
}

} // verus!
