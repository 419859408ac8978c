//! Boundary-safe UTF-8 decoding and encoding for the corrector.
//!
//! The byte stream arrives in fixed-size chunks that may end in the middle of
//! a multi-byte character. `boundary_split` finds the cut before any trailing
//! incomplete character, so the held-back bytes can be carried into the next
//! chunk; `decode_chunk` and `encode_chunk` are proved against vstd's UTF-8
//! specification (`vstd::utf8::decode_utf8` and `vstd::utf8::encode_utf8`).

use vstd::prelude::*;
use vstd::utf8::*;

verus! {

/// Relies on char::from_u32: it returns the character with the given scalar
/// value when that value is a Unicode scalar (at most 0x10FFFF and not in the
/// surrogate range), and None otherwise.
#[verifier::external_body]
fn char_from_u32(u: u32) -> (r: Option<char>)
    ensures
        is_scalar(u) ==> r == Some(u as char),
        !is_scalar(u) ==> r is None,
{
    char::from_u32(u)
}

/// The number of bytes in the encoding that the given leading byte opens, or
/// zero when the byte can lead no encoding (a continuation byte, or one of
/// the byte values UTF-8 never uses).
pub open spec fn lead_width(b: u8) -> int {
    if is_leading_byte_width_1(b) {
        1
    } else if is_leading_byte_width_2(b) {
        2
    } else if is_leading_byte_width_3(b) {
        3
    } else if is_leading_byte_width_4(b) {
        4
    } else {
        0
    }
}

fn width_of(b: u8) -> (w: u8)
    ensures
        w as int == lead_width(b),
{
    if b <= 0x7f {
        1
    } else if 0xc0 <= b && b <= 0xdf {
        2
    } else if 0xe0 <= b && b <= 0xef {
        3
    } else if 0xf0 <= b && b <= 0xf7 {
        4
    } else {
        0
    }
}

fn is_cont(b: u8) -> (r: bool)
    ensures
        r == is_continuation_byte(b),
{
    0x80 <= b && b <= 0xbf
}

/// Where to cut a chunk so that no multi-byte character is split: everything
/// before the cut is kept, and at most three trailing bytes — the opening of
/// a character whose remaining bytes have not arrived — are held back.
pub open spec fn split_point(b: Seq<u8>) -> int {
    let n = b.len() as int;
    if n >= 1 && !is_continuation_byte(b[n - 1]) {
        if lead_width(b[n - 1]) > 1 {
            n - 1
        } else {
            n
        }
    } else if n >= 2 && !is_continuation_byte(b[n - 2]) {
        if lead_width(b[n - 2]) > 2 {
            n - 2
        } else {
            n
        }
    } else if n >= 3 && !is_continuation_byte(b[n - 3]) {
        if lead_width(b[n - 3]) > 3 {
            n - 3
        } else {
            n
        }
    } else {
        n
    }
}

/// The shape of the bytes held back at a cut: empty, or the leading byte of
/// a multi-byte character followed by too few continuation bytes.
pub open spec fn incomplete_tail(q: Seq<u8>) -> bool {
    ||| q.len() == 0
    ||| {
        &&& 1 <= q.len() <= 3
        &&& !is_continuation_byte(q[0])
        &&& lead_width(q[0]) > q.len()
        &&& forall|j: int| 1 <= j < q.len() ==> is_continuation_byte(q[j])
    }
}

/// The cut stays within the chunk, holds back at most three bytes, and what
/// it holds back is the opening of one unfinished character.
pub proof fn lemma_split_point_basic(b: Seq<u8>)
    ensures
        0 <= split_point(b) <= b.len(),
        b.len() - split_point(b) <= 3,
        incomplete_tail(b.skip(split_point(b))),
{
    let n: int = b.len() as int;
    let p: int = split_point(b);
    assert(b.skip(p).len() == n - p);
    assert(forall|j: int| 0 <= j < n - p ==> b.skip(p)[j] == b[p + j]);
}

/// A buffer that is entirely valid UTF-8 ends on a character boundary, so it
/// is not cut: whenever one of its last three bytes opens a character, that
/// character is complete within the buffer.
pub proof fn lemma_split_point_complete(v: Seq<u8>)
    requires
        valid_utf8(v),
    ensures
        split_point(v) == v.len(),
{
    let n: int = v.len() as int;
    if n >= 1 && !is_continuation_byte(v[n - 1]) {
        lemma_last_scalar_fits(v, 1);
    } else if n >= 2 && !is_continuation_byte(v[n - 2]) {
        lemma_last_scalar_fits(v, 2);
    } else if n >= 3 && !is_continuation_byte(v[n - 3]) {
        lemma_last_scalar_fits(v, 3);
    }
}

/// In a valid buffer, a leading byte among the last `k` bytes opens a
/// character no wider than the `k` bytes that remain after it.
proof fn lemma_last_scalar_fits(v: Seq<u8>, k: int)
    requires
        valid_utf8(v),
        1 <= k <= v.len(),
        !is_continuation_byte(v[v.len() - k]),
    ensures
        lead_width(v[v.len() - k]) <= k,
{
    let n: int = v.len() as int;
    is_char_boundary_iff_not_is_continuation_byte(v, n - k);
    valid_utf8_split(v, n - k);
    let suf = v.subrange(n - k, n);
    assert(valid_utf8(suf));
    assert(suf.len() == k);
    assert(valid_first_scalar(suf));
    assert(suf[0] == v[n - k]);
}

/// A buffer made of complete characters followed by the opening of an
/// unfinished character is cut exactly before the unfinished character.
pub proof fn lemma_split_point_after_valid(v: Seq<u8>, q: Seq<u8>)
    requires
        valid_utf8(v),
        incomplete_tail(q),
    ensures
        split_point(v + q) == v.len(),
{
    let b = v + q;
    let n: int = b.len() as int;
    if q.len() == 0 {
        assert(b =~= v);
        lemma_split_point_complete(v);
    } else if q.len() == 1 {
        assert(b[n - 1] == q[0]);
    } else if q.len() == 2 {
        assert(b[n - 1] == q[1] && b[n - 2] == q[0]);
    } else {
        assert(b[n - 1] == q[2] && b[n - 2] == q[1] && b[n - 3] == q[0]);
    }
}

/// Cut a chunk before any trailing incomplete character, returning the
/// length of the complete prefix.
pub fn boundary_split(bytes: &Vec<u8>) -> (n: usize)
    ensures
        n as int == split_point(bytes@),
        n <= bytes@.len(),
        bytes@.len() - n as int <= 3,
        incomplete_tail(bytes@.skip(n as int)),
{
    proof {
        lemma_split_point_basic(bytes@);
    }
    let len = bytes.len();
    if len >= 1 && !is_cont(bytes[len - 1]) {
        if width_of(bytes[len - 1]) > 1 {
            len - 1
        } else {
            len
        }
    } else if len >= 2 && !is_cont(bytes[len - 2]) {
        if width_of(bytes[len - 2]) > 2 {
            len - 2
        } else {
            len
        }
    } else if len >= 3 && !is_cont(bytes[len - 3]) {
        if width_of(bytes[len - 3]) > 3 {
            len - 3
        } else {
            len
        }
    } else {
        len
    }
}

/// Every character occupies at least one byte, so a chunk never decodes to
/// more characters than it has bytes.
pub proof fn lemma_decode_len_le(b: Seq<u8>)
    requires
        valid_utf8(b),
    ensures
        decode_utf8(b).len() <= b.len(),
    decreases b.len(),
{
    if b.len() > 0 {
        assert(length_of_first_scalar(b) >= 1);
        assert(pop_first_scalar(b).len() == b.len() - length_of_first_scalar(b));
        lemma_decode_len_le(pop_first_scalar(b));
    }
}

/// Decode the single character opened at position `i`, returning it together
/// with the width of its encoding, or None when no well-formed character
/// starts there.
fn decode_one(bytes: &Vec<u8>, i: usize) -> (r: Option<(char, usize)>)
    requires
        i < bytes@.len(),
    ensures
        ({
            let suf = bytes@.subrange(i as int, bytes@.len() as int);
            match r {
                Some(cw) => {
                    &&& valid_first_scalar(suf)
                    &&& 1 <= cw.1 <= 4
                    &&& i + cw.1 <= bytes@.len()
                    &&& cw.1 as int == length_of_first_scalar(suf)
                    &&& cw.0 == decode_first_scalar(suf) as char
                },
                None => !valid_first_scalar(suf),
            }
        }),
{
    let ghost suf = bytes@.subrange(i as int, bytes@.len() as int);
    let len = bytes.len();
    let b0 = bytes[i];
    proof {
        assert(suf.len() == len - i);
        assert(suf[0] == b0);
    }
    if b0 <= 0x7f {
        let u: u32 = b0 as u32;
        proof {
            assert(b0 & 0x7f == b0) by (bit_vector)
                requires
                    b0 <= 0x7f,
            ;
            assert(decode_first_codepoint(suf) == u);
            assert(valid_first_scalar(suf));
        }
        let c = char_from_u32(u).unwrap();
        Some((c, 1))
    } else if 0xc0 <= b0 && b0 <= 0xdf {
        if len - i < 2 {
            return None;
        }
        let b1 = bytes[i + 1];
        proof {
            assert(suf[1] == b1);
        }
        if !is_cont(b1) {
            return None;
        }
        let u: u32 = (((b0 & 0x1f) as u32) << 6) | ((b1 & 0x3f) as u32);
        proof {
            assert(decode_first_codepoint(suf) == u);
            assert(length_of_first_codepoint(suf) == 2);
        }
        if u < 0x80 {
            return None;
        }
        proof {
            assert(u <= 0x7ff) by (bit_vector)
                requires
                    u == (((b0 & 0x1f) as u32) << 6) | ((b1 & 0x3f) as u32),
            ;
            assert(valid_first_scalar(suf));
            assert(is_scalar(u));
        }
        let c = char_from_u32(u).unwrap();
        Some((c, 2))
    } else if 0xe0 <= b0 && b0 <= 0xef {
        if len - i < 3 {
            return None;
        }
        let b1 = bytes[i + 1];
        let b2 = bytes[i + 2];
        proof {
            assert(suf[1] == b1 && suf[2] == b2);
        }
        if !is_cont(b1) || !is_cont(b2) {
            return None;
        }
        let u: u32 = (((b0 & 0x0f) as u32) << 12) | (((b1 & 0x3f) as u32) << 6) | ((b2
            & 0x3f) as u32);
        proof {
            assert(decode_first_codepoint(suf) == u);
            assert(length_of_first_codepoint(suf) == 3);
        }
        if u < 0x800 || (0xd800 <= u && u <= 0xdfff) {
            return None;
        }
        proof {
            assert(u <= 0xffff) by (bit_vector)
                requires
                    u == (((b0 & 0x0f) as u32) << 12) | (((b1 & 0x3f) as u32) << 6) | ((b2
                        & 0x3f) as u32),
            ;
            assert(valid_first_scalar(suf));
            assert(is_scalar(u));
        }
        let c = char_from_u32(u).unwrap();
        Some((c, 3))
    } else if 0xf0 <= b0 && b0 <= 0xf7 {
        if len - i < 4 {
            return None;
        }
        let b1 = bytes[i + 1];
        let b2 = bytes[i + 2];
        let b3 = bytes[i + 3];
        proof {
            assert(suf[1] == b1 && suf[2] == b2 && suf[3] == b3);
        }
        if !is_cont(b1) || !is_cont(b2) || !is_cont(b3) {
            return None;
        }
        let u: u32 = (((b0 & 0x07) as u32) << 18) | (((b1 & 0x3f) as u32) << 12) | (((b2
            & 0x3f) as u32) << 6) | ((b3 & 0x3f) as u32);
        proof {
            assert(decode_first_codepoint(suf) == u);
            assert(length_of_first_codepoint(suf) == 4);
        }
        if u < 0x10000 || u > 0x10ffff {
            return None;
        }
        proof {
            assert(valid_first_scalar(suf));
            assert(is_scalar(u));
        }
        let c = char_from_u32(u).unwrap();
        Some((c, 4))
    } else {
        None
    }
}

/// A position that opens no well-formed character poisons the whole buffer:
/// bytes that are valid up to that position cannot be valid UTF-8 in full.
proof fn lemma_invalid_at(b: Seq<u8>, i: int)
    requires
        0 <= i < b.len(),
        valid_utf8(b.subrange(0, i)),
        !valid_first_scalar(b.subrange(i, b.len() as int)),
    ensures
        !valid_utf8(b),
{
    let suf = b.subrange(i, b.len() as int);
    assert(suf.len() > 0);
    assert(!valid_utf8(suf));
    partial_valid_partial_invalid_utf8(b, i);
}

/// Consuming the well-formed character at position `i` extends the decoded
/// prefix by exactly that character.
proof fn lemma_decode_extend(b: Seq<u8>, i: int)
    requires
        0 <= i < b.len(),
        valid_utf8(b.subrange(0, i)),
        valid_first_scalar(b.subrange(i, b.len() as int)),
        i + length_of_first_scalar(b.subrange(i, b.len() as int)) <= b.len(),
    ensures
        valid_utf8(b.subrange(0, i + length_of_first_scalar(b.subrange(i, b.len() as int)))),
        decode_utf8(b.subrange(0, i + length_of_first_scalar(b.subrange(i, b.len() as int))))
            == decode_utf8(b.subrange(0, i)).push(
            decode_first_scalar(b.subrange(i, b.len() as int)) as char,
        ),
{
    let suf = b.subrange(i, b.len() as int);
    let w: int = length_of_first_scalar(suf);
    let sc = b.subrange(i, i + w);
    assert(sc.len() == w);
    assert(forall|j: int| 0 <= j < w ==> sc[j] == suf[j]);
    if is_leading_byte_width_1(suf[0]) {
        assert(w == 1);
    } else if is_leading_byte_width_2(suf[0]) {
        assert(w == 2);
        assert(is_continuation_byte(suf[1]));
    } else if is_leading_byte_width_3(suf[0]) {
        assert(w == 3);
        assert(is_continuation_byte(suf[1]) && is_continuation_byte(suf[2]));
    } else {
        assert(w == 4);
        assert(is_continuation_byte(suf[1]) && is_continuation_byte(suf[2])
            && is_continuation_byte(suf[3]));
    }
    assert(valid_leading_and_continuation_bytes_first_codepoint(sc));
    assert(decode_first_codepoint(sc) == decode_first_codepoint(suf));
    assert(length_of_first_codepoint(sc) == w);
    assert(valid_first_scalar(sc));
    assert(pop_first_scalar(sc) =~= Seq::<u8>::empty());
    assert(valid_utf8(Seq::<u8>::empty()));
    assert(valid_utf8(pop_first_scalar(sc)));
    assert(valid_utf8(sc));
    assert(decode_utf8(Seq::<u8>::empty()) =~= Seq::<char>::empty());
    assert(decode_utf8(pop_first_scalar(sc)) =~= Seq::<char>::empty());
    assert(decode_utf8(sc) =~= seq![decode_first_scalar(sc) as char] + decode_utf8(
        pop_first_scalar(sc),
    ));
    assert(decode_utf8(sc) =~= seq![decode_first_scalar(suf) as char]);
    assert(partial_valid_utf8(b, i));
    partial_valid_utf8_extend(b, i);
    let pre2 = b.subrange(0, i + w);
    assert(valid_utf8(pre2));
    assert(pre2[i] == suf[0]);
    assert(!is_continuation_byte(suf[0]));
    is_char_boundary_iff_not_is_continuation_byte(pre2, i);
    decode_utf8_split(pre2, i);
    assert(pre2.subrange(0, i) =~= b.subrange(0, i));
    assert(pre2.subrange(i, pre2.len() as int) =~= sc);
    assert(decode_utf8(pre2) =~= decode_utf8(b.subrange(0, i)).push(
        decode_first_scalar(suf) as char,
    ));
}

/// Decode a chunk of bytes that is expected to be complete, well-formed
/// UTF-8, returning the decoded characters, or None when the bytes are not
/// valid UTF-8 — which the corrector treats as a fatal decode failure rather
/// than a reason to abort the process.
pub fn decode_chunk(bytes: &Vec<u8>) -> (r: Option<Vec<char>>)
    ensures
        match r {
            Some(cs) => valid_utf8(bytes@) && cs@ == decode_utf8(bytes@),
            None => !valid_utf8(bytes@),
        },
{
    let len = bytes.len();
    let mut out: Vec<char> = Vec::new();
    let mut i: usize = 0;
    while i < len
        invariant
            i <= len,
            len == bytes@.len(),
            valid_utf8(bytes@.subrange(0, i as int)),
            out@ == decode_utf8(bytes@.subrange(0, i as int)),
        decreases len - i,
    {
        match decode_one(bytes, i) {
            None => {
                proof {
                    lemma_invalid_at(bytes@, i as int);
                }
                return None;
            },
            Some((c, w)) => {
                proof {
                    lemma_decode_extend(bytes@, i as int);
                }
                out.push(c);
                i = i + w;
            },
        }
    }
    proof {
        assert(bytes@.subrange(0, len as int) =~= bytes@);
    }
    Some(out)
}

/// UTF-8 decoding distributes over concatenation of complete encodings.
pub proof fn lemma_decode_concat(b1: Seq<u8>, b2: Seq<u8>)
    requires
        valid_utf8(b1),
        valid_utf8(b2),
    ensures
        valid_utf8(b1 + b2),
        decode_utf8(b1 + b2) == decode_utf8(b1) + decode_utf8(b2),
{
    valid_utf8_concat(b1, b2);
    let both = b1 + b2;
    if b2.len() == 0 {
        assert(both =~= b1);
        assert(decode_utf8(b2) =~= Seq::<char>::empty());
        assert(decode_utf8(b1) + decode_utf8(b2) =~= decode_utf8(b1));
    } else {
        assert(valid_first_scalar(b2));
        assert(!is_continuation_byte(b2[0]));
        assert(both[b1.len() as int] == b2[0]);
        is_char_boundary_iff_not_is_continuation_byte(both, b1.len() as int);
        decode_utf8_split(both, b1.len() as int);
        assert(both.subrange(0, b1.len() as int) =~= b1);
        assert(both.subrange(b1.len() as int, both.len() as int) =~= b2);
    }
}

/// UTF-8 encoding distributes over concatenation: appending encodings
/// character by character builds the encoding of the whole sequence.
pub proof fn lemma_encode_utf8_append(a: Seq<char>, b: Seq<char>)
    ensures
        encode_utf8(a + b) == encode_utf8(a) + encode_utf8(b),
    decreases a.len(),
{
    if a.len() == 0 {
        assert(a + b =~= b);
        assert(encode_utf8(a) + encode_utf8(b) =~= encode_utf8(b));
    } else {
        assert((a + b).drop_first() =~= a.drop_first() + b);
        assert((a + b)[0] == a[0]);
        lemma_encode_utf8_append(a.drop_first(), b);
        assert(encode_scalar(a[0] as u32) + (encode_utf8(a.drop_first()) + encode_utf8(b)) =~= (
        encode_scalar(a[0] as u32) + encode_utf8(a.drop_first())) + encode_utf8(b));
    }
}

/// Encode a character sequence back to UTF-8 bytes.
pub fn encode_chunk(chars: &Vec<char>) -> (r: Vec<u8>)
    ensures
        r@ == encode_utf8(chars@),
{
    let mut out: Vec<u8> = Vec::new();
    let mut i: usize = 0;
    while i < chars.len()
        invariant
            i <= chars@.len(),
            out@ == encode_utf8(chars@.take(i as int)),
        decreases chars@.len() - i,
    {
        let c = chars[i];
        let u: u32 = c as u32;
        let ghost before = out@;
        proof {
            char_is_scalar(c);
            assert(chars@.take(i + 1 as int) =~= chars@.take(i as int) + seq![c]);
            lemma_encode_utf8_append(chars@.take(i as int), seq![c]);
            assert(seq![c].drop_first() =~= Seq::<char>::empty());
            assert(seq![c][0] == c);
            assert(encode_utf8(Seq::<char>::empty()) =~= Seq::<u8>::empty());
            assert(encode_utf8(seq![c].drop_first()) =~= Seq::<u8>::empty());
            assert(encode_utf8(seq![c]) =~= encode_scalar(seq![c][0] as u32) + encode_utf8(
                seq![c].drop_first(),
            ));
            assert(encode_utf8(seq![c]) =~= encode_scalar(u));
        }
        if u <= 0x7f {
            out.push((u & 0x7f) as u8);
            proof {
                assert(out@ =~= before + encode_scalar(u));
            }
        } else if u <= 0x7ff {
            out.push(0xc0 | (((u >> 6) & 0x1f) as u8));
            out.push(0x80 | ((u & 0x3f) as u8));
            proof {
                assert(out@ =~= before + encode_scalar(u));
            }
        } else if u <= 0xffff {
            out.push(0xe0 | (((u >> 12) & 0x0f) as u8));
            out.push(0x80 | (((u >> 6) & 0x3f) as u8));
            out.push(0x80 | ((u & 0x3f) as u8));
            proof {
                assert(out@ =~= before + encode_scalar(u));
            }
        } else {
            out.push(0xf0 | (((u >> 18) & 0x7) as u8));
            out.push(0x80 | (((u >> 12) & 0x3f) as u8));
            out.push(0x80 | (((u >> 6) & 0x3f) as u8));
            out.push(0x80 | ((u & 0x3f) as u8));
            proof {
                assert(out@ =~= before + encode_scalar(u));
            }
        }
        i = i + 1;
    }
    proof {
        assert(chars@.take(chars@.len() as int) =~= chars@);
    }
    out
}

} // verus!
