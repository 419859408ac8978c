//! The streaming corrector: the scan state plus the bytes of an unfinished
//! character carried across chunk boundaries, so a buffer refill may land in
//! the middle of a multi-byte character — or between a closing quote and the
//! semicolon it licenses — without changing the result.

use vstd::prelude::*;
use vstd::utf8::decode_utf8;
use vstd::utf8::encode_utf8;
use vstd::utf8::valid_utf8;
use crate::codec::boundary_split;
use crate::codec::decode_chunk;
use crate::codec::encode_chunk;
use crate::codec::incomplete_tail;
use crate::codec::lemma_decode_concat;
use crate::codec::lemma_decode_len_le;
use crate::codec::lemma_encode_utf8_append;
use crate::codec::lemma_split_point_after_valid;
use crate::codec::lemma_split_point_basic;
use crate::codec::split_point;
use crate::scanner::scan_init;
use crate::scanner::scan_out;
use crate::scanner::scan_state;
use crate::scanner::lemma_scan_append;
use crate::scanner::lemma_scan_out_len;
use crate::scanner::ScanModel;
use crate::scanner::ScanState;

verus! {

/// The closed error taxonomy of the corrector. The library itself fails only
/// with `Decode`; `Source` and `Sink` name the caller's read and write
/// failures on the underlying streams, propagated unrecovered.
#[derive(Clone, Copy, PartialEq, Eq, Debug)]
pub enum CorrectError {
    Source,
    Sink,
    Decode,
}

/// The complete part of the carried bytes plus a new chunk: everything up to
/// the cut before any trailing incomplete character.
pub open spec fn feed_prefix(p: Seq<u8>, chunk: Seq<u8>) -> Seq<u8> {
    (p + chunk).take(split_point(p + chunk))
}

/// What a feed carries forward past the cut: the opening bytes of a
/// character whose remaining bytes have not arrived yet.
pub open spec fn feed_rest(p: Seq<u8>, chunk: Seq<u8>) -> Seq<u8> {
    (p + chunk).skip(split_point(p + chunk))
}

/// Append the bytes of `src` to `dst`.
fn append_bytes(dst: &mut Vec<u8>, src: &Vec<u8>)
    ensures
        final(dst)@ == old(dst)@ + src@,
{
    let mut j: usize = 0;
    while j < src.len()
        invariant
            j <= src@.len(),
            dst@ == old(dst)@ + src@.take(j as int),
        decreases src@.len() - j,
    {
        proof {
            assert(old(dst)@ + src@.take(j + 1 as int) =~= (old(dst)@ + src@.take(j as int)).push(
                src@[j as int],
            ));
        }
        dst.push(src[j]);
        j = j + 1;
    }
    proof {
        assert(old(dst)@ + src@.take(src@.len() as int) =~= old(dst)@ + src@);
    }
}

/// Copy the bytes of `src` from position `from` to the end.
fn copy_from(src: &Vec<u8>, from: usize) -> (r: Vec<u8>)
    requires
        from <= src@.len(),
    ensures
        r@ == src@.skip(from as int),
{
    let mut r: Vec<u8> = Vec::new();
    let mut j: usize = from;
    while j < src.len()
        invariant
            from <= j <= src@.len(),
            r@ == src@.subrange(from as int, j as int),
        decreases src@.len() - j,
    {
        proof {
            assert(src@.subrange(from as int, j + 1 as int) =~= src@.subrange(
                from as int,
                j as int,
            ).push(src@[j as int]));
        }
        r.push(src[j]);
        j = j + 1;
    }
    proof {
        assert(src@.subrange(from as int, src@.len() as int) =~= src@.skip(from as int));
    }
    r
}

/// The streaming corrector over raw bytes: one is created per run, fed the
/// stream chunk by chunk, and asked for the final count at end of stream.
pub struct Corrector {
    scan: ScanState,
    pending: Vec<u8>,
}

impl Corrector {
    /// The scanner's abstract state.
    pub closed spec fn model(&self) -> ScanModel {
        self.scan@
    }

    /// The carried bytes of an unfinished character.
    pub closed spec fn pending_bytes(&self) -> Seq<u8> {
        self.pending@
    }

    /// Well-formed: what is carried is the opening of one character, never
    /// more than three bytes.
    pub closed spec fn wf(&self) -> bool {
        incomplete_tail(self.pending@)
    }

    /// A fresh corrector: initial scan state, nothing carried.
    pub fn new() -> (c: Corrector)
        ensures
            c.wf(),
            c.model() == scan_init(),
            c.pending_bytes() == Seq::<u8>::empty(),
    {
        let c = Corrector { scan: ScanState::new(), pending: Vec::new() };
        proof {
            assert(c.pending@ =~= Seq::<u8>::empty());
        }
        c
    }

    /// The number of semicolon-to-colon rewrites made so far.
    pub fn corrections(&self) -> (n: u64)
        ensures
            n as nat == self.model().corrections,
    {
        self.scan.corrections()
    }

    /// How many bytes of an unfinished character are being carried.
    pub fn pending_len(&self) -> (n: usize)
        ensures
            n as int == self.pending_bytes().len(),
    {
        self.pending.len()
    }

    /// Consume one chunk of the byte stream and return the corrected bytes
    /// that are ready to be written. Bytes of a character still incomplete at
    /// the end of the chunk are carried into the next call. Fails exactly
    /// when the complete part of the stream is not valid UTF-8, leaving the
    /// corrector unchanged.
    pub fn feed(&mut self, chunk: &Vec<u8>) -> (r: Result<Vec<u8>, CorrectError>)
        requires
            old(self).wf(),
            old(self).model().corrections + old(self).pending_bytes().len() + chunk@.len()
                <= u64::MAX,
        ensures
            final(self).wf(),
            ({
                let prefix = feed_prefix(old(self).pending_bytes(), chunk@);
                if valid_utf8(prefix) {
                    &&& r matches Ok(out) && out@ == encode_utf8(
                        scan_out(old(self).model(), decode_utf8(prefix)),
                    )
                    &&& final(self).model() == scan_state(old(self).model(), decode_utf8(prefix))
                    &&& final(self).pending_bytes() == feed_rest(old(self).pending_bytes(), chunk@)
                } else {
                    &&& r matches Err(e) && e == CorrectError::Decode
                    &&& final(self).model() == old(self).model()
                    &&& final(self).pending_bytes() == old(self).pending_bytes()
                }
            }),
    {
        let mut all: Vec<u8> = Vec::new();
        append_bytes(&mut all, &self.pending);
        append_bytes(&mut all, chunk);
        proof {
            assert(all@ == self.pending@ + chunk@);
        }
        let n = boundary_split(&all);
        let tail = copy_from(&all, n);
        all.truncate(n);
        proof {
            assert(all@ == feed_prefix(old(self).pending_bytes(), chunk@));
            assert(tail@ == feed_rest(old(self).pending_bytes(), chunk@));
        }
        match decode_chunk(&all) {
            None => Err(CorrectError::Decode),
            Some(cs) => {
                proof {
                    lemma_decode_len_le(all@);
                }
                let out_chars = self.scan.process_chunk(&cs);
                let out = encode_chunk(&out_chars);
                self.pending = tail;
                Ok(out)
            },
        }
    }

    /// End of stream: report the final correction count. Fails when bytes of
    /// an unfinished character are still carried — the stream ended in the
    /// middle of a character, which is a decode failure.
    pub fn finish(&self) -> (r: Result<u64, CorrectError>)
        ensures
            self.pending_bytes().len() == 0 ==> (r matches Ok(n) && n as nat
                == self.model().corrections),
            self.pending_bytes().len() != 0 ==> (r matches Err(e) && e == CorrectError::Decode),
    {
        if self.pending.len() == 0 {
            Ok(self.scan.corrections())
        } else {
            Err(CorrectError::Decode)
        }
    }
}

/// Correct a complete in-memory document: decode it, run the scanner over
/// every character, and encode the result, returning the corrected bytes and
/// the number of corrections made. Fails exactly when the input is not valid
/// UTF-8.
pub fn run(input: &Vec<u8>) -> (r: Result<(Vec<u8>, u64), CorrectError>)
    ensures
        valid_utf8(input@) ==> (r matches Ok(p) && p.0@ == encode_utf8(
            scan_out(scan_init(), decode_utf8(input@)),
        ) && p.1 as nat == scan_state(scan_init(), decode_utf8(input@)).corrections
            && valid_utf8(p.0@) && decode_utf8(p.0@).len() == decode_utf8(input@).len()),
        !valid_utf8(input@) ==> (r matches Err(e) && e == CorrectError::Decode),
{
    match decode_chunk(input) {
        None => Err(CorrectError::Decode),
        Some(cs) => {
            let clen: usize = cs.len();
            proof {
                lemma_decode_len_le(input@);
                assert(cs@.len() == clen as int);
                assert(clen as nat <= u64::MAX);
                vstd::utf8::encode_utf8_valid_utf8(scan_out(scan_init(), decode_utf8(input@)));
                vstd::utf8::encode_utf8_decode_utf8(scan_out(scan_init(), decode_utf8(input@)));
                lemma_scan_out_len(scan_init(), decode_utf8(input@));
            }
            let mut st = ScanState::new();
            let out_chars = st.process_chunk(&cs);
            let out = encode_chunk(&out_chars);
            let count = st.corrections();
            Ok((out, count))
        },
    }
}

/// Buffer-refill invariance at the byte level: feeding a stream in two
/// chunks consumes the same complete prefix, and decodes to the same
/// characters, as feeding the concatenation in one piece, wherever the
/// refill boundary lands, even inside a multi-byte character.
#[verifier::rlimit(60)]
pub proof fn lemma_feed_prefix_composition(p: Seq<u8>, a: Seq<u8>, b: Seq<u8>)
    requires
        incomplete_tail(p),
        valid_utf8(feed_prefix(p, a)),
        valid_utf8(feed_prefix(feed_rest(p, a), b)),
    ensures
        feed_prefix(p, a + b) == feed_prefix(p, a) + feed_prefix(feed_rest(p, a), b),
        feed_rest(p, a + b) == feed_rest(feed_rest(p, a), b),
        valid_utf8(feed_prefix(p, a + b)),
        decode_utf8(feed_prefix(p, a + b)) == decode_utf8(feed_prefix(p, a)) + decode_utf8(
            feed_prefix(feed_rest(p, a), b),
        ),
{
    let pre1 = feed_prefix(p, a);
    let p1 = feed_rest(p, a);
    let pre2 = feed_prefix(p1, b);
    let p2 = feed_rest(p1, b);
    lemma_split_point_basic(p + a);
    lemma_split_point_basic(p1 + b);
    assert(p + a =~= pre1 + p1);
    assert(p1 + b =~= pre2 + p2);
    assert(p + (a + b) =~= (pre1 + pre2) + p2);
    lemma_decode_concat(pre1, pre2);
    lemma_split_point_after_valid(pre1 + pre2, p2);
    assert(split_point(p + (a + b)) == (pre1 + pre2).len());
    assert(feed_prefix(p, a + b) =~= pre1 + pre2);
    assert(feed_rest(p, a + b) =~= p2);
}

/// Buffer-refill invariance in full for one boundary: feeding a stream in
/// two chunks reaches the same scan state — so the same correction count —
/// and writes bytes that concatenate to the unsplit output.
pub proof fn lemma_feed_composition(m: ScanModel, p: Seq<u8>, a: Seq<u8>, b: Seq<u8>)
    requires
        incomplete_tail(p),
        valid_utf8(feed_prefix(p, a)),
        valid_utf8(feed_prefix(feed_rest(p, a), b)),
    ensures
        feed_prefix(p, a + b) == feed_prefix(p, a) + feed_prefix(feed_rest(p, a), b),
        feed_rest(p, a + b) == feed_rest(feed_rest(p, a), b),
        valid_utf8(feed_prefix(p, a + b)),
        decode_utf8(feed_prefix(p, a + b)) == decode_utf8(feed_prefix(p, a)) + decode_utf8(
            feed_prefix(feed_rest(p, a), b),
        ),
        scan_state(m, decode_utf8(feed_prefix(p, a + b))) == scan_state(
            scan_state(m, decode_utf8(feed_prefix(p, a))),
            decode_utf8(feed_prefix(feed_rest(p, a), b)),
        ),
        encode_utf8(scan_out(m, decode_utf8(feed_prefix(p, a + b)))) == encode_utf8(
            scan_out(m, decode_utf8(feed_prefix(p, a))),
        ) + encode_utf8(
            scan_out(
                scan_state(m, decode_utf8(feed_prefix(p, a))),
                decode_utf8(feed_prefix(feed_rest(p, a), b)),
            ),
        ),
{
    lemma_feed_prefix_composition(p, a, b);
    lemma_scan_append(m, decode_utf8(feed_prefix(p, a)), decode_utf8(feed_prefix(feed_rest(p, a), b)));
    lemma_encode_utf8_append(
        scan_out(m, decode_utf8(feed_prefix(p, a))),
        scan_out(
            scan_state(m, decode_utf8(feed_prefix(p, a))),
            decode_utf8(feed_prefix(feed_rest(p, a), b)),
        ),
    );
}

/// The complete prefixes consumed by feeding a list of chunks in order.
pub open spec fn feed_all_prefix(p: Seq<u8>, chunks: Seq<Seq<u8>>) -> Seq<u8>
    decreases chunks.len(),
{
    if chunks.len() == 0 {
        Seq::empty()
    } else {
        feed_prefix(p, chunks[0]) + feed_all_prefix(feed_rest(p, chunks[0]), chunks.drop_first())
    }
}

/// What is still carried after feeding a list of chunks in order.
pub open spec fn feed_all_rest(p: Seq<u8>, chunks: Seq<Seq<u8>>) -> Seq<u8>
    decreases chunks.len(),
{
    if chunks.len() == 0 {
        p
    } else {
        feed_all_rest(feed_rest(p, chunks[0]), chunks.drop_first())
    }
}

/// Whether every feed of the list decodes: each complete prefix in turn is
/// valid UTF-8.
pub open spec fn feed_all_ok(p: Seq<u8>, chunks: Seq<Seq<u8>>) -> bool
    decreases chunks.len(),
{
    chunks.len() == 0 || (valid_utf8(feed_prefix(p, chunks[0])) && feed_all_ok(
        feed_rest(p, chunks[0]),
        chunks.drop_first(),
    ))
}

/// The scan state after feeding a list of chunks in order.
pub open spec fn feed_all_state(m: ScanModel, p: Seq<u8>, chunks: Seq<Seq<u8>>) -> ScanModel
    decreases chunks.len(),
{
    if chunks.len() == 0 {
        m
    } else {
        feed_all_state(
            scan_state(m, decode_utf8(feed_prefix(p, chunks[0]))),
            feed_rest(p, chunks[0]),
            chunks.drop_first(),
        )
    }
}

/// The concatenated bytes written while feeding a list of chunks in order.
pub open spec fn feed_all_out(m: ScanModel, p: Seq<u8>, chunks: Seq<Seq<u8>>) -> Seq<u8>
    decreases chunks.len(),
{
    if chunks.len() == 0 {
        Seq::empty()
    } else {
        encode_utf8(scan_out(m, decode_utf8(feed_prefix(p, chunks[0])))) + feed_all_out(
            scan_state(m, decode_utf8(feed_prefix(p, chunks[0]))),
            feed_rest(p, chunks[0]),
            chunks.drop_first(),
        )
    }
}

/// Buffer-size invariance in full: however the stream is cut into chunks,
/// feeding them in order consumes the same complete prefix, writes the same
/// bytes, reaches the same scan state — so the same correction count — and
/// carries the same bytes as feeding the whole stream in one piece.
pub proof fn lemma_chunking_invariance(m: ScanModel, p: Seq<u8>, chunks: Seq<Seq<u8>>)
    requires
        incomplete_tail(p),
        feed_all_ok(p, chunks),
    ensures
        valid_utf8(feed_prefix(p, chunks.flatten())),
        feed_all_prefix(p, chunks) == feed_prefix(p, chunks.flatten()),
        feed_all_rest(p, chunks) == feed_rest(p, chunks.flatten()),
        feed_all_out(m, p, chunks) == encode_utf8(
            scan_out(m, decode_utf8(feed_prefix(p, chunks.flatten()))),
        ),
        feed_all_state(m, p, chunks) == scan_state(
            m,
            decode_utf8(feed_prefix(p, chunks.flatten())),
        ),
    decreases chunks.len(),
{
    if chunks.len() == 0 {
        assert(chunks.flatten() =~= Seq::<u8>::empty());
        lemma_split_point_after_valid(Seq::<u8>::empty(), p);
        assert(Seq::<u8>::empty() + p =~= p);
        assert(p + Seq::<u8>::empty() =~= p);
        assert(feed_prefix(p, Seq::<u8>::empty()) =~= Seq::<u8>::empty());
        assert(feed_rest(p, Seq::<u8>::empty()) =~= p);
        assert(valid_utf8(Seq::<u8>::empty()));
        assert(decode_utf8(Seq::<u8>::empty()) =~= Seq::<char>::empty());
        assert(scan_out(m, Seq::<char>::empty()) =~= Seq::<char>::empty());
        assert(encode_utf8(Seq::<char>::empty()) =~= Seq::<u8>::empty());
        assert(scan_state(m, Seq::<char>::empty()) == m);
    } else {
        let c0 = chunks[0];
        let p1 = feed_rest(p, c0);
        let m1 = scan_state(m, decode_utf8(feed_prefix(p, c0)));
        let rest = chunks.drop_first();
        assert(chunks.flatten() == c0 + rest.flatten());
        lemma_split_point_basic(p + c0);
        lemma_chunking_invariance(m1, p1, rest);
        lemma_feed_composition(m, p, c0, rest.flatten());
    }
}

} // verus!
