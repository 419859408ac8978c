//! The per-character state machine at the heart of the corrector.
//!
//! The scanner consumes decoded characters one at a time. It tracks whether
//! the current position lies inside a JSON string literal and which
//! non-whitespace character was seen most recently. A semicolon that stands
//! outside every string literal and immediately follows a closed string
//! (whitespace in between is tolerated) is emitted as a colon and counted;
//! every other character is emitted unchanged.

use vstd::prelude::*;

verus! {

/// The mathematical state of the scanner: the string-literal flag, the most
/// recent significant (non-whitespace) character, and the running count of
/// corrections. `'\0'` is the initial sentinel meaning "nothing seen yet".
pub ghost struct ScanModel {
    pub in_string: bool,
    pub last_significant: char,
    pub corrections: nat,
}

/// The scanner's state at the start of a stream.
pub open spec fn scan_init() -> ScanModel {
    ScanModel { in_string: false, last_significant: '\0', corrections: 0 }
}

/// The Unicode white-space characters, exactly the set that
/// `char::is_whitespace` recognizes. Whitespace never becomes the last
/// significant character, so `"key" ;` behaves like `"key";`.
pub open spec fn is_scan_whitespace(c: char) -> bool {
    let u = c as u32;
    ||| (0x09 <= u && u <= 0x0d)
    ||| u == 0x20
    ||| u == 0x85
    ||| u == 0xa0
    ||| u == 0x1680
    ||| (0x2000 <= u && u <= 0x200a)
    ||| u == 0x2028
    ||| u == 0x2029
    ||| u == 0x202f
    ||| u == 0x205f
    ||| u == 0x3000
}

/// True when the character toggles the string-literal flag: an unescaped
/// double quote, i.e. one whose preceding significant character is not a
/// backslash.
pub open spec fn toggles(m: ScanModel, c: char) -> bool {
    c == '"' && m.last_significant != '\\'
}

/// True when the character is rewritten: a semicolon outside every string
/// literal whose last significant character was a closing double quote.
pub open spec fn corrects(m: ScanModel, c: char) -> bool {
    c == ';' && !m.in_string && m.last_significant == '"'
}

/// The character the scanner emits for input `c` in state `m`.
pub open spec fn step_out(m: ScanModel, c: char) -> char {
    if corrects(m, c) {
        ':'
    } else {
        c
    }
}

/// The scanner's state after consuming `c` in state `m`. A corrected
/// semicolon records `':'` as the last significant character, so later
/// decisions see the substituted text.
pub open spec fn step_state(m: ScanModel, c: char) -> ScanModel {
    if toggles(m, c) {
        ScanModel {
            in_string: !m.in_string,
            last_significant: '"',
            corrections: m.corrections,
        }
    } else if corrects(m, c) {
        ScanModel {
            in_string: m.in_string,
            last_significant: ':',
            corrections: m.corrections + 1,
        }
    } else {
        ScanModel {
            in_string: m.in_string,
            last_significant: if is_scan_whitespace(c) {
                m.last_significant
            } else {
                c
            },
            corrections: m.corrections,
        }
    }
}

/// The scanner's state after consuming the whole character sequence `s`,
/// starting from state `m`.
pub open spec fn scan_state(m: ScanModel, s: Seq<char>) -> ScanModel
    decreases s.len(),
{
    if s.len() == 0 {
        m
    } else {
        step_state(scan_state(m, s.drop_last()), s.last())
    }
}

/// The characters the scanner emits for the sequence `s`, starting from
/// state `m`.
pub open spec fn scan_out(m: ScanModel, s: Seq<char>) -> Seq<char>
    decreases s.len(),
{
    if s.len() == 0 {
        Seq::empty()
    } else {
        scan_out(m, s.drop_last()).push(step_out(scan_state(m, s.drop_last()), s.last()))
    }
}

/// Whether `c` is Unicode white space, the same set `is_scan_whitespace`
/// describes.
pub fn is_whitespace_char(c: char) -> (r: bool)
    ensures
        r == is_scan_whitespace(c),
{
    let u = c as u32;
    (0x09 <= u && u <= 0x0d) || u == 0x20 || u == 0x85 || u == 0xa0 || u == 0x1680 || (0x2000 <= u
        && u <= 0x200a) || u == 0x2028 || u == 0x2029 || u == 0x202f || u == 0x205f || u == 0x3000
}

/// The executable scan state, carried across the entire stream.
pub struct ScanState {
    pub in_string: bool,
    pub last_significant: char,
    pub corrections: u64,
}

impl View for ScanState {
    type V = ScanModel;

    open spec fn view(&self) -> ScanModel {
        ScanModel {
            in_string: self.in_string,
            last_significant: self.last_significant,
            corrections: self.corrections as nat,
        }
    }
}

impl ScanState {
    /// A fresh scanner: outside any string, sentinel last character, no
    /// corrections yet.
    pub fn new() -> (s: ScanState)
        ensures
            s@ == scan_init(),
    {
        ScanState { in_string: false, last_significant: '\0', corrections: 0 }
    }

    /// The number of semicolon-to-colon rewrites made so far.
    pub fn corrections(&self) -> (n: u64)
        ensures
            n as nat == self@.corrections,
    {
        self.corrections
    }

    /// Consume one character and return the character to emit for it.
    pub fn step(&mut self, c: char) -> (out: char)
        requires
            old(self)@.corrections < u64::MAX,
        ensures
            final(self)@ == step_state(old(self)@, c),
            out == step_out(old(self)@, c),
    {
        if c == '"' && self.last_significant != '\\' {
            self.in_string = !self.in_string;
            self.last_significant = '"';
            c
        } else if c == ';' && !self.in_string && self.last_significant == '"' {
            self.corrections = self.corrections + 1;
            self.last_significant = ':';
            ':'
        } else {
            if !is_whitespace_char(c) {
                self.last_significant = c;
            }
            c
        }
    }

    /// Consume a decoded chunk and return the characters to emit for it,
    /// carrying the state forward so that chunk boundaries are invisible.
    pub fn process_chunk(&mut self, input: &Vec<char>) -> (out: Vec<char>)
        requires
            old(self)@.corrections + input@.len() <= u64::MAX,
        ensures
            final(self)@ == scan_state(old(self)@, input@),
            out@ == scan_out(old(self)@, input@),
            out@.len() == input@.len(),
    {
        let ghost m0 = self@;
        let mut out: Vec<char> = Vec::new();
        let mut i: usize = 0;
        while i < input.len()
            invariant
                i <= input@.len(),
                m0.corrections + input@.len() <= u64::MAX,
                self@ == scan_state(m0, input@.take(i as int)),
                out@ == scan_out(m0, input@.take(i as int)),
                out@.len() == i,
            decreases input@.len() - i,
        {
            proof {
                lemma_corrections_bound(m0, input@.take(i as int));
                assert(input@.take(i as int).len() == i);
                assert(input@.take(i + 1 as int).drop_last() =~= input@.take(i as int));
                assert(input@.take(i + 1 as int).last() == input@[i as int]);
            }
            let c = input[i];
            let o = self.step(c);
            out.push(o);
            i = i + 1;
        }
        proof {
            assert(input@.take(input@.len() as int) =~= input@);
        }
        out
    }
}

/// Byte/character preservation: the scanner emits exactly one character per
/// input character, so output length always equals input length.
pub proof fn lemma_scan_out_len(m: ScanModel, s: Seq<char>)
    ensures
        scan_out(m, s).len() == s.len(),
    decreases s.len(),
{
    if s.len() > 0 {
        lemma_scan_out_len(m, s.drop_last());
    }
}

/// The correction count never decreases and grows by at most one per
/// consumed character.
pub proof fn lemma_corrections_bound(m: ScanModel, s: Seq<char>)
    ensures
        m.corrections <= scan_state(m, s).corrections,
        scan_state(m, s).corrections <= m.corrections + s.len(),
    decreases s.len(),
{
    if s.len() > 0 {
        lemma_corrections_bound(m, s.drop_last());
    }
}

/// Buffer-size invariance at the character level: scanning a concatenation
/// equals scanning the pieces in order while carrying the state across the
/// boundary, and the emitted characters concatenate likewise. Any chunking
/// of a stream therefore produces the same output and the same count.
pub proof fn lemma_scan_append(m: ScanModel, a: Seq<char>, b: Seq<char>)
    ensures
        scan_state(m, a + b) == scan_state(scan_state(m, a), b),
        scan_out(m, a + b) == scan_out(m, a) + scan_out(scan_state(m, a), b),
    decreases b.len(),
{
    if b.len() == 0 {
        assert(a + b =~= a);
        assert(scan_out(m, a) + scan_out(scan_state(m, a), b) =~= scan_out(m, a));
    } else {
        lemma_scan_append(m, a, b.drop_last());
        assert((a + b).drop_last() =~= a + b.drop_last());
        assert((a + b).last() == b.last());
        assert(scan_out(m, a) + scan_out(scan_state(m, a), b) =~= (scan_out(m, a) + scan_out(
            scan_state(m, a),
            b.drop_last(),
        )).push(step_out(scan_state(scan_state(m, a), b.drop_last()), b.last())));
    }
}

/// String-content preservation: while the scanner is inside a string
/// literal, every character — semicolons included — passes through unchanged
/// and costs no correction.
pub proof fn lemma_string_content_preserved(m: ScanModel, c: char)
    requires
        m.in_string,
    ensures
        step_out(m, c) == c,
        step_state(m, c).corrections == m.corrections,
{
}

/// Escaped-quote non-toggle: a backslash followed by a double quote leaves
/// the string-literal flag exactly as it was.
pub proof fn lemma_escaped_quote_non_toggle(m: ScanModel)
    ensures
        scan_state(m, seq!['\\', '"']).in_string == m.in_string,
{
    let s = seq!['\\', '"'];
    let s1 = seq!['\\'];
    assert(s.len() == 2 && s.last() == '"');
    assert(s.drop_last() =~= s1);
    assert(s1.len() == 1 && s1.last() == '\\');
    assert(s1.drop_last() =~= Seq::<char>::empty());
    assert(scan_state(m, Seq::<char>::empty()) == m);
    let st1 = step_state(m, '\\');
    assert(scan_state(m, s1) == st1);
    assert(!is_scan_whitespace('\\'));
    assert(st1.last_significant == '\\' && st1.in_string == m.in_string);
    assert(!toggles(st1, '"'));
    let st2 = step_state(st1, '"');
    assert(scan_state(m, s) == st2);
    assert(st2.in_string == st1.in_string);
}

/// A pass changes nothing exactly when it counts no corrections: the output
/// equals the input if and only if the correction count stays where it
/// started.
pub proof fn lemma_no_corrections_identity(m: ScanModel, s: Seq<char>)
    ensures
        scan_out(m, s) == s <==> scan_state(m, s).corrections == m.corrections,
    decreases s.len(),
{
    if s.len() == 0 {
        assert(scan_out(m, s) =~= s);
    } else {
        let t = s.drop_last();
        let st = scan_state(m, t);
        lemma_no_corrections_identity(m, t);
        lemma_scan_out_len(m, t);
        lemma_corrections_bound(m, t);
        if scan_out(m, s) == s {
            assert forall|i: int| 0 <= i < t.len() implies scan_out(m, t)[i] == t[i] by {
                assert(scan_out(m, s)[i] == s[i]);
            }
            assert(scan_out(m, t) =~= t);
            assert(scan_out(m, s).last() == s.last());
            if corrects(st, s.last()) {
                assert(scan_out(m, s).last() == ':');
                assert(s.last() == ';');
                assert(false);
            }
        }
        if scan_state(m, s).corrections == m.corrections {
            assert(st.corrections == m.corrections);
            assert(scan_out(m, t) == t);
            if corrects(st, s.last()) {
                assert(scan_state(m, s).corrections == st.corrections + 1);
                assert(false);
            }
            assert(scan_out(m, s) =~= s);
        }
    }
}

/// Scanning its own output is a no-op: a second pass over what a first pass
/// emitted returns it unchanged and corrects nothing, provided the two
/// passes start in states that agree on everything but the count. A
/// substituted colon is never mistaken for new structure, because no
/// decision of the scanner tests for a colon.
pub proof fn lemma_rescan_identity(m1: ScanModel, m2: ScanModel, s: Seq<char>)
    requires
        m1.in_string == m2.in_string,
        m1.last_significant == m2.last_significant,
    ensures
        scan_out(m2, scan_out(m1, s)) == scan_out(m1, s),
        scan_state(m2, scan_out(m1, s)).in_string == scan_state(m1, s).in_string,
        scan_state(m2, scan_out(m1, s)).last_significant == scan_state(m1, s).last_significant,
        scan_state(m2, scan_out(m1, s)).corrections == m2.corrections,
    decreases s.len(),
{
    if s.len() == 0 {
        assert(scan_out(m1, s) =~= Seq::<char>::empty());
    } else {
        let t = s.drop_last();
        let o_t = scan_out(m1, t);
        lemma_rescan_identity(m1, m2, t);
        let o = scan_out(m1, s);
        let st1 = scan_state(m1, t);
        let st2 = scan_state(m2, o_t);
        let x = step_out(st1, s.last());
        assert(o.drop_last() =~= o_t);
        assert(o.last() == x);
        if corrects(st1, s.last()) {
            assert(x == ':');
            assert(!is_scan_whitespace(':'));
            assert(step_out(st2, x) == x);
            assert(step_state(st2, x).last_significant == ':');
        } else {
            assert(x == s.last());
            assert(!corrects(st2, x));
        }
        assert(scan_out(m2, o) =~= scan_out(m2, o_t).push(step_out(st2, x)));
    }
}

/// A second full pass over the output of a first full pass returns it
/// unchanged and counts zero corrections.
pub proof fn lemma_rescan_of_output(s: Seq<char>)
    ensures
        scan_out(scan_init(), scan_out(scan_init(), s)) == scan_out(scan_init(), s),
        scan_state(scan_init(), scan_out(scan_init(), s)).corrections == 0,
{
    lemma_rescan_identity(scan_init(), scan_init(), s);
}

/// Re-scanning a fixed point: when a pass returns its input unchanged, a
/// second pass over that output changes nothing and counts no corrections.
pub proof fn lemma_fixed_point_rescan(s: Seq<char>)
    requires
        scan_out(scan_init(), s) == s,
    ensures
        scan_out(scan_init(), scan_out(scan_init(), s)) == scan_out(scan_init(), s),
        scan_state(scan_init(), scan_out(scan_init(), s)).corrections == 0,
{
    lemma_no_corrections_identity(scan_init(), s);
}

} // verus!
