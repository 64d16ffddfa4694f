//! The sanitizer: strips terminal control sequences from captured output
//! and normalizes line endings, line by line, on raw bytes.

use vstd::prelude::*;
use crate::pattern::{BytePattern, bytes_compiles, bytes_replaced};
use crate::paths::{raw_to_san, san_of};

verus! {

/// Control sequences: bell; CSI (`ESC [ ... final byte`); a title set by
/// `ESC ] ... BEL`; two-byte escapes; and `ESC ( B`.
pub const CONTROL_PATTERN: &'static str = r"\a|\x1B\x5B.*?[\x40-\x7E]|\x1B\x5D.*?\x07|\x1B[\x40-\x5A\x5C\x5F]|\x1B\x28\x42";

/// Trailing whitespace and carriage returns before a line feed.
pub const LINE_END_PATTERN: &'static str = r"\s*\x0D*\x0A";

/// Whitespace before a carriage return left in the middle of a line.
pub const ORPHAN_CR_PATTERN: &'static str = r"\s*\x0D";

/// Raw files of at least this many bytes are not sanitized.
pub const SIZE_LIMIT: u64 = 100_000_000;

pub open spec fn line_feed() -> Seq<u8> {
    seq![0x0Au8]
}

/// One line sanitized: control sequences removed, then line ends collapsed
/// to a line feed, then orphan carriage returns turned into line feeds.
pub open spec fn sanitized_line(line: Seq<u8>) -> Seq<u8> {
    bytes_replaced(
        ORPHAN_CR_PATTERN@,
        bytes_replaced(
            LINE_END_PATTERN@,
            bytes_replaced(CONTROL_PATTERN@, line, Seq::empty()),
            line_feed(),
        ),
        line_feed(),
    )
}

/// The length of the first line of `s`: up to and with its first line feed,
/// or all of `s` when it holds none.
pub open spec fn line_len(s: Seq<u8>) -> nat
    decreases s.len(),
{
    if s.len() == 0 {
        0
    } else if s[0] == 0x0Au8 {
        1
    } else {
        1 + line_len(s.skip(1))
    }
}

/// A whole raw text sanitized line by line.
pub open spec fn sanitized_text(s: Seq<u8>) -> Seq<u8>
    decreases s.len() via sanitized_text_decreases
{
    if s.len() == 0 {
        Seq::empty()
    } else {
        sanitized_line(s.take(line_len(s) as int)) + sanitized_text(s.skip(line_len(s) as int))
    }
}

#[via_fn]
proof fn sanitized_text_decreases(s: Seq<u8>) {
    lemma_line_len_bounds(s);
}

pub proof fn lemma_line_len_bounds(s: Seq<u8>)
    ensures
        s.len() > 0 ==> 1 <= line_len(s) <= s.len(),
        s.len() == 0 ==> line_len(s) == 0,
    decreases s.len(),
{
    if s.len() > 0 && s[0] != 0x0Au8 {
        lemma_line_len_bounds(s.skip(1));
    }
}

/// A line of `k` bytes with no line feed before its last byte, which is one
/// unless `s` ends there, is the first line of `s`.
proof fn lemma_line_len_is(s: Seq<u8>, k: nat)
    requires
        1 <= k <= s.len(),
        forall|i: int| 0 <= i < k - 1 ==> s[i] != 0x0Au8,
        s[k - 1] == 0x0Au8 || k == s.len(),
    ensures
        line_len(s) == k,
    decreases k,
{
    if k > 1 {
        assert(s[0] != 0x0Au8);
        assert forall|i: int| 0 <= i < k - 2 implies s.skip(1)[i] != 0x0Au8 by {
            assert(s.skip(1)[i] == s[i + 1]);
        }
        assert(s.skip(1)[k - 2] == s[k - 1]);
        lemma_line_len_is(s.skip(1), (k - 1) as nat);
    } else if s[0] != 0x0Au8 {
        assert(s.skip(1).len() == 0);
        assert(line_len(s.skip(1)) == 0);
    }
}

/// A text that ends with a line feed keeps its first line when more text
/// follows.
proof fn lemma_line_len_append(a: Seq<u8>, b: Seq<u8>)
    requires
        a.len() > 0,
        a.last() == 0x0Au8,
    ensures
        line_len(a + b) == line_len(a),
    decreases a.len(),
{
    if a[0] != 0x0Au8 {
        assert((a + b).skip(1) =~= a.skip(1) + b);
        lemma_line_len_append(a.skip(1), b);
    } else {
        assert((a + b)[0] == a[0]);
    }
}

/// Sanitizing line by line and writing each result out gives the sanitized
/// whole: a text that ends at a line end may be sanitized apart from what
/// follows it.
pub proof fn lemma_sanitized_concat(a: Seq<u8>, b: Seq<u8>)
    requires
        a.len() == 0 || a.last() == 0x0Au8,
    ensures
        sanitized_text(a + b) == sanitized_text(a) + sanitized_text(b),
    decreases a.len(),
{
    if a.len() == 0 {
        assert(a + b =~= b);
        assert(Seq::<u8>::empty() + sanitized_text(b) =~= sanitized_text(b));
    } else {
        lemma_line_len_append(a, b);
        lemma_line_len_bounds(a);
        let k = line_len(a) as int;
        assert((a + b).take(k) =~= a.take(k));
        assert((a + b).skip(k) =~= a.skip(k) + b);
        if k < a.len() {
            assert(a.skip(k).last() == a.last());
        }
        lemma_sanitized_concat(a.skip(k), b);
        assert(sanitized_line(a.take(k)) + (sanitized_text(a.skip(k)) + sanitized_text(b))
            =~= (sanitized_line(a.take(k)) + sanitized_text(a.skip(k))) + sanitized_text(b));
    }
}

/// The compiled patterns of the sanitizer.
pub struct Sanitizer {
    control: BytePattern,
    line_end: BytePattern,
    orphan_cr: BytePattern,
}

impl Sanitizer {
    pub open spec fn wf(&self) -> bool {
        &&& self.control_source() == CONTROL_PATTERN@
        &&& self.line_end_source() == LINE_END_PATTERN@
        &&& self.orphan_cr_source() == ORPHAN_CR_PATTERN@
    }

    pub closed spec fn control_source(&self) -> Seq<char> {
        self.control.source()
    }

    pub closed spec fn line_end_source(&self) -> Seq<char> {
        self.line_end.source()
    }

    pub closed spec fn orphan_cr_source(&self) -> Seq<char> {
        self.orphan_cr.source()
    }

    /// Compiles the three patterns; `None` when the regular expression
    /// engine refuses one of them.
    pub fn new() -> (r: Option<Sanitizer>)
        ensures
            r is Some <==> (bytes_compiles(CONTROL_PATTERN@) && bytes_compiles(LINE_END_PATTERN@)
                && bytes_compiles(ORPHAN_CR_PATTERN@)),
            r matches Some(s) ==> s.wf(),
    {
        let control = match BytePattern::compile(CONTROL_PATTERN) {
            Some(p) => p,
            None => return None,
        };
        let line_end = match BytePattern::compile(LINE_END_PATTERN) {
            Some(p) => p,
            None => return None,
        };
        let orphan_cr = match BytePattern::compile(ORPHAN_CR_PATTERN) {
            Some(p) => p,
            None => return None,
        };
        Some(Sanitizer { control, line_end, orphan_cr })
    }

    /// Sanitizes one line.
    pub fn sanitize_line(&self, line: &[u8]) -> (r: Vec<u8>)
        requires
            self.wf(),
        ensures
            r@ == sanitized_line(line@),
    {
        let empty: Vec<u8> = Vec::new();
        let lf: Vec<u8> = vec![0x0Au8];
        assert(lf@ =~= line_feed());
        let a = self.control.replace_all(line, empty.as_slice());
        let b = self.line_end.replace_all(a.as_slice(), lf.as_slice());
        let c = self.orphan_cr.replace_all(b.as_slice(), lf.as_slice());
        c
    }

    /// Sanitizes a whole text, line by line.
    pub fn sanitize(&self, raw: &[u8]) -> (r: Vec<u8>)
        requires
            self.wf(),
        ensures
            r@ == sanitized_text(raw@),
    {
        let n = raw.len();
        let mut out: Vec<u8> = Vec::new();
        let mut i: usize = 0;
        assert(raw@.skip(0) =~= raw@);
        assert(out@ + sanitized_text(raw@) =~= sanitized_text(raw@));
        while i < n
            invariant
                self.wf(),
                n == raw@.len(),
                i <= n,
                out@ + sanitized_text(raw@.skip(i as int)) == sanitized_text(raw@),
            decreases n - i,
        {
            let mut line: Vec<u8> = Vec::new();
            let mut j: usize = i;
            let mut done = false;
            while j < n && !done
                invariant
                    n == raw@.len(),
                    i <= j <= n,
                    line@ == raw@.subrange(i as int, j as int),
                    forall|x: int| i <= x < j - 1 ==> raw@[x] != 0x0Au8,
                    done ==> j > i && raw@[j - 1] == 0x0Au8,
                    !done ==> forall|x: int| i <= x < j ==> raw@[x] != 0x0Au8,
                decreases n - j,
            {
                line.push(raw[j]);
                done = raw[j] == 0x0Au8;
                j = j + 1;
                assert(line@ =~= raw@.subrange(i as int, j as int));
            }
            let ghost rest = raw@.skip(i as int);
            proof {
                lemma_line_len_is(rest, (j - i) as nat);
                assert(rest.take((j - i) as int) =~= line@);
                assert(rest.skip((j - i) as int) =~= raw@.skip(j as int));
            }
            let s = self.sanitize_line(line.as_slice());
            let ghost before = out@;
            let mut s2 = s;
            out.append(&mut s2);
            i = j;
            assert(out@ + sanitized_text(raw@.skip(i as int)) =~= before + sanitized_text(rest));
        }
        assert(raw@.skip(n as int) =~= Seq::<u8>::empty());
        assert(out@ + Seq::<u8>::empty() =~= out@);
        out
    }
}

/// What ending a session does with its raw log.
#[derive(Debug, PartialEq, Eq)]
pub enum EndDecision {
    /// Nothing: the log is missing, too large, or already sanitized.
    Skip,
    /// Sanitize the log into `target`.
    Sanitize { target: String },
}

/// Decides what ending the session of the raw log `raw_path` does, given
/// whether it exists, its size, and whether its sanitized counterpart exists.
/// A log is sanitized at most once: where the counterpart exists, nothing is
/// done, so a second call changes nothing.
pub fn end_decision(raw_path: &str, raw_exists: bool, raw_size: u64, san_exists: bool) -> (r:
    EndDecision)
    ensures
        r is Sanitize <==> (raw_exists && raw_size < SIZE_LIMIT && !san_exists),
        r matches EndDecision::Sanitize { target } ==> target@ == san_of(raw_path@),
{
    if !raw_exists || raw_size >= SIZE_LIMIT || san_exists {
        EndDecision::Skip
    } else {
        EndDecision::Sanitize { target: raw_to_san(raw_path) }
    }
}

} // verus!
