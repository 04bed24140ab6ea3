//! Captured console output and what can be read from it.
use vstd::prelude::*;
use vstd::utf8::{decode_utf8, valid_utf8};
use crate::chars::chars_of;
use crate::options::{lines_of, text_lines};

verus! {

/// Which standard streams to capture.
#[derive(Clone, Copy, Debug, PartialEq, Eq, Structural)]
pub struct CaptureOptions {
    pub stdout: bool,
    pub stderr: bool,
}

impl CaptureOptions {
    /// Both streams.
    pub fn all() -> (r: CaptureOptions)
        ensures
            r.stdout && r.stderr,
    {
        CaptureOptions { stdout: true, stderr: true }
    }
}

impl Default for CaptureOptions {
    fn default() -> (r: Self)
        ensures
            !r.stdout && !r.stderr,
    {
        CaptureOptions { stdout: false, stderr: false }
    }
}

/// The bytes written to each captured stream.
#[derive(Clone, Debug, PartialEq, Eq)]
pub struct CapturedOutput {
    pub stdout: Vec<u8>,
    pub stderr: Vec<u8>,
}

/// The text that `String::from_utf8_lossy` makes of `bytes`.
pub uninterp spec fn utf8_lossy(bytes: Seq<u8>) -> Seq<char>;

/// Calls `String::from_utf8_lossy`, which decodes UTF-8 and puts U+FFFD in
/// place of each invalid sequence. Its result is named by `utf8_lossy`; the
/// one fact stated of it is that valid UTF-8 decodes as it is.
#[verifier::external_body]
fn decode_utf8_lossy(bytes: &[u8]) -> (r: String)
    ensures
        r@ == utf8_lossy(bytes@),
        valid_utf8(bytes@) ==> r@ == decode_utf8(bytes@),
{
    String::from_utf8_lossy(bytes).into_owned()
}

/// True when `needle` occurs in `text` starting at `i`.
pub open spec fn occurs_at(text: Seq<char>, needle: Seq<char>, i: int) -> bool {
    0 <= i && i + needle.len() <= text.len() && text.subrange(i, i + needle.len()) == needle
}

/// True when `needle` occurs somewhere in `text`.
pub open spec fn text_holds(text: Seq<char>, needle: Seq<char>) -> bool {
    exists|i: int| occurs_at(text, needle, i)
}

/// Whether `needle` occurs in `text`.
pub fn text_contains(text: &str, needle: &str) -> (r: bool)
    ensures
        r == text_holds(text@, needle@),
{
    let t = chars_of(text);
    let n = chars_of(needle);
    if n.len() > t.len() {
        return false;
    }
    let last = t.len() - n.len();
    let mut i: usize = 0;
    while i <= last
        invariant
            t@ == text@,
            n@ == needle@,
            n@.len() <= t@.len(),
            last == t@.len() - n@.len(),
            forall|k: int| 0 <= k < i ==> !occurs_at(t@, n@, k),
        decreases last + 1 - i,
    {
        let mut j: usize = 0;
        while j < n.len() && t[i + j] == n[j]
            invariant
                i <= last,
                last == t@.len() - n@.len(),
                i + n@.len() <= t@.len(),
                t@.len() == t.len(),
                j <= n@.len(),
                forall|k: int| 0 <= k < j ==> t@[i + k] == n@[k],
            decreases n@.len() - j,
        {
            j = j + 1;
        }
        if j == n.len() {
            assert(t@.subrange(i as int, i + n@.len()) =~= n@);
            assert(occurs_at(t@, n@, i as int));
            return true;
        }
        assert(t@.subrange(i as int, i + n@.len())[j as int] != n@[j as int]);
        if i == last {
            assert(!occurs_at(t@, n@, i as int));
            return false;
        }
        i = i + 1;
    }
    false
}

/// The lines of `text` as owned strings.
pub fn owned_lines(text: &str) -> (r: Vec<String>)
    ensures
        r@.len() == text_lines(text@).len(),
        forall|i: int| 0 <= i < r@.len() ==> #[trigger] r@[i]@ == text_lines(text@)[i],
{
    let lines = lines_of(text);
    let mut out: Vec<String> = Vec::new();
    let mut i: usize = 0;
    while i < lines.len()
        invariant
            i <= lines@.len(),
            lines@.map_values(|l: &str| l@) == text_lines(text@),
            out@.len() == i,
            forall|k: int| 0 <= k < i ==> #[trigger] out@[k]@ == text_lines(text@)[k],
        decreases lines@.len() - i,
    {
        assert(lines@.map_values(|l: &str| l@)[i as int] == lines@[i as int]@);
        out.push(lines[i].to_owned());
        i = i + 1;
    }
    assert(lines@.map_values(|l: &str| l@).len() == lines@.len());
    out
}

impl CapturedOutput {
    /// The lines of the captured standard output.
    pub fn stdout_lines(&self) -> (r: Vec<String>)
        ensures
            r@.len() == text_lines(utf8_lossy(self.stdout@)).len(),
            forall|i: int| 0 <= i < r@.len() ==> #[trigger] r@[i]@ == text_lines(utf8_lossy(self.stdout@))[i],
    {
        let text = decode_utf8_lossy(self.stdout.as_slice());
        owned_lines(text.as_str())
    }

    /// The lines of the captured standard error.
    pub fn stderr_lines(&self) -> (r: Vec<String>)
        ensures
            r@.len() == text_lines(utf8_lossy(self.stderr@)).len(),
            forall|i: int| 0 <= i < r@.len() ==> #[trigger] r@[i]@ == text_lines(utf8_lossy(self.stderr@))[i],
    {
        let text = decode_utf8_lossy(self.stderr.as_slice());
        owned_lines(text.as_str())
    }

    /// Whether the captured standard output holds `value`.
    pub fn contains_stdout(&self, value: &str) -> (r: bool)
        ensures
            r == text_holds(utf8_lossy(self.stdout@), value@),
    {
        let text = decode_utf8_lossy(self.stdout.as_slice());
        text_contains(text.as_str(), value)
    }

    /// Whether the captured standard error holds `value`.
    pub fn contains_stderr(&self, value: &str) -> (r: bool)
        ensures
            r == text_holds(utf8_lossy(self.stderr@), value@),
    {
        let text = decode_utf8_lossy(self.stderr.as_slice());
        text_contains(text.as_str(), value)
    }
}

} // verus!
