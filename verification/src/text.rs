//! Text comparison and similarity utilities.
use vstd::prelude::*;
use std::cmp::Ordering;
use vstd::string::StringSliceAdditionalSpecFns;

verus! {

broadcast use {vstd::utf8::group_utf8_lib, vstd::slice::group_slice_axioms};

/// The ASCII lowercase form of a byte; other bytes are unchanged.
pub open spec fn ascii_lower(b: u8) -> u8 {
    if 65 <= b <= 90 {
        (b + 32) as u8
    } else {
        b
    }
}

/// Byte sequences that are equal once ASCII letters are lowercased.
pub open spec fn ascii_eq_ignore_case(a: Seq<u8>, b: Seq<u8>) -> bool {
    a.len() == b.len() && forall|i: int| 0 <= i < a.len() ==> ascii_lower(a[i]) == ascii_lower(b[i])
}

/// The outcome of comparing two sequences.
#[derive(Clone, Copy, Debug, PartialEq, Eq, Structural)]
pub enum Precedence {
    Before,
    Same,
    After,
}

/// The lexicographic order of two byte sequences.
pub open spec fn lexicographic(a: Seq<u8>, b: Seq<u8>) -> Precedence
    decreases a.len(),
{
    if a.len() == 0 {
        if b.len() == 0 {
            Precedence::Same
        } else {
            Precedence::Before
        }
    } else if b.len() == 0 {
        Precedence::After
    } else if a[0] < b[0] {
        Precedence::Before
    } else if a[0] > b[0] {
        Precedence::After
    } else {
        lexicographic(a.drop_first(), b.drop_first())
    }
}

/// The standard-library ordering that a precedence stands for.
pub open spec fn as_ordering(p: Precedence) -> Ordering {
    match p {
        Precedence::Before => Ordering::Less,
        Precedence::Same => Ordering::Equal,
        Precedence::After => Ordering::Greater,
    }
}

/// The bytes with every ASCII letter lowercased.
pub open spec fn ascii_lowercase_bytes(a: Seq<u8>) -> Seq<u8> {
    a.map_values(|b: u8| ascii_lower(b))
}

/// Lowercases one ASCII letter.
pub fn to_ascii_lower(b: u8) -> (r: u8)
    ensures
        r == ascii_lower(b),
{
    if 65 <= b && b <= 90 {
        b + 32
    } else {
        b
    }
}

/// Controls whether comparisons distinguish ASCII letter case.
#[derive(Clone, Copy, Debug, Default, PartialEq, Eq, Structural)]
pub enum CaseSensitivity {
    #[default]
    Sensitive,
    Insensitive,
}

/// Whether two byte sequences are equal under `sensitivity`.
pub open spec fn bytes_match(sensitivity: CaseSensitivity, a: Seq<u8>, b: Seq<u8>) -> bool {
    match sensitivity {
        CaseSensitivity::Sensitive => a == b,
        CaseSensitivity::Insensitive => ascii_eq_ignore_case(a, b),
    }
}

/// Whether `b` occurs at byte offset `i` of `a`, on character boundaries.
pub open spec fn occurs_at(sensitivity: CaseSensitivity, a: Seq<u8>, b: Seq<u8>, i: int) -> bool {
    &&& 0 <= i
    &&& i + b.len() <= a.len()
    &&& vstd::utf8::is_char_boundary(a, i)
    &&& vstd::utf8::is_char_boundary(a, i + b.len())
    &&& bytes_match(sensitivity, a.subrange(i, i + b.len()), b)
}

fn bytes_equal(a: &[u8], b: &[u8]) -> (r: bool)
    ensures
        r == (a@ == b@),
{
    if a.len() != b.len() {
        return false;
    }
    let mut i: usize = 0;
    while i < a.len()
        invariant
            a@.len() == b@.len(),
            i <= a@.len(),
            forall|j: int| 0 <= j < i ==> a@[j] == b@[j],
        decreases a@.len() - i,
    {
        if a[i] != b[i] {
            return false;
        }
        i = i + 1;
    }
    assert(a@ =~= b@);
    true
}

/// Whether `a[a_start..a_start + len]` and `b[b_start..b_start + len]` are
/// equal once ASCII letters are lowercased.
fn bytes_eq_ignore_case(a: &[u8], a_start: usize, b: &[u8], b_start: usize, len: usize) -> (r: bool)
    requires
        a_start + len <= a@.len(),
        b_start + len <= b@.len(),
    ensures
        r == ascii_eq_ignore_case(
            a@.subrange(a_start as int, a_start + len),
            b@.subrange(b_start as int, b_start + len),
        ),
{
    let ghost sa = a@.subrange(a_start as int, a_start + len);
    let ghost sb = b@.subrange(b_start as int, b_start + len);
    let a_len = a.len();
    let b_len = b.len();
    let mut i: usize = 0;
    while i < len
        invariant
            a_len == a@.len(),
            b_len == b@.len(),
            a_start + len <= a@.len(),
            b_start + len <= b@.len(),
            sa == a@.subrange(a_start as int, a_start + len),
            sb == b@.subrange(b_start as int, b_start + len),
            i <= len,
            forall|j: int| 0 <= j < i ==> ascii_lower(#[trigger] sa[j]) == ascii_lower(sb[j]),
        decreases len - i,
    {
        assert(sa[i as int] == a@[a_start + i]);
        assert(sb[i as int] == b@[b_start + i]);
        if to_ascii_lower(a[a_start + i]) != to_ascii_lower(b[b_start + i]) {
            return false;
        }
        i = i + 1;
    }
    true
}

/// Whether `a[a_start..a_start + len]` and `b[b_start..b_start + len]` match
/// under `sensitivity`.
pub(crate) fn bytes_match_at(
    sensitivity: CaseSensitivity,
    a: &[u8],
    a_start: usize,
    b: &[u8],
    b_start: usize,
    len: usize,
) -> (r: bool)
    requires
        a_start + len <= a@.len(),
        b_start + len <= b@.len(),
    ensures
        r == bytes_match(
            sensitivity,
            a@.subrange(a_start as int, a_start + len),
            b@.subrange(b_start as int, b_start + len),
        ),
{
    match sensitivity {
        CaseSensitivity::Sensitive => {
            let ghost sa = a@.subrange(a_start as int, a_start + len);
            let ghost sb = b@.subrange(b_start as int, b_start + len);
            let a_len = a.len();
            let b_len = b.len();
            let mut i: usize = 0;
            while i < len
                invariant
                    sensitivity == CaseSensitivity::Sensitive,
                    a_len == a@.len(),
                    b_len == b@.len(),
                    a_start + len <= a@.len(),
                    b_start + len <= b@.len(),
                    sa == a@.subrange(a_start as int, a_start + len),
                    sb == b@.subrange(b_start as int, b_start + len),
                    i <= len,
                    forall|j: int| 0 <= j < i ==> #[trigger] sa[j] == sb[j],
                decreases len - i,
            {
                assert(sa[i as int] == a@[a_start + i]);
                assert(sb[i as int] == b@[b_start + i]);
                if a[a_start + i] != b[b_start + i] {
                    assert(sa[i as int] != sb[i as int]);
                    return false;
                }
                i = i + 1;
            }
            assert(sa =~= sb);
            true
        },
        CaseSensitivity::Insensitive => bytes_eq_ignore_case(a, a_start, b, b_start, len),
    }
}

/// The bytes, lowercased when `insensitive`.
pub open spec fn folded(a: Seq<u8>, insensitive: bool) -> Seq<u8> {
    if insensitive {
        ascii_lowercase_bytes(a)
    } else {
        a
    }
}

/// Compares two byte sequences lexicographically, optionally after
/// lowercasing ASCII letters.
fn compare_bytes(a: &[u8], b: &[u8], insensitive: bool) -> (r: Precedence)
    ensures
        r == lexicographic(folded(a@, insensitive), folded(b@, insensitive)),
{
    let ghost sa = folded(a@, insensitive);
    let ghost sb = folded(b@, insensitive);
    let mut i: usize = 0;
    assert(sa.skip(0) =~= sa);
    assert(sb.skip(0) =~= sb);
    while i < a.len() && i < b.len()
        invariant
            i <= a@.len(),
            i <= b@.len(),
            sa == folded(a@, insensitive),
            sb == folded(b@, insensitive),
            lexicographic(sa, sb) == lexicographic(sa.skip(i as int), sb.skip(i as int)),
        decreases a@.len() - i,
    {
        let x = if insensitive { to_ascii_lower(a[i]) } else { a[i] };
        let y = if insensitive { to_ascii_lower(b[i]) } else { b[i] };
        proof {
            assert(sa.skip(i as int)[0] == x);
            assert(sb.skip(i as int)[0] == y);
        }
        if x < y {
            return Precedence::Before;
        }
        if x > y {
            return Precedence::After;
        }
        proof {
            assert(sa.skip(i as int).drop_first() =~= sa.skip(i as int + 1));
            assert(sb.skip(i as int).drop_first() =~= sb.skip(i as int + 1));
        }
        i = i + 1;
    }
    if i < b.len() {
        Precedence::Before
    } else if i < a.len() {
        Precedence::After
    } else {
        Precedence::Same
    }
}

/// True when `a` is a proper prefix of `b`.
pub open spec fn is_proper_prefix(a: Seq<u8>, b: Seq<u8>) -> bool {
    a.len() < b.len() && b.take(a.len() as int) == a
}

/// True when `a` and `b` first differ at a position where `a` holds the
/// smaller byte.
pub open spec fn first_difference_below(a: Seq<u8>, b: Seq<u8>) -> bool {
    exists|i: int| 0 <= i < a.len() && i < b.len() && a.take(i) == b.take(i) && a[i] < b[i]
}

proof fn lemma_lexicographic_cases(a: Seq<u8>, b: Seq<u8>)
    ensures
        (lexicographic(a, b) == Precedence::Before) <==> (is_proper_prefix(a, b) || first_difference_below(a, b)),
        (lexicographic(a, b) == Precedence::After) <==> (is_proper_prefix(b, a) || first_difference_below(b, a)),
    decreases a.len(),
{
    if a.len() == 0 {
        if b.len() > 0 {
            assert(b.take(0) =~= a);
        }
        assert(!first_difference_below(a, b));
        assert(!first_difference_below(b, a));
    } else if b.len() == 0 {
        assert(a.take(0) =~= b);
        assert(!first_difference_below(a, b));
        assert(!first_difference_below(b, a));
    } else if a[0] != b[0] {
        assert(a.take(0) =~= b.take(0));
        if is_proper_prefix(a, b) {
            assert(b.take(a.len() as int)[0] == a[0]);
        }
        if is_proper_prefix(b, a) {
            assert(a.take(b.len() as int)[0] == b[0]);
        }
        assert forall|i: int| 0 < i < a.len() && i < b.len() implies a.take(i) != b.take(i) by {
            assert(a.take(i)[0] == a[0]);
            assert(b.take(i)[0] == b[0]);
        }
        if a[0] < b[0] {
            assert(first_difference_below(a, b));
        } else {
            assert(first_difference_below(b, a));
        }
    } else {
        let a1 = a.drop_first();
        let b1 = b.drop_first();
        lemma_lexicographic_cases(a1, b1);
        lemma_prefix_step(a, b);
        lemma_prefix_step(b, a);
        lemma_difference_step(a, b);
        lemma_difference_step(b, a);
    }
}

proof fn lemma_prefix_step(a: Seq<u8>, b: Seq<u8>)
    requires
        a.len() > 0,
        b.len() > 0,
        a[0] == b[0],
    ensures
        is_proper_prefix(a, b) <==> is_proper_prefix(a.drop_first(), b.drop_first()),
{
    let a1 = a.drop_first();
    let b1 = b.drop_first();
    if is_proper_prefix(a, b) {
        assert(b1.take(a1.len() as int) =~= a1) by {
            assert forall|k: int| 0 <= k < a1.len() implies #[trigger] b1.take(a1.len() as int)[k] == a1[k] by {
                assert(b.take(a.len() as int)[k + 1] == a[k + 1]);
            }
        }
    }
    if is_proper_prefix(a1, b1) {
        assert(b.take(a.len() as int) =~= a) by {
            assert forall|k: int| 0 < k < a.len() implies #[trigger] b.take(a.len() as int)[k] == a[k] by {
                assert(b1.take(a1.len() as int)[k - 1] == a1[k - 1]);
            }
        }
    }
}

proof fn lemma_difference_step(a: Seq<u8>, b: Seq<u8>)
    requires
        a.len() > 0,
        b.len() > 0,
        a[0] == b[0],
    ensures
        first_difference_below(a, b) <==> first_difference_below(a.drop_first(), b.drop_first()),
{
    let a1 = a.drop_first();
    let b1 = b.drop_first();
    if first_difference_below(a, b) {
        let i = choose|i: int| 0 <= i < a.len() && i < b.len() && a.take(i) == b.take(i) && a[i] < b[i];
        assert(i > 0);
        assert(a1.take(i - 1) =~= b1.take(i - 1)) by {
            assert forall|k: int| 0 <= k < i - 1 implies #[trigger] a1.take(i - 1)[k] == b1.take(i - 1)[k] by {
                assert(a.take(i)[k + 1] == b.take(i)[k + 1]);
            }
        }
        assert(a1[i - 1] < b1[i - 1]);
    }
    if first_difference_below(a1, b1) {
        let j = choose|j: int| 0 <= j < a1.len() && j < b1.len() && a1.take(j) == b1.take(j) && a1[j] < b1[j];
        assert(a.take(j + 1) =~= b.take(j + 1)) by {
            assert forall|k: int| 0 <= k < j + 1 implies #[trigger] a.take(j + 1)[k] == b.take(j + 1)[k] by {
                if k > 0 {
                    assert(a1.take(j)[k - 1] == b1.take(j)[k - 1]);
                }
            }
        }
        assert(a[j + 1] < b[j + 1]);
    }
}

/// The order that comparison gives is the standard lexicographic order of
/// the bytes: a proper prefix comes before the longer text, two texts that
/// differ come in the order of the first byte at which they differ, and
/// only equal texts compare `Equal`.
pub proof fn lemma_compare_is_standard_lexicographic_order(a: Seq<u8>, b: Seq<u8>)
    ensures
        (as_ordering(lexicographic(a, b)) == Ordering::Less) <==> (is_proper_prefix(a, b) || first_difference_below(a, b)),
        (as_ordering(lexicographic(a, b)) == Ordering::Greater) <==> (is_proper_prefix(b, a) || first_difference_below(b, a)),
        (as_ordering(lexicographic(a, b)) == Ordering::Equal) <==> (a == b),
        forall|c: Seq<u8>| c.len() > 0 ==> #[trigger] as_ordering(lexicographic(a, a + c)) == Ordering::Less,
{
    lemma_lexicographic_cases(a, b);
    lemma_lexicographic_same_iff_equal(a, b);
    assert forall|c: Seq<u8>| c.len() > 0 implies #[trigger] as_ordering(lexicographic(a, a + c)) == Ordering::Less by {
        lemma_lexicographic_cases(a, a + c);
        lemma_extension_has_proper_prefix(a, c);
    }
}

proof fn lemma_extension_has_proper_prefix(a: Seq<u8>, c: Seq<u8>)
    requires
        c.len() > 0,
    ensures
        is_proper_prefix(a, a + c),
{
    assert((a + c).take(a.len() as int) =~= a);
}

/// Two byte sequences are the same in lexicographic order exactly when they
/// are equal.
pub proof fn lemma_lexicographic_same_iff_equal(a: Seq<u8>, b: Seq<u8>)
    ensures
        (lexicographic(a, b) == Precedence::Same) <==> (a == b),
    decreases a.len(),
{
    if a.len() == 0 && b.len() == 0 {
        assert(a =~= b);
    }
    if a.len() > 0 && b.len() > 0 && a[0] == b[0] {
        lemma_lexicographic_same_iff_equal(a.drop_first(), b.drop_first());
        if a.drop_first() == b.drop_first() {
            assert(a =~= seq![a[0]] + a.drop_first());
            assert(b =~= seq![b[0]] + b.drop_first());
        }
    }
    if a == b && a.len() > 0 {
        assert(a.drop_first() == b.drop_first());
    }
}

/// Equality and ordering agree: two texts are equal under a case
/// sensitivity exactly when comparing them under it gives `Equal`.
pub proof fn lemma_equals_iff_compare_equal(sensitivity: CaseSensitivity, a: Seq<u8>, b: Seq<u8>)
    ensures
        bytes_match(sensitivity, a, b) <==> as_ordering(match sensitivity {
            CaseSensitivity::Sensitive => lexicographic(a, b),
            CaseSensitivity::Insensitive => lexicographic(ascii_lowercase_bytes(a), ascii_lowercase_bytes(b)),
        }) == Ordering::Equal,
{
    match sensitivity {
        CaseSensitivity::Sensitive => {
            lemma_lexicographic_same_iff_equal(a, b);
        },
        CaseSensitivity::Insensitive => {
            let la = ascii_lowercase_bytes(a);
            let lb = ascii_lowercase_bytes(b);
            lemma_lexicographic_same_iff_equal(la, lb);
            if ascii_eq_ignore_case(a, b) {
                assert(la =~= lb);
            }
            if la == lb {
                assert forall|i: int| 0 <= i < a.len() implies ascii_lower(a[i]) == ascii_lower(b[i]) by {
                    assert(la[i] == lb[i]);
                }
            }
        },
    }
}

/// A reusable string comparator.
#[derive(Clone, Copy, Debug, Default, PartialEq, Eq, Structural)]
pub struct Comparator {
    pub case_sensitivity: CaseSensitivity,
}

impl Comparator {
    pub fn case_sensitive() -> (c: Self)
        ensures
            c.case_sensitivity == CaseSensitivity::Sensitive,
    {
        Comparator { case_sensitivity: CaseSensitivity::Sensitive }
    }

    pub fn case_insensitive() -> (c: Self)
        ensures
            c.case_sensitivity == CaseSensitivity::Insensitive,
    {
        Comparator { case_sensitivity: CaseSensitivity::Insensitive }
    }

    /// A value is blank when it has no characters.
    pub fn is_blank(self, value: &str) -> (r: bool)
        ensures
            r == (value@.len() == 0),
    {
        value.is_empty()
    }

    /// Equality of the two strings; the case-insensitive form ignores the
    /// case of ASCII letters only.
    pub fn equals(self, left: &str, right: &str) -> (r: bool)
        ensures
            r == bytes_match(self.case_sensitivity, left.spec_bytes(), right.spec_bytes()),
            self.case_sensitivity == CaseSensitivity::Sensitive ==> (r == (left@ == right@)),
    {
        let a = left.as_bytes();
        let b = right.as_bytes();
        if a.len() != b.len() {
            proof {
                if left@ == right@ {
                    assert(left.spec_bytes() == right.spec_bytes());
                }
            }
            return false;
        }
        let r = bytes_match_at(self.case_sensitivity, a, 0, b, 0, a.len());
        proof {
            assert(a@.subrange(0, a@.len() as int) =~= a@);
            assert(b@.subrange(0, b@.len() as int) =~= b@);
            if a@ == b@ {
                assert(vstd::utf8::decode_utf8(vstd::utf8::encode_utf8(left@)) == left@);
                assert(vstd::utf8::decode_utf8(vstd::utf8::encode_utf8(right@)) == right@);
            }
        }
        r
    }

    /// The order of the two strings: byte-lexicographic, after lowercasing
    /// ASCII letters when case is ignored.
    pub fn compare(self, left: &str, right: &str) -> (r: Ordering)
        ensures
            r == as_ordering(match self.case_sensitivity {
                CaseSensitivity::Sensitive => lexicographic(left.spec_bytes(), right.spec_bytes()),
                CaseSensitivity::Insensitive => lexicographic(
                    ascii_lowercase_bytes(left.spec_bytes()),
                    ascii_lowercase_bytes(right.spec_bytes()),
                ),
            }),
    {
        let insensitive = match self.case_sensitivity {
            CaseSensitivity::Sensitive => false,
            CaseSensitivity::Insensitive => true,
        };
        match compare_bytes(left.as_bytes(), right.as_bytes(), insensitive) {
            Precedence::Before => Ordering::Less,
            Precedence::Same => Ordering::Equal,
            Precedence::After => Ordering::Greater,
        }
    }

    /// Whether `value` begins with `prefix`, on a character boundary.
    pub fn has_prefix(self, value: &str, prefix: &str) -> (r: bool)
        ensures
            r == occurs_at(self.case_sensitivity, value.spec_bytes(), prefix.spec_bytes(), 0),
    {
        let a = value.as_bytes();
        let b = prefix.as_bytes();
        if b.len() > a.len() || !value.is_char_boundary(b.len()) {
            return false;
        }
        assert(b@.subrange(0, b@.len() as int) =~= b@);
        bytes_match_at(self.case_sensitivity, a, 0, b, 0, b.len())
    }

    /// Whether `value` ends with `suffix`, on a character boundary.
    pub fn has_suffix(self, value: &str, suffix: &str) -> (r: bool)
        ensures
            r == (suffix.spec_bytes().len() <= value.spec_bytes().len() && occurs_at(
                self.case_sensitivity,
                value.spec_bytes(),
                suffix.spec_bytes(),
                value.spec_bytes().len() - suffix.spec_bytes().len(),
            )),
    {
        let a = value.as_bytes();
        let b = suffix.as_bytes();
        if b.len() > a.len() {
            return false;
        }
        let start = a.len() - b.len();
        if !value.is_char_boundary(start) {
            return false;
        }
        assert(b@.subrange(0, b@.len() as int) =~= b@);
        bytes_match_at(self.case_sensitivity, a, start, b, 0, b.len())
    }

    /// The byte offset of the first occurrence of `needle` in `value` that
    /// starts and ends on character boundaries; an empty needle is found at 0.
    pub fn find(self, value: &str, needle: &str) -> (r: Option<usize>)
        ensures
            needle@.len() == 0 ==> r == Some(0usize),
            needle@.len() > 0 ==> match r {
                Some(i) => occurs_at(self.case_sensitivity, value.spec_bytes(), needle.spec_bytes(), i as int)
                    && forall|j: int| 0 <= j < i ==> !occurs_at(self.case_sensitivity, value.spec_bytes(), needle.spec_bytes(), j),
                None => forall|j: int| 0 <= j ==> !occurs_at(self.case_sensitivity, value.spec_bytes(), needle.spec_bytes(), j),
            },
    {
        if needle.is_empty() {
            return Some(0);
        }
        let a = value.as_bytes();
        let b = needle.as_bytes();
        assert(needle@.len() > 0);
        if b.len() > a.len() {
            return None;
        }
        let a_len = a.len();
        let last = a_len - b.len();
        let mut i: usize = 0;
        while i <= last
            invariant
                a_len == a@.len(),
                a@ == value.spec_bytes(),
                b@ == needle.spec_bytes(),
                needle@.len() > 0,
                last + b@.len() == a@.len(),
                i <= last + 1,
                forall|j: int| 0 <= j < i ==> !occurs_at(self.case_sensitivity, a@, b@, j),
            decreases last + 1 - i,
        {
            if value.is_char_boundary(i) && value.is_char_boundary(i + b.len()) {
                assert(b@.subrange(0, b@.len() as int) =~= b@);
                if bytes_match_at(self.case_sensitivity, a, i, b, 0, b.len()) {
                    return Some(i);
                }
            }
            i = i + 1;
        }
        None
    }
}

/// The least of three integers.
pub open spec fn min3(a: int, b: int, c: int) -> int {
    let m = if a <= b { a } else { b };
    if m <= c {
        m
    } else {
        c
    }
}

/// The cheapest way to edit the first `i` characters of `source` into the
/// first `j` characters of `target`, where inserting, deleting and replacing
/// one character cost `ins`, `del` and `rep`.
pub open spec fn edit_cost(source: Seq<char>, target: Seq<char>, ins: int, del: int, rep: int, i: int, j: int) -> int
    decreases i + j,
{
    if i <= 0 {
        j * ins
    } else if j <= 0 {
        i * del
    } else {
        min3(
            edit_cost(source, target, ins, del, rep, i, j - 1) + ins,
            edit_cost(source, target, ins, del, rep, i - 1, j) + del,
            edit_cost(source, target, ins, del, rep, i - 1, j - 1) + if source[i - 1] == target[j - 1] { 0 } else { rep },
        )
    }
}

/// The edit distance between two character sequences under the given costs.
pub open spec fn edit_distance(source: Seq<char>, target: Seq<char>, ins: int, del: int, rep: int) -> int {
    edit_cost(source, target, ins, del, rep, source.len() as int, target.len() as int)
}

/// Every sum that the row-by-row computation of the edit distance forms fits
/// in a `usize`.
pub open spec fn edit_sums_fit(source: Seq<char>, target: Seq<char>, ins: int, del: int, rep: int) -> bool {
    &&& target.len() * ins <= usize::MAX
    &&& source.len() * del <= usize::MAX
    &&& forall|i: int, j: int|
        0 <= i < source.len() && 0 <= j < target.len() ==> {
            &&& #[trigger] edit_cost(source, target, ins, del, rep, i + 1, j) + ins <= usize::MAX
            &&& edit_cost(source, target, ins, del, rep, i, j + 1) + del <= usize::MAX
            &&& edit_cost(source, target, ins, del, rep, i, j) + rep <= usize::MAX
        }
}

proof fn lemma_mul_mono(a: int, b: int, c: int)
    by (nonlinear_arith)
    requires
        0 <= a <= b,
        0 <= c,
    ensures
        a * c <= b * c,
{
}

/// Calculates a generalized Levenshtein distance over Unicode scalar values.
pub fn levenshtein_with_costs(
    source: &str,
    target: &str,
    insert_cost: usize,
    delete_cost: usize,
    replace_cost: usize,
) -> (d: usize)
    requires
        target@.len() < usize::MAX,
        edit_sums_fit(source@, target@, insert_cost as int, delete_cost as int, replace_cost as int),
    ensures
        d == edit_distance(source@, target@, insert_cost as int, delete_cost as int, replace_cost as int),
{
    let s = crate::chars::chars_of(source);
    let t = crate::chars::chars_of(target);
    let ghost ins = insert_cost as int;
    let ghost del = delete_cost as int;
    let ghost rep = replace_cost as int;
    let n = t.len();
    let mut previous: Vec<usize> = Vec::new();
    let mut k: usize = 0;
    while k <= n
        invariant
            n == t@.len(),
            n < usize::MAX,
            t@ == target@,
            s@ == source@,
            k <= n + 1,
            previous@.len() == k,
            ins == insert_cost,
            n * insert_cost <= usize::MAX,
            forall|j: int| 0 <= j < k ==> previous@[j] == edit_cost(s@, t@, ins, del, rep, 0, j),
        decreases n + 1 - k,
    {
        proof {
            lemma_mul_mono(k as int, n as int, ins);
        }
        previous.push(k * insert_cost);
        k = k + 1;
    }
    let mut current: Vec<usize> = Vec::new();
    let mut k: usize = 0;
    while k <= n
        invariant
            n < usize::MAX,
            k <= n + 1,
            current@.len() == k,
        decreases n + 1 - k,
    {
        current.push(0);
        k = k + 1;
    }
    let mut i: usize = 0;
    while i < s.len()
        invariant
            n == t@.len(),
            n < usize::MAX,
            t@ == target@,
            s@ == source@,
            i <= s@.len(),
            previous@.len() == n + 1,
            current@.len() == n + 1,
            edit_sums_fit(s@, t@, ins, del, rep),
            ins == insert_cost,
            del == delete_cost,
            rep == replace_cost,
            forall|j: int| 0 <= j <= n ==> previous@[j] == edit_cost(s@, t@, ins, del, rep, i as int, j),
        decreases s@.len() - i,
    {
        proof {
            lemma_mul_mono(i as int + 1, s@.len() as int, del);
        }
        current.set(0, (i + 1) * delete_cost);
        let mut j: usize = 0;
        while j < n
            invariant
                n == t@.len(),
                n < usize::MAX,
                i < s@.len(),
                previous@.len() == n + 1,
                current@.len() == n + 1,
                j <= n,
                edit_sums_fit(s@, t@, ins, del, rep),
                ins == insert_cost,
                del == delete_cost,
                rep == replace_cost,
                forall|q: int| 0 <= q <= n ==> previous@[q] == edit_cost(s@, t@, ins, del, rep, i as int, q),
                forall|q: int| 0 <= q <= j ==> current@[q] == edit_cost(s@, t@, ins, del, rep, i as int + 1, q),
            decreases n - j,
        {
            let ghost gi = i as int;
            let ghost gj = j as int;
            assert(edit_cost(s@, t@, ins, del, rep, gi + 1, gj) + ins <= usize::MAX);
            let replacement: usize = if s[i] != t[j] { replace_cost } else { 0 };
            let a = current[j] + insert_cost;
            let b = previous[j + 1] + delete_cost;
            let c = previous[j] + replacement;
            let m1 = if a <= b { a } else { b };
            let m = if m1 <= c { m1 } else { c };
            current.set(j + 1, m);
            proof {
                assert(edit_cost(s@, t@, ins, del, rep, gi + 1, gj + 1) == min3(
                    edit_cost(s@, t@, ins, del, rep, gi + 1, gj) + ins,
                    edit_cost(s@, t@, ins, del, rep, gi, gj + 1) + del,
                    edit_cost(s@, t@, ins, del, rep, gi, gj) + if s@[gi] == t@[gj] { 0 } else { rep },
                ));
            }
            j = j + 1;
        }
        std::mem::swap(&mut previous, &mut current);
        i = i + 1;
    }
    previous[n]
}

/// With unit costs, editing `i` characters into `j` characters costs at
/// most the longer of the two lengths and never less than nothing.
pub proof fn lemma_unit_edit_cost_bounds(source: Seq<char>, target: Seq<char>, i: int, j: int)
    requires
        0 <= i,
        0 <= j,
    ensures
        0 <= edit_cost(source, target, 1, 1, 1, i, j),
        edit_cost(source, target, 1, 1, 1, i, j) <= if i <= j { j } else { i },
    decreases i + j,
{
    if i > 0 && j > 0 {
        lemma_unit_edit_cost_bounds(source, target, i, j - 1);
        lemma_unit_edit_cost_bounds(source, target, i - 1, j);
        lemma_unit_edit_cost_bounds(source, target, i - 1, j - 1);
    }
}

/// The Levenshtein distance with unit costs.
pub fn levenshtein(source: &str, target: &str) -> (d: usize)
    requires
        source@.len() + target@.len() < usize::MAX,
    ensures
        d == edit_distance(source@, target@, 1, 1, 1),
{
    proof {
        assert forall|i: int, j: int| 0 <= i < source@.len() && 0 <= j < target@.len() implies {
            &&& #[trigger] edit_cost(source@, target@, 1, 1, 1, i + 1, j) + 1 <= usize::MAX
            &&& edit_cost(source@, target@, 1, 1, 1, i, j + 1) + 1 <= usize::MAX
            &&& edit_cost(source@, target@, 1, 1, 1, i, j) + 1 <= usize::MAX
        } by {
            lemma_unit_edit_cost_bounds(source@, target@, i + 1, j);
            lemma_unit_edit_cost_bounds(source@, target@, i, j + 1);
            lemma_unit_edit_cost_bounds(source@, target@, i, j);
        }
    }
    levenshtein_with_costs(source, target, 1, 1, 1)
}

/// A text is at distance zero from itself.
pub proof fn lemma_levenshtein_identity(text: Seq<char>)
    ensures
        edit_distance(text, text, 1, 1, 1) == 0,
{
    lemma_edit_cost_diagonal(text, text.len() as int);
}

proof fn lemma_edit_cost_diagonal(text: Seq<char>, i: int)
    requires
        0 <= i <= text.len(),
    ensures
        edit_cost(text, text, 1, 1, 1, i, i) == 0,
    decreases i,
{
    if i > 0 {
        lemma_edit_cost_diagonal(text, i - 1);
        lemma_unit_edit_cost_bounds(text, text, i, i - 1);
        lemma_unit_edit_cost_bounds(text, text, i - 1, i);
    }
}

/// One step of an edit script that reads the source and the target from
/// left to right.
pub enum EditStep {
    /// Inserts the next target character.
    Insert,
    /// Deletes the next source character.
    Delete,
    /// Pairs the next source character with the next target character:
    /// free when they are equal, a replacement otherwise.
    Pair,
}

/// The cost of a script that edits the first `i` characters of `source` into
/// the first `j` characters of `target`, or `None` when the script does not
/// do that.
pub open spec fn script_cost(
    source: Seq<char>,
    target: Seq<char>,
    ins: int,
    del: int,
    rep: int,
    steps: Seq<EditStep>,
    i: int,
    j: int,
) -> Option<int>
    decreases steps.len(),
{
    if steps.len() == 0 {
        if i == 0 && j == 0 {
            Some(0)
        } else {
            None
        }
    } else {
        let rest = steps.drop_last();
        match steps.last() {
            EditStep::Insert => if j > 0 {
                match script_cost(source, target, ins, del, rep, rest, i, j - 1) {
                    Some(c) => Some(c + ins),
                    None => None,
                }
            } else {
                None
            },
            EditStep::Delete => if i > 0 {
                match script_cost(source, target, ins, del, rep, rest, i - 1, j) {
                    Some(c) => Some(c + del),
                    None => None,
                }
            } else {
                None
            },
            EditStep::Pair => if i > 0 && j > 0 {
                match script_cost(source, target, ins, del, rep, rest, i - 1, j - 1) {
                    Some(c) => Some(c + if source[i - 1] == target[j - 1] { 0 } else { rep }),
                    None => None,
                }
            } else {
                None
            },
        }
    }
}

/// A script whose cost is `edit_cost(.., i, j)`: at each point it takes a
/// step that the cheapest way takes.
pub open spec fn cheapest_script(source: Seq<char>, target: Seq<char>, ins: int, del: int, rep: int, i: int, j: int) -> Seq<EditStep>
    decreases (if i > 0 { i } else { 0 }) + (if j > 0 { j } else { 0 }),
{
    if i <= 0 && j <= 0 {
        Seq::empty()
    } else if i <= 0 {
        cheapest_script(source, target, ins, del, rep, i, j - 1).push(EditStep::Insert)
    } else if j <= 0 {
        cheapest_script(source, target, ins, del, rep, i - 1, j).push(EditStep::Delete)
    } else {
        let by_insert = edit_cost(source, target, ins, del, rep, i, j - 1) + ins;
        let by_delete = edit_cost(source, target, ins, del, rep, i - 1, j) + del;
        let by_pair = edit_cost(source, target, ins, del, rep, i - 1, j - 1)
            + if source[i - 1] == target[j - 1] { 0 } else { rep };
        if by_insert == min3(by_insert, by_delete, by_pair) {
            cheapest_script(source, target, ins, del, rep, i, j - 1).push(EditStep::Insert)
        } else if by_delete == min3(by_insert, by_delete, by_pair) {
            cheapest_script(source, target, ins, del, rep, i - 1, j).push(EditStep::Delete)
        } else {
            cheapest_script(source, target, ins, del, rep, i - 1, j - 1).push(EditStep::Pair)
        }
    }
}

proof fn lemma_mul_step(k: int, c: int)
    by (nonlinear_arith)
    ensures
        k * c == (k - 1) * c + c,
        0 * c == 0,
{
}

/// Editing `i` source characters into no target characters costs `i`
/// deletions.
proof fn lemma_edit_cost_to_empty(source: Seq<char>, target: Seq<char>, ins: int, del: int, rep: int, i: int)
    requires
        i >= 0,
    ensures
        edit_cost(source, target, ins, del, rep, i, 0) == i * del,
{
    lemma_mul_step(i, del);
    lemma_mul_step(0, ins);
}

/// Every script costs at least `edit_cost`.
proof fn lemma_script_cost_lower_bound(
    source: Seq<char>,
    target: Seq<char>,
    ins: int,
    del: int,
    rep: int,
    steps: Seq<EditStep>,
    i: int,
    j: int,
)
    requires
        ins >= 0,
        del >= 0,
        rep >= 0,
        0 <= i <= source.len(),
        0 <= j <= target.len(),
    ensures
        script_cost(source, target, ins, del, rep, steps, i, j) matches Some(c)
            ==> edit_cost(source, target, ins, del, rep, i, j) <= c,
    decreases steps.len(),
{
    if steps.len() > 0 {
        let rest = steps.drop_last();
        let here = edit_cost(source, target, ins, del, rep, i, j);
        match steps.last() {
            EditStep::Insert => if j > 0 {
                lemma_script_cost_lower_bound(source, target, ins, del, rep, rest, i, j - 1);
                if i == 0 {
                    lemma_mul_step(j, ins);
                }
                assert(here <= edit_cost(source, target, ins, del, rep, i, j - 1) + ins);
            },
            EditStep::Delete => if i > 0 {
                lemma_script_cost_lower_bound(source, target, ins, del, rep, rest, i - 1, j);
                if j == 0 {
                    lemma_mul_step(i, del);
                    lemma_edit_cost_to_empty(source, target, ins, del, rep, i - 1);
                }
                assert(here <= edit_cost(source, target, ins, del, rep, i - 1, j) + del);
            },
            EditStep::Pair => if i > 0 && j > 0 {
                lemma_script_cost_lower_bound(source, target, ins, del, rep, rest, i - 1, j - 1);
                assert(here <= edit_cost(source, target, ins, del, rep, i - 1, j - 1)
                    + if source[i - 1] == target[j - 1] { 0 } else { rep });
            },
        }
    }
}

/// The cheapest script costs exactly `edit_cost`.
proof fn lemma_cheapest_script_cost(source: Seq<char>, target: Seq<char>, ins: int, del: int, rep: int, i: int, j: int)
    requires
        0 <= i <= source.len(),
        0 <= j <= target.len(),
    ensures
        script_cost(source, target, ins, del, rep, cheapest_script(source, target, ins, del, rep, i, j), i, j)
            == Some(edit_cost(source, target, ins, del, rep, i, j)),
    decreases i + j,
{
    let script = cheapest_script(source, target, ins, del, rep, i, j);
    if i == 0 && j == 0 {
    } else if i == 0 {
        lemma_cheapest_script_cost(source, target, ins, del, rep, i, j - 1);
        assert(script.drop_last() =~= cheapest_script(source, target, ins, del, rep, i, j - 1));
        lemma_mul_step(j, ins);
    } else if j == 0 {
        lemma_cheapest_script_cost(source, target, ins, del, rep, i - 1, j);
        assert(script.drop_last() =~= cheapest_script(source, target, ins, del, rep, i - 1, j));
        lemma_mul_step(i, del);
        lemma_edit_cost_to_empty(source, target, ins, del, rep, i - 1);
    } else {
        let by_insert = edit_cost(source, target, ins, del, rep, i, j - 1) + ins;
        let by_delete = edit_cost(source, target, ins, del, rep, i - 1, j) + del;
        let by_pair = edit_cost(source, target, ins, del, rep, i - 1, j - 1)
            + if source[i - 1] == target[j - 1] { 0 } else { rep };
        if by_insert == min3(by_insert, by_delete, by_pair) {
            lemma_cheapest_script_cost(source, target, ins, del, rep, i, j - 1);
            assert(script.drop_last() =~= cheapest_script(source, target, ins, del, rep, i, j - 1));
        } else if by_delete == min3(by_insert, by_delete, by_pair) {
            lemma_cheapest_script_cost(source, target, ins, del, rep, i - 1, j);
            assert(script.drop_last() =~= cheapest_script(source, target, ins, del, rep, i - 1, j));
        } else {
            lemma_cheapest_script_cost(source, target, ins, del, rep, i - 1, j - 1);
            assert(script.drop_last() =~= cheapest_script(source, target, ins, del, rep, i - 1, j - 1));
        }
    }
}

/// The edit distance is the cost of the cheapest edit script: no script that
/// edits `source` into `target` costs less, and one costs exactly that much.
pub proof fn lemma_edit_distance_is_cheapest_script(
    source: Seq<char>,
    target: Seq<char>,
    ins: int,
    del: int,
    rep: int,
)
    requires
        ins >= 0,
        del >= 0,
        rep >= 0,
    ensures
        forall|steps: Seq<EditStep>|
            #[trigger] script_cost(source, target, ins, del, rep, steps, source.len() as int, target.len() as int)
                matches Some(c) ==> edit_distance(source, target, ins, del, rep) <= c,
        script_cost(
            source,
            target,
            ins,
            del,
            rep,
            cheapest_script(source, target, ins, del, rep, source.len() as int, target.len() as int),
            source.len() as int,
            target.len() as int,
        ) == Some(edit_distance(source, target, ins, del, rep)),
{
    assert forall|steps: Seq<EditStep>|
        #[trigger] script_cost(source, target, ins, del, rep, steps, source.len() as int, target.len() as int)
            is Some implies edit_distance(source, target, ins, del, rep)
            <= script_cost(source, target, ins, del, rep, steps, source.len() as int, target.len() as int)->Some_0 by {
        lemma_script_cost_lower_bound(source, target, ins, del, rep, steps, source.len() as int, target.len() as int);
    }
    lemma_cheapest_script_cost(source, target, ins, del, rep, source.len() as int, target.len() as int);
}

/// The greatest of three integers.
pub open spec fn max3(a: int, b: int, c: int) -> int {
    let m = if a >= b { a } else { b };
    if m >= c {
        m
    } else {
        c
    }
}

proof fn lemma_edit_cost_upper(source: Seq<char>, target: Seq<char>, ins: int, del: int, rep: int, i: int, j: int)
    requires
        0 <= i,
        0 <= j,
        0 <= ins,
        0 <= del,
        0 <= rep,
    ensures
        edit_cost(source, target, ins, del, rep, i, j) <= (i + j) * max3(ins, del, rep),
    decreases i + j,
{
    let m = max3(ins, del, rep);
    if i <= 0 {
        lemma_mul_mono(ins, m, j);
        assert(j * ins == ins * j && (i + j) * m == m * j) by (nonlinear_arith)
            requires i == 0;
    } else if j <= 0 {
        lemma_mul_mono(del, m, i);
        assert(i * del == del * i && (i + j) * m == m * i) by (nonlinear_arith)
            requires j == 0;
    } else {
        lemma_edit_cost_upper(source, target, ins, del, rep, i, j - 1);
        assert((i + j - 1) * m + m == (i + j) * m) by (nonlinear_arith);
    }
}

/// Costs whose largest, taken once for every character of the two texts and
/// once more, fits in a `usize` keep every sum of the edit-distance
/// computation within a `usize`.
pub proof fn lemma_cost_bound_keeps_edit_sums_fit(
    source: Seq<char>,
    target: Seq<char>,
    ins: int,
    del: int,
    rep: int,
)
    requires
        0 <= ins,
        0 <= del,
        0 <= rep,
        (source.len() + target.len() + 1) * max3(ins, del, rep) <= usize::MAX,
    ensures
        edit_sums_fit(source, target, ins, del, rep),
{
    let m = max3(ins, del, rep);
    let n = source.len() as int;
    let k = target.len() as int;
    lemma_mul_mono(k, n + k + 1, m);
    lemma_mul_mono(n, n + k + 1, m);
    lemma_mul_mono(ins, m, k);
    lemma_mul_mono(del, m, n);
    assert(k * ins == ins * k && n * del == del * n) by (nonlinear_arith);
    assert(k * m == m * k && n * m == m * n) by (nonlinear_arith);
    assert forall|i: int, j: int| 0 <= i < n && 0 <= j < k implies {
        &&& #[trigger] edit_cost(source, target, ins, del, rep, i + 1, j) + ins <= usize::MAX
        &&& edit_cost(source, target, ins, del, rep, i, j + 1) + del <= usize::MAX
        &&& edit_cost(source, target, ins, del, rep, i, j) + rep <= usize::MAX
    } by {
        lemma_edit_cost_upper(source, target, ins, del, rep, i + 1, j);
        lemma_edit_cost_upper(source, target, ins, del, rep, i, j + 1);
        lemma_edit_cost_upper(source, target, ins, del, rep, i, j);
        lemma_mul_mono(i + j + 2, n + k + 1, m);
        lemma_mul_mono(i + j + 1, n + k + 1, m);
        assert((i + j + 1) * m + m == (i + j + 2) * m) by (nonlinear_arith);
        assert((i + j) * m + m == (i + j + 1) * m) by (nonlinear_arith);
    }
}

/// The unit-cost edit distance is symmetric.
pub proof fn lemma_levenshtein_symmetric(a: Seq<char>, b: Seq<char>)
    ensures
        edit_distance(a, b, 1, 1, 1) == edit_distance(b, a, 1, 1, 1),
{
    lemma_edit_cost_symmetric(a, b, a.len() as int, b.len() as int);
}

proof fn lemma_edit_cost_symmetric(a: Seq<char>, b: Seq<char>, i: int, j: int)
    requires
        0 <= i,
        0 <= j,
    ensures
        edit_cost(a, b, 1, 1, 1, i, j) == edit_cost(b, a, 1, 1, 1, j, i),
    decreases i + j,
{
    if i > 0 && j > 0 {
        lemma_edit_cost_symmetric(a, b, i, j - 1);
        lemma_edit_cost_symmetric(a, b, i - 1, j);
        lemma_edit_cost_symmetric(a, b, i - 1, j - 1);
    }
}

/// The ASCII lowercase form of a character; other characters are unchanged.
pub open spec fn ascii_lower_char(c: char) -> char {
    if 'A' <= c <= 'Z' {
        ((c as u32) + 32) as char
    } else {
        c
    }
}

/// The text as compared under `sensitivity`.
pub open spec fn normalized(text: Seq<char>, sensitivity: CaseSensitivity) -> Seq<char> {
    match sensitivity {
        CaseSensitivity::Sensitive => text,
        CaseSensitivity::Insensitive => text.map_values(|c: char| ascii_lower_char(c)),
    }
}

/// The edit distance of a candidate from the starting value.
pub open spec fn candidate_distance(start: Seq<char>, candidate: Seq<char>, sensitivity: CaseSensitivity) -> int {
    edit_distance(normalized(start, sensitivity), normalized(candidate, sensitivity), 1, 1, 1)
}

/// The edit distance of each candidate from the starting value.
pub open spec fn candidate_distances(start: Seq<char>, candidates: Seq<&str>, sensitivity: CaseSensitivity) -> Seq<int> {
    Seq::new(candidates.len(), |i: int| candidate_distance(start, candidates[i]@, sensitivity))
}

/// True when `order` lists every index of `keys` once, by increasing key
/// and, among equal keys, by increasing index: the order of a stable sort.
pub open spec fn is_stable_order(keys: Seq<int>, order: Seq<int>) -> bool {
    &&& order.len() == keys.len()
    &&& forall|k: int| 0 <= k < order.len() ==> 0 <= #[trigger] order[k] < keys.len()
    &&& forall|k: int, l: int| 0 <= k < l < order.len() ==> {
        ||| keys[order[k]] < keys[order[l]]
        ||| (keys[order[k]] == keys[order[l]] && order[k] < order[l])
    }
}

fn lowercase_ascii(text: &str) -> (r: String)
    ensures
        r@ == text@.map_values(|c: char| ascii_lower_char(c)),
{
    let chars = crate::chars::chars_of(text);
    let mut out = String::new();
    let mut i: usize = 0;
    while i < chars.len()
        invariant
            chars@ == text@,
            i <= chars@.len(),
            out@ == chars@.take(i as int).map_values(|c: char| ascii_lower_char(c)),
        decreases chars@.len() - i,
    {
        let c = chars[i];
        let lowered = if 'A' <= c && c <= 'Z' {
            crate::chars::char_from_u32((c as u32) + 32).unwrap()
        } else {
            c
        };
        crate::chars::push_char(&mut out, lowered);
        assert(chars@.take(i as int + 1).map_values(|c: char| ascii_lower_char(c))
            =~= chars@.take(i as int).map_values(|c: char| ascii_lower_char(c)).push(ascii_lower_char(c)));
        i = i + 1;
    }
    assert(chars@.take(i as int) =~= chars@);
    out
}

fn normalize(text: &str, sensitivity: CaseSensitivity) -> (r: String)
    ensures
        r@ == normalized(text@, sensitivity),
{
    match sensitivity {
        CaseSensitivity::Sensitive => text.to_owned(),
        CaseSensitivity::Insensitive => lowercase_ascii(text),
    }
}

/// Evaluates candidates by edit distance, lowest cost first; candidates at
/// the same distance keep their given order.
pub fn closest_candidates<'a>(
    starting_value: &str,
    candidates: &[&'a str],
    case_sensitivity: CaseSensitivity,
) -> (r: Vec<(&'a str, usize)>)
    requires
        forall|i: int| 0 <= i < candidates@.len() ==> starting_value@.len() + (#[trigger] candidates@[i])@.len() < usize::MAX,
    ensures
        r@.len() == candidates@.len(),
        exists|order: Seq<int>| {
            &&& #[trigger] is_stable_order(candidate_distances(starting_value@, candidates@, case_sensitivity), order)
            &&& forall|k: int| 0 <= k < r@.len() ==> r@[k].0 == candidates@[order[k]] && r@[k].1
                == candidate_distance(starting_value@, candidates@[order[k]]@, case_sensitivity)
        },
{
    let ghost keys = candidate_distances(starting_value@, candidates@, case_sensitivity);
    let start = normalize(starting_value, case_sensitivity);
    let mut scored: Vec<(&'a str, usize)> = Vec::new();
    let mut i: usize = 0;
    while i < candidates.len()
        invariant
            i <= candidates@.len(),
            start@ == normalized(starting_value@, case_sensitivity),
            forall|j: int| 0 <= j < candidates@.len() ==> starting_value@.len() + (#[trigger] candidates@[j])@.len() < usize::MAX,
            keys == candidate_distances(starting_value@, candidates@, case_sensitivity),
            scored@.len() == i,
            forall|j: int| 0 <= j < i ==> (#[trigger] scored@[j]).0 == candidates@[j] && scored@[j].1 == keys[j],
        decreases candidates@.len() - i,
    {
        let candidate = candidates[i];
        let normalized_candidate = normalize(candidate, case_sensitivity);
        assert(starting_value@.len() + candidates@[i as int]@.len() < usize::MAX);
        let distance = levenshtein(start.as_str(), normalized_candidate.as_str());
        scored.push((candidate, distance));
        i = i + 1;
    }
    let mut sorted: Vec<(&'a str, usize)> = Vec::new();
    let ghost mut order: Seq<int> = Seq::empty();
    let mut i: usize = 0;
    while i < scored.len()
        invariant
            i <= scored@.len(),
            scored@.len() == candidates@.len(),
            keys.len() == candidates@.len(),
            forall|j: int| 0 <= j < scored@.len() ==> (#[trigger] scored@[j]).0 == candidates@[j] && scored@[j].1 == keys[j],
            sorted@.len() == i,
            order.len() == i,
            forall|k: int| 0 <= k < i ==> 0 <= #[trigger] order[k] < i,
            forall|k: int| 0 <= k < i ==> #[trigger] sorted@[k] == scored@[order[k]],
            forall|k: int, l: int| 0 <= k < l < i ==> {
                ||| keys[order[k]] < keys[order[l]]
                ||| (keys[order[k]] == keys[order[l]] && order[k] < order[l])
            },
        decreases scored@.len() - i,
    {
        let item = scored[i];
        let mut p: usize = 0;
        while p < sorted.len() && sorted[p].1 <= item.1
            invariant
                p <= sorted@.len(),
                forall|k: int| 0 <= k < p ==> (#[trigger] sorted@[k]).1 <= item.1,
            decreases sorted@.len() - p,
        {
            p = p + 1;
        }
        let ghost old_order = order;
        let ghost old_sorted = sorted@;
        sorted.insert(p, item);
        proof {
            order = old_order.insert(p as int, i as int);
            assert forall|k: int| 0 <= k < i + 1 implies #[trigger] sorted@[k] == scored@[order[k]] by {
                if k < p {
                    assert(sorted@[k] == old_sorted[k]);
                } else if k > p {
                    assert(sorted@[k] == old_sorted[k - 1]);
                }
            }
            assert forall|k: int| 0 <= k < i + 1 implies 0 <= #[trigger] order[k] < i + 1 by {
                if k < p {
                    assert(order[k] == old_order[k]);
                } else if k > p {
                    assert(order[k] == old_order[k - 1]);
                }
            }
            assert forall|k: int, l: int| 0 <= k < l < i + 1 implies {
                ||| keys[order[k]] < keys[order[l]]
                ||| (keys[order[k]] == keys[order[l]] && order[k] < order[l])
            } by {
                if l < p {
                    assert(order[k] == old_order[k] && order[l] == old_order[l]);
                } else if l == p {
                    assert(order[k] == old_order[k]);
                    assert(old_sorted[k].1 <= item.1);
                    assert(old_sorted[k] == scored@[old_order[k]]);
                } else if k == p {
                    assert(order[l] == old_order[l - 1]);
                    assert(old_sorted[p as int].1 > item.1);
                    assert(old_sorted[p as int] == scored@[old_order[p as int]]);
                    assert(old_sorted[l - 1] == scored@[old_order[l - 1]]);
                    if l - 1 > p {
                        assert(keys[old_order[p as int]] <= keys[old_order[l - 1]]);
                    }
                } else if k < p {
                    assert(order[k] == old_order[k] && order[l] == old_order[l - 1]);
                } else {
                    assert(order[k] == old_order[k - 1] && order[l] == old_order[l - 1]);
                }
            }
        }
        i = i + 1;
    }
    proof {
        assert(is_stable_order(keys, order));
        assert forall|k: int| 0 <= k < sorted@.len() implies sorted@[k].0 == candidates@[order[k]] && sorted@[k].1
            == candidate_distance(starting_value@, candidates@[order[k]]@, case_sensitivity) by {
            assert(sorted@[k] == scored@[order[k]]);
        }
    }
    sorted
}

} // verus!
