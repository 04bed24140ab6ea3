//! String-oriented utilities.
use vstd::prelude::*;
use vstd::string::{StrSliceExecFns, StringSliceAdditionalSpecFns};
use crate::chars::chars_of;
use crate::text::{ascii_eq_ignore_case, bytes_match_at, CaseSensitivity};

verus! {

broadcast use {vstd::utf8::group_utf8_lib, vstd::slice::group_slice_axioms};

/// Controls which empty elements [`split_at_delimiters`] retains.
#[derive(Clone, Copy, Debug, PartialEq, Eq, Structural)]
pub struct SplitOptions {
    /// Retain an empty element before a delimiter at the start of the input.
    pub keep_leading_empty: bool,
    /// Retain an empty element after a delimiter at the end of the input.
    pub keep_trailing_empty: bool,
    /// Retain empty elements between consecutive delimiters.
    pub keep_consecutive_empty: bool,
}

/// The options that retain no empty element.
pub open spec fn drop_all_empty() -> SplitOptions {
    SplitOptions { keep_leading_empty: false, keep_trailing_empty: false, keep_consecutive_empty: false }
}

impl Default for SplitOptions {
    /// Retains no empty element.
    fn default() -> (options: Self)
        ensures
            options == drop_all_empty(),
    {
        SplitOptions { keep_leading_empty: false, keep_trailing_empty: false, keep_consecutive_empty: false }
    }
}

/// The position of the first delimiter at or after `i`, or `s.len()`.
pub open spec fn next_delimiter(s: Seq<char>, delimiters: Seq<char>, i: int) -> int
    decreases s.len() - i,
{
    if i >= s.len() {
        s.len() as int
    } else if delimiters.contains(s[i]) {
        i
    } else {
        next_delimiter(s, delimiters, i + 1)
    }
}

/// Where the next delimiter lies.
pub proof fn lemma_next_delimiter(s: Seq<char>, delimiters: Seq<char>, i: int)
    requires
        0 <= i <= s.len(),
    ensures
        i <= next_delimiter(s, delimiters, i) <= s.len(),
        forall|j: int| i <= j < next_delimiter(s, delimiters, i) ==> !delimiters.contains(s[j]),
        next_delimiter(s, delimiters, i) < s.len() ==> delimiters.contains(s[next_delimiter(s, delimiters, i)]),
    decreases s.len() - i,
{
    if i < s.len() && !delimiters.contains(s[i]) {
        lemma_next_delimiter(s, delimiters, i + 1);
    }
}

/// The pieces of `s` from position `start` on, cut at every delimiter.
pub open spec fn parts_from(s: Seq<char>, delimiters: Seq<char>, start: int) -> Seq<Seq<char>>
    decreases s.len() + 1 - start,
{
    if start < 0 || start > s.len() {
        Seq::empty()
    } else {
        let end = next_delimiter(s, delimiters, start);
        proof {
            lemma_next_delimiter(s, delimiters, start);
        }
        if end >= s.len() {
            seq![s.subrange(start, s.len() as int)]
        } else {
            seq![s.subrange(start, end)] + parts_from(s, delimiters, end + 1)
        }
    }
}

/// Whether the piece at `index` of `last + 1` pieces is retained.
pub open spec fn keeps_part(part: Seq<char>, index: int, last: int, options: SplitOptions) -> bool {
    part.len() > 0 || if index == 0 {
        options.keep_leading_empty
    } else if index == last {
        options.keep_trailing_empty
    } else {
        options.keep_consecutive_empty
    }
}

/// The pieces from `index` on that `options` retains.
pub open spec fn kept_from(parts: Seq<Seq<char>>, options: SplitOptions, index: int) -> Seq<Seq<char>>
    decreases parts.len() - index,
{
    if index < 0 || index >= parts.len() {
        Seq::empty()
    } else {
        (if keeps_part(parts[index], index, parts.len() - 1, options) {
            seq![parts[index]]
        } else {
            Seq::empty()
        }) + kept_from(parts, options, index + 1)
    }
}

/// The elements that splitting `s` at `delimiters` yields.
pub open spec fn split_elements(s: Seq<char>, delimiters: Seq<char>, options: SplitOptions) -> Seq<Seq<char>> {
    if s.len() == 0 {
        Seq::empty()
    } else if delimiters.len() == 0 {
        seq![s]
    } else {
        kept_from(parts_from(s, delimiters, 0), options, 0)
    }
}

/// Each piece paired with its position.
pub open spec fn numbered_parts(parts: Seq<Seq<char>>) -> Seq<(int, Seq<char>)> {
    Seq::new(parts.len(), |i: int| (i, parts[i]))
}

/// Whether a numbered piece of `last + 1` pieces is retained.
pub open spec fn keeps_numbered(last: int, options: SplitOptions) -> spec_fn((int, Seq<char>)) -> bool {
    |p: (int, Seq<char>)| keeps_part(p.1, p.0, last, options)
}

proof fn lemma_kept_from_filtered(parts: Seq<Seq<char>>, options: SplitOptions, k: int)
    requires
        0 <= k <= parts.len(),
    ensures
        kept_from(parts, options, k) == numbered_parts(parts).skip(k).filter(
            keeps_numbered(parts.len() - 1, options),
        ).map_values(|p: (int, Seq<char>)| p.1),
    decreases parts.len() - k,
{
    let f = keeps_numbered(parts.len() - 1, options);
    let n = numbered_parts(parts);
    if k == parts.len() {
        assert(n.skip(k) =~= Seq::<(int, Seq<char>)>::empty());
        reveal(Seq::filter);
        assert(n.skip(k).filter(f) =~= Seq::<(int, Seq<char>)>::empty());
        assert(n.skip(k).filter(f).map_values(|p: (int, Seq<char>)| p.1) =~= Seq::<Seq<char>>::empty());
    } else {
        lemma_kept_from_filtered(parts, options, k + 1);
        let head = seq![n[k]];
        assert(n.skip(k) =~= head + n.skip(k + 1));
        Seq::filter_distributes_over_add(head, n.skip(k + 1), f);
        reveal(Seq::filter);
        assert(head.drop_last() =~= Seq::<(int, Seq<char>)>::empty());
        assert(head.drop_last().filter(f) == head.drop_last());
        assert(head.last() == n[k]);
        let kept_head = head.filter(f);
        if f(n[k]) {
            assert(kept_head =~= seq![n[k]]);
        } else {
            assert(kept_head =~= Seq::<(int, Seq<char>)>::empty());
        }
        let rest = n.skip(k + 1).filter(f);
        assert((kept_head + rest).map_values(|p: (int, Seq<char>)| p.1) =~= kept_head.map_values(
            |p: (int, Seq<char>)| p.1,
        ) + rest.map_values(|p: (int, Seq<char>)| p.1));
        if f(n[k]) {
            assert(kept_head.map_values(|p: (int, Seq<char>)| p.1) =~= seq![parts[k]]);
        } else {
            assert(kept_head.map_values(|p: (int, Seq<char>)| p.1) =~= Seq::<Seq<char>>::empty());
        }
    }
}

/// Splitting a non-empty text at a non-empty set of delimiters yields the
/// pieces between delimiters, in order, that the options retain: a non-empty
/// piece always, an empty first piece when leading empties are kept, an empty
/// last piece (after at least one delimiter) when trailing empties are kept,
/// and an empty piece in between when consecutive empties are kept.
pub proof fn lemma_split_keeps_retained_pieces(s: Seq<char>, delimiters: Seq<char>, options: SplitOptions)
    requires
        s.len() > 0,
        delimiters.len() > 0,
    ensures
        split_elements(s, delimiters, options) == numbered_parts(parts_from(s, delimiters, 0)).filter(
            keeps_numbered(parts_from(s, delimiters, 0).len() - 1, options),
        ).map_values(|p: (int, Seq<char>)| p.1),
{
    let parts = parts_from(s, delimiters, 0);
    lemma_kept_from_filtered(parts, options, 0);
    assert(numbered_parts(parts).skip(0) =~= numbered_parts(parts));
}

fn contains_char(set: &[char], c: char) -> (r: bool)
    ensures
        r == set@.contains(c),
{
    let mut i: usize = 0;
    while i < set.len()
        invariant
            i <= set@.len(),
            forall|j: int| 0 <= j < i ==> set@[j] != c,
        decreases set@.len() - i,
    {
        if set[i] == c {
            assert(set@[i as int] == c);
            return true;
        }
        i = i + 1;
    }
    false
}

proof fn lemma_parts_from_nonempty(s: Seq<char>, delimiters: Seq<char>, start: int)
    requires
        0 <= start <= s.len(),
    ensures
        parts_from(s, delimiters, start).len() >= 1,
{
    lemma_next_delimiter(s, delimiters, start);
}

/// Splits `input` at any character in `delimiters`.
///
/// Returned elements borrow from `input`; the strings themselves are not
/// copied.
pub fn split_at_delimiters<'input>(
    input: &'input str,
    delimiters: &[char],
    options: SplitOptions,
) -> (r: Vec<&'input str>)
    ensures
        r@.map_values(|e: &str| e@) == split_elements(input@, delimiters@, options),
{
    let chars = chars_of(input);
    if chars.len() == 0 {
        let empty: Vec<&'input str> = Vec::new();
        assert(empty@.map_values(|e: &str| e@) =~= Seq::<Seq<char>>::empty());
        return empty;
    }
    if delimiters.len() == 0 {
        let mut whole: Vec<&'input str> = Vec::new();
        whole.push(input);
        assert(whole@.map_values(|e: &str| e@) =~= seq![input@]);
        return whole;
    }
    let ghost s = input@;
    let ghost ds = delimiters@;
    let ghost parts = parts_from(s, ds, 0);
    let len = chars.len();
    let mut result: Vec<&'input str> = Vec::new();
    let mut start: usize = 0;
    let mut index: usize = 0;
    let mut part: usize = 0;
    proof {
        assert(parts.skip(0) =~= parts);
        assert(result@.map_values(|e: &str| e@) + kept_from(parts, options, 0) =~= kept_from(parts, options, 0));
    }
    while index < len
        invariant
            len == s.len(),
            chars@ == s,
            s == input@,
            ds == delimiters@,
            parts == parts_from(s, ds, 0),
            start <= index <= len,
            part <= parts.len(),
            part <= index,
            forall|j: int| start <= j < index ==> !ds.contains(s[j]),
            parts_from(s, ds, start as int) == parts.skip(part as int),
            kept_from(parts, options, 0) == result@.map_values(|e: &str| e@) + kept_from(parts, options, part as int),
        decreases len - index,
    {
        if contains_char(delimiters, chars[index]) {
            proof {
                lemma_next_delimiter(s, ds, start as int);
                lemma_next_delimiter_at(s, ds, start as int, index as int);
                lemma_parts_from_nonempty(s, ds, index as int + 1);
                assert(parts_from(s, ds, start as int) == seq![s.subrange(start as int, index as int)] + parts_from(s, ds, index as int + 1));
                assert(parts[part as int] == parts.skip(part as int)[0]);
                assert(parts.skip(part as int + 1) =~= parts.skip(part as int).drop_first());
                assert(parts_from(s, ds, index as int + 1) =~= parts_from(s, ds, start as int).drop_first());
            }
            let piece_empty = index == start;
            let keep = !piece_empty || (if part == 0 {
                options.keep_leading_empty
            } else {
                options.keep_consecutive_empty
            });
            let ghost before = result@.map_values(|e: &str| e@);
            if keep {
                let piece = input.substring_char(start, index);
                result.push(piece);
            }
            proof {
                let after = result@.map_values(|e: &str| e@);
                assert(keeps_part(parts[part as int], part as int, parts.len() - 1, options) == keep);
                if keep {
                    assert(after =~= before.push(s.subrange(start as int, index as int)));
                    assert(before + kept_from(parts, options, part as int) =~= after + kept_from(parts, options, part as int + 1));
                } else {
                    assert(after =~= before);
                    assert(kept_from(parts, options, part as int) =~= kept_from(parts, options, part as int + 1));
                }
            }
            start = index + 1;
            part = part + 1;
        }
        index = index + 1;
    }
    proof {
        lemma_next_delimiter(s, ds, start as int);
        lemma_next_delimiter_at(s, ds, start as int, len as int);
        assert(parts_from(s, ds, start as int) == seq![s.subrange(start as int, len as int)]);
        assert(parts.skip(part as int).len() == 1);
        assert(part as int == parts.len() - 1);
        assert(parts[part as int] == parts.skip(part as int)[0]);
    }
    let piece_empty = len == start;
    let keep = !piece_empty || (if part == 0 {
        options.keep_leading_empty
    } else {
        options.keep_trailing_empty
    });
    let ghost before = result@.map_values(|e: &str| e@);
    if keep {
        let piece = input.substring_char(start, len);
        result.push(piece);
    }
    proof {
        let after = result@.map_values(|e: &str| e@);
        assert(keeps_part(parts[part as int], part as int, parts.len() - 1, options) == keep);
        assert(kept_from(parts, options, part as int + 1) =~= Seq::<Seq<char>>::empty());
        if keep {
            assert(after =~= before.push(s.subrange(start as int, len as int)));
            assert(before + kept_from(parts, options, part as int) =~= after);
        } else {
            assert(before + kept_from(parts, options, part as int) =~= after);
        }
    }
    result
}

/// The next delimiter is the first one found.
pub proof fn lemma_next_delimiter_at(s: Seq<char>, delimiters: Seq<char>, start: int, index: int)
    requires
        0 <= start <= index <= s.len(),
        index < s.len() ==> delimiters.contains(s[index]),
        forall|j: int| start <= j < index ==> !delimiters.contains(s[j]),
    ensures
        next_delimiter(s, delimiters, start) == index,
    decreases index - start,
{
    if start < index {
        lemma_next_delimiter_at(s, delimiters, start + 1, index);
    }
}

/// Splits a path-like string at either kind of path separator.
pub fn split_path(input: &str, options: SplitOptions) -> (r: Vec<&str>)
    ensures
        r@.map_values(|e: &str| e@) == split_elements(input@, seq!['/', '\\'], options),
{
    let separators: [char; 2] = ['/', '\\'];
    let r = split_at_delimiters(input, separators.as_slice(), options);
    assert(separators@ =~= seq!['/', '\\']);
    r
}

proof fn lemma_kept_from_elements(parts: Seq<Seq<char>>, options: SplitOptions, index: int)
    requires
        0 <= index,
    ensures
        forall|k: int| 0 <= k < kept_from(parts, options, index).len() ==> parts.contains(#[trigger] kept_from(parts, options, index)[k]),
        options == drop_all_empty() ==> forall|k: int| 0 <= k < kept_from(parts, options, index).len() ==> (#[trigger] kept_from(parts, options, index)[k]).len() > 0,
    decreases parts.len() - index,
{
    if index < parts.len() {
        lemma_kept_from_elements(parts, options, index + 1);
        let rest = kept_from(parts, options, index + 1);
        let keep = keeps_part(parts[index], index, parts.len() - 1, options);
        let all = kept_from(parts, options, index);
        assert forall|k: int| 0 <= k < all.len() implies parts.contains(#[trigger] all[k]) && (options == drop_all_empty() ==> all[k].len() > 0) by {
            if keep && k == 0 {
                assert(all[k] == parts[index]);
            } else {
                let kk = if keep { k - 1 } else { k };
                assert(all[k] == rest[kk]);
            }
        }
    }
}

/// No piece holds a delimiter.
pub proof fn lemma_parts_have_no_delimiters(s: Seq<char>, delimiters: Seq<char>, start: int)
    requires
        0 <= start <= s.len(),
    ensures
        forall|k: int, j: int| 0 <= k < parts_from(s, delimiters, start).len() && 0 <= j < parts_from(s, delimiters, start)[k].len()
            ==> !delimiters.contains(#[trigger] parts_from(s, delimiters, start)[k][j]),
    decreases s.len() + 1 - start,
{
    lemma_next_delimiter(s, delimiters, start);
    let end = next_delimiter(s, delimiters, start);
    let parts = parts_from(s, delimiters, start);
    if end < s.len() {
        lemma_parts_have_no_delimiters(s, delimiters, end + 1);
        let rest = parts_from(s, delimiters, end + 1);
        assert forall|k: int, j: int| 0 <= k < parts.len() && 0 <= j < parts[k].len() implies !delimiters.contains(#[trigger] parts[k][j]) by {
            if k == 0 {
                assert(parts[k][j] == s[start + j]);
            } else {
                assert(parts[k] == rest[k - 1]);
            }
        }
    } else {
        assert forall|k: int, j: int| 0 <= k < parts.len() && 0 <= j < parts[k].len() implies !delimiters.contains(#[trigger] parts[k][j]) by {
            assert(parts[k][j] == s[start + j]);
        }
    }
}

/// Splitting never yields an element that holds a delimiter.
pub proof fn lemma_split_elements_hold_no_delimiter(s: Seq<char>, delimiters: Seq<char>, options: SplitOptions)
    ensures
        forall|k: int, j: int| 0 <= k < split_elements(s, delimiters, options).len() && 0 <= j < split_elements(s, delimiters, options)[k].len()
            ==> !delimiters.contains(#[trigger] split_elements(s, delimiters, options)[k][j]),
{
    let r = split_elements(s, delimiters, options);
    if s.len() > 0 && delimiters.len() > 0 {
        let parts = parts_from(s, delimiters, 0);
        lemma_kept_from_elements(parts, options, 0);
        lemma_parts_have_no_delimiters(s, delimiters, 0);
        assert forall|k: int, j: int| 0 <= k < r.len() && 0 <= j < r[k].len() implies !delimiters.contains(#[trigger] r[k][j]) by {
            assert(parts.contains(r[k]));
            let m = choose|m: int| 0 <= m < parts.len() && parts[m] == r[k];
            assert(r[k][j] == parts[m][j]);
        }
    } else if s.len() > 0 {
        assert forall|k: int, j: int| 0 <= k < r.len() && 0 <= j < r[k].len() implies !delimiters.contains(#[trigger] r[k][j]) by {
            assert(!delimiters.contains(r[k][j]));
        }
    }
}

/// With the default options no element is empty.
pub proof fn lemma_default_split_drops_empty(s: Seq<char>, delimiters: Seq<char>)
    ensures
        forall|k: int| 0 <= k < split_elements(s, delimiters, drop_all_empty()).len()
            ==> (#[trigger] split_elements(s, delimiters, drop_all_empty())[k]).len() > 0,
{
    let options = drop_all_empty();
    let r = split_elements(s, delimiters, options);
    if s.len() > 0 && delimiters.len() > 0 {
        let parts = parts_from(s, delimiters, 0);
        lemma_kept_from_elements(parts, options, 0);

    }
}

proof fn lemma_kept_from_all(parts: Seq<Seq<char>>, options: SplitOptions, index: int)
    requires
        0 <= index <= parts.len(),
        options.keep_leading_empty,
        options.keep_trailing_empty,
        options.keep_consecutive_empty,
    ensures
        kept_from(parts, options, index) == parts.skip(index),
    decreases parts.len() - index,
{
    if index < parts.len() {
        lemma_kept_from_all(parts, options, index + 1);
        assert(parts.skip(index) =~= seq![parts[index]] + parts.skip(index + 1));
    } else {
        assert(parts.skip(index) =~= Seq::<Seq<char>>::empty());
    }
}

/// Keeping every kind of empty element yields every piece between
/// delimiters, so the number of elements is one more than the number of
/// delimiters in a non-empty input.
pub proof fn lemma_split_keeping_all(s: Seq<char>, delimiters: Seq<char>)
    requires
        s.len() > 0,
        delimiters.len() > 0,
    ensures
        split_elements(s, delimiters, SplitOptions { keep_leading_empty: true, keep_trailing_empty: true, keep_consecutive_empty: true })
            == parts_from(s, delimiters, 0),
{
    let options = SplitOptions { keep_leading_empty: true, keep_trailing_empty: true, keep_consecutive_empty: true };
    lemma_kept_from_all(parts_from(s, delimiters, 0), options, 0);
    assert(parts_from(s, delimiters, 0).skip(0) =~= parts_from(s, delimiters, 0));
}

/// Whether the chars of `a` start with the chars of `b`.
pub open spec fn starts_with_chars(a: Seq<char>, b: Seq<char>) -> bool {
    b.len() <= a.len() && a.take(b.len() as int) == b
}

/// Whether the chars of `a` end with the chars of `b`.
pub open spec fn ends_with_chars(a: Seq<char>, b: Seq<char>) -> bool {
    b.len() <= a.len() && a.skip(a.len() - b.len()) == b
}

/// Whether the ASCII-case-insensitive prefix of `value` of the byte length
/// of `prefix` matches it, on a character boundary.
pub open spec fn has_prefix_ignoring_case(value: Seq<u8>, prefix: Seq<u8>) -> bool {
    &&& prefix.len() <= value.len()
    &&& vstd::utf8::is_char_boundary(value, prefix.len() as int)
    &&& ascii_eq_ignore_case(value.take(prefix.len() as int), prefix)
}

/// Whether the ASCII-case-insensitive suffix of `value` of the byte length
/// of `suffix` matches it, on a character boundary.
pub open spec fn has_suffix_ignoring_case(value: Seq<u8>, suffix: Seq<u8>) -> bool {
    &&& suffix.len() <= value.len()
    &&& vstd::utf8::is_char_boundary(value, value.len() - suffix.len())
    &&& ascii_eq_ignore_case(value.skip(value.len() - suffix.len()), suffix)
}

fn chars_start_with(a: &Vec<char>, b: &Vec<char>) -> (r: bool)
    ensures
        r == starts_with_chars(a@, b@),
{
    if b.len() > a.len() {
        return false;
    }
    let mut i: usize = 0;
    while i < b.len()
        invariant
            b@.len() <= a@.len(),
            i <= b@.len(),
            forall|j: int| 0 <= j < i ==> a@[j] == b@[j],
        decreases b@.len() - i,
    {
        if a[i] != b[i] {
            assert(a@.take(b@.len() as int)[i as int] != b@[i as int]);
            return false;
        }
        i = i + 1;
    }
    assert(a@.take(b@.len() as int) =~= b@);
    true
}

fn chars_end_with(a: &Vec<char>, b: &Vec<char>) -> (r: bool)
    ensures
        r == ends_with_chars(a@, b@),
{
    if b.len() > a.len() {
        return false;
    }
    let a_len = a.len();
    let offset = a_len - b.len();
    let mut i: usize = 0;
    while i < b.len()
        invariant
            a_len == a@.len(),
            b@.len() <= a@.len(),
            offset + b@.len() == a@.len(),
            i <= b@.len(),
            forall|j: int| 0 <= j < i ==> a@[offset + j] == b@[j],
        decreases b@.len() - i,
    {
        if a[offset + i] != b[i] {
            assert(a@.skip(offset as int)[i as int] != b@[i as int]);
            return false;
        }
        i = i + 1;
    }
    assert(a@.skip(offset as int) =~= b@);
    true
}

/// Removes `prefix` when it is present according to `case_sensitive`; the
/// case-insensitive form ignores the case of ASCII letters only.
pub fn without_prefix<'a>(value: &'a str, prefix: &str, case_sensitive: bool) -> (r: &'a str)
    ensures
        case_sensitive ==> r@ == if starts_with_chars(value@, prefix@) {
            value@.skip(prefix@.len() as int)
        } else {
            value@
        },
        !case_sensitive ==> if has_prefix_ignoring_case(value.spec_bytes(), prefix.spec_bytes()) {
            r.spec_bytes() == value.spec_bytes().skip(prefix.spec_bytes().len() as int)
        } else {
            r@ == value@
        },
{
    if case_sensitive {
        let v = chars_of(value);
        let p = chars_of(prefix);
        if chars_start_with(&v, &p) {
            return value.substring_char(p.len(), v.len());
        }
        return value;
    }
    let a = value.as_bytes();
    let b = prefix.as_bytes();
    if b.len() > a.len() || !value.is_char_boundary(b.len()) {
        return value;
    }
    if bytes_match_at(CaseSensitivity::Insensitive, a, 0, b, 0, b.len()) {
        assert(b@.subrange(0, b@.len() as int) =~= b@);
        assert(a@.subrange(0, b@.len() as int) =~= a@.take(b@.len() as int));
        let (_, rest) = value.split_at(b.len());
        rest
    } else {
        assert(b@.subrange(0, b@.len() as int) =~= b@);
        assert(a@.subrange(0, b@.len() as int) =~= a@.take(b@.len() as int));
        value
    }
}

/// Removes `suffix` when it is present according to `case_sensitive`; the
/// case-insensitive form ignores the case of ASCII letters only.
pub fn without_suffix<'a>(value: &'a str, suffix: &str, case_sensitive: bool) -> (r: &'a str)
    ensures
        case_sensitive ==> r@ == if ends_with_chars(value@, suffix@) {
            value@.take(value@.len() - suffix@.len())
        } else {
            value@
        },
        !case_sensitive ==> if has_suffix_ignoring_case(value.spec_bytes(), suffix.spec_bytes()) {
            r.spec_bytes() == value.spec_bytes().take(value.spec_bytes().len() - suffix.spec_bytes().len())
        } else {
            r@ == value@
        },
{
    if case_sensitive {
        let v = chars_of(value);
        let p = chars_of(suffix);
        if chars_end_with(&v, &p) {
            return value.substring_char(0, v.len() - p.len());
        }
        return value;
    }
    let a = value.as_bytes();
    let b = suffix.as_bytes();
    if b.len() > a.len() {
        return value;
    }
    let start = a.len() - b.len();
    if !value.is_char_boundary(start) {
        return value;
    }
    assert(b@.subrange(0, b@.len() as int) =~= b@);
    assert(a@.subrange(start as int, start + b@.len()) =~= a@.skip(start as int));
    if bytes_match_at(CaseSensitivity::Insensitive, a, start, b, 0, b.len()) {
        let (head, _) = value.split_at(start);
        head
    } else {
        value
    }
}

/// `s` without the leading characters that are in `set`.
pub open spec fn trim_start_chars(s: Seq<char>, set: Seq<char>) -> Seq<char>
    decreases s.len(),
{
    if s.len() > 0 && set.contains(s[0]) {
        trim_start_chars(s.drop_first(), set)
    } else {
        s
    }
}

/// `s` without the trailing characters that are in `set`.
pub open spec fn trim_end_chars(s: Seq<char>, set: Seq<char>) -> Seq<char>
    decreases s.len(),
{
    if s.len() > 0 && set.contains(s.last()) {
        trim_end_chars(s.drop_last(), set)
    } else {
        s
    }
}

proof fn lemma_trim_start_at(s: Seq<char>, set: Seq<char>, i: int)
    requires
        0 <= i <= s.len(),
        forall|j: int| 0 <= j < i ==> set.contains(s[j]),
        i < s.len() ==> !set.contains(s[i]),
    ensures
        trim_start_chars(s, set) == s.skip(i),
    decreases i,
{
    if i > 0 {
        assert forall|j: int| 0 <= j < i - 1 implies set.contains(s.drop_first()[j]) by {
            assert(s.drop_first()[j] == s[j + 1]);
        }
        lemma_trim_start_at(s.drop_first(), set, i - 1);
        assert(s.drop_first().skip(i - 1) =~= s.skip(i));
    } else {
        assert(s.skip(0) =~= s);
    }
}

proof fn lemma_trim_end_at(s: Seq<char>, set: Seq<char>, e: int)
    requires
        0 <= e <= s.len(),
        forall|j: int| e <= j < s.len() ==> set.contains(s[j]),
        e > 0 ==> !set.contains(s[e - 1]),
    ensures
        trim_end_chars(s, set) == s.take(e),
    decreases s.len() - e,
{
    if e < s.len() {
        assert forall|j: int| e <= j < s.drop_last().len() implies set.contains(s.drop_last()[j]) by {
            assert(s.drop_last()[j] == s[j]);
        }
        lemma_trim_end_at(s.drop_last(), set, e);
        assert(s.drop_last().take(e) =~= s.take(e));
    } else {
        assert(s.take(e) =~= s);
    }
}

/// Trims every leading and trailing character contained in `characters`.
pub fn trim_matches<'a>(value: &'a str, characters: &[char]) -> (r: &'a str)
    ensures
        r@ == trim_end_chars(trim_start_chars(value@, characters@), characters@),
{
    let v = chars_of(value);
    let len = v.len();
    let mut start: usize = 0;
    while start < len && contains_char(characters, v[start])
        invariant
            v@ == value@,
            len == v@.len(),
            start <= len,
            forall|j: int| 0 <= j < start ==> characters@.contains(v@[j]),
        decreases len - start,
    {
        start = start + 1;
    }
    proof {
        lemma_trim_start_at(v@, characters@, start as int);
    }
    let mut end: usize = len;
    while end > start && contains_char(characters, v[end - 1])
        invariant
            v@ == value@,
            len == v@.len(),
            start <= end <= len,
            forall|j: int| end <= j < len ==> characters@.contains(v@[j]),
        decreases end - start,
    {
        end = end - 1;
    }
    proof {
        let t = v@.skip(start as int);
        assert forall|j: int| end - start <= j < t.len() implies characters@.contains(t[j]) by {
            assert(t[j] == v@[start + j]);
        }
        if end > start {
            assert(t[end - start - 1] == v@[end - 1]);
        }
        lemma_trim_end_at(t, characters@, end - start);
        assert(t.take(end - start) =~= v@.subrange(start as int, end as int));
    }
    value.substring_char(start, end)
}

} // verus!
