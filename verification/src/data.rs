//! Adaptors for externally defined data layouts.
use vstd::prelude::*;
use vstd::slice::slice_subrange;

verus! {

/// Why a buffer is not a well-formed double-NUL-terminated sequence.
#[derive(Clone, Copy, Debug, PartialEq, Eq, Structural)]
pub enum MultiSzError {
    MissingDoubleTerminator,
    EmbeddedEmptyValue,
}

/// A code unit of a NUL-terminated string: a byte, a UTF-16 code unit, a
/// UTF-32 code unit or a `char`, with the zero value as terminator.
pub trait MultiSzUnit: Copy {
    /// The terminating (zero) unit.
    spec fn nul() -> Self;

    /// Returns the terminating unit.
    fn terminator() -> (r: Self)
        ensures
            r == Self::nul(),
    ;

    /// Whether this unit is the terminator.
    fn is_terminator(&self) -> (r: bool)
        ensures
            r == (*self == Self::nul()),
    ;
}

impl MultiSzUnit for u8 {
    open spec fn nul() -> u8 {
        0
    }

    fn terminator() -> (r: u8) {
        0
    }

    fn is_terminator(&self) -> (r: bool) {
        *self == 0
    }
}

impl MultiSzUnit for u16 {
    open spec fn nul() -> u16 {
        0
    }

    fn terminator() -> (r: u16) {
        0
    }

    fn is_terminator(&self) -> (r: bool) {
        *self == 0
    }
}

impl MultiSzUnit for u32 {
    open spec fn nul() -> u32 {
        0
    }

    fn terminator() -> (r: u32) {
        0
    }

    fn is_terminator(&self) -> (r: bool) {
        *self == 0
    }
}

impl MultiSzUnit for char {
    open spec fn nul() -> char {
        '\0'
    }

    fn terminator() -> (r: char) {
        '\0'
    }

    fn is_terminator(&self) -> (r: bool) {
        *self == '\0'
    }
}

/// The position of the first terminator at or after `start`, or `s.len()`.
pub open spec fn next_nul<T: MultiSzUnit>(s: Seq<T>, start: int) -> int
    decreases s.len() - start,
{
    if start >= s.len() {
        s.len() as int
    } else if s[start] == T::nul() {
        start
    } else {
        next_nul(s, start + 1)
    }
}

/// The values that follow position `start` of a buffer whose last unit is a
/// terminator: each value runs up to the next terminator, and an empty value
/// ends the sequence when it is followed by a terminator or the end of the
/// buffer, and is an error otherwise.
pub open spec fn multi_sz_values_from<T: MultiSzUnit>(s: Seq<T>, start: int) -> Result<Seq<Seq<T>>, MultiSzError>
    decreases s.len() - start,
{
    if start < 0 || start >= s.len() {
        Err(MultiSzError::MissingDoubleTerminator)
    } else {
        let end = next_nul(s, start);
        proof {
            lemma_next_nul_bounds(s, start);
        }
        if end >= s.len() {
            Err(MultiSzError::MissingDoubleTerminator)
        } else if end == start {
            if end == s.len() - 1 || s[end + 1] == T::nul() {
                Ok(Seq::empty())
            } else {
                Err(MultiSzError::EmbeddedEmptyValue)
            }
        } else {
            match multi_sz_values_from(s, end + 1) {
                Ok(rest) => Ok(seq![s.subrange(start, end)] + rest),
                Err(e) => Err(e),
            }
        }
    }
}

/// The values that a double-NUL-terminated buffer holds.
pub open spec fn multi_sz_values<T: MultiSzUnit>(s: Seq<T>) -> Result<Seq<Seq<T>>, MultiSzError> {
    if s.len() < 2 || s[s.len() - 2] != T::nul() || s[s.len() - 1] != T::nul() {
        Err(MultiSzError::MissingDoubleTerminator)
    } else {
        multi_sz_values_from(s, 0)
    }
}

/// Each value followed by a terminator.
pub open spec fn terminated_values<T: MultiSzUnit>(values: Seq<Seq<T>>) -> Seq<T>
    decreases values.len(),
{
    if values.len() == 0 {
        Seq::empty()
    } else {
        values[0] + seq![T::nul()] + terminated_values(values.drop_first())
    }
}

/// The double-NUL-terminated encoding of `values`; an empty value cannot be
/// encoded.
pub open spec fn multi_sz_encoding<T: MultiSzUnit>(values: Seq<Seq<T>>) -> Result<Seq<T>, MultiSzError> {
    if exists|i: int| 0 <= i < values.len() && values[i].len() == 0 {
        Err(MultiSzError::EmbeddedEmptyValue)
    } else if values.len() == 0 {
        Ok(seq![T::nul(), T::nul()])
    } else {
        Ok(terminated_values(values) + seq![T::nul()])
    }
}

/// Where the next terminator lies.
pub proof fn lemma_next_nul_bounds<T: MultiSzUnit>(s: Seq<T>, start: int)
    requires
        0 <= start <= s.len(),
    ensures
        start <= next_nul(s, start) <= s.len(),
        forall|j: int| start <= j < next_nul(s, start) ==> s[j] != T::nul(),
        next_nul(s, start) < s.len() ==> s[next_nul(s, start)] == T::nul(),
    decreases s.len() - start,
{
    if start < s.len() && s[start] != T::nul() {
        lemma_next_nul_bounds(s, start + 1);
    }
}

proof fn lemma_next_nul_at<T: MultiSzUnit>(s: Seq<T>, start: int, index: int)
    requires
        0 <= start <= index < s.len(),
        s[index] == T::nul(),
        forall|j: int| start <= j < index ==> s[j] != T::nul(),
    ensures
        next_nul(s, start) == index,
    decreases index - start,
{
    if start < index {
        lemma_next_nul_at(s, start + 1, index);
    }
}

proof fn lemma_values_from_not_missing<T: MultiSzUnit>(s: Seq<T>, start: int)
    requires
        s.len() >= 2,
        s[s.len() - 2] == T::nul(),
        s[s.len() - 1] == T::nul(),
        0 <= start < s.len(),
    ensures
        multi_sz_values_from(s, start) != Err::<Seq<Seq<T>>, MultiSzError>(MultiSzError::MissingDoubleTerminator),
    decreases s.len() - start,
{
    lemma_next_nul_bounds(s, start);
    let end = next_nul(s, start);
    if start <= s.len() - 2 {
        assert(end <= s.len() - 2) by {
            if end > s.len() - 2 {
                assert(s[s.len() - 2] != T::nul());
            }
        }
    } else {
        assert(end == s.len() - 1) by {
            if end != s.len() - 1 {
                assert(s[s.len() - 1] != T::nul());
            }
        }
    }
    if end != start {
        lemma_values_from_not_missing(s, end + 1);
    }
}

/// A buffer is reported as missing its double terminator exactly when it
/// does not end in two terminators.
pub proof fn lemma_missing_terminator_iff<T: MultiSzUnit>(s: Seq<T>)
    ensures
        (multi_sz_values(s) == Err::<Seq<Seq<T>>, MultiSzError>(MultiSzError::MissingDoubleTerminator)) <==> (
        s.len() < 2 || s[s.len() - 2] != T::nul() || s[s.len() - 1] != T::nul()),
{
    if s.len() >= 2 && s[s.len() - 2] == T::nul() && s[s.len() - 1] == T::nul() {
        lemma_values_from_not_missing(s, 0);
    }
}

/// Parses a double-NUL-terminated sequence into borrowed values.
pub fn parse_multi_sz<T: MultiSzUnit>(input: &[T]) -> (r: Result<Vec<&[T]>, MultiSzError>)
    ensures
        match (r, multi_sz_values(input@)) {
            (Ok(values), Ok(expected)) => values@.map_values(|v: &[T]| v@) == expected,
            (Err(e), Err(expected)) => e == expected,
            _ => false,
        },
{
    let len = input.len();
    if len < 2 || !input[len - 2].is_terminator() || !input[len - 1].is_terminator() {
        return Err(MultiSzError::MissingDoubleTerminator);
    }
    let ghost s = input@;
    let mut values: Vec<&[T]> = Vec::new();
    let mut start: usize = 0;
    let mut index: usize = 0;
    while index < len
        invariant
            len == s.len(),
            s == input@,
            len >= 2,
            s[len - 2] == T::nul(),
            s[len - 1] == T::nul(),
            start <= index <= len,
            start < len,
            forall|j: int| start <= j < index ==> s[j] != T::nul(),
            multi_sz_values_from(s, 0) == match multi_sz_values_from(s, start as int) {
                Ok(rest) => Ok(values@.map_values(|v: &[T]| v@) + rest),
                Err(e) => Err(e),
            },
        decreases len - index,
    {
        if input[index].is_terminator() {
            proof {
                lemma_next_nul_at(s, start as int, index as int);
            }
            if index == start {
                if index == len - 1 || input[index + 1].is_terminator() {
                    assert(values@.map_values(|v: &[T]| v@) + Seq::<Seq<T>>::empty() =~= values@.map_values(|v: &[T]| v@));
                    return Ok(values);
                }
                return Err(MultiSzError::EmbeddedEmptyValue);
            }
            let value = slice_subrange(input, start, index);
            let ghost before = values@.map_values(|v: &[T]| v@);
            values.push(value);
            proof {
                let after = values@.map_values(|v: &[T]| v@);
                assert(after =~= before.push(s.subrange(start as int, index as int)));
                match multi_sz_values_from(s, index as int + 1) {
                    Ok(rest) => {
                        assert(before + (seq![s.subrange(start as int, index as int)] + rest) =~= after + rest);
                    },
                    Err(e) => {},
                }
            }
            start = index + 1;
        }
        index = index + 1;
    }
    proof {
        assert(s[len - 1] != T::nul());
    }
    Err(MultiSzError::MissingDoubleTerminator)
}

proof fn lemma_terminated_values_append<T: MultiSzUnit>(a: Seq<Seq<T>>, b: Seq<Seq<T>>)
    ensures
        terminated_values(a + b) == terminated_values(a) + terminated_values(b),
    decreases a.len(),
{
    if a.len() == 0 {
        assert(a + b =~= b);
    } else {
        assert((a + b).drop_first() =~= a.drop_first() + b);
        lemma_terminated_values_append(a.drop_first(), b);
    }
}

proof fn lemma_terminated_values_push<T: MultiSzUnit>(a: Seq<Seq<T>>, v: Seq<T>)
    ensures
        terminated_values(a.push(v)) == terminated_values(a) + v + seq![T::nul()],
{
    lemma_terminated_values_append(a, seq![v]);
    assert(a.push(v) =~= a + seq![v]);
    assert(seq![v].drop_first() =~= Seq::<Seq<T>>::empty());
    assert(terminated_values(Seq::<Seq<T>>::empty()) =~= Seq::<T>::empty());
    assert(terminated_values(seq![v]) =~= v + seq![T::nul()]);
}

/// Encodes values using a double-NUL-terminated sequence.
pub fn encode_multi_sz<T: MultiSzUnit>(values: &[&[T]]) -> (r: Result<Vec<T>, MultiSzError>)
    ensures
        match (r, multi_sz_encoding(values@.map_values(|v: &[T]| v@))) {
            (Ok(encoded), Ok(expected)) => encoded@ == expected,
            (Err(e), Err(expected)) => e == expected,
            _ => false,
        },
{
    let ghost vs = values@.map_values(|v: &[T]| v@);
    let mut encoded: Vec<T> = Vec::new();
    let mut i: usize = 0;
    while i < values.len()
        invariant
            i <= values@.len(),
            vs == values@.map_values(|v: &[T]| v@),
            encoded@ == terminated_values(vs.take(i as int)),
            forall|j: int| 0 <= j < i ==> vs[j].len() > 0,
        decreases values@.len() - i,
    {
        let value: &[T] = values[i];
        if value.len() == 0 {
            assert(vs[i as int].len() == 0);
            return Err(MultiSzError::EmbeddedEmptyValue);
        }
        let ghost before = encoded@;
        let mut k: usize = 0;
        while k < value.len()
            invariant
                k <= value@.len(),
                encoded@ == before + value@.take(k as int),
            decreases value@.len() - k,
        {
            encoded.push(value[k]);
            assert(value@.take(k as int + 1) =~= value@.take(k as int).push(value@[k as int]));
            k = k + 1;
        }
        encoded.push(T::terminator());
        proof {
            assert(value@.take(k as int) =~= value@);
            assert(vs.take(i as int + 1) =~= vs.take(i as int).push(vs[i as int]));
            lemma_terminated_values_push(vs.take(i as int), vs[i as int]);
        }
        i = i + 1;
    }
    encoded.push(T::terminator());
    if values.len() == 0 {
        encoded.push(T::terminator());
        assert(encoded@ =~= seq![T::nul(), T::nul()]);
    } else {
        assert(vs.take(i as int) =~= vs);
    }
    Ok(encoded)
}

proof fn lemma_values_from_terminated<T: MultiSzUnit>(pre: Seq<T>, vs: Seq<Seq<T>>)
    requires
        forall|i: int| 0 <= i < vs.len() ==> vs[i].len() > 0,
        forall|i: int, j: int| 0 <= i < vs.len() && 0 <= j < vs[i].len() ==> vs[i][j] != T::nul(),
    ensures
        multi_sz_values_from(pre + terminated_values(vs) + seq![T::nul()], pre.len() as int) == Ok::<Seq<Seq<T>>, MultiSzError>(vs),
    decreases vs.len(),
{
    let s = pre + terminated_values(vs) + seq![T::nul()];
    let start = pre.len() as int;
    if vs.len() == 0 {
        assert(terminated_values(vs) =~= Seq::<T>::empty());
        assert(s =~= pre + seq![T::nul()]);
        lemma_next_nul_at(s, start, start);
        assert(vs =~= Seq::<Seq<T>>::empty());
    } else {
        let v = vs[0];
        let rest = vs.drop_first();
        let pre2 = pre + v + seq![T::nul()];
        assert(terminated_values(vs) == v + seq![T::nul()] + terminated_values(rest));
        assert(s =~= pre2 + terminated_values(rest) + seq![T::nul()]);
        let end = start + v.len();
        assert(s.len() > end);
        assert(end + 1 == pre2.len());
        assert forall|j: int| start <= j < end implies s[j] != T::nul() by {
            assert(s[j] == v[j - start]);
        }
        assert(s[end] == T::nul());
        lemma_next_nul_at(s, start, end);
        assert(s.subrange(start, end) =~= v);
        assert forall|i: int| 0 <= i < rest.len() implies rest[i].len() > 0 by {
            assert(rest[i] == vs[i + 1]);
        }
        assert forall|i: int, j: int| 0 <= i < rest.len() && 0 <= j < rest[i].len() implies rest[i][j] != T::nul() by {
            assert(rest[i] == vs[i + 1]);
        }
        lemma_values_from_terminated(pre2, rest);
        assert(seq![v] + rest =~= vs);
        assert(multi_sz_values_from(s, end + 1) == Ok::<Seq<Seq<T>>, MultiSzError>(rest));
    }
}

/// Encoding then parsing gives back the values: every list of non-empty
/// values without terminators survives the round trip.
pub proof fn lemma_multi_sz_round_trip<T: MultiSzUnit>(values: Seq<Seq<T>>)
    requires
        forall|i: int| 0 <= i < values.len() ==> values[i].len() > 0,
        forall|i: int, j: int| 0 <= i < values.len() && 0 <= j < values[i].len() ==> values[i][j] != T::nul(),
    ensures
        multi_sz_encoding(values) matches Ok(encoded) && multi_sz_values(encoded) == Ok::<Seq<Seq<T>>, MultiSzError>(values),
{
    assert(!(exists|i: int| 0 <= i < values.len() && values[i].len() == 0));
    if values.len() == 0 {
        let e = seq![T::nul(), T::nul()];
        lemma_next_nul_at(e, 0, 0);
        assert(values =~= Seq::<Seq<T>>::empty());
    } else {
        let e = terminated_values(values) + seq![T::nul()];
        lemma_values_from_terminated(Seq::empty(), values);
        assert(Seq::<T>::empty() + terminated_values(values) + seq![T::nul()] =~= e);
        let last = values[values.len() - 1];
        let init = values.drop_last();
        assert(values =~= init.push(last));
        lemma_terminated_values_push(init, last);
        assert(e[e.len() - 2] == T::nul());
    }
}

/// Every value that parsing yields is non-empty and holds no terminator.
pub proof fn lemma_parsed_values_are_plain<T: MultiSzUnit>(s: Seq<T>, start: int)
    requires
        multi_sz_values_from(s, start) is Ok,
    ensures
        forall|i: int| 0 <= i < multi_sz_values_from(s, start)->Ok_0.len() ==> {
            let v = #[trigger] multi_sz_values_from(s, start)->Ok_0[i];
            v.len() > 0 && forall|j: int| 0 <= j < v.len() ==> v[j] != T::nul()
        },
    decreases s.len() - start,
{
    if 0 <= start < s.len() {
        lemma_next_nul_bounds(s, start);
        let end = next_nul(s, start);
        if end < s.len() && end != start {
            lemma_parsed_values_are_plain(s, end + 1);
            let rest = multi_sz_values_from(s, end + 1)->Ok_0;
            let all = seq![s.subrange(start, end)] + rest;
            assert forall|i: int| 0 <= i < all.len() implies ({
                let v = #[trigger] all[i];
                v.len() > 0 && forall|j: int| 0 <= j < v.len() ==> v[j] != T::nul()
            }) by {
                if i > 0 {
                    assert(all[i] == rest[i - 1]);
                }
            }
        }
    }
}

} // verus!
