use vstd::prelude::*;

verus! {

/// Why a byte buffer could not be read as a protocol element.
#[derive(Debug, Clone, Copy, PartialEq, Eq, Structural)]
pub enum RespParseError {
    UnexpectedEof,
    UnknownTypePrefix,
    InvalidElement,
}

/// Turns a protocol element into its wire encoding.
pub trait RespSerialize {
    /// The element's declared lengths agree with its contents.
    spec fn well_formed(&self) -> bool;

    /// The bytes that encode the element.
    spec fn encoding(&self) -> Seq<u8>;

    fn to_bytes(&self) -> (r: Vec<u8>)
        requires
            self.well_formed(),
        ensures
            r@ == self.encoding(),
    ;
}

/// Reads a protocol element of one kind from the front of a byte buffer.
pub trait RespElementConstructor: Sized {
    /// `r` is what reading an element of this kind from the front of `input`
    /// gives: the element and the bytes after it, or why it failed.
    spec fn parses_to(input: Seq<u8>, r: Result<(Self, Seq<u8>), RespParseError>) -> bool;

    /// Parses the front of `slice`, returning the element and the unconsumed
    /// remainder, or why the bytes do not hold one.
    fn from_byte_slice(slice: &[u8]) -> (r: Result<(Self, &[u8]), RespParseError>)
        ensures
            Self::parses_to(
                slice@,
                match r {
                    Ok((e, rest)) => Ok((e, rest@)),
                    Err(x) => Err(x),
                },
            ),
    ;
}

/// The two-byte line delimiter starts at index `i` of `s`.
pub open spec fn is_crlf_at(s: Seq<u8>, i: int) -> bool {
    0 <= i && i + 1 < s.len() && s[i] == 13u8 && s[i + 1] == 10u8
}

/// The index of the first delimiter at or after `i`, or -1 when there is none.
pub open spec fn crlf_from(s: Seq<u8>, i: int) -> int
    decreases s.len() - i,
{
    if i < 0 || i + 1 >= s.len() {
        -1
    } else if is_crlf_at(s, i) {
        i
    } else {
        crlf_from(s, i + 1)
    }
}

/// The index of the first delimiter in `s`, or -1.
pub open spec fn first_crlf(s: Seq<u8>) -> int {
    crlf_from(s, 0)
}

pub open spec fn has_crlf(s: Seq<u8>) -> bool {
    exists|i: int| is_crlf_at(s, i)
}

/// Splits `s` at its first delimiter into the line before it and the bytes
/// after it; without a delimiter, the whole of `s` and nothing.
pub open spec fn split_line(s: Seq<u8>) -> (Seq<u8>, Seq<u8>) {
    let i = first_crlf(s);
    if i < 0 {
        (s, Seq::<u8>::empty())
    } else {
        (s.take(i), s.skip(i + 2))
    }
}

pub proof fn lemma_crlf_from(s: Seq<u8>, i: int)
    requires
        0 <= i,
    ensures
        crlf_from(s, i) == -1 || (i <= crlf_from(s, i) && is_crlf_at(s, crlf_from(s, i))),
        forall|j: int| i <= j && (crlf_from(s, i) == -1 || j < crlf_from(s, i)) ==> !is_crlf_at(s, j),
    decreases s.len() - i,
{
    if i + 1 < s.len() && !is_crlf_at(s, i) {
        lemma_crlf_from(s, i + 1);
    }
}

/// The first delimiter: found exactly where one is, and -1 only where none is.
pub proof fn lemma_first_crlf(s: Seq<u8>)
    ensures
        first_crlf(s) == -1 <==> !has_crlf(s),
        first_crlf(s) != -1 ==> is_crlf_at(s, first_crlf(s)),
        forall|j: int| 0 <= j && (first_crlf(s) == -1 || j < first_crlf(s)) ==> !is_crlf_at(s, j),
{
    lemma_crlf_from(s, 0);
}

/// A line followed by a delimiter: the first delimiter is the one after the line.
pub proof fn lemma_split_line_append(line: Seq<u8>, rest: Seq<u8>)
    requires
        !has_crlf(line),
    ensures
        split_line(line + seq![13u8, 10u8] + rest) == (line, rest),
        has_crlf(line + seq![13u8, 10u8] + rest),
{
    let s = line + seq![13u8, 10u8] + rest;
    assert(is_crlf_at(s, line.len() as int));
    lemma_first_crlf(s);
    let k = first_crlf(s);
    if k < line.len() {
        if k + 1 < line.len() {
            assert(is_crlf_at(line, k));
        } else {
            assert(s[k + 1] == 13u8);
        }
    }
    assert(k == line.len());
    assert(s.take(k) =~= line);
    assert(s.skip(k + 2) =~= rest);
}

/// Reads `input` up to its first delimiter, returning the line before it and
/// the bytes after it. Without a delimiter the whole input is the line and the
/// remainder is empty, which callers must read as incomplete input.
pub fn read_until_crlf(input: &[u8]) -> (r: Option<(&[u8], &[u8])>)
    ensures
        r matches Some((line, rest)) && (line@, rest@) == split_line(input@),
{
    match find_crlf(input) {
        Some(index) => {
            let n = input.len();
            assert(is_crlf_at(input@, index as int));
            Some((&input[0..index], &input[(index + 2)..n]))
        },
        None => Some((input, &input[input.len()..input.len()])),
    }
}

/// The position of the first delimiter in `input`.
pub fn find_crlf(input: &[u8]) -> (r: Option<usize>)
    ensures
        match r {
            Some(i) => i as int == first_crlf(input@) && is_crlf_at(input@, i as int),
            None => first_crlf(input@) == -1 && !has_crlf(input@),
        },
{
    proof {
        lemma_first_crlf(input@);
    }
    let n = input.len();
    let mut i: usize = 0;
    while n >= 2 && i < n - 1
        invariant
            n == input@.len(),
            i <= n,
            crlf_from(input@, i as int) == first_crlf(input@),
        decreases n - i,
    {
        if input[i] == 13u8 && input[i + 1] == 10u8 {
            return Some(i);
        }
        i = i + 1;
    }
    None
}

pub open spec fn is_digit(b: u8) -> bool {
    48u8 <= b <= 57u8
}

pub open spec fn all_digits(s: Seq<u8>) -> bool {
    forall|i: int| 0 <= i < s.len() ==> is_digit(#[trigger] s[i])
}

/// The number that a string of decimal digits writes.
pub open spec fn digits_value(s: Seq<u8>) -> nat
    decreases s.len(),
{
    if s.len() == 0 {
        0
    } else {
        digits_value(s.drop_last()) * 10 + (s.last() - 48u8) as nat
    }
}

/// A non-empty run of decimal digits whose value fits a `usize`, read as
/// that value.
pub open spec fn decimal_value(s: Seq<u8>) -> Option<nat> {
    if s.len() > 0 && all_digits(s) && digits_value(s) <= usize::MAX {
        Some(digits_value(s))
    } else {
        None
    }
}

/// The shortest decimal text of `n`.
pub open spec fn decimal(n: nat) -> Seq<u8>
    decreases n,
{
    if n < 10 {
        seq![(n + 48) as u8]
    } else {
        decimal(n / 10).push((n % 10 + 48) as u8)
    }
}

pub proof fn lemma_digits_value_prefix(s: Seq<u8>, i: int, j: int)
    requires
        0 <= i <= j <= s.len(),
    ensures
        digits_value(s.take(i)) <= digits_value(s.take(j)),
    decreases j - i,
{
    if i < j {
        lemma_digits_value_prefix(s, i, j - 1);
        assert(s.take(j).drop_last() =~= s.take(j - 1));
    }
}

/// The decimal text of a number is non-empty, all digits, free of
/// delimiters, and reads back as that number.
pub proof fn lemma_decimal(n: nat)
    ensures
        decimal(n).len() > 0,
        all_digits(decimal(n)),
        digits_value(decimal(n)) == n,
        !has_crlf(decimal(n)),
    decreases n,
{
    if n < 10 {
        let d = decimal(n);
        assert(d.drop_last() =~= Seq::<u8>::empty());
        assert(digits_value(d.drop_last()) == 0);
        assert(d.last() == (n + 48) as u8);
        assert(digits_value(d) == n);
    } else {
        lemma_decimal(n / 10);
        let d = decimal(n);
        assert(d.drop_last() =~= decimal(n / 10));
        assert(d.last() == (n % 10 + 48) as u8);
        assert(digits_value(d) == digits_value(decimal(n / 10)) * 10 + n % 10);
        assert(n == (n / 10) * 10 + n % 10);
        assert(all_digits(d)) by {
            assert forall|i: int| 0 <= i < d.len() implies is_digit(#[trigger] d[i]) by {
                if i < d.len() - 1 {
                    assert(d[i] == decimal(n / 10)[i]);
                }
            }
        }
    }
    let d = decimal(n);
    assert(!has_crlf(d)) by {
        if has_crlf(d) {
            let i = choose|i: int| is_crlf_at(d, i);
            assert(is_digit(d[i]));
        }
    }
}

/// Reads a non-empty run of decimal digits as a `usize`.
pub fn parse_decimal(s: &[u8]) -> (r: Option<usize>)
    ensures
        match decimal_value(s@) {
            Some(v) => r == Some(v as usize),
            None => r is None,
        },
{
    let n = s.len();
    if n == 0 {
        return None;
    }
    let mut acc: usize = 0;
    let mut overflow = false;
    let mut i: usize = 0;
    while i < n
        invariant
            n == s@.len(),
            i <= n,
            all_digits(s@.take(i as int)),
            !overflow ==> acc as nat == digits_value(s@.take(i as int)),
            overflow ==> digits_value(s@.take(i as int)) > usize::MAX,
        decreases n - i,
    {
        let b = s[i];
        if b < 48u8 || b > 57u8 {
            assert(!is_digit(s@[i as int]));
            return None;
        }
        proof {
            assert(s@.take(i + 1).drop_last() =~= s@.take(i as int));
        }
        if !overflow {
            let d = (b - 48u8) as usize;
            match acc.checked_mul(10) {
                Some(m) => match m.checked_add(d) {
                    Some(v) => acc = v,
                    None => overflow = true,
                },
                None => {
                    overflow = true;
                },
            }
        } else {
            proof {
                lemma_digits_value_prefix(s@, i as int, i + 1);
            }
        }
        proof {
            assert(all_digits(s@.take(i + 1))) by {
                assert forall|k: int| 0 <= k < i + 1 implies is_digit(#[trigger] s@.take(i + 1)[k]) by {
                    if k < i {
                        assert(s@.take(i + 1)[k] == s@.take(i as int)[k]);
                    }
                }
            }
        }
        i = i + 1;
    }
    assert(s@.take(n as int) =~= s@);
    if overflow {
        None
    } else {
        Some(acc)
    }
}

/// Writes `n` as decimal text.
pub fn write_decimal(n: usize) -> (r: Vec<u8>)
    ensures
        r@ == decimal(n as nat),
    decreases n,
{
    if n < 10 {
        let mut v: Vec<u8> = Vec::new();
        v.push((n as u8) + 48u8);
        v
    } else {
        let mut v = write_decimal(n / 10);
        v.push(((n % 10) as u8) + 48u8);
        v
    }
}

/// Reads the declared length line of an array or bulk string: decimal
/// digits up to a delimiter, giving a non-zero count and the bytes after it.
///
/// A declared count of zero reads as incomplete input (`UnexpectedEof`), so
/// empty arrays and empty bulk strings have no wire form here. This is kept
/// on purpose: a frame always carries at least one byte of payload, and a
/// caller that needs an empty value handles it above the codec.
pub open spec fn parse_length(s: Seq<u8>) -> Result<(nat, Seq<u8>), RespParseError> {
    if !has_crlf(s) {
        Err(RespParseError::UnexpectedEof)
    } else {
        match decimal_value(split_line(s).0) {
            None => Err(RespParseError::InvalidElement),
            Some(n) => if n == 0 {
                Err(RespParseError::UnexpectedEof)
            } else {
                Ok((n, split_line(s).1))
            },
        }
    }
}

/// Reads the length line at the front of `input` (after the type byte).
pub fn get_length_of_current_element(input: &[u8]) -> (r: Result<(usize, &[u8]), RespParseError>)
    ensures
        match (r, parse_length(input@)) {
            (Ok((n, rest)), Ok((m, tail))) => n as nat == m && rest@ == tail && rest@.len() + 2
                <= input@.len(),
            (Err(e), Err(f)) => e == f,
            _ => false,
        },
{
    if find_crlf(input).is_none() {
        return Err(RespParseError::UnexpectedEof);
    }
    let Some((raw_length, remaining_bytes)) = read_until_crlf(input) else {
        return Err(RespParseError::InvalidElement);
    };
    proof {
        lemma_first_crlf(input@);
    }
    let Some(length) = parse_decimal(raw_length) else {
        return Err(RespParseError::InvalidElement);
    };
    if length == 0 {
        return Err(RespParseError::UnexpectedEof);
    }
    Ok((length, remaining_bytes))
}

} // verus!
