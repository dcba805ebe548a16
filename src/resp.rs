pub mod parser;
pub mod types;
pub mod laws;
pub mod commands;
pub mod server;

use vstd::prelude::*;
use vstd::utf8::{decode_utf8, encode_utf8, valid_utf8};

use crate::resp::parser::{
    decimal, decimal_value, get_length_of_current_element, has_crlf, parse_decimal,
    read_until_crlf, find_crlf, split_line, write_decimal, parse_length, RespParseError,
    RespElementConstructor, RespSerialize,
};
use crate::resp::types::{RespArray, RespBulkString, RespInteger, RespSimpleString};

verus! {

/// A protocol element.
#[derive(Debug)]
pub enum RespElement {
    Array(RespArray),
    SimpleString(RespSimpleString),
    BulkString(RespBulkString),
    Integer(RespInteger),
}

/// The mathematical value of a protocol element.
pub enum RespValue {
    Array(Seq<RespValue>),
    SimpleString(Seq<char>),
    BulkString(Seq<u8>),
    Integer(int),
}

pub open spec fn crlf() -> Seq<u8> {
    seq![13u8, 10u8]
}

/// The wire encoding of a value.
pub open spec fn serialize(v: RespValue) -> Seq<u8>
    decreases v,
{
    match v {
        RespValue::Array(vs) => seq![42u8] + decimal(vs.len()) + crlf() + serialize_all(vs),
        RespValue::SimpleString(s) => seq![43u8] + encode_utf8(s) + crlf(),
        RespValue::BulkString(b) => seq![36u8] + decimal(b.len()) + crlf() + b + crlf(),
        RespValue::Integer(i) => seq![58u8] + integer_text(i) + crlf(),
    }
}

/// The encodings of a sequence of values, one after the other.
pub open spec fn serialize_all(vs: Seq<RespValue>) -> Seq<u8>
    decreases vs,
{
    if vs.len() == 0 {
        Seq::empty()
    } else {
        serialize(vs[0]) + serialize_all(vs.drop_first())
    }
}

/// Decimal text of an integer, with a minus sign when it is negative.
pub open spec fn integer_text(i: int) -> Seq<u8> {
    if i < 0 {
        seq![45u8] + decimal((-i) as nat)
    } else {
        decimal(i as nat)
    }
}

/// A value that the codec can carry: declared lengths are non-zero, a simple
/// string's text holds no delimiter, and an integer fits an `isize`.
pub open spec fn encodable(v: RespValue) -> bool
    decreases v,
{
    match v {
        RespValue::Array(vs) => 0 < vs.len() <= usize::MAX && all_encodable(vs),
        RespValue::SimpleString(s) => !has_crlf(encode_utf8(s)),
        RespValue::BulkString(b) => 0 < b.len() <= usize::MAX,
        RespValue::Integer(i) => isize::MIN <= i <= isize::MAX,
    }
}

pub open spec fn all_encodable(vs: Seq<RespValue>) -> bool
    decreases vs,
{
    if vs.len() == 0 {
        true
    } else {
        encodable(vs[0]) && all_encodable(vs.drop_first())
    }
}

/// Reads one element from the front of `s`, giving it and the bytes after it.
pub open spec fn parse_value(s: Seq<u8>) -> Result<(RespValue, Seq<u8>), RespParseError>
    decreases s.len(), 1int, 0int,
{
    if s.len() == 0 {
        Err(RespParseError::UnexpectedEof)
    } else if s[0] == 42u8 {
        match parse_array(s) {
            Ok((vs, r)) => Ok((RespValue::Array(vs), r)),
            Err(e) => Err(e),
        }
    } else if s[0] == 43u8 {
        match parse_simple(s) {
            Ok((t, r)) => Ok((RespValue::SimpleString(t), r)),
            Err(e) => Err(e),
        }
    } else if s[0] == 36u8 {
        match parse_bulk(s) {
            Ok((b, r)) => Ok((RespValue::BulkString(b), r)),
            Err(e) => Err(e),
        }
    } else if s[0] == 58u8 {
        match parse_integer(s) {
            Ok((i, r)) => Ok((RespValue::Integer(i), r)),
            Err(e) => Err(e),
        }
    } else {
        Err(RespParseError::UnknownTypePrefix)
    }
}

/// Reads `n` elements one after the other from the front of `s`.
pub open spec fn parse_values(s: Seq<u8>, n: nat) -> Result<(Seq<RespValue>, Seq<u8>), RespParseError>
    decreases s.len(), 2int, n,
{
    if n == 0 {
        Ok((Seq::empty(), s))
    } else {
        match parse_value(s) {
            Err(e) => Err(e),
            Ok((v, r)) => if r.len() < s.len() {
                match parse_values(r, (n - 1) as nat) {
                    Ok((vs, r2)) => Ok((seq![v] + vs, r2)),
                    Err(e) => Err(e),
                }
            } else {
                Err(RespParseError::InvalidElement)
            },
        }
    }
}

/// Reads an array: `*`, its element count, and that many elements.
pub open spec fn parse_array(s: Seq<u8>) -> Result<(Seq<RespValue>, Seq<u8>), RespParseError>
    decreases s.len(), 0int, 0int,
{
    if s.len() == 0 {
        Err(RespParseError::UnexpectedEof)
    } else if s[0] != 42u8 {
        Err(RespParseError::UnknownTypePrefix)
    } else {
        match parse_length(s.drop_first()) {
            Err(e) => Err(e),
            Ok((n, rest)) => if rest.len() < s.len() {
                parse_values(rest, n)
            } else {
                Err(RespParseError::InvalidElement)
            },
        }
    }
}

/// Reads a simple string: `+` and a line of UTF-8 text.
pub open spec fn parse_simple(s: Seq<u8>) -> Result<(Seq<char>, Seq<u8>), RespParseError> {
    if s.len() == 0 {
        Err(RespParseError::UnexpectedEof)
    } else if s[0] != 43u8 {
        Err(RespParseError::UnknownTypePrefix)
    } else if !has_crlf(s.drop_first()) {
        Err(RespParseError::UnexpectedEof)
    } else {
        let (line, rest) = split_line(s.drop_first());
        if valid_utf8(line) {
            Ok((decode_utf8(line), rest))
        } else {
            Err(RespParseError::InvalidElement)
        }
    }
}

/// Reads a bulk string: `$`, its length, that many raw bytes and a delimiter.
pub open spec fn parse_bulk(s: Seq<u8>) -> Result<(Seq<u8>, Seq<u8>), RespParseError> {
    if s.len() == 0 {
        Err(RespParseError::UnexpectedEof)
    } else if s[0] != 36u8 {
        Err(RespParseError::UnknownTypePrefix)
    } else {
        match parse_length(s.drop_first()) {
            Err(e) => Err(e),
            Ok((n, rest)) => if rest.len() < n {
                Err(RespParseError::UnexpectedEof)
            } else if !has_crlf(rest.skip(n as int)) {
                Err(RespParseError::UnexpectedEof)
            } else if split_line(rest.skip(n as int)).0.len() > 0 {
                Err(RespParseError::InvalidElement)
            } else {
                Ok((rest.take(n as int), split_line(rest.skip(n as int)).1))
            },
        }
    }
}

/// Reads an integer: `:`, an optional sign, and decimal digits.
pub open spec fn parse_integer(s: Seq<u8>) -> Result<(int, Seq<u8>), RespParseError> {
    if s.len() == 0 {
        Err(RespParseError::UnexpectedEof)
    } else if s[0] != 58u8 {
        Err(RespParseError::UnknownTypePrefix)
    } else if s.len() == 1 {
        Err(RespParseError::UnexpectedEof)
    } else {
        let negative = s[1] == 45u8;
        let body = if s[1] == 43u8 || s[1] == 45u8 { s.skip(2) } else { s.skip(1) };
        if !has_crlf(body) {
            Err(RespParseError::UnexpectedEof)
        } else {
            let (line, rest) = split_line(body);
            match decimal_value(line) {
                None => Err(RespParseError::InvalidElement),
                Some(m) => if negative && m <= isize::MAX + 1 {
                    Ok((-m, rest))
                } else if !negative && m <= isize::MAX {
                    Ok((m as int, rest))
                } else {
                    Err(RespParseError::InvalidElement)
                },
            }
        }
    }
}


impl RespElement {
    /// The value that this element stands for.
    pub open spec fn view(&self) -> RespValue
        decreases self,
    {
        match self {
            RespElement::Array(a) => RespValue::Array(views(a.elements@)),
            RespElement::SimpleString(s) => RespValue::SimpleString(s.value@),
            RespElement::BulkString(b) => RespValue::BulkString(b.value@),
            RespElement::Integer(i) => RespValue::Integer(i.value as int),
        }
    }

    /// Every declared length in the element equals the actual one.
    pub open spec fn wf(&self) -> bool
        decreases self,
    {
        match self {
            RespElement::Array(a) => a.length == a.elements@.len() && all_wf(a.elements@),
            RespElement::BulkString(b) => b.length == b.value@.len(),
            _ => true,
        }
    }
}

pub open spec fn views(s: Seq<RespElement>) -> Seq<RespValue>
    decreases s,
{
    if s.len() == 0 {
        Seq::empty()
    } else {
        seq![s[0].view()] + views(s.drop_first())
    }
}

pub open spec fn all_wf(s: Seq<RespElement>) -> bool
    decreases s,
{
    if s.len() == 0 {
        true
    } else {
        s[0].wf() && all_wf(s.drop_first())
    }
}

pub proof fn lemma_views(s: Seq<RespElement>)
    ensures
        views(s).len() == s.len(),
        forall|i: int| 0 <= i < s.len() ==> #[trigger] views(s)[i] == s[i].view(),
        all_wf(s) <==> forall|i: int| 0 <= i < s.len() ==> #[trigger] s[i].wf(),
    decreases s.len(),
{
    if s.len() > 0 {
        lemma_views(s.drop_first());
        assert forall|i: int| 0 <= i < s.len() implies #[trigger] views(s)[i] == s[i].view() by {
            if i > 0 {
                assert(s.drop_first()[i - 1] == s[i]);
            }
        }
        if forall|i: int| 0 <= i < s.len() ==> #[trigger] s[i].wf() {
            assert forall|i: int| 0 <= i < s.len() - 1 implies #[trigger] s.drop_first()[i].wf() by {
                assert(s.drop_first()[i] == s[i + 1]);
            }
            assert(s[0].wf());
            assert(all_wf(s.drop_first()));
        }
        if all_wf(s) {
            assert forall|i: int| 0 <= i < s.len() implies #[trigger] s[i].wf() by {
                if i > 0 {
                    assert(s.drop_first()[i - 1] == s[i]);
                }
            }
        }
    }
}

/// `done` put in front of the values that `r` read, or the error of `r`.
pub open spec fn prefixed(done: Seq<RespValue>, r: Result<(Seq<RespValue>, Seq<u8>), RespParseError>) -> Result<(Seq<RespValue>, Seq<u8>), RespParseError> {
    match r {
        Ok((vs, t)) => Ok((done + vs, t)),
        Err(e) => Err(e),
    }
}

/// Relies on String::from_utf8: it accepts exactly the valid UTF-8 byte
/// strings, and the string it gives holds the characters they encode.
#[verifier::external_body]
pub(crate) fn string_from_utf8(bytes: &[u8]) -> (r: Option<String>)
    ensures
        match r {
            Some(s) => valid_utf8(bytes@) && s@ == decode_utf8(bytes@),
            None => !valid_utf8(bytes@),
        },
{
    String::from_utf8(bytes.to_vec()).ok()
}

/// Relies on str::as_bytes: a string's bytes are the UTF-8 encoding of its
/// characters.
#[verifier::external_body]
pub(crate) fn utf8_bytes(s: &str) -> (r: &[u8])
    ensures
        r@ == encode_utf8(s@),
{
    s.as_bytes()
}

/// Appends `bytes` to `acc`.
fn push_all(acc: &mut Vec<u8>, bytes: &[u8])
    ensures
        final(acc)@ == old(acc)@ + bytes@,
{
    let n = bytes.len();
    let mut i: usize = 0;
    while i < n
        invariant
            n == bytes@.len(),
            i <= n,
            acc@ == old(acc)@ + bytes@.take(i as int),
        decreases n - i,
    {
        acc.push(bytes[i]);
        proof {
            assert(bytes@.take(i + 1) =~= bytes@.take(i as int).push(bytes@[i as int]));
        }
        i = i + 1;
    }
    assert(bytes@.take(n as int) =~= bytes@);
}

impl RespElement {
    /// An array element holding `elements`.
    pub fn new_array(elements: Vec<RespElement>) -> (r: RespElement)
        ensures
            r is Array,
            r->Array_0.length == elements@.len(),
            r->Array_0.elements@ == elements@,
    {
        RespElement::Array(RespArray::new(elements))
    }

    /// A bulk string element holding a copy of `value`.
    pub fn new_bulk_string(value: &[u8]) -> (r: RespElement)
        ensures
            r.wf(),
            r@ == RespValue::BulkString(value@),
    {
        RespElement::BulkString(RespBulkString::new(value))
    }

    /// Reads one element from the front of `slice`, dispatching on its type byte.
    pub fn parse(slice: &[u8]) -> (r: Result<(RespElement, &[u8]), RespParseError>)
        ensures
            match (r, parse_value(slice@)) {
                (Ok((e, rest)), Ok((v, tail))) => e.wf() && e@ == v && rest@ == tail
                    && rest@.len() < slice@.len(),
                (Err(e), Err(f)) => e == f,
                _ => false,
            },
        decreases slice@.len(), 1int,
    {
        if slice.len() == 0 {
            return Err(RespParseError::UnexpectedEof);
        }
        let b = slice[0];
        if b == 42u8 {
            match RespArray::parse(slice) {
                Ok((a, r)) => Ok((RespElement::Array(a), r)),
                Err(e) => Err(e),
            }
        } else if b == 43u8 {
            match RespSimpleString::parse(slice) {
                Ok((s, r)) => Ok((RespElement::SimpleString(s), r)),
                Err(e) => Err(e),
            }
        } else if b == 36u8 {
            match RespBulkString::parse(slice) {
                Ok((s, r)) => Ok((RespElement::BulkString(s), r)),
                Err(e) => Err(e),
            }
        } else if b == 58u8 {
            match RespInteger::parse(slice) {
                Ok((i, r)) => Ok((RespElement::Integer(i), r)),
                Err(e) => Err(e),
            }
        } else {
            Err(RespParseError::UnknownTypePrefix)
        }
    }
}

impl RespArray {
    /// The values of the elements.
    pub open spec fn view(&self) -> Seq<RespValue> {
        views(self.elements@)
    }

    /// Reads an array from the front of `slice`.
    pub fn parse(slice: &[u8]) -> (r: Result<(RespArray, &[u8]), RespParseError>)
        ensures
            match (r, parse_array(slice@)) {
                (Ok((a, rest)), Ok((vs, tail))) => a.length == a.elements@.len() && all_wf(
                    a.elements@,
                ) && a@ == vs && rest@ == tail && rest@.len() < slice@.len(),
                (Err(e), Err(f)) => e == f,
                _ => false,
            },
        decreases slice@.len(), 0int,
    {
        let n = slice.len();
        if n == 0 {
            return Err(RespParseError::UnexpectedEof);
        }
        if slice[0] != 42u8 {
            return Err(RespParseError::UnknownTypePrefix);
        }
        let packet = &slice[1..n];
        assert(packet@ == slice@.drop_first());
        let (length, mut remaining) = match get_length_of_current_element(packet) {
            Ok(x) => x,
            Err(e) => return Err(e),
        };
        let ghost start = remaining@;
        let mut elements: Vec<RespElement> = Vec::new();
        let mut i: usize = 0;
        proof {
            lemma_views(elements@);
            assert(views(elements@) + parse_values(start, length as nat)->Ok_0.0 =~= parse_values(start, length as nat)->Ok_0.0);
            assert(prefixed(views(elements@), parse_values(start, length as nat)) == parse_values(start, length as nat));
        }
        while i < length
            invariant
                i <= length,
                elements@.len() == i,
                all_wf(elements@),
                remaining@.len() <= start.len(),
                start.len() < slice@.len(),
                parse_array(slice@) == parse_values(start, length as nat),
                parse_values(start, length as nat) == prefixed(
                    views(elements@),
                    parse_values(remaining@, (length - i) as nat),
                ),
            decreases length - i,
        {
            let ghost before = elements@;
            match RespElement::parse(remaining) {
                Ok((e, next)) => {
                    proof {
                        lemma_views(before);
                        lemma_views(before.push(e));
                        assert(views(before.push(e)) =~= views(before) + seq![e@]);
                        let k = (length - i) as nat;
                        let later = parse_values(next@, (k - 1) as nat);
                        match later {
                            Ok((vs, t)) => {
                                assert(views(before) + (seq![e@] + vs) =~= views(before.push(e)) + vs);
                            },
                            Err(_) => {},
                        }
                        assert(all_wf(before.push(e)));
                    }
                    elements.push(e);
                    remaining = next;
                },
                Err(e) => {
                    return Err(e);
                },
            }
            i = i + 1;
        }
        proof {
            assert(views(elements@) + Seq::<RespValue>::empty() =~= views(elements@));
        }
        Ok((RespArray { length, elements }, remaining))
    }
}

impl RespSimpleString {
    /// Reads a simple string from the front of `slice`.
    pub fn parse(slice: &[u8]) -> (r: Result<(RespSimpleString, &[u8]), RespParseError>)
        ensures
            match (r, parse_simple(slice@)) {
                (Ok((s, rest)), Ok((t, tail))) => s.value@ == t && rest@ == tail && rest@.len()
                    < slice@.len(),
                (Err(e), Err(f)) => e == f,
                _ => false,
            },
    {
        let n = slice.len();
        if n == 0 {
            return Err(RespParseError::UnexpectedEof);
        }
        if slice[0] != 43u8 {
            return Err(RespParseError::UnknownTypePrefix);
        }
        let packet = &slice[1..n];
        assert(packet@ == slice@.drop_first());
        if find_crlf(packet).is_none() {
            return Err(RespParseError::UnexpectedEof);
        }
        let Some((data, rest)) = read_until_crlf(packet) else {
            return Err(RespParseError::InvalidElement);
        };
        match string_from_utf8(data) {
            Some(value) => Ok((RespSimpleString { value }, rest)),
            None => Err(RespParseError::InvalidElement),
        }
    }
}

impl RespBulkString {
    /// Reads a bulk string from the front of `slice`.
    pub fn parse(slice: &[u8]) -> (r: Result<(RespBulkString, &[u8]), RespParseError>)
        ensures
            match (r, parse_bulk(slice@)) {
                (Ok((b, rest)), Ok((v, tail))) => b.length == b.value@.len() && b.value@ == v
                    && rest@ == tail && rest@.len() < slice@.len(),
                (Err(e), Err(f)) => e == f,
                _ => false,
            },
    {
        let n = slice.len();
        if n == 0 {
            return Err(RespParseError::UnexpectedEof);
        }
        if slice[0] != 36u8 {
            return Err(RespParseError::UnknownTypePrefix);
        }
        let packet = &slice[1..n];
        assert(packet@ == slice@.drop_first());
        let (length, remaining) = match get_length_of_current_element(packet) {
            Ok(x) => x,
            Err(e) => return Err(e),
        };
        let m = remaining.len();
        if m < length {
            return Err(RespParseError::UnexpectedEof);
        }
        let buffer = vstd::slice::slice_to_vec(&remaining[0..length]);
        let tail = &remaining[length..m];
        assert(tail@ == remaining@.skip(length as int));
        if find_crlf(tail).is_none() {
            return Err(RespParseError::UnexpectedEof);
        }
        let Some((line, next)) = read_until_crlf(tail) else {
            return Err(RespParseError::InvalidElement);
        };
        if line.len() > 0 {
            return Err(RespParseError::InvalidElement);
        }
        Ok((RespBulkString { length, value: buffer }, next))
    }
}

impl RespInteger {
    /// Reads an integer from the front of `slice`.
    pub fn parse(slice: &[u8]) -> (r: Result<(RespInteger, &[u8]), RespParseError>)
        ensures
            match (r, parse_integer(slice@)) {
                (Ok((i, rest)), Ok((v, tail))) => i.value as int == v && rest@ == tail
                    && rest@.len() < slice@.len(),
                (Err(e), Err(f)) => e == f,
                _ => false,
            },
    {
        let n = slice.len();
        if n == 0 {
            return Err(RespParseError::UnexpectedEof);
        }
        if slice[0] != 58u8 {
            return Err(RespParseError::UnknownTypePrefix);
        }
        if n == 1 {
            return Err(RespParseError::UnexpectedEof);
        }
        let negative = slice[1] == 45u8;
        let start: usize = if slice[1] == 43u8 || slice[1] == 45u8 { 2 } else { 1 };
        let body = &slice[start..n];
        assert(body@ == slice@.skip(start as int));
        if find_crlf(body).is_none() {
            return Err(RespParseError::UnexpectedEof);
        }
        let Some((data, rest)) = read_until_crlf(body) else {
            return Err(RespParseError::InvalidElement);
        };
        let Some(m) = parse_decimal(data) else {
            return Err(RespParseError::InvalidElement);
        };
        let top = isize::MAX as usize;
        let value: isize = if negative {
            if m <= top {
                -(m as isize)
            } else if m - 1 == top {
                isize::MIN
            } else {
                return Err(RespParseError::InvalidElement);
            }
        } else {
            if m <= top {
                m as isize
            } else {
                return Err(RespParseError::InvalidElement);
            }
        };
        Ok((RespInteger { value }, rest))
    }
}

/// Encoding a sequence in two parts encodes each part in turn.
pub proof fn lemma_serialize_all_append(a: Seq<RespValue>, b: Seq<RespValue>)
    ensures
        serialize_all(a + b) == serialize_all(a) + serialize_all(b),
    decreases a.len(),
{
    if a.len() == 0 {
        assert(a + b =~= b);
        assert(serialize_all(a) + serialize_all(b) =~= serialize_all(b));
    } else {
        lemma_serialize_all_append(a.drop_first(), b);
        assert((a + b).drop_first() =~= a.drop_first() + b);
        assert((a + b)[0] == a[0]);
        assert(serialize_all(a + b) =~= serialize_all(a) + serialize_all(b));
    }
}

proof fn lemma_serialize_all_push(vs: Seq<RespValue>, i: int)
    requires
        0 <= i < vs.len(),
    ensures
        serialize_all(vs.take(i + 1)) == serialize_all(vs.take(i)) + serialize(vs[i]),
{
    assert(vs.take(i + 1) =~= vs.take(i) + seq![vs[i]]);
    lemma_serialize_all_append(vs.take(i), seq![vs[i]]);
    assert(seq![vs[i]].drop_first() =~= Seq::<RespValue>::empty());
    assert(serialize_all(Seq::<RespValue>::empty()) =~= Seq::<u8>::empty());
    assert(seq![vs[i]][0] == vs[i]);
    assert(serialize(vs[i]) + Seq::<u8>::empty() =~= serialize(vs[i]));
    assert(serialize_all(seq![vs[i]]) =~= serialize(vs[i]));
}

/// Appends the delimiter to `acc`.
fn push_crlf(acc: &mut Vec<u8>)
    ensures
        final(acc)@ == old(acc)@ + crlf(),
{
    acc.push(13u8);
    acc.push(10u8);
    assert(final(acc)@ =~= old(acc)@ + crlf());
}

impl RespElement {
    /// The wire encoding of this element.
    pub fn encode(&self) -> (r: Vec<u8>)
        requires
            self.wf(),
        ensures
            r@ == serialize(self@),
        decreases self, 1int,
    {
        match self {
            RespElement::Array(a) => a.encode(),
            RespElement::SimpleString(s) => s.encode(),
            RespElement::BulkString(b) => b.encode(),
            RespElement::Integer(i) => i.encode(),
        }
    }
}

impl RespArray {
    /// The wire encoding of this array.
    pub fn encode(&self) -> (r: Vec<u8>)
        requires
            self.length == self.elements@.len(),
            all_wf(self.elements@),
        ensures
            r@ == serialize(RespValue::Array(self@)),
        decreases self, 0int,
    {
        proof {
            lemma_views(self.elements@);
        }
        let mut acc: Vec<u8> = Vec::new();
        acc.push(42u8);
        let digits = write_decimal(self.length);
        push_all(&mut acc, digits.as_slice());
        push_crlf(&mut acc);
        let ghost header = acc@;
        let ghost vs = self@;
        let n = self.elements.len();
        let mut i: usize = 0;
        assert(vs.take(0) =~= Seq::<RespValue>::empty());
        while i < n
            invariant
                n == self.elements@.len(),
                i <= n,
                vs == views(self.elements@),
                vs.len() == n,
                all_wf(self.elements@),
                forall|k: int| 0 <= k < n ==> #[trigger] vs[k] == self.elements@[k].view(),
                forall|k: int| 0 <= k < n ==> #[trigger] self.elements@[k].wf(),
                acc@ == header + serialize_all(vs.take(i as int)),
            decreases n - i,
        {
            proof {
                assert(decreases_to!(self => self.elements));
                assert(decreases_to!(self.elements => self.elements@));
                assert(decreases_to!(self.elements@ => self.elements@[i as int]));
            }
            let bytes = self.elements[i].encode();
            push_all(&mut acc, bytes.as_slice());
            proof {
                lemma_serialize_all_push(vs, i as int);
            }
            i = i + 1;
        }
        assert(vs.take(n as int) =~= vs);
        assert(acc@ =~= serialize(RespValue::Array(self@)));
        acc
    }
}

impl RespSimpleString {
    /// The wire encoding of this simple string.
    pub fn encode(&self) -> (r: Vec<u8>)
        ensures
            r@ == serialize(RespValue::SimpleString(self.value@)),
    {
        let mut acc: Vec<u8> = Vec::new();
        acc.push(43u8);
        push_all(&mut acc, utf8_bytes(self.value.as_str()));
        push_crlf(&mut acc);
        assert(acc@ =~= serialize(RespValue::SimpleString(self.value@)));
        acc
    }
}

impl RespBulkString {
    /// The wire encoding of this bulk string.
    pub fn encode(&self) -> (r: Vec<u8>)
        requires
            self.length == self.value@.len(),
        ensures
            r@ == serialize(RespValue::BulkString(self.value@)),
    {
        let mut acc: Vec<u8> = Vec::new();
        acc.push(36u8);
        let digits = write_decimal(self.length);
        push_all(&mut acc, digits.as_slice());
        push_crlf(&mut acc);
        push_all(&mut acc, self.value.as_slice());
        push_crlf(&mut acc);
        assert(acc@ =~= serialize(RespValue::BulkString(self.value@)));
        acc
    }
}

impl RespInteger {
    /// The wire encoding of this integer.
    pub fn encode(&self) -> (r: Vec<u8>)
        ensures
            r@ == serialize(RespValue::Integer(self.value as int)),
    {
        let mut acc: Vec<u8> = Vec::new();
        acc.push(58u8);
        if self.value < 0 {
            acc.push(45u8);
            let magnitude: usize = if self.value == isize::MIN {
                (isize::MAX as usize) + 1
            } else {
                (-self.value) as usize
            };
            let digits = write_decimal(magnitude);
            push_all(&mut acc, digits.as_slice());
        } else {
            let digits = write_decimal(self.value as usize);
            push_all(&mut acc, digits.as_slice());
        }
        push_crlf(&mut acc);
        assert(acc@ =~= serialize(RespValue::Integer(self.value as int)));
        acc
    }
}

impl RespSerialize for RespElement {
    open spec fn well_formed(&self) -> bool {
        self.wf()
    }

    open spec fn encoding(&self) -> Seq<u8> {
        serialize(self@)
    }

    fn to_bytes(&self) -> (r: Vec<u8>) {
        self.encode()
    }
}

impl RespSerialize for RespArray {
    open spec fn well_formed(&self) -> bool {
        self.length == self.elements@.len() && all_wf(self.elements@)
    }

    open spec fn encoding(&self) -> Seq<u8> {
        serialize(RespValue::Array(self@))
    }

    fn to_bytes(&self) -> (r: Vec<u8>) {
        self.encode()
    }
}

impl RespSerialize for RespBulkString {
    open spec fn well_formed(&self) -> bool {
        self.length == self.value@.len()
    }

    open spec fn encoding(&self) -> Seq<u8> {
        serialize(RespValue::BulkString(self.value@))
    }

    fn to_bytes(&self) -> (r: Vec<u8>) {
        self.encode()
    }
}

impl RespSerialize for RespSimpleString {
    open spec fn well_formed(&self) -> bool {
        true
    }

    open spec fn encoding(&self) -> Seq<u8> {
        serialize(RespValue::SimpleString(self.value@))
    }

    fn to_bytes(&self) -> (r: Vec<u8>) {
        self.encode()
    }
}

impl RespSerialize for RespInteger {
    open spec fn well_formed(&self) -> bool {
        true
    }

    open spec fn encoding(&self) -> Seq<u8> {
        serialize(RespValue::Integer(self.value as int))
    }

    fn to_bytes(&self) -> (r: Vec<u8>) {
        self.encode()
    }
}

impl RespElementConstructor for RespElement {
    open spec fn parses_to(input: Seq<u8>, r: Result<(Self, Seq<u8>), RespParseError>) -> bool {
        match (r, parse_value(input)) {
            (Ok((e, rest)), Ok((v, tail))) => e.wf() && e@ == v && rest == tail,
            (Err(e), Err(f)) => e == f,
            _ => false,
        }
    }

    fn from_byte_slice(slice: &[u8]) -> (r: Result<(Self, &[u8]), RespParseError>) {
        RespElement::parse(slice)
    }
}

impl RespElementConstructor for RespArray {
    open spec fn parses_to(input: Seq<u8>, r: Result<(Self, Seq<u8>), RespParseError>) -> bool {
        match (r, parse_array(input)) {
            (Ok((a, rest)), Ok((vs, tail))) => a.well_formed() && a@ == vs && rest == tail,
            (Err(e), Err(f)) => e == f,
            _ => false,
        }
    }

    fn from_byte_slice(slice: &[u8]) -> (r: Result<(Self, &[u8]), RespParseError>) {
        RespArray::parse(slice)
    }
}

impl RespElementConstructor for RespBulkString {
    open spec fn parses_to(input: Seq<u8>, r: Result<(Self, Seq<u8>), RespParseError>) -> bool {
        match (r, parse_bulk(input)) {
            (Ok((b, rest)), Ok((v, tail))) => b.well_formed() && b.value@ == v && rest == tail,
            (Err(e), Err(f)) => e == f,
            _ => false,
        }
    }

    fn from_byte_slice(slice: &[u8]) -> (r: Result<(Self, &[u8]), RespParseError>) {
        RespBulkString::parse(slice)
    }
}

impl RespElementConstructor for RespSimpleString {
    open spec fn parses_to(input: Seq<u8>, r: Result<(Self, Seq<u8>), RespParseError>) -> bool {
        match (r, parse_simple(input)) {
            (Ok((s, rest)), Ok((t, tail))) => s.value@ == t && rest == tail,
            (Err(e), Err(f)) => e == f,
            _ => false,
        }
    }

    fn from_byte_slice(slice: &[u8]) -> (r: Result<(Self, &[u8]), RespParseError>) {
        RespSimpleString::parse(slice)
    }
}

impl RespElementConstructor for RespInteger {
    open spec fn parses_to(input: Seq<u8>, r: Result<(Self, Seq<u8>), RespParseError>) -> bool {
        match (r, parse_integer(input)) {
            (Ok((i, rest)), Ok((v, tail))) => i.value as int == v && rest == tail,
            (Err(e), Err(f)) => e == f,
            _ => false,
        }
    }

    fn from_byte_slice(slice: &[u8]) -> (r: Result<(Self, &[u8]), RespParseError>) {
        RespInteger::parse(slice)
    }
}

} // verus!
