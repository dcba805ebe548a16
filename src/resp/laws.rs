use vstd::prelude::*;
use vstd::utf8::{encode_utf8, encode_utf8_decode_utf8, encode_utf8_valid_utf8};

use crate::resp::parser::{
    has_crlf, is_crlf_at, RespParseError,
    decimal, decimal_value, is_digit, lemma_decimal, lemma_split_line_append, parse_length,
};
use crate::resp::{
    all_encodable, crlf, encodable, parse_value, parse_values, serialize,
    serialize_all, RespElement, RespValue,
};

verus! {

proof fn lemma_length_line(n: nat, rest: Seq<u8>)
    requires
        0 < n <= usize::MAX,
    ensures
        parse_length(decimal(n) + crlf() + rest) == Ok::<(nat, Seq<u8>), RespParseError>((n, rest)),
{
    lemma_decimal(n);
    lemma_split_line_append(decimal(n), rest);
    assert(decimal_value(decimal(n)) == Some(n));
}

/// Reading the encoding of an encodable value, followed by any bytes, gives
/// back the value and exactly those bytes.
pub proof fn lemma_parse_serialize(v: RespValue, tail: Seq<u8>)
    requires
        encodable(v),
    ensures
        parse_value(serialize(v) + tail) == Ok::<(RespValue, Seq<u8>), RespParseError>((v, tail)),
    decreases v,
{
    let s = serialize(v) + tail;
    match v {
        RespValue::Array(vs) => {
            let body = serialize_all(vs) + tail;
            assert(s.drop_first() =~= decimal(vs.len()) + crlf() + body);
            lemma_length_line(vs.len(), body);
            lemma_parse_serialize_all(vs, tail);
        },
        RespValue::SimpleString(t) => {
            encode_utf8_valid_utf8(t);
            encode_utf8_decode_utf8(t);
            assert(s.drop_first() =~= encode_utf8(t) + crlf() + tail);
            lemma_split_line_append(encode_utf8(t), tail);
        },
        RespValue::BulkString(b) => {
            let rest = b + crlf() + tail;
            assert(s.drop_first() =~= decimal(b.len()) + crlf() + rest);
            lemma_length_line(b.len(), rest);
            assert(rest.skip(b.len() as int) =~= Seq::<u8>::empty() + crlf() + tail);
            lemma_split_line_append(Seq::<u8>::empty(), tail);
            assert(!has_crlf(Seq::<u8>::empty()));
            assert(rest.take(b.len() as int) =~= b);
        },
        RespValue::Integer(i) => {
            if i < 0 {
                let m = (-i) as nat;
                lemma_decimal(m);
                assert(s.skip(2) =~= decimal(m) + crlf() + tail);
                lemma_split_line_append(decimal(m), tail);
                assert(decimal_value(decimal(m)) == Some(m));
            } else {
                let m = i as nat;
                lemma_decimal(m);
                assert(s[1] == decimal(m)[0]);
                assert(is_digit(decimal(m)[0]));
                assert(s.skip(1) =~= decimal(m) + crlf() + tail);
                lemma_split_line_append(decimal(m), tail);
                assert(decimal_value(decimal(m)) == Some(m));
            }
        },
    }
}

/// Reading the encodings of a sequence of encodable values, one after the
/// other, gives back the sequence and the bytes after it.
pub proof fn lemma_parse_serialize_all(vs: Seq<RespValue>, tail: Seq<u8>)
    requires
        all_encodable(vs),
    ensures
        parse_values(serialize_all(vs) + tail, vs.len()) == Ok::<(Seq<RespValue>, Seq<u8>), RespParseError>(
            (vs, tail),
        ),
    decreases vs,
{
    if vs.len() > 0 {
        let rest = serialize_all(vs.drop_first()) + tail;
        assert(serialize_all(vs) + tail =~= serialize(vs[0]) + rest);
        lemma_parse_serialize(vs[0], rest);
        lemma_serialize_nonempty(vs[0]);
        lemma_parse_serialize_all(vs.drop_first(), tail);
        assert(seq![vs[0]] + vs.drop_first() =~= vs);
    } else {
        assert(serialize_all(vs) + tail =~= tail);
        assert(vs =~= Seq::<RespValue>::empty());
    }
}

proof fn lemma_serialize_nonempty(v: RespValue)
    ensures
        serialize(v).len() > 0,
{
    assert(serialize(v)[0] == serialize(v)[0]);
}

/// Encoding a well-formed element whose value the codec can carry, and
/// reading the bytes back, gives the same value and nothing left over.
pub proof fn lemma_round_trip(e: RespElement)
    requires
        e.wf(),
        encodable(e@),
    ensures
        parse_value(serialize(e@)) == Ok::<(RespValue, Seq<u8>), RespParseError>((e@, Seq::empty())),
{
    lemma_parse_serialize(e@, Seq::empty());
    assert(serialize(e@) + Seq::<u8>::empty() =~= serialize(e@));
}

proof fn lemma_no_crlf_before_cr(a: Seq<u8>)
    requires
        !has_crlf(a),
    ensures
        !has_crlf(a.push(13u8)),
{
    let s = a.push(13u8);
    if has_crlf(s) {
        let i = choose|i: int| is_crlf_at(s, i);
        assert(is_crlf_at(a, i));
    }
}

/// Reading the encoding of an encodable value with its final byte removed
/// fails: no element is made up from a cut-off frame.
pub proof fn lemma_parse_truncated(v: RespValue)
    requires
        encodable(v),
    ensures
        parse_value(serialize(v).drop_last()) is Err,
    decreases v,
{
    let s = serialize(v).drop_last();
    match v {
        RespValue::Array(vs) => {
            let body = serialize_all(vs).drop_last();
            lemma_serialize_all_nonempty(vs);
            assert(s.drop_first() =~= decimal(vs.len()) + crlf() + body);
            lemma_length_line(vs.len(), body);
            lemma_parse_truncated_all(vs);
        },
        RespValue::SimpleString(t) => {
            assert(s.drop_first() =~= encode_utf8(t).push(13u8));
            lemma_no_crlf_before_cr(encode_utf8(t));
        },
        RespValue::BulkString(b) => {
            let rest = b.push(13u8);
            assert(s.drop_first() =~= decimal(b.len()) + crlf() + rest);
            lemma_length_line(b.len(), rest);
            assert(rest.skip(b.len() as int) =~= seq![13u8]);
            lemma_no_crlf_before_cr(Seq::<u8>::empty());
            assert(Seq::<u8>::empty().push(13u8) =~= seq![13u8]);
        },
        RespValue::Integer(i) => {
            if i < 0 {
                let m = (-i) as nat;
                lemma_decimal(m);
                assert(s.skip(2) =~= decimal(m).push(13u8));
                lemma_no_crlf_before_cr(decimal(m));
            } else {
                let m = i as nat;
                lemma_decimal(m);
                assert(s[1] == decimal(m)[0]);
                assert(is_digit(decimal(m)[0]));
                assert(s.skip(1) =~= decimal(m).push(13u8));
                lemma_no_crlf_before_cr(decimal(m));
            }
        },
    }
}

proof fn lemma_serialize_all_nonempty(vs: Seq<RespValue>)
    requires
        vs.len() > 0,
    ensures
        serialize_all(vs).len() > 0,
{
    lemma_serialize_nonempty(vs[0]);
}

proof fn lemma_parse_truncated_all(vs: Seq<RespValue>)
    requires
        vs.len() > 0,
        all_encodable(vs),
    ensures
        parse_values(serialize_all(vs).drop_last(), vs.len()) is Err,
    decreases vs,
{
    let rest = vs.drop_first();
    if rest.len() == 0 {
        assert(serialize_all(rest) =~= Seq::<u8>::empty());
        assert(serialize_all(vs).drop_last() =~= serialize(vs[0]).drop_last());
        lemma_parse_truncated(vs[0]);
    } else {
        let tail = serialize_all(rest).drop_last();
        lemma_serialize_all_nonempty(rest);
        assert(serialize_all(vs).drop_last() =~= serialize(vs[0]) + tail);
        lemma_parse_serialize(vs[0], tail);
        lemma_serialize_nonempty(vs[0]);
        lemma_parse_truncated_all(rest);
    }
}

/// A well-formed element whose value the codec can carry, encoded and cut
/// short by its final byte, does not read back as any element.
pub proof fn lemma_truncated_frame_rejected(e: RespElement)
    requires
        e.wf(),
        encodable(e@),
    ensures
        parse_value(serialize(e@).drop_last()) is Err,
{
    lemma_parse_truncated(e@);
}

} // verus!
