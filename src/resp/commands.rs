use vstd::prelude::*;
use vstd::string::StrSliceExecFns;
use vstd::utf8::{decode_utf8, encode_utf8, valid_utf8};

use crate::resp::types::RespArray;
use crate::resp::{
    parse_value, string_from_utf8, utf8_bytes, lemma_views, RespElement, RespValue,
};

verus! {

/// ECHO: reply with the given text.
#[derive(Debug)]
pub struct RespEchoCommand {
    pub value: String,
}

/// GET: look a key up.
#[derive(Debug)]
pub struct RespGetCommand {
    pub key: String,
}

/// SET: store a value under a key, with an optional time to live in whole
/// seconds.
#[derive(Debug)]
pub struct RespSetCommand {
    pub key: String,
    pub value: Vec<u8>,
    pub ttl: Option<u64>,
}

/// A request the server understands.
#[derive(Debug)]
pub enum RespCommand {
    Ping,
    Echo(RespEchoCommand),
    SetKey(RespSetCommand),
    Get(RespGetCommand),
}

/// Why a request could not be turned into a command.
#[derive(Debug, Clone, Copy, PartialEq, Eq, Structural)]
pub enum RespCommandError {
    UnknownCommand,
    InvalidArgument,
    ParsingError,
}

/// The mathematical value of a command.
pub enum Command {
    Ping,
    Echo(Seq<char>),
    Get(Seq<char>),
    SetKey(Seq<char>, Seq<u8>, Option<u64>),
}

impl RespCommand {
    pub open spec fn view(&self) -> Command {
        match self {
            RespCommand::Ping => Command::Ping,
            RespCommand::Echo(e) => Command::Echo(e.value@),
            RespCommand::Get(g) => Command::Get(g.key@),
            RespCommand::SetKey(s) => Command::SetKey(s.key@, s.value@, s.ttl),
        }
    }
}

/// Builds a command from the elements of a request array.
pub trait RespCommandConstructor: Sized {
    /// `r` is what building this command from an array of `declared`
    /// elements with values `elements` gives.
    spec fn built_from(declared: nat, elements: Seq<RespValue>, r: Result<Self, RespCommandError>) -> bool;

    fn from_array(input: &RespArray) -> (r: Result<Self, RespCommandError>)
        requires
            input.length == input.elements@.len(),
        ensures
            Self::built_from(input.length as nat, input@, r),
    ;
}

pub open spec fn is_ascii_alpha(b: u8) -> bool {
    (65u8 <= b <= 90u8) || (97u8 <= b <= 122u8)
}

pub open spec fn ascii_lower(b: u8) -> u8 {
    if 65u8 <= b <= 90u8 {
        (b + 32) as u8
    } else {
        b
    }
}

pub open spec fn lowered(s: Seq<u8>) -> Seq<u8> {
    s.map_values(|b: u8| ascii_lower(b))
}

pub open spec fn word_ping() -> Seq<u8> {
    seq![112u8, 105u8, 110u8, 103u8]
}

pub open spec fn word_echo() -> Seq<u8> {
    seq![101u8, 99u8, 104u8, 111u8]
}

pub open spec fn word_set() -> Seq<u8> {
    seq![115u8, 101u8, 116u8]
}

pub open spec fn word_get() -> Seq<u8> {
    seq![103u8, 101u8, 116u8]
}

/// The text of an argument: a simple string's, or a bulk string's bytes
/// read as UTF-8.
pub open spec fn text_of(v: RespValue) -> Result<Seq<char>, RespCommandError> {
    match v {
        RespValue::SimpleString(t) => Ok(t),
        RespValue::BulkString(b) => if valid_utf8(b) {
            Ok(decode_utf8(b))
        } else {
            Err(RespCommandError::ParsingError)
        },
        _ => Err(RespCommandError::InvalidArgument),
    }
}

/// The raw bytes of an argument.
pub open spec fn bytes_of(v: RespValue) -> Result<Seq<u8>, RespCommandError> {
    match v {
        RespValue::SimpleString(t) => Ok(encode_utf8(t)),
        RespValue::BulkString(b) => Ok(b),
        _ => Err(RespCommandError::InvalidArgument),
    }
}

/// A time to live in seconds: a positive integer no larger than `i32::MAX`.
pub open spec fn ttl_of(v: RespValue) -> Result<u64, RespCommandError> {
    match v {
        RespValue::Integer(i) => if 0 < i <= i32::MAX {
            Ok(i as u64)
        } else {
            Err(RespCommandError::InvalidArgument)
        },
        _ => Err(RespCommandError::InvalidArgument),
    }
}

pub open spec fn all_alpha(b: Seq<u8>) -> bool {
    forall|i: int| 0 <= i < b.len() ==> is_ascii_alpha(#[trigger] b[i])
}

/// The command name of a request, lowered: ASCII letters only.
pub open spec fn name_of(v: RespValue) -> Result<Seq<u8>, RespCommandError> {
    match v {
        RespValue::SimpleString(t) => if all_alpha(encode_utf8(t)) {
            Ok(lowered(encode_utf8(t)))
        } else {
            Err(RespCommandError::ParsingError)
        },
        RespValue::BulkString(b) => if all_alpha(b) {
            Ok(lowered(b))
        } else {
            Err(RespCommandError::ParsingError)
        },
        _ => Err(RespCommandError::InvalidArgument),
    }
}

pub open spec fn echo_from(vs: Seq<RespValue>) -> Result<Seq<char>, RespCommandError> {
    if vs.len() < 2 {
        Err(RespCommandError::ParsingError)
    } else {
        text_of(vs[1])
    }
}

pub open spec fn get_from(vs: Seq<RespValue>) -> Result<Seq<char>, RespCommandError> {
    if vs.len() < 2 {
        Err(RespCommandError::InvalidArgument)
    } else {
        text_of(vs[1])
    }
}

/// SET key value [EX seconds]: the key, the value and the time to live.
pub open spec fn set_from(declared: nat, vs: Seq<RespValue>) -> Result<(Seq<char>, Seq<u8>, Option<u64>), RespCommandError> {
    if declared < 3 || vs.len() < 3 {
        Err(RespCommandError::InvalidArgument)
    } else {
        match text_of(vs[1]) {
            Err(e) => Err(e),
            Ok(k) => match bytes_of(vs[2]) {
                Err(e) => Err(e),
                Ok(val) => if vs.len() < 5 {
                    Ok((k, val, None))
                } else {
                    match text_of(vs[3]) {
                        Err(e) => Err(e),
                        Ok(name) => if name == seq!['E', 'X'] {
                            match ttl_of(vs[4]) {
                                Ok(t) => Ok((k, val, Some(t))),
                                Err(e) => Err(e),
                            }
                        } else {
                            Err(RespCommandError::InvalidArgument)
                        },
                    }
                },
            },
        }
    }
}

/// The command that a request array names.
pub open spec fn command_from(declared: nat, vs: Seq<RespValue>) -> Result<Command, RespCommandError> {
    if vs.len() == 0 {
        Err(RespCommandError::ParsingError)
    } else {
        match name_of(vs[0]) {
            Err(e) => Err(e),
            Ok(w) => if w == word_ping() {
                Ok(Command::Ping)
            } else if w == word_echo() {
                match echo_from(vs) {
                    Ok(t) => Ok(Command::Echo(t)),
                    Err(e) => Err(e),
                }
            } else if w == word_set() {
                match set_from(declared, vs) {
                    Ok((k, val, ttl)) => Ok(Command::SetKey(k, val, ttl)),
                    Err(e) => Err(e),
                }
            } else if w == word_get() {
                match get_from(vs) {
                    Ok(k) => Ok(Command::Get(k)),
                    Err(e) => Err(e),
                }
            } else {
                Err(RespCommandError::UnknownCommand)
            },
        }
    }
}

/// The command that a raw request names: an array naming a command, or the
/// bare simple string "ping" in any case.
pub open spec fn command_from_input(packet: Seq<u8>) -> Result<Command, RespCommandError> {
    match parse_value(packet) {
        Err(_) => Err(RespCommandError::ParsingError),
        Ok((RespValue::Array(vs), _)) => command_from(vs.len(), vs),
        Ok((RespValue::SimpleString(t), _)) => if lowered(encode_utf8(t)) == word_ping() {
            Ok(Command::Ping)
        } else {
            Err(RespCommandError::UnknownCommand)
        },
        Ok(_) => Err(RespCommandError::ParsingError),
    }
}

/// `a` lowered equals the word `w`.
fn lowered_is(a: &Vec<u8>, w: &[u8]) -> (r: bool)
    ensures
        r == (a@ == w@),
{
    if a.len() != w.len() {
        return false;
    }
    let n = a.len();
    let mut i: usize = 0;
    while i < n
        invariant
            n == a@.len(),
            n == w@.len(),
            i <= n,
            forall|k: int| 0 <= k < i ==> a@[k] == w@[k],
        decreases n - i,
    {
        if a[i] != w[i] {
            return false;
        }
        i = i + 1;
    }
    assert(a@ =~= w@);
    true
}

/// Lowers the ASCII capitals of `bytes`.
fn lower_ascii(bytes: &[u8]) -> (r: Vec<u8>)
    ensures
        r@ == lowered(bytes@),
{
    let n = bytes.len();
    let mut out: Vec<u8> = Vec::new();
    let mut i: usize = 0;
    while i < n
        invariant
            n == bytes@.len(),
            i <= n,
            out@ == lowered(bytes@.take(i as int)),
        decreases n - i,
    {
        let b = bytes[i];
        let l = if 65u8 <= b && b <= 90u8 { b + 32 } else { b };
        out.push(l);
        proof {
            assert(lowered(bytes@.take(i + 1)) =~= lowered(bytes@.take(i as int)).push(l));
        }
        i = i + 1;
    }
    assert(bytes@.take(n as int) =~= bytes@);
    out
}

/// The lowered command name in `bytes`, which must be ASCII letters only.
fn get_command_name(bytes: &[u8]) -> (r: Result<Vec<u8>, RespCommandError>)
    ensures
        match r {
            Ok(w) => all_alpha(bytes@) && w@ == lowered(bytes@),
            Err(e) => e == RespCommandError::ParsingError && !all_alpha(bytes@),
        },
{
    let n = bytes.len();
    let mut i: usize = 0;
    while i < n
        invariant
            n == bytes@.len(),
            i <= n,
            forall|k: int| 0 <= k < i ==> is_ascii_alpha(#[trigger] bytes@[k]),
        decreases n - i,
    {
        let b = bytes[i];
        if !((65u8 <= b && b <= 90u8) || (97u8 <= b && b <= 122u8)) {
            assert(!is_ascii_alpha(bytes@[i as int]));
            return Err(RespCommandError::ParsingError);
        }
        i = i + 1;
    }
    Ok(lower_ascii(bytes))
}

/// The text of an argument element.
fn text_arg(e: &RespElement) -> (r: Result<String, RespCommandError>)
    ensures
        match (r, text_of(e@)) {
            (Ok(s), Ok(t)) => s@ == t,
            (Err(a), Err(b)) => a == b,
            _ => false,
        },
{
    match e {
        RespElement::SimpleString(s) => Ok(s.value.clone()),
        RespElement::BulkString(b) => match string_from_utf8(b.value.as_slice()) {
            Some(t) => Ok(t),
            None => Err(RespCommandError::ParsingError),
        },
        _ => Err(RespCommandError::InvalidArgument),
    }
}

/// The raw bytes of an argument element.
fn bytes_arg(e: &RespElement) -> (r: Result<Vec<u8>, RespCommandError>)
    ensures
        match (r, bytes_of(e@)) {
            (Ok(s), Ok(t)) => s@ == t,
            (Err(a), Err(b)) => a == b,
            _ => false,
        },
{
    match e {
        RespElement::SimpleString(s) => Ok(vstd::slice::slice_to_vec(utf8_bytes(s.value.as_str()))),
        RespElement::BulkString(b) => Ok(vstd::slice::slice_to_vec(b.value.as_slice())),
        _ => Err(RespCommandError::InvalidArgument),
    }
}

/// The time to live, in seconds, that an EX option's value gives.
fn get_ttl_in_secs(element: &RespElement) -> (r: Result<Option<u64>, RespCommandError>)
    ensures
        match (r, ttl_of(element@)) {
            (Ok(Some(s)), Ok(t)) => s == t,
            (Err(a), Err(b)) => a == b,
            _ => false,
        },
{
    match element {
        RespElement::Integer(i) => {
            if i.value > 0 && i.value <= i32::MAX as isize {
                Ok(Some(i.value as u64))
            } else {
                Err(RespCommandError::InvalidArgument)
            }
        },
        _ => Err(RespCommandError::InvalidArgument),
    }
}

impl RespCommandConstructor for RespEchoCommand {
    open spec fn built_from(declared: nat, elements: Seq<RespValue>, r: Result<Self, RespCommandError>) -> bool {
        match (r, echo_from(elements)) {
            (Ok(c), Ok(t)) => c.value@ == t,
            (Err(a), Err(b)) => a == b,
            _ => false,
        }
    }

    fn from_array(input: &RespArray) -> (r: Result<RespEchoCommand, RespCommandError>) {
        proof {
            lemma_views(input.elements@);
        }
        if input.elements.len() < 2 {
            return Err(RespCommandError::ParsingError);
        }
        match text_arg(&input.elements[1]) {
            Ok(value) => Ok(RespEchoCommand { value }),
            Err(e) => Err(e),
        }
    }
}

impl RespCommandConstructor for RespGetCommand {
    open spec fn built_from(declared: nat, elements: Seq<RespValue>, r: Result<Self, RespCommandError>) -> bool {
        match (r, get_from(elements)) {
            (Ok(c), Ok(t)) => c.key@ == t,
            (Err(a), Err(b)) => a == b,
            _ => false,
        }
    }

    fn from_array(input: &RespArray) -> (r: Result<RespGetCommand, RespCommandError>) {
        proof {
            lemma_views(input.elements@);
        }
        if input.elements.len() < 2 {
            return Err(RespCommandError::InvalidArgument);
        }
        match text_arg(&input.elements[1]) {
            Ok(key) => Ok(RespGetCommand { key }),
            Err(e) => Err(e),
        }
    }
}

impl RespCommandConstructor for RespSetCommand {
    open spec fn built_from(declared: nat, elements: Seq<RespValue>, r: Result<Self, RespCommandError>) -> bool {
        match (r, set_from(declared, elements)) {
            (Ok(c), Ok((k, v, t))) => c.key@ == k && c.value@ == v && c.ttl == t,
            (Err(a), Err(b)) => a == b,
            _ => false,
        }
    }

    fn from_array(input: &RespArray) -> (r: Result<RespSetCommand, RespCommandError>) {
        proof {
            lemma_views(input.elements@);
        }
        let n = input.elements.len();
        if input.length < 3 || n < 3 {
            return Err(RespCommandError::InvalidArgument);
        }
        let key = match text_arg(&input.elements[1]) {
            Ok(k) => k,
            Err(e) => return Err(e),
        };
        let value = match bytes_arg(&input.elements[2]) {
            Ok(v) => v,
            Err(e) => return Err(e),
        };
        let ttl = if n >= 5 {
            let option_name = match text_arg(&input.elements[3]) {
                Ok(o) => o,
                Err(e) => return Err(e),
            };
            let name = option_name.as_str();
            if name.unicode_len() == 2 && name.get_char(0) == 'E' && name.get_char(1) == 'X' {
                assert(name@ =~= seq!['E', 'X']);
                match get_ttl_in_secs(&input.elements[4]) {
                    Ok(t) => t,
                    Err(e) => return Err(e),
                }
            } else {
                return Err(RespCommandError::InvalidArgument);
            }
        } else {
            None
        };
        Ok(RespSetCommand { key, value, ttl })
    }
}

impl RespCommandConstructor for RespCommand {
    open spec fn built_from(declared: nat, elements: Seq<RespValue>, r: Result<Self, RespCommandError>) -> bool {
        match (r, command_from(declared, elements)) {
            (Ok(c), Ok(m)) => c@ == m,
            (Err(a), Err(b)) => a == b,
            _ => false,
        }
    }

    fn from_array(input: &RespArray) -> (r: Result<RespCommand, RespCommandError>) {
        proof {
            lemma_views(input.elements@);
        }
        if input.elements.len() == 0 {
            return Err(RespCommandError::ParsingError);
        }
        let name_bytes: &[u8] = match &input.elements[0] {
            RespElement::BulkString(b) => b.value.as_slice(),
            RespElement::SimpleString(s) => utf8_bytes(s.value.as_str()),
            _ => return Err(RespCommandError::InvalidArgument),
        };
        assert(input@[0] == input.elements@[0]@);
        let command = match get_command_name(name_bytes) {
            Ok(c) => c,
            Err(e) => return Err(e),
        };
        if lowered_is(&command, &[112u8, 105u8, 110u8, 103u8]) {
            Ok(RespCommand::Ping)
        } else if lowered_is(&command, &[101u8, 99u8, 104u8, 111u8]) {
            match RespEchoCommand::from_array(input) {
                Ok(c) => Ok(RespCommand::Echo(c)),
                Err(e) => Err(e),
            }
        } else if lowered_is(&command, &[115u8, 101u8, 116u8]) {
            match RespSetCommand::from_array(input) {
                Ok(c) => Ok(RespCommand::SetKey(c)),
                Err(e) => Err(e),
            }
        } else if lowered_is(&command, &[103u8, 101u8, 116u8]) {
            match RespGetCommand::from_array(input) {
                Ok(c) => Ok(RespCommand::Get(c)),
                Err(e) => Err(e),
            }
        } else {
            Err(RespCommandError::UnknownCommand)
        }
    }
}

/// Reads a request from `packet` and builds the command it names: an array
/// naming a command, or the bare simple string "ping" in any case.
pub fn get_command_from_input(packet: &[u8]) -> (r: Result<RespCommand, RespCommandError>)
    ensures
        match (r, command_from_input(packet@)) {
            (Ok(c), Ok(m)) => c@ == m,
            (Err(a), Err(b)) => a == b,
            _ => false,
        },
{
    match RespElement::parse(packet) {
        Ok((kind, _)) => match kind {
            RespElement::Array(a) => {
                proof {
                    lemma_views(a.elements@);
                }
                RespCommand::from_array(&a)
            },
            RespElement::SimpleString(s) => {
                let lower = lower_ascii(utf8_bytes(s.value.as_str()));
                if lowered_is(&lower, &[112u8, 105u8, 110u8, 103u8]) {
                    Ok(RespCommand::Ping)
                } else {
                    Err(RespCommandError::UnknownCommand)
                }
            },
            _ => Err(RespCommandError::ParsingError),
        },
        Err(_) => Err(RespCommandError::ParsingError),
    }
}

} // verus!
