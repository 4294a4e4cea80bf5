//! Command values: each holds the parsed, checked arguments of one command,
//! or is marked invalid, and runs against a transaction buffer.
use vstd::prelude::*;
use vstd::string::*;
use vstd::utf8::encode_utf8;
use crate::frame::{parse_i64, parse_i64_spec, signed_decimal, str_bytes, str_eq, Frame};
use crate::hash::{hash_int, hash_of, hash_ok, hash_status, HashCommandCtx};
use crate::list::{list_of, list_ok, list_range, list_status, ListCommandCtx};
use crate::record::{delete_key, gens_ok, put_fits, status_after_remove, CmdError};
use crate::encoding::{DataType, Meta, KIND_HASH};
use crate::encoding::meta_key;
use crate::string::{with_ttl, StringCommandCtx};
use crate::set::{set_of, set_status, SetCommandCtx};
use crate::store::TxnBuffer;
use crate::zset::{
    lemma_gone_stays_gone, lemma_nonmember_gone, member_gone, rank_of, zset_of, zset_ok, zset_status,
    ZsetCommandCtx,
};

verus! {

/// Why a command's arguments could not be read.
#[derive(Debug, Clone, Copy, PartialEq, Eq, Structural)]
pub enum ParseError {
    /// An argument is missing.
    EndOfStream,
    /// An argument is not a decimal integer.
    NotInteger,
}

/// A cursor over the arguments of a command.
pub struct Parse {
    parts: Vec<String>,
    pos: usize,
}

impl Parse {
    pub fn new(parts: Vec<String>) -> (r: Parse)
        ensures
            r.remaining() == parts@.map_values(|s: String| s@),
    {
        let r = Parse { parts, pos: 0 };
        assert(r.parts@.map_values(|s: String| s@).subrange(0, r.parts@.len() as int)
            =~= r.parts@.map_values(|s: String| s@));
        r
    }

    /// The arguments not read yet.
    pub closed spec fn remaining(&self) -> Seq<Seq<char>> {
        if self.pos <= self.parts@.len() {
            self.parts@.map_values(|s: String| s@).subrange(self.pos as int, self.parts@.len() as int)
        } else {
            Seq::empty()
        }
    }

    /// The next argument.
    pub fn next_string(&mut self) -> (r: Result<String, ParseError>)
        ensures
            old(self).remaining().len() == 0 ==> r == Err::<String, ParseError>(
                ParseError::EndOfStream,
            ) && final(self).remaining() == old(self).remaining(),
            old(self).remaining().len() > 0 ==> r is Ok && r.unwrap()@ == old(self).remaining()[0]
                && final(self).remaining() == old(self).remaining().drop_first(),
    {
        if self.pos >= self.parts.len() {
            return Err(ParseError::EndOfStream);
        }
        let s = self.parts[self.pos].clone();
        self.pos = self.pos + 1;
        assert(self.remaining() =~= old(self).remaining().drop_first());
        Ok(s)
    }

    /// The next argument, read as a decimal `i64`.
    pub fn next_int(&mut self) -> (r: Result<i64, ParseError>)
        ensures
            old(self).remaining().len() == 0 ==> r == Err::<i64, ParseError>(
                ParseError::EndOfStream,
            ) && final(self).remaining() == old(self).remaining(),
            old(self).remaining().len() > 0 ==> final(self).remaining() == old(
                self,
            ).remaining().drop_first() && r == match parse_i64_spec(
                encode_utf8(old(self).remaining()[0]),
            ) {
                Some(n) => Ok::<i64, ParseError>(n),
                None => Err(ParseError::NotInteger),
            },
    {
        let s = self.next_string()?;
        match parse_i64(s.as_str().as_bytes()) {
            Some(n) => Ok(n),
            None => Err(ParseError::NotInteger),
        }
    }
}

/// Reads a decimal `i64` argument.
fn int_arg(s: &String) -> (r: Option<i64>)
    ensures
        r == parse_i64_spec(encode_utf8(s@)),
{
    parse_i64(s.as_str().as_bytes())
}

pub open spec fn utf8(s: String) -> Seq<u8> {
    encode_utf8(s@)
}

pub open spec fn as_count(b: bool) -> i64 {
    if b {
        1
    } else {
        0
    }
}

// ---------------------------------------------------------------------
// CONFIG
// ---------------------------------------------------------------------

pub const SAVE_PARAMS: &'static str = "3600 1 300 100 60 10000";

pub const NOT_SUPPORTED: &'static str = "ERR not supported";

/// The lower-case form of a string.
pub uninterp spec fn lower_of(s: Seq<char>) -> Seq<char>;

/// Relies on str::to_lowercase: the result depends on the characters of the
/// input alone.
#[verifier::external_body]
fn lowercase(s: &str) -> (r: String)
    ensures
        r@ == lower_of(s@),
{
    s.to_lowercase()
}

pub open spec fn is_simple(f: Frame, s: Seq<char>) -> bool {
    f is Simple && f->Simple_0@ == s
}

pub open spec fn is_bulk_text(f: Frame, s: Seq<char>) -> bool {
    f is Bulk && f->Bulk_0@ == encode_utf8(s)
}

/// The reply to CONFIG with a lower-cased subcommand and parameter.
pub open spec fn config_reply_ok(key: Seq<char>, field: Seq<char>, r: Frame) -> bool {
    if key == "get"@ && field == "save"@ {
        &&& r is Array
        &&& r->Array_0@.len() == 2
        &&& is_simple(r->Array_0@[0], "save"@)
        &&& is_bulk_text(r->Array_0@[1], SAVE_PARAMS@)
    } else if key == "get"@ && field == "appendonly"@ {
        &&& r is Array
        &&& r->Array_0@.len() == 2
        &&& is_simple(r->Array_0@[0], "appendonly"@)
        &&& is_simple(r->Array_0@[1], "no"@)
    } else if key == "get"@ && field == "*"@ {
        &&& r is Array
        &&& r->Array_0@.len() == 4
        &&& is_simple(r->Array_0@[0], "save"@)
        &&& is_bulk_text(r->Array_0@[1], SAVE_PARAMS@)
        &&& is_simple(r->Array_0@[2], "appendonly"@)
        &&& is_simple(r->Array_0@[3], "no"@)
    } else {
        r is Error && r->Error_0@ == NOT_SUPPORTED@
    }
}

pub struct ConfigCommandCtx {}

impl ConfigCommandCtx {
    pub fn new() -> (r: ConfigCommandCtx) {
        ConfigCommandCtx {}
    }

    /// The reply for a subcommand and parameter already in lower case.
    pub fn config_reply(key: &str, field: &str) -> (r: Frame)
        ensures
            config_reply_ok(key@, field@, r),
    {
        let is_get = str_eq(key, "get");
        if is_get && str_eq(field, "save") {
            let mut v: Vec<Frame> = Vec::new();
            v.push(Frame::Simple("save".to_owned()));
            v.push(Frame::Bulk(str_bytes(SAVE_PARAMS)));
            Frame::Array(v)
        } else if is_get && str_eq(field, "appendonly") {
            let mut v: Vec<Frame> = Vec::new();
            v.push(Frame::Simple("appendonly".to_owned()));
            v.push(Frame::Simple("no".to_owned()));
            Frame::Array(v)
        } else if is_get && str_eq(field, "*") {
            let mut v: Vec<Frame> = Vec::new();
            v.push(Frame::Simple("save".to_owned()));
            v.push(Frame::Bulk(str_bytes(SAVE_PARAMS)));
            v.push(Frame::Simple("appendonly".to_owned()));
            v.push(Frame::Simple("no".to_owned()));
            Frame::Array(v)
        } else {
            Frame::Error(NOT_SUPPORTED.to_owned())
        }
    }

    /// CONFIG GET for the few parameters that clients ask about; the
    /// subcommand and parameter are matched without regard to case.
    pub fn do_async_rawkv_get(&self, key: &str, field: &str) -> (r: Frame)
        ensures
            config_reply_ok(lower_of(key@), lower_of(field@), r),
    {
        let k = lowercase(key);
        let f = lowercase(field);
        Self::config_reply(k.as_str(), f.as_str())
    }
}

/// CONFIG: the subcommand and its parameter.
pub struct Config {
    pub key: String,
    pub field: String,
    pub valid: bool,
}

impl Config {
    pub fn new(key: &str, field: &str) -> (r: Config)
        ensures
            r.key@ == key@,
            r.field@ == field@,
            r.valid,
    {
        Config { key: key.to_owned(), field: field.to_owned(), valid: true }
    }

    pub fn new_invalid() -> (r: Config)
        ensures
            !r.valid,
            r.key@ == Seq::<char>::empty(),
            r.field@ == Seq::<char>::empty(),
    {
        Config { key: String::new(), field: String::new(), valid: false }
    }

    pub fn key(&self) -> (r: &str)
        ensures
            r@ == self.key@,
    {
        self.key.as_str()
    }

    pub fn field(&self) -> (r: &str)
        ensures
            r@ == self.field@,
    {
        self.field.as_str()
    }

    pub fn parse_frames(parse: &mut Parse) -> (r: Result<Config, ParseError>)
        ensures
            old(parse).remaining().len() < 2 ==> r == Err::<Config, ParseError>(
                ParseError::EndOfStream,
            ),
            old(parse).remaining().len() >= 2 ==> r is Ok && r.unwrap().valid && r.unwrap().key@
                == old(parse).remaining()[0] && r.unwrap().field@ == old(parse).remaining()[1],
    {
        let key = parse.next_string()?;
        let field = parse.next_string()?;
        Ok(Config { key, field, valid: true })
    }

    pub fn parse_argv(argv: &Vec<String>) -> (r: Config)
        ensures
            r.valid == (argv@.len() == 2),
            r.valid ==> r.key@ == argv@[0]@ && r.field@ == argv@[1]@,
    {
        if argv.len() != 2 {
            return Config::new_invalid();
        }
        Config::new(argv[0].as_str(), argv[1].as_str())
    }

    pub fn config(&self, use_txn_api: bool) -> (r: Result<Frame, CmdError>)
        ensures
            !self.valid ==> r == Err::<Frame, CmdError>(CmdError::InvalidArguments),
            self.valid && !use_txn_api ==> r == Err::<Frame, CmdError>(CmdError::NotSupported),
            self.valid && use_txn_api ==> r is Ok && config_reply_ok(
                lower_of(self.key@),
                lower_of(self.field@),
                r.unwrap(),
            ),
    {
        if !self.valid {
            return Err(CmdError::InvalidArguments);
        }
        if !use_txn_api {
            return Err(CmdError::NotSupported);
        }
        Ok(ConfigCommandCtx::new().do_async_rawkv_get(self.key.as_str(), self.field.as_str()))
    }
}

// ---------------------------------------------------------------------
// EXPIRE
// ---------------------------------------------------------------------

/// EXPIRE: a key and a time to live in seconds.
pub struct Expire {
    pub key: String,
    pub seconds: i64,
}

impl Expire {
    pub fn new(key: &str, seconds: i64) -> (r: Expire)
        ensures
            r.key@ == key@,
            r.seconds == seconds,
    {
        Expire { key: key.to_owned(), seconds }
    }

    pub fn key(&self) -> (r: &str)
        ensures
            r@ == self.key@,
    {
        self.key.as_str()
    }

    pub fn seconds(&self) -> (r: i64)
        ensures
            r == self.seconds,
    {
        self.seconds
    }

    pub fn parse_frames(parse: &mut Parse) -> (r: Result<Expire, ParseError>)
        ensures
            old(parse).remaining().len() < 2 ==> r is Err,
            old(parse).remaining().len() >= 2 ==> (r is Ok <==> parse_i64_spec(
                encode_utf8(old(parse).remaining()[1]),
            ) is Some),
            r is Ok ==> r.unwrap().key@ == old(parse).remaining()[0] && r.unwrap().seconds
                == parse_i64_spec(encode_utf8(old(parse).remaining()[1])).unwrap(),
    {
        let key = parse.next_string()?;
        let seconds = parse.next_int()?;
        Ok(Expire { key, seconds })
    }

    /// Gives the key `seconds` more to live from `now_ms`; a time to live
    /// of zero or less deletes it at once. Replies with 1 where the key
    /// exists, else 0.
    pub fn expire(&self, buf: &mut TxnBuffer, now_ms: u64) -> (r: Result<Frame, CmdError>)
        requires
            old(buf).wf(),
            gens_ok(old(buf)@, utf8(self.key)),
        ensures
            final(buf).wf(),
            gens_ok(final(buf)@, utf8(self.key)),
            self.seconds <= 0 ==> r == Ok::<Frame, CmdError>(
                Frame::Integer(as_count(old(buf)@.contains_key(meta_key(utf8(self.key))))),
            ) && final(buf)@ == old(buf)@.remove(meta_key(utf8(self.key))),
            self.seconds > 0 && now_ms + self.seconds * 1000 > u64::MAX ==> r == Err::<
                Frame,
                CmdError,
            >(CmdError::Overflow) && final(buf)@ == old(buf)@,
            self.seconds > 0 && now_ms + self.seconds * 1000 <= u64::MAX ==> {
                let mk = meta_key(utf8(self.key));
                let st = old(buf)@;
                &&& !st.contains_key(mk) ==> r == Ok::<Frame, CmdError>(Frame::Integer(0))
                    && final(buf)@ == st
                &&& st.contains_key(mk) && st[mk].len() < 9 ==> r == Err::<Frame, CmdError>(
                    CmdError::Corrupt,
                ) && final(buf)@ == st
                &&& st.contains_key(mk) && st[mk].len() >= 9 ==> r == Ok::<Frame, CmdError>(
                    Frame::Integer(1),
                ) && final(buf)@ == st.insert(
                    mk,
                    with_ttl(st[mk], (now_ms + self.seconds * 1000) as u64),
                )
            },
    {
        let k = self.key.as_str().as_bytes();
        if self.seconds <= 0 {
            let existed = delete_key(buf, k);
            return Ok(Frame::Integer(if existed {
                1
            } else {
                0
            }));
        }
        let ms: u64 = match (self.seconds as u64).checked_mul(1000) {
            Some(x) => x,
            None => {
                return Err(CmdError::Overflow);
            },
        };
        let at: u64 = match now_ms.checked_add(ms) {
            Some(x) => x,
            None => {
                return Err(CmdError::Overflow);
            },
        };
        match StringCommandCtx::expire_at(buf, k, at) {
            Ok(true) => Ok(Frame::Integer(1)),
            Ok(false) => Ok(Frame::Integer(0)),
            Err(e) => Err(e),
        }
    }
}

// ---------------------------------------------------------------------
// HDEL
// ---------------------------------------------------------------------

/// HDEL: a key and a field.
pub struct Hdel {
    pub key: String,
    pub field: String,
    pub valid: bool,
}

impl Hdel {
    pub fn new(key: &str, field: &str) -> (r: Hdel)
        ensures
            r.key@ == key@,
            r.field@ == field@,
            r.valid,
    {
        Hdel { key: key.to_owned(), field: field.to_owned(), valid: true }
    }

    pub fn new_invalid() -> (r: Hdel)
        ensures
            !r.valid,
            r.key@ == Seq::<char>::empty(),
            r.field@ == Seq::<char>::empty(),
    {
        Hdel { key: String::new(), field: String::new(), valid: false }
    }

    pub fn key(&self) -> (r: &str)
        ensures
            r@ == self.key@,
    {
        self.key.as_str()
    }

    pub fn field(&self) -> (r: &str)
        ensures
            r@ == self.field@,
    {
        self.field.as_str()
    }

    pub fn parse_frames(parse: &mut Parse) -> (r: Result<Hdel, ParseError>)
        ensures
            old(parse).remaining().len() < 2 ==> r == Err::<Hdel, ParseError>(
                ParseError::EndOfStream,
            ),
            old(parse).remaining().len() >= 2 ==> r is Ok && r.unwrap().valid && r.unwrap().key@
                == old(parse).remaining()[0] && r.unwrap().field@ == old(parse).remaining()[1],
    {
        let key = parse.next_string()?;
        let field = parse.next_string()?;
        Ok(Hdel { key, field, valid: true })
    }

    pub fn parse_argv(argv: &Vec<String>) -> (r: Hdel)
        ensures
            r.valid == (argv@.len() == 2),
            r.valid ==> r.key@ == argv@[0]@ && r.field@ == argv@[1]@,
    {
        if argv.len() != 2 {
            return Hdel::new_invalid();
        }
        Hdel::new(argv[0].as_str(), argv[1].as_str())
    }

    /// Removes the field; replies with 1 where it was there, else 0.
    pub fn hdel(&self, buf: &mut TxnBuffer, use_txn_api: bool) -> (r: Result<Frame, CmdError>)
        requires
            old(buf).wf(),
            hash_ok(old(buf)@, utf8(self.key)),
        ensures
            final(buf).wf(),
            hash_ok(final(buf)@, utf8(self.key)),
            !self.valid ==> r == Err::<Frame, CmdError>(CmdError::InvalidArguments),
            self.valid && !use_txn_api ==> r == Err::<Frame, CmdError>(CmdError::NotSupported),
            r is Err ==> final(buf)@ == old(buf)@,
            self.valid && use_txn_api && hash_status(old(buf)@, utf8(self.key)) is Err ==> r
                == Err::<Frame, CmdError>(hash_status(old(buf)@, utf8(self.key))->Err_0),
            self.valid && use_txn_api && hash_status(old(buf)@, utf8(self.key)) is Ok ==> r
                == Ok::<Frame, CmdError>(
                Frame::Integer(
                    as_count(hash_of(old(buf)@, utf8(self.key)).contains_key(utf8(self.field))),
                ),
            ) && hash_of(final(buf)@, utf8(self.key)) == hash_of(old(buf)@, utf8(self.key)).remove(
                utf8(self.field),
            ),
            self.valid && use_txn_api && hash_status(old(buf)@, utf8(self.key)) is Ok
                && !hash_of(old(buf)@, utf8(self.key)).contains_key(utf8(self.field)) ==> final(buf)@ == old(buf)@,
            self.valid && use_txn_api && hash_status(old(buf)@, utf8(self.key)) is Ok
                && hash_of(old(buf)@, utf8(self.key)).contains_key(utf8(self.field)) ==> hash_status(
                final(buf)@,
                utf8(self.key),
            ) == status_after_remove(hash_status(old(buf)@, utf8(self.key))->Ok_0.unwrap()),
            self.valid && use_txn_api && hash_status(old(buf)@, utf8(self.key)) is Ok && hash_of(
                final(buf)@,
                utf8(self.key),
            ).is_empty() ==> hash_status(final(buf)@, utf8(self.key)) == Ok::<
                Option<Meta>,
                CmdError,
            >(None),
    {
        if !self.valid {
            return Err(CmdError::InvalidArguments);
        }
        if !use_txn_api {
            return Err(CmdError::NotSupported);
        }
        match HashCommandCtx::hdel(buf, self.key.as_str().as_bytes(), self.field.as_str().as_bytes()) {
            Ok(removed) => Ok(Frame::Integer(if removed {
                1
            } else {
                0
            })),
            Err(e) => Err(e),
        }
    }
}

// ---------------------------------------------------------------------
// HINCRBY
// ---------------------------------------------------------------------

/// HINCRBY: a key, a field and a step.
pub struct Hincrby {
    pub key: String,
    pub field: String,
    pub step: i64,
    pub valid: bool,
}

impl Hincrby {
    pub fn new(key: &str, field: &str, step: i64) -> (r: Hincrby)
        ensures
            r.key@ == key@,
            r.field@ == field@,
            r.step == step,
            r.valid,
    {
        Hincrby { key: key.to_owned(), field: field.to_owned(), step, valid: true }
    }

    pub fn new_invalid() -> (r: Hincrby)
        ensures
            !r.valid,
            r.key@ == Seq::<char>::empty(),
            r.field@ == Seq::<char>::empty(),
            r.step == 0,
    {
        Hincrby { key: String::new(), field: String::new(), step: 0, valid: false }
    }

    pub fn key(&self) -> (r: &str)
        ensures
            r@ == self.key@,
    {
        self.key.as_str()
    }

    pub fn field(&self) -> (r: &str)
        ensures
            r@ == self.field@,
    {
        self.field.as_str()
    }

    pub fn set_key(&mut self, key: &str)
        ensures
            final(self).key@ == key@,
            final(self).field == old(self).field,
            final(self).step == old(self).step,
            final(self).valid == old(self).valid,
    {
        self.key = key.to_owned();
    }

    pub fn set_field(&mut self, field: &str)
        ensures
            final(self).field@ == field@,
            final(self).key == old(self).key,
            final(self).step == old(self).step,
            final(self).valid == old(self).valid,
    {
        self.field = field.to_owned();
    }

    pub fn parse_frames(parse: &mut Parse) -> (r: Result<Hincrby, ParseError>)
        ensures
            old(parse).remaining().len() < 3 ==> r is Err,
            old(parse).remaining().len() >= 3 ==> (r is Ok <==> parse_i64_spec(
                encode_utf8(old(parse).remaining()[2]),
            ) is Some),
            r is Ok ==> r.unwrap().valid && r.unwrap().key@ == old(parse).remaining()[0]
                && r.unwrap().field@ == old(parse).remaining()[1] && r.unwrap().step
                == parse_i64_spec(encode_utf8(old(parse).remaining()[2])).unwrap(),
    {
        let key = parse.next_string()?;
        let field = parse.next_string()?;
        let step = parse.next_int()?;
        Ok(Hincrby { key, field, step, valid: true })
    }

    pub fn parse_argv(argv: &Vec<String>) -> (r: Hincrby)
        ensures
            r.valid == (argv@.len() == 3 && parse_i64_spec(utf8(argv@[2])) is Some),
            r.valid ==> r.key@ == argv@[0]@ && r.field@ == argv@[1]@ && r.step == parse_i64_spec(
                utf8(argv@[2]),
            ).unwrap(),
    {
        if argv.len() != 3 {
            return Hincrby::new_invalid();
        }
        match int_arg(&argv[2]) {
            Some(step) => Hincrby::new(argv[0].as_str(), argv[1].as_str(), step),
            None => Hincrby::new_invalid(),
        }
    }

    /// Adds the step to the field; replies with the sum.
    pub fn hincrby(&self, buf: &mut TxnBuffer, use_txn_api: bool) -> (r: Result<Frame, CmdError>)
        requires
            old(buf).wf(),
            hash_ok(old(buf)@, utf8(self.key)),
        ensures
            final(buf).wf(),
            hash_ok(final(buf)@, utf8(self.key)),
            !self.valid ==> r == Err::<Frame, CmdError>(CmdError::InvalidArguments),
            self.valid && !use_txn_api ==> r == Err::<Frame, CmdError>(CmdError::NotSupported),
            r is Err ==> final(buf)@ == old(buf)@,
            self.valid && use_txn_api && hash_status(old(buf)@, utf8(self.key)) is Err ==> r
                == Err::<Frame, CmdError>(hash_status(old(buf)@, utf8(self.key))->Err_0),
            self.valid && use_txn_api && hash_status(old(buf)@, utf8(self.key)) is Ok && hash_int(
                hash_of(old(buf)@, utf8(self.key)),
                utf8(self.field),
            ) is Some && i64::MIN <= hash_int(hash_of(old(buf)@, utf8(self.key)), utf8(self.field)).unwrap()
                + self.step <= i64::MAX && put_fits(
                old(buf)@,
                utf8(self.key),
                DataType::Hash,
                KIND_HASH,
                utf8(self.field),
            ) ==> r is Ok,
            r is Ok ==> hash_int(hash_of(old(buf)@, utf8(self.key)), utf8(self.field)) is Some
                && r.unwrap() == Frame::Integer(
                (hash_int(hash_of(old(buf)@, utf8(self.key)), utf8(self.field)).unwrap()
                    + self.step) as i64,
            ) && hash_of(final(buf)@, utf8(self.key)) == hash_of(old(buf)@, utf8(self.key)).insert(
                utf8(self.field),
                signed_decimal(
                    hash_int(hash_of(old(buf)@, utf8(self.key)), utf8(self.field)).unwrap()
                        + self.step,
                ),
            ),
    {
        if !self.valid {
            return Err(CmdError::InvalidArguments);
        }
        if !use_txn_api {
            return Err(CmdError::NotSupported);
        }
        match HashCommandCtx::hincrby(
            buf,
            self.key.as_str().as_bytes(),
            self.field.as_str().as_bytes(),
            self.step,
        ) {
            Ok(n) => Ok(Frame::Integer(n)),
            Err(e) => Err(e),
        }
    }
}

// ---------------------------------------------------------------------
// LLEN, LRANGE
// ---------------------------------------------------------------------

/// LLEN: a key.
pub struct Llen {
    pub key: String,
    pub valid: bool,
}

impl Llen {
    pub fn new(key: &str) -> (r: Llen)
        ensures
            r.key@ == key@,
            r.valid,
    {
        Llen { key: key.to_owned(), valid: true }
    }

    pub fn new_invalid() -> (r: Llen)
        ensures
            !r.valid,
            r.key@ == Seq::<char>::empty(),
    {
        Llen { key: String::new(), valid: false }
    }

    pub fn key(&self) -> (r: &str)
        ensures
            r@ == self.key@,
    {
        self.key.as_str()
    }

    pub fn parse_frames(parse: &mut Parse) -> (r: Result<Llen, ParseError>)
        ensures
            old(parse).remaining().len() < 1 ==> r is Err,
            old(parse).remaining().len() >= 1 ==> r is Ok && r.unwrap().valid && r.unwrap().key@
                == old(parse).remaining()[0],
    {
        let key = parse.next_string()?;
        Ok(Llen { key, valid: true })
    }

    pub fn parse_argv(argv: &Vec<String>) -> (r: Llen)
        ensures
            r.valid == (argv@.len() == 1),
            r.valid ==> r.key@ == argv@[0]@,
    {
        if argv.len() != 1 {
            return Llen::new_invalid();
        }
        Llen::new(argv[0].as_str())
    }

    /// Replies with the length of the list.
    pub fn llen(&self, buf: &TxnBuffer, use_txn_api: bool) -> (r: Result<Frame, CmdError>)
        requires
            buf.wf(),
            list_ok(buf@, utf8(self.key)),
        ensures
            !self.valid ==> r == Err::<Frame, CmdError>(CmdError::InvalidArguments),
            self.valid && !use_txn_api ==> r == Err::<Frame, CmdError>(CmdError::NotSupported),
            self.valid && use_txn_api && list_status(buf@, utf8(self.key)) is Err ==> r == Err::<
                Frame,
                CmdError,
            >(list_status(buf@, utf8(self.key))->Err_0),
            self.valid && use_txn_api && list_status(buf@, utf8(self.key)) is Ok ==> r == Ok::<
                Frame,
                CmdError,
            >(Frame::Integer(list_of(buf@, utf8(self.key)).len() as i64)),
    {
        if !self.valid {
            return Err(CmdError::InvalidArguments);
        }
        if !use_txn_api {
            return Err(CmdError::NotSupported);
        }
        match ListCommandCtx::llen(buf, self.key.as_str().as_bytes()) {
            Ok(n) => Ok(Frame::Integer(n as i64)),
            Err(e) => Err(e),
        }
    }
}

/// LRANGE: a key and two offsets.
pub struct Lrange {
    pub key: String,
    pub left: i64,
    pub right: i64,
    pub valid: bool,
}

/// Each element of a reply array is the bulk string of the matching element.
pub open spec fn bulks_of(fs: Seq<Frame>, s: Seq<Seq<u8>>) -> bool {
    &&& fs.len() == s.len()
    &&& forall|i: int| 0 <= i < s.len() ==> (#[trigger] fs[i]) is Bulk && fs[i]->Bulk_0@ == s[i]
}

impl Lrange {
    pub fn new(key: &str, left: i64, right: i64) -> (r: Lrange)
        ensures
            r.key@ == key@,
            r.left == left,
            r.right == right,
            r.valid,
    {
        Lrange { key: key.to_owned(), left, right, valid: true }
    }

    pub fn new_invalid() -> (r: Lrange)
        ensures
            !r.valid,
            r.key@ == Seq::<char>::empty(),
            r.left == 0,
            r.right == 0,
    {
        Lrange { key: String::new(), left: 0, right: 0, valid: false }
    }

    pub fn key(&self) -> (r: &str)
        ensures
            r@ == self.key@,
    {
        self.key.as_str()
    }

    pub fn parse_frames(parse: &mut Parse) -> (r: Result<Lrange, ParseError>)
        ensures
            old(parse).remaining().len() < 3 ==> r is Err,
            old(parse).remaining().len() >= 3 ==> (r is Ok <==> parse_i64_spec(
                encode_utf8(old(parse).remaining()[1]),
            ) is Some && parse_i64_spec(encode_utf8(old(parse).remaining()[2])) is Some),
            r is Ok ==> r.unwrap().valid && r.unwrap().key@ == old(parse).remaining()[0]
                && r.unwrap().left == parse_i64_spec(encode_utf8(old(parse).remaining()[1])).unwrap()
                && r.unwrap().right == parse_i64_spec(
                encode_utf8(old(parse).remaining()[2]),
            ).unwrap(),
    {
        let key = parse.next_string()?;
        let left = parse.next_int()?;
        let right = parse.next_int()?;
        Ok(Lrange { key, left, right, valid: true })
    }

    pub fn parse_argv(argv: &Vec<String>) -> (r: Lrange)
        ensures
            r.valid == (argv@.len() == 3 && parse_i64_spec(utf8(argv@[1])) is Some
                && parse_i64_spec(utf8(argv@[2])) is Some),
            r.valid ==> r.key@ == argv@[0]@ && r.left == parse_i64_spec(utf8(argv@[1])).unwrap()
                && r.right == parse_i64_spec(utf8(argv@[2])).unwrap(),
    {
        if argv.len() != 3 {
            return Lrange::new_invalid();
        }
        let left = match int_arg(&argv[1]) {
            Some(v) => v,
            None => {
                return Lrange::new_invalid();
            },
        };
        let right = match int_arg(&argv[2]) {
            Some(v) => v,
            None => {
                return Lrange::new_invalid();
            },
        };
        Lrange::new(argv[0].as_str(), left, right)
    }

    /// Replies with the elements between the two offsets.
    pub fn lrange(&self, buf: &TxnBuffer, use_txn_api: bool) -> (r: Result<Frame, CmdError>)
        requires
            buf.wf(),
            list_ok(buf@, utf8(self.key)),
        ensures
            !self.valid ==> r == Err::<Frame, CmdError>(CmdError::InvalidArguments),
            self.valid && !use_txn_api ==> r == Err::<Frame, CmdError>(CmdError::NotSupported),
            self.valid && use_txn_api && list_status(buf@, utf8(self.key)) is Err ==> r == Err::<
                Frame,
                CmdError,
            >(list_status(buf@, utf8(self.key))->Err_0),
            self.valid && use_txn_api && list_status(buf@, utf8(self.key)) is Ok ==> r is Ok
                && r.unwrap() is Array && bulks_of(
                r.unwrap()->Array_0@,
                list_range(list_of(buf@, utf8(self.key)), self.left as int, self.right as int),
            ),
    {
        if !self.valid {
            return Err(CmdError::InvalidArguments);
        }
        if !use_txn_api {
            return Err(CmdError::NotSupported);
        }
        let items = match ListCommandCtx::lrange(buf, self.key.as_str().as_bytes(), self.left, self.right) {
            Ok(items) => items,
            Err(e) => {
                return Err(e);
            },
        };
        let ghost want = items@.map_values(|v: Vec<u8>| v@);
        let mut out: Vec<Frame> = Vec::new();
        let mut rest = items;
        let ghost n = rest@.len();
        // take the elements from the back, then put the frames in order
        let mut rev: Vec<Frame> = Vec::new();
        while rest.len() > 0
            invariant
                rest@.len() + rev@.len() == n,
                want.len() == n,
                forall|i: int| 0 <= i < rest@.len() ==> (#[trigger] rest@[i])@ == want[i],
                forall|j: int|
                    0 <= j < rev@.len() ==> (#[trigger] rev@[j]) is Bulk && rev@[j]->Bulk_0@
                        == want[n - 1 - j],
            decreases rest@.len(),
        {
            let v = rest.pop().unwrap();
            rev.push(Frame::Bulk(v));
        }
        while rev.len() > 0
            invariant
                rev@.len() + out@.len() == n,
                want.len() == n,
                forall|j: int|
                    0 <= j < rev@.len() ==> (#[trigger] rev@[j]) is Bulk && rev@[j]->Bulk_0@
                        == want[n - 1 - j],
                forall|i: int|
                    0 <= i < out@.len() ==> (#[trigger] out@[i]) is Bulk && out@[i]->Bulk_0@
                        == want[i],
            decreases rev@.len(),
        {
            let f = rev.pop().unwrap();
            out.push(f);
        }
        Ok(Frame::Array(out))
    }
}

// ---------------------------------------------------------------------
// SCAN
// ---------------------------------------------------------------------

/// SCAN: a start key, a count and a match pattern.
pub struct Scan {
    pub start: String,
    pub count: i64,
    pub regex: String,
    pub valid: bool,
}

pub const DEFAULT_SCAN_COUNT: i64 = 10;

pub const DEFAULT_SCAN_PATTERN: &'static str = ".*?";

/// Whether `b` is `word` (upper case) without regard to ASCII case.
pub open spec fn ascii_upper_is(b: Seq<u8>, word: Seq<u8>) -> bool {
    b.len() == word.len() && forall|i: int|
        0 <= i < b.len() ==> (if 97 <= #[trigger] b[i] <= 122 {
            (b[i] - 32) as u8
        } else {
            b[i]
        }) == word[i]
}

fn ascii_upper_eq(b: &[u8], word: &[u8]) -> (r: bool)
    ensures
        r == ascii_upper_is(b@, word@),
{
    if b.len() != word.len() {
        return false;
    }
    let mut i: usize = 0;
    while i < b.len()
        invariant
            b@.len() == word@.len(),
            i <= b@.len(),
            forall|j: int|
                0 <= j < i ==> (if 97 <= #[trigger] b@[j] <= 122 {
                    (b@[j] - 32) as u8
                } else {
                    b@[j]
                }) == word@[j],
        decreases b@.len() - i,
    {
        let c = b[i];
        let u = if 97 <= c && c <= 122 {
            c - 32
        } else {
            c
        };
        if u != word[i] {
            return false;
        }
        i = i + 1;
    }
    true
}

/// What a COUNT or MATCH option does to (count, pattern); `None` where the
/// option is neither or its COUNT value is no integer.
pub open spec fn scan_option(flag: Seq<u8>, value: Seq<u8>, count: i64, pattern: Seq<char>, value_text: Seq<char>) -> Option<(i64, Seq<char>)> {
    if ascii_upper_is(flag, "COUNT".spec_bytes()) {
        match parse_i64_spec(value) {
            Some(c) => Some((c, pattern)),
            None => None,
        }
    } else if ascii_upper_is(flag, "MATCH".spec_bytes()) {
        Some((count, value_text))
    } else {
        None
    }
}

/// What the option words after the start of a SCAN do to (count,
/// pattern): COUNT takes the next word where it is an integer, MATCH takes
/// the next word and fails where there is none, other words are skipped.
pub open spec fn scan_flags(rest: Seq<Seq<char>>, count: i64, pattern: Seq<char>) -> Option<
    (i64, Seq<char>),
>
    decreases rest.len(),
{
    if rest.len() == 0 {
        Some((count, pattern))
    } else if ascii_upper_is(encode_utf8(rest[0]), "COUNT".spec_bytes()) {
        if rest.len() == 1 {
            Some((count, pattern))
        } else {
            let c = match parse_i64_spec(encode_utf8(rest[1])) {
                Some(c) => c,
                None => count,
            };
            scan_flags(rest.subrange(2, rest.len() as int), c, pattern)
        }
    } else if ascii_upper_is(encode_utf8(rest[0]), "MATCH".spec_bytes()) {
        if rest.len() == 1 {
            None
        } else {
            scan_flags(rest.subrange(2, rest.len() as int), count, rest[1])
        }
    } else {
        scan_flags(rest.drop_first(), count, pattern)
    }
}

impl Scan {
    pub fn parse_frames(parse: &mut Parse) -> (r: Result<Scan, ParseError>)
        ensures
            old(parse).remaining().len() == 0 ==> r == Err::<Scan, ParseError>(
                ParseError::EndOfStream,
            ),
            old(parse).remaining().len() > 0 ==> match scan_flags(
                old(parse).remaining().drop_first(),
                DEFAULT_SCAN_COUNT,
                DEFAULT_SCAN_PATTERN@,
            ) {
                Some((c, p)) => r is Ok && r.unwrap().valid && r.unwrap().start@ == old(
                    parse,
                ).remaining()[0] && r.unwrap().count == c && r.unwrap().regex@ == p,
                None => r == Err::<Scan, ParseError>(ParseError::EndOfStream),
            },
    {
        let start = parse.next_string()?;
        let mut count: i64 = DEFAULT_SCAN_COUNT;
        let mut regex: String = DEFAULT_SCAN_PATTERN.to_owned();
        let count_word = str_bytes("COUNT");
        let match_word = str_bytes("MATCH");
        let ghost want = scan_flags(parse.remaining(), DEFAULT_SCAN_COUNT, DEFAULT_SCAN_PATTERN@);
        loop
            invariant
                count_word@ == "COUNT".spec_bytes(),
                match_word@ == "MATCH".spec_bytes(),
                scan_flags(parse.remaining(), count, regex@) == want,
                old(parse).remaining().len() > 0,
                start@ == old(parse).remaining()[0],
                want == scan_flags(
                    old(parse).remaining().drop_first(),
                    DEFAULT_SCAN_COUNT,
                    DEFAULT_SCAN_PATTERN@,
                ),
            ensures
                want == Some((count, regex@)),
            decreases parse.remaining().len(),
        {
            let ghost rest = parse.remaining();
            let flag = match parse.next_string() {
                Ok(f) => f,
                Err(_) => {
                    break;
                },
            };
            let fb = flag.as_str().as_bytes();
            if ascii_upper_eq(fb, count_word.as_slice()) {
                if let Ok(c) = parse.next_int() {
                    count = c;
                }
                proof {
                    if rest.len() > 1 {
                        assert(rest.drop_first().drop_first() =~= rest.subrange(2, rest.len() as int));
                    }
                }
            } else if ascii_upper_eq(fb, match_word.as_slice()) {
                regex = match parse.next_string() {
                    Ok(p) => p,
                    Err(e) => {
                        assert(rest.len() == 1);
                        return Err(e);
                    },
                };
                proof {
                    assert(rest.drop_first().drop_first() =~= rest.subrange(2, rest.len() as int));
                }
            }
        }
        Ok(Scan { start, count, regex, valid: true })
    }

    pub fn new(start: String, count: i64, regex: String) -> (r: Scan)
        ensures
            r.start == start,
            r.count == count,
            r.regex == regex,
            r.valid,
    {
        Scan { start, count, regex, valid: true }
    }

    pub fn new_invalid() -> (r: Scan)
        ensures
            !r.valid,
            r.start@ == Seq::<char>::empty(),
            r.count == 0,
            r.regex@ == Seq::<char>::empty(),
    {
        Scan { start: String::new(), count: 0, regex: String::new(), valid: false }
    }

    pub fn valid(&self) -> (r: bool)
        ensures
            r == self.valid,
    {
        self.valid
    }

    /// The number of keys a SCAN may return, where the command can run: a
    /// negative count is invalid.
    pub fn scan_limit(&self, use_txn_api: bool) -> (r: Result<u64, CmdError>)
        ensures
            !self.valid ==> r == Err::<u64, CmdError>(CmdError::InvalidArguments),
            self.valid && !use_txn_api ==> r == Err::<u64, CmdError>(CmdError::NotSupported),
            self.valid && use_txn_api && self.count < 0 ==> r == Err::<u64, CmdError>(
                CmdError::InvalidArguments,
            ),
            self.valid && use_txn_api && self.count >= 0 ==> r == Ok::<u64, CmdError>(
                self.count as u64,
            ),
    {
        if !self.valid {
            return Err(CmdError::InvalidArguments);
        }
        if !use_txn_api {
            return Err(CmdError::NotSupported);
        }
        if self.count < 0 {
            return Err(CmdError::InvalidArguments);
        }
        Ok(self.count as u64)
    }

    /// Applies one option to (count, pattern).
    fn apply_option(flag: &String, value: &String, count: i64, pattern: String) -> (r: Option<(i64, String)>)
        ensures
            r is None <==> scan_option(utf8(*flag), utf8(*value), count, pattern@, value@) is None,
            r is Some ==> r.unwrap().0 == scan_option(utf8(*flag), utf8(*value), count, pattern@, value@).unwrap().0
                && r.unwrap().1@ == scan_option(utf8(*flag), utf8(*value), count, pattern@, value@).unwrap().1,
    {
        let fb = flag.as_str().as_bytes();
        let count_word = str_bytes("COUNT");
        let match_word = str_bytes("MATCH");
        if ascii_upper_eq(fb, count_word.as_slice()) {
            match int_arg(value) {
                Some(c) => Some((c, pattern)),
                None => None,
            }
        } else if ascii_upper_eq(fb, match_word.as_slice()) {
            Some((count, value.clone()))
        } else {
            None
        }
    }

    pub fn parse_argv(argv: &Vec<String>) -> (r: Scan)
        ensures
            (argv@.len() == 0 || argv@.len() > 5 || argv@.len() == 2 || argv@.len() == 4) ==> !r.valid,
            argv@.len() == 1 ==> r.valid && r.start@ == argv@[0]@ && r.count == DEFAULT_SCAN_COUNT
                && r.regex@ == DEFAULT_SCAN_PATTERN@,
            argv@.len() == 3 || argv@.len() == 5 ==> {
                let first = scan_option(utf8(argv@[1]), utf8(argv@[2]), DEFAULT_SCAN_COUNT, DEFAULT_SCAN_PATTERN@, argv@[2]@);
                if first is None {
                    !r.valid
                } else if argv@.len() == 5 {
                    let second = scan_option(utf8(argv@[3]), utf8(argv@[4]), first.unwrap().0, first.unwrap().1, argv@[4]@);
                    if second is None {
                        !r.valid
                    } else {
                        r.valid && r.start@ == argv@[0]@ && r.count == second.unwrap().0 && r.regex@ == second.unwrap().1
                    }
                } else {
                    r.valid && r.start@ == argv@[0]@ && r.count == first.unwrap().0 && r.regex@ == first.unwrap().1
                }
            },
    {
        // an option word always comes with its value
        if argv.len() == 0 || argv.len() > 5 || argv.len() == 2 || argv.len() == 4 {
            return Scan::new_invalid();
        }
        let mut count: i64 = DEFAULT_SCAN_COUNT;
        let mut regex: String = DEFAULT_SCAN_PATTERN.to_owned();
        if argv.len() >= 3 {
            match Self::apply_option(&argv[1], &argv[2], count, regex) {
                Some((c, p)) => {
                    count = c;
                    regex = p;
                },
                None => {
                    return Scan::new_invalid();
                },
            }
            if argv.len() == 5 {
                match Self::apply_option(&argv[3], &argv[4], count, regex) {
                    Some((c, p)) => {
                        count = c;
                        regex = p;
                    },
                    None => {
                        return Scan::new_invalid();
                    },
                }
            }
        }
        Scan { start: argv[0].clone(), count, regex, valid: true }
    }
}

// ---------------------------------------------------------------------
// SISMEMBER
// ---------------------------------------------------------------------

/// SISMEMBER: a key and a member.
pub struct Sismember {
    pub key: String,
    pub member: String,
    pub valid: bool,
}

impl Sismember {
    pub fn new(key: &str, member: &str) -> (r: Sismember)
        ensures
            r.key@ == key@,
            r.member@ == member@,
            r.valid,
    {
        Sismember { key: key.to_owned(), member: member.to_owned(), valid: true }
    }

    pub fn new_invalid() -> (r: Sismember)
        ensures
            !r.valid,
            r.key@ == Seq::<char>::empty(),
            r.member@ == Seq::<char>::empty(),
    {
        Sismember { key: String::new(), member: String::new(), valid: false }
    }

    pub fn parse_frames(parse: &mut Parse) -> (r: Result<Sismember, ParseError>)
        ensures
            old(parse).remaining().len() < 2 ==> r is Err,
            old(parse).remaining().len() >= 2 ==> r is Ok && r.unwrap().valid && r.unwrap().key@
                == old(parse).remaining()[0] && r.unwrap().member@ == old(parse).remaining()[1],
    {
        let key = parse.next_string()?;
        let member = parse.next_string()?;
        Ok(Sismember { key, member, valid: true })
    }

    pub fn parse_argv(argv: &Vec<String>) -> (r: Sismember)
        ensures
            r.valid == (argv@.len() == 2),
            r.valid ==> r.key@ == argv@[0]@ && r.member@ == argv@[1]@,
    {
        if argv.len() != 2 {
            return Sismember::new_invalid();
        }
        Sismember::new(argv[0].as_str(), argv[1].as_str())
    }

    /// Replies with 1 where the member is in the set, else 0.
    pub fn sismember(&self, buf: &TxnBuffer, use_txn_api: bool) -> (r: Result<Frame, CmdError>)
        requires
            buf.wf(),
        ensures
            !self.valid ==> r == Err::<Frame, CmdError>(CmdError::InvalidArguments),
            self.valid && !use_txn_api ==> r == Err::<Frame, CmdError>(CmdError::NotSupported),
            self.valid && use_txn_api && set_status(buf@, utf8(self.key)) is Err ==> r == Err::<
                Frame,
                CmdError,
            >(set_status(buf@, utf8(self.key))->Err_0),
            self.valid && use_txn_api && set_status(buf@, utf8(self.key)) is Ok ==> r == Ok::<
                Frame,
                CmdError,
            >(Frame::Integer(as_count(set_of(buf@, utf8(self.key)).contains(utf8(self.member))))),
    {
        if !self.valid {
            return Err(CmdError::InvalidArguments);
        }
        if !use_txn_api {
            return Err(CmdError::NotSupported);
        }
        match SetCommandCtx::sismember(buf, self.key.as_str().as_bytes(), self.member.as_str().as_bytes()) {
            Ok(b) => Ok(Frame::Integer(if b {
                1
            } else {
                0
            })),
            Err(e) => Err(e),
        }
    }
}

// ---------------------------------------------------------------------
// ZCARD, ZRANK, ZREM
// ---------------------------------------------------------------------

/// ZCARD: a key.
pub struct Zcard {
    pub key: String,
    pub valid: bool,
}

impl Zcard {
    pub fn new(key: &str) -> (r: Zcard)
        ensures
            r.key@ == key@,
            r.valid,
    {
        Zcard { key: key.to_owned(), valid: true }
    }

    pub fn new_invalid() -> (r: Zcard)
        ensures
            !r.valid,
            r.key@ == Seq::<char>::empty(),
    {
        Zcard { key: String::new(), valid: false }
    }

    pub fn key(&self) -> (r: &str)
        ensures
            r@ == self.key@,
    {
        self.key.as_str()
    }

    pub fn set_key(&mut self, key: &str)
        ensures
            final(self).key@ == key@,
            final(self).valid == old(self).valid,
    {
        self.key = key.to_owned();
    }

    pub fn parse_frames(parse: &mut Parse) -> (r: Result<Zcard, ParseError>)
        ensures
            old(parse).remaining().len() < 1 ==> r is Err,
            old(parse).remaining().len() >= 1 ==> r is Ok && r.unwrap().valid && r.unwrap().key@
                == old(parse).remaining()[0],
    {
        let key = parse.next_string()?;
        Ok(Zcard { key, valid: true })
    }

    pub fn parse_argv(argv: &Vec<String>) -> (r: Zcard)
        ensures
            r.valid == (argv@.len() == 1),
            r.valid ==> r.key@ == argv@[0]@,
    {
        if argv.len() != 1 {
            return Zcard::new_invalid();
        }
        Zcard::new(argv[0].as_str())
    }

    /// Replies with the number of members.
    pub fn zcard(&self, buf: &TxnBuffer, use_txn_api: bool) -> (r: Result<Frame, CmdError>)
        requires
            buf.wf(),
            zset_ok(buf@, utf8(self.key)),
        ensures
            !self.valid ==> r == Err::<Frame, CmdError>(CmdError::InvalidArguments),
            self.valid && !use_txn_api ==> r == Err::<Frame, CmdError>(CmdError::NotSupported),
            self.valid && use_txn_api && zset_status(buf@, utf8(self.key)) is Err ==> r == Err::<
                Frame,
                CmdError,
            >(zset_status(buf@, utf8(self.key))->Err_0),
            self.valid && use_txn_api && zset_status(buf@, utf8(self.key)) is Ok ==> r == Ok::<
                Frame,
                CmdError,
            >(Frame::Integer(zset_of(buf@, utf8(self.key)).dom().len() as i64)),
    {
        if !self.valid {
            return Err(CmdError::InvalidArguments);
        }
        if !use_txn_api {
            return Err(CmdError::NotSupported);
        }
        match ZsetCommandCtx::zcard(buf, self.key.as_str().as_bytes()) {
            Ok(n) => Ok(Frame::Integer(n as i64)),
            Err(e) => Err(e),
        }
    }
}

/// ZRANK: a key and a member.
pub struct Zrank {
    pub key: String,
    pub member: String,
    pub valid: bool,
}

impl Zrank {
    pub fn new(key: &str, member: &str) -> (r: Zrank)
        ensures
            r.key@ == key@,
            r.member@ == member@,
            r.valid,
    {
        Zrank { key: key.to_owned(), member: member.to_owned(), valid: true }
    }

    pub fn new_invalid() -> (r: Zrank)
        ensures
            !r.valid,
            r.key@ == Seq::<char>::empty(),
            r.member@ == Seq::<char>::empty(),
    {
        Zrank { key: String::new(), member: String::new(), valid: false }
    }

    pub fn parse_frames(parse: &mut Parse) -> (r: Result<Zrank, ParseError>)
        ensures
            old(parse).remaining().len() < 2 ==> r is Err,
            old(parse).remaining().len() >= 2 ==> r is Ok && r.unwrap().valid && r.unwrap().key@
                == old(parse).remaining()[0] && r.unwrap().member@ == old(parse).remaining()[1],
    {
        let key = parse.next_string()?;
        let member = parse.next_string()?;
        Ok(Zrank { key, member, valid: true })
    }

    pub fn parse_argv(argv: &Vec<String>) -> (r: Zrank)
        ensures
            r.valid == (argv@.len() == 2),
            r.valid ==> r.key@ == argv@[0]@ && r.member@ == argv@[1]@,
    {
        if argv.len() != 2 {
            return Zrank::new_invalid();
        }
        Zrank::new(argv[0].as_str(), argv[1].as_str())
    }

    /// Replies with the member's rank, or a null where it is no member.
    pub fn zrank(&self, buf: &TxnBuffer, use_txn_api: bool) -> (r: Result<Frame, CmdError>)
        requires
            buf.wf(),
            zset_ok(buf@, utf8(self.key)),
        ensures
            !self.valid ==> r == Err::<Frame, CmdError>(CmdError::InvalidArguments),
            self.valid && !use_txn_api ==> r == Err::<Frame, CmdError>(CmdError::NotSupported),
            self.valid && use_txn_api && zset_status(buf@, utf8(self.key)) is Err ==> r == Err::<
                Frame,
                CmdError,
            >(zset_status(buf@, utf8(self.key))->Err_0),
            self.valid && use_txn_api && zset_status(buf@, utf8(self.key)) is Ok ==> r == Ok::<
                Frame,
                CmdError,
            >(
                if zset_of(buf@, utf8(self.key)).contains_key(utf8(self.member)) {
                    Frame::Integer(rank_of(zset_of(buf@, utf8(self.key)), utf8(self.member)) as i64)
                } else {
                    Frame::Null
                },
            ),
    {
        if !self.valid {
            return Err(CmdError::InvalidArguments);
        }
        if !use_txn_api {
            return Err(CmdError::NotSupported);
        }
        match ZsetCommandCtx::zrank(buf, self.key.as_str().as_bytes(), self.member.as_str().as_bytes()) {
            Ok(Some(n)) => Ok(Frame::Integer(n as i64)),
            Ok(None) => Ok(Frame::Null),
            Err(e) => Err(e),
        }
    }
}

/// The number of members of `ms` that `z` holds, each counted once.
pub open spec fn removed_count(z: Set<Seq<u8>>, ms: Seq<Seq<u8>>) -> int
    decreases ms.len(),
{
    if ms.len() == 0 {
        0
    } else {
        removed_count(z, ms.drop_last()) + if z.contains(ms.last()) && !ms.drop_last().contains(
            ms.last(),
        ) {
            1int
        } else {
            0int
        }
    }
}

/// ZREM: a key and the members to remove.
pub struct Zrem {
    pub key: String,
    pub members: Vec<String>,
    pub valid: bool,
}

pub open spec fn member_bytes(ms: Seq<String>) -> Seq<Seq<u8>> {
    ms.map_values(|m: String| utf8(m))
}

impl Zrem {
    pub fn new(key: &str) -> (r: Zrem)
        ensures
            r.key@ == key@,
            r.members@.len() == 0,
            r.valid,
    {
        Zrem { key: key.to_owned(), members: Vec::new(), valid: true }
    }

    pub fn new_invalid() -> (r: Zrem)
        ensures
            !r.valid,
            r.key@ == Seq::<char>::empty(),
            r.members@.len() == 0,
    {
        Zrem { key: String::new(), members: Vec::new(), valid: false }
    }

    pub fn key(&self) -> (r: &str)
        ensures
            r@ == self.key@,
    {
        self.key.as_str()
    }

    pub fn set_key(&mut self, key: &str)
        ensures
            final(self).key@ == key@,
            final(self).members == old(self).members,
            final(self).valid == old(self).valid,
    {
        self.key = key.to_owned();
    }

    pub fn add_member(&mut self, member: &str)
        ensures
            final(self).members@.len() == old(self).members@.len() + 1,
            forall|i: int| 0 <= i < old(self).members@.len() ==> #[trigger] final(self).members@[i] == old(self).members@[i],
            final(self).members@.last()@ == member@,
            final(self).key == old(self).key,
            final(self).valid == old(self).valid,
    {
        self.members.push(member.to_owned());
    }

    pub fn parse_frames(parse: &mut Parse) -> (r: Result<Zrem, ParseError>)
        ensures
            old(parse).remaining().len() < 1 ==> r is Err,
            old(parse).remaining().len() >= 1 ==> r is Ok && r.unwrap().valid && r.unwrap().key@
                == old(parse).remaining()[0] && r.unwrap().members@.map_values(|s: String| s@)
                == old(parse).remaining().drop_first(),
    {
        let key = parse.next_string()?;
        let mut zrem = Zrem::new(key.as_str());
        let ghost rest = parse.remaining();
        loop
            invariant
                zrem.valid,
                zrem.key@ == key@,
                zrem.members@.map_values(|s: String| s@) + parse.remaining() == rest,
            ensures
                zrem.valid,
                zrem.key@ == key@,
                zrem.members@.map_values(|s: String| s@) == rest,
            decreases parse.remaining().len(),
        {
            let ghost before = parse.remaining();
            match parse.next_string() {
                Ok(member) => {
                    let ghost ms = zrem.members@;
                    zrem.add_member(member.as_str());
                    assert(zrem.members@.map_values(|s: String| s@) =~= ms.map_values(|s: String| s@).push(member@));
                    assert(before =~= seq![member@] + parse.remaining());
                    assert(zrem.members@.map_values(|s: String| s@) + parse.remaining() =~= rest);
                },
                Err(_) => {
                    assert(parse.remaining().len() == 0);
                    assert(zrem.members@.map_values(|s: String| s@) =~= rest);
                    break;
                },
            }
        }
        Ok(zrem)
    }

    pub fn parse_argv(argv: &Vec<String>) -> (r: Zrem)
        ensures
            r.valid == (argv@.len() >= 2),
            r.valid ==> r.key@ == argv@[0]@ && r.members@.map_values(|s: String| s@)
                == argv@.map_values(|s: String| s@).drop_first(),
    {
        if argv.len() < 2 {
            return Zrem::new_invalid();
        }
        let mut zrem = Zrem::new(argv[0].as_str());
        let mut i: usize = 1;
        while i < argv.len()
            invariant
                1 <= i <= argv@.len(),
                zrem.valid,
                zrem.key@ == argv@[0]@,
                zrem.members@.map_values(|s: String| s@) == argv@.map_values(|s: String| s@).subrange(1, i as int),
            decreases argv@.len() - i,
        {
            let ghost ms = zrem.members@;
            zrem.add_member(argv[i].as_str());
            assert(zrem.members@.map_values(|s: String| s@) =~= ms.map_values(|s: String| s@).push(argv@[i as int]@));
            assert(zrem.members@.map_values(|s: String| s@) =~= argv@.map_values(|s: String| s@).subrange(1, i + 1));
            i = i + 1;
        }
        assert(argv@.map_values(|s: String| s@).subrange(1, argv@.len() as int) =~= argv@.map_values(|s: String| s@).drop_first());
        zrem
    }

    /// Removes each member; replies with how many were there.
    pub fn zrem(&self, buf: &mut TxnBuffer, use_txn_api: bool) -> (r: Result<Frame, CmdError>)
        requires
            old(buf).wf(),
            zset_ok(old(buf)@, utf8(self.key)),
        ensures
            final(buf).wf(),
            zset_ok(final(buf)@, utf8(self.key)),
            !self.valid ==> r == Err::<Frame, CmdError>(CmdError::InvalidArguments),
            self.valid && !use_txn_api ==> r == Err::<Frame, CmdError>(CmdError::NotSupported),
            self.valid && use_txn_api && zset_status(old(buf)@, utf8(self.key)) is Err ==> r == Err::<
                Frame,
                CmdError,
            >(zset_status(old(buf)@, utf8(self.key))->Err_0),
            self.valid && use_txn_api && zset_status(old(buf)@, utf8(self.key)) is Ok ==> r == Ok::<
                Frame,
                CmdError,
            >(
                Frame::Integer(
                    removed_count(
                        zset_of(old(buf)@, utf8(self.key)).dom(),
                        member_bytes(self.members@),
                    ) as i64,
                ),
            ) && zset_of(final(buf)@, utf8(self.key)) == zset_of(old(buf)@, utf8(self.key)).remove_keys(
                member_bytes(self.members@).to_set(),
            ),
            self.valid && use_txn_api && zset_status(old(buf)@, utf8(self.key)) is Ok && removed_count(
                zset_of(old(buf)@, utf8(self.key)).dom(),
                member_bytes(self.members@),
            ) == 0 ==> final(buf)@ == old(buf)@,
            zset_status(old(buf)@, utf8(self.key)) == Ok::<Option<Meta>, CmdError>(None) ==> final(buf)@
                == old(buf)@,
            zset_status(old(buf)@, utf8(self.key)) is Ok && zset_of(final(buf)@, utf8(self.key)).is_empty()
                ==> zset_status(final(buf)@, utf8(self.key)) == Ok::<Option<Meta>, CmdError>(None),
            self.valid && use_txn_api && zset_status(old(buf)@, utf8(self.key)) is Ok && zset_status(
                old(buf)@,
                utf8(self.key),
            )->Ok_0 is Some ==> forall|j: int|
                0 <= j < self.members@.len() ==> member_gone(
                    final(buf)@,
                    utf8(self.key),
                    zset_status(old(buf)@, utf8(self.key))->Ok_0.unwrap().version,
                    #[trigger] member_bytes(self.members@)[j],
                ),
    {
        if !self.valid {
            return Err(CmdError::InvalidArguments);
        }
        if !use_txn_api {
            return Err(CmdError::NotSupported);
        }
        let k = self.key.as_str().as_bytes();
        let ghost kb = utf8(self.key);
        let ghost z0 = zset_of(buf@, kb).dom();
        let ghost ms = member_bytes(self.members@);
        match ZsetCommandCtx::zcard(buf, k) {
            Err(e) => {
                return Err(e);
            },
            Ok(_) => {},
        }
        proof {
            if zset_status(buf@, kb)->Ok_0 is Some {
                assert forall|m2: Seq<u8>| !#[trigger] zset_of(buf@, kb).contains_key(m2) implies member_gone(
                    buf@,
                    kb,
                    zset_status(buf@, kb)->Ok_0.unwrap().version,
                    m2,
                ) by {
                    lemma_nonmember_gone(buf@, kb, m2);
                }
            }
        }
        let mut count: usize = 0;
        let mut i: usize = 0;
        while i < self.members.len()
            invariant
                self.valid,
                use_txn_api,
                buf.wf(),
                zset_ok(buf@, kb),
                k@ == kb,
                ms == member_bytes(self.members@),
                z0 == zset_of(old(buf)@, kb).dom(),
                i <= self.members@.len(),
                zset_status(old(buf)@, kb) is Ok,
                zset_status(buf@, kb) is Ok,
                zset_of(buf@, kb) == zset_of(old(buf)@, kb).remove_keys(ms.subrange(0, i as int).to_set()),
                count == removed_count(z0, ms.subrange(0, i as int)),
                count == 0 ==> buf@ == old(buf)@,
                zset_status(old(buf)@, kb) == Ok::<Option<Meta>, CmdError>(None) ==> count == 0,
                zset_status(buf@, kb)->Ok_0 is Some ==> zset_status(old(buf)@, kb)->Ok_0 is Some
                    && zset_status(buf@, kb)->Ok_0.unwrap().version == zset_status(
                    old(buf)@,
                    kb,
                )->Ok_0.unwrap().version,
                zset_status(old(buf)@, kb)->Ok_0 is Some ==> forall|m2: Seq<u8>|
                    !#[trigger] zset_of(buf@, kb).contains_key(m2) ==> member_gone(
                        buf@,
                        kb,
                        zset_status(old(buf)@, kb)->Ok_0.unwrap().version,
                        m2,
                    ),
                0 <= count <= i,
            decreases self.members@.len() - i,
        {
            let ghost before = zset_of(buf@, kb).dom();
            let ghost pre_buf = buf@;
            let m = self.members[i].as_str().as_bytes();
            let removed = match ZsetCommandCtx::zrem(buf, k, m) {
                Ok(x) => x,
                Err(e) => {
                    return Err(e);
                },
            };
            proof {
                let pre = ms.subrange(0, i as int);
                let post = ms.subrange(0, i + 1);
                assert(ms[i as int] == m@);
                assert(post.drop_last() =~= pre);
                assert(post.last() == m@);
                assert(post.to_set() =~= pre.to_set().insert(m@)) by {
                    assert forall|x: Seq<u8>| post.to_set().contains(x) <==> pre.to_set().insert(m@).contains(x) by {
                        if post.contains(x) {
                            let j = choose|j: int| 0 <= j < post.len() && post[j] == x;
                            if j < i {
                                assert(pre[j] == x);
                            }
                        }
                        if pre.contains(x) {
                            let j = choose|j: int| 0 <= j < pre.len() && pre[j] == x;
                            assert(post[j] == x);
                        }
                        if x == m@ {
                            assert(post[i as int] == x);
                        }
                    }
                }
                assert(zset_of(buf@, kb) =~= zset_of(old(buf)@, kb).remove_keys(post.to_set()));
                if zset_status(old(buf)@, kb) == Ok::<Option<Meta>, CmdError>(None) {
                    assert(!z0.contains(m@));
                }
                assert(removed == (z0.contains(m@) && !pre.contains(m@)));
                if zset_status(old(buf)@, kb)->Ok_0 is Some {
                    let v0 = zset_status(old(buf)@, kb)->Ok_0.unwrap().version;
                    if removed {
                        assert(zset_of(pre_buf, kb).contains_key(m@));
                        assert(zset_status(pre_buf, kb)->Ok_0 is Some);
                    }
                    assert forall|m2: Seq<u8>| !#[trigger] zset_of(buf@, kb).contains_key(m2) implies member_gone(
                        buf@,
                        kb,
                        v0,
                        m2,
                    ) by {
                        if m2 != m@ || !removed {
                            assert(!zset_of(pre_buf, kb).contains_key(m2));
                            lemma_gone_stays_gone(pre_buf, buf@, kb, v0, m2);
                        }
                    }
                }
            }
            if removed {
                count = count + 1;
            }
            i = i + 1;
        }
        proof {
            assert(ms.subrange(0, i as int) =~= ms);
            if zset_status(old(buf)@, kb)->Ok_0 is Some {
                assert forall|j: int| 0 <= j < self.members@.len() implies member_gone(
                    buf@,
                    kb,
                    zset_status(old(buf)@, kb)->Ok_0.unwrap().version,
                    #[trigger] member_bytes(self.members@)[j],
                ) by {
                    assert(ms.to_set().contains(ms[j]));
                    assert(!zset_of(buf@, kb).contains_key(ms[j]));
                }
            }
            if zset_of(buf@, kb).is_empty() {
                if zset_status(buf@, kb)->Ok_0 is Some {
                    assert(zset_of(buf@, kb).dom() =~= Set::<Seq<u8>>::empty());
                }
            }
        }
        Ok(Frame::Integer(count as i64))
    }
}

} // verus!
