//! The command set: decoding a request frame into a command, encoding a
//! command for the append-only log, and running a command against the store.

use vstd::prelude::*;
use vstd::utf8::{valid_utf8, decode_utf8, encode_utf8};
use vstd::string::*;
use crate::decimal::{int_digits, nat_digits, spec_parse_i64, spec_parse_u64, parse_i64, parse_u64, format_i64, format_u128};
use crate::text::{ascii_upper, utf8_text, to_ascii_uppercase, str_eq, owned};
use crate::resp::{Frame, SpecFrame, frames_view, lemma_frames_view_index, lemma_frames_view_push, append_bytes};
use crate::storage::{
    Storage, Db, spec_get, spec_set, spec_del, spec_exists, spec_expire, spec_ttl, spec_incr_by,
    live_keys, capped, key_views, not_an_integer,
};

verus! {

broadcast use vstd::utf8::encode_utf8_decode_utf8, vstd::utf8::encode_utf8_valid_utf8;

/// A request, decoded.
#[derive(Debug, PartialEq)]
pub enum Command {
    Ping(Option<Vec<u8>>),
    Echo(Vec<u8>),
    Get(String),
    /// `ttl` is in nanoseconds.
    SetKey { key: String, value: Vec<u8>, ttl: Option<u128> },
    Del(Vec<String>),
    Exists(Vec<String>),
    /// `ttl` is in nanoseconds.
    Expire { key: String, ttl: u128 },
    Ttl(String),
    Incr(String),
    Decr(String),
    IncrBy { key: String, delta: i64 },
    DecrBy { key: String, delta: i64 },
    MGet(Vec<String>),
    MSet(Vec<(String, Vec<u8>)>),
    DbSize,
    FlushDb,
    Info,
    Command,
    Unknown(String),
}

/// The mathematical value of a command.
pub enum SpecCommand {
    Ping(Option<Seq<u8>>),
    Echo(Seq<u8>),
    Get(Seq<char>),
    SetKey { key: Seq<char>, value: Seq<u8>, ttl: Option<u128> },
    Del(Seq<Seq<char>>),
    Exists(Seq<Seq<char>>),
    Expire { key: Seq<char>, ttl: u128 },
    Ttl(Seq<char>),
    Incr(Seq<char>),
    Decr(Seq<char>),
    IncrBy { key: Seq<char>, delta: i64 },
    DecrBy { key: Seq<char>, delta: i64 },
    MGet(Seq<Seq<char>>),
    MSet(Seq<(Seq<char>, Seq<u8>)>),
    DbSize,
    FlushDb,
    Info,
    Command,
    Unknown(Seq<char>),
}

/// The views of key and value pairs.
pub open spec fn pair_views(pairs: Seq<(String, Vec<u8>)>) -> Seq<(Seq<char>, Seq<u8>)> {
    pairs.map_values(|p: (String, Vec<u8>)| (p.0@, p.1@))
}

impl View for Command {
    type V = SpecCommand;

    open spec fn view(&self) -> SpecCommand {
        match self {
            Command::Ping(m) => SpecCommand::Ping(
                match m {
                    Some(b) => Some(b@),
                    None => None,
                },
            ),
            Command::Echo(b) => SpecCommand::Echo(b@),
            Command::Get(k) => SpecCommand::Get(k@),
            Command::SetKey { key, value, ttl } => SpecCommand::SetKey { key: key@, value: value@, ttl: *ttl },
            Command::Del(ks) => SpecCommand::Del(key_views(ks@)),
            Command::Exists(ks) => SpecCommand::Exists(key_views(ks@)),
            Command::Expire { key, ttl } => SpecCommand::Expire { key: key@, ttl: *ttl },
            Command::Ttl(k) => SpecCommand::Ttl(k@),
            Command::Incr(k) => SpecCommand::Incr(k@),
            Command::Decr(k) => SpecCommand::Decr(k@),
            Command::IncrBy { key, delta } => SpecCommand::IncrBy { key: key@, delta: *delta },
            Command::DecrBy { key, delta } => SpecCommand::DecrBy { key: key@, delta: *delta },
            Command::MGet(ks) => SpecCommand::MGet(key_views(ks@)),
            Command::MSet(ps) => SpecCommand::MSet(pair_views(ps@)),
            Command::DbSize => SpecCommand::DbSize,
            Command::FlushDb => SpecCommand::FlushDb,
            Command::Info => SpecCommand::Info,
            Command::Command => SpecCommand::Command,
            Command::Unknown(n) => SpecCommand::Unknown(n@),
        }
    }
}

/// The text of a string argument.
pub open spec fn spec_extract_string(f: SpecFrame) -> Result<Seq<char>, Seq<char>> {
    match f {
        SpecFrame::Bulk(b) => if valid_utf8(b) {
            Ok(decode_utf8(b))
        } else {
            Err("ERR invalid UTF-8 string"@)
        },
        SpecFrame::Simple(s) => Ok(s),
        _ => Err("ERR expected string argument"@),
    }
}

/// The upper-case name of a command.
pub open spec fn spec_command_name(f: SpecFrame) -> Result<Seq<char>, Seq<char>> {
    match f {
        SpecFrame::Bulk(b) => if valid_utf8(b) {
            Ok(ascii_upper(decode_utf8(b)))
        } else {
            Err("ERR invalid command name"@)
        },
        SpecFrame::Simple(s) => Ok(ascii_upper(s)),
        _ => Err("ERR invalid command format"@),
    }
}

/// The string arguments `fs[i..]`, after those already read into `acc`; the
/// first argument that is not a string stops the reading.
pub open spec fn spec_string_args(fs: Seq<SpecFrame>, i: int, acc: Seq<Seq<char>>) -> Result<Seq<Seq<char>>, Seq<char>>
    decreases fs.len() - i,
{
    if i < 0 || i >= fs.len() {
        Ok(acc)
    } else {
        match spec_extract_string(fs[i]) {
            Err(e) => Err(e),
            Ok(k) => spec_string_args(fs, i + 1, acc.push(k)),
        }
    }
}

/// The key and value pairs `fs[i..]` of MSET, after those in `acc`.
pub open spec fn spec_mset_pairs(fs: Seq<SpecFrame>, i: int, acc: Seq<(Seq<char>, Seq<u8>)>) -> Result<Seq<(Seq<char>, Seq<u8>)>, Seq<char>>
    decreases fs.len() + 1 - i,
{
    if i < 0 || i >= fs.len() {
        Ok(acc)
    } else {
        match spec_extract_string(fs[i]) {
            Err(e) => Err(e),
            Ok(k) => match fs[i + 1] {
                SpecFrame::Bulk(v) => spec_mset_pairs(fs, i + 2, acc.push((k, v))),
                _ => Err("ERR invalid value in mset"@),
            },
        }
    }
}

/// A number of whole seconds or milliseconds read from a string argument, in
/// nanoseconds.
pub open spec fn spec_duration_arg(f: SpecFrame, unit: u128) -> Result<u128, Seq<char>> {
    match spec_extract_string(f) {
        Err(e) => Err(e),
        Ok(t) => match spec_parse_u64(encode_utf8(t)) {
            None => Err(not_an_integer()),
            Some(n) => Ok((n * unit) as u128),
        },
    }
}

/// The options of SET from `fs[idx..]`: `EX seconds` and `PX milliseconds`,
/// the last one given winning.
pub open spec fn spec_set_options(fs: Seq<SpecFrame>, idx: int, ttl: Option<u128>) -> Result<Option<u128>, Seq<char>>
    decreases fs.len() - idx,
{
    if idx < 0 || idx >= fs.len() {
        Ok(ttl)
    } else {
        match spec_extract_string(fs[idx]) {
            Err(e) => Err(e),
            Ok(o) => {
                let opt = ascii_upper(o);
                if opt == "EX"@ || opt == "PX"@ {
                    if idx + 1 >= fs.len() {
                        Err("ERR syntax error"@)
                    } else {
                        match spec_duration_arg(fs[idx + 1], if opt == "EX"@ { 1_000_000_000 } else { 1_000_000 }) {
                            Err(e) => Err(e),
                            Ok(d) => spec_set_options(fs, idx + 2, Some(d)),
                        }
                    }
                } else {
                    Err("ERR syntax error unknown option '"@ + opt + "'"@)
                }
            },
        }
    }
}

/// A key argument followed by an argument read by `second`.
pub open spec fn key_then<T>(fs: Seq<SpecFrame>, second: Result<T, Seq<char>>) -> Result<(Seq<char>, T), Seq<char>> {
    match spec_extract_string(fs[1]) {
        Err(e) => Err(e),
        Ok(k) => match second {
            Err(e) => Err(e),
            Ok(x) => Ok((k, x)),
        },
    }
}

/// The signed integer in a string argument.
pub open spec fn spec_int_arg(f: SpecFrame) -> Result<i64, Seq<char>> {
    match spec_extract_string(f) {
        Err(e) => Err(e),
        Ok(t) => match spec_parse_i64(encode_utf8(t)) {
            None => Err(not_an_integer()),
            Some(n) => Ok(n),
        },
    }
}

/// Decoding the arguments of command `name`.
#[verifier::opaque]
pub open spec fn spec_dispatch(name: Seq<char>, fs: Seq<SpecFrame>) -> Result<SpecCommand, Seq<char>> {
    let n = fs.len();
    if name == "PING"@ {
        if n > 2 {
            Err("ERR wrong number of arguments for 'ping' command"@)
        } else {
            Ok(SpecCommand::Ping(
                if n == 2 {
                    match fs[1] {
                        SpecFrame::Bulk(b) => Some(b),
                        _ => None,
                    }
                } else {
                    None
                },
            ))
        }
    } else if name == "ECHO"@ {
        if n != 2 {
            Err("ERR wrong number of arguments for 'echo' command"@)
        } else {
            match fs[1] {
                SpecFrame::Bulk(b) => Ok(SpecCommand::Echo(b)),
                _ => Err("ERR invalid argument for 'echo'"@),
            }
        }
    } else if name == "GET"@ {
        if n != 2 {
            Err("ERR wrong number of arguments for 'get' command"@)
        } else {
            match spec_extract_string(fs[1]) {
                Err(e) => Err(e),
                Ok(k) => Ok(SpecCommand::Get(k)),
            }
        }
    } else if name == "SET"@ {
        if n < 3 {
            Err("ERR wrong number of arguments for 'set' command"@)
        } else {
            match spec_extract_string(fs[1]) {
                Err(e) => Err(e),
                Ok(k) => match fs[2] {
                    SpecFrame::Bulk(v) => match spec_set_options(fs, 3, None) {
                        Err(e) => Err(e),
                        Ok(ttl) => Ok(SpecCommand::SetKey { key: k, value: v, ttl }),
                    },
                    _ => Err("ERR invalid value for 'set'"@),
                },
            }
        }
    } else if name == "DEL"@ {
        if n < 2 {
            Err("ERR wrong number of arguments for 'del' command"@)
        } else {
            match spec_string_args(fs, 1, seq![]) {
                Err(e) => Err(e),
                Ok(ks) => Ok(SpecCommand::Del(ks)),
            }
        }
    } else if name == "EXISTS"@ {
        if n < 2 {
            Err("ERR wrong number of arguments for 'exists' command"@)
        } else {
            match spec_string_args(fs, 1, seq![]) {
                Err(e) => Err(e),
                Ok(ks) => Ok(SpecCommand::Exists(ks)),
            }
        }
    } else if name == "EXPIRE"@ {
        if n != 3 {
            Err("ERR wrong number of arguments for 'expire' command"@)
        } else {
            match key_then(fs, spec_duration_arg(fs[2], 1_000_000_000)) {
                Err(e) => Err(e),
                Ok((k, d)) => Ok(SpecCommand::Expire { key: k, ttl: d }),
            }
        }
    } else if name == "TTL"@ || name == "INCR"@ || name == "DECR"@ {
        if n != 2 {
            Err(
                if name == "TTL"@ {
                    "ERR wrong number of arguments for 'ttl' command"@
                } else if name == "INCR"@ {
                    "ERR wrong number of arguments for 'incr' command"@
                } else {
                    "ERR wrong number of arguments for 'decr' command"@
                },
            )
        } else {
            match spec_extract_string(fs[1]) {
                Err(e) => Err(e),
                Ok(k) => Ok(
                    if name == "TTL"@ {
                        SpecCommand::Ttl(k)
                    } else if name == "INCR"@ {
                        SpecCommand::Incr(k)
                    } else {
                        SpecCommand::Decr(k)
                    },
                ),
            }
        }
    } else if name == "INCRBY"@ || name == "DECRBY"@ {
        if n != 3 {
            Err(
                if name == "INCRBY"@ {
                    "ERR wrong number of arguments for 'incrby' command"@
                } else {
                    "ERR wrong number of arguments for 'decrby' command"@
                },
            )
        } else {
            match key_then(fs, spec_int_arg(fs[2])) {
                Err(e) => Err(e),
                Ok((k, d)) => Ok(
                    if name == "INCRBY"@ {
                        SpecCommand::IncrBy { key: k, delta: d }
                    } else {
                        SpecCommand::DecrBy { key: k, delta: d }
                    },
                ),
            }
        }
    } else if name == "MGET"@ {
        if n < 2 {
            Err("ERR wrong number of arguments for 'mget' command"@)
        } else {
            match spec_string_args(fs, 1, seq![]) {
                Err(e) => Err(e),
                Ok(ks) => Ok(SpecCommand::MGet(ks)),
            }
        }
    } else if name == "MSET"@ {
        if n < 3 || (n - 1) % 2 != 0 {
            Err("ERR wrong number of arguments for 'mset' command"@)
        } else {
            match spec_mset_pairs(fs, 1, seq![]) {
                Err(e) => Err(e),
                Ok(ps) => Ok(SpecCommand::MSet(ps)),
            }
        }
    } else if name == "DBSIZE"@ {
        Ok(SpecCommand::DbSize)
    } else if name == "FLUSHDB"@ {
        Ok(SpecCommand::FlushDb)
    } else if name == "INFO"@ {
        Ok(SpecCommand::Info)
    } else if name == "COMMAND"@ {
        Ok(SpecCommand::Command)
    } else {
        Ok(SpecCommand::Unknown(name))
    }
}

/// Decoding a request frame: what [`Command::from_frame`] returns.
pub open spec fn spec_from_frame(f: SpecFrame) -> Result<SpecCommand, Seq<char>> {
    match f {
        SpecFrame::Array(items) => if items.len() == 0 {
            Err("ERR empty command"@)
        } else {
            match spec_command_name(items[0]) {
                Err(e) => Err(e),
                Ok(name) => spec_dispatch(name, items),
            }
        },
        _ => Err("ERR expected array of bulk strings"@),
    }
}


/// A bulk string holding the UTF-8 encoding of `s`.
pub open spec fn text_bulk(s: Seq<char>) -> SpecFrame {
    SpecFrame::Bulk(encode_utf8(s))
}

/// The frames of MSET's key and value pairs, in order.
pub open spec fn mset_frames(ps: Seq<(Seq<char>, Seq<u8>)>) -> Seq<SpecFrame>
    decreases ps.len(),
{
    if ps.len() == 0 {
        seq![]
    } else {
        mset_frames(ps.drop_last()) + seq![text_bulk(ps.last().0), SpecFrame::Bulk(ps.last().1)]
    }
}

/// The canonical array frame of a state-changing command, as written to the
/// append-only log; `None` for the other commands.
pub open spec fn spec_to_frame(c: SpecCommand) -> Option<SpecFrame> {
    match c {
        SpecCommand::SetKey { key, value, ttl } => Some(SpecFrame::Array(
            seq![text_bulk("SET"@), text_bulk(key), SpecFrame::Bulk(value)] + match ttl {
                Some(t) => seq![text_bulk("EX"@), SpecFrame::Bulk(nat_digits((t / 1_000_000_000) as nat))],
                None => seq![],
            },
        )),
        SpecCommand::Del(keys) => Some(SpecFrame::Array(
            seq![text_bulk("DEL"@)] + keys.map_values(|k: Seq<char>| text_bulk(k)),
        )),
        SpecCommand::Expire { key, ttl } => Some(SpecFrame::Array(
            seq![text_bulk("EXPIRE"@), text_bulk(key), SpecFrame::Bulk(nat_digits((ttl / 1_000_000_000) as nat))],
        )),
        SpecCommand::Incr(key) => Some(SpecFrame::Array(seq![text_bulk("INCR"@), text_bulk(key)])),
        SpecCommand::Decr(key) => Some(SpecFrame::Array(seq![text_bulk("DECR"@), text_bulk(key)])),
        SpecCommand::IncrBy { key, delta } => Some(SpecFrame::Array(
            seq![text_bulk("INCRBY"@), text_bulk(key), SpecFrame::Bulk(int_digits(delta as int))],
        )),
        SpecCommand::DecrBy { key, delta } => Some(SpecFrame::Array(
            seq![text_bulk("DECRBY"@), text_bulk(key), SpecFrame::Bulk(int_digits(delta as int))],
        )),
        SpecCommand::MSet(ps) => Some(SpecFrame::Array(seq![text_bulk("MSET"@)] + mset_frames(ps))),
        SpecCommand::FlushDb => Some(SpecFrame::Array(seq![text_bulk("FLUSHDB"@)])),
        _ => None,
    }
}

/// The command changes the store, and so belongs in the append-only log.
pub open spec fn spec_is_mutating(c: SpecCommand) -> bool {
    ||| c is SetKey
    ||| c is Del
    ||| c is Expire
    ||| c is Incr
    ||| c is Decr
    ||| c is IncrBy
    ||| c is DecrBy
    ||| c is MSet
    ||| c is FlushDb
}

/// DECRBY with the smallest `i64`, whose negation overflows.
pub open spec fn negation_overflows(c: SpecCommand) -> bool {
    c matches SpecCommand::DecrBy { delta, .. } && delta == i64::MIN
}

/// The reply to an increment.
pub open spec fn int_reply(r: Result<i64, Seq<char>>) -> SpecFrame {
    match r {
        Ok(v) => SpecFrame::Integer(v),
        Err(m) => SpecFrame::Error(m),
    }
}

/// Reading `keys` in order at `now`: one reply per key, and what is left.
pub open spec fn spec_mget(db: Db, keys: Seq<Seq<char>>, now: u128) -> (Seq<SpecFrame>, Db)
    decreases keys.len(),
{
    if keys.len() == 0 {
        (seq![], db)
    } else {
        let (fs, d) = spec_mget(db, keys.drop_last(), now);
        let (r, d2) = spec_get(d, keys.last(), now);
        (fs.push(match r {
            Some(v) => SpecFrame::Bulk(v),
            None => SpecFrame::Null,
        }), d2)
    }
}

/// Storing the pairs `ps` in order at `now`, none of them expiring.
pub open spec fn spec_mset(db: Db, ps: Seq<(Seq<char>, Seq<u8>)>, now: u128) -> Db
    decreases ps.len(),
{
    if ps.len() == 0 {
        db
    } else {
        spec_set(spec_mset(db, ps.drop_last(), now), ps.last().0, ps.last().1, None, now)
    }
}

/// The start of the INFO reply, up to the key count.
pub open spec fn info_head() -> Seq<char> {
    "# Server\r\nferrite_version:0.1.0\r\ntcp_port:6379\r\n# Keyspace\r\nkeys="@
}

/// The INFO reply for a store holding `n` live keys.
pub open spec fn info_text(n: usize) -> Seq<u8> {
    encode_utf8(info_head()) + nat_digits(n as nat) + seq![13u8, 10u8]
}

/// Running command `c` against `db` at time `now`: the reply, and the store
/// after.
#[verifier::opaque]
pub open spec fn spec_execute(c: SpecCommand, db: Db, now: u128) -> (SpecFrame, Db) {
    match c {
        SpecCommand::Ping(m) => (match m {
            Some(b) => SpecFrame::Bulk(b),
            None => SpecFrame::Simple("PONG"@),
        }, db),
        SpecCommand::Echo(b) => (SpecFrame::Bulk(b), db),
        SpecCommand::Get(k) => {
            let (r, d) = spec_get(db, k, now);
            (match r {
                Some(v) => SpecFrame::Bulk(v),
                None => SpecFrame::Null,
            }, d)
        },
        SpecCommand::SetKey { key, value, ttl } => (SpecFrame::Simple("OK"@), spec_set(db, key, value, ttl, now)),
        SpecCommand::Del(ks) => {
            let (n, d) = spec_del(db, ks, now);
            (SpecFrame::Integer(n as i64), d)
        },
        SpecCommand::Exists(ks) => {
            let (n, d) = spec_exists(db, ks, now);
            (SpecFrame::Integer(n as i64), d)
        },
        SpecCommand::Expire { key, ttl } => {
            let (b, d) = spec_expire(db, key, ttl, now);
            (SpecFrame::Integer(if b { 1 } else { 0 }), d)
        },
        SpecCommand::Ttl(k) => (SpecFrame::Integer(spec_ttl(db, k, now)), db),
        SpecCommand::Incr(k) => {
            let (r, d) = spec_incr_by(db, k, 1, now);
            (int_reply(r), d)
        },
        SpecCommand::Decr(k) => {
            let (r, d) = spec_incr_by(db, k, -1i64, now);
            (int_reply(r), d)
        },
        SpecCommand::IncrBy { key, delta } => {
            let (r, d) = spec_incr_by(db, key, delta, now);
            (int_reply(r), d)
        },
        SpecCommand::DecrBy { key, delta } => {
            let (r, d) = spec_incr_by(db, key, (-delta) as i64, now);
            (int_reply(r), d)
        },
        SpecCommand::MGet(ks) => {
            let (fs, d) = spec_mget(db, ks, now);
            (SpecFrame::Array(fs), d)
        },
        SpecCommand::MSet(ps) => (SpecFrame::Simple("OK"@), spec_mset(db, ps, now)),
        SpecCommand::DbSize => (SpecFrame::Integer(capped(live_keys(db, now).len()) as i64), db),
        SpecCommand::FlushDb => (SpecFrame::Simple("OK"@), Map::empty()),
        SpecCommand::Info => (SpecFrame::Bulk(info_text(capped(live_keys(db, now).len()))), db),
        SpecCommand::Command => (SpecFrame::Array(seq![]), db),
        SpecCommand::Unknown(n) => (SpecFrame::Error("ERR unknown command '"@ + n + "'"@), db),
    }
}

/// The mathematical value of a result with a text error.
pub open spec fn str_res(r: Result<String, String>) -> Result<Seq<char>, Seq<char>> {
    match r {
        Ok(s) => Ok(s@),
        Err(e) => Err(e@),
    }
}

/// The mathematical value of a decoding result.
pub open spec fn cmd_res(r: Result<Command, String>) -> Result<SpecCommand, Seq<char>> {
    match r {
        Ok(c) => Ok(c@),
        Err(e) => Err(e@),
    }
}

/// A copy of a byte vector.
fn copy_bytes(b: &Vec<u8>) -> (r: Vec<u8>)
    ensures
        r@ == b@,
{
    vstd::slice::slice_to_vec(b.as_slice())
}

/// The text of a string argument.
fn extract_string(frame: &Frame) -> (r: Result<String, String>)
    ensures
        str_res(r) == spec_extract_string(frame@),
{
    match frame {
        Frame::Bulk(b) => match utf8_text(b.as_slice()) {
            Some(t) => Ok(owned(t)),
            None => Err(owned("ERR invalid UTF-8 string")),
        },
        Frame::Simple(s) => Ok(owned(s.as_str())),
        _ => Err(owned("ERR expected string argument")),
    }
}

/// The string arguments `items[start..]`.
fn string_args(items: &Vec<Frame>, start: usize) -> (r: Result<Vec<String>, String>)
    requires
        start <= items@.len(),
    ensures
        match r {
            Ok(ks) => spec_string_args(frames_view(items@), start as int, seq![]) == Ok::<Seq<Seq<char>>, Seq<char>>(key_views(ks@)),
            Err(e) => spec_string_args(frames_view(items@), start as int, seq![]) == Err::<Seq<Seq<char>>, Seq<char>>(e@),
        },
{
    let ghost fs = frames_view(items@);
    proof { lemma_frames_view_index(items@); }
    let mut keys: Vec<String> = Vec::new();
    let mut i: usize = start;
    assert(key_views(keys@) =~= Seq::<Seq<char>>::empty());
    while i < items.len()
        invariant
            start <= i <= items@.len(),
            fs == frames_view(items@),
            fs.len() == items@.len(),
            forall|j: int| 0 <= j < items@.len() ==> #[trigger] fs[j] == items@[j]@,
            spec_string_args(fs, start as int, seq![]) == spec_string_args(fs, i as int, key_views(keys@)),
        decreases items@.len() - i,
    {
        let k = extract_string(&items[i])?;
        proof {
            assert(key_views(keys@.push(k)) =~= key_views(keys@).push(k@));
        }
        keys.push(k);
        i = i + 1;
    }
    Ok(keys)
}

/// The key and value pairs of MSET, from `items[1..]`.
fn mset_pairs(items: &Vec<Frame>) -> (r: Result<Vec<(String, Vec<u8>)>, String>)
    requires
        items@.len() >= 1,
        (items@.len() - 1) % 2 == 0,
    ensures
        match r {
            Ok(ps) => spec_mset_pairs(frames_view(items@), 1, seq![]) == Ok::<Seq<(Seq<char>, Seq<u8>)>, Seq<char>>(pair_views(ps@)),
            Err(e) => spec_mset_pairs(frames_view(items@), 1, seq![]) == Err::<Seq<(Seq<char>, Seq<u8>)>, Seq<char>>(e@),
        },
{
    let ghost fs = frames_view(items@);
    proof { lemma_frames_view_index(items@); }
    let mut pairs: Vec<(String, Vec<u8>)> = Vec::new();
    let mut i: usize = 1;
    assert(pair_views(pairs@) =~= Seq::<(Seq<char>, Seq<u8>)>::empty());
    while i < items.len()
        invariant
            1 <= i <= items@.len(),
            (i - 1) % 2 == 0,
            (items@.len() - 1) % 2 == 0,
            fs == frames_view(items@),
            fs.len() == items@.len(),
            forall|j: int| 0 <= j < items@.len() ==> #[trigger] fs[j] == items@[j]@,
            spec_mset_pairs(fs, 1, seq![]) == spec_mset_pairs(fs, i as int, pair_views(pairs@)),
        decreases items@.len() - i,
    {
        let k = extract_string(&items[i])?;
        let v = match &items[i + 1] {
            Frame::Bulk(b) => copy_bytes(b),
            _ => return Err(owned("ERR invalid value in mset")),
        };
        proof {
            assert(pair_views(pairs@.push((k, v))) =~= pair_views(pairs@).push((k@, v@)));
        }
        pairs.push((k, v));
        i = i + 2;
    }
    Ok(pairs)
}

/// A number of seconds or milliseconds from a string argument, scaled to
/// nanoseconds by `unit`.
fn duration_arg(frame: &Frame, unit: u128) -> (r: Result<u128, String>)
    requires
        unit <= 1_000_000_000,
    ensures
        match r {
            Ok(d) => spec_duration_arg(frame@, unit) == Ok::<u128, Seq<char>>(d),
            Err(e) => spec_duration_arg(frame@, unit) == Err::<u128, Seq<char>>(e@),
        },
{
    let t = extract_string(frame)?;
    match parse_u64(t.as_str().as_bytes()) {
        None => Err(owned("ERR value is not an integer or out of range")),
        Some(n) => {
            assert((n as u128) * unit <= 18446744073709551615u128 * 1_000_000_000u128) by (nonlinear_arith)
                requires
                    n <= u64::MAX,
                    unit <= 1_000_000_000,
            ;
            Ok((n as u128) * unit)
        },
    }
}

/// A signed integer from a string argument.
fn int_arg(frame: &Frame) -> (r: Result<i64, String>)
    ensures
        match r {
            Ok(d) => spec_int_arg(frame@) == Ok::<i64, Seq<char>>(d),
            Err(e) => spec_int_arg(frame@) == Err::<i64, Seq<char>>(e@),
        },
{
    let t = extract_string(frame)?;
    match parse_i64(t.as_str().as_bytes()) {
        None => Err(owned("ERR value is not an integer or out of range")),
        Some(n) => Ok(n),
    }
}

/// The options of SET, from `items[3..]`.
fn set_options(items: &Vec<Frame>) -> (r: Result<Option<u128>, String>)
    requires
        items@.len() >= 3,
    ensures
        match r {
            Ok(t) => spec_set_options(frames_view(items@), 3, None) == Ok::<Option<u128>, Seq<char>>(t),
            Err(e) => spec_set_options(frames_view(items@), 3, None) == Err::<Option<u128>, Seq<char>>(e@),
        },
{
    let ghost fs = frames_view(items@);
    proof { lemma_frames_view_index(items@); }
    let mut ttl: Option<u128> = None;
    let mut idx: usize = 3;
    while idx < items.len()
        invariant
            3 <= idx <= items@.len(),
            fs == frames_view(items@),
            fs.len() == items@.len(),
            forall|j: int| 0 <= j < items@.len() ==> #[trigger] fs[j] == items@[j]@,
            spec_set_options(fs, 3, None) == spec_set_options(fs, idx as int, ttl),
        decreases items@.len() - idx,
    {
        let o = extract_string(&items[idx])?;
        let opt = to_ascii_uppercase(o.as_str());
        let is_ex = str_eq(opt.as_str(), "EX");
        let is_px = str_eq(opt.as_str(), "PX");
        if is_ex || is_px {
            if idx + 1 >= items.len() {
                return Err(owned("ERR syntax error"));
            }
            let unit: u128 = if is_ex { 1_000_000_000 } else { 1_000_000 };
            let d = duration_arg(&items[idx + 1], unit)?;
            ttl = Some(d);
            idx = idx + 2;
        } else {
            let msg = owned("ERR syntax error unknown option '").concat(opt.as_str()).concat("'");
            return Err(msg);
        }
    }
    Ok(ttl)
}

/// A bulk frame holding the UTF-8 encoding of `s`.
fn text_frame(s: &str) -> (f: Frame)
    ensures
        f@ == text_bulk(s@),
{
    Frame::Bulk(vstd::slice::slice_to_vec(s.as_bytes()))
}

/// The mathematical value of an optional frame.
pub open spec fn opt_frame(r: Option<Frame>) -> Option<SpecFrame> {
    match r {
        Some(f) => Some(f@),
        None => None,
    }
}

/// Appends `f` to `v`.
fn push_frame(v: &mut Vec<Frame>, f: Frame)
    ensures
        frames_view(final(v)@) == frames_view(old(v)@).push(f@),
{
    proof { lemma_frames_view_push(v@, f); }
    v.push(f);
}

/// The reply to an increment: the new value, or the error.
fn incr_reply(r: Result<i64, String>) -> (f: Frame)
    ensures
        f@ == int_reply(match r { Ok(v) => Ok::<i64, Seq<char>>(v), Err(m) => Err(m@) }),
{
    match r {
        Ok(v) => Frame::Integer(v),
        Err(m) => Frame::Error(m),
    }
}

/// A copy of a list of keys.
fn copy_keys(keys: &Vec<String>) -> (r: Vec<String>)
    ensures
        key_views(r@) == key_views(keys@),
{
    let mut out: Vec<String> = Vec::new();
    let mut i: usize = 0;
    while i < keys.len()
        invariant
            i <= keys@.len(),
            out@.len() == i,
            forall|j: int| 0 <= j < i ==> #[trigger] out@[j]@ == keys@[j]@,
        decreases keys@.len() - i,
    {
        out.push(keys[i].clone());
        i = i + 1;
    }
    assert(key_views(out@) =~= key_views(keys@));
    out
}

/// A copy of a list of key and value pairs.
fn copy_pairs(pairs: &Vec<(String, Vec<u8>)>) -> (r: Vec<(String, Vec<u8>)>)
    ensures
        pair_views(r@) == pair_views(pairs@),
{
    let mut out: Vec<(String, Vec<u8>)> = Vec::new();
    let mut i: usize = 0;
    while i < pairs.len()
        invariant
            i <= pairs@.len(),
            out@.len() == i,
            forall|j: int| 0 <= j < i ==> (#[trigger] out@[j]).0@ == pairs@[j].0@ && out@[j].1@ == pairs@[j].1@,
        decreases pairs@.len() - i,
    {
        let (k, v) = &pairs[i];
        out.push((k.clone(), copy_bytes(v)));
        i = i + 1;
    }
    assert(pair_views(out@) =~= pair_views(pairs@));
    out
}

impl Clone for Command {
    /// A copy of the command.
    fn clone(&self) -> (r: Command)
        ensures
            r@ == self@,
    {
        match self {
            Command::Ping(m) => Command::Ping(
                match m {
                    Some(b) => Some(copy_bytes(b)),
                    None => None,
                },
            ),
            Command::Echo(b) => Command::Echo(copy_bytes(b)),
            Command::Get(k) => Command::Get(k.clone()),
            Command::SetKey { key, value, ttl } => Command::SetKey { key: key.clone(), value: copy_bytes(value), ttl: *ttl },
            Command::Del(ks) => Command::Del(copy_keys(ks)),
            Command::Exists(ks) => Command::Exists(copy_keys(ks)),
            Command::Expire { key, ttl } => Command::Expire { key: key.clone(), ttl: *ttl },
            Command::Ttl(k) => Command::Ttl(k.clone()),
            Command::Incr(k) => Command::Incr(k.clone()),
            Command::Decr(k) => Command::Decr(k.clone()),
            Command::IncrBy { key, delta } => Command::IncrBy { key: key.clone(), delta: *delta },
            Command::DecrBy { key, delta } => Command::DecrBy { key: key.clone(), delta: *delta },
            Command::MGet(ks) => Command::MGet(copy_keys(ks)),
            Command::MSet(ps) => Command::MSet(copy_pairs(ps)),
            Command::DbSize => Command::DbSize,
            Command::FlushDb => Command::FlushDb,
            Command::Info => Command::Info,
            Command::Command => Command::Command,
            Command::Unknown(n) => Command::Unknown(n.clone()),
        }
    }
}

impl Command {

    /// Whether this command changes the store (and so must be written to the
    /// append-only log).
    pub fn is_mutating(&self) -> (r: bool)
        ensures
            r == spec_is_mutating(self@),
    {
        match self {
            Command::SetKey { .. } => true,
            Command::Del(_) => true,
            Command::Expire { .. } => true,
            Command::Incr(_) => true,
            Command::Decr(_) => true,
            Command::IncrBy { .. } => true,
            Command::DecrBy { .. } => true,
            Command::MSet(_) => true,
            Command::FlushDb => true,
            _ => false,
        }
    }

    /// Whether running this command would negate the smallest `i64`.
    pub fn negation_overflows(&self) -> (r: bool)
        ensures
            r == negation_overflows(self@),
    {
        match self {
            Command::DecrBy { delta, .. } => *delta == i64::MIN,
            _ => false,
        }
    }

    /// Encodes this command back into a canonical RESP array frame, for the
    /// append-only log; `None` for commands that change nothing.
    #[verifier::spinoff_prover]
    #[verifier::rlimit(40)]
    pub fn to_frame(&self) -> (r: Option<Frame>)
        ensures
            opt_frame(r) == spec_to_frame(self@),
    {
        let mut parts: Vec<Frame> = Vec::new();
        assert(frames_view(parts@) =~= Seq::<SpecFrame>::empty());
        match self {
            Command::SetKey { key, value, ttl } => {
                push_frame(&mut parts, text_frame("SET"));
                push_frame(&mut parts, text_frame(key.as_str()));
                push_frame(&mut parts, Frame::Bulk(copy_bytes(value)));
                match ttl {
                    Some(t) => {
                        push_frame(&mut parts, text_frame("EX"));
                        push_frame(&mut parts, Frame::Bulk(format_u128(*t / 1_000_000_000)));
                    },
                    None => {},
                }
                assert(frames_view(parts@) =~= spec_to_frame(self@)->Some_0->Array_0);
            },
            Command::Del(keys) => {
                push_frame(&mut parts, text_frame("DEL"));
                let mut i: usize = 0;
                while i < keys.len()
                    invariant
                        i <= keys@.len(),
                        frames_view(parts@) == seq![text_bulk("DEL"@)] + key_views(keys@).take(i as int).map_values(|k: Seq<char>| text_bulk(k)),
                    decreases keys@.len() - i,
                {
                    push_frame(&mut parts, text_frame(keys[i].as_str()));
                    proof {
                        assert(key_views(keys@).take(i + 1).map_values(|k: Seq<char>| text_bulk(k)) =~= key_views(keys@).take(i as int).map_values(|k: Seq<char>| text_bulk(k)).push(text_bulk(keys@[i as int]@)));
                    }
                    i = i + 1;
                }
                assert(key_views(keys@).take(i as int) =~= key_views(keys@));
                assert(frames_view(parts@) =~= spec_to_frame(self@)->Some_0->Array_0);
            },
            Command::Expire { key, ttl } => {
                push_frame(&mut parts, text_frame("EXPIRE"));
                push_frame(&mut parts, text_frame(key.as_str()));
                push_frame(&mut parts, Frame::Bulk(format_u128(*ttl / 1_000_000_000)));
                assert(frames_view(parts@) =~= spec_to_frame(self@)->Some_0->Array_0);
            },
            Command::Incr(key) => {
                push_frame(&mut parts, text_frame("INCR"));
                push_frame(&mut parts, text_frame(key.as_str()));
                assert(frames_view(parts@) =~= spec_to_frame(self@)->Some_0->Array_0);
            },
            Command::Decr(key) => {
                push_frame(&mut parts, text_frame("DECR"));
                push_frame(&mut parts, text_frame(key.as_str()));
                assert(frames_view(parts@) =~= spec_to_frame(self@)->Some_0->Array_0);
            },
            Command::IncrBy { key, delta } => {
                push_frame(&mut parts, text_frame("INCRBY"));
                push_frame(&mut parts, text_frame(key.as_str()));
                push_frame(&mut parts, Frame::Bulk(format_i64(*delta)));
                assert(frames_view(parts@) =~= spec_to_frame(self@)->Some_0->Array_0);
            },
            Command::DecrBy { key, delta } => {
                push_frame(&mut parts, text_frame("DECRBY"));
                push_frame(&mut parts, text_frame(key.as_str()));
                push_frame(&mut parts, Frame::Bulk(format_i64(*delta)));
                assert(frames_view(parts@) =~= spec_to_frame(self@)->Some_0->Array_0);
            },
            Command::MSet(pairs) => {
                push_frame(&mut parts, text_frame("MSET"));
                let mut i: usize = 0;
                while i < pairs.len()
                    invariant
                        i <= pairs@.len(),
                        frames_view(parts@) == seq![text_bulk("MSET"@)] + mset_frames(pair_views(pairs@).take(i as int)),
                    decreases pairs@.len() - i,
                {
                    push_frame(&mut parts, text_frame(pairs[i].0.as_str()));
                    push_frame(&mut parts, Frame::Bulk(copy_bytes(&pairs[i].1)));
                    proof {
                        assert(pair_views(pairs@).take(i + 1).drop_last() =~= pair_views(pairs@).take(i as int));
                    }
                    i = i + 1;
                }
                assert(pair_views(pairs@).take(i as int) =~= pair_views(pairs@));
                assert(frames_view(parts@) =~= spec_to_frame(self@)->Some_0->Array_0);
            },
            Command::FlushDb => {
                push_frame(&mut parts, text_frame("FLUSHDB"));
                assert(frames_view(parts@) =~= spec_to_frame(self@)->Some_0->Array_0);
            },
            _ => {
                return None;
            },
        }
        Some(Frame::Array(parts))
    }


    /// Runs this command against `db` at time `now` and returns the reply.
    pub fn execute_at(self, db: &mut Storage, now: u128) -> (r: Frame)
        requires
            old(db).wf(),
            !negation_overflows(self@),
        ensures
            final(db).wf(),
            (r@, final(db)@) == spec_execute(self@, old(db)@, now),
    {
        let ghost c = self@;
        proof {
            reveal(spec_execute);
        }
        match self {
            Command::Ping(msg) => match msg {
                Some(m) => Frame::Bulk(m),
                None => Frame::Simple(owned("PONG")),
            },
            Command::Echo(m) => Frame::Bulk(m),
            Command::Get(key) => match db.get_at(key.as_str(), now) {
                Some(v) => Frame::Bulk(v),
                None => Frame::Null,
            },
            Command::SetKey { key, value, ttl } => {
                db.set_at(key, value, ttl, now);
                Frame::Simple(owned("OK"))
            },
            Command::Del(keys) => {
                let n = db.del_at(keys.as_slice(), now);
                Frame::Integer(n as i64)
            },
            Command::Exists(keys) => {
                let n = db.exists_keys_at(keys.as_slice(), now);
                Frame::Integer(n as i64)
            },
            Command::Expire { key, ttl } => {
                let set = db.expire_at(key.as_str(), ttl, now);
                Frame::Integer(if set { 1 } else { 0 })
            },
            Command::Ttl(key) => Frame::Integer(db.ttl_at(key.as_str(), now)),
            Command::Incr(key) => incr_reply(db.incr_by_at(key, 1, now)),
            Command::Decr(key) => incr_reply(db.incr_by_at(key, -1, now)),
            Command::IncrBy { key, delta } => incr_reply(db.incr_by_at(key, delta, now)),
            Command::DecrBy { key, delta } => incr_reply(db.incr_by_at(key, -delta, now)),
            Command::MGet(keys) => {
                let mut results: Vec<Frame> = Vec::new();
                let mut i: usize = 0;
                assert(frames_view(results@) =~= Seq::<SpecFrame>::empty());
                while i < keys.len()
                    invariant
                        db.wf(),
                        i <= keys@.len(),
                        (frames_view(results@), db@) == spec_mget(old(db)@, key_views(keys@).take(i as int), now),
                    decreases keys@.len() - i,
                {
                    proof {
                        assert(key_views(keys@).take(i + 1).drop_last() =~= key_views(keys@).take(i as int));
                    }
                    match db.get_at(keys[i].as_str(), now) {
                        Some(v) => push_frame(&mut results, Frame::Bulk(v)),
                        None => push_frame(&mut results, Frame::Null),
                    }
                    i = i + 1;
                }
                assert(key_views(keys@).take(i as int) =~= key_views(keys@));
                Frame::Array(results)
            },
            Command::MSet(pairs) => {
                let mut i: usize = 0;
                while i < pairs.len()
                    invariant
                        db.wf(),
                        i <= pairs@.len(),
                        db@ == spec_mset(old(db)@, pair_views(pairs@).take(i as int), now),
                    decreases pairs@.len() - i,
                {
                    proof {
                        assert(pair_views(pairs@).take(i + 1).drop_last() =~= pair_views(pairs@).take(i as int));
                    }
                    db.set_at(owned(pairs[i].0.as_str()), copy_bytes(&pairs[i].1), None, now);
                    i = i + 1;
                }
                assert(pair_views(pairs@).take(i as int) =~= pair_views(pairs@));
                Frame::Simple(owned("OK"))
            },
            Command::DbSize => {
                let size = db.dbsize_at(now);
                Frame::Integer(size as i64)
            },
            Command::FlushDb => {
                db.flushdb();
                Frame::Simple(owned("OK"))
            },
            Command::Info => {
                let size = db.dbsize_at(now);
                let mut out: Vec<u8> = Vec::new();
                append_bytes(&mut out, "# Server\r\nferrite_version:0.1.0\r\ntcp_port:6379\r\n# Keyspace\r\nkeys=".as_bytes());
                let digits = format_u128(size as u128);
                append_bytes(&mut out, digits.as_slice());
                out.push(13);
                out.push(10);
                assert(out@ =~= info_text(size));
                Frame::Bulk(out)
            },
            Command::Command => {
                let empty: Vec<Frame> = Vec::new();
                assert(frames_view(empty@) =~= Seq::<SpecFrame>::empty());
                Frame::Array(empty)
            },
            Command::Unknown(cmd) => Frame::Error(owned("ERR unknown command '").concat(cmd.as_str()).concat("'")),
        }
    }

    /// Executes the command against the store and returns the reply.
    pub fn execute(self, db: &mut Storage) -> (r: Frame)
        requires
            old(db).wf(),
            !negation_overflows(self@),
        ensures
            final(db).wf(),
            exists|now: u128| (r@, final(db)@) == #[trigger] spec_execute(self@, old(db)@, now),
    {
        let now = db.now();
        self.execute_at(db, now)
    }

    /// Decodes a frame (which must be an array or an inline command) into a
    /// command.
    pub fn from_frame(frame: Frame) -> (r: Result<Command, String>)
        ensures
            cmd_res(r) == spec_from_frame(frame@),
    {
        proof {
            reveal(spec_dispatch);
        }
        let items = match frame {
            Frame::Array(items) => items,
            _ => return Err(owned("ERR expected array of bulk strings")),
        };
        let ghost fs = frames_view(items@);
        proof {
            lemma_frames_view_index(items@);
        }
        if items.len() == 0 {
            return Err(owned("ERR empty command"));
        }
        let name: String = match &items[0] {
            Frame::Bulk(b) => match utf8_text(b.as_slice()) {
                None => return Err(owned("ERR invalid command name")),
                Some(t) => to_ascii_uppercase(t),
            },
            Frame::Simple(s) => to_ascii_uppercase(s.as_str()),
            _ => return Err(owned("ERR invalid command format")),
        };
        assert(spec_command_name(fs[0]) == Ok::<Seq<char>, Seq<char>>(name@));
        let n = items.len();
        let nm = name.as_str();
        if str_eq(nm, "PING") {
            if n > 2 {
                return Err(owned("ERR wrong number of arguments for 'ping' command"));
            }
            let msg = if n == 2 {
                match &items[1] {
                    Frame::Bulk(b) => Some(copy_bytes(b)),
                    _ => None,
                }
            } else {
                None
            };
            Ok(Command::Ping(msg))
        } else if str_eq(nm, "ECHO") {
            if n != 2 {
                return Err(owned("ERR wrong number of arguments for 'echo' command"));
            }
            match &items[1] {
                Frame::Bulk(b) => Ok(Command::Echo(copy_bytes(b))),
                _ => Err(owned("ERR invalid argument for 'echo'")),
            }
        } else if str_eq(nm, "GET") {
            if n != 2 {
                return Err(owned("ERR wrong number of arguments for 'get' command"));
            }
            let key = extract_string(&items[1])?;
            Ok(Command::Get(key))
        } else if str_eq(nm, "SET") {
            if n < 3 {
                return Err(owned("ERR wrong number of arguments for 'set' command"));
            }
            let key = extract_string(&items[1])?;
            let value = match &items[2] {
                Frame::Bulk(b) => copy_bytes(b),
                _ => return Err(owned("ERR invalid value for 'set'")),
            };
            let ttl = set_options(&items)?;
            Ok(Command::SetKey { key, value, ttl })
        } else if str_eq(nm, "DEL") {
            if n < 2 {
                return Err(owned("ERR wrong number of arguments for 'del' command"));
            }
            let keys = string_args(&items, 1)?;
            Ok(Command::Del(keys))
        } else if str_eq(nm, "EXISTS") {
            if n < 2 {
                return Err(owned("ERR wrong number of arguments for 'exists' command"));
            }
            let keys = string_args(&items, 1)?;
            Ok(Command::Exists(keys))
        } else if str_eq(nm, "EXPIRE") {
            if n != 3 {
                return Err(owned("ERR wrong number of arguments for 'expire' command"));
            }
            let key = extract_string(&items[1])?;
            let ttl = duration_arg(&items[2], 1_000_000_000)?;
            Ok(Command::Expire { key, ttl })
        } else if str_eq(nm, "TTL") {
            if n != 2 {
                return Err(owned("ERR wrong number of arguments for 'ttl' command"));
            }
            let key = extract_string(&items[1])?;
            Ok(Command::Ttl(key))
        } else if str_eq(nm, "INCR") {
            if n != 2 {
                return Err(owned("ERR wrong number of arguments for 'incr' command"));
            }
            let key = extract_string(&items[1])?;
            Ok(Command::Incr(key))
        } else if str_eq(nm, "DECR") {
            if n != 2 {
                return Err(owned("ERR wrong number of arguments for 'decr' command"));
            }
            let key = extract_string(&items[1])?;
            Ok(Command::Decr(key))
        } else if str_eq(nm, "INCRBY") {
            if n != 3 {
                return Err(owned("ERR wrong number of arguments for 'incrby' command"));
            }
            let key = extract_string(&items[1])?;
            let delta = int_arg(&items[2])?;
            Ok(Command::IncrBy { key, delta })
        } else if str_eq(nm, "DECRBY") {
            if n != 3 {
                return Err(owned("ERR wrong number of arguments for 'decrby' command"));
            }
            let key = extract_string(&items[1])?;
            let delta = int_arg(&items[2])?;
            Ok(Command::DecrBy { key, delta })
        } else if str_eq(nm, "MGET") {
            if n < 2 {
                return Err(owned("ERR wrong number of arguments for 'mget' command"));
            }
            let keys = string_args(&items, 1)?;
            Ok(Command::MGet(keys))
        } else if str_eq(nm, "MSET") {
            if n < 3 || (n - 1) % 2 != 0 {
                return Err(owned("ERR wrong number of arguments for 'mset' command"));
            }
            let pairs = mset_pairs(&items)?;
            Ok(Command::MSet(pairs))
        } else if str_eq(nm, "DBSIZE") {
            Ok(Command::DbSize)
        } else if str_eq(nm, "FLUSHDB") {
            Ok(Command::FlushDb)
        } else if str_eq(nm, "INFO") {
            Ok(Command::Info)
        } else if str_eq(nm, "COMMAND") {
            Ok(Command::Command)
        } else {
            Ok(Command::Unknown(name))
        }
    }
}

} // verus!
