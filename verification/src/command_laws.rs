//! What the command functions promise together: exactly the state-changing
//! commands have a log frame, and a log frame decodes back to its command.

use vstd::prelude::*;
use vstd::utf8::{valid_utf8, decode_utf8, encode_utf8};
use crate::decimal::{int_digits, nat_digits, spec_parse_u64, spec_parse_i64, lemma_parse_i64_of_digits, lemma_parse_u64_of_digits};
use crate::text::ascii_upper;
use crate::resp::SpecFrame;
use crate::command::{
    SpecCommand, spec_from_frame, spec_dispatch, spec_command_name, spec_extract_string,
    spec_string_args, spec_mset_pairs, spec_set_options, spec_duration_arg, spec_int_arg,
    spec_to_frame, spec_is_mutating, text_bulk, mset_frames, key_then, spec_execute, spec_mget,
    spec_mset, negation_overflows,
};
use crate::storage::{Db, EntryModel, live, live_keys, spec_get, spec_set, spec_exists, spec_ttl, deadline, whole_seconds};
use crate::storage_laws::{holds_live, live_in, law_exists_counts_live_keys, law_del_removes_every_key, law_incr_keeps_deadline};

verus! {

/// A state-changing command is exactly one that has a log frame.
pub proof fn law_mutating_iff_logged(c: SpecCommand)
    ensures
        spec_is_mutating(c) <==> spec_to_frame(c) is Some,
{
}

/// A duration that the log can carry exactly: whole seconds that fit a
/// `u64`.
pub open spec fn whole_seconds_ttl(t: u128) -> bool {
    t % 1_000_000_000 == 0 && t / 1_000_000_000 <= u64::MAX
}

/// A state-changing command whose log frame decodes back to it: DEL and MSET
/// have something to act on, and times to live are whole seconds.
pub open spec fn loggable(c: SpecCommand) -> bool {
    match c {
        SpecCommand::SetKey { ttl, .. } => ttl matches Some(t) ==> whole_seconds_ttl(t),
        SpecCommand::Del(keys) => keys.len() > 0,
        SpecCommand::Expire { ttl, .. } => whole_seconds_ttl(ttl),
        SpecCommand::Incr(_) => true,
        SpecCommand::Decr(_) => true,
        SpecCommand::IncrBy { .. } => true,
        SpecCommand::DecrBy { .. } => true,
        SpecCommand::MSet(ps) => ps.len() > 0,
        SpecCommand::FlushDb => true,
        _ => false,
    }
}

/// The characters of the command names.
proof fn lemma_reveal_names()
    ensures
        "PING"@ == seq!['P', 'I', 'N', 'G'],
        "ECHO"@ == seq!['E', 'C', 'H', 'O'],
        "GET"@ == seq!['G', 'E', 'T'],
        "SET"@ == seq!['S', 'E', 'T'],
        "DEL"@ == seq!['D', 'E', 'L'],
        "EXISTS"@ == seq!['E', 'X', 'I', 'S', 'T', 'S'],
        "EXPIRE"@ == seq!['E', 'X', 'P', 'I', 'R', 'E'],
        "TTL"@ == seq!['T', 'T', 'L'],
        "INCR"@ == seq!['I', 'N', 'C', 'R'],
        "DECR"@ == seq!['D', 'E', 'C', 'R'],
        "INCRBY"@ == seq!['I', 'N', 'C', 'R', 'B', 'Y'],
        "DECRBY"@ == seq!['D', 'E', 'C', 'R', 'B', 'Y'],
        "MGET"@ == seq!['M', 'G', 'E', 'T'],
        "MSET"@ == seq!['M', 'S', 'E', 'T'],
        "DBSIZE"@ == seq!['D', 'B', 'S', 'I', 'Z', 'E'],
        "FLUSHDB"@ == seq!['F', 'L', 'U', 'S', 'H', 'D', 'B'],
        "EX"@ == seq!['E', 'X'],
        "PX"@ == seq!['P', 'X'],
{
    reveal_strlit("PING");
    reveal_strlit("ECHO");
    reveal_strlit("GET");
    reveal_strlit("SET");
    reveal_strlit("DEL");
    reveal_strlit("EXISTS");
    reveal_strlit("EXPIRE");
    reveal_strlit("TTL");
    reveal_strlit("INCR");
    reveal_strlit("DECR");
    reveal_strlit("INCRBY");
    reveal_strlit("DECRBY");
    reveal_strlit("MGET");
    reveal_strlit("MSET");
    reveal_strlit("DBSIZE");
    reveal_strlit("FLUSHDB");
    reveal_strlit("EX");
    reveal_strlit("PX");
    assert("PING"@ =~= seq!['P', 'I', 'N', 'G']);
    assert("ECHO"@ =~= seq!['E', 'C', 'H', 'O']);
    assert("GET"@ =~= seq!['G', 'E', 'T']);
    assert("SET"@ =~= seq!['S', 'E', 'T']);
    assert("DEL"@ =~= seq!['D', 'E', 'L']);
    assert("EXISTS"@ =~= seq!['E', 'X', 'I', 'S', 'T', 'S']);
    assert("EXPIRE"@ =~= seq!['E', 'X', 'P', 'I', 'R', 'E']);
    assert("TTL"@ =~= seq!['T', 'T', 'L']);
    assert("INCR"@ =~= seq!['I', 'N', 'C', 'R']);
    assert("DECR"@ =~= seq!['D', 'E', 'C', 'R']);
    assert("INCRBY"@ =~= seq!['I', 'N', 'C', 'R', 'B', 'Y']);
    assert("DECRBY"@ =~= seq!['D', 'E', 'C', 'R', 'B', 'Y']);
    assert("MGET"@ =~= seq!['M', 'G', 'E', 'T']);
    assert("MSET"@ =~= seq!['M', 'S', 'E', 'T']);
    assert("DBSIZE"@ =~= seq!['D', 'B', 'S', 'I', 'Z', 'E']);
    assert("FLUSHDB"@ =~= seq!['F', 'L', 'U', 'S', 'H', 'D', 'B']);
    assert("EX"@ =~= seq!['E', 'X']);
    assert("PX"@ =~= seq!['P', 'X']);
}

/// An upper-case name reads back as itself.
proof fn lemma_upper_name(s: Seq<char>)
    requires
        forall|i: int| 0 <= i < s.len() ==> !('a' <= #[trigger] s[i] <= 'z'),
    ensures
        spec_command_name(text_bulk(s)) == Ok::<Seq<char>, Seq<char>>(s),
        ascii_upper(s) == s,
{
    vstd::utf8::encode_utf8_valid_utf8(s);
    vstd::utf8::encode_utf8_decode_utf8(s);
    assert(ascii_upper(s) =~= s);
}

proof fn lemma_text_arg(k: Seq<char>)
    ensures
        spec_extract_string(text_bulk(k)) == Ok::<Seq<char>, Seq<char>>(k),
{
    vstd::utf8::encode_utf8_valid_utf8(k);
    vstd::utf8::encode_utf8_decode_utf8(k);
}

proof fn lemma_digits_text(d: Seq<u8>)
    requires
        crate::resp_laws::ascii_bytes(d),
    ensures
        valid_utf8(d),
        encode_utf8(decode_utf8(d)) == d,
{
    crate::resp_laws::lemma_ascii_valid(d);
    vstd::utf8::decode_utf8_encode_utf8(d);
}

proof fn lemma_nat_digits_ascii(n: nat)
    ensures
        crate::resp_laws::ascii_bytes(nat_digits(n)),
    decreases n,
{
    if n >= 10 {
        lemma_nat_digits_ascii(n / 10);
        let d = nat_digits(n);
        assert forall|i: int| 0 <= i < d.len() implies d[i] < 128 by {
            if i < d.len() - 1 {
                assert(d[i] == nat_digits(n / 10)[i]);
            }
        }
    }
}

proof fn lemma_int_digits_ascii(v: int)
    ensures
        crate::resp_laws::ascii_bytes(int_digits(v)),
{
    if v < 0 {
        lemma_nat_digits_ascii((-v) as nat);
        let d = int_digits(v);
        assert forall|i: int| 0 <= i < d.len() implies d[i] < 128 by {
            if i > 0 {
                assert(d[i] == nat_digits((-v) as nat)[i - 1]);
            }
        }
    } else {
        lemma_nat_digits_ascii(v as nat);
    }
}

proof fn lemma_seconds_arg(t: u128)
    requires
        whole_seconds_ttl(t),
    ensures
        spec_duration_arg(SpecFrame::Bulk(nat_digits((t / 1_000_000_000) as nat)), 1_000_000_000) == Ok::<u128, Seq<char>>(t),
{
    let secs = (t / 1_000_000_000) as u64;
    let d = nat_digits(secs as nat);
    lemma_nat_digits_ascii(secs as nat);
    lemma_digits_text(d);
    lemma_parse_u64_of_digits(secs);
    assert(spec_parse_u64(encode_utf8(decode_utf8(d))) == Some(secs));
    assert(t == (t / 1_000_000_000) * 1_000_000_000) by (nonlinear_arith)
        requires
            t % 1_000_000_000 == 0,
    ;
}

proof fn lemma_int_arg(v: i64)
    ensures
        spec_int_arg(SpecFrame::Bulk(int_digits(v as int))) == Ok::<i64, Seq<char>>(v),
{
    lemma_int_digits_ascii(v as int);
    lemma_digits_text(int_digits(v as int));
    lemma_parse_i64_of_digits(v);
}

proof fn lemma_string_args(keys: Seq<Seq<char>>, fs: Seq<SpecFrame>, i: int, acc: Seq<Seq<char>>)
    requires
        1 <= i <= fs.len(),
        fs.len() == keys.len() + 1,
        forall|j: int| 0 <= j < keys.len() ==> #[trigger] fs[j + 1] == text_bulk(keys[j]),
    ensures
        spec_string_args(fs, i, acc) == Ok::<Seq<Seq<char>>, Seq<char>>(acc + keys.subrange(i - 1, keys.len() as int)),
    decreases fs.len() - i,
{
    if i < fs.len() {
        assert(fs[(i - 1) + 1] == text_bulk(keys[i - 1]));
        lemma_text_arg(keys[i - 1]);
        lemma_string_args(keys, fs, i + 1, acc.push(keys[i - 1]));
        assert(acc.push(keys[i - 1]) + keys.subrange(i, keys.len() as int) =~= acc + keys.subrange(i - 1, keys.len() as int));
    } else {
        assert(acc + keys.subrange(i - 1, keys.len() as int) =~= acc);
    }
}

proof fn lemma_mset_frames_index(ps: Seq<(Seq<char>, Seq<u8>)>)
    ensures
        mset_frames(ps).len() == 2 * ps.len(),
        forall|j: int| 0 <= j < ps.len() ==> #[trigger] mset_frames(ps)[2 * j] == text_bulk(ps[j].0) && mset_frames(ps)[2 * j + 1] == SpecFrame::Bulk(ps[j].1),
    decreases ps.len(),
{
    if ps.len() > 0 {
        lemma_mset_frames_index(ps.drop_last());
        assert forall|j: int| 0 <= j < ps.len() implies #[trigger] mset_frames(ps)[2 * j] == text_bulk(ps[j].0) && mset_frames(ps)[2 * j + 1] == SpecFrame::Bulk(ps[j].1) by {
            if j < ps.len() - 1 {
                assert(ps.drop_last()[j] == ps[j]);
                assert(mset_frames(ps.drop_last())[2 * j] == text_bulk(ps[j].0));
            }
        }
    }
}

proof fn lemma_mset_pairs(ps: Seq<(Seq<char>, Seq<u8>)>, fs: Seq<SpecFrame>, j: int, acc: Seq<(Seq<char>, Seq<u8>)>)
    requires
        0 <= j <= ps.len(),
        fs.len() == 2 * ps.len() + 1,
        forall|x: int| 0 <= x < ps.len() ==> #[trigger] fs[2 * x + 1] == text_bulk(ps[x].0) && fs[2 * x + 2] == SpecFrame::Bulk(ps[x].1),
    ensures
        spec_mset_pairs(fs, 2 * j + 1, acc) == Ok::<Seq<(Seq<char>, Seq<u8>)>, Seq<char>>(acc + ps.subrange(j, ps.len() as int)),
    decreases ps.len() - j,
{
    if j < ps.len() {
        assert(fs[2 * j + 1] == text_bulk(ps[j].0) && fs[2 * j + 2] == SpecFrame::Bulk(ps[j].1));
        lemma_text_arg(ps[j].0);
        lemma_mset_pairs(ps, fs, j + 1, acc.push((ps[j].0, ps[j].1)));
        assert(acc.push((ps[j].0, ps[j].1)) + ps.subrange(j + 1, ps.len() as int) =~= acc + ps.subrange(j, ps.len() as int));
    } else {
        assert(acc + ps.subrange(j, ps.len() as int) =~= acc);
    }
}

proof fn lemma_decodes_set(c: SpecCommand)
    requires
        loggable(c) && c is SetKey,
    ensures
        spec_from_frame(spec_to_frame(c)->Some_0) == Ok::<SpecCommand, Seq<char>>(c),
{
    lemma_reveal_names();
    reveal(spec_dispatch);
    let fs = spec_to_frame(c)->Some_0->Array_0;
    let key = c->SetKey_key;
    lemma_upper_name("SET"@);
    lemma_text_arg(key);
    match c->SetKey_ttl {
        Some(t) => {
            lemma_upper_name("EX"@);
            lemma_text_arg("EX"@);
            lemma_seconds_arg(t);
            assert(fs[3] == text_bulk("EX"@));
            assert(fs[4] == SpecFrame::Bulk(nat_digits((t / 1_000_000_000) as nat)));
            assert(spec_extract_string(fs[3]) == Ok::<Seq<char>, Seq<char>>("EX"@));
            assert(spec_set_options(fs, 5, Some(t)) == Ok::<Option<u128>, Seq<char>>(Some(t)));
            assert(spec_set_options(fs, 3, None) == Ok::<Option<u128>, Seq<char>>(Some(t)));
        },
        None => {},
    }
}

proof fn lemma_decodes_del(c: SpecCommand)
    requires
        loggable(c) && c is Del,
    ensures
        spec_from_frame(spec_to_frame(c)->Some_0) == Ok::<SpecCommand, Seq<char>>(c),
{
    lemma_reveal_names();
    reveal(spec_dispatch);
    let fs = spec_to_frame(c)->Some_0->Array_0;
    let keys = c->Del_0;
    lemma_upper_name("DEL"@);
    assert forall|j: int| 0 <= j < keys.len() implies #[trigger] fs[j + 1] == text_bulk(keys[j]) by {}
    lemma_string_args(keys, fs, 1, seq![]);
    assert(Seq::<Seq<char>>::empty() + keys.subrange(0, keys.len() as int) =~= keys);
}

proof fn lemma_decodes_expire(c: SpecCommand)
    requires
        loggable(c) && c is Expire,
    ensures
        spec_from_frame(spec_to_frame(c)->Some_0) == Ok::<SpecCommand, Seq<char>>(c),
{
    lemma_reveal_names();
    reveal(spec_dispatch);
    let fs = spec_to_frame(c)->Some_0->Array_0;
    lemma_upper_name("EXPIRE"@);
    lemma_text_arg(c->Expire_key);
    lemma_seconds_arg(c->Expire_ttl);
}

proof fn lemma_decodes_incr_decr(c: SpecCommand)
    requires
        loggable(c) && (c is Incr || c is Decr),
    ensures
        spec_from_frame(spec_to_frame(c)->Some_0) == Ok::<SpecCommand, Seq<char>>(c),
{
    lemma_reveal_names();
    reveal(spec_dispatch);
    let fs = spec_to_frame(c)->Some_0->Array_0;
    lemma_upper_name("INCR"@);
    lemma_upper_name("DECR"@);
    match c {
        SpecCommand::Incr(k) => lemma_text_arg(k),
        SpecCommand::Decr(k) => lemma_text_arg(k),
        _ => {},
    }
}

proof fn lemma_decodes_incrby(c: SpecCommand)
    requires
        loggable(c) && c is IncrBy,
    ensures
        spec_from_frame(spec_to_frame(c)->Some_0) == Ok::<SpecCommand, Seq<char>>(c),
{
    lemma_reveal_names();
    reveal(spec_dispatch);
    lemma_upper_name("INCRBY"@);
    lemma_text_arg(c->IncrBy_key);
    lemma_int_arg(c->IncrBy_delta);
}

proof fn lemma_decodes_decrby(c: SpecCommand)
    requires
        loggable(c) && c is DecrBy,
    ensures
        spec_from_frame(spec_to_frame(c)->Some_0) == Ok::<SpecCommand, Seq<char>>(c),
{
    lemma_reveal_names();
    reveal(spec_dispatch);
    lemma_upper_name("DECRBY"@);
    lemma_text_arg(c->DecrBy_key);
    lemma_int_arg(c->DecrBy_delta);
}

#[verifier::rlimit(40)]
proof fn lemma_decodes_mset(c: SpecCommand)
    requires
        loggable(c) && c is MSet,
    ensures
        spec_from_frame(spec_to_frame(c)->Some_0) == Ok::<SpecCommand, Seq<char>>(c),
{
    lemma_reveal_names();
    reveal(spec_dispatch);
    let fs = spec_to_frame(c)->Some_0->Array_0;
    let ps = c->MSet_0;
    lemma_upper_name("MSET"@);
    lemma_mset_frames_index(ps);
    assert forall|x: int| 0 <= x < ps.len() implies #[trigger] fs[2 * x + 1] == text_bulk(ps[x].0) && fs[2 * x + 2] == SpecFrame::Bulk(ps[x].1) by {
        assert(fs[2 * x + 1] == mset_frames(ps)[2 * x]);
        assert(fs[2 * x + 2] == mset_frames(ps)[2 * x + 1]);
    }
    lemma_mset_pairs(ps, fs, 0, seq![]);
    assert(Seq::<(Seq<char>, Seq<u8>)>::empty() + ps.subrange(0, ps.len() as int) =~= ps);
    assert((fs.len() - 1) % 2 == 0);
}

proof fn lemma_decodes_flushdb(c: SpecCommand)
    requires
        loggable(c) && c is FlushDb,
    ensures
        spec_from_frame(spec_to_frame(c)->Some_0) == Ok::<SpecCommand, Seq<char>>(c),
{
    lemma_reveal_names();
    reveal(spec_dispatch);
    let fs = spec_to_frame(c)->Some_0->Array_0;
    lemma_upper_name("FLUSHDB"@);
}

/// A command written to the log decodes back to the same command.
pub proof fn law_log_frame_decodes(c: SpecCommand)
    requires
        loggable(c),
    ensures
        spec_from_frame(spec_to_frame(c)->Some_0) == Ok::<SpecCommand, Seq<char>>(c),
{
    if c is SetKey {
        lemma_decodes_set(c);
    } else if c is Del {
        lemma_decodes_del(c);
    } else if c is Expire {
        lemma_decodes_expire(c);
    } else if c is Incr || c is Decr {
        lemma_decodes_incr_decr(c);
    } else if c is IncrBy {
        lemma_decodes_incrby(c);
    } else if c is DecrBy {
        lemma_decodes_decrby(c);
    } else if c is MSet {
        lemma_decodes_mset(c);
    } else {
        lemma_decodes_flushdb(c);
    }
}

/// The name a state-changing command's log frame opens with.
pub open spec fn log_name(c: SpecCommand) -> Seq<char> {
    match c {
        SpecCommand::SetKey { .. } => "SET"@,
        SpecCommand::Del(_) => "DEL"@,
        SpecCommand::Expire { .. } => "EXPIRE"@,
        SpecCommand::Incr(_) => "INCR"@,
        SpecCommand::Decr(_) => "DECR"@,
        SpecCommand::IncrBy { .. } => "INCRBY"@,
        SpecCommand::DecrBy { .. } => "DECRBY"@,
        SpecCommand::MSet(_) => "MSET"@,
        SpecCommand::FlushDb => "FLUSHDB"@,
        _ => seq![],
    }
}

/// Every log frame is an array of bulk strings, headed by the non-empty,
/// upper-case name of its command.
pub proof fn law_log_frame_shape(c: SpecCommand)
    requires
        spec_is_mutating(c),
    ensures
        spec_to_frame(c) matches Some(SpecFrame::Array(items)) && {
            &&& items.len() >= 1
            &&& items[0] == text_bulk(log_name(c))
            &&& forall|i: int| 0 <= i < items.len() ==> #[trigger] items[i] is Bulk
        },
        log_name(c).len() > 0,
        ascii_upper(log_name(c)) == log_name(c),
{
    lemma_reveal_names();
    lemma_upper_name(log_name(c));
    let items = spec_to_frame(c)->Some_0->Array_0;
    if let SpecCommand::MSet(ps) = c {
        lemma_mset_frames_index(ps);
        let m = mset_frames(ps);
        assert forall|i: int| 0 <= i < items.len() implies #[trigger] items[i] is Bulk by {
            if i > 0 {
                assert(items[i] == m[i - 1]);
                let j = (i - 1) / 2;
                if i - 1 == 2 * j {
                    assert(m[2 * j] == text_bulk(ps[j].0));
                } else {
                    assert(i - 1 == 2 * j + 1);
                    assert(m[2 * j + 1] == SpecFrame::Bulk(ps[j].1));
                }
            }
        }
    } else if let SpecCommand::SetKey { ttl, .. } = c {
        assert forall|i: int| 0 <= i < items.len() implies #[trigger] items[i] is Bulk by {
            if ttl is Some {
                assert(i < 5);
            }
        }
    }
}

/// The live part of a store at `now`: its live keys, with their entries.
pub open spec fn live_part(db: Db, now: u128) -> Db {
    db.restrict(live_keys(db, now))
}

/// The reply a GET of `k` gets at `now`.
pub open spec fn get_reply(db: Db, k: Seq<char>, now: u128) -> SpecFrame {
    match spec_get(db, k, now).0 {
        Some(v) => SpecFrame::Bulk(v),
        None => SpecFrame::Null,
    }
}

/// What a read gives depends on the live part of the store alone.
proof fn lemma_get_by_live_part(a: Db, b: Db, k: Seq<char>, now: u128)
    requires
        live_part(a, now) == live_part(b, now),
    ensures
        spec_get(a, k, now).0 == spec_get(b, k, now).0,
{
    if a.contains_key(k) && live(a[k], now) {
        assert(live_part(a, now).contains_key(k));
        assert(live_part(b, now)[k] == b[k]);
    } else if b.contains_key(k) && live(b[k], now) {
        assert(live_part(b, now).contains_key(k));
        assert(live_part(a, now)[k] == a[k]);
    }
}

/// A read removes at most a dead entry, keeping the live part.
proof fn lemma_get_keeps_live_part(db: Db, k: Seq<char>, now: u128)
    ensures
        live_part(spec_get(db, k, now).1, now) == live_part(db, now),
{
    assert(live_part(spec_get(db, k, now).1, now) =~= live_part(db, now));
}

/// MGET reads its keys one after another: one reply per key, each what a
/// GET of that key gives, and the live part is kept.
proof fn lemma_mget(db: Db, ks: Seq<Seq<char>>, now: u128)
    ensures
        spec_mget(db, ks, now).0.len() == ks.len(),
        forall|i: int| 0 <= i < ks.len() ==> #[trigger] spec_mget(db, ks, now).0[i] == get_reply(db, ks[i], now),
        live_part(spec_mget(db, ks, now).1, now) == live_part(db, now),
    decreases ks.len(),
{
    if ks.len() > 0 {
        let front = ks.drop_last();
        lemma_mget(db, front, now);
        let d = spec_mget(db, front, now).1;
        lemma_get_by_live_part(d, db, ks.last(), now);
        lemma_get_keeps_live_part(d, ks.last(), now);
        assert forall|i: int| 0 <= i < ks.len() implies #[trigger] spec_mget(db, ks, now).0[i] == get_reply(db, ks[i], now) by {
            if i < ks.len() - 1 {
                assert(front[i] == ks[i]);
                assert(spec_mget(db, ks, now).0[i] == spec_mget(db, front, now).0[i]);
            }
        }
    }
}

/// EXISTS keeps the live part of the store.
proof fn lemma_exists_keeps_live_part(db: Db, ks: Seq<Seq<char>>, now: u128)
    ensures
        live_part(spec_exists(db, ks, now).1, now) == live_part(db, now),
    decreases ks.len(),
{
    if ks.len() > 0 {
        lemma_exists_keeps_live_part(db, ks.drop_last(), now);
        lemma_get_keeps_live_part(spec_exists(db, ks.drop_last(), now).1, ks.last(), now);
    }
}

/// MGET answers each key, in order and repeats included, with what a GET of
/// that key gives just before.
pub proof fn law_mget_is_gets(ks: Seq<Seq<char>>, db: Db, now: u128)
    ensures
        spec_execute(SpecCommand::MGet(ks), db, now).0 == SpecFrame::Array(
            Seq::new(ks.len(), |i: int| get_reply(db, ks[i], now)),
        ),
{
    reveal(spec_execute);
    lemma_mget(db, ks, now);
    assert(spec_mget(db, ks, now).0 =~= Seq::new(ks.len(), |i: int| get_reply(db, ks[i], now)));
}

/// A command that does not change the store keeps its live keys, their
/// values and their deadlines; at most it drops dead entries.
pub proof fn law_reads_keep_live_part(c: SpecCommand, db: Db, now: u128)
    requires
        !spec_is_mutating(c),
    ensures
        live_part(spec_execute(c, db, now).1, now) == live_part(db, now),
{
    reveal(spec_execute);
    match c {
        SpecCommand::Get(k) => lemma_get_keeps_live_part(db, k, now),
        SpecCommand::Exists(ks) => lemma_exists_keeps_live_part(db, ks, now),
        SpecCommand::MGet(ks) => lemma_mget(db, ks, now),
        _ => {},
    }
}

/// The request frame of a command: its name, then its arguments, each a
/// bulk string.
pub open spec fn request_of(name: Seq<char>, args: Seq<Seq<char>>) -> SpecFrame {
    SpecFrame::Array(seq![text_bulk(name)] + args.map_values(|k: Seq<char>| text_bulk(k)))
}

/// Decoding keeps every key argument of EXISTS and MGET, in order and with
/// repeats, as DEL's does.
pub proof fn law_multi_key_requests_decode(ks: Seq<Seq<char>>)
    requires
        ks.len() > 0,
    ensures
        spec_from_frame(request_of("EXISTS"@, ks)) == Ok::<SpecCommand, Seq<char>>(SpecCommand::Exists(ks)),
        spec_from_frame(request_of("MGET"@, ks)) == Ok::<SpecCommand, Seq<char>>(SpecCommand::MGet(ks)),
        spec_from_frame(request_of("DEL"@, ks)) == Ok::<SpecCommand, Seq<char>>(SpecCommand::Del(ks)),
{
    lemma_reveal_names();
    reveal(spec_dispatch);
    lemma_upper_name("EXISTS"@);
    lemma_upper_name("MGET"@);
    lemma_upper_name("DEL"@);
    let fe = request_of("EXISTS"@, ks)->Array_0;
    let fm = request_of("MGET"@, ks)->Array_0;
    let fd = request_of("DEL"@, ks)->Array_0;
    assert forall|j: int| 0 <= j < ks.len() implies #[trigger] fe[j + 1] == text_bulk(ks[j]) by {}
    assert forall|j: int| 0 <= j < ks.len() implies #[trigger] fm[j + 1] == text_bulk(ks[j]) by {}
    assert forall|j: int| 0 <= j < ks.len() implies #[trigger] fd[j + 1] == text_bulk(ks[j]) by {}
    lemma_string_args(ks, fe, 1, seq![]);
    lemma_string_args(ks, fm, 1, seq![]);
    lemma_string_args(ks, fd, 1, seq![]);
    assert(Seq::<Seq<char>>::empty() + ks.subrange(0, ks.len() as int) =~= ks);
}

/// Decoding a one-key request keeps its key.
pub proof fn law_single_key_requests_decode(k: Seq<char>)
    ensures
        spec_from_frame(request_of("GET"@, seq![k])) == Ok::<SpecCommand, Seq<char>>(SpecCommand::Get(k)),
        spec_from_frame(request_of("TTL"@, seq![k])) == Ok::<SpecCommand, Seq<char>>(SpecCommand::Ttl(k)),
        spec_from_frame(request_of("INCR"@, seq![k])) == Ok::<SpecCommand, Seq<char>>(SpecCommand::Incr(k)),
        spec_from_frame(request_of("DECR"@, seq![k])) == Ok::<SpecCommand, Seq<char>>(SpecCommand::Decr(k)),
{
    lemma_reveal_names();
    reveal(spec_dispatch);
    lemma_upper_name("GET"@);
    lemma_upper_name("TTL"@);
    lemma_upper_name("INCR"@);
    lemma_upper_name("DECR"@);
    lemma_text_arg(k);
    assert(request_of("GET"@, seq![k])->Array_0[1] == text_bulk(k));
    assert(request_of("TTL"@, seq![k])->Array_0[1] == text_bulk(k));
    assert(request_of("INCR"@, seq![k])->Array_0[1] == text_bulk(k));
    assert(request_of("DECR"@, seq![k])->Array_0[1] == text_bulk(k));
}

/// EXISTS replies with the number of positions of its key list whose key
/// holds a live entry.
pub proof fn law_exists_reply(ks: Seq<Seq<char>>, db: Db, t: u128)
    ensures
        spec_execute(SpecCommand::Exists(ks), db, t).0 == SpecFrame::Integer(ks.filter(live_in(db, t)).len() as i64),
{
    reveal(spec_execute);
    law_exists_counts_live_keys(db, ks, t);
}

/// DEL removes every key of its list and nothing else, and replies with the
/// number of distinct keys of the list that held a live entry.
pub proof fn law_del_reply(ks: Seq<Seq<char>>, db: Db, t: u128)
    ensures
        spec_execute(SpecCommand::Del(ks), db, t).1 == db.remove_keys(ks.to_set()),
        spec_execute(SpecCommand::Del(ks), db, t).0 == SpecFrame::Integer(
            live_keys(db, t).intersect(ks.to_set()).len() as i64,
        ),
{
    reveal(spec_execute);
    law_del_removes_every_key(db, ks, t, seq![], t);
}

/// The key an increment acts on, and what it adds.
pub open spec fn increment_of(c: SpecCommand) -> Option<(Seq<char>, int)> {
    match c {
        SpecCommand::Incr(k) => Some((k, 1)),
        SpecCommand::Decr(k) => Some((k, -1)),
        SpecCommand::IncrBy { key, delta } => Some((key, delta as int)),
        SpecCommand::DecrBy { key, delta } => Some((key, -(delta as int))),
        _ => None,
    }
}

/// INCR, DECR, INCRBY and DECRBY on a live key: when they reply with a
/// number, it is the old integer plus the step, the key reads back as that
/// number, keeps its deadline and time to live, and no other key changes.
pub proof fn law_increments_keep_deadline(c: SpecCommand, db: Db, t: u128)
    requires
        increment_of(c) matches Some((k, step)) && holds_live(db, k, t),
        !negation_overflows(c),
        spec_execute(c, db, t).0 is Integer,
    ensures
        ({
            let (k, step) = increment_of(c)->Some_0;
            let after = spec_execute(c, db, t).1;
            &&& after.contains_key(k)
            &&& after[k].expires_at == db[k].expires_at
            &&& spec_ttl(after, k, t) == spec_ttl(db, k, t)
            &&& spec_parse_i64(db[k].value) matches Some(cur) && spec_execute(c, db, t).0
                == SpecFrame::Integer((cur + step) as i64) && cur + step == (cur + step) as i64
            &&& spec_get(after, k, t).0 matches Some(v) && spec_parse_i64(v) == Some((spec_execute(c, db, t).0->Integer_0))
            &&& after.remove(k) == db.remove(k)
        }),
{
    reveal(spec_execute);
    let (k, step) = increment_of(c)->Some_0;
    let delta: i64 = step as i64;
    law_incr_keeps_deadline(db, k, delta, t);
}

/// MSET stores every pair: a key reads back the value of the last pair that
/// names it, with no deadline, whatever the store held before.
pub proof fn law_mset_last_pair_wins(ps: Seq<(Seq<char>, Seq<u8>)>, db: Db, t: u128, i: int, t2: u128)
    requires
        0 <= i < ps.len(),
        forall|j: int| i < j < ps.len() ==> #[trigger] ps[j].0 != ps[i].0,
    ensures
        spec_execute(SpecCommand::MSet(ps), db, t).0 == SpecFrame::Simple("OK"@),
        spec_get(spec_execute(SpecCommand::MSet(ps), db, t).1, ps[i].0, t2).0 == Some(ps[i].1),
        spec_ttl(spec_execute(SpecCommand::MSet(ps), db, t).1, ps[i].0, t2) == -1,
{
    reveal(spec_execute);
    lemma_mset_last(ps, db, t, i);
}

/// MSET leaves every key that none of its pairs names as it was.
pub proof fn law_mset_keeps_other_keys(ps: Seq<(Seq<char>, Seq<u8>)>, db: Db, t: u128, k: Seq<char>)
    requires
        forall|j: int| 0 <= j < ps.len() ==> #[trigger] ps[j].0 != k,
    ensures
        spec_execute(SpecCommand::MSet(ps), db, t).1.contains_key(k) == db.contains_key(k),
        db.contains_key(k) ==> spec_execute(SpecCommand::MSet(ps), db, t).1[k] == db[k],
{
    reveal(spec_execute);
    lemma_mset_other(ps, db, t, k);
}

proof fn lemma_mset_last(ps: Seq<(Seq<char>, Seq<u8>)>, db: Db, t: u128, i: int)
    requires
        0 <= i < ps.len(),
        forall|j: int| i < j < ps.len() ==> #[trigger] ps[j].0 != ps[i].0,
    ensures
        spec_mset(db, ps, t).contains_key(ps[i].0),
        spec_mset(db, ps, t)[ps[i].0] == (EntryModel { value: ps[i].1, expires_at: None }),
    decreases ps.len(),
{
    if i < ps.len() - 1 {
        let front = ps.drop_last();
        assert(front[i] == ps[i]);
        assert(ps.last().0 != ps[i].0);
        assert forall|j: int| i < j < front.len() implies #[trigger] front[j].0 != front[i].0 by {
            assert(front[j] == ps[j]);
        }
        lemma_mset_last(front, db, t, i);
    }
}

proof fn lemma_mset_other(ps: Seq<(Seq<char>, Seq<u8>)>, db: Db, t: u128, k: Seq<char>)
    requires
        forall|j: int| 0 <= j < ps.len() ==> #[trigger] ps[j].0 != k,
    ensures
        spec_mset(db, ps, t).contains_key(k) == db.contains_key(k),
        db.contains_key(k) ==> spec_mset(db, ps, t)[k] == db[k],
    decreases ps.len(),
{
    if ps.len() > 0 {
        let front = ps.drop_last();
        assert(ps.last() == ps[ps.len() - 1]);
        assert forall|j: int| 0 <= j < front.len() implies #[trigger] front[j].0 != k by {
            assert(front[j] == ps[j]);
        }
        lemma_mset_other(front, db, t, k);
    }
}

proof fn lemma_count_arg(n: u64, unit: u128)
    requires
        unit == 1_000_000_000 || unit == 1_000_000,
    ensures
        spec_duration_arg(SpecFrame::Bulk(nat_digits(n as nat)), unit) == Ok::<u128, Seq<char>>((n * unit) as u128),
{
    let d = nat_digits(n as nat);
    lemma_nat_digits_ascii(n as nat);
    lemma_digits_text(d);
    lemma_parse_u64_of_digits(n);
    assert(spec_parse_u64(encode_utf8(decode_utf8(d))) == Some(n));
}

/// SET with one option `opt n` decodes with `n` times `unit` nanoseconds.
#[verifier::spinoff_prover]
proof fn lemma_set_option_decodes(key: Seq<char>, value: Seq<u8>, opt: Seq<char>, unit: u128, n: u64)
    requires
        (opt == "EX"@ && unit == 1_000_000_000) || (opt == "PX"@ && unit == 1_000_000),
    ensures
        spec_from_frame(SpecFrame::Array(seq![text_bulk("SET"@), text_bulk(key), SpecFrame::Bulk(value), text_bulk(opt), SpecFrame::Bulk(nat_digits(n as nat))]))
            == Ok::<SpecCommand, Seq<char>>(SpecCommand::SetKey { key, value, ttl: Some((n * unit) as u128) }),
{
    lemma_reveal_names();
    reveal(spec_dispatch);
    lemma_upper_name("SET"@);
    lemma_upper_name(opt);
    lemma_text_arg(key);
    lemma_text_arg(opt);
    lemma_count_arg(n, unit);
    let fs = seq![text_bulk("SET"@), text_bulk(key), SpecFrame::Bulk(value), text_bulk(opt), SpecFrame::Bulk(nat_digits(n as nat))];
    assert(spec_set_options(fs, 5, Some((n * unit) as u128)) == Ok::<Option<u128>, Seq<char>>(Some((n * unit) as u128)));
    assert(spec_set_options(fs, 3, None) == Ok::<Option<u128>, Seq<char>>(Some((n * unit) as u128)));
}

/// SET with `EX n` lives `n` seconds and with `PX n` lives `n` milliseconds,
/// counted in nanoseconds; without an option it never expires.
pub proof fn law_set_ttl_options_decode(key: Seq<char>, value: Seq<u8>, n: u64)
    ensures
        spec_from_frame(SpecFrame::Array(seq![text_bulk("SET"@), text_bulk(key), SpecFrame::Bulk(value), text_bulk("EX"@), SpecFrame::Bulk(nat_digits(n as nat))]))
            == Ok::<SpecCommand, Seq<char>>(SpecCommand::SetKey { key, value, ttl: Some((n * 1_000_000_000) as u128) }),
        spec_from_frame(SpecFrame::Array(seq![text_bulk("SET"@), text_bulk(key), SpecFrame::Bulk(value), text_bulk("PX"@), SpecFrame::Bulk(nat_digits(n as nat))]))
            == Ok::<SpecCommand, Seq<char>>(SpecCommand::SetKey { key, value, ttl: Some((n * 1_000_000) as u128) }),
        spec_from_frame(SpecFrame::Array(seq![text_bulk("SET"@), text_bulk(key), SpecFrame::Bulk(value)]))
            == Ok::<SpecCommand, Seq<char>>(SpecCommand::SetKey { key, value, ttl: None }),
{
    lemma_set_option_decodes(key, value, "EX"@, 1_000_000_000, n);
    lemma_set_option_decodes(key, value, "PX"@, 1_000_000, n);
    lemma_reveal_names();
    reveal(spec_dispatch);
    lemma_upper_name("SET"@);
    lemma_text_arg(key);
}

/// Commands read what commands wrote: after SET, GET gives the value until
/// the deadline and nil after it, TTL gives the whole seconds left, and
/// EXISTS counts the key; after DEL, GET gives nil; after FLUSHDB, DBSIZE
/// gives 0.
pub proof fn law_commands_read_their_writes(k: Seq<char>, v: Seq<u8>, ttl: Option<u128>, db: Db, t: u128, t2: u128)
    requires
        t <= t2,
    ensures
        ({
            let after = spec_execute(SpecCommand::SetKey { key: k, value: v, ttl }, db, t).1;
            &&& live(EntryModel { value: v, expires_at: deadline(t, ttl) }, t2)
                ==> spec_execute(SpecCommand::Get(k), after, t2).0 == SpecFrame::Bulk(v)
                && spec_execute(SpecCommand::Exists(seq![k]), after, t2).0 == SpecFrame::Integer(1i64)
            &&& !live(EntryModel { value: v, expires_at: deadline(t, ttl) }, t2)
                ==> spec_execute(SpecCommand::Get(k), after, t2).0 == SpecFrame::Null
            &&& ttl is None ==> spec_execute(SpecCommand::Ttl(k), after, t).0 == SpecFrame::Integer(-1i64)
            &&& ttl is Some && 0 < ttl->Some_0 && t + ttl->Some_0 <= u128::MAX
                ==> spec_execute(SpecCommand::Ttl(k), after, t).0 == SpecFrame::Integer(whole_seconds(ttl->Some_0 as int))
        }),
        spec_execute(SpecCommand::Get(k), spec_execute(SpecCommand::Del(seq![k]), db, t).1, t2).0 == SpecFrame::Null,
        spec_execute(SpecCommand::DbSize, spec_execute(SpecCommand::FlushDb, db, t).1, t2).0 == SpecFrame::Integer(0i64),
{
    reveal(spec_execute);
    let after = spec_set(db, k, v, ttl, t);
    law_exists_counts_live_keys(after, seq![k], t2);
    reveal_with_fuel(Seq::filter, 2);
    assert(seq![k].drop_last() =~= Seq::<Seq<char>>::empty());
    law_del_removes_every_key(db, seq![k], t, k, t2);
    assert(seq![k].contains(k)) by {
        assert(seq![k][0] == k);
    }
    assert(live_keys(Map::<Seq<char>, EntryModel>::empty(), t2) =~= Set::<Seq<char>>::empty());
}

} // verus!
