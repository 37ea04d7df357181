//! What the append-only log promises: replaying the frames logged for a
//! sequence of commands runs exactly those commands, in order.

use vstd::prelude::*;
use crate::resp::{SpecFrame, SpecError, spec_check, spec_parse, spec_serialize};
use crate::resp_laws::{wire_safe, lemma_parse_serialized, lemma_check_of_parse, lemma_check_advances};
use crate::command::{SpecCommand, spec_to_frame, spec_execute, spec_from_frame, negation_overflows};
use crate::command_laws::{loggable, law_log_frame_decodes};
use crate::storage::Db;
use crate::aof::spec_replay;

verus! {

/// The log written for the commands `cs`: their frames, encoded one after
/// another.
#[verifier::opaque]
pub open spec fn log_bytes(cs: Seq<SpecCommand>) -> Seq<u8>
    decreases cs.len(),
{
    if cs.len() == 0 {
        seq![]
    } else {
        spec_serialize(spec_to_frame(cs[0])->Some_0) + log_bytes(cs.drop_first())
    }
}

/// Running the commands `cs` in order at time `now`.
pub open spec fn run_all(cs: Seq<SpecCommand>, db: Db, now: u128) -> Db
    decreases cs.len(),
{
    if cs.len() == 0 {
        db
    } else {
        run_all(cs.drop_first(), spec_execute(cs[0], db, now).1, now)
    }
}

/// A command whose log frame replays as itself.
#[verifier::opaque]
pub open spec fn replayable(c: SpecCommand) -> bool {
    &&& loggable(c)
    &&& wire_safe(spec_to_frame(c)->Some_0)
    &&& !negation_overflows(c)
}

/// One step of replay where a frame of `n` bytes at `pos` decodes to `c0`.
proof fn lemma_replay_step(buf: Seq<u8>, pos: int, db: Db, now: u128, n: int, c0: SpecCommand)
    requires
        0 <= pos < buf.len(),
        0 < n <= buf.len() - pos,
        spec_check(buf.subrange(pos, buf.len() as int), 0).res is Ok,
        spec_check(buf.subrange(pos, buf.len() as int), 0).end == n,
        spec_parse(buf.subrange(pos, pos + n), 0).res matches Ok(f) && spec_from_frame(f) == Ok::<SpecCommand, Seq<char>>(c0),
        !negation_overflows(c0),
    ensures
        ({
            let (m, d, h) = spec_replay(buf, pos + n, spec_execute(c0, db, now).1, now);
            spec_replay(buf, pos, db, now) == ((m + 1) as nat, d, h)
        }),
{
    reveal(spec_replay);
}

/// Where the encoding of `f` opens `rest`, the check accepts exactly that
/// many bytes and those bytes parse back to `f`.
proof fn lemma_frame_opens(f: SpecFrame, rest: Seq<u8>, tail: Seq<u8>)
    requires
        wire_safe(f),
        rest == spec_serialize(f) + tail,
    ensures
        spec_check(rest, 0).res is Ok,
        spec_check(rest, 0).end == spec_serialize(f).len(),
        spec_serialize(f).len() > 0,
        spec_parse(rest.subrange(0, spec_serialize(f).len() as int), 0).res == Ok::<SpecFrame, SpecError>(f),
{
    let w = spec_serialize(f);
    let n = w.len() as int;
    assert(rest.subrange(0, n) =~= w);
    lemma_parse_serialized(f, rest, 0);
    lemma_check_of_parse(rest, 0);
    lemma_check_advances(rest, 0);
    let piece = rest.subrange(0, n);
    assert(piece.subrange(0, n) =~= piece);
    lemma_parse_serialized(f, piece, 0);
}

/// One step of replay over a buffer that holds, from `pos`, the encoding of
/// a frame that decodes to `c`, then `tail`: `c` runs, and replay goes on at
/// `tail`.
proof fn lemma_replay_entry(f: SpecFrame, c: SpecCommand, buf: Seq<u8>, pos: int, tail: Seq<u8>, db: Db, now: u128) -> (n: int)
    requires
        wire_safe(f),
        spec_from_frame(f) == Ok::<SpecCommand, Seq<char>>(c),
        !negation_overflows(c),
        0 <= pos <= buf.len(),
        buf.subrange(pos, buf.len() as int) == spec_serialize(f) + tail,
    ensures
        0 < n,
        pos + n <= buf.len(),
        buf.subrange(pos + n, buf.len() as int) == tail,
        ({
            let (m, d, h) = spec_replay(buf, pos + n, spec_execute(c, db, now).1, now);
            spec_replay(buf, pos, db, now) == ((m + 1) as nat, d, h)
        }),
{
    let rest = buf.subrange(pos, buf.len() as int);
    lemma_frame_opens(f, rest, tail);
    let n = spec_serialize(f).len() as int;
    assert(buf.subrange(pos, pos + n) =~= rest.subrange(0, n));
    lemma_replay_step(buf, pos, db, now, n, c);
    assert forall|i: int| 0 <= i < tail.len() implies #[trigger] buf.subrange(pos + n, buf.len() as int)[i] == tail[i] by {
        assert(rest[n + i] == (spec_serialize(f) + tail)[n + i]);
    }
    assert(buf.subrange(pos + n, buf.len() as int) =~= tail);
    n
}

/// One step of replay over a log that opens with the entry of a replayable
/// command: the command runs, and replay goes on right after its entry.
proof fn lemma_replay_head(cs: Seq<SpecCommand>, buf: Seq<u8>, pos: int, db: Db, now: u128) -> (n: int)
    requires
        cs.len() > 0,
        0 <= pos <= buf.len(),
        buf.subrange(pos, buf.len() as int) == log_bytes(cs),
        replayable(cs[0]),
    ensures
        0 < n,
        pos + n <= buf.len(),
        buf.subrange(pos + n, buf.len() as int) == log_bytes(cs.drop_first()),
        ({
            let (m, d, h) = spec_replay(buf, pos + n, spec_execute(cs[0], db, now).1, now);
            spec_replay(buf, pos, db, now) == ((m + 1) as nat, d, h)
        }),
{
    reveal(replayable);
    reveal_with_fuel(log_bytes, 1);
    let c0 = cs[0];
    law_log_frame_decodes(c0);
    lemma_replay_entry(spec_to_frame(c0)->Some_0, c0, buf, pos, log_bytes(cs.drop_first()), db, now)
}

proof fn lemma_replay_from(cs: Seq<SpecCommand>, buf: Seq<u8>, pos: int, db: Db, now: u128)
    requires
        0 <= pos <= buf.len(),
        buf.subrange(pos, buf.len() as int) == log_bytes(cs),
        forall|i: int| 0 <= i < cs.len() ==> replayable(#[trigger] cs[i]),
    ensures
        spec_replay(buf, pos, db, now) == (cs.len(), run_all(cs, db, now), false),
    decreases cs.len(),
{
    if cs.len() == 0 {
        assert(buf.subrange(pos, buf.len() as int).len() == 0) by {
            reveal_with_fuel(log_bytes, 1);
        }
        reveal(spec_replay);
    } else {
        let tail = cs.drop_first();
        let n = lemma_replay_head(cs, buf, pos, db, now);
        assert forall|i: int| 0 <= i < tail.len() implies replayable(#[trigger] tail[i]) by {
            assert(tail[i] == cs[i + 1]);
        }
        lemma_replay_from(tail, buf, pos + n, spec_execute(cs[0], db, now).1, now);
    }
}

/// Replaying a log reconstructs the state: the log written for commands `cs`
/// replays all of them, in order, and leaves the store as running them does.
pub proof fn law_replay_log(cs: Seq<SpecCommand>, db: Db, now: u128)
    requires
        forall|i: int| 0 <= i < cs.len() ==> replayable(#[trigger] cs[i]),
    ensures
        spec_replay(log_bytes(cs), 0, db, now) == (cs.len(), run_all(cs, db, now), false),
{
    let buf = log_bytes(cs);
    assert(buf.subrange(0, buf.len() as int) =~= buf);
    lemma_replay_from(cs, buf, 0, db, now);
}

} // verus!
