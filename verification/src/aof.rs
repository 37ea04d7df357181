//! Replaying an append-only log of RESP frames into the store.

use vstd::prelude::*;
use crate::resp::{Cursor, Frame, spec_check, spec_parse};
use crate::command::{Command, spec_from_frame, spec_execute, negation_overflows};
use crate::storage::{Storage, Db};

verus! {

/// Replaying the log `buf` from `pos` at time `now`: how many commands ran,
/// the store after, and whether replay stopped at a command whose
/// negation overflows.
#[verifier::opaque]
pub open spec fn spec_replay(buf: Seq<u8>, pos: int, db: Db, now: u128) -> (nat, Db, bool)
    decreases buf.len() - pos,
{
    if pos < 0 || pos >= buf.len() {
        (0, db, false)
    } else {
        let rest = buf.subrange(pos, buf.len() as int);
        let c = spec_check(rest, 0);
        if c.res is Err || c.end <= 0 || c.end > rest.len() {
            (0, db, false)
        } else {
            let n = c.end;
            match spec_parse(buf.subrange(pos, pos + n), 0).res {
                Ok(f) => match spec_from_frame(f) {
                    Ok(cmd) => if negation_overflows(cmd) {
                        (0, db, true)
                    } else {
                        let (m, d, h) = spec_replay(buf, pos + n, spec_execute(cmd, db, now).1, now);
                        (m + 1, d, h)
                    },
                    Err(_) => spec_replay(buf, pos + n, db, now),
                },
                Err(_) => spec_replay(buf, pos + n, db, now),
            }
        }
    }
}

/// Replays the log `buffer` into `db` at time `now`: every complete frame in
/// turn is parsed, decoded and run; frames that do not decode are skipped, and
/// replay ends at the first incomplete or malformed frame. Returns how many
/// commands ran; `Err` when replay stopped at a DECRBY of the smallest `i64`,
/// which cannot be run.
pub fn replay_at(buffer: &[u8], db: &mut Storage, now: u128) -> (r: Result<usize, usize>)
    requires
        old(db).wf(),
    ensures
        final(db).wf(),
        match r {
            Ok(n) => spec_replay(buffer@, 0, old(db)@, now) == (n as nat, final(db)@, false),
            Err(n) => spec_replay(buffer@, 0, old(db)@, now) == (n as nat, final(db)@, true),
        },
{
    let ghost buf = buffer@;
    assert(forall|d: Db| #[trigger] spec_replay(buf, buf.len() as int, d, now) == (0nat, d, false)) by {
        reveal(spec_replay);
    }
    let mut parse_pos: usize = 0;
    let mut count: usize = 0;
    while parse_pos < buffer.len()
        invariant
            db.wf(),
            buf == buffer@,
            parse_pos <= buffer@.len(),
            count <= parse_pos,
            forall|d: Db| #[trigger] spec_replay(buf, buf.len() as int, d, now) == (0nat, d, false),
            ({
                let (m, d, h) = spec_replay(buf, parse_pos as int, db@, now);
                spec_replay(buf, 0, old(db)@, now) == ((count + m) as nat, d, h)
            }),
        ensures
            db.wf(),
            spec_replay(buf, 0, old(db)@, now) == (count as nat, db@, false),
        decreases buffer@.len() - parse_pos,
    {
        proof {
            reveal(spec_replay);
        }
        let rest = vstd::slice::slice_subrange(buffer, parse_pos, buffer.len());
        let mut check_cursor = Cursor::new(rest);
        if Frame::check(&mut check_cursor).is_err() {
            break;
        }
        let frame_len = check_cursor.position();
        let piece = vstd::slice::slice_subrange(buffer, parse_pos, parse_pos + frame_len);
        let mut parse_cursor = Cursor::new(piece);
        match Frame::parse(&mut parse_cursor) {
            Ok(frame) => match Command::from_frame(frame) {
                Ok(cmd) => {
                    if cmd.negation_overflows() {
                        return Err(count);
                    }
                    cmd.execute_at(db, now);
                    count = count + 1;
                },
                Err(_) => {},
            },
            Err(_) => {},
        }
        parse_pos = parse_pos + frame_len;
    }
    Ok(count)
}

/// Replays the log `buffer` into `db`, running every command at the present
/// moment of the store's clock; see [`replay_at`].
pub fn replay(buffer: &[u8], db: &mut Storage) -> (r: Result<usize, usize>)
    requires
        old(db).wf(),
    ensures
        final(db).wf(),
        exists|now: u128| match r {
            Ok(n) => #[trigger] spec_replay(buffer@, 0, old(db)@, now) == (n as nat, final(db)@, false),
            Err(n) => #[trigger] spec_replay(buffer@, 0, old(db)@, now) == (n as nat, final(db)@, true),
        },
{
    let now = db.now();
    replay_at(buffer, db, now)
}

} // verus!
