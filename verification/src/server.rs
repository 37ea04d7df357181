//! Serving one request: the decisions a connection makes for each frame it
//! reads.

use vstd::prelude::*;
use crate::resp::{Frame, SpecFrame};
use crate::command::{
    Command, SpecCommand, spec_from_frame, spec_execute, spec_is_mutating, spec_to_frame,
    negation_overflows, opt_frame,
};
use crate::storage::{Storage, Db};
use crate::command_laws::{loggable, law_mutating_iff_logged, law_log_frame_decodes};

verus! {

/// Serving request `f` against `db` at time `now`: the reply, the frame to
/// append to the log (when logging is on and the command changes the store),
/// and the store after. `None` for a DECRBY of the smallest `i64`, which
/// cannot be run.
pub open spec fn spec_serve(f: SpecFrame, db: Db, logging: bool, now: u128) -> Option<(SpecFrame, Option<SpecFrame>, Db)> {
    match spec_from_frame(f) {
        Err(e) => Some((SpecFrame::Error(e), None, db)),
        Ok(cmd) => if negation_overflows(cmd) {
            None
        } else {
            let (reply, d) = spec_execute(cmd, db, now);
            Some((reply, if logging && spec_is_mutating(cmd) { spec_to_frame(cmd) } else { None }, d))
        },
    }
}

/// Serves one request frame at time `now`: decodes it, decides what goes to
/// the log, and runs it. Returns the reply and the log record; `None` (with
/// the store unchanged) when the command cannot be run.
pub fn serve_request_at(frame: Frame, db: &mut Storage, logging: bool, now: u128) -> (r: Option<(Frame, Option<Frame>)>)
    requires
        old(db).wf(),
    ensures
        final(db).wf(),
        match r {
            Some((reply, record)) => spec_serve(frame@, old(db)@, logging, now) == Some((reply@, opt_frame(record), final(db)@)),
            None => spec_serve(frame@, old(db)@, logging, now) is None && final(db)@ == old(db)@,
        },
{
    match Command::from_frame(frame) {
        Err(err) => Some((Frame::Error(err), None)),
        Ok(cmd) => {
            if cmd.negation_overflows() {
                return None;
            }
            let record = if logging && cmd.is_mutating() {
                cmd.to_frame()
            } else {
                None
            };
            let reply = cmd.execute_at(db, now);
            Some((reply, record))
        },
    }
}

/// Serves one request frame at the present moment of the store's clock; see
/// [`serve_request_at`].
pub fn serve_request(frame: Frame, db: &mut Storage, logging: bool) -> (r: Option<(Frame, Option<Frame>)>)
    requires
        old(db).wf(),
    ensures
        final(db).wf(),
        exists|now: u128| match r {
            Some((reply, record)) => #[trigger] spec_serve(frame@, old(db)@, logging, now) == Some((reply@, opt_frame(record), final(db)@)),
            None => #[trigger] spec_serve(frame@, old(db)@, logging, now) is None && final(db)@ == old(db)@,
        },
{
    let now = db.now();
    serve_request_at(frame, db, logging, now)
}

/// Serving a request: one that does not decode is answered with its error,
/// changes nothing and is not logged; a decoded command is answered and
/// applied as running it, and is logged exactly when logging is on and it
/// changes the store, with a record that decodes back to the command when
/// the log can carry it.
pub proof fn law_serve_request(f: SpecFrame, db: Db, logging: bool, now: u128)
    ensures
        match spec_from_frame(f) {
            Err(e) => spec_serve(f, db, logging, now) == Some((SpecFrame::Error(e), None::<SpecFrame>, db)),
            Ok(c) => if negation_overflows(c) {
                spec_serve(f, db, logging, now) is None
            } else {
                spec_serve(f, db, logging, now) matches Some((reply, record, d)) && {
                    &&& (reply, d) == spec_execute(c, db, now)
                    &&& (record is Some <==> logging && spec_is_mutating(c))
                    &&& (loggable(c) && record is Some ==> spec_from_frame(record->Some_0) == Ok::<SpecCommand, Seq<char>>(c))
                }
            },
        },
{
    if let Ok(c) = spec_from_frame(f) {
        law_mutating_iff_logged(c);
        if loggable(c) {
            law_log_frame_decodes(c);
        }
    }
}

} // verus!
