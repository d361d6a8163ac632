//! Whether a board may be edited in its file.
//!
//! KiCad saves a board from memory, so an edit of the file under a KiCad that
//! holds the board open is lost with its next save. Only a request that never
//! reached a KiCad may fall back to the file.
use crate::text;
use vstd::prelude::*;

verus! {

/// Why a request over IPC did not succeed: a KiCad answered and refused, or
/// none was reached.
pub enum IpcFailure {
    Rejected(String),
    Unreachable(String),
}

/// What a tool that changes a board does after its attempt over IPC: it reports
/// what KiCad did, it edits the file, or it reports the refusal and leaves the
/// file alone.
pub enum BoardWrite<T> {
    Ipc(T),
    File,
    Refused(String),
}

/// What is told of a change that KiCad refused.
pub open spec fn rejection(what: Seq<char>, message: Seq<char>) -> Seq<char> {
    "KiCAD rejected the "@ + what + " over IPC: "@ + message
        + ". The board file was not modified — KiCAD is reachable and may hold this board open, so editing the file directly could be silently overwritten."@
}

/// What is told where KiCad holds the board open.
pub open spec fn held_open(what: Seq<char>) -> Seq<char> {
    "KiCAD currently holds this board open, and a "@ + what
        + " written to the file would be discarded by KiCAD's next save. Close the board in KiCAD (or make the edit there) and retry — this tool has no IPC path for a live board yet."@
}

/// Whether an attempt over IPC leaves a tool free to edit the file.
pub open spec fn may_edit_file<T>(w: BoardWrite<T>) -> bool {
    w is File
}

/// What a tool does after its attempt over IPC. The file is edited exactly
/// where no KiCad was reached.
pub fn attempt_ipc_write<T>(attempt: Result<T, IpcFailure>, what: &str) -> (w: BoardWrite<T>)
    ensures
        match attempt {
            Ok(value) => w == BoardWrite::Ipc(value),
            Err(IpcFailure::Rejected(message)) => w matches BoardWrite::Refused(e) && e@
                == rejection(what@, message@),
            Err(IpcFailure::Unreachable(_)) => w is File,
        },
        may_edit_file(w) <==> attempt matches Err(IpcFailure::Unreachable(_)),
{
    match attempt {
        Ok(value) => BoardWrite::Ipc(value),
        Err(IpcFailure::Rejected(message)) => BoardWrite::Refused(
            text::cat5(
                "KiCAD rejected the ",
                what,
                " over IPC: ",
                message.as_str(),
                ". The board file was not modified — KiCAD is reachable and may hold this board open, so editing the file directly could be silently overwritten.",
            ),
        ),
        Err(IpcFailure::Unreachable(_)) => BoardWrite::File,
    }
}

/// The refusal of an edit of the file, where KiCad answers that it holds the
/// very board open. A KiCad with another board, or none, is in no way of it.
pub fn refuse_if_board_open_in_kicad(active: &Result<(), IpcFailure>, what: &str) -> (r: Option<
    String,
>)
    ensures
        match r {
            Some(e) => active is Ok && e@ == held_open(what@),
            None => active is Err,
        },
{
    match active {
        Ok(_) => Some(
            text::cat3(
                "KiCAD currently holds this board open, and a ",
                what,
                " written to the file would be discarded by KiCAD's next save. Close the board in KiCAD (or make the edit there) and retry — this tool has no IPC path for a live board yet.",
            ),
        ),
        Err(_) => None,
    }
}

} // verus!
