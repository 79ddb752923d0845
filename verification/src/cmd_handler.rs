//! The command dispatcher: the state machine tying parser, store, append log
//! and snapshot together, one incoming command line at a time.
//!
//! The dispatcher runs in one of two modes: live traffic logs every accepted
//! mutation to the append log; recovery replay applies mutations with logging
//! suppressed.
use vstd::prelude::*;

use crate::aof_handler::{append_cmd, danger_verb, record_of};
use crate::bytes_helper::{bytes_eq, to_vec};
use crate::cmd_helper::{
    arity_err_spec, del_args_ok, get_args_ok, lemma_verbs_distinct, save_args_ok,
    set_args_ok, set_err_spec, split_cmd, tokens_of, validate_del, validate_get, validate_save,
    validate_set, verb_del, verb_get, verb_save, verb_set, views_of,
};
use crate::snapshot_handler::{snapshot_bytes, snapshot_save};
use crate::store::Store;
use crate::types::{CmdError, CmdOutcome, DangerCmd, Mode};
use vstd::slice::slice_subrange;

verus! {

/// A well-shaped `SET` command, verb included.
pub open spec fn is_valid_set(t: Seq<Seq<u8>>) -> bool {
    t.len() > 0 && t[0] == verb_set() && set_args_ok(t)
}

/// A well-shaped `GET` command.
pub open spec fn is_valid_get(t: Seq<Seq<u8>>) -> bool {
    t.len() > 0 && t[0] == verb_get() && get_args_ok(t)
}

/// A well-shaped `DEL` command.
pub open spec fn is_valid_del(t: Seq<Seq<u8>>) -> bool {
    t.len() > 0 && t[0] == verb_del() && del_args_ok(t)
}

/// A well-shaped `SAVE` command.
pub open spec fn is_valid_save(t: Seq<Seq<u8>>) -> bool {
    t.len() > 0 && t[0] == verb_save() && save_args_ok(t)
}

/// A token list the dispatcher accepts.
pub open spec fn line_valid(t: Seq<Seq<u8>>) -> bool {
    is_valid_set(t) || is_valid_get(t) || is_valid_del(t) || is_valid_save(t)
}

/// What a token list does to the store's mapping: a valid `SET` binds its
/// key, a valid `DEL` removes its key, everything else leaves the store as
/// it is.
pub open spec fn apply_tokens(m: Map<Seq<u8>, Seq<u8>>, t: Seq<Seq<u8>>) -> Map<Seq<u8>, Seq<u8>> {
    if is_valid_set(t) {
        m.insert(t[1], t[2])
    } else if is_valid_del(t) {
        m.remove(t[1])
    } else {
        m
    }
}

/// What a raw command line does to the store's mapping.
pub open spec fn apply_line(m: Map<Seq<u8>, Seq<u8>>, line: Seq<u8>) -> Map<Seq<u8>, Seq<u8>> {
    apply_tokens(m, tokens_of(line))
}

/// Response to a successful `SET` or `SAVE`.
pub open spec fn ok_resp() -> Seq<u8> {
    seq![79u8, 75]
}

/// Response to a `GET` miss.
pub open spec fn nil_resp() -> Seq<u8> {
    seq![40u8, 110, 105, 108, 41]
}

/// Response to a `DEL` that removed a key.
pub open spec fn int_one_resp() -> Seq<u8> {
    seq![40u8, 105, 110, 116, 101, 103, 101, 114, 41, 32, 49]
}

/// Response to a `DEL` of an absent key.
pub open spec fn int_zero_resp() -> Seq<u8> {
    seq![40u8, 105, 110, 116, 101, 103, 101, 114, 41, 32, 48]
}

/// What `GET k` answers on mapping `m`.
pub open spec fn get_response(m: Map<Seq<u8>, Seq<u8>>, k: Seq<u8>) -> Seq<u8> {
    if m.contains_key(k) {
        m[k]
    } else {
        nil_resp()
    }
}

/// What `DEL k` answers on mapping `m`.
pub open spec fn del_response(m: Map<Seq<u8>, Seq<u8>>, k: Seq<u8>) -> Seq<u8> {
    if m.contains_key(k) {
        int_one_resp()
    } else {
        int_zero_resp()
    }
}

/// The exact error the dispatcher reports for an invalid token list.
pub open spec fn err_spec(t: Seq<Seq<u8>>, e: CmdError) -> bool {
    if t.len() == 0 {
        e is EmptyCommand
    } else if t[0] == verb_set() {
        set_err_spec(t, e)
    } else if t[0] == verb_get() {
        arity_err_spec(t, verb_get(), 1, e)
    } else if t[0] == verb_del() {
        arity_err_spec(t, verb_del(), 1, e)
    } else if t[0] == verb_save() {
        arity_err_spec(t, verb_set(), 0, e)
    } else {
        &&& e matches CmdError::InvalidCommand { verb }
        &&& verb@ == t[0]
    }
}

/// Everything the dispatcher promises of a successful outcome: the response
/// text, whether a log record is produced (live mutations only; a `DEL` of an
/// absent key mutates nothing and logs nothing), and whether a snapshot image
/// is produced (`SAVE` only).
pub open spec fn outcome_spec(
    t: Seq<Seq<u8>>,
    m: Map<Seq<u8>, Seq<u8>>,
    kvs: Seq<(Seq<u8>, Seq<u8>)>,
    mode: Mode,
    out: CmdOutcome,
) -> bool {
    if is_valid_set(t) {
        &&& out.response@ == ok_resp()
        &&& out.snapshot is None
        &&& (mode is Live ==> (out.log_record matches Some(rec) && rec@ == record_of(t)))
        &&& (mode is Replay ==> out.log_record is None)
    } else if is_valid_get(t) {
        &&& out.response@ == get_response(m, t[1])
        &&& out.log_record is None
        &&& out.snapshot is None
    } else if is_valid_del(t) {
        &&& out.response@ == del_response(m, t[1])
        &&& (if m.contains_key(t[1]) && mode is Live {
            out.log_record matches Some(rec) && rec@ == record_of(t)
        } else {
            out.log_record is None
        })
        &&& out.snapshot is None
    } else if is_valid_save(t) {
        &&& out.response@ == ok_resp()
        &&& out.log_record is None
        &&& (out.snapshot matches Some(snap) && snap@ == snapshot_bytes(kvs))
    } else {
        false
    }
}

/// Handles `SET`: validate, log when live, then bind the key.
fn set_cmd(argv: &Vec<Vec<u8>>, storage: &mut Store, mode: Mode) -> (r: Result<
    CmdOutcome,
    CmdError,
>)
    requires
        old(storage).wf(),
        argv@.len() >= 1,
        views_of(argv@)[0] == verb_set(),
    ensures
        final(storage).wf(),
        final(storage)@ == apply_tokens(old(storage)@, views_of(argv@)),
        ({
            let t = views_of(argv@);
            match r {
                Ok(out) => {
                    &&& is_valid_set(t)
                    &&& out.response@ == ok_resp()
                    &&& out.snapshot is None
                    &&& (mode is Live ==> (out.log_record matches Some(rec) && rec@ == record_of(t)))
                    &&& (mode is Replay ==> out.log_record is None)
                },
                Err(e) => !is_valid_set(t) && set_err_spec(t, e),
            }
        }),
{
    let ghost t = views_of(argv@);
    match validate_set(argv) {
        Err(e) => {
            proof {
                lemma_verbs_distinct();
            }
            return Err(e);
        },
        Ok(()) => {},
    }
    let log_record = match mode {
        Mode::Live => {
            let args = slice_subrange(argv.as_slice(), 1, argv.len());
            let rec = append_cmd(args, DangerCmd::SetCmd);
            proof {
                assert(seq![danger_verb(DangerCmd::SetCmd)] + views_of(args@) =~= t);
            }
            Some(rec)
        },
        Mode::Replay => None,
    };
    storage.set(argv[1].as_slice(), argv[2].as_slice());
    let ok: [u8; 2] = [79, 75];
    proof {
        assert(ok@ =~= ok_resp());
        lemma_verbs_distinct();
    }
    Ok(CmdOutcome { response: to_vec(ok.as_slice()), log_record, snapshot: None })
}

/// Handles `GET`: validate, then look the key up; a miss answers `(nil)`.
fn get_cmd(argv: &Vec<Vec<u8>>, storage: &Store) -> (r: Result<CmdOutcome, CmdError>)
    requires
        storage.wf(),
        argv@.len() >= 1,
        views_of(argv@)[0] == verb_get(),
    ensures
        ({
            let t = views_of(argv@);
            match r {
                Ok(out) => {
                    &&& is_valid_get(t)
                    &&& out.response@ == get_response(storage@, t[1])
                    &&& out.log_record is None
                    &&& out.snapshot is None
                },
                Err(e) => !is_valid_get(t) && arity_err_spec(t, verb_get(), 1, e),
            }
        }),
{
    match validate_get(argv) {
        Err(e) => {
            return Err(e);
        },
        Ok(()) => {},
    }
    let response = match storage.get(argv[1].as_slice()) {
        Some(v) => to_vec(v.as_slice()),
        None => {
            let nil: [u8; 5] = [40, 110, 105, 108, 41];
            proof {
                assert(nil@ =~= nil_resp());
            }
            to_vec(nil.as_slice())
        },
    };
    Ok(CmdOutcome { response, log_record: None, snapshot: None })
}

/// Handles `DEL`: validate, remove the key, and log the removal when live
/// and a key was in fact removed.
fn del_cmd(argv: &Vec<Vec<u8>>, storage: &mut Store, mode: Mode) -> (r: Result<
    CmdOutcome,
    CmdError,
>)
    requires
        old(storage).wf(),
        argv@.len() >= 1,
        views_of(argv@)[0] == verb_del(),
    ensures
        final(storage).wf(),
        final(storage)@ == apply_tokens(old(storage)@, views_of(argv@)),
        ({
            let t = views_of(argv@);
            match r {
                Ok(out) => {
                    &&& is_valid_del(t)
                    &&& out.response@ == del_response(old(storage)@, t[1])
                    &&& out.snapshot is None
                    &&& (if old(storage)@.contains_key(t[1]) && mode is Live {
                        out.log_record matches Some(rec) && rec@ == record_of(t)
                    } else {
                        out.log_record is None
                    })
                },
                Err(e) => !is_valid_del(t) && arity_err_spec(t, verb_del(), 1, e),
            }
        }),
{
    let ghost t = views_of(argv@);
    match validate_del(argv) {
        Err(e) => {
            proof {
                lemma_verbs_distinct();
            }
            return Err(e);
        },
        Ok(()) => {},
    }
    let existed = storage.delete(argv[1].as_slice());
    let log_record = if existed {
        match mode {
            Mode::Live => {
                let args = slice_subrange(argv.as_slice(), 1, argv.len());
                let rec = append_cmd(args, DangerCmd::DelCmd);
                proof {
                    assert(seq![danger_verb(DangerCmd::DelCmd)] + views_of(args@) =~= t);
                }
                Some(rec)
            },
            Mode::Replay => None,
        }
    } else {
        None
    };
    let response = if existed {
        let one: [u8; 11] = [40, 105, 110, 116, 101, 103, 101, 114, 41, 32, 49];
        proof {
            assert(one@ =~= int_one_resp());
        }
        to_vec(one.as_slice())
    } else {
        let zero: [u8; 11] = [40, 105, 110, 116, 101, 103, 101, 114, 41, 32, 48];
        proof {
            assert(zero@ =~= int_zero_resp());
        }
        to_vec(zero.as_slice())
    };
    proof {
        lemma_verbs_distinct();
    }
    Ok(CmdOutcome { response, log_record, snapshot: None })
}

/// Handles `SAVE`: validate, then serialize the whole store; the caller
/// persists the returned image.
fn save_cmd(argv: &Vec<Vec<u8>>, storage: &Store) -> (r: Result<CmdOutcome, CmdError>)
    requires
        storage.wf(),
        argv@.len() >= 1,
        views_of(argv@)[0] == verb_save(),
    ensures
        ({
            let t = views_of(argv@);
            match r {
                Ok(out) => {
                    &&& is_valid_save(t)
                    &&& out.response@ == ok_resp()
                    &&& out.log_record is None
                    &&& (out.snapshot matches Some(snap) && snap@ == snapshot_bytes(storage.kvs()))
                },
                Err(e) => !is_valid_save(t) && arity_err_spec(t, verb_set(), 0, e),
            }
        }),
{
    match validate_save(argv) {
        Err(e) => {
            return Err(e);
        },
        Ok(()) => {},
    }
    let snap = snapshot_save(storage);
    let ok: [u8; 2] = [79, 75];
    proof {
        assert(ok@ =~= ok_resp());
    }
    Ok(CmdOutcome { response: to_vec(ok.as_slice()), log_record: None, snapshot: Some(snap) })
}

/// Processes one raw command line against the store.
///
/// The store afterwards holds exactly `apply_line` of its old mapping. A
/// valid line yields the documented response, log record and snapshot image;
/// an invalid line leaves the store unchanged and reports the documented
/// error.
pub fn proc_cmd(cmd: &[u8], storage: &mut Store, mode: Mode) -> (r: Result<CmdOutcome, CmdError>)
    requires
        old(storage).wf(),
    ensures
        final(storage).wf(),
        final(storage)@ == apply_line(old(storage)@, cmd@),
        ({
            let t = tokens_of(cmd@);
            match r {
                Ok(out) => line_valid(t) && outcome_spec(
                    t,
                    old(storage)@,
                    old(storage).kvs(),
                    mode,
                    out,
                ),
                Err(e) => !line_valid(t) && err_spec(t, e),
            }
        }),
{
    let toks = split_cmd(cmd);
    let ghost t = tokens_of(cmd@);
    proof {
        lemma_verbs_distinct();
        assert(views_of(toks@).len() == toks@.len());
    }
    if toks.len() == 0 {
        return Err(CmdError::EmptyCommand);
    }
    let set_v: [u8; 3] = [83, 69, 84];
    let get_v: [u8; 3] = [71, 69, 84];
    let del_v: [u8; 3] = [68, 69, 76];
    let save_v: [u8; 4] = [83, 65, 86, 69];
    proof {
        assert(set_v@ =~= verb_set());
        assert(get_v@ =~= verb_get());
        assert(del_v@ =~= verb_del());
        assert(save_v@ =~= verb_save());
        assert(views_of(toks@)[0] == toks@[0]@);
    }
    if bytes_eq(toks[0].as_slice(), set_v.as_slice()) {
        set_cmd(&toks, storage, mode)
    } else if bytes_eq(toks[0].as_slice(), get_v.as_slice()) {
        get_cmd(&toks, storage)
    } else if bytes_eq(toks[0].as_slice(), del_v.as_slice()) {
        del_cmd(&toks, storage, mode)
    } else if bytes_eq(toks[0].as_slice(), save_v.as_slice()) {
        save_cmd(&toks, storage)
    } else {
        Err(CmdError::InvalidCommand { verb: to_vec(toks[0].as_slice()) })
    }
}


/// After a valid `SET k v`, the store holds `v` under `k`, and `GET k`
/// returns `v`.
pub proof fn lemma_set_then_get(m: Map<Seq<u8>, Seq<u8>>, ts: Seq<Seq<u8>>)
    requires
        is_valid_set(ts),
    ensures
        apply_tokens(m, ts).contains_key(ts[1]),
        apply_tokens(m, ts)[ts[1]] == ts[2],
        get_response(apply_tokens(m, ts), ts[1]) == ts[2],
{
}

/// Last writer wins: after `SET k v1` then `SET k v2`, `GET k` returns `v2`.
pub proof fn lemma_set_set_get(m: Map<Seq<u8>, Seq<u8>>, t1: Seq<Seq<u8>>, t2: Seq<Seq<u8>>)
    requires
        is_valid_set(t1),
        is_valid_set(t2),
        t2[1] == t1[1],
    ensures
        get_response(apply_tokens(apply_tokens(m, t1), t2), t1[1]) == t2[2],
{
}

/// `GET` of a key never written returns `(nil)`.
pub proof fn lemma_get_absent(m: Map<Seq<u8>, Seq<u8>>, k: Seq<u8>)
    requires
        !m.contains_key(k),
    ensures
        get_response(m, k) == nil_resp(),
{
}

/// `GET` of a key written and then deleted returns `(nil)`.
pub proof fn lemma_del_then_get(m: Map<Seq<u8>, Seq<u8>>, td: Seq<Seq<u8>>)
    requires
        is_valid_del(td),
    ensures
        get_response(apply_tokens(m, td), td[1]) == nil_resp(),
{
}

/// `DEL k` on a present key answers `(integer) 1` and removes the key;
/// on an absent key it answers `(integer) 0` and changes nothing.
pub proof fn lemma_del_semantics(m: Map<Seq<u8>, Seq<u8>>, td: Seq<Seq<u8>>)
    requires
        is_valid_del(td),
    ensures
        m.contains_key(td[1]) ==> del_response(m, td[1]) == int_one_resp() && !apply_tokens(
            m,
            td,
        ).contains_key(td[1]),
        !m.contains_key(td[1]) ==> del_response(m, td[1]) == int_zero_resp() && apply_tokens(m, td)
            == m,
{
    if !m.contains_key(td[1]) {
        assert(m.remove(td[1]) =~= m);
    }
}

} // verus!
