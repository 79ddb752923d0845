//! A small durable key/value store spoken to over a line-oriented text
//! protocol: `SET key value [EX seconds]`, `GET key`, `DEL key`, `SAVE`.
//!
//! The crate root offers a minimal in-memory dispatcher over `SET`/`GET`/
//! `DEL` alone; the full store — append log, snapshot and recovery included
//! — lives in [`cmd_handler`], [`aof_handler`] and [`snapshot_handler`].
use vstd::prelude::*;

pub mod aof_handler;
pub mod bytes_helper;
pub mod cmd_handler;
pub mod cmd_helper;
pub mod cmd_opt_helper;
pub mod snapshot_handler;
pub mod store;
pub mod types;

use crate::bytes_helper::{bytes_eq, to_vec};
use crate::cmd_handler::{del_response, get_response, nil_resp, ok_resp};
use crate::cmd_helper::{
    arity_err_spec, lemma_verbs_distinct, split_cmd, tokens_of, verb_del, verb_get, verb_set,
    views_of,
};
use crate::store::Store;
use crate::types::CmdError;

verus! {

/// `SET key value`, nothing optional: the minimal dispatcher takes exactly
/// three tokens.
pub open spec fn kv_valid_set(t: Seq<Seq<u8>>) -> bool {
    t.len() == 3 && t[0] == verb_set()
}

/// `GET key`.
pub open spec fn kv_valid_get(t: Seq<Seq<u8>>) -> bool {
    t.len() == 2 && t[0] == verb_get()
}

/// `DEL key`.
pub open spec fn kv_valid_del(t: Seq<Seq<u8>>) -> bool {
    t.len() == 2 && t[0] == verb_del()
}

/// What a token list does to the minimal dispatcher's store.
pub open spec fn kv_apply_tokens(m: Map<Seq<u8>, Seq<u8>>, t: Seq<Seq<u8>>) -> Map<
    Seq<u8>,
    Seq<u8>,
> {
    if kv_valid_set(t) {
        m.insert(t[1], t[2])
    } else if kv_valid_del(t) {
        m.remove(t[1])
    } else {
        m
    }
}

/// The exact error the minimal dispatcher reports for an invalid token list.
pub open spec fn kv_err_spec(t: Seq<Seq<u8>>, e: CmdError) -> bool {
    if t.len() == 0 {
        e is EmptyCommand
    } else if t[0] == verb_set() {
        arity_err_spec(t, verb_set(), 2, e)
    } else if t[0] == verb_get() {
        arity_err_spec(t, verb_get(), 1, e)
    } else if t[0] == verb_del() {
        arity_err_spec(t, verb_del(), 1, e)
    } else {
        &&& e matches CmdError::InvalidCommand { verb }
        &&& verb@ == t[0]
    }
}

/// Splits a raw command line on whitespace into its tokens.
pub fn clean_cmd(cmd: &[u8]) -> (r: Vec<Vec<u8>>)
    ensures
        views_of(r@) == tokens_of(cmd@),
{
    split_cmd(cmd)
}

/// Processes one `SET`/`GET`/`DEL` command line against an in-memory store,
/// with no persistence: the store afterwards holds exactly
/// `kv_apply_tokens` of its old mapping, and a valid line yields the
/// documented response.
pub fn proc_cmd(cmd: &[u8], storage: &mut Store) -> (r: Result<Vec<u8>, CmdError>)
    requires
        old(storage).wf(),
    ensures
        final(storage).wf(),
        final(storage)@ == kv_apply_tokens(old(storage)@, tokens_of(cmd@)),
        ({
            let t = tokens_of(cmd@);
            match r {
                Ok(resp) => {
                    &&& kv_valid_set(t) || kv_valid_get(t) || kv_valid_del(t)
                    &&& (kv_valid_set(t) ==> resp@ == ok_resp())
                    &&& (kv_valid_get(t) ==> resp@ == get_response(old(storage)@, t[1]))
                    &&& (kv_valid_del(t) ==> resp@ == del_response(old(storage)@, t[1]))
                },
                Err(e) => !(kv_valid_set(t) || kv_valid_get(t) || kv_valid_del(t)) && kv_err_spec(
                    t,
                    e,
                ),
            }
        }),
{
    let toks = clean_cmd(cmd);
    let ghost t = tokens_of(cmd@);
    proof {
        lemma_verbs_distinct();
        assert(views_of(toks@).len() == toks@.len());
    }
    if toks.len() == 0 {
        return Err(CmdError::EmptyCommand);
    }
    proof {
        assert(views_of(toks@)[0] == toks@[0]@);
    }
    let set_v: [u8; 3] = [83, 69, 84];
    let get_v: [u8; 3] = [71, 69, 84];
    let del_v: [u8; 3] = [68, 69, 76];
    proof {
        assert(set_v@ =~= verb_set());
        assert(get_v@ =~= verb_get());
        assert(del_v@ =~= verb_del());
    }
    if bytes_eq(toks[0].as_slice(), set_v.as_slice()) {
        if toks.len() != 3 {
            return Err(
                CmdError::InvalidArity {
                    verb: to_vec(set_v.as_slice()),
                    expected: 2,
                    found: toks.len() - 1,
                },
            );
        }
        proof {
            assert(views_of(toks@)[1] == toks@[1]@);
            assert(views_of(toks@)[2] == toks@[2]@);
        }
        storage.set(toks[1].as_slice(), toks[2].as_slice());
        let ok: [u8; 2] = [79, 75];
        proof {
            assert(ok@ =~= ok_resp());
        }
        Ok(to_vec(ok.as_slice()))
    } else if bytes_eq(toks[0].as_slice(), get_v.as_slice()) {
        if toks.len() != 2 {
            return Err(
                CmdError::InvalidArity {
                    verb: to_vec(get_v.as_slice()),
                    expected: 1,
                    found: toks.len() - 1,
                },
            );
        }
        proof {
            assert(views_of(toks@)[1] == toks@[1]@);
        }
        match storage.get(toks[1].as_slice()) {
            Some(v) => Ok(to_vec(v.as_slice())),
            None => {
                let nil: [u8; 5] = [40, 110, 105, 108, 41];
                proof {
                    assert(nil@ =~= nil_resp());
                }
                Ok(to_vec(nil.as_slice()))
            },
        }
    } else if bytes_eq(toks[0].as_slice(), del_v.as_slice()) {
        if toks.len() != 2 {
            return Err(
                CmdError::InvalidArity {
                    verb: to_vec(del_v.as_slice()),
                    expected: 1,
                    found: toks.len() - 1,
                },
            );
        }
        proof {
            assert(views_of(toks@)[1] == toks@[1]@);
        }
        let existed = storage.delete(toks[1].as_slice());
        if existed {
            let one: [u8; 11] = [40, 105, 110, 116, 101, 103, 101, 114, 41, 32, 49];
            proof {
                assert(one@ =~= crate::cmd_handler::int_one_resp());
            }
            Ok(to_vec(one.as_slice()))
        } else {
            let zero: [u8; 11] = [40, 105, 110, 116, 101, 103, 101, 114, 41, 32, 48];
            proof {
                assert(zero@ =~= crate::cmd_handler::int_zero_resp());
                assert(old(storage)@.remove(t[1]) =~= old(storage)@);
            }
            Ok(to_vec(zero.as_slice()))
        }
    } else {
        Err(CmdError::InvalidCommand { verb: to_vec(toks[0].as_slice()) })
    }
}

} // verus!
