//! Command-line tokenization and per-verb arity validation.
//!
//! A raw command line is split on whitespace into tokens; the first token is
//! the verb. Each verb has a fixed shape: `SET key value [EX n]`, `GET key`,
//! `DEL key`, `SAVE`.
use vstd::prelude::*;

use crate::cmd_opt_helper::{ex_num_ok, opt_ex, validate_ex};
use crate::types::CmdError;
use crate::bytes_helper::to_vec;

verus! {

/// ASCII whitespace: space, tab, line feed, vertical tab, form feed,
/// carriage return.
pub open spec fn is_ws(b: u8) -> bool {
    b == 32 || (9 <= b && b <= 13)
}

/// The views of a sequence of byte vectors.
pub open spec fn views_of(ts: Seq<Vec<u8>>) -> Seq<Seq<u8>> {
    ts.map_values(|t: Vec<u8>| t@)
}

/// One step of the whitespace scan: the state is the tokens finished so far
/// and the (possibly empty) token being accumulated.
pub open spec fn token_scan_step(st: (Seq<Seq<u8>>, Seq<u8>), b: u8) -> (Seq<Seq<u8>>, Seq<u8>) {
    if is_ws(b) {
        if st.1.len() == 0 {
            st
        } else {
            (st.0.push(st.1), Seq::empty())
        }
    } else {
        (st.0, st.1.push(b))
    }
}

/// Folds the whitespace scan over `s`, left to right.
pub open spec fn token_scan(st: (Seq<Seq<u8>>, Seq<u8>), s: Seq<u8>) -> (Seq<Seq<u8>>, Seq<u8>)
    decreases s.len(),
{
    if s.len() == 0 {
        st
    } else {
        token_scan(token_scan_step(st, s[0]), s.skip(1))
    }
}

/// The whitespace-separated tokens of `s`: maximal runs of non-whitespace
/// bytes, in order.
pub open spec fn tokens_of(s: Seq<u8>) -> Seq<Seq<u8>> {
    let st = token_scan((Seq::empty(), Seq::empty()), s);
    if st.1.len() == 0 {
        st.0
    } else {
        st.0.push(st.1)
    }
}

/// The scan of `s.push(b)` is one more step after the scan of `s`.
pub proof fn lemma_token_scan_push(st: (Seq<Seq<u8>>, Seq<u8>), s: Seq<u8>, b: u8)
    ensures
        token_scan(st, s.push(b)) == token_scan_step(token_scan(st, s), b),
    decreases s.len(),
{
    if s.len() == 0 {
        reveal_with_fuel(token_scan, 3);
        assert(s.push(b)[0] == b);
        assert(s.push(b).skip(1) =~= Seq::<u8>::empty());
    } else {
        assert(s.push(b)[0] == s[0]);
        assert(s.push(b).skip(1) =~= s.skip(1).push(b));
        lemma_token_scan_push(token_scan_step(st, s[0]), s.skip(1), b);
    }
}

/// The scan distributes over concatenation.
pub proof fn lemma_token_scan_concat(st: (Seq<Seq<u8>>, Seq<u8>), a: Seq<u8>, b: Seq<u8>)
    ensures
        token_scan(st, a + b) == token_scan(token_scan(st, a), b),
    decreases a.len(),
{
    if a.len() == 0 {
        assert(a + b =~= b);
    } else {
        assert((a + b)[0] == a[0]);
        assert((a + b).skip(1) =~= a.skip(1) + b);
        lemma_token_scan_concat(token_scan_step(st, a[0]), a.skip(1), b);
    }
}

/// Splits a raw command line on whitespace into its tokens.
pub fn split_cmd(cmd: &[u8]) -> (r: Vec<Vec<u8>>)
    ensures
        views_of(r@) == tokens_of(cmd@),
{
    let mut toks: Vec<Vec<u8>> = Vec::new();
    let mut cur: Vec<u8> = Vec::new();
    let mut i: usize = 0;
    while i < cmd.len()
        invariant
            i <= cmd.len(),
            views_of(toks@) == token_scan(
                (Seq::<Seq<u8>>::empty(), Seq::<u8>::empty()),
                cmd@.take(i as int),
            ).0,
            cur@ == token_scan((Seq::<Seq<u8>>::empty(), Seq::<u8>::empty()), cmd@.take(i as int)).1,
        decreases cmd.len() - i,
    {
        let ghost st0 = token_scan(
            (Seq::<Seq<u8>>::empty(), Seq::<u8>::empty()),
            cmd@.take(i as int),
        );
        proof {
            assert(cmd@.take(i + 1) =~= cmd@.take(i as int).push(cmd@[i as int]));
            lemma_token_scan_push(
                (Seq::<Seq<u8>>::empty(), Seq::<u8>::empty()),
                cmd@.take(i as int),
                cmd@[i as int],
            );
        }
        let b = cmd[i];
        if b == 32 || (9 <= b && b <= 13) {
            if cur.len() > 0 {
                let ghost old_toks = toks@;
                toks.push(cur);
                cur = Vec::new();
                proof {
                    assert(views_of(toks@) =~= views_of(old_toks).push(st0.1));
                }
            }
        } else {
            cur.push(b);
        }
        i += 1;
    }
    proof {
        assert(cmd@.take(cmd@.len() as int) =~= cmd@);
    }
    if cur.len() > 0 {
        let ghost old_toks = toks@;
        let ghost last = cur@;
        toks.push(cur);
        proof {
            assert(views_of(toks@) =~= views_of(old_toks).push(last));
        }
    }
    toks
}

/// The verb `SET`.
pub open spec fn verb_set() -> Seq<u8> {
    seq![83u8, 69, 84]
}

/// The verb `GET`.
pub open spec fn verb_get() -> Seq<u8> {
    seq![71u8, 69, 84]
}

/// The verb `DEL`.
pub open spec fn verb_del() -> Seq<u8> {
    seq![68u8, 69, 76]
}

/// The verb `SAVE`.
pub open spec fn verb_save() -> Seq<u8> {
    seq![83u8, 65, 86, 69]
}

/// The four verbs are pairwise distinct words.
pub proof fn lemma_verbs_distinct()
    ensures
        verb_set() != verb_get(),
        verb_set() != verb_del(),
        verb_set() != verb_save(),
        verb_get() != verb_del(),
        verb_get() != verb_save(),
        verb_del() != verb_save(),
{
    assert(verb_set()[0] == 83 && verb_get()[0] == 71 && verb_del()[0] == 68);
    assert(verb_set().len() == 3 && verb_get().len() == 3 && verb_del().len() == 3
        && verb_save().len() == 4);
}

/// Shape of a full `SET` token list (verb included): `SET key value` or
/// `SET key value EX n`.
pub open spec fn set_args_ok(t: Seq<Seq<u8>>) -> bool {
    t.len() == 3 || (t.len() == 5 && t[3] == opt_ex() && ex_num_ok(t[4]))
}

/// Shape of a full `GET` token list: `GET key`.
pub open spec fn get_args_ok(t: Seq<Seq<u8>>) -> bool {
    t.len() == 2
}

/// Shape of a full `DEL` token list: `DEL key`.
pub open spec fn del_args_ok(t: Seq<Seq<u8>>) -> bool {
    t.len() == 2
}

/// Shape of a full `SAVE` token list: the bare verb.
pub open spec fn save_args_ok(t: Seq<Seq<u8>>) -> bool {
    t.len() == 1
}

/// The arity error reported for a token list of `t.len()` tokens whose verb
/// expects `expected` arguments, under the name `verb`.
pub open spec fn arity_err_spec(t: Seq<Seq<u8>>, verb_name: Seq<u8>, exp: int, e: CmdError) -> bool {
    &&& e matches CmdError::InvalidArity { verb, expected, found }
    &&& verb@ == verb_name
    &&& expected as int == exp
    &&& found as int == t.len() - 1
}

/// The error reported by `validate_set` on an ill-shaped `SET`.
pub open spec fn set_err_spec(t: Seq<Seq<u8>>, e: CmdError) -> bool {
    if t.len() == 5 {
        if t[3] != opt_ex() {
            &&& e matches CmdError::InvalidExOption { found }
            &&& found@ == t[3]
        } else {
            e is InvalidExNumber
        }
    } else {
        arity_err_spec(t, verb_set(), if t.len() > 3 { 4int } else { 2int }, e)
    }
}

/// Validates the shape of a `SET` command's token list (verb included).
pub fn validate_set(argv: &Vec<Vec<u8>>) -> (r: Result<(), CmdError>)
    requires
        argv@.len() >= 1,
    ensures
        ({
            let t = views_of(argv@);
            match r {
                Ok(()) => set_args_ok(t),
                Err(e) => !set_args_ok(t) && set_err_spec(t, e),
            }
        }),
{
    let n = argv.len();
    if n == 3 {
        Ok(())
    } else if n == 5 {
        let r = validate_ex(&argv[3], &argv[4]);
        proof {
            assert(views_of(argv@)[3] == argv@[3]@);
            assert(views_of(argv@)[4] == argv@[4]@);
        }
        r
    } else {
        Err(
            CmdError::InvalidArity {
                verb: {
                    let v: [u8; 3] = [83, 69, 84];
                    proof {
                        assert(v@ =~= verb_set());
                    }
                    to_vec(v.as_slice())
                },
                expected: if n > 3 {
                    4
                } else {
                    2
                },
                found: n - 1,
            },
        )
    }
}

/// Validates the shape of a `GET` command's token list (verb included).
pub fn validate_get(argv: &Vec<Vec<u8>>) -> (r: Result<(), CmdError>)
    requires
        argv@.len() >= 1,
    ensures
        ({
            let t = views_of(argv@);
            match r {
                Ok(()) => get_args_ok(t),
                Err(e) => !get_args_ok(t) && arity_err_spec(t, verb_get(), 1, e),
            }
        }),
{
    if argv.len() == 2 {
        Ok(())
    } else {
        let v: [u8; 3] = [71, 69, 84];
        proof {
            assert(v@ =~= verb_get());
        }
        Err(CmdError::InvalidArity { verb: to_vec(v.as_slice()), expected: 1, found: argv.len() - 1 })
    }
}

/// Validates the shape of a `DEL` command's token list (verb included).
pub fn validate_del(argv: &Vec<Vec<u8>>) -> (r: Result<(), CmdError>)
    requires
        argv@.len() >= 1,
    ensures
        ({
            let t = views_of(argv@);
            match r {
                Ok(()) => del_args_ok(t),
                Err(e) => !del_args_ok(t) && arity_err_spec(t, verb_del(), 1, e),
            }
        }),
{
    if argv.len() == 2 {
        Ok(())
    } else {
        let v: [u8; 3] = [68, 69, 76];
        proof {
            assert(v@ =~= verb_del());
        }
        Err(CmdError::InvalidArity { verb: to_vec(v.as_slice()), expected: 1, found: argv.len() - 1 })
    }
}

/// Validates the shape of a `SAVE` command's token list (verb included).
/// The arity error carries the verb name `SET` in its message text.
pub fn validate_save(argv: &Vec<Vec<u8>>) -> (r: Result<(), CmdError>)
    requires
        argv@.len() >= 1,
    ensures
        ({
            let t = views_of(argv@);
            match r {
                Ok(()) => save_args_ok(t),
                Err(e) => !save_args_ok(t) && arity_err_spec(t, verb_set(), 0, e),
            }
        }),
{
    if argv.len() == 1 {
        Ok(())
    } else {
        let v: [u8; 3] = [83, 69, 84];
        proof {
            assert(v@ =~= verb_set());
        }
        Err(CmdError::InvalidArity { verb: to_vec(v.as_slice()), expected: 0, found: argv.len() - 1 })
    }
}


/// A token as the tokenizer produces them: non-empty, no whitespace byte.
pub open spec fn good_token(t: Seq<u8>) -> bool {
    t.len() > 0 && (forall|i: int| 0 <= i < t.len() ==> !is_ws(t[i]))
}

pub open spec fn good_tokens(ts: Seq<Seq<u8>>) -> bool {
    forall|i: int| 0 <= i < ts.len() ==> good_token(ts[i])
}

/// The scan only ever finishes good tokens and accumulates whitespace-free
/// bytes.
proof fn lemma_token_scan_good(st: (Seq<Seq<u8>>, Seq<u8>), s: Seq<u8>)
    requires
        good_tokens(st.0),
        forall|i: int| 0 <= i < st.1.len() ==> !is_ws(st.1[i]),
    ensures
        good_tokens(token_scan(st, s).0),
        forall|i: int|
            0 <= i < token_scan(st, s).1.len() ==> !is_ws(token_scan(st, s).1[i]),
    decreases s.len(),
{
    if s.len() > 0 {
        let st2 = token_scan_step(st, s[0]);
        assert(good_tokens(st2.0)) by {
            if is_ws(s[0]) && st.1.len() > 0 {
                assert(forall|i: int|
                    0 <= i < st2.0.len() - 1 ==> st2.0[i] == st.0[i]);
                assert(st2.0.last() == st.1);
            }
        }
        lemma_token_scan_good(st2, s.skip(1));
    }
}

/// Every token of any line is non-empty and whitespace-free.
pub proof fn lemma_tokens_of_good(s: Seq<u8>)
    ensures
        good_tokens(tokens_of(s)),
{
    lemma_token_scan_good((Seq::empty(), Seq::empty()), s);
    let st = token_scan((Seq::empty(), Seq::empty()), s);
    if st.1.len() > 0 {
        assert(forall|i: int| 0 <= i < st.0.len() ==> st.0.push(st.1)[i] == st.0[i]);
        assert(st.0.push(st.1).last() == st.1);
    }
}

/// Scanning whitespace-free bytes only extends the current token.
proof fn lemma_token_scan_nonws(st: (Seq<Seq<u8>>, Seq<u8>), w: Seq<u8>)
    requires
        forall|i: int| 0 <= i < w.len() ==> !is_ws(w[i]),
    ensures
        token_scan(st, w) == (st.0, st.1 + w),
    decreases w.len(),
{
    if w.len() == 0 {
        assert(st.1 + w =~= st.1);
    } else {
        assert(!is_ws(w[0]));
        assert(forall|i: int| 0 <= i < w.skip(1).len() ==> w.skip(1)[i] == w[i + 1]);
        lemma_token_scan_nonws((st.0, st.1.push(w[0])), w.skip(1));
        assert(st.1.push(w[0]) + w.skip(1) =~= st.1 + w);
    }
}

/// Scanning the space-joined form of good tokens recovers them: all but the
/// last are finished, the last is still accumulating.
proof fn lemma_token_scan_join(acc: Seq<Seq<u8>>, ts: Seq<Seq<u8>>)
    requires
        ts.len() >= 1,
        good_tokens(ts),
    ensures
        token_scan((acc, Seq::empty()), crate::aof_handler::join_sp(ts)) == (
            acc + ts.drop_last(),
            ts.last(),
        ),
    decreases ts.len(),
{
    let j = crate::aof_handler::join_sp(ts);
    if ts.len() == 1 {
        assert(good_token(ts[0]));
        lemma_token_scan_nonws((acc, Seq::empty()), ts[0]);
        assert(Seq::<u8>::empty() + ts[0] =~= ts[0]);
        assert(acc + ts.drop_last() =~= acc);
    } else {
        assert(j == ts[0] + seq![32u8] + crate::aof_handler::join_sp(ts.skip(1)));
        assert(j =~= (ts[0] + seq![32u8]) + crate::aof_handler::join_sp(ts.skip(1)));
        lemma_token_scan_concat(
            (acc, Seq::empty()),
            ts[0] + seq![32u8],
            crate::aof_handler::join_sp(ts.skip(1)),
        );
        lemma_token_scan_concat((acc, Seq::empty()), ts[0], seq![32u8]);
        assert(good_token(ts[0]));
        lemma_token_scan_nonws((acc, Seq::empty()), ts[0]);
        assert(Seq::<u8>::empty() + ts[0] =~= ts[0]);
        assert(token_scan((acc, ts[0]), seq![32u8]) == (acc.push(ts[0]), Seq::<u8>::empty())) by {
            reveal_with_fuel(token_scan, 3);
            assert(seq![32u8].skip(1) =~= Seq::<u8>::empty());
            assert(is_ws(seq![32u8][0]));
            assert(ts[0].len() > 0);
        }
        assert(good_tokens(ts.skip(1))) by {
            assert(forall|i: int|
                0 <= i < ts.skip(1).len() ==> ts.skip(1)[i] == ts[i + 1]);
        }
        lemma_token_scan_join(acc.push(ts[0]), ts.skip(1));
        assert(acc.push(ts[0]) + ts.skip(1).drop_last() =~= acc + ts.drop_last());
        assert(ts.skip(1).last() == ts.last());
    }
}

/// Tokenizing the space-joined form of good tokens yields them back.
pub proof fn lemma_tokens_of_join(ts: Seq<Seq<u8>>)
    requires
        ts.len() >= 1,
        good_tokens(ts),
    ensures
        tokens_of(crate::aof_handler::join_sp(ts)) == ts,
{
    lemma_token_scan_join(Seq::empty(), ts);
    assert(good_token(ts.last()));
    assert(Seq::<Seq<u8>>::empty() + ts.drop_last() =~= ts.drop_last());
    assert(ts.drop_last().push(ts.last()) =~= ts);
}

} // verus!
