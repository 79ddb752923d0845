//! The append-only change log: building one log record per accepted mutating
//! command, and replaying a log against a store at startup.
//!
//! A record is the command's tokens joined by single spaces, terminated by a
//! line feed — exactly the surface form the parser accepts back.
use vstd::prelude::*;

use crate::bytes_helper::push_bytes;
use crate::cmd_helper::{verb_del, verb_set, views_of};
use crate::cmd_handler::{apply_line, apply_tokens, is_valid_del, is_valid_set, proc_cmd};
use crate::cmd_helper::{
    good_token, good_tokens, is_ws, lemma_tokens_of_good, lemma_tokens_of_join, tokens_of,
};
use crate::store::Store;
use crate::types::{DangerCmd, Mode};

verus! {

/// The tokens joined by single spaces.
pub open spec fn join_sp(ts: Seq<Seq<u8>>) -> Seq<u8>
    decreases ts.len(),
{
    if ts.len() == 0 {
        Seq::empty()
    } else if ts.len() == 1 {
        ts[0]
    } else {
        ts[0] + seq![32u8] + join_sp(ts.skip(1))
    }
}

/// One append-log record: the joined tokens plus a terminating line feed.
pub open spec fn record_of(ts: Seq<Seq<u8>>) -> Seq<u8> {
    join_sp(ts) + seq![10u8]
}

/// The verb a mutating-command classification stands for.
pub open spec fn danger_verb(c: DangerCmd) -> Seq<u8> {
    match c {
        DangerCmd::SetCmd => verb_set(),
        DangerCmd::DelCmd => verb_del(),
    }
}

/// Joining one more token appends a separator and the token.
pub proof fn lemma_join_sp_push(ts: Seq<Seq<u8>>, t: Seq<u8>)
    requires
        ts.len() >= 1,
    ensures
        join_sp(ts.push(t)) == join_sp(ts) + seq![32u8] + t,
    decreases ts.len(),
{
    if ts.len() == 1 {
        reveal_with_fuel(join_sp, 3);
        assert(ts.push(t)[0] == ts[0]);
        assert(ts.push(t).skip(1) =~= seq![t]);
    } else {
        assert(ts.push(t)[0] == ts[0]);
        assert(ts.push(t).skip(1) =~= ts.skip(1).push(t));
        lemma_join_sp_push(ts.skip(1), t);
        assert(ts[0] + seq![32u8] + (join_sp(ts.skip(1)) + seq![32u8] + t) =~= (ts[0] + seq![32u8]
            + join_sp(ts.skip(1))) + seq![32u8] + t);
    }
}

/// Builds the append-log record for a mutating command: the verb named by
/// `cmd_type` followed by the command's remaining tokens.
pub fn append_cmd(args: &[Vec<u8>], cmd_type: DangerCmd) -> (r: Vec<u8>)
    ensures
        r@ == record_of(seq![danger_verb(cmd_type)] + views_of(args@)),
{
    let mut out: Vec<u8> = Vec::new();
    match cmd_type {
        DangerCmd::SetCmd => {
            let v: [u8; 3] = [83, 69, 84];
            push_bytes(&mut out, v.as_slice());
            proof {
                assert(v@ =~= verb_set());
            }
        },
        DangerCmd::DelCmd => {
            let v: [u8; 3] = [68, 69, 76];
            push_bytes(&mut out, v.as_slice());
            proof {
                assert(v@ =~= verb_del());
            }
        },
    }
    let ghost base = seq![danger_verb(cmd_type)];
    proof {
        assert(base + views_of(args@).take(0) =~= base);
        assert(out@ == join_sp(base + views_of(args@).take(0)));
    }
    let mut i: usize = 0;
    while i < args.len()
        invariant
            i <= args.len(),
            base == seq![danger_verb(cmd_type)],
            out@ == join_sp(base + views_of(args@).take(i as int)),
        decreases args.len() - i,
    {
        proof {
            assert(views_of(args@).len() == args@.len());
            assert((base + views_of(args@).take(i as int)).len() == 1 + i);
            lemma_join_sp_push(base + views_of(args@).take(i as int), views_of(args@)[i as int]);
            assert((base + views_of(args@).take(i as int)).push(views_of(args@)[i as int]) =~= base
                + views_of(args@).take(i + 1));
        }
        out.push(32);
        push_bytes(&mut out, args[i].as_slice());
        proof {
            assert(out@ =~= join_sp(base + views_of(args@).take(i as int)) + seq![32u8] + views_of(
                args@,
            )[i as int]);
        }
        i += 1;
    }
    out.push(10);
    proof {
        assert(base + views_of(args@).take(args@.len() as int) =~= base + views_of(args@));
        assert(out@ =~= record_of(base + views_of(args@)));
    }
    out
}

/// Strips one trailing carriage return, so that `\r\n` line endings replay
/// like plain `\n` endings.
pub open spec fn strip_cr(l: Seq<u8>) -> Seq<u8> {
    if l.len() > 0 && l.last() == 13 {
        l.drop_last()
    } else {
        l
    }
}

/// One step of the line scan: a line feed finishes the current line.
pub open spec fn line_scan_step(st: (Seq<Seq<u8>>, Seq<u8>), b: u8) -> (Seq<Seq<u8>>, Seq<u8>) {
    if b == 10 {
        (st.0.push(strip_cr(st.1)), Seq::empty())
    } else {
        (st.0, st.1.push(b))
    }
}

/// Folds the line scan over `s`, left to right.
pub open spec fn line_scan(st: (Seq<Seq<u8>>, Seq<u8>), s: Seq<u8>) -> (Seq<Seq<u8>>, Seq<u8>)
    decreases s.len(),
{
    if s.len() == 0 {
        st
    } else {
        line_scan(line_scan_step(st, s[0]), s.skip(1))
    }
}

/// The lines of a log file: split at line feeds, one optional trailing
/// carriage return stripped, a final unterminated line kept.
pub open spec fn lines_of(s: Seq<u8>) -> Seq<Seq<u8>> {
    let st = line_scan((Seq::empty(), Seq::empty()), s);
    if st.1.len() == 0 {
        st.0
    } else {
        st.0.push(st.1)
    }
}

/// The line scan of `s.push(b)` is one more step after the scan of `s`.
pub proof fn lemma_line_scan_push(st: (Seq<Seq<u8>>, Seq<u8>), s: Seq<u8>, b: u8)
    ensures
        line_scan(st, s.push(b)) == line_scan_step(line_scan(st, s), b),
    decreases s.len(),
{
    if s.len() == 0 {
        reveal_with_fuel(line_scan, 3);
        assert(s.push(b)[0] == b);
        assert(s.push(b).skip(1) =~= Seq::<u8>::empty());
    } else {
        assert(s.push(b)[0] == s[0]);
        assert(s.push(b).skip(1) =~= s.skip(1).push(b));
        lemma_line_scan_push(line_scan_step(st, s[0]), s.skip(1), b);
    }
}

/// The mapping after replaying every line of `ls`, in order, against `m`.
pub open spec fn replay_lines(m: Map<Seq<u8>, Seq<u8>>, ls: Seq<Seq<u8>>) -> Map<Seq<u8>, Seq<u8>>
    decreases ls.len(),
{
    if ls.len() == 0 {
        m
    } else {
        replay_lines(apply_line(m, ls[0]), ls.skip(1))
    }
}

/// Replaying one more line applies it to the replayed mapping.
pub proof fn lemma_replay_lines_push(m: Map<Seq<u8>, Seq<u8>>, ls: Seq<Seq<u8>>, l: Seq<u8>)
    ensures
        replay_lines(m, ls.push(l)) == apply_line(replay_lines(m, ls), l),
    decreases ls.len(),
{
    if ls.len() == 0 {
        reveal_with_fuel(replay_lines, 3);
        assert(ls.push(l)[0] == l);
        assert(ls.push(l).skip(1) =~= Seq::<Seq<u8>>::empty());
    } else {
        assert(ls.push(l)[0] == ls[0]);
        assert(ls.push(l).skip(1) =~= ls.skip(1).push(l));
        lemma_replay_lines_push(apply_line(m, ls[0]), ls.skip(1), l);
    }
}

/// Replays a whole append-log image against the store: every line is run
/// through the dispatcher in replay mode (logging suppressed); a line that
/// fails validation is skipped and replay continues.
pub fn startup_load(storage: &mut Store, log: &[u8])
    requires
        old(storage).wf(),
    ensures
        final(storage).wf(),
        final(storage)@ == replay_lines(old(storage)@, lines_of(log@)),
{
    let ghost st0 = (Seq::<Seq<u8>>::empty(), Seq::<u8>::empty());
    let mut cur: Vec<u8> = Vec::new();
    let mut i: usize = 0;
    proof {
        assert(log@.take(0) =~= Seq::<u8>::empty());
    }
    while i < log.len()
        invariant
            i <= log.len(),
            storage.wf(),
            st0 == (Seq::<Seq<u8>>::empty(), Seq::<u8>::empty()),
            cur@ == line_scan(st0, log@.take(i as int)).1,
            storage@ == replay_lines(old(storage)@, line_scan(st0, log@.take(i as int)).0),
        decreases log.len() - i,
    {
        proof {
            assert(log@.take(i + 1) =~= log@.take(i as int).push(log@[i as int]));
            lemma_line_scan_push(st0, log@.take(i as int), log@[i as int]);
        }
        let b = log[i];
        if b == 10 {
            let ghost raw_line = cur@;
            if cur.len() > 0 && cur[cur.len() - 1] == 13 {
                cur.pop();
            }
            proof {
                assert(cur@ =~= strip_cr(raw_line));
            }
            let ghost done = line_scan(st0, log@.take(i as int)).0;
            let _ = proc_cmd(cur.as_slice(), storage, Mode::Replay);
            proof {
                lemma_replay_lines_push(old(storage)@, done, strip_cr(raw_line));
            }
            cur.clear();
        } else {
            cur.push(b);
        }
        i += 1;
    }
    proof {
        assert(log@.take(log@.len() as int) =~= log@);
    }
    if cur.len() > 0 {
        let ghost done = line_scan(st0, log@).0;
        let _ = proc_cmd(cur.as_slice(), storage, Mode::Replay);
        proof {
            lemma_replay_lines_push(old(storage)@, done, line_scan(st0, log@).1);
        }
    }
}


/// Whether replaying `l` writes or removes key `k`.
pub open spec fn line_touches(l: Seq<u8>, k: Seq<u8>) -> bool {
    let t = tokens_of(l);
    (is_valid_set(t) || is_valid_del(t)) && t[1] == k
}

/// Whether any line of `ls` writes or removes key `k`.
pub open spec fn lines_touch(ls: Seq<Seq<u8>>, k: Seq<u8>) -> bool {
    exists|i: int| 0 <= i < ls.len() && line_touches(ls[i], k)
}

/// Two mappings agree at one key: same presence, same value when present.
pub open spec fn maps_agree_at(
    m1: Map<Seq<u8>, Seq<u8>>,
    m2: Map<Seq<u8>, Seq<u8>>,
    k: Seq<u8>,
) -> bool {
    &&& m1.contains_key(k) == m2.contains_key(k)
    &&& (m1.contains_key(k) ==> m1[k] == m2[k])
}

/// Applying one line preserves agreement at `k`; a line that touches `k`
/// forces agreement there whatever held before.
proof fn lemma_apply_line_agree(
    m1: Map<Seq<u8>, Seq<u8>>,
    m2: Map<Seq<u8>, Seq<u8>>,
    l: Seq<u8>,
    k: Seq<u8>,
)
    requires
        line_touches(l, k) || maps_agree_at(m1, m2, k),
    ensures
        maps_agree_at(apply_line(m1, l), apply_line(m2, l), k),
{
}

/// A line that does not touch `k` leaves `k`'s state alone.
proof fn lemma_apply_line_untouched(m: Map<Seq<u8>, Seq<u8>>, l: Seq<u8>, k: Seq<u8>)
    requires
        !line_touches(l, k),
    ensures
        maps_agree_at(m, apply_line(m, l), k),
{
}

/// Replay ends in agreement at `k` if the two starting mappings agree there,
/// or if some replayed line touches `k` (which overrides the start).
proof fn lemma_replay_agree(
    m1: Map<Seq<u8>, Seq<u8>>,
    m2: Map<Seq<u8>, Seq<u8>>,
    ls: Seq<Seq<u8>>,
    k: Seq<u8>,
)
    requires
        lines_touch(ls, k) || maps_agree_at(m1, m2, k),
    ensures
        maps_agree_at(replay_lines(m1, ls), replay_lines(m2, ls), k),
    decreases ls.len(),
{
    if ls.len() == 0 {
    } else {
        let l = ls[0];
        if line_touches(l, k) || maps_agree_at(m1, m2, k) {
            lemma_apply_line_agree(m1, m2, l, k);
            lemma_replay_agree(apply_line(m1, l), apply_line(m2, l), ls.skip(1), k);
        } else {
            let i = choose|i: int| 0 <= i < ls.len() && line_touches(ls[i], k);
            assert(i >= 1);
            assert(ls.skip(1)[i - 1] == ls[i]);
            assert(lines_touch(ls.skip(1), k));
            lemma_replay_agree(apply_line(m1, l), apply_line(m2, l), ls.skip(1), k);
        }
    }
}

/// Replay leaves untouched keys exactly as they were.
proof fn lemma_replay_untouched(m: Map<Seq<u8>, Seq<u8>>, ls: Seq<Seq<u8>>, k: Seq<u8>)
    requires
        !lines_touch(ls, k),
    ensures
        maps_agree_at(m, replay_lines(m, ls), k),
    decreases ls.len(),
{
    if ls.len() > 0 {
        assert(!line_touches(ls[0], k));
        lemma_apply_line_untouched(m, ls[0], k);
        assert(forall|j: int| 0 <= j < ls.skip(1).len() ==> ls.skip(1)[j] == ls[j + 1]);
        assert(!lines_touch(ls.skip(1), k));
        lemma_replay_untouched(apply_line(m, ls[0]), ls.skip(1), k);
    }
}

/// Replaying the same append log twice against a fresh empty store yields
/// the same final mapping as replaying it once: `SET` is last-writer-wins
/// and `DEL` of an absent key is a no-op, so a second pass only repeats the
/// decisive write or removal of each key.
pub proof fn lemma_replay_idempotent(ls: Seq<Seq<u8>>)
    ensures
        replay_lines(replay_lines(Map::<Seq<u8>, Seq<u8>>::empty(), ls), ls) == replay_lines(
            Map::<Seq<u8>, Seq<u8>>::empty(),
            ls,
        ),
{
    let m0 = Map::<Seq<u8>, Seq<u8>>::empty();
    let m1 = replay_lines(m0, ls);
    let m2 = replay_lines(m1, ls);
    assert forall|k: Seq<u8>|
        #[trigger] m2.contains_key(k) == m1.contains_key(k) && (m1.contains_key(k) ==> m2[k]
            == m1[k]) by {
        if lines_touch(ls, k) {
            lemma_replay_agree(m1, m0, ls, k);
        } else {
            lemma_replay_untouched(m1, ls, k);
        }
    }
    assert(m2 =~= m1);
}


/// The joined form of good tokens holds only spaces and non-whitespace
/// bytes — in particular no line feed and no carriage return.
proof fn lemma_join_sp_bytes(ts: Seq<Seq<u8>>)
    requires
        good_tokens(ts),
    ensures
        forall|i: int|
            0 <= i < join_sp(ts).len() ==> (join_sp(ts)[i] == 32 || !is_ws(join_sp(ts)[i])),
    decreases ts.len(),
{
    if ts.len() == 0 {
    } else if ts.len() == 1 {
        assert(good_token(ts[0]));
    } else {
        assert(good_token(ts[0]));
        assert(good_tokens(ts.skip(1))) by {
            assert(forall|i: int| 0 <= i < ts.skip(1).len() ==> ts.skip(1)[i] == ts[i + 1]);
        }
        lemma_join_sp_bytes(ts.skip(1));
        let j = join_sp(ts);
        let n0 = ts[0].len() as int;
        assert forall|i: int| 0 <= i < j.len() implies (#[trigger] j[i] == 32 || !is_ws(j[i])) by {
            if i < n0 {
                assert(j[i] == ts[0][i]);
            } else if i == n0 {
                assert(j[i] == 32);
            } else {
                assert(j[i] == join_sp(ts.skip(1))[i - n0 - 1]);
            }
        }
    }
}

/// Scanning bytes without a line feed only extends the current line.
proof fn lemma_line_scan_no_nl(st: (Seq<Seq<u8>>, Seq<u8>), s: Seq<u8>)
    requires
        forall|i: int| 0 <= i < s.len() ==> s[i] != 10,
    ensures
        line_scan(st, s) == (st.0, st.1 + s),
    decreases s.len(),
{
    if s.len() == 0 {
        assert(st.1 + s =~= st.1);
    } else {
        assert(s[0] != 10);
        assert(forall|i: int| 0 <= i < s.skip(1).len() ==> s.skip(1)[i] == s[i + 1]);
        lemma_line_scan_no_nl((st.0, st.1.push(s[0])), s.skip(1));
        assert(st.1.push(s[0]) + s.skip(1) =~= st.1 + s);
    }
}

/// An append-log record is exactly one log line, and that line is the
/// joined command.
pub proof fn lemma_record_lines(ts: Seq<Seq<u8>>)
    requires
        ts.len() >= 1,
        good_tokens(ts),
    ensures
        lines_of(record_of(ts)) == seq![join_sp(ts)],
{
    let j = join_sp(ts);
    lemma_join_sp_bytes(ts);
    assert(forall|i: int| 0 <= i < j.len() ==> j[i] != 10);
    lemma_line_scan_no_nl((Seq::empty(), Seq::empty()), j);
    assert(Seq::<u8>::empty() + j =~= j);
    assert(record_of(ts) =~= j.push(10u8));
    lemma_line_scan_push((Seq::empty(), Seq::empty()), j, 10);
    assert(good_token(ts.last()));
    assert(j.last() != 13) by {
        if ts.len() == 1 {
            assert(j == ts[0]);
            assert(!is_ws(ts[0].last()));
        } else {
            assert(j.last() == 32 || !is_ws(j.last()));
        }
    }
    assert(strip_cr(j) == j);
    assert(lines_of(record_of(ts)) =~= seq![j]);
}

/// Replaying an append-log record against any mapping reproduces exactly
/// the mutation the recorded command applied: every record re-parses to the
/// tokens it was built from.
pub proof fn lemma_record_replay(m: Map<Seq<u8>, Seq<u8>>, ts: Seq<Seq<u8>>)
    requires
        ts.len() >= 1,
        good_tokens(ts),
    ensures
        replay_lines(m, lines_of(record_of(ts))) == apply_tokens(m, ts),
{
    lemma_record_lines(ts);
    lemma_tokens_of_join(ts);
    let j = join_sp(ts);
    assert(replay_lines(m, seq![j]) == apply_line(m, j)) by {
        reveal_with_fuel(replay_lines, 3);
        assert(seq![j].skip(1) =~= Seq::<Seq<u8>>::empty());
    }
}


/// The log invariant end to end: the record logged for a command line, when
/// split back into lines and replayed, applies exactly the mutation the
/// command itself applied.
pub proof fn lemma_logged_record_replay(m: Map<Seq<u8>, Seq<u8>>, line: Seq<u8>)
    requires
        tokens_of(line).len() >= 1,
    ensures
        replay_lines(m, lines_of(record_of(tokens_of(line)))) == apply_tokens(m, tokens_of(line)),
{
    lemma_tokens_of_good(line);
    lemma_record_replay(m, tokens_of(line));
}

} // verus!
