//! Mathematical model of the parser: the state view, the effect of one log
//! line on it, the fold over a sequence of lines, and the laws the model
//! obeys — in particular that a parse split into two resumed calls reaches
//! the same observable state as one parse of the whole log.

use vstd::prelude::*;

use crate::battle::{
    bump, greedies_sorted, lemma_bump_props, sum_counts, BattleView,
};
use crate::calendar::LogDate;
use crate::classify::{
    chat_match, date_of, date_shape, find_split, sender_of, spec_attacker, spec_battle_ended,
    spec_battle_started, spec_defender, spec_greedy_line, spec_greedy_name, split_spaces, ts_of,
    ts_valid,
};
use crate::message::{disjoint_ids, msg_wf, msgs_wf, MessageView};

verus! {

/// Mathematical image of the whole parser state.
#[verifier::ext_equal]
pub struct LogView {
    pub battles: Seq<BattleView>,
    pub chat_messages: Seq<MessageView>,
    pub tells: Seq<MessageView>,
    pub trade_chat_messages: Seq<MessageView>,
    pub global_chat_messages: Seq<MessageView>,
    pub last_line_read: nat,
    pub total_lines_read: nat,
    pub current_date: Option<LogDate>,
    pub in_battle: bool,
    pub greedy_anomalies: nat,
}

/// The state of a freshly created parser.
pub open spec fn init_view() -> LogView {
    LogView {
        battles: Seq::empty(),
        chat_messages: Seq::empty(),
        tells: Seq::empty(),
        trade_chat_messages: Seq::empty(),
        global_chat_messages: Seq::empty(),
        last_line_read: 0,
        total_lines_read: 0,
        current_date: None,
        in_battle: false,
        greedy_anomalies: 0,
    }
}

/// Both line counters move forward, before anything else happens to a line.
pub open spec fn counted(m: LogView) -> LogView {
    LogView {
        last_line_read: m.last_line_read + 1,
        total_lines_read: m.total_lines_read + 1,
        ..m
    }
}

/// A valid date separator updates the ambient date; anything else leaves it.
pub open spec fn with_date(m: LogView, line: Seq<char>) -> LogView {
    if date_shape(line) && date_of(line).valid() {
        LogView { current_date: Some(date_of(line)), ..m }
    } else {
        m
    }
}

/// The message a matched chat-family line produces.
pub open spec fn make_msg(line: Seq<char>, marker: Seq<char>, id: nat, date: Option<LogDate>)
    -> MessageView {
    MessageView {
        id,
        timestamp: ts_of(line),
        contents: line,
        sender: sender_of(line, marker),
        date,
    }
}

/// The battle a battle-start line creates.
pub open spec fn new_battle(line: Seq<char>, id: nat) -> BattleView {
    BattleView {
        id,
        attacker_ship: spec_attacker(line),
        defender_ship: spec_defender(line),
        greedies: Seq::empty(),
    }
}

/// The effect of one decoded line on the already-counted state `d`, where
/// `pass` battles were created earlier in the same parse pass.  The checks
/// run in fixed priority order; the date check runs first and does not stop
/// the line from being tested further.
pub open spec fn step_text(d0: LogView, pass: nat, line: Seq<char>) -> LogView {
    let d = with_date(d0, line);
    if date_shape(line) && !date_of(line).valid() {
        d
    } else if chat_match(line, "says"@) {
        if ts_valid(line) {
            LogView {
                chat_messages: d.chat_messages.push(
                    make_msg(line, "says"@, d.total_lines_read, d.current_date),
                ),
                ..d
            }
        } else {
            d
        }
    } else if chat_match(line, "shouts"@) {
        if ts_valid(line) {
            LogView {
                chat_messages: d.chat_messages.push(
                    make_msg(line, "shouts"@, d.total_lines_read, d.current_date),
                ),
                ..d
            }
        } else {
            d
        }
    } else if chat_match(line, "trade chats"@) {
        if ts_valid(line) {
            LogView {
                trade_chat_messages: d.trade_chat_messages.push(
                    make_msg(line, "trade chats"@, d.total_lines_read, d.current_date),
                ),
                ..d
            }
        } else {
            d
        }
    } else if chat_match(line, "global chats"@) {
        if ts_valid(line) {
            LogView {
                global_chat_messages: d.global_chat_messages.push(
                    make_msg(line, "global chats"@, d.total_lines_read, d.current_date),
                ),
                ..d
            }
        } else {
            d
        }
    } else if chat_match(line, "tells ye"@) {
        if ts_valid(line) {
            LogView {
                tells: d.tells.push(
                    make_msg(line, "tells ye"@, d.total_lines_read, d.current_date),
                ),
                ..d
            }
        } else {
            d
        }
    } else if spec_battle_started(line) {
        if split_spaces(line).len() >= 7 {
            LogView {
                battles: seq![new_battle(line, pass + 1)] + d.battles,
                in_battle: true,
                ..d
            }
        } else {
            d
        }
    } else {
        let e = if spec_greedy_line(line) && d.in_battle && d.battles.len() > 0 {
            LogView {
                battles: d.battles.update(
                    0,
                    BattleView {
                        greedies: bump(d.battles[0].greedies, spec_greedy_name(line)),
                        ..d.battles[0]
                    },
                ),
                ..d
            }
        } else if spec_greedy_line(line) && !d.in_battle {
            LogView { greedy_anomalies: d.greedy_anomalies + 1, ..d }
        } else {
            d
        };
        if spec_battle_ended(line) {
            LogView { in_battle: false, ..e }
        } else {
            e
        }
    }
}

/// The effect of one raw line: counters always move; a line that failed to
/// decode does nothing else.
pub open spec fn step_line(m: LogView, pass: nat, oline: Option<Seq<char>>) -> LogView {
    match oline {
        None => counted(m),
        Some(line) => step_text(counted(m), pass, line),
    }
}

/// How many battles this pass has created, against the battle count at the
/// start of the pass.
pub open spec fn pass_count(m: LogView, base: nat) -> nat {
    if m.battles.len() >= base {
        (m.battles.len() - base) as nat
    } else {
        0
    }
}

/// Fold the step over a sequence of lines, numbering new battles from
/// `base`, the battle count at the start of the pass.
pub open spec fn run_from(m: LogView, base: nat, lines: Seq<Option<Seq<char>>>) -> LogView
    decreases lines.len(),
{
    if lines.len() == 0 {
        m
    } else {
        run_from(step_line(m, pass_count(m, base), lines[0]), base, lines.skip(1))
    }
}

/// One whole parse call: fold the lines over `m`, with battle numbering
/// starting afresh.
pub open spec fn run(m: LogView, lines: Seq<Option<Seq<char>>>) -> LogView {
    run_from(m, m.battles.len(), lines)
}

} // verus!

verus! {

// ---------------------------------------------------------------------------
// Well-formedness of the parser state, preserved by every step.
// ---------------------------------------------------------------------------

/// Every battle's tally is key-sorted.
pub open spec fn battles_wf(bs: Seq<BattleView>) -> bool {
    forall|i: int| 0 <= i < bs.len() ==> greedies_sorted(#[trigger] bs[i].greedies)
}

/// Total number of greedy hits recorded over all battles.
pub open spec fn total_hits(bs: Seq<BattleView>) -> nat
    decreases bs.len(),
{
    if bs.len() == 0 {
        0
    } else {
        sum_counts(bs[0].greedies) + total_hits(bs.skip(1))
    }
}

/// The invariant of the parser state: the two line counters agree, a battle
/// exists whenever one is active, counts are bounded by the number of lines
/// read, tallies are key-sorted, every message collection is well formed
/// with ids bounded by the line counter, ids never repeat across
/// collections, and any ambient date is a real date.
pub open spec fn log_wf(v: LogView) -> bool {
    &&& v.total_lines_read == v.last_line_read
    &&& (v.in_battle ==> v.battles.len() > 0)
    &&& v.battles.len() <= v.total_lines_read
    &&& v.greedy_anomalies <= v.total_lines_read
    &&& total_hits(v.battles) <= v.total_lines_read
    &&& battles_wf(v.battles)
    &&& msgs_wf(v.chat_messages, v.total_lines_read)
    &&& msgs_wf(v.trade_chat_messages, v.total_lines_read)
    &&& msgs_wf(v.global_chat_messages, v.total_lines_read)
    &&& msgs_wf(v.tells, v.total_lines_read)
    &&& disjoint_ids(v.chat_messages, v.trade_chat_messages)
    &&& disjoint_ids(v.chat_messages, v.global_chat_messages)
    &&& disjoint_ids(v.chat_messages, v.tells)
    &&& disjoint_ids(v.trade_chat_messages, v.global_chat_messages)
    &&& disjoint_ids(v.trade_chat_messages, v.tells)
    &&& disjoint_ids(v.global_chat_messages, v.tells)
    &&& (match v.current_date {
        Some(d) => d.valid(),
        None => true,
    })
}

/// The message built from a matched chat-family line is well formed.
pub proof fn lemma_make_msg_wf(
    line: Seq<char>,
    marker: Seq<char>,
    id: nat,
    date: Option<LogDate>,
)
    requires
        chat_match(line, marker),
        ts_valid(line),
        id >= 1,
    ensures
        msg_wf(make_msg(line, marker, id, date)),
{
    let e = find_split(line, marker)->0;
    crate::classify::lemma_find_split_some(line, marker, 12, e);
    assert(sender_of(line, marker) == line.subrange(11, e));
    assert(line.subrange(11, 11 + (e - 11)) == line.subrange(11, e));
}

/// Appending a fresh message with the next id keeps a collection well
/// formed.
pub proof fn lemma_msgs_push(s: Seq<MessageView>, total: nat, msg: MessageView)
    requires
        msgs_wf(s, total),
        msg_wf(msg),
        msg.id == total + 1,
    ensures
        msgs_wf(s.push(msg), total + 1),
{
    let t = s.push(msg);
    assert forall|i: int, j: int| 0 <= i < j < t.len() implies t[i].id < t[j].id by {
        if j == t.len() - 1 {
            assert(t[i] == s[i]);
        } else {
            assert(t[i] == s[i] && t[j] == s[j]);
        }
    }
    assert forall|i: int| 0 <= i < t.len() implies msg_wf(#[trigger] t[i]) && 1 <= t[i].id
        && t[i].id <= total + 1 by {
        if i < t.len() - 1 {
            assert(t[i] == s[i]);
        }
    }
}

/// A fresh id collides with nothing already collected.
pub proof fn lemma_disjoint_push(
    a: Seq<MessageView>,
    b: Seq<MessageView>,
    total: nat,
    msg: MessageView,
)
    requires
        disjoint_ids(a, b),
        msgs_wf(b, total),
        msg.id == total + 1,
    ensures
        disjoint_ids(a.push(msg), b),
{
    let t = a.push(msg);
    assert forall|i: int, j: int| 0 <= i < t.len() && 0 <= j < b.len() implies #[trigger] t[i].id
        != #[trigger] b[j].id by {
        if i < t.len() - 1 {
            assert(t[i] == a[i]);
        }
    }
}

/// One step of the parser preserves the invariant.
#[verifier::rlimit(100)]
#[verifier::spinoff_prover]
pub proof fn lemma_step_wf(m: LogView, pass: nat, oline: Option<Seq<char>>)
    requires
        log_wf(m),
    ensures
        log_wf(step_line(m, pass, oline)),
{
    let c = counted(m);
    assert(msgs_wf(c.chat_messages, c.total_lines_read));
    assert(msgs_wf(c.trade_chat_messages, c.total_lines_read));
    assert(msgs_wf(c.global_chat_messages, c.total_lines_read));
    assert(msgs_wf(c.tells, c.total_lines_read));
    match oline {
        None => {},
        Some(line) => {
            let d = with_date(c, line);
            assert(log_wf(d));
            let id = d.total_lines_read;
            assert(id >= 1);
            if date_shape(line) && !date_of(line).valid() {
            } else if chat_match(line, "says"@) {
                if ts_valid(line) {
                    let msg = make_msg(line, "says"@, id, d.current_date);
                    lemma_make_msg_wf(line, "says"@, id, d.current_date);
                    lemma_msgs_push(d.chat_messages, m.total_lines_read, msg);
                    lemma_disjoint_push(d.chat_messages, d.trade_chat_messages,
                        m.total_lines_read, msg);
                    lemma_disjoint_push(d.chat_messages, d.global_chat_messages,
                        m.total_lines_read, msg);
                    lemma_disjoint_push(d.chat_messages, d.tells, m.total_lines_read, msg);
                }
            } else if chat_match(line, "shouts"@) {
                if ts_valid(line) {
                    let msg = make_msg(line, "shouts"@, id, d.current_date);
                    lemma_make_msg_wf(line, "shouts"@, id, d.current_date);
                    lemma_msgs_push(d.chat_messages, m.total_lines_read, msg);
                    lemma_disjoint_push(d.chat_messages, d.trade_chat_messages,
                        m.total_lines_read, msg);
                    lemma_disjoint_push(d.chat_messages, d.global_chat_messages,
                        m.total_lines_read, msg);
                    lemma_disjoint_push(d.chat_messages, d.tells, m.total_lines_read, msg);
                }
            } else if chat_match(line, "trade chats"@) {
                if ts_valid(line) {
                    let msg = make_msg(line, "trade chats"@, id, d.current_date);
                    lemma_make_msg_wf(line, "trade chats"@, id, d.current_date);
                    lemma_msgs_push(d.trade_chat_messages, m.total_lines_read, msg);
                    lemma_disjoint_push(d.trade_chat_messages, d.chat_messages,
                        m.total_lines_read, msg);
                    lemma_disjoint_push(d.trade_chat_messages, d.global_chat_messages,
                        m.total_lines_read, msg);
                    lemma_disjoint_push(d.trade_chat_messages, d.tells, m.total_lines_read, msg);
                    assert(disjoint_ids(d.chat_messages, d.trade_chat_messages.push(msg)))
                        by {
                        assert forall|i: int, j: int|
                            0 <= i < d.chat_messages.len() && 0 <= j
                                < d.trade_chat_messages.push(msg).len() implies #[trigger] d
                            .chat_messages[i].id != #[trigger] d.trade_chat_messages.push(
                            msg,
                        )[j].id by {
                            if j < d.trade_chat_messages.len() {
                                assert(d.trade_chat_messages.push(msg)[j]
                                    == d.trade_chat_messages[j]);
                            }
                        }
                    }
                }
            } else if chat_match(line, "global chats"@) {
                if ts_valid(line) {
                    let msg = make_msg(line, "global chats"@, id, d.current_date);
                    lemma_make_msg_wf(line, "global chats"@, id, d.current_date);
                    lemma_msgs_push(d.global_chat_messages, m.total_lines_read, msg);
                    lemma_disjoint_push(d.global_chat_messages, d.chat_messages,
                        m.total_lines_read, msg);
                    lemma_disjoint_push(d.global_chat_messages, d.trade_chat_messages,
                        m.total_lines_read, msg);
                    lemma_disjoint_push(d.global_chat_messages, d.tells, m.total_lines_read, msg);
                    assert(disjoint_ids(d.chat_messages, d.global_chat_messages.push(msg)))
                        by {
                        assert forall|i: int, j: int|
                            0 <= i < d.chat_messages.len() && 0 <= j
                                < d.global_chat_messages.push(msg).len() implies #[trigger] d
                            .chat_messages[i].id != #[trigger] d.global_chat_messages.push(
                            msg,
                        )[j].id by {
                            if j < d.global_chat_messages.len() {
                                assert(d.global_chat_messages.push(msg)[j]
                                    == d.global_chat_messages[j]);
                            }
                        }
                    }
                    assert(disjoint_ids(d.trade_chat_messages, d.global_chat_messages.push(msg)))
                        by {
                        assert forall|i: int, j: int|
                            0 <= i < d.trade_chat_messages.len() && 0 <= j
                                < d.global_chat_messages.push(msg).len() implies #[trigger] d
                            .trade_chat_messages[i].id != #[trigger] d.global_chat_messages.push(
                            msg,
                        )[j].id by {
                            if j < d.global_chat_messages.len() {
                                assert(d.global_chat_messages.push(msg)[j]
                                    == d.global_chat_messages[j]);
                            }
                        }
                    }
                }
            } else if chat_match(line, "tells ye"@) {
                if ts_valid(line) {
                    let msg = make_msg(line, "tells ye"@, id, d.current_date);
                    lemma_make_msg_wf(line, "tells ye"@, id, d.current_date);
                    lemma_msgs_push(d.tells, m.total_lines_read, msg);
                    lemma_disjoint_push(d.tells, d.chat_messages, m.total_lines_read, msg);
                    lemma_disjoint_push(d.tells, d.trade_chat_messages, m.total_lines_read, msg);
                    lemma_disjoint_push(d.tells, d.global_chat_messages, m.total_lines_read, msg);
                    assert(disjoint_ids(d.chat_messages, d.tells.push(msg))) by {
                        assert forall|i: int, j: int|
                            0 <= i < d.chat_messages.len() && 0 <= j < d.tells.push(msg).len()
                            implies #[trigger] d.chat_messages[i].id != #[trigger] d.tells.push(
                            msg,
                        )[j].id by {
                            if j < d.tells.len() {
                                assert(d.tells.push(msg)[j] == d.tells[j]);
                            }
                        }
                    }
                    assert(disjoint_ids(d.trade_chat_messages, d.tells.push(msg))) by {
                        assert forall|i: int, j: int|
                            0 <= i < d.trade_chat_messages.len() && 0 <= j < d.tells.push(
                                msg,
                            ).len() implies #[trigger] d.trade_chat_messages[i].id
                            != #[trigger] d.tells.push(msg)[j].id by {
                            if j < d.tells.len() {
                                assert(d.tells.push(msg)[j] == d.tells[j]);
                            }
                        }
                    }
                    assert(disjoint_ids(d.global_chat_messages, d.tells.push(msg))) by {
                        assert forall|i: int, j: int|
                            0 <= i < d.global_chat_messages.len() && 0 <= j < d.tells.push(
                                msg,
                            ).len() implies #[trigger] d.global_chat_messages[i].id
                            != #[trigger] d.tells.push(msg)[j].id by {
                            if j < d.tells.len() {
                                assert(d.tells.push(msg)[j] == d.tells[j]);
                            }
                        }
                    }
                }
            } else if spec_battle_started(line) {
                if split_spaces(line).len() >= 7 {
                    let b = new_battle(line, pass + 1);
                    let bs = seq![b] + d.battles;
                    assert(bs[0] == b);
                    assert(bs.skip(1) =~= d.battles);
                    assert(sum_counts(b.greedies) == 0);
                    assert(total_hits(bs) == total_hits(d.battles));
                    assert(battles_wf(bs)) by {
                        assert forall|i: int| 0 <= i < bs.len() implies greedies_sorted(
                            #[trigger] bs[i].greedies,
                        ) by {
                            if i > 0 {
                                assert(bs[i] == d.battles[i - 1]);
                            }
                        }
                    }
                }
            } else {
                if spec_greedy_line(line) && d.in_battle && d.battles.len() > 0 {
                    let name = spec_greedy_name(line);
                    let b0 = d.battles[0];
                    lemma_bump_props(b0.greedies, name);
                    let nb = BattleView { greedies: bump(b0.greedies, name), ..b0 };
                    let bs = d.battles.update(0, nb);
                    assert(bs[0] == nb);
                    assert(bs.skip(1) =~= d.battles.skip(1));
                    assert(total_hits(bs) == sum_counts(nb.greedies) + total_hits(bs.skip(1)));
                    assert(total_hits(d.battles) == sum_counts(b0.greedies) + total_hits(
                        d.battles.skip(1),
                    ));
                    assert(battles_wf(bs)) by {
                        assert forall|i: int| 0 <= i < bs.len() implies greedies_sorted(
                            #[trigger] bs[i].greedies,
                        ) by {
                            if i > 0 {
                                assert(bs[i] == d.battles[i]);
                            }
                        }
                    }
                }
            }
        },
    }
}

} // verus!

verus! {

// ---------------------------------------------------------------------------
// Laws of the fold.
// ---------------------------------------------------------------------------

/// Folding one more line is one more step.
pub proof fn lemma_run_from_snoc(
    m: LogView,
    base: nat,
    lines: Seq<Option<Seq<char>>>,
    x: Option<Seq<char>>,
)
    ensures
        run_from(m, base, lines.push(x)) == step_line(
            run_from(m, base, lines),
            pass_count(run_from(m, base, lines), base),
            x,
        ),
    decreases lines.len(),
{
    if lines.len() == 0 {
        assert(lines.push(x)[0] == x);
        assert(lines.push(x).skip(1) =~= Seq::<Option<Seq<char>>>::empty());
        assert(run_from(m, base, lines) == m);
        let s = step_line(m, pass_count(m, base), x);
        assert(run_from(m, base, lines.push(x)) == run_from(s, base, lines.push(x).skip(1)));
        assert(run_from(s, base, Seq::<Option<Seq<char>>>::empty()) == s);
    } else {
        assert(lines.push(x)[0] == lines[0]);
        assert(lines.push(x).skip(1) =~= lines.skip(1).push(x));
        let s = step_line(m, pass_count(m, base), lines[0]);
        assert(run_from(m, base, lines.push(x)) == run_from(s, base, lines.skip(1).push(x)));
        assert(run_from(m, base, lines) == run_from(s, base, lines.skip(1)));
        lemma_run_from_snoc(s, base, lines.skip(1), x);
    }
}

/// Splitting a fold in two folds the pieces in turn, with the same battle
/// numbering base.
pub proof fn lemma_run_from_append(
    m: LogView,
    base: nat,
    l1: Seq<Option<Seq<char>>>,
    l2: Seq<Option<Seq<char>>>,
)
    ensures
        run_from(m, base, l1 + l2) == run_from(run_from(m, base, l1), base, l2),
    decreases l1.len(),
{
    if l1.len() == 0 {
        assert(l1 + l2 =~= l2);
    } else {
        assert((l1 + l2)[0] == l1[0]);
        assert((l1 + l2).skip(1) =~= l1.skip(1) + l2);
        lemma_run_from_append(step_line(m, pass_count(m, base), l1[0]), base, l1.skip(1), l2);
    }
}

// ---------------------------------------------------------------------------
// Observable equality of states: everything but the per-pass battle
// numbers.
// ---------------------------------------------------------------------------

/// What a battle shows apart from its per-pass number.
pub open spec fn battle_obs(b: BattleView) -> (Seq<char>, Seq<char>, Seq<(Seq<char>, nat)>) {
    (b.attacker_ship, b.defender_ship, b.greedies)
}

pub open spec fn battles_obs(bs: Seq<BattleView>) -> Seq<
    (Seq<char>, Seq<char>, Seq<(Seq<char>, nat)>),
> {
    bs.map_values(|b: BattleView| battle_obs(b))
}

/// Two states agree on everything observable: all message collections, the
/// battles' ships and tallies and their order, both counters, the ambient
/// date, the battle flag and the anomaly count.
pub open spec fn state_equiv(a: LogView, b: LogView) -> bool {
    &&& battles_obs(a.battles) == battles_obs(b.battles)
    &&& a.chat_messages == b.chat_messages
    &&& a.tells == b.tells
    &&& a.trade_chat_messages == b.trade_chat_messages
    &&& a.global_chat_messages == b.global_chat_messages
    &&& a.last_line_read == b.last_line_read
    &&& a.total_lines_read == b.total_lines_read
    &&& a.current_date == b.current_date
    &&& a.in_battle == b.in_battle
    &&& a.greedy_anomalies == b.greedy_anomalies
}

/// One step keeps observably equal states observably equal, whatever each
/// pass's battle numbering is.
#[verifier::rlimit(100)]
#[verifier::spinoff_prover]
pub proof fn lemma_step_equiv(
    m1: LogView,
    m2: LogView,
    p1: nat,
    p2: nat,
    oline: Option<Seq<char>>,
)
    requires
        state_equiv(m1, m2),
    ensures
        state_equiv(step_line(m1, p1, oline), step_line(m2, p2, oline)),
{
    let c1 = counted(m1);
    let c2 = counted(m2);
    assert(state_equiv(c1, c2));
    match oline {
        None => {},
        Some(line) => {
            let d1 = with_date(c1, line);
            let d2 = with_date(c2, line);
            assert(state_equiv(d1, d2));
            assert(d1.battles.len() == d2.battles.len()) by {
                assert(battles_obs(d1.battles).len() == battles_obs(d2.battles).len());
            }
            if spec_battle_started(line) && !(date_shape(line) && !date_of(line).valid())
                && !chat_match(line, "says"@) && !chat_match(line, "shouts"@) && !chat_match(
                line,
                "trade chats"@,
            ) && !chat_match(line, "global chats"@) && !chat_match(line, "tells ye"@) {
                if split_spaces(line).len() >= 7 {
                    let b1 = new_battle(line, p1 + 1);
                    let b2 = new_battle(line, p2 + 1);
                    assert(battle_obs(b1) == battle_obs(b2));
                    assert(battles_obs(seq![b1] + d1.battles) =~= seq![battle_obs(b1)]
                        + battles_obs(d1.battles));
                    assert(battles_obs(seq![b2] + d2.battles) =~= seq![battle_obs(b2)]
                        + battles_obs(d2.battles));
                }
            } else if !(date_shape(line) && !date_of(line).valid()) && !chat_match(line, "says"@)
                && !chat_match(line, "shouts"@) && !chat_match(line, "trade chats"@)
                && !chat_match(line, "global chats"@) && !chat_match(line, "tells ye"@)
                && !spec_battle_started(line) {
                if spec_greedy_line(line) && d1.in_battle && d1.battles.len() > 0 {
                    assert(battle_obs(d1.battles[0]) == battles_obs(d1.battles)[0]);
                    assert(battle_obs(d2.battles[0]) == battles_obs(d2.battles)[0]);
                    assert(d1.battles[0].greedies == d2.battles[0].greedies);
                    let n1 = BattleView {
                        greedies: bump(d1.battles[0].greedies, spec_greedy_name(line)),
                        ..d1.battles[0]
                    };
                    let n2 = BattleView {
                        greedies: bump(d2.battles[0].greedies, spec_greedy_name(line)),
                        ..d2.battles[0]
                    };
                    assert(battle_obs(n1) == battle_obs(n2));
                    assert(battles_obs(d1.battles.update(0, n1)) =~= battles_obs(
                        d1.battles,
                    ).update(0, battle_obs(n1)));
                    assert(battles_obs(d2.battles.update(0, n2)) =~= battles_obs(
                        d2.battles,
                    ).update(0, battle_obs(n2)));
                }
            }
        },
    }
}

/// A fold keeps observably equal states observably equal.
pub proof fn lemma_run_from_equiv(
    m1: LogView,
    m2: LogView,
    b1: nat,
    b2: nat,
    lines: Seq<Option<Seq<char>>>,
)
    requires
        state_equiv(m1, m2),
    ensures
        state_equiv(run_from(m1, b1, lines), run_from(m2, b2, lines)),
    decreases lines.len(),
{
    if lines.len() == 0 {
    } else {
        lemma_step_equiv(m1, m2, pass_count(m1, b1), pass_count(m2, b2), lines[0]);
        lemma_run_from_equiv(
            step_line(m1, pass_count(m1, b1), lines[0]),
            step_line(m2, pass_count(m2, b2), lines[0]),
            b1,
            b2,
            lines.skip(1),
        );
    }
}

/// Parsing a log of `n` lines once reaches the same observable state as
/// parsing its first `k` lines and then resuming over the remainder: the
/// message collections, the battles' ships and tallies, both counters, the
/// ambient date, the battle flag and the anomaly count all agree.  Only the
/// per-pass battle numbers may differ, as they restart with each call.
pub proof fn lemma_split_parse_equivalent(lines: Seq<Option<Seq<char>>>, k: int)
    requires
        0 <= k <= lines.len(),
    ensures
        ({
            let once = run(init_view(), lines);
            let first = run(init_view(), lines.take(k));
            let resumed = run(first, lines.skip(k));
            state_equiv(once, resumed)
        }),
{
    let m0 = init_view();
    assert(lines =~= lines.take(k) + lines.skip(k));
    lemma_run_from_append(m0, 0, lines.take(k), lines.skip(k));
    let first = run_from(m0, 0, lines.take(k));
    assert(state_equiv(first, first));
    lemma_run_from_equiv(first, first, 0, first.battles.len(), lines.skip(k));
}

} // verus!
