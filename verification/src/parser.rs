//! The parser aggregate: all parsed state, the resumable parse operation,
//! and its construction.

use vstd::prelude::*;

use crate::battle::{battle_views, sum_counts, Battle, BattleView};
use crate::calendar::LogDate;
use crate::classify::{
    chat_capture, date_capture, is_a_greedy_line, is_battle_ended_line, is_battle_started_line,
    lemma_greedy_line_tokens, read_timestamp, split_on_spaces, str_views, DateCheck,
};
use crate::message::{msg_views, Message};
use crate::model::{
    init_view, lemma_run_from_snoc, lemma_step_wf, log_wf, pass_count, run, run_from, step_line,
    total_hits, LogView,
};

verus! {

/// The state of a log parsed so far: one battle sequence (newest first),
/// one collection per message category, the resume cursor, the global line
/// counter, and the ambient carry-forward state.
pub struct ParsedChatLog {
    /// Battles seen so far, most recent first.
    pub battles: Vec<Battle>,
    pub chat_messages: Vec<Message>,
    pub tells: Vec<Message>,
    pub trade_chat_messages: Vec<Message>,
    pub global_chat_messages: Vec<Message>,
    /// Lines already consumed by earlier parse calls: the resume cursor.
    pub last_line_read: usize,
    /// Lines counted over the lifetime of the log: the source of message ids.
    pub total_lines_read: usize,
    /// Date carried forward from the most recent date separator.
    pub current_date: Option<LogDate>,
    /// Whether the most recent battle-start has seen no battle-end yet.
    pub in_battle: bool,
    /// Greedy-hit lines seen while no battle was active: a diagnostic
    /// signal of parser desynchronisation, never a state change.
    pub greedy_anomalies: usize,
}

impl View for ParsedChatLog {
    type V = LogView;

    open spec fn view(&self) -> LogView {
        LogView {
            battles: battle_views(self.battles@),
            chat_messages: msg_views(self.chat_messages@),
            tells: msg_views(self.tells@),
            trade_chat_messages: msg_views(self.trade_chat_messages@),
            global_chat_messages: msg_views(self.global_chat_messages@),
            last_line_read: self.last_line_read as nat,
            total_lines_read: self.total_lines_read as nat,
            current_date: self.current_date,
            in_battle: self.in_battle,
            greedy_anomalies: self.greedy_anomalies as nat,
        }
    }
}

/// The view of one raw line: a line that failed to decode carries nothing.
pub open spec fn line_view(l: Option<String>) -> Option<Seq<char>> {
    match l {
        Some(s) => Some(s@),
        None => None,
    }
}

/// The views of a sequence of raw lines.
pub open spec fn line_views(s: Seq<Option<String>>) -> Seq<Option<Seq<char>>> {
    s.map_values(|l: Option<String>| line_view(l))
}

/// What one parse call reports.
#[derive(Clone, Copy, Debug, PartialEq, Eq, Structural)]
pub enum ParseOutcome {
    /// All newly appended lines were consumed.
    Completed,
    /// The source holds fewer lines than were already consumed: it was
    /// truncated or rotated below the resume cursor, and nothing was read.
    SourceTruncated,
}

impl ParsedChatLog {
    /// The aggregate's invariant.
    pub open spec fn wf(&self) -> bool {
        log_wf(self@)
    }

    /// A fresh, empty parser.
    pub fn new() -> (r: Self)
        ensures
            r@ == init_view(),
            r.wf(),
    {
        let r = ParsedChatLog {
            battles: Vec::new(),
            chat_messages: Vec::new(),
            tells: Vec::new(),
            trade_chat_messages: Vec::new(),
            global_chat_messages: Vec::new(),
            last_line_read: 0,
            total_lines_read: 0,
            current_date: None,
            in_battle: false,
            greedy_anomalies: 0,
        };
        proof {
            assert(r@ =~= init_view());
            assert(total_hits(r@.battles) == 0);
        }
        r
    }

    /// Consume one raw line, exactly as `step_line` describes.  Returns
    /// whether the line created a battle.
    fn apply_line(&mut self, line: &Option<String>, battle_count: usize) -> (created: bool)
        requires
            old(self).wf(),
            old(self)@.total_lines_read < usize::MAX,
            battle_count < usize::MAX,
        ensures
            final(self)@ == step_line(old(self)@, battle_count as nat, line_view(*line)),
            final(self).wf(),
            created == (final(self)@.battles.len() == old(self)@.battles.len() + 1),
    {
        proof {
            lemma_step_wf(old(self)@, battle_count as nat, line_view(*line));
        }
        let ghost m0 = self@;
        let ghost lv = line_view(*line);
        let ghost pc = battle_count as nat;
        self.last_line_read = self.last_line_read + 1;
        self.total_lines_read = self.total_lines_read + 1;
        let ghost c = self@;
        match line {
            None => {
                proof {
                    assert(self@ =~= step_line(m0, pc, lv));
                }
                false
            },
            Some(text) => {
                let s = text.as_str();
                let n = s.unicode_len();
                let ghost ls = text@;
                match date_capture(s, n) {
                    DateCheck::Parsed(d) => {
                        self.current_date = Some(d);
                    },
                    DateCheck::Malformed => {
                        proof {
                            assert(self@ =~= step_line(m0, pc, lv));
                        }
                        return false;
                    },
                    DateCheck::NotDate => {},
                }
                let ghost d = self@;
                if let Some(sender) = chat_capture(s, "says", n) {
                    match read_timestamp(s) {
                        Some(t) => {
                            let mut msg = Message::new(
                                text.clone(),
                                sender,
                                t,
                                self.total_lines_read,
                            );
                            msg.date = self.current_date;
                            self.chat_messages.push(msg);
                            proof {
                                assert(msg_views(self.chat_messages@) =~= d.chat_messages.push(
                                    msg@,
                                ));
                                assert(self@ =~= step_line(m0, pc, lv));
                            }
                        },
                        None => {
                            proof {
                                assert(self@ =~= step_line(m0, pc, lv));
                            }
                        },
                    }
                    return false;
                }
                if let Some(sender) = chat_capture(s, "shouts", n) {
                    match read_timestamp(s) {
                        Some(t) => {
                            let mut msg = Message::new(
                                text.clone(),
                                sender,
                                t,
                                self.total_lines_read,
                            );
                            msg.date = self.current_date;
                            self.chat_messages.push(msg);
                            proof {
                                assert(msg_views(self.chat_messages@) =~= d.chat_messages.push(
                                    msg@,
                                ));
                                assert(self@ =~= step_line(m0, pc, lv));
                            }
                        },
                        None => {
                            proof {
                                assert(self@ =~= step_line(m0, pc, lv));
                            }
                        },
                    }
                    return false;
                }
                if let Some(sender) = chat_capture(s, "trade chats", n) {
                    match read_timestamp(s) {
                        Some(t) => {
                            let mut msg = Message::new(
                                text.clone(),
                                sender,
                                t,
                                self.total_lines_read,
                            );
                            msg.date = self.current_date;
                            self.trade_chat_messages.push(msg);
                            proof {
                                assert(msg_views(self.trade_chat_messages@)
                                    =~= d.trade_chat_messages.push(msg@));
                                assert(self@ =~= step_line(m0, pc, lv));
                            }
                        },
                        None => {
                            proof {
                                assert(self@ =~= step_line(m0, pc, lv));
                            }
                        },
                    }
                    return false;
                }
                if let Some(sender) = chat_capture(s, "global chats", n) {
                    match read_timestamp(s) {
                        Some(t) => {
                            let mut msg = Message::new(
                                text.clone(),
                                sender,
                                t,
                                self.total_lines_read,
                            );
                            msg.date = self.current_date;
                            self.global_chat_messages.push(msg);
                            proof {
                                assert(msg_views(self.global_chat_messages@)
                                    =~= d.global_chat_messages.push(msg@));
                                assert(self@ =~= step_line(m0, pc, lv));
                            }
                        },
                        None => {
                            proof {
                                assert(self@ =~= step_line(m0, pc, lv));
                            }
                        },
                    }
                    return false;
                }
                if let Some(sender) = chat_capture(s, "tells ye", n) {
                    match read_timestamp(s) {
                        Some(t) => {
                            let mut msg = Message::new(
                                text.clone(),
                                sender,
                                t,
                                self.total_lines_read,
                            );
                            msg.date = self.current_date;
                            self.tells.push(msg);
                            proof {
                                assert(msg_views(self.tells@) =~= d.tells.push(msg@));
                                assert(self@ =~= step_line(m0, pc, lv));
                            }
                        },
                        None => {
                            proof {
                                assert(self@ =~= step_line(m0, pc, lv));
                            }
                        },
                    }
                    return false;
                }
                if is_battle_started_line(s) {
                    let splits = split_on_spaces(s);
                    if splits.len() >= 7 {
                        let mut attacker = crate::classify::strip_trailing_dots(
                            splits[1].as_str(),
                        );
                        attacker.append(" ");
                        attacker.append(crate::classify::strip_trailing_dots(
                            splits[2].as_str(),
                        ).as_str());
                        let mut defender = crate::classify::strip_trailing_dots(
                            splits[5].as_str(),
                        );
                        defender.append(" ");
                        defender.append(crate::classify::strip_trailing_dots(
                            splits[6].as_str(),
                        ).as_str());
                        let battle = Battle {
                            id: battle_count + 1,
                            attacker_ship: attacker,
                            defender_ship: defender,
                            greedies: Vec::new(),
                        };
                        self.battles.insert(0, battle);
                        self.in_battle = true;
                        proof {
                            assert(str_views(splits@).len() >= 7);
                            assert(str_views(splits@)[1] == splits@[1]@);
                            assert(str_views(splits@)[2] == splits@[2]@);
                            assert(str_views(splits@)[5] == splits@[5]@);
                            assert(str_views(splits@)[6] == splits@[6]@);
                            assert(battle_views(self.battles@) =~= seq![battle@] + d.battles);
                            assert(battle@ =~= crate::model::new_battle(ls, pc + 1));
                            assert(self@ =~= step_line(m0, pc, lv));
                        }
                        return true;
                    } else {
                        proof {
                            assert(str_views(splits@).len() < 7);
                            assert(self@ =~= step_line(m0, pc, lv));
                        }
                        return false;
                    }
                }
                let greedy = is_a_greedy_line(s);
                if greedy && self.in_battle {
                    let splits = split_on_spaces(s);
                    proof {
                        lemma_greedy_line_tokens(ls);
                        assert(str_views(splits@).len() >= 2);
                        assert(total_hits(d.battles) == sum_counts(d.battles[0].greedies)
                            + total_hits(d.battles.skip(1)));
                    }
                    let name = splits[1].clone();
                    let ghost pre_battles = self.battles@;
                    let b = &mut self.battles[0];
                    b.record_greedy(&name);
                    proof {
                        assert(str_views(splits@)[1] == splits@[1]@);
                        assert(battle_views(self.battles@) =~= d.battles.update(
                            0,
                            BattleView {
                                greedies: crate::battle::bump(
                                    d.battles[0].greedies,
                                    crate::classify::spec_greedy_name(ls),
                                ),
                                ..d.battles[0]
                            },
                        ));
                    }
                }
                if greedy && !self.in_battle {
                    self.greedy_anomalies = self.greedy_anomalies + 1;
                }
                if is_battle_ended_line(s) {
                    self.in_battle = false;
                }
                proof {
                    assert(self@ =~= step_line(m0, pc, lv));
                }
                false
            },
        }
    }

    /// Parse all newly appended lines of the log.
    ///
    /// The first `last_line_read` lines were consumed by earlier calls and
    /// are skipped; every later line is counted and classified.  If the
    /// source now holds fewer lines than were already consumed it was
    /// truncated below the resume cursor: nothing is read and
    /// `SourceTruncated` says so, so the caller can start a fresh parse.
    pub fn parse_chat_log(&mut self, lines: &Vec<Option<String>>) -> (r: ParseOutcome)
        requires
            old(self).wf(),
        ensures
            final(self).wf(),
            (r == ParseOutcome::SourceTruncated) == (lines@.len() < old(self)@.last_line_read),
            r == ParseOutcome::SourceTruncated ==> final(self)@ == old(self)@,
            r == ParseOutcome::Completed ==> final(self)@ == run(
                old(self)@,
                line_views(lines@).skip(old(self)@.last_line_read as int),
            ),
            r == ParseOutcome::Completed ==> final(self)@.last_line_read == lines@.len(),
    {
        let n = lines.len();
        let start = self.last_line_read;
        if n < start {
            return ParseOutcome::SourceTruncated;
        }
        let ghost lv = line_views(lines@);
        let ghost m0 = self@;
        let ghost base = m0.battles.len();
        let mut battle_count: usize = 0;
        let mut i = start;
        proof {
            assert(lv.subrange(start as int, start as int) =~= Seq::<Option<Seq<char>>>::empty());
            assert(run_from(m0, base, Seq::<Option<Seq<char>>>::empty()) == m0);
        }
        while i < n
            invariant
                n == lines@.len(),
                lv == line_views(lines@),
                start <= i <= n,
                self@ == run_from(m0, base, lv.subrange(start as int, i as int)),
                log_wf(self@),
                self@.last_line_read == i,
                self@.total_lines_read == i,
                base == m0.battles.len(),
                self@.battles.len() == base + battle_count,
                battle_count <= i - start,
            decreases n - i,
        {
            let ghost pre = self@;
            proof {
                assert(pass_count(pre, base) == battle_count as nat);
            }
            let created = self.apply_line(&lines[i], battle_count);
            proof {
                assert(lv.subrange(start as int, i + 1) =~= lv.subrange(
                    start as int,
                    i as int,
                ).push(lv[i as int]));
                assert(lv[i as int] == line_view(lines@[i as int]));
                lemma_run_from_snoc(m0, base, lv.subrange(start as int, i as int), lv[i as int]);
            }
            if created {
                battle_count = battle_count + 1;
            }
            i = i + 1;
        }
        proof {
            assert(lv.subrange(start as int, n as int) =~= lv.skip(start as int));
        }
        ParseOutcome::Completed
    }
}

} // verus!

verus! {

/// The central resumability law, over raw lines: parsing a fully grown log
/// once from a fresh parser reaches the same observable state as first
/// parsing its first `k` lines and then parsing the grown log again over
/// the same parser — which, by `parse_chat_log`'s contract, consumes
/// exactly the lines from the resume cursor on.  Message collections,
/// battle ships and tallies, counters, ambient date, battle flag and
/// anomaly count all agree; only per-pass battle numbers may differ.
pub proof fn lemma_resumed_parse_equivalent(lines: Seq<Option<String>>, k: int)
    requires
        0 <= k <= lines.len(),
    ensures
        ({
            let once = run(init_view(), line_views(lines));
            let first = run(init_view(), line_views(lines.take(k)));
            let resumed = run(first, line_views(lines).skip(k));
            crate::model::state_equiv(once, resumed)
        }),
{
    assert(line_views(lines.take(k)) =~= line_views(lines).take(k));
    crate::model::lemma_split_parse_equivalent(line_views(lines), k);
}

} // verus!
