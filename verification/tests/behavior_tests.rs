//! Behaviour of the parser beyond single-line classification: battle
//! bookkeeping, search, resumption, truncation, and the per-line recovery
//! rules.

use chat_tracker::parser::{ParsedChatLog, ParseOutcome};

fn lines_of(log: &str) -> Vec<Option<String>> {
    log.lines().map(|l| Some(l.to_string())).collect()
}

const BATTLE_START: &str =
    "[02:01:19] Mean Shad has grappled Shifty Shiner. A melee breaks out between the crews!";
const GREEDY_BOB: &str = "[01:50:54] Bob delivers an overwhelming barrage against Petty Robert, causing some treasure to fall from their grip";
const GREEDY_ANN: &str = "[01:51:02] Ann swings a mighty blow against Petty Robert, causing some treasure to fall from their grip";

#[test]
fn test_battle_ships_extracted() {
    let mut parsed = ParsedChatLog::new();
    parsed.parse_chat_log(&lines_of(BATTLE_START));
    assert_eq!(parsed.battles.len(), 1);
    assert_eq!(parsed.battles[0].attacker_ship, "Mean Shad");
    assert_eq!(parsed.battles[0].defender_ship, "Shifty Shiner");
    assert!(parsed.in_battle);
}

#[test]
fn test_greedy_hit_named_and_counted() {
    let log = format!("{}\n{}", BATTLE_START, GREEDY_BOB);
    let mut parsed = ParsedChatLog::new();
    parsed.parse_chat_log(&lines_of(&log));
    assert_eq!(parsed.battles[0].greedies.len(), 1);
    assert_eq!(parsed.battles[0].greedies[0].0, "Bob");
    assert_eq!(parsed.battles[0].greedies[0].1, 1);
    assert_eq!(parsed.battles[0].greedy_count(&"Bob".to_string()), 1);
    assert_eq!(parsed.battles[0].greedy_count(&"Ann".to_string()), 0);
}

#[test]
fn test_greedies_keys_sorted_and_ranked() {
    let log = format!(
        "{}\n{}\n{}\n{}",
        BATTLE_START, GREEDY_ANN, GREEDY_BOB, GREEDY_BOB
    );
    let mut parsed = ParsedChatLog::new();
    parsed.parse_chat_log(&lines_of(&log));
    let battle = &parsed.battles[0];
    // key-sorted iteration order
    assert_eq!(battle.greedies[0].0, "Ann");
    assert_eq!(battle.greedies[1].0, "Bob");
    assert_eq!(battle.total_greedy_hits(), 3);
    // ranked by count, largest first
    let ranked = battle.greedies_by_count();
    assert_eq!(ranked[0].0, "Bob");
    assert_eq!(ranked[0].1, 2);
    assert_eq!(ranked[1].0, "Ann");
    assert_eq!(ranked[1].1, 1);
}

#[test]
fn test_game_over_ends_battle() {
    let log = format!("{}\n{}\n{}", BATTLE_START, "[02:10:00] Game Over", GREEDY_BOB);
    let mut parsed = ParsedChatLog::new();
    parsed.parse_chat_log(&lines_of(&log));
    assert!(!parsed.in_battle);
    assert_eq!(parsed.battles.len(), 1);
    // the hit after the battle ended is an anomaly, not a count
    assert!(parsed.battles[0].greedies.is_empty());
    assert_eq!(parsed.greedy_anomalies, 1);
}

#[test]
fn test_greedy_outside_battle_is_anomaly() {
    let mut parsed = ParsedChatLog::new();
    parsed.parse_chat_log(&lines_of(GREEDY_BOB));
    assert!(parsed.battles.is_empty());
    assert_eq!(parsed.greedy_anomalies, 1);
    assert_eq!(parsed.total_lines_read, 1);
}

#[test]
fn test_battle_start_while_in_battle_stacks() {
    let log = format!("{}\n{}\n{}", BATTLE_START, BATTLE_START, GREEDY_BOB);
    let mut parsed = ParsedChatLog::new();
    parsed.parse_chat_log(&lines_of(&log));
    assert_eq!(parsed.battles.len(), 2);
    // the hit lands on the newest battle, at the front
    assert_eq!(parsed.battles[0].greedies.len(), 1);
    assert!(parsed.battles[1].greedies.is_empty());
}

#[test]
fn test_truncated_source_detected() {
    let log = "[16:05:04] Someone tells ye, \"2 for spades\"\n[16:05:05] Someone tells ye, \"3 for spades\"";
    let mut parsed = ParsedChatLog::new();
    let r = parsed.parse_chat_log(&lines_of(log));
    assert_eq!(r, ParseOutcome::Completed);
    assert_eq!(parsed.last_line_read, 2);

    let shrunk = "[16:05:04] Someone tells ye, \"2 for spades\"";
    let r = parsed.parse_chat_log(&lines_of(shrunk));
    assert_eq!(r, ParseOutcome::SourceTruncated);
    // nothing was consumed
    assert_eq!(parsed.last_line_read, 2);
    assert_eq!(parsed.total_lines_read, 2);
    assert_eq!(parsed.tells.len(), 2);
}

#[test]
fn test_undecodable_line_counted_but_skipped() {
    let chat = "[16:05:01] Someone says, \"hi there\"";
    let lines = vec![None, Some(chat.to_string())];
    let mut parsed = ParsedChatLog::new();
    parsed.parse_chat_log(&lines);
    assert_eq!(parsed.total_lines_read, 2);
    assert_eq!(parsed.chat_messages.len(), 1);
    // the undecodable line still advanced the id sequence
    assert_eq!(parsed.chat_messages[0].id, 2);
}

#[test]
fn test_invalid_timestamp_line_skipped() {
    let bad = "[25:99:99] Someone says, \"hi\"";
    let good = "[16:05:01] Someone says, \"hi\"";
    let log = format!("{}\n{}", bad, good);
    let mut parsed = ParsedChatLog::new();
    parsed.parse_chat_log(&lines_of(&log));
    assert_eq!(parsed.chat_messages.len(), 1);
    assert_eq!(parsed.chat_messages[0].contents, good);
    assert_eq!(parsed.total_lines_read, 2);
}

#[test]
fn test_invalid_date_line_skipped() {
    let bad_date = "===== 2024/13/40 =====";
    let chat = "[16:05:01] Someone says, \"hi\"";
    let log = format!("{}\n{}", bad_date, chat);
    let mut parsed = ParsedChatLog::new();
    parsed.parse_chat_log(&lines_of(&log));
    assert_eq!(parsed.current_date, None);
    assert_eq!(parsed.chat_messages[0].date, None);
}

#[test]
fn test_unmatched_line_discarded() {
    let log = "nothing the classifier knows about";
    let mut parsed = ParsedChatLog::new();
    parsed.parse_chat_log(&lines_of(log));
    assert_eq!(parsed.total_lines_read, 1);
    assert!(parsed.chat_messages.is_empty());
    assert!(parsed.battles.is_empty());
    assert_eq!(parsed.greedy_anomalies, 0);
}

#[test]
fn test_resumed_parse_matches_single_parse() {
    let log = format!(
        "{}\n{}\n{}\n{}\n{}",
        "[16:05:01] Someone says, \"we just got intercepted\"",
        "===== 2024/01/06 =====",
        BATTLE_START,
        GREEDY_BOB,
        "[16:05:09] Big Barry trade chats, \"? selling hemp\""
    );
    let all = lines_of(&log);

    let mut once = ParsedChatLog::new();
    once.parse_chat_log(&all);

    for k in 0..=all.len() {
        let mut resumed = ParsedChatLog::new();
        let first: Vec<Option<String>> = all[..k].to_vec();
        resumed.parse_chat_log(&first);
        resumed.parse_chat_log(&all);

        assert_eq!(resumed.total_lines_read, once.total_lines_read);
        assert_eq!(resumed.last_line_read, once.last_line_read);
        assert_eq!(resumed.current_date, once.current_date);
        assert_eq!(resumed.in_battle, once.in_battle);
        assert_eq!(resumed.greedy_anomalies, once.greedy_anomalies);
        assert_eq!(resumed.chat_messages.len(), once.chat_messages.len());
        assert_eq!(resumed.trade_chat_messages.len(), once.trade_chat_messages.len());
        assert_eq!(resumed.battles.len(), once.battles.len());
        for (a, b) in resumed.battles.iter().zip(once.battles.iter()) {
            assert_eq!(a.attacker_ship, b.attacker_ship);
            assert_eq!(a.defender_ship, b.defender_ship);
            assert_eq!(a.greedies, b.greedies);
        }
    }
}

#[test]
fn test_search_empty_term_yields_nothing() {
    let log = "[16:05:01] Someone says, \"we just got intercepted\"";
    let mut parsed = ParsedChatLog::new();
    parsed.parse_chat_log(&lines_of(log));
    assert!(parsed.messages_containing_search_term("").is_empty());
}

#[test]
fn test_search_case_insensitive_across_categories() {
    let says = "[16:05:01] Someone says, \"we just got INTERCEPTED\"";
    let tell = "[16:05:04] Someone tells ye, \"2 for spades\"";
    let global = "[16:05:05] Big Barry global chats, \"selling Spades cheap\"";
    let log = format!("{}\n{}\n{}", says, tell, global);
    let mut parsed = ParsedChatLog::new();
    parsed.parse_chat_log(&lines_of(&log));

    let hits = parsed.messages_containing_search_term("intercepted");
    assert_eq!(hits.len(), 1);
    assert_eq!(hits[0].contents, says);

    let hits = parsed.messages_containing_search_term("SPADES");
    assert_eq!(hits.len(), 2);
    // ascending by id, across the tell and global categories
    assert_eq!(hits[0].contents, tell);
    assert_eq!(hits[1].contents, global);

    assert!(parsed.messages_containing_search_term("doubloon").is_empty());
}

#[test]
fn test_messages_ids_strictly_increase() {
    let log = format!(
        "{}\n{}\n{}",
        "[16:05:04] Someone global chats, \"2 for spades\"",
        "[16:05:01] Someone says, \"hello\"",
        "[16:05:04] Someone tells ye, \"2 for spades\""
    );
    let mut parsed = ParsedChatLog::new();
    parsed.parse_chat_log(&lines_of(&log));
    let messages = parsed.messages_in_order_of_creation();
    assert_eq!(messages.len(), 3);
    for w in messages.windows(2) {
        assert!(w[0].id < w[1].id);
    }
}

#[test]
fn test_sender_span_round_trips() {
    let log = "[16:05:01] NPC Name says, \"we just got intercepted\"";
    let mut parsed = ParsedChatLog::new();
    parsed.parse_chat_log(&lines_of(log));
    let msg = &parsed.chat_messages[0];
    let (start, end) = msg.sender_indexes();
    assert_eq!(&msg.contents[start..end], msg.sender);
    let rebuilt = format!(
        "{}{}{}",
        &msg.contents[..start],
        msg.sender,
        msg.contents_without_sender()
    );
    assert_eq!(rebuilt, msg.contents);
    assert_eq!(msg.timestamp_from_message(), "[16:05:01]");
    assert!(msg.is_sender_npc());
}

#[test]
fn test_player_sender_is_not_npc() {
    let log = "[16:05:01] Someone-else says, \"hi\"";
    let mut parsed = ParsedChatLog::new();
    parsed.parse_chat_log(&lines_of(log));
    assert!(!parsed.chat_messages[0].is_sender_npc());
}
