//! The parser exercised line by line: classification of each chat family,
//! timestamps, dates, battles, and the resume cursor.

use chat_tracker::classify::{is_a_greedy_line, is_battle_started_line};
use chat_tracker::parser::ParsedChatLog;

fn to_lines(log: &str) -> Vec<Option<String>> {
    log.lines().map(|l| Some(l.to_string())).collect()
}

#[test]
fn test_greedy_line() {
    let str = "[01:50:54] Bob delivers an overwhelming barrage against Petty Robert, causing some treasure to fall from their grip";
    assert!(is_a_greedy_line(str));
}

#[test]
fn test_battle_started() {
    let str = "[02:01:19] Mean Shad has grappled Shifty Shiner. A melee breaks out between the crews!";
    assert!(is_battle_started_line(str));
}

#[test]
fn test_regular_chat_line() {
    let single_name_string = "[16:05:01] Someone says, \"we just got intercepted\"\"";
    let double_name_string = "[16:05:01] NPC Name says, \"we just got intercepted\"";
    let shout_string = "[16:05:01] Someone shouts, Yeehaw!";

    let log = format!(
        "{}\n{}\n{}",
        single_name_string, double_name_string, shout_string
    );

    let mut parsed = ParsedChatLog::new();
    parsed.parse_chat_log(&to_lines(&log));
    assert_eq!(parsed.chat_messages.len(), 3);
    assert_eq!(parsed.chat_messages[0].contents, single_name_string);
    assert_eq!(parsed.chat_messages[0].sender, "Someone");
    assert_eq!(parsed.chat_messages[1].contents, double_name_string);
    assert_eq!(parsed.chat_messages[1].sender, "NPC Name");
    assert_eq!(parsed.chat_messages[1].contents, double_name_string);
    assert_eq!(parsed.chat_messages[2].sender, "Someone");
}

#[test]
fn test_timestamp_parsing() {
    let log = "[16:05:01] Someone says, \"we just got intercepted\"\"";

    let mut parsed = ParsedChatLog::new();
    parsed.parse_chat_log(&to_lines(log));
    let time = parsed.chat_messages[0].timestamp;
    assert_eq!(time.hour, 16);
    assert_eq!(time.minute, 05);
    assert_eq!(time.second, 01);
}

#[test]
fn test_date_parsing() {
    let chat_string = "[16:05:01] Someone says, \"we just got intercepted\"\"";
    let date_string = "===== 2024/01/06 =====";
    let other_chat_string = "[16:05:05] Someone-else says, \"we just got intercepted\"\"";
    let log = format!("{}\n{}\n{}", chat_string, date_string, other_chat_string);

    let mut parsed = ParsedChatLog::new();
    parsed.parse_chat_log(&to_lines(&log));
    assert_eq!(parsed.chat_messages[0].date, None);
    let date = parsed.chat_messages[1].date.unwrap();
    assert_eq!(date.year, 2024);
    assert_eq!(date.month, 1);
    assert_eq!(date.day, 06);
}

#[test]
fn test_hypen_name() {
    let log = "[16:05:01] Someone-else says, \"we just got intercepted\"\"";
    let mut parsed = ParsedChatLog::new();
    parsed.parse_chat_log(&to_lines(log));

    assert_eq!(parsed.chat_messages[0].contents, log);
    assert_eq!(parsed.chat_messages[0].sender, "Someone-else");
}

#[test]
fn test_trade_chat_line() {
    let single_name_string =
        "[16:05:04] Someone trade chats, \"? Buying weavery or plot on barb or arakoua\"";
    let double_name_string =
        "[16:05:04] Big Barry trade chats, \"? Buying weavery or plot on barb or arakoua\"";

    let log = format!("{}\n{}", single_name_string, double_name_string);

    let mut parsed = ParsedChatLog::new();
    parsed.parse_chat_log(&to_lines(&log));
    assert_eq!(parsed.trade_chat_messages.len(), 2);
    assert_eq!(parsed.trade_chat_messages[0].contents, single_name_string);
    assert_eq!(parsed.trade_chat_messages[0].sender, "Someone");
    assert_eq!(parsed.trade_chat_messages[1].contents, double_name_string);
    assert_eq!(parsed.trade_chat_messages[1].sender, "Big Barry");
}

#[test]
fn test_global_chat_line() {
    let single_name_string = "[16:05:04] Someone global chats, \"2 for spades\"";
    let double_name_string = "[16:05:04] Big Barry global chats, \"2 for spades\"";

    let log = format!("{}\n{}", single_name_string, double_name_string);

    let mut parsed = ParsedChatLog::new();
    parsed.parse_chat_log(&to_lines(&log));
    assert_eq!(parsed.global_chat_messages.len(), 2);
    assert_eq!(parsed.global_chat_messages[0].contents, single_name_string);
    assert_eq!(parsed.global_chat_messages[0].sender, "Someone");
    assert_eq!(parsed.global_chat_messages[1].contents, double_name_string);
    assert_eq!(parsed.global_chat_messages[1].sender, "Big Barry");
}

#[test]
fn test_tell_chat_line() {
    let single_name_string = "[16:05:04] Someone tells ye, \"2 for spades\"";
    let double_name_string = "[16:05:04] Big Barry tells ye, \"2 for spades\"";

    let log = format!("{}\n{}", single_name_string, double_name_string);

    let mut parsed = ParsedChatLog::new();
    parsed.parse_chat_log(&to_lines(&log));
    assert_eq!(parsed.tells.len(), 2);
    assert_eq!(parsed.tells[0].contents, single_name_string);
    assert_eq!(parsed.tells[0].sender, "Someone");
    assert_eq!(parsed.tells[1].contents, double_name_string);
    assert_eq!(parsed.tells[1].sender, "Big Barry");
}

#[test]
fn test_lines_read_count() {
    let single_name_string = "[16:05:04] Someone tells ye, \"2 for spades\"";
    let mut log = format!(
        "{}\n{}\n{}\n{}",
        single_name_string, single_name_string, single_name_string, single_name_string
    );
    let mut parsed = ParsedChatLog::new();
    parsed.parse_chat_log(&to_lines(&log));

    assert_eq!(parsed.last_line_read, 4);
    assert_eq!(parsed.total_lines_read, 4);

    log += "\n[16:05:04] Someone tells ye, \"2 for spades\"";
    let mut parsed = ParsedChatLog::new();
    parsed.parse_chat_log(&to_lines(&log));
    assert_eq!(parsed.last_line_read, 5);
    assert_eq!(parsed.total_lines_read, 5);
}

#[test]
fn test_battle_in_progress_updated_on_reparse() {
    let battle_started =
        "[02:01:19] Mean Shad has grappled Shifty Shiner. A melee breaks out between the crews!";
    let first_greedy_hit = "[01:50:54] Bob delivers an overwhelming barrage against Petty Robert, causing some treasure to fall from their grip";
    let mut log = format!("{}\n{}\n", battle_started, first_greedy_hit);

    let mut parsed = ParsedChatLog::new();
    parsed.parse_chat_log(&to_lines(&log));

    assert_eq!(parsed.battles[0].greedies[0].1, 1);

    let second_greedy_hit = "[01:50:54] Bob delivers an overwhelming barrage against Petty Robert, causing some treasure to fall from their grip";
    log += second_greedy_hit;
    parsed.parse_chat_log(&to_lines(&log));
    assert_eq!(parsed.battles[0].greedies[0].1, 2);
}

#[test]
fn test_messages_in_order_of_creation() {
    let global_chat = "[16:05:04] Someone global chats, \"2 for spades\"";
    let other_global_chat = "[16:05:05] Someone global chats, \"5 for shovels\"";
    let trade_chat = "[16:05:04] Someone trade chats, \"? Buying weavery or plot on barb or arakoua\"";
    let regular_chat = "[16:05:01] Someone says, \"we just got intercepted\"\"";
    let tell = "[16:05:04] Someone tells ye, \"2 for spades\"";
    let log = format!(
        "{}\n{}\n{}\n{}\n{}\n",
        global_chat, trade_chat, regular_chat, other_global_chat, tell
    );
    let mut parsed = ParsedChatLog::new();
    parsed.parse_chat_log(&to_lines(&log));
    let messages = parsed.messages_in_order_of_creation();

    let expected_order = [
        global_chat,
        trade_chat,
        regular_chat,
        other_global_chat,
        tell,
    ];

    assert_eq!(messages.len(), expected_order.len());

    for (message, expected) in messages.iter().zip(expected_order) {
        assert_eq!(message.contents, expected);
    }
}
