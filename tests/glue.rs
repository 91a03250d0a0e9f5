use shalombot::botconfig::{BotConfig, GuildSettings};
use shalombot::crossword::{message_is_crossword_post, mini_link, CrosswordWatcher, ScanStep};
use shalombot::digit_list::parse_digit_list;
use shalombot::response::{format_solutions, render_solution};
use shalombot::ticket::{
    channel_exists, close_check, first_free_ticket, is_close_request, is_ticket_channel,
    log_line, reaction_may_close, starts_with_text, ticket_channel_name, ticket_log, CloseCheck,
};
use shalombot::{DigitsSolver, Operation, OperationType};

#[test]
fn crossword_post_detection() {
    let link = mini_link();
    assert_eq!(link, "https://www.nytimes.com/crosswords/game/mini");
    assert!(message_is_crossword_post(&format!("play {} now", link), &vec![]));
    assert!(message_is_crossword_post(
        "new puzzle",
        &vec![None, Some(format!("see {}", link))]
    ));
    assert!(!message_is_crossword_post(
        "https://www.nytimes.com/crosswords/game/daily",
        &vec![None, Some("nothing".to_string())]
    ));
    assert!(!message_is_crossword_post("", &vec![]));
}

#[test]
fn crossword_scan_steps() {
    let mut w = CrosswordWatcher::new();
    assert!(!w.known_sent(100));
    assert_eq!(w.scan_message(100, 99, true), ScanStep::NotSent);
    assert_eq!(w.last_posted_puzzle, None);
    assert_eq!(w.scan_message(100, 100, false), ScanStep::KeepLooking);
    assert_eq!(w.last_posted_puzzle, None);
    assert_eq!(w.scan_message(100, 100, true), ScanStep::Sent);
    assert_eq!(w.last_posted_puzzle, Some(100));
    assert!(w.known_sent(100));
    assert!(!w.known_sent(101));
}

#[test]
fn digit_lists_are_parsed() {
    assert_eq!(parse_digit_list("1,2,3"), Some(vec![1, 2, 3]));
    assert_eq!(parse_digit_list(" 4 , 25,  100 "), Some(vec![4, 25, 100]));
    assert_eq!(parse_digit_list("+7,8"), Some(vec![7, 8]));
    assert_eq!(parse_digit_list("1 0, 2"), Some(vec![10, 2]));
    assert_eq!(parse_digit_list("18446744073709551615"), Some(vec![usize::MAX]));
}

#[test]
fn bad_digit_lists_are_rejected() {
    assert_eq!(parse_digit_list(""), None);
    assert_eq!(parse_digit_list("1,,2"), None);
    assert_eq!(parse_digit_list("1,2,"), None);
    assert_eq!(parse_digit_list("1,x"), None);
    assert_eq!(parse_digit_list("-1"), None);
    assert_eq!(parse_digit_list("+"), None);
    assert_eq!(parse_digit_list("18446744073709551616"), None);
}

#[test]
fn reply_lists_solutions() {
    let sols = DigitsSolver::<6>::solve(10, vec![2, 3, 5]).unwrap().get_solutions();
    let reply = format_solutions(&sols);
    assert!(reply.starts_with("(Some) Solutions:\n||"));
    assert!(reply.contains("||5 * 2 = 10||"));
    assert_eq!(format_solutions(&vec![]), "(Some) Solutions:");
    let two = vec![
        Operation { op_type: OperationType::Multiply, num1: 3, num2: 2 },
        Operation { op_type: OperationType::Add, num1: 6, num2: 5 },
    ];
    assert_eq!(render_solution(&two), "3 * 2 = 6, 6 + 5 = 11");
    assert_eq!(
        format_solutions(&vec![two.clone(), vec![two[1]]]),
        "(Some) Solutions:\n||3 * 2 = 6, 6 + 5 = 11||\n||6 + 5 = 11||"
    );
}

#[test]
fn ticket_numbers() {
    assert_eq!(ticket_channel_name(12), "ticket-12");
    let names = vec!["general".to_string(), "ticket-1".to_string(), "ticket-3".to_string()];
    assert!(channel_exists(&names, 1));
    assert!(!channel_exists(&names, 2));
    assert_eq!(first_free_ticket(&names), Some(2));
    assert_eq!(first_free_ticket(&vec![]), Some(1));
    let taken = vec!["ticket-2".to_string(), "ticket-1".to_string()];
    assert_eq!(first_free_ticket(&taken), Some(3));
}

#[test]
fn config_values() {
    let g = GuildSettings {
        guild_id: 1,
        crossword_channel: 2,
        support_team_role: 3,
        ticket_log_channel: 4,
        ticket_category: 5,
        everyone_role: 6,
    };
    let c = BotConfig { discord_token: "SECRET-REDACTED".to_string(), guild_settings: g, embed_color: 7 };
    assert_eq!(c.guild_settings, g);
    assert_eq!(c.embed_color, 7);
}

#[test]
fn close_needs_support_role_and_ticket_channel() {
    assert!(is_ticket_channel("ticket-4"));
    assert!(is_ticket_channel("ticket"));
    assert!(!is_ticket_channel("tick"));
    assert!(!is_ticket_channel("general"));
    assert_eq!(close_check(&vec![1, 2], 3, "ticket-1"), CloseCheck::NotSupportTeam);
    assert_eq!(close_check(&vec![], 3, "ticket-1"), CloseCheck::NotSupportTeam);
    assert_eq!(close_check(&vec![1, 3], 3, "general"), CloseCheck::NotTicketChannel);
    assert_eq!(close_check(&vec![3], 3, "ticket-9"), CloseCheck::Allowed);
}

#[test]
fn reactions_that_close_tickets() {
    assert!(reaction_may_close(false, true, &vec![5, 9], 9));
    assert!(!reaction_may_close(true, true, &vec![9], 9));
    assert!(!reaction_may_close(false, false, &vec![9], 9));
    assert!(!reaction_may_close(false, true, &vec![5], 9));
    let request = "Thank you for your ticket with Shalom Support. Please react.";
    assert!(is_close_request(request, true));
    assert!(!is_close_request(request, false));
    assert!(!is_close_request("Thanks!", true));
    assert!(starts_with_text("abc", ""));
    assert!(!starts_with_text("ab", "abc"));
}

#[test]
fn ticket_log_is_oldest_first() {
    let line = log_line("2024-01-01T00:00:00Z", "ann", "hello");
    assert_eq!(line, "[2024-01-01T00:00:00Z] ann: hello");
    let newest_first = vec!["c".to_string(), "b".to_string(), "a".to_string()];
    assert_eq!(ticket_log(&newest_first), "a\nb\nc");
    assert_eq!(ticket_log(&vec!["only".to_string()]), "only");
    assert_eq!(ticket_log(&vec![]), "");
}
