use vstd::prelude::*;
use vstd::string::{StrSliceExecFns, StringExecFns};

use crate::operation::{decimal_spec, decimal_text};

verus! {

/// The name of the channel of ticket `n`: `ticket-<n>`.
pub open spec fn ticket_name_spec(n: nat) -> Seq<char> {
    seq!['t', 'i', 'c', 'k', 'e', 't', '-'] + decimal_spec(n)
}

/// Whether some name of `names` is that of the channel of ticket `n`.
pub open spec fn name_taken(names: Seq<String>, n: nat) -> bool {
    exists|i: int| 0 <= i < names.len() && #[trigger] names[i]@ == ticket_name_spec(n)
}

/// The name of the channel of ticket `n`.
pub fn ticket_channel_name(n: usize) -> (r: String)
    ensures
        r@ == ticket_name_spec(n as nat),
{
    let mut name = String::from_str("ticket-");
    let digits = decimal_text(n);
    name.append(digits.as_str());
    proof {
        reveal_strlit("ticket-");
        assert(name@ =~= ticket_name_spec(n as nat));
    }
    name
}

/// Whether a channel of ticket `ticket_number` is among the channel names `names`.
pub fn channel_exists(names: &Vec<String>, ticket_number: usize) -> (r: bool)
    ensures
        r == name_taken(names@, ticket_number as nat),
{
    let wanted = ticket_channel_name(ticket_number);
    let mut i: usize = 0;
    while i < names.len()
        invariant
            i <= names@.len(),
            wanted@ == ticket_name_spec(ticket_number as nat),
            forall|x: int| 0 <= x < i ==> names@[x]@ != wanted@,
        decreases names@.len() - i,
    {
        if names[i] == wanted {
            return true;
        }
        i = i + 1;
    }
    false
}

/// The smallest ticket number from 1 whose channel name is not among `names`. Of the
/// numbers from 1 to one more than there are names, one is always free.
pub fn first_free_ticket(names: &Vec<String>) -> (r: Option<usize>)
    requires
        names@.len() + 2 <= usize::MAX,
    ensures
        r matches Some(n) ==> 1 <= n && !name_taken(names@, n as nat) && forall|m: nat|
            1 <= m < n ==> #[trigger] name_taken(names@, m),
        r is None ==> forall|m: nat| 1 <= m <= names@.len() + 1 ==> #[trigger] name_taken(names@, m),
{
    let limit = names.len() + 1;
    let mut n: usize = 1;
    while n <= limit
        invariant
            names@.len() + 2 <= usize::MAX,
            limit == names@.len() + 1,
            1 <= n <= limit + 1,
            forall|m: nat| 1 <= m < n ==> #[trigger] name_taken(names@, m),
        decreases limit + 1 - n,
    {
        if !channel_exists(names, n) {
            return Some(n);
        }
        n = n + 1;
    }
    None
}

/// Whether a ticket may be closed from a command, and if not, why.
#[derive(PartialEq, Eq, Structural, Debug, Clone, Copy)]
pub enum CloseCheck {
    /// The member who asked is not on the support team.
    NotSupportTeam,
    /// The command was not given in a ticket channel.
    NotTicketChannel,
    /// The ticket may be closed.
    Allowed,
}

/// The prefix of the names of ticket channels.
pub open spec fn ticket_prefix() -> Seq<char> {
    "ticket"@
}

/// Whether `name` starts with `ticket`.
pub fn is_ticket_channel(name: &str) -> (r: bool)
    ensures
        r == has_prefix(name@, ticket_prefix()),
{
    starts_with_text(name, "ticket")
}

/// Decides whether a member with roles `roles` may close the ticket of channel
/// `channel_name`: only the support team may, and only in a ticket channel.
pub fn close_check(roles: &Vec<u64>, support_team_role: u64, channel_name: &str) -> (r: CloseCheck)
    ensures
        !roles@.contains(support_team_role) ==> r == CloseCheck::NotSupportTeam,
        roles@.contains(support_team_role) && !has_prefix(channel_name@, ticket_prefix()) ==> r
            == CloseCheck::NotTicketChannel,
        roles@.contains(support_team_role) && has_prefix(channel_name@, ticket_prefix()) ==> r
            == CloseCheck::Allowed,
{
    let mut i: usize = 0;
    let mut member = false;
    while i < roles.len()
        invariant
            i <= roles@.len(),
            member == (exists|j: int| 0 <= j < i && roles@[j] == support_team_role),
        decreases roles@.len() - i,
    {
        if roles[i] == support_team_role {
            member = true;
        }
        i = i + 1;
    }
    if !member {
        return CloseCheck::NotSupportTeam;
    }
    if !is_ticket_channel(channel_name) {
        return CloseCheck::NotTicketChannel;
    }
    CloseCheck::Allowed
}

/// Whether `s` starts with `prefix`.
pub open spec fn has_prefix(s: Seq<char>, prefix: Seq<char>) -> bool {
    prefix.len() <= s.len() && s.take(prefix.len() as int) == prefix
}

/// Whether the text `s` starts with the text `prefix`.
pub fn starts_with_text(s: &str, prefix: &str) -> (r: bool)
    ensures
        r == has_prefix(s@, prefix@),
{
    let n = s.unicode_len();
    let m = prefix.unicode_len();
    if m > n {
        return false;
    }
    let mut i: usize = 0;
    while i < m
        invariant
            n == s@.len(),
            m == prefix@.len(),
            m <= n,
            i <= m,
            forall|j: int| 0 <= j < i ==> s@[j] == prefix@[j],
        decreases m - i,
    {
        if s.get_char(i) != prefix.get_char(i) {
            assert(s@.take(m as int)[i as int] != prefix@[i as int]);
            return false;
        }
        i = i + 1;
    }
    assert(s@.take(m as int) =~= prefix@);
    true
}

/// The opening of the message that the bot posts when a ticket is ready to be closed.
pub open spec fn close_request_opening() -> Seq<char> {
    "Thank you for your ticket with Shalom Support"@
}

/// Decides whether a reaction may close a ticket, before its message is looked at: it must
/// be a cross mark added by a member of the support team other than the bot.
pub fn reaction_may_close(
    by_bot: bool,
    is_cross_mark: bool,
    reactor_roles: &Vec<u64>,
    support_team_role: u64,
) -> (r: bool)
    ensures
        r == (!by_bot && is_cross_mark && reactor_roles@.contains(support_team_role)),
{
    if by_bot || !is_cross_mark {
        return false;
    }
    let mut i: usize = 0;
    let mut member = false;
    while i < reactor_roles.len()
        invariant
            i <= reactor_roles@.len(),
            member == (exists|j: int| 0 <= j < i && reactor_roles@[j] == support_team_role),
        decreases reactor_roles@.len() - i,
    {
        if reactor_roles[i] == support_team_role {
            member = true;
        }
        i = i + 1;
    }
    member
}

/// Whether a message is the bot's request to close its ticket: written by the bot, and
/// opening with the words of that request.
pub fn is_close_request(message_text: &str, message_by_bot: bool) -> (r: bool)
    ensures
        r == (has_prefix(message_text@, close_request_opening()) && message_by_bot),
{
    starts_with_text(message_text, "Thank you for your ticket with Shalom Support")
        && message_by_bot
}

/// One line of a ticket's log: `[<time>] <author>: <text>`.
pub open spec fn log_line_spec(time: Seq<char>, author: Seq<char>, text: Seq<char>) -> Seq<char> {
    seq!['['] + time + seq![']', ' '] + author + seq![':', ' '] + text
}

/// The log of a ticket from its lines, newest first: the lines oldest first, one per line.
pub open spec fn log_spec(newest_first: Seq<Seq<char>>) -> Seq<char>
    decreases newest_first.len(),
{
    if newest_first.len() == 0 {
        seq![]
    } else if newest_first.len() == 1 {
        newest_first[0]
    } else {
        newest_first.last() + seq!['\n'] + log_spec(newest_first.drop_last())
    }
}

/// One line of a ticket's log: `[<time>] <author>: <text>`.
pub fn log_line(time: &str, author: &str, text: &str) -> (r: String)
    ensures
        r@ == log_line_spec(time@, author@, text@),
{
    let mut line = String::from_str("[");
    line.append(time);
    line.append("] ");
    line.append(author);
    line.append(": ");
    line.append(text);
    proof {
        reveal_strlit("[");
        reveal_strlit("] ");
        reveal_strlit(": ");
        assert(line@ =~= log_line_spec(time@, author@, text@));
    }
    line
}

/// The log of a ticket from its lines as a channel hands them out, newest first: the lines
/// oldest first, joined by line breaks.
pub fn ticket_log(newest_first: &Vec<String>) -> (r: String)
    ensures
        r@ == log_spec(newest_first@.map_values(|l: String| l@)),
{
    let ghost views = newest_first@.map_values(|l: String| l@);
    let mut log = String::new();
    let mut k: usize = 0;
    while k < newest_first.len()
        invariant
            views == newest_first@.map_values(|l: String| l@),
            k <= newest_first@.len(),
            log@ == log_spec(views.take(k as int)),
        decreases newest_first@.len() - k,
    {
        let mut line = String::from_str(newest_first[k].as_str());
        if k > 0 {
            line.append("\n");
        }
        line.append(log.as_str());
        proof {
            reveal_strlit("\n");
            let t = views.take(k as int + 1);
            assert(t.drop_last() =~= views.take(k as int));
            assert(t.last() == newest_first@[k as int]@);
            assert(line@ =~= log_spec(t));
        }
        log = line;
        k = k + 1;
    }
    assert(views.take(k as int) =~= views);
    log
}

} // verus!
