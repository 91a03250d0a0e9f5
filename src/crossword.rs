use vstd::prelude::*;

verus! {

/// Whether `needle` occurs in `hay` as a run of consecutive characters.
pub open spec fn occurs_in(hay: Seq<char>, needle: Seq<char>) -> bool {
    exists|i: int|
        0 <= i && i + needle.len() <= hay.len() && #[trigger] hay.subrange(i, i + needle.len())
            == needle
}

/// Relies on `str::contains` with a `&str` pattern: whether `needle` occurs in `hay`.
#[verifier::external_body]
fn text_contains(hay: &str, needle: &str) -> (r: bool)
    ensures
        r == occurs_in(hay@, needle@),
{
    hay.contains(needle)
}

/// The address of the mini crossword, which every crossword post links to.
pub fn mini_link() -> (r: &'static str)
    ensures
        r@ == mini_link_spec(),
{
    "https://www.nytimes.com/crosswords/game/mini"
}

/// The address of the mini crossword.
pub open spec fn mini_link_spec() -> Seq<char> {
    "https://www.nytimes.com/crosswords/game/mini"@
}

/// Whether a message with text `content` and embeds with descriptions `descriptions` is a
/// crossword post: the link to the mini crossword stands in its text or in a description.
pub fn message_is_crossword_post(content: &str, descriptions: &Vec<Option<String>>) -> (r: bool)
    ensures
        r == (occurs_in(content@, mini_link_spec()) || exists|k: int|
            0 <= k < descriptions@.len() && (#[trigger] descriptions@[k] matches Some(d)
                && occurs_in(d@, mini_link_spec()))),
{
    if text_contains(content, mini_link()) {
        return true;
    }
    let mut k: usize = 0;
    while k < descriptions.len()
        invariant
            k <= descriptions@.len(),
            forall|x: int|
                0 <= x < k ==> !(#[trigger] descriptions@[x] matches Some(d) && occurs_in(
                    d@,
                    mini_link_spec(),
                )),
        decreases descriptions@.len() - k,
    {
        match &descriptions[k] {
            Some(d) => {
                if text_contains(d.as_str(), mini_link()) {
                    return true;
                }
            },
            None => {},
        }
        k = k + 1;
    }
    false
}

/// What a scan of the crossword channel, newest message first, does after one message.
#[derive(PartialEq, Eq, Structural, Debug, Clone, Copy)]
pub enum ScanStep {
    /// The puzzle was posted already: stop.
    Sent,
    /// The scan reached messages older than the puzzle: it was not posted. Stop.
    NotSent,
    /// Look at the next message.
    KeepLooking,
}

/// What the crossword watcher remembers between polls: the date of the last puzzle it knows
/// to be posted.
#[derive(PartialEq, Eq, Structural, Debug, Clone, Copy)]
pub struct CrosswordWatcher {
    pub last_posted_puzzle: Option<i32>,
}

impl CrosswordWatcher {
    /// A watcher that knows of no posted puzzle.
    pub fn new() -> (r: CrosswordWatcher)
        ensures
            r.last_posted_puzzle is None,
    {
        CrosswordWatcher { last_posted_puzzle: None }
    }

    /// Whether the puzzle of `date` is known to be posted, so that no scan is needed.
    pub fn known_sent(&self, date: i32) -> (r: bool)
        ensures
            r == (self.last_posted_puzzle == Some(date)),
    {
        match self.last_posted_puzzle {
            Some(d) => d == date,
            None => false,
        }
    }

    /// Reads one message of the scan for the puzzle of `date`: a message of an earlier
    /// puzzle date ends the scan unposted; a crossword post ends it posted, and its puzzle
    /// date is remembered.
    pub fn scan_message(&mut self, date: i32, message_date: i32, is_post: bool) -> (r: ScanStep)
        ensures
            message_date < date ==> r == ScanStep::NotSent && *final(self) == *old(self),
            message_date >= date && is_post ==> r == ScanStep::Sent
                && final(self).last_posted_puzzle == Some(message_date),
            message_date >= date && !is_post ==> r == ScanStep::KeepLooking && *final(self)
                == *old(self),
    {
        if message_date < date {
            ScanStep::NotSent
        } else if is_post {
            self.last_posted_puzzle = Some(message_date);
            ScanStep::Sent
        } else {
            ScanStep::KeepLooking
        }
    }
}

} // verus!
