//! The chat side of a custom bot: which messages are commands for it, the
//! account name it logs in with, and how long it waits before joining a
//! room again.
use vstd::prelude::*;
use crate::text::{
    find_char, lemma_find_char, lemma_replace_absent, lemma_replace_prefix, append_chars, chars_of, replace_all, replace_chars, split_once, split_once_chars, string_of,
    sub_chars,
};
use crate::cbot::{call_spec, CallAction, CallActionView, CustomBot};

verus! {

/// A custom bot as it listens in chat rooms.
#[derive(Clone, Debug)]
pub struct CommandBot {
    pub custombot: CustomBot,
}

pub open spec fn rest_or_empty(rest: Option<Seq<char>>) -> Seq<char> {
    match rest {
        Some(r) => r,
        None => Seq::<char>::empty(),
    }
}

/// What a message `task rest` comes to for the bot named `name`: where
/// `task` is its name, the first word of `rest` names the command and the
/// remainder is the command's argument text; otherwise nothing (an empty
/// answer).
pub open spec fn check_cb_spec(
    name: Seq<char>,
    commands: Seq<crate::cbot::Cmd>,
    task: Seq<char>,
    rest: Seq<char>,
    user: Seq<char>,
) -> CallActionView {
    if name == task {
        let (command, args) = split_once(rest, ' ');
        call_spec(commands, command, rest_or_empty(args), user)
    } else {
        CallActionView::Reply(Seq::<char>::empty())
    }
}

/// What a chat message comes to: only a message of at least two characters
/// that starts with `!` is read, as the bot's name, a space, and the rest;
/// any other message is no command and gets an empty answer.
pub open spec fn process_msg_spec(
    name: Seq<char>,
    commands: Seq<crate::cbot::Cmd>,
    msg: Seq<char>,
    user: Seq<char>,
) -> CallActionView {
    if msg.len() < 2 || msg[0] != '!' {
        CallActionView::Reply(Seq::<char>::empty())
    } else {
        let (task, rest) = split_once(msg.skip(1), ' ');
        check_cb_spec(name, commands, task, rest_or_empty(rest), user)
    }
}

/// What a chat message from `sender` comes to for a bot whose own account
/// name is `own_name`: its own messages get an empty answer.
pub open spec fn respond_spec(
    name: Seq<char>,
    commands: Seq<crate::cbot::Cmd>,
    msg: Seq<char>,
    sender: Seq<char>,
    own_name: Seq<char>,
) -> CallActionView {
    if sender == own_name {
        CallActionView::Reply(Seq::<char>::empty())
    } else {
        process_msg_spec(name, commands, msg, sender)
    }
}

/// A message from someone other than the bot is answered as `process_msg`
/// answers it for that sender (so a command that needs the user's name gets
/// the sender's); the bot's own messages get an empty answer.
pub proof fn lemma_respond(
    name: Seq<char>,
    commands: Seq<crate::cbot::Cmd>,
    msg: Seq<char>,
    sender: Seq<char>,
    own_name: Seq<char>,
)
    ensures
        sender != own_name ==> respond_spec(name, commands, msg, sender, own_name)
            == process_msg_spec(name, commands, msg, sender),
        sender == own_name ==> respond_spec(name, commands, msg, sender, own_name)
            == CallActionView::Reply(Seq::<char>::empty()),
{
}

/// A message addressed to another bot gets an empty answer; one addressed
/// to this bot calls the command named by the first word of the rest, with
/// what follows the first space as its argument text.
pub proof fn lemma_check_cb_addressing(
    name: Seq<char>,
    commands: Seq<crate::cbot::Cmd>,
    task: Seq<char>,
    rest: Seq<char>,
    user: Seq<char>,
)
    ensures
        name != task ==> check_cb_spec(name, commands, task, rest, user) == CallActionView::Reply(
            Seq::<char>::empty(),
        ),
        name == task ==> check_cb_spec(name, commands, task, rest, user) == call_spec(
            commands,
            split_once(rest, ' ').0,
            rest_or_empty(split_once(rest, ' ').1),
            user,
        ),
{
}

/// A message `!task rest`, where `task` holds no space, is read with `task`
/// as the bot's name and `rest` as the rest.
pub proof fn lemma_process_msg_reads(
    name: Seq<char>,
    commands: Seq<crate::cbot::Cmd>,
    task: Seq<char>,
    rest: Seq<char>,
    user: Seq<char>,
)
    requires
        !task.contains(' '),
    ensures
        process_msg_spec(name, commands, seq!['!'] + task + seq![' '] + rest, user)
            == check_cb_spec(name, commands, task, rest, user),
{
    let msg = seq!['!'] + task + seq![' '] + rest;
    let body = msg.skip(1);
    assert(body =~= task + seq![' '] + rest);
    let k = task.len() as int;
    assert(body[k] == ' ');
    lemma_find_char(body, ' ');
    match find_char(body, ' ') {
        Some(i) => {
            if i < k {
                assert(body[i] == task[i]);
                assert(task.contains(' '));
            }
            assert(i == k);
            assert(body.take(k) =~= task);
            assert(body.skip(k + 1) =~= rest);
        },
        None => {
            assert(false);
        },
    }
}

/// The text to send for an answer: none where the answer is empty.
pub fn message_to_send(answer: String) -> (r: Option<String>)
    ensures
        answer@.len() == 0 ==> r is None,
        answer@.len() > 0 ==> r == Some(answer),
{
    if answer.as_str().is_empty() {
        None
    } else {
        Some(answer)
    }
}

/// The Matrix user id of account `username` on `homeserver`: the server's
/// address with `https://matrix.` taken out.
pub open spec fn matrix_user_id_spec(username: Seq<char>, homeserver: Seq<char>) -> Seq<char> {
    seq!['@'] + username + seq![':'] + replace_all(homeserver, "https://matrix."@, Seq::<char>::empty())
}

/// A user id is `@`, the account name, `:`, and then the server's address;
/// an address `https://matrix.` followed by a host in which that prefix does
/// not occur again gives the host alone, and an address in which it does not
/// occur is kept whole.
pub proof fn lemma_matrix_user_id(username: Seq<char>, homeserver: Seq<char>)
    ensures
        matrix_user_id_spec(username, homeserver).take(username.len() + 2int) == seq!['@'] + username
            + seq![':'],
        (forall|i: int|
            0 <= i && i + 15 <= homeserver.len() ==> #[trigger] homeserver.subrange(i, i + 15)
                != "https://matrix."@) ==> matrix_user_id_spec(username, homeserver) == seq!['@']
            + username + seq![':'] + homeserver,
        (forall|i: int|
            0 <= i && i + 15 <= homeserver.len() ==> #[trigger] homeserver.subrange(i, i + 15)
                != "https://matrix."@) ==> matrix_user_id_spec(
            username,
            "https://matrix."@ + homeserver,
        ) == seq!['@'] + username + seq![':'] + homeserver,
{
    reveal_strlit("https://matrix.");
    let pat = "https://matrix."@;
    let e = Seq::<char>::empty();
    let head = seq!['@'] + username + seq![':'];
    assert(matrix_user_id_spec(username, homeserver).take(username.len() + 2int) =~= head);
    if forall|i: int|
        0 <= i && i + 15 <= homeserver.len() ==> #[trigger] homeserver.subrange(i, i + 15) != pat {
        lemma_replace_absent(homeserver, pat, e);
        lemma_replace_prefix(pat, homeserver, e);
        assert(e + homeserver =~= homeserver);
    }
}

/// The delay before the first new attempt to join a room, in seconds.
pub const JOIN_FIRST_DELAY: u64 = 2;

/// The longest delay between attempts to join a room, in seconds.
pub const JOIN_MAX_DELAY: u64 = 3600;

impl CommandBot {
    pub open spec fn name_view(&self) -> Seq<char> {
        self.custombot.name@
    }

    pub open spec fn commands_view(&self) -> Seq<crate::cbot::Cmd> {
        self.custombot.commands@
    }

    /// What the message `task rest` comes to for this bot.
    pub fn check_cb(&self, task: String, rest: String, user: String) -> (r: CallAction)
        ensures
            r.view_of() == check_cb_spec(self.name_view(), self.commands_view(), task@, rest@, user@),
    {
        if self.custombot.name == task {
            let chars = chars_of(rest.as_str());
            let (command, args) = split_once_chars(&chars, ' ');
            let args = match args {
                Some(a) => a,
                None => Vec::new(),
            };
            assert(args@ == rest_or_empty(split_once(rest@, ' ').1));
            self.custombot.callCommand(string_of(&command), string_of(&args), user)
        } else {
            CallAction::Reply(String::new())
        }
    }

    /// What the chat message `msg_body` from `sender` comes to, for this bot
    /// logged in as `own_name`.
    pub fn respond(&self, msg_body: String, sender: String, own_name: &String) -> (r: CallAction)
        ensures
            r.view_of() == respond_spec(
                self.name_view(),
                self.commands_view(),
                msg_body@,
                sender@,
                own_name@,
            ),
    {
        if sender == *own_name {
            CallAction::Reply(String::new())
        } else {
            self.process_msg(msg_body, sender)
        }
    }

    /// What the chat message `msg_body` from `user` comes to; an empty answer
    /// means that the message was not for this bot.
    pub fn process_msg(&self, msg_body: String, user: String) -> (r: CallAction)
        ensures
            r.view_of() == process_msg_spec(self.name_view(), self.commands_view(), msg_body@, user@),
            msg_body@.len() == 0 || msg_body@[0] != '!' ==> r.view_of() == CallActionView::Reply(
                Seq::<char>::empty(),
            ),
    {
        let chars = chars_of(msg_body.as_str());
        if chars.len() < 2 {
            return CallAction::Reply(String::new());
        }
        let first = chars[0];
        if first != '!' {
            return CallAction::Reply(String::new());
        }
        let body = sub_chars(&chars, 1, chars.len());
        assert(body@ =~= msg_body@.skip(1));
        let (task, rest) = split_once_chars(&body, ' ');
        let rest = match rest {
            Some(r) => r,
            None => Vec::new(),
        };
        assert(rest@ == rest_or_empty(split_once(msg_body@.skip(1), ' ').1));
        self.check_cb(string_of(&task), string_of(&rest), user)
    }
}

/// The Matrix user id of account `username` on `homeserver`.
pub fn matrix_user_id(username: &str, homeserver: &str) -> (r: String)
    ensures
        r@ == matrix_user_id_spec(username@, homeserver@),
{
    let mut out: Vec<char> = Vec::new();
    out.push('@');
    append_chars(&mut out, &chars_of(username));
    out.push(':');
    let pat = chars_of("https://matrix.");
    assert(pat@.len() > 0) by {
        reveal_strlit("https://matrix.");
    }
    let host = replace_chars(&chars_of(homeserver), &pat, &Vec::new());
    append_chars(&mut out, &host);
    assert(out@ =~= matrix_user_id_spec(username@, homeserver@));
    string_of(&out)
}

/// The delay before the next attempt to join a room, after an attempt that
/// followed a delay of `delay` seconds failed: twice as long, or `None` (give
/// up) once that would pass `JOIN_MAX_DELAY`.
pub fn next_join_delay(delay: u64) -> (r: Option<u64>)
    requires
        delay <= u64::MAX / 2,
    ensures
        2 * delay > JOIN_MAX_DELAY ==> r is None,
        2 * delay <= JOIN_MAX_DELAY ==> r == Some((2 * delay) as u64),
{
    let next = delay * 2;
    if next > JOIN_MAX_DELAY {
        None
    } else {
        Some(next)
    }
}

} // verus!
