//! The admin bot: a list of trusted users, and the commands that they may
//! give (reboot the machine, control the TeamSpeak 3 server).
use vstd::prelude::*;
use crate::text::{
    chars_eq, chars_of, split_chars, split_on, split_once, split_once_chars, string_of,
    string_views, char_vec_views, join_with, lemma_join_split, find_char, lemma_find_char, lemma_split_once,
};
use crate::shell::ShellCommand;

verus! {

/// The users that may give admin commands.
#[derive(Clone, Debug)]
pub struct AdminBot {
    pub users: Vec<String>,
}

/// What an admin message asks for.
#[derive(Clone, Debug, PartialEq, Eq)]
pub enum AdminAction {
    /// Answer with this text.
    Reply(String),
    /// Reboot the machine (see `AdminBot::reboot_command`).
    Reboot,
    /// Run the TeamSpeak 3 start script with this argument (see
    /// `AdminBot::ts3_command`).
    Ts3(String),
}

/// `AdminAction` with its texts as character sequences.
pub enum AdminActionView {
    Reply(Seq<char>),
    Reboot,
    Ts3(Seq<char>),
}

impl AdminAction {
    pub open spec fn view_of(self) -> AdminActionView {
        match self {
            AdminAction::Reply(s) => AdminActionView::Reply(s@),
            AdminAction::Reboot => AdminActionView::Reboot,
            AdminAction::Ts3(s) => AdminActionView::Ts3(s@),
        }
    }
}

/// The answer to a user who is not on the list.
pub open spec fn not_allowed_text() -> Seq<char> {
    "Not allowed 😠"@
}

/// What an admin message from `user` asks for: anyone off the list is
/// refused; otherwise the first word is the command and the rest, after the
/// first space, its argument.
pub open spec fn admin_spec(users: Seq<Seq<char>>, message: Seq<char>, user: Seq<char>) -> AdminActionView {
    if !users.contains(user) {
        AdminActionView::Reply(not_allowed_text())
    } else {
        let keyword = split_once(message, ' ').0;
        let rest = match split_once(message, ' ').1 {
            Some(r) => r,
            None => Seq::<char>::empty(),
        };
        if keyword == "reboot"@ {
            AdminActionView::Reboot
        } else if keyword == "ts3"@ {
            if rest == "restart"@ || rest == "status"@ || rest == "start"@ {
                AdminActionView::Ts3(rest)
            } else {
                AdminActionView::Reply("unknown ts3-command"@)
            }
        } else {
            AdminActionView::Reply("command unknown"@)
        }
    }
}

/// The answer once a reboot was asked of the shell: whether the command
/// could be started.
pub open spec fn reboot_reply_spec(started: bool) -> Seq<char> {
    if started {
        "rebooting in 5 Seconds"@
    } else {
        "rebooting didn't work..."@
    }
}

/// Every listed user gets the same answer to the same message: who sent it
/// matters only for whether they are listed.
pub proof fn lemma_admin_same_for_listed_users(
    users: Seq<Seq<char>>,
    message: Seq<char>,
    u1: Seq<char>,
    u2: Seq<char>,
)
    requires
        users.contains(u1),
        users.contains(u2),
    ensures
        admin_spec(users, message, u1) == admin_spec(users, message, u2),
{
}

/// A listed user is never refused: whatever the message, the answer is not
/// the refusal.
pub proof fn lemma_listed_user_not_refused(users: Seq<Seq<char>>, message: Seq<char>, user: Seq<char>)
    requires
        users.contains(user),
    ensures
        admin_spec(users, message, user) != AdminActionView::Reply(not_allowed_text()),
{
    reveal_strlit("Not allowed 😠");
    reveal_strlit("unknown ts3-command");
    reveal_strlit("command unknown");
    assert("Not allowed 😠"@.len() != "unknown ts3-command"@.len());
    assert("Not allowed 😠"@.len() != "command unknown"@.len());
}

/// What a listed user's message asks for does not depend on who else is on
/// the list, nor on how long it is.
pub proof fn lemma_admin_independent_of_list(
    users1: Seq<Seq<char>>,
    users2: Seq<Seq<char>>,
    message: Seq<char>,
    user: Seq<char>,
)
    requires
        users1.contains(user),
        users2.contains(user),
    ensures
        admin_spec(users1, message, user) == admin_spec(users2, message, user),
{
}

/// A listed user whose message's first word is `reboot` gets the reboot,
/// whatever follows.
pub proof fn lemma_listed_user_reboots(users: Seq<Seq<char>>, rest: Seq<char>, user: Seq<char>)
    requires
        users.contains(user),
    ensures
        admin_spec(users, "reboot"@, user) == AdminActionView::Reboot,
        admin_spec(users, "reboot"@.push(' ') + rest, user) == AdminActionView::Reboot,
{
    reveal_strlit("reboot");
    let r = "reboot"@;
    lemma_find_char(r, ' ');
    assert(find_char(r, ' ') is None) by {
        if find_char(r, ' ') is Some {
            let i = find_char(r, ' ')->0;
            assert(r[i] == ' ');
        }
    }
    let m = r.push(' ') + rest;
    lemma_find_char(m, ' ');
    assert(m[6] == ' ');
    match find_char(m, ' ') {
        Some(i) => {
            if i < 6 {
                assert(m[i] == r[i]);
            }
            if i > 6 {
                assert(m[6] != ' ');
            }
            assert(m.take(6) =~= r);
        },
        None => {
            assert(m[6] != ' ');
        },
    }
}

/// A listed user's `ts3 arg` runs the TeamSpeak script with `arg` exactly
/// where `arg` is `restart`, `status` or `start`, and is otherwise answered
/// "unknown ts3-command"; a message whose first word is neither `reboot` nor
/// `ts3` is answered "command unknown".
pub proof fn lemma_listed_user_ts3(users: Seq<Seq<char>>, arg: Seq<char>, word: Seq<char>, rest: Seq<char>, user: Seq<char>)
    requires
        users.contains(user),
    ensures
        (arg == "restart"@ || arg == "status"@ || arg == "start"@) ==> admin_spec(
            users,
            "ts3"@.push(' ') + arg,
            user,
        ) == AdminActionView::Ts3(arg),
        !(arg == "restart"@ || arg == "status"@ || arg == "start"@) ==> admin_spec(
            users,
            "ts3"@.push(' ') + arg,
            user,
        ) == AdminActionView::Reply("unknown ts3-command"@),
        (!word.contains(' ') && word != "reboot"@ && word != "ts3"@) ==> admin_spec(
            users,
            word.push(' ') + rest,
            user,
        ) == AdminActionView::Reply("command unknown"@),
{
    reveal_strlit("ts3");
    assert(!"ts3"@.contains(' ')) by {
        if "ts3"@.contains(' ') {
            let j = choose|j: int| 0 <= j < 3 && "ts3"@[j] == ' ';
            assert("ts3"@[j] == ' ');
        }
    }
    reveal_strlit("reboot");
    assert("ts3"@ != "reboot"@) by {
        assert("ts3"@.len() != "reboot"@.len());
    }
    lemma_split_once("ts3"@, arg, ' ');
    lemma_split_once(word, rest, ' ');
}

/// A bot made from a `;`-separated list obeys exactly the names on it, and
/// joining its users with `;` gives the list back.
pub proof fn lemma_admin_users_from_list(users: Seq<char>, message: Seq<char>, user: Seq<char>)
    ensures
        join_with(split_on(users, ';'), ';') == users,
        (admin_spec(split_on(users, ';'), message, user) == AdminActionView::Reply(
            not_allowed_text(),
        )) <== !split_on(users, ';').contains(user),
{
    lemma_join_split(users, ';');
}

impl AdminBot {
    pub open spec fn user_names(&self) -> Seq<Seq<char>> {
        string_views(self.users@)
    }

    /// The bot for the users named in `users`, separated by `;`.
    pub fn new(users: String) -> (r: AdminBot)
        ensures
            r.user_names() == split_on(users@, ';'),
    {
        let chars = chars_of(users.as_str());
        let pieces = split_chars(&chars, ';');
        let mut names: Vec<String> = Vec::new();
        let mut i: usize = 0;
        while i < pieces.len()
            invariant
                i <= pieces.len(),
                names@.len() == i,
                string_views(names@) == char_vec_views(pieces@).take(i as int),
            decreases pieces.len() - i,
        {
            let name = string_of(&pieces[i]);
            let ghost before = names@;
            names.push(name);
            assert(names@ == before.push(name));
            assert(char_vec_views(pieces@).len() == pieces@.len());
            assert(char_vec_views(pieces@)[i as int] == pieces@[i as int]@);
            assert(string_views(names@)[i as int] == name@);
            i = i + 1;
            assert(string_views(names@) =~= char_vec_views(pieces@).take(i as int));
        }
        assert(char_vec_views(pieces@).take(pieces.len() as int) =~= char_vec_views(pieces@));
        AdminBot { users: names }
    }

    /// Whether `user` is on the list.
    pub fn is_user(&self, user: &String) -> (r: bool)
        ensures
            r == self.user_names().contains(user@),
    {
        let mut i: usize = 0;
        while i < self.users.len()
            invariant
                i <= self.users.len(),
                forall|j: int| 0 <= j < i ==> self.user_names()[j] != user@,
            decreases self.users.len() - i,
        {
            if self.users[i] == *user {
                assert(self.user_names()[i as int] == user@);
                return true;
            }
            i = i + 1;
        }
        false
    }

    /// What the admin message `message` from `user` asks for.
    pub fn admin(&self, message: String, user: String) -> (r: AdminAction)
        ensures
            r.view_of() == admin_spec(self.user_names(), message@, user@),
            !self.user_names().contains(user@) ==> r.view_of() == AdminActionView::Reply(
                not_allowed_text(),
            ),
    {
        if !self.is_user(&user) {
            return AdminAction::Reply(String::from_str("Not allowed 😠"));
        }
        let chars = chars_of(message.as_str());
        let (keyword, rest_opt) = split_once_chars(&chars, ' ');
        let rest = match rest_opt {
            Some(r) => r,
            None => Vec::new(),
        };
        assert(rest@ == match split_once(message@, ' ').1 {
            Some(r) => r,
            None => Seq::<char>::empty(),
        });
        if chars_eq(&keyword, &chars_of("reboot")) {
            AdminAction::Reboot
        } else if chars_eq(&keyword, &chars_of("ts3")) {
            if chars_eq(&rest, &chars_of("restart")) || chars_eq(&rest, &chars_of("status"))
                || chars_eq(&rest, &chars_of("start")) {
                AdminAction::Ts3(string_of(&rest))
            } else {
                AdminAction::Reply(String::from_str("unknown ts3-command"))
            }
        } else {
            AdminAction::Reply(String::from_str("command unknown"))
        }
    }

    /// The shell command that reboots the machine in five seconds.
    pub fn reboot_command(&self) -> (r: ShellCommand)
        ensures
            r.program_view() == "sudo"@,
            r.args_view() == seq!["shutdown"@, "-r"@, "-t"@, "sec"@, "5"@],
    {
        let mut args: Vec<String> = Vec::new();
        args.push(String::from_str("shutdown"));
        args.push(String::from_str("-r"));
        args.push(String::from_str("-t"));
        args.push(String::from_str("sec"));
        args.push(String::from_str("5"));
        let r = ShellCommand { program: String::from_str("sudo"), args };
        assert(r.args_view() =~= seq!["shutdown"@, "-r"@, "-t"@, "sec"@, "5"@]);
        r
    }

    /// The shell command that runs the TeamSpeak 3 start script, as user
    /// `ts3`, with `arg`.
    pub fn ts3_command(&self, arg: &str) -> (r: ShellCommand)
        ensures
            r.program_view() == "sudo"@,
            r.args_view() == seq![
                "-u"@,
                "ts3"@,
                "/home/ts3/teamspeak3-server_linux_amd64/ts3server_startscript.sh"@,
                arg@,
            ],
    {
        let mut args: Vec<String> = Vec::new();
        args.push(String::from_str("-u"));
        args.push(String::from_str("ts3"));
        args.push(String::from_str("/home/ts3/teamspeak3-server_linux_amd64/ts3server_startscript.sh"));
        args.push(String::from_str(arg));
        let r = ShellCommand { program: String::from_str("sudo"), args };
        assert(r.args_view() =~= seq![
            "-u"@,
            "ts3"@,
            "/home/ts3/teamspeak3-server_linux_amd64/ts3server_startscript.sh"@,
            arg@,
        ]);
        r
    }

    /// The answer to a reboot, given whether its command could be started.
    pub fn reboot_reply(started: bool) -> (r: String)
        ensures
            r@ == reboot_reply_spec(started),
    {
        if started {
            String::from_str("rebooting in 5 Seconds")
        } else {
            String::from_str("rebooting didn't work...")
        }
    }
}

} // verus!
