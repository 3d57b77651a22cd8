//! Custom bots: named shell commands that users may call with arguments.
use vstd::prelude::*;
use crate::text::{
    chars_of, splitn, splitn_chars, string_of, string_views, char_vec_views, join_with,
    lemma_splitn,
};
use crate::shell::ShellCommand;

verus! {

/// A command that a custom bot offers.
#[derive(Clone, Debug)]
pub struct Cmd {
    /// The name by which users call it.
    pub name: String,
    /// Whether it runs through `sudo`.
    pub sudo: bool,
    /// The program to run.
    pub executable: String,
    /// Whether the calling user's name is passed as an argument.
    pub need_user: bool,
    /// The number of arguments taken from the user's argument text: it is
    /// split at spaces into this many pieces, the last keeping the rest of
    /// the text with its spaces (none are taken where it is 0).
    pub param_count: usize,
}

/// A custom bot: its name and its commands.
#[derive(Clone, Debug)]
pub struct CustomBot {
    pub name: String,
    pub commands: Vec<Cmd>,
}

/// What a call of a command comes to: a text to answer with, or a shell
/// command to run (whose output is then the answer).
#[derive(Clone, Debug, PartialEq, Eq)]
pub enum CallAction {
    Reply(String),
    Run(ShellCommand),
}

/// `CallAction` with its texts as character sequences.
pub enum CallActionView {
    Reply(Seq<char>),
    Run(Seq<char>, Seq<Seq<char>>),
}

impl CallAction {
    pub open spec fn view_of(self) -> CallActionView {
        match self {
            CallAction::Reply(s) => CallActionView::Reply(s@),
            CallAction::Run(c) => CallActionView::Run(c.program_view(), c.args_view()),
        }
    }
}

/// The index of the first command named `name`, if there is one.
pub open spec fn first_cmd_index(cmds: Seq<Cmd>, name: Seq<char>) -> Option<int>
    decreases cmds.len(),
{
    if cmds.len() == 0 {
        None
    } else if cmds[0].name@ == name {
        Some(0)
    } else {
        match first_cmd_index(cmds.drop_first(), name) {
            Some(i) => Some(i + 1),
            None => None,
        }
    }
}

/// What calling command `cmd` with the argument text `args` from `user`
/// comes to: its program, with `executable` first where it runs through `sudo`,
/// then the user's name where it needs one, then the `param_count` pieces
/// of `args` split at spaces (the last keeping the rest of the text); where
/// `args` splits into fewer pieces, it is refused.
pub open spec fn run_spec(cmd: Cmd, args: Seq<char>, user: Seq<char>) -> CallActionView {
    let program = if cmd.sudo {
        "sudo"@
    } else {
        cmd.executable@
    };
    let fixed = (if cmd.sudo {
        seq![cmd.executable@]
    } else {
        Seq::<Seq<char>>::empty()
    }) + (if cmd.need_user {
        seq![user]
    } else {
        Seq::<Seq<char>>::empty()
    });
    if cmd.param_count == 0 {
        CallActionView::Run(program, fixed)
    } else {
        let pieces = splitn(args, cmd.param_count as nat, ' ');
        if pieces.len() < cmd.param_count {
            CallActionView::Reply("insuffient arguments supplied"@)
        } else {
            CallActionView::Run(program, fixed + pieces)
        }
    }
}

/// What calling the command `name` of a bot with `commands` comes to.
pub open spec fn call_spec(commands: Seq<Cmd>, name: Seq<char>, args: Seq<char>, user: Seq<char>) -> CallActionView {
    match first_cmd_index(commands, name) {
        None => CallActionView::Reply("command unknown"@),
        Some(i) => run_spec(commands[i], args, user),
    }
}

pub proof fn lemma_first_cmd_index(cmds: Seq<Cmd>, name: Seq<char>)
    ensures
        match first_cmd_index(cmds, name) {
            Some(i) => 0 <= i < cmds.len() && cmds[i].name@ == name && forall|j: int|
                0 <= j < i ==> (#[trigger] cmds[j]).name@ != name,
            None => forall|j: int| 0 <= j < cmds.len() ==> (#[trigger] cmds[j]).name@ != name,
        },
    decreases cmds.len(),
{
    if cmds.len() > 0 && cmds[0].name@ != name {
        lemma_first_cmd_index(cmds.drop_first(), name);
        match first_cmd_index(cmds.drop_first(), name) {
            Some(i) => {
                assert forall|j: int| 0 <= j < i + 1 implies (#[trigger] cmds[j]).name@ != name by {
                    if j > 0 {
                        assert(cmds[j] == cmds.drop_first()[j - 1]);
                    }
                }
            },
            None => {
                assert forall|j: int| 0 <= j < cmds.len() implies (#[trigger] cmds[j]).name@
                    != name by {
                    if j > 0 {
                        assert(cmds[j] == cmds.drop_first()[j - 1]);
                    }
                }
            },
        }
    }
}

/// A command is run with, in this order, its program (where it runs through
/// `sudo`), the user's name (where it needs one), and exactly `param_count`
/// pieces of the user's argument text: none but the last holds a space, and
/// joined with spaces they give the argument text back.
pub proof fn lemma_run_arguments(cmd: Cmd, args: Seq<char>, user: Seq<char>)
    ensures
        run_spec(cmd, args, user) matches CallActionView::Run(_, argv) ==> {
            let fixed = (if cmd.sudo {
                1int
            } else {
                0int
            }) + (if cmd.need_user {
                1int
            } else {
                0int
            });
            &&& argv.len() == fixed + cmd.param_count
            &&& forall|k: int| fixed <= k < argv.len() - 1 ==> !(#[trigger] argv[k]).contains(' ')
            &&& cmd.param_count > 0 ==> join_with(argv.skip(fixed), ' ') == args
        },
{
    let n = cmd.param_count as nat;
    lemma_splitn(args, n, ' ');
    let fixed = (if cmd.sudo {
        seq![cmd.executable@]
    } else {
        Seq::<Seq<char>>::empty()
    }) + (if cmd.need_user {
        seq![user]
    } else {
        Seq::<Seq<char>>::empty()
    });
    if cmd.param_count > 0 {
        let pieces = splitn(args, n, ' ');
        if pieces.len() >= cmd.param_count {
            let argv = fixed + pieces;
            assert(argv.skip(fixed.len() as int) =~= pieces);
            assert forall|k: int| fixed.len() <= k < argv.len() - 1 implies !(
            #[trigger] argv[k]).contains(' ') by {
                assert(argv[k] == pieces[k - fixed.len()]);
            }
        }
    } else {
        assert(fixed + Seq::<Seq<char>>::empty() =~= fixed);
    }
}

/// The program that a command runs is `sudo` exactly where the command is
/// set to run through `sudo`, with its executable as first argument, and
/// its executable otherwise; the user's name follows where the command needs
/// it; whether the user's name is passed has no bearing on the program.
/// A command is refused only where its argument text has too few pieces.
pub proof fn lemma_run_program(cmd: Cmd, args: Seq<char>, user: Seq<char>)
    ensures
        run_spec(cmd, args, user) matches CallActionView::Run(program, argv) ==> {
            &&& cmd.sudo ==> program == "sudo"@ && argv.len() >= 1 && argv[0] == cmd.executable@
            &&& !cmd.sudo ==> program == cmd.executable@
            &&& cmd.need_user ==> argv.len() > (if cmd.sudo {
                1int
            } else {
                0int
            }) && argv[if cmd.sudo {
                1int
            } else {
                0int
            }] == user
        },
        run_spec(cmd, args, user) matches CallActionView::Reply(text) ==> {
            &&& text == "insuffient arguments supplied"@
            &&& cmd.param_count > 0
            &&& splitn(args, cmd.param_count as nat, ' ').len() < cmd.param_count
        },
        cmd.param_count == 0 ==> run_spec(cmd, args, user) is Run,
        run_spec(cmd.with_need_user(!cmd.need_user), args, user) matches CallActionView::Run(
            p2,
            _,
        ) ==> run_spec(cmd, args, user) matches CallActionView::Run(p1, _) && p1 == p2,
{
}

/// What calling a bot's command comes to: "command unknown" exactly where no
/// command has the name, and otherwise what the first command of that name
/// comes to.
pub proof fn lemma_call_finds_first(commands: Seq<Cmd>, name: Seq<char>, args: Seq<char>, user: Seq<char>, i: int)
    ensures
        (forall|j: int| 0 <= j < commands.len() ==> (#[trigger] commands[j]).name@ != name)
            ==> call_spec(commands, name, args, user) == CallActionView::Reply("command unknown"@),
        (0 <= i < commands.len() && commands[i].name@ == name && forall|j: int|
            0 <= j < i ==> (#[trigger] commands[j]).name@ != name) ==> call_spec(
            commands,
            name,
            args,
            user,
        ) == run_spec(commands[i], args, user),
{
    lemma_first_cmd_index(commands, name);
    match first_cmd_index(commands, name) {
        Some(k) => {
            if 0 <= i < commands.len() && commands[i].name@ == name && forall|j: int|
                0 <= j < i ==> (#[trigger] commands[j]).name@ != name {
                if k < i {
                    assert(commands[k].name@ != name);
                }
                if i < k {
                    assert(commands[i].name@ != name);
                }
            }
            assert(commands[k].name@ == name);
        },
        None => {},
    }
}

impl Cmd {
    /// The same command with its `need_user` set to `need_user`.
    pub open spec fn with_need_user(self, need_user: bool) -> Cmd {
        Cmd { need_user, ..self }
    }

    /// What calling this command with the argument text `args` from `user`
    /// comes to.
    pub fn run(&self, args: &String, user: &String) -> (r: CallAction)
        ensures
            r.view_of() == run_spec(*self, args@, user@),
    {
        let program = if self.sudo {
            String::from_str("sudo")
        } else {
            self.executable.clone()
        };
        let mut argv: Vec<String> = Vec::new();
        if self.sudo {
            argv.push(self.executable.clone());
        }
        if self.need_user {
            argv.push(user.clone());
        }
        let ghost fixed = string_views(argv@);
        assert(fixed =~= (if self.sudo {
            seq![self.executable@]
        } else {
            Seq::<Seq<char>>::empty()
        }) + (if self.need_user {
            seq![user@]
        } else {
            Seq::<Seq<char>>::empty()
        }));
        if self.param_count > 0 {
            let chars = chars_of(args.as_str());
            let pieces = splitn_chars(&chars, self.param_count, ' ');
            if pieces.len() < self.param_count {
                return CallAction::Reply(String::from_str("insuffient arguments supplied"));
            }
            let mut k: usize = 0;
            while k < pieces.len()
                invariant
                    k <= pieces.len(),
                    char_vec_views(pieces@) == splitn(args@, self.param_count as nat, ' '),
                    argv@.len() == fixed.len() + k,
                    string_views(argv@) == fixed + char_vec_views(pieces@).take(k as int),
                decreases pieces.len() - k,
            {
                let w = string_of(&pieces[k]);
                let ghost before = argv@;
                argv.push(w);
                assert(argv@ == before.push(w));
                assert(string_views(argv@) =~= string_views(before).push(w@));
                assert(char_vec_views(pieces@)[k as int] == pieces@[k as int]@);
                k = k + 1;
                assert(string_views(argv@) =~= fixed + char_vec_views(pieces@).take(k as int));
            }
            assert(char_vec_views(pieces@).take(pieces.len() as int) =~= char_vec_views(pieces@));
        } else {
            assert(fixed + Seq::<Seq<char>>::empty() =~= fixed);
        }
        CallAction::Run(ShellCommand { program, args: argv })
    }
}

impl CustomBot {
    /// The index of the first command named `name`.
    pub fn find_command(&self, name: &String) -> (r: Option<usize>)
        ensures
            match r {
                Some(i) => i < self.commands@.len() && first_cmd_index(self.commands@, name@) == Some(
                    i as int,
                ),
                None => first_cmd_index(self.commands@, name@) is None,
            },
    {
        proof {
            lemma_first_cmd_index(self.commands@, name@);
        }
        let mut i: usize = 0;
        while i < self.commands.len()
            invariant
                i <= self.commands.len(),
                forall|j: int| 0 <= j < i ==> (#[trigger] self.commands@[j]).name@ != name@,
                match first_cmd_index(self.commands@, name@) {
                    Some(k) => 0 <= k < self.commands@.len() && self.commands@[k].name@ == name@
                        && forall|j: int|
                        0 <= j < k ==> (#[trigger] self.commands@[j]).name@ != name@,
                    None => forall|j: int|
                        0 <= j < self.commands@.len() ==> (#[trigger] self.commands@[j]).name@
                            != name@,
                },
            decreases self.commands.len() - i,
        {
            if self.commands[i].name == *name {
                return Some(i);
            }
            i = i + 1;
        }
        None
    }

    /// What calling the command `name` with the argument text `args` from
    /// `user` comes to: "command unknown" where the bot has no such command.
    #[allow(non_snake_case)]
    pub fn callCommand(&self, name: String, args: String, user: String) -> (r: CallAction)
        ensures
            r.view_of() == call_spec(self.commands@, name@, args@, user@),
    {
        match self.find_command(&name) {
            None => CallAction::Reply(String::from_str("command unknown")),
            Some(i) => self.commands[i].run(&args, &user),
        }
    }
}

} // verus!
