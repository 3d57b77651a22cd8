use commandbot::cbot::{CallAction, Cmd, CustomBot};
use commandbot::command_bot::{
    matrix_user_id, message_to_send, next_join_delay, CommandBot, JOIN_FIRST_DELAY, JOIN_MAX_DELAY,
};
use commandbot::shell::ShellCommand;

fn strings(v: &[&str]) -> Vec<String> {
    v.iter().map(|s| s.to_string()).collect()
}

fn cmd(name: &str, sudo: bool, exec: &str, need_user: bool, param_count: usize) -> Cmd {
    Cmd {
        name: name.to_string(),
        sudo,
        executable: exec.to_string(),
        need_user,
        param_count,
    }
}

fn custom() -> CustomBot {
    CustomBot {
        name: "srv".to_string(),
        commands: vec![
            cmd("uptime", false, "/usr/bin/uptime", false, 0),
            cmd("restart", true, "/usr/local/bin/restart.sh", true, 3),
            cmd("echo", false, "/bin/echo", false, 2),
            cmd("one", false, "/bin/one", false, 1),
            cmd("uptime", true, "/other/uptime", false, 0),
        ],
    }
}

fn run(program: &str, args: &[&str]) -> CallAction {
    CallAction::Run(ShellCommand { program: program.to_string(), args: strings(args) })
}

fn reply(text: &str) -> CallAction {
    CallAction::Reply(text.to_string())
}

#[test]
fn unknown_command() {
    assert_eq!(
        custom().callCommand("nope".to_string(), "a b".to_string(), "alice".to_string()),
        reply("command unknown")
    );
}

#[test]
fn first_command_of_a_name_is_used() {
    assert_eq!(
        custom().callCommand("uptime".to_string(), "ignored".to_string(), "alice".to_string()),
        run("/usr/bin/uptime", &[])
    );
}

#[test]
fn sudo_user_and_pieces() {
    assert_eq!(
        custom().callCommand("restart".to_string(), "web now later".to_string(), "alice".to_string()),
        run("sudo", &["/usr/local/bin/restart.sh", "alice", "web", "now", "later"])
    );
    assert_eq!(
        custom().callCommand("restart".to_string(), "web now later again".to_string(), "alice".to_string()),
        run("sudo", &["/usr/local/bin/restart.sh", "alice", "web", "now", "later again"])
    );
}

#[test]
fn too_few_pieces() {
    for args in ["web", "web now", ""] {
        assert_eq!(
            custom().callCommand("restart".to_string(), args.to_string(), "alice".to_string()),
            reply("insuffient arguments supplied")
        );
    }
}

#[test]
fn two_pieces_wanted() {
    assert_eq!(
        custom().callCommand("echo".to_string(), "hello world".to_string(), "bob".to_string()),
        run("/bin/echo", &["hello", "world"])
    );
    assert_eq!(
        custom().callCommand("echo".to_string(), "a b c".to_string(), "bob".to_string()),
        run("/bin/echo", &["a", "b c"])
    );
    assert_eq!(
        custom().callCommand("echo".to_string(), " x".to_string(), "bob".to_string()),
        run("/bin/echo", &["", "x"])
    );
    assert_eq!(
        custom().callCommand("echo".to_string(), "hello".to_string(), "bob".to_string()),
        reply("insuffient arguments supplied")
    );
}

#[test]
fn param_count_one_passes_whole_text() {
    assert_eq!(
        custom().callCommand("one".to_string(), "a b c".to_string(), "bob".to_string()),
        run("/bin/one", &["a b c"])
    );
    assert_eq!(
        custom().callCommand("one".to_string(), "".to_string(), "bob".to_string()),
        run("/bin/one", &[""])
    );
}

#[test]
fn argument_count_law() {
    let bot = custom();
    let args = "w1 w2  w3 w4";
    for c in &bot.commands {
        let first = bot.commands.iter().find(|x| x.name == c.name).unwrap();
        let fixed = (first.sudo as usize) + (first.need_user as usize);
        match bot.callCommand(c.name.clone(), args.to_string(), "u".to_string()) {
            CallAction::Run(sc) => {
                assert_eq!(sc.args.len(), fixed + first.param_count);
                let pieces = &sc.args[fixed..];
                if !pieces.is_empty() {
                    assert!(pieces[..pieces.len() - 1].iter().all(|a| !a.contains(' ')));
                    assert_eq!(pieces.join(" "), args);
                }
                let expected: Vec<String> =
                    args.splitn(first.param_count, ' ').map(|x| x.to_string()).collect();
                assert_eq!(pieces.to_vec(), expected);
            }
            CallAction::Reply(t) => panic!("unexpected reply {}", t),
        }
    }
}

fn command_bot() -> CommandBot {
    CommandBot { custombot: custom() }
}

#[test]
fn messages_not_for_bots_get_no_answer() {
    for msg in ["", "!", "x", "hello !srv uptime", "?srv uptime", "€srv uptime", "𝄞!", "é", "über", "é!srv uptime"] {
        assert_eq!(command_bot().process_msg(msg.to_string(), "alice".to_string()), reply(""));
    }
}

#[test]
fn messages_for_other_bots_get_no_answer() {
    assert_eq!(
        command_bot().process_msg("!dice 6".to_string(), "alice".to_string()),
        reply("")
    );
    assert_eq!(command_bot().process_msg("!srvx uptime".to_string(), "alice".to_string()), reply(""));
}

#[test]
fn message_runs_a_command() {
    assert_eq!(
        command_bot().process_msg("!srv restart db now please".to_string(), "alice".to_string()),
        run("sudo", &["/usr/local/bin/restart.sh", "alice", "db", "now", "please"])
    );
    assert_eq!(
        command_bot().process_msg("!srv uptime".to_string(), "alice".to_string()),
        run("/usr/bin/uptime", &[])
    );
}

#[test]
fn message_with_bot_name_only() {
    assert_eq!(
        command_bot().process_msg("!srv".to_string(), "alice".to_string()),
        reply("command unknown")
    );
}

#[test]
fn check_cb_direct() {
    assert_eq!(
        command_bot().check_cb("srv".to_string(), "echo hi there".to_string(), "u".to_string()),
        run("/bin/echo", &["hi", "there"])
    );
    assert_eq!(
        command_bot().check_cb("other".to_string(), "echo hi".to_string(), "u".to_string()),
        reply("")
    );
}

#[test]
fn own_messages_get_no_answer() {
    let own = "srvbot".to_string();
    assert_eq!(
        command_bot().respond("!srv uptime".to_string(), "srvbot".to_string(), &own),
        reply("")
    );
    assert_eq!(
        command_bot().respond("!srv uptime".to_string(), "alice".to_string(), &own),
        run("/usr/bin/uptime", &[])
    );
}

#[test]
fn only_non_empty_answers_are_sent() {
    assert_eq!(message_to_send(String::new()), None);
    assert_eq!(message_to_send("up 3 days".to_string()), Some("up 3 days".to_string()));
    assert_eq!(message_to_send(" ".to_string()), Some(" ".to_string()));
}

#[test]
fn user_ids() {
    assert_eq!(matrix_user_id("bot", "https://matrix.example.org"), "@bot:example.org");
    assert_eq!(matrix_user_id("bot", "https://example.org"), "@bot:https://example.org");
    assert_eq!(
        matrix_user_id("b", "https://matrix.https://matrix.x"),
        "@b:x"
    );
    assert_eq!(matrix_user_id("", ""), "@:");
}

#[test]
fn join_delays_double_and_end() {
    assert_eq!(next_join_delay(JOIN_FIRST_DELAY), Some(4));
    assert_eq!(next_join_delay(1800), Some(3600));
    assert_eq!(next_join_delay(1801), None);
    let mut delay = JOIN_FIRST_DELAY;
    let mut waits = vec![delay];
    while let Some(d) = next_join_delay(delay) {
        assert!(d <= JOIN_MAX_DELAY);
        delay = d;
        waits.push(d);
    }
    assert_eq!(waits, vec![2, 4, 8, 16, 32, 64, 128, 256, 512, 1024, 2048]);
}
