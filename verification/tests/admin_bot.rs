use commandbot::admin::{AdminAction, AdminBot};
use commandbot::shell::{command_output_reply, ShellCommand};

fn bot() -> AdminBot {
    AdminBot::new("alice;bob".to_string())
}

fn strings(v: &[&str]) -> Vec<String> {
    v.iter().map(|s| s.to_string()).collect()
}

#[test]
fn new_splits_users_at_semicolons() {
    let b = AdminBot::new("alice;bob;;carol".to_string());
    assert_eq!(b.users, strings(&["alice", "bob", "", "carol"]));
}

#[test]
fn new_with_empty_list_has_one_empty_name() {
    let b = AdminBot::new(String::new());
    assert_eq!(b.users, strings(&[""]));
}

#[test]
fn new_then_join_gives_list_back() {
    for list in ["alice;bob", ";", "a;;b;", "", "no separators"] {
        let b = AdminBot::new(list.to_string());
        assert_eq!(b.users.join(";"), list);
        assert!(b.users.iter().all(|u| !u.contains(';')));
    }
}

#[test]
fn unknown_user_is_refused_whatever_the_message() {
    for msg in ["reboot", "ts3 status", "hello", ""] {
        assert_eq!(
            bot().admin(msg.to_string(), "mallory".to_string()),
            AdminAction::Reply("Not allowed 😠".to_string())
        );
    }
}

#[test]
fn listed_users_get_the_same_answer() {
    for msg in ["reboot", "ts3 status", "ts3 x", "hello"] {
        assert_eq!(
            bot().admin(msg.to_string(), "alice".to_string()),
            bot().admin(msg.to_string(), "bob".to_string())
        );
    }
}

#[test]
fn reboot_is_asked_for() {
    assert_eq!(bot().admin("reboot".to_string(), "alice".to_string()), AdminAction::Reboot);
    assert_eq!(bot().admin("reboot now".to_string(), "bob".to_string()), AdminAction::Reboot);
}

#[test]
fn ts3_commands() {
    for arg in ["restart", "status", "start"] {
        assert_eq!(
            bot().admin(format!("ts3 {}", arg), "alice".to_string()),
            AdminAction::Ts3(arg.to_string())
        );
    }
}

#[test]
fn ts3_with_unknown_or_missing_argument() {
    for msg in ["ts3 stop", "ts3", "ts3 status now", "ts3  status"] {
        assert_eq!(
            bot().admin(msg.to_string(), "alice".to_string()),
            AdminAction::Reply("unknown ts3-command".to_string())
        );
    }
}

#[test]
fn unknown_admin_command() {
    for msg in ["hello", "", " reboot", "Reboot"] {
        assert_eq!(
            bot().admin(msg.to_string(), "alice".to_string()),
            AdminAction::Reply("command unknown".to_string())
        );
    }
}

#[test]
fn reboot_command_line() {
    assert_eq!(
        bot().reboot_command(),
        ShellCommand {
            program: "sudo".to_string(),
            args: strings(&["shutdown", "-r", "-t", "sec", "5"]),
        }
    );
}

#[test]
fn ts3_command_line() {
    assert_eq!(
        bot().ts3_command("status"),
        ShellCommand {
            program: "sudo".to_string(),
            args: strings(&[
                "-u",
                "ts3",
                "/home/ts3/teamspeak3-server_linux_amd64/ts3server_startscript.sh",
                "status",
            ]),
        }
    );
}

#[test]
fn reboot_replies() {
    assert_eq!(AdminBot::reboot_reply(true), "rebooting in 5 Seconds");
    assert_eq!(AdminBot::reboot_reply(false), "rebooting didn't work...");
}

#[test]
fn output_replies() {
    assert_eq!(command_output_reply(None), "now that didn't work...");
    assert_eq!(command_output_reply(Some(b"server is running\n".to_vec())), "server is running\n");
    assert_eq!(command_output_reply(Some("grüße ✓".as_bytes().to_vec())), "grüße ✓");
    assert_eq!(command_output_reply(Some(Vec::new())), "");
    assert_eq!(command_output_reply(Some(vec![0xff, 0x41])), "something went wrong here.");
    assert_eq!(command_output_reply(Some(vec![0xc3])), "something went wrong here.");
}
