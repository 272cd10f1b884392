use nihil::console::{
    banner, dispatch, send_outcome, CommandKind, Dispatch, Effect, Prompting, Role, Signal, Turn,
    BANNER_PAUSE_MILLIS,
};
use nihil::text::{pad_left, pad_right};
use nihil::{init_commands, Action, Command, CommandMap, State};

fn print(line: &str) -> Effect {
    Effect::Print(line.to_string())
}

fn say(line: &str) -> Effect {
    Effect::Say(line.to_string())
}

fn rows(table: &CommandMap) -> Vec<(String, String, CommandKind)> {
    (0..table.len())
        .map(|i| {
            let command = table.command_at(i);
            (table.name_at(i).to_string(), command.description.clone(), command.function)
        })
        .collect()
}

fn row(name: &str, description: &str, function: CommandKind) -> (String, String, CommandKind) {
    (name.to_string(), description.to_string(), function)
}

#[test]
fn padding_fills_up_with_spaces() {
    assert_eq!(pad_right("ab", 5), "ab   ");
    assert_eq!(pad_left("ab", 5), "   ab");
    assert_eq!(pad_right("abcde", 5), "abcde");
    assert_eq!(pad_left("abcde", 5), "abcde");
    assert_eq!(pad_right("abcdef", 5), "abcdef");
    assert_eq!(pad_left("abcdef", 5), "abcdef");
    assert_eq!(pad_right("", 3), "   ");
    assert_eq!(pad_left("", 0), "");
    // Width counts characters, not bytes.
    assert_eq!(pad_right("h\u{e9}", 4), "h\u{e9}  ");
    assert_eq!(pad_left("h\u{e9}", 4), format!("{:>4}", "h\u{e9}"));
    for width in 0..12usize {
        for text in ["", "v", "v0.1.0", "v10.20.30-rc1"] {
            assert_eq!(pad_right(text, width), format!("{:width$}", text));
            assert_eq!(pad_left(text, width), format!("{:>width$}", text));
        }
    }
}

#[test]
fn banner_of_a_mode_and_a_version() {
    assert_eq!(BANNER_PAUSE_MILLIS, 100);
    let lines = banner("Server", "0.1.0");
    assert_eq!(
        lines,
        vec![
            "\x1B[1m\x1B[31m\x1B[38;5;88m".to_string(),
            "      .     .       .".to_string(),
            "    o |   o |       |".to_string(),
            ";-. . |-. . |   ,-. | ,-. ,-: ,-: ;-. ,-.".to_string(),
            "| | | | | | |   |-' | |-' | | | | | | `-.".to_string(),
            "' ' ' ' ' ' '   `-' ' `-' `-| `-` ' ' `-'".to_string(),
            "\x1B[0mServer                    \x1B[1m\x1B[31m\x1B[38;5;88m`-'\x1B[0m      v0.1.0"
                .to_string(),
        ]
    );
    let client = banner("Client", "12.345.6789");
    assert_eq!(
        client[6],
        format!(
            "\x1B[0m{}                    \x1B[1m\x1B[31m\x1B[38;5;88m`-'\x1B[0m{:>12}",
            "Client",
            format!("v{}", "12.345.6789")
        )
    );
    assert_eq!(client[..6], lines[..6]);
}

#[test]
fn command_table_of_each_front_end() {
    assert_eq!(
        rows(&init_commands(Role::Client)),
        vec![
            row("exit", "Stops the server", CommandKind::Exit),
            row("help", "Shows this menu", CommandKind::Help),
            row("test", "TEMP - Sends a test message", CommandKind::Test),
        ]
    );
    assert_eq!(
        rows(&init_commands(Role::Server)),
        vec![
            row("exit", "Stops the server", CommandKind::Exit),
            row("help", "Shows this menu", CommandKind::Help),
        ]
    );
}

#[test]
fn command_table_finds_by_name() {
    let table = init_commands(Role::Client);
    assert_eq!(table.len(), 3);
    assert_eq!(table.find("exit"), Some(0));
    assert_eq!(table.find("help"), Some(1));
    assert_eq!(table.find("test"), Some(2));
    assert_eq!(table.find("Exit"), None);
    assert_eq!(table.find(""), None);
    assert_eq!(table.find("exit "), None);
    assert_eq!(table.get("help").unwrap().function, CommandKind::Help);
    assert_eq!(table.get("help").unwrap().description, "Shows this menu");
    assert!(table.get("quit").is_none());
    assert_eq!(init_commands(Role::Server).find("test"), None);
    assert_eq!(table.widest(), 4);
}

#[test]
fn command_table_keeps_one_command_per_name() {
    let mut table = CommandMap::new();
    assert_eq!(table.len(), 0);
    assert_eq!(table.widest(), 0);
    table.insert("one", Command::new("first", CommandKind::Exit));
    table.insert("three", Command::new("second", CommandKind::Help));
    table.insert("one", Command::new("third", CommandKind::Test));
    assert_eq!(
        rows(&table),
        vec![row("one", "third", CommandKind::Test), row("three", "second", CommandKind::Help)]
    );
    assert_eq!(table.widest(), 5);
    table.insert("h\u{e9}llo!", Command::new("", CommandKind::Help));
    assert_eq!(table.len(), 3);
    // The width is the length in bytes.
    assert_eq!(table.widest(), 7);
}

#[test]
fn help_lists_the_commands_in_a_column() {
    assert_eq!(
        init_commands(Role::Client).help(),
        vec![
            say("\nCommands\n========"),
            print("exit  -\tStops the server"),
            print("help  -\tShows this menu"),
            print("test  -\tTEMP - Sends a test message"),
        ]
    );
    let mut table = CommandMap::new();
    table.insert("a", Command::new("short", CommandKind::Exit));
    table.insert("longer", Command::new("long", CommandKind::Help));
    assert_eq!(
        table.help(),
        vec![say("\nCommands\n========"), print("a       -\tshort"), print("longer  -\tlong")]
    );
    assert_eq!(CommandMap::new().help(), vec![say("\nCommands\n========")]);
}

#[test]
fn fresh_state_reads_a_line() {
    let state = State::new(Role::Client, init_commands(Role::Client));
    assert_eq!(state.role, Role::Client);
    assert!(!state.exit);
    assert!(!state.is_ctrl_c_pressed);
    assert_eq!(state.next(), Prompting::ReadLine);
}

#[test]
fn exit_command_sets_the_flag_and_ends_the_loop() {
    let mut client = State::new(Role::Client, init_commands(Role::Client));
    let turn = client.on_signal(Signal::Success("exit".to_string()));
    assert_eq!(
        turn,
        Turn { effects: vec![print("Exit called!"), print("Processed: exit")], stop: false }
    );
    assert!(client.exit);
    assert_eq!(client.next(), Prompting::Stop);

    let mut server = State::new(Role::Server, init_commands(Role::Server));
    let turn = server.on_signal(Signal::Success("  exit   now ".to_string()));
    assert_eq!(
        turn,
        Turn { effects: vec![say("Exit called!"), print("Processed:   exit   now ")], stop: false }
    );
    assert!(server.exit);
    assert_eq!(server.next(), Prompting::Stop);
}

#[test]
fn help_command_prints_the_table() {
    let mut server = State::new(Role::Server, init_commands(Role::Server));
    let turn = server.on_signal(Signal::Success("help".to_string()));
    assert_eq!(
        turn.effects,
        vec![
            say("\nCommands\n========"),
            print("exit  -\tStops the server"),
            print("help  -\tShows this menu"),
            print("Processed: help"),
        ]
    );
    assert!(!turn.stop);
    assert!(!server.exit);
    assert_eq!(server.next(), Prompting::ReadLine);
}

#[test]
fn test_command_asks_for_a_send_on_the_client_only() {
    let mut client = State::new(Role::Client, init_commands(Role::Client));
    let turn = client.on_signal(Signal::Success("test".to_string()));
    assert_eq!(
        turn.effects,
        vec![
            say("\nSending test message..."),
            Effect::Emit(Action::TempSend),
            print("Processed: test"),
        ]
    );
    let mut server = State::new(Role::Server, init_commands(Role::Server));
    let turn = server.on_signal(Signal::Success("test".to_string()));
    assert_eq!(turn.effects, vec![print("Processed: test")]);
}

#[test]
fn line_without_a_command_is_acknowledged() {
    let mut state = State::new(Role::Client, init_commands(Role::Client));
    for line in ["", "   ", "unknown", "EXIT", "exits", "say exit", "\t\n"] {
        let turn = state.on_signal(Signal::Success(line.to_string()));
        assert_eq!(turn.effects, vec![Effect::Print(format!("Processed: {}", line))]);
        assert!(!turn.stop);
        assert!(!state.exit);
    }
}

#[test]
fn first_word_names_the_command_whatever_the_white_space() {
    let mut state = State::new(Role::Client, init_commands(Role::Client));
    let turn = state.on_signal(Signal::Success("\t test\u{a0}me ".to_string()));
    assert_eq!(turn.effects.len(), 3);
    assert_eq!(turn.effects[1], Effect::Emit(Action::TempSend));
}

#[test]
fn on_words_takes_the_words_as_they_are_given() {
    let mut state = State::new(Role::Client, init_commands(Role::Client));
    let turn = state.on_words("anything", vec!["exit".to_string(), "x".to_string()]);
    assert_eq!(turn.effects, vec![print("Exit called!"), print("Processed: anything")]);
    assert!(state.exit);
    let mut other = State::new(Role::Client, init_commands(Role::Client));
    let turn = other.on_words("exit", Vec::new());
    assert_eq!(turn.effects, vec![print("Processed: exit")]);
    assert!(!other.exit);
}

#[test]
fn closed_input_ends_the_loop_without_the_flag() {
    let mut state = State::new(Role::Server, init_commands(Role::Server));
    let turn = state.on_signal(Signal::CtrlD);
    assert_eq!(turn, Turn { effects: vec![print("\nAborted!")], stop: true });
    assert!(!state.exit);
}

#[test]
fn interrupt_asks_for_confirmation() {
    let mut state = State::new(Role::Server, init_commands(Role::Server));
    let turn = state.on_signal(Signal::CtrlC);
    assert_eq!(turn, Turn { effects: Vec::new(), stop: false });
    assert!(state.is_ctrl_c_pressed);
    assert_eq!(state.next(), Prompting::Confirm);
    state.confirm(false);
    assert!(!state.is_ctrl_c_pressed);
    assert!(!state.exit);
    assert_eq!(state.next(), Prompting::ReadLine);
    state.on_signal(Signal::CtrlC);
    state.confirm(true);
    assert!(!state.is_ctrl_c_pressed);
    assert!(state.exit);
    assert_eq!(state.next(), Prompting::Stop);
}

#[test]
fn other_signal_is_named() {
    let mut state = State::new(Role::Client, init_commands(Role::Client));
    let turn = state.on_signal(Signal::Other("Err(Interrupted)".to_string()));
    assert_eq!(
        turn,
        Turn { effects: vec![say("Unknown event: Err(Interrupted)")], stop: false }
    );
    assert_eq!(state.next(), Prompting::ReadLine);
}

#[test]
fn run_of_each_command() {
    let mut state = State::new(Role::Server, init_commands(Role::Server));
    assert_eq!(
        state.run(CommandKind::Test),
        vec![say("\nSending test message..."), Effect::Emit(Action::TempSend)]
    );
    assert!(!state.exit);
    assert_eq!(state.run(CommandKind::Help).len(), 3);
    assert!(!state.exit);
    assert_eq!(state.run(CommandKind::Exit), vec![say("Exit called!")]);
    assert!(state.exit);
}

#[test]
fn events_are_dispatched_by_role() {
    assert_eq!(
        dispatch(Role::Client, Action::Log("a line".to_string())),
        Dispatch::Show("a line".to_string())
    );
    assert_eq!(
        dispatch(Role::Server, Action::Log("a line".to_string())),
        Dispatch::Show("a line".to_string())
    );
    assert_eq!(
        dispatch(Role::Client, Action::TempSend),
        Dispatch::Send("Sending test message...".to_string())
    );
    assert_eq!(dispatch(Role::Server, Action::TempSend), Dispatch::Ignore);
}

#[test]
fn outcome_of_a_send() {
    assert_eq!(send_outcome(None), "Test message sent successfully!");
    assert_eq!(send_outcome(Some("timed out")), "Error sending test message: timed out");
}
