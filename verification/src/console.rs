//! The decisions of the interactive front end.
//!
//! The front end reads lines and signals from a terminal and prints. What
//! it prints, which command a line runs and when the loop ends is decided
//! here, on plain values: a signal goes in, the effects to carry out come
//! back.

use vstd::prelude::*;
use vstd::string::StringExecFns;
use vstd::utf8::encode_utf8;
use crate::event::{Action, ActionView};
use crate::text::{pad_left, pad_left_spec, pad_right, pad_right_spec, split_words, words_of};

verus! {

/// Which end of the channel the front end belongs to.
#[derive(Debug, Clone, Copy, PartialEq, Eq, Structural)]
pub enum Role {
    Client,
    Server,
}

/// What a command does.
#[derive(Debug, Clone, Copy, PartialEq, Eq, Structural)]
pub enum CommandKind {
    /// Ends the loop.
    Exit,
    /// Lists the commands.
    Help,
    /// Asks for a test message to be sent.
    Test,
}

/// One command of the table.
#[derive(Debug, Clone, PartialEq, Eq)]
pub struct Command {
    pub description: String,
    pub function: CommandKind,
}

impl Command {
    /// A command with this description that does `function`.
    pub fn new(description: &str, function: CommandKind) -> (r: Self)
        ensures
            r.description@ == description@,
            r.function == function,
    {
        Self { description: String::from_str(description), function }
    }
}

/// One row of the command table as a value.
pub struct EntryView {
    pub name: Seq<char>,
    pub description: Seq<char>,
    pub function: CommandKind,
}

/// Offset of the first row named `name`, or the number of rows if there is
/// none.
pub open spec fn index_of(rows: Seq<EntryView>, name: Seq<char>) -> int
    decreases rows.len(),
{
    if rows.len() == 0 {
        0
    } else {
        let before = index_of(rows.drop_last(), name);
        if before < rows.len() - 1 || rows.last().name == name {
            before
        } else {
            rows.len() as int
        }
    }
}

/// Whether no two rows have the same name.
pub open spec fn distinct(rows: Seq<EntryView>) -> bool {
    forall|i: int, j: int|
        0 <= i < j < rows.len() ==> (#[trigger] rows[i]).name != (#[trigger] rows[j]).name
}

/// The table with `row` in it: in the place of the row of that name, or
/// behind the last row if the name is new.
pub open spec fn with_row(rows: Seq<EntryView>, row: EntryView) -> Seq<EntryView> {
    let at = index_of(rows, row.name);
    if at < rows.len() {
        rows.update(at, row)
    } else {
        rows.push(row)
    }
}

/// `index_of` is the one offset with no row of that name before it and one
/// at it.
pub proof fn lemma_index_of(rows: Seq<EntryView>, name: Seq<char>, at: int)
    requires
        0 <= at <= rows.len(),
        forall|j: int| 0 <= j < at ==> rows[j].name != name,
        at < rows.len() ==> rows[at].name == name,
    ensures
        index_of(rows, name) == at,
    decreases rows.len(),
{
    if rows.len() > 0 {
        let shorter = rows.drop_last();
        lemma_index_of(
            shorter,
            name,
            if at < shorter.len() {
                at
            } else {
                shorter.len() as int
            },
        );
    }
}

struct Entry {
    name: String,
    command: Command,
}

impl View for Entry {
    type V = EntryView;

    closed spec fn view(&self) -> EntryView {
        EntryView {
            name: self.name@,
            description: self.command.description@,
            function: self.command.function,
        }
    }
}

/// The command table: commands by name, in the order in which their names
/// came in. A table that is built from the empty one by `insert` has no name
/// twice.
pub struct CommandMap {
    entries: Vec<Entry>,
}

impl View for CommandMap {
    type V = Seq<EntryView>;

    closed spec fn view(&self) -> Seq<EntryView> {
        Seq::new(self.entries@.len(), |i: int| self.entries@[i]@)
    }
}

impl CommandMap {
    /// The empty table.
    pub fn new() -> (r: Self)
        ensures
            r@ == Seq::<EntryView>::empty(),
    {
        let table = Self { entries: Vec::new() };
        assert(table@ =~= Seq::<EntryView>::empty());
        table
    }

    /// The number of commands.
    pub fn len(&self) -> (r: usize)
        ensures
            r == self@.len(),
    {
        self.entries.len()
    }

    /// The place of the command named `name`, if there is one.
    pub fn find(&self, name: &str) -> (r: Option<usize>)
        ensures
            match r {
                Some(at) => {
                    &&& at < self@.len()
                    &&& index_of(self@, name@) == at
                    &&& self@[at as int].name == name@
                },
                None => index_of(self@, name@) == self@.len(),
            },
    {
        let wanted = String::from_str(name);
        let mut i: usize = 0;
        while i < self.entries.len()
            invariant
                i <= self.entries@.len(),
                wanted@ == name@,
                forall|j: int| 0 <= j < i ==> self@[j].name != name@,
            decreases self.entries@.len() - i,
        {
            if self.entries[i].name == wanted {
                proof {
                    lemma_index_of(self@, name@, i as int);
                }
                return Some(i);
            }
            i += 1;
        }
        proof {
            lemma_index_of(self@, name@, i as int);
        }
        None
    }

    /// The name of the command at `at`.
    pub fn name_at(&self, at: usize) -> (r: &str)
        requires
            at < self@.len(),
        ensures
            r@ == self@[at as int].name,
    {
        self.entries[at].name.as_str()
    }

    /// The command at `at`.
    pub fn command_at(&self, at: usize) -> (r: &Command)
        requires
            at < self@.len(),
        ensures
            r.description@ == self@[at as int].description,
            r.function == self@[at as int].function,
    {
        &self.entries[at].command
    }

    /// The command named `name`, if there is one.
    pub fn get(&self, name: &str) -> (r: Option<&Command>)
        ensures
            match r {
                Some(command) => {
                    let at = index_of(self@, name@);
                    &&& at < self@.len()
                    &&& self@[at].name == name@
                    &&& command.description@ == self@[at].description
                    &&& command.function == self@[at].function
                },
                None => index_of(self@, name@) == self@.len(),
            },
    {
        match self.find(name) {
            Some(at) => Some(self.command_at(at)),
            None => None,
        }
    }

    /// Puts `command` in the table under `name`, in the place of the command
    /// of that name if there is one.
    pub fn insert(&mut self, name: &str, command: Command)
        ensures
            final(self)@ == with_row(
                old(self)@,
                EntryView {
                    name: name@,
                    description: command.description@,
                    function: command.function,
                },
            ),
            distinct(old(self)@) ==> distinct(final(self)@),
    {
        let ghost before = self@;
        let ghost row = EntryView {
            name: name@,
            description: command.description@,
            function: command.function,
        };
        let entry = Entry { name: String::from_str(name), command };
        match self.find(name) {
            Some(at) => {
                self.entries.set(at, entry);
                assert(self@ =~= before.update(at as int, row));
                assert(distinct(before) ==> distinct(self@)) by {
                    if distinct(before) {
                        assert forall|i: int, j: int| 0 <= i < j < self@.len() implies (
                        #[trigger] self@[i]).name != (#[trigger] self@[j]).name by {
                            assert(before[i].name != before[j].name);
                        }
                    }
                }
            },
            None => {
                self.entries.push(entry);
                assert(self@ =~= before.push(row));
                assert(distinct(before) ==> distinct(self@)) by {
                    lemma_absent(before, name@);
                    if distinct(before) {
                        assert forall|i: int, j: int| 0 <= i < j < self@.len() implies (
                        #[trigger] self@[i]).name != (#[trigger] self@[j]).name by {
                            if j < before.len() {
                                assert(before[i].name != before[j].name);
                            } else {
                                assert(before[i].name != name@);
                            }
                        }
                    }
                }
            },
        }
    }
}

/// Where `index_of` finds nothing, no row has the name.
pub proof fn lemma_absent(rows: Seq<EntryView>, name: Seq<char>)
    requires
        index_of(rows, name) == rows.len(),
    ensures
        forall|j: int| 0 <= j < rows.len() ==> (#[trigger] rows[j]).name != name,
    decreases rows.len(),
{
    if rows.len() > 0 {
        let shorter = rows.drop_last();
        lemma_index_of_range(shorter, name);
        lemma_absent(shorter, name);
        assert forall|j: int| 0 <= j < rows.len() implies (#[trigger] rows[j]).name != name by {
            if j < shorter.len() {
                assert(rows[j] == shorter[j]);
            }
        }
    }
}

/// `index_of` is an offset into the table, or its length.
proof fn lemma_index_of_range(rows: Seq<EntryView>, name: Seq<char>)
    ensures
        0 <= index_of(rows, name) <= rows.len(),
    decreases rows.len(),
{
    if rows.len() > 0 {
        lemma_index_of_range(rows.drop_last(), name);
    }
}

/// A row of the table.
pub open spec fn row(name: Seq<char>, description: Seq<char>, function: CommandKind) -> EntryView {
    EntryView { name, description, function }
}

/// The commands of a front end, in the order in which `help` lists them.
pub open spec fn table_of(role: Role) -> Seq<EntryView> {
    match role {
        Role::Client => seq![
            row("exit"@, "Stops the server"@, CommandKind::Exit),
            row("help"@, "Shows this menu"@, CommandKind::Help),
            row("test"@, "TEMP - Sends a test message"@, CommandKind::Test),
        ],
        Role::Server => seq![
            row("exit"@, "Stops the server"@, CommandKind::Exit),
            row("help"@, "Shows this menu"@, CommandKind::Help),
        ],
    }
}

/// The command table of a front end.
pub fn init_commands(role: Role) -> (r: CommandMap)
    ensures
        r@ == table_of(role),
        distinct(r@),
{
    proof {
        reveal_strlit("exit");
        reveal_strlit("help");
        reveal_strlit("test");
    }
    let mut commands = CommandMap::new();
    let ghost exit = row("exit"@, "Stops the server"@, CommandKind::Exit);
    let ghost help = row("help"@, "Shows this menu"@, CommandKind::Help);
    let ghost test = row("test"@, "TEMP - Sends a test message"@, CommandKind::Test);
    assert("exit"@[0] != "help"@[0]);
    assert("exit"@[0] != "test"@[0]);
    assert("help"@[0] != "test"@[0]);
    proof {
        lemma_index_of(Seq::<EntryView>::empty(), "exit"@, 0);
        lemma_index_of(seq![exit], "help"@, 1);
        lemma_index_of(seq![exit, help], "test"@, 2);
    }
    commands.insert("exit", Command::new("Stops the server", CommandKind::Exit));
    assert(commands@ =~= seq![exit]);
    commands.insert("help", Command::new("Shows this menu", CommandKind::Help));
    assert(commands@ =~= seq![exit, help]);
    match role {
        Role::Client => {
            commands.insert(
                "test",
                Command::new("TEMP - Sends a test message", CommandKind::Test),
            );
            assert(commands@ =~= seq![exit, help, test]);
        },
        Role::Server => {},
    }
    commands
}

/// Something for the front end to carry out.
#[derive(Debug, Clone, PartialEq, Eq)]
pub enum Effect {
    /// A line for the printer that shares the terminal with the prompt.
    Print(String),
    /// A line for the terminal itself.
    Say(String),
    /// An event for the event channel.
    Emit(Action),
}

/// An effect with its text as a sequence of characters.
pub enum EffectView {
    Print(Seq<char>),
    Say(Seq<char>),
    Emit(ActionView),
}

impl View for Effect {
    type V = EffectView;

    open spec fn view(&self) -> EffectView {
        match self {
            Effect::Print(line) => EffectView::Print(line@),
            Effect::Say(line) => EffectView::Say(line@),
            Effect::Emit(action) => EffectView::Emit(action@),
        }
    }
}

/// The effects of a list, each by its view.
pub open spec fn effect_views(effects: Seq<Effect>) -> Seq<EffectView> {
    Seq::new(effects.len(), |i: int| effects[i]@)
}

/// The length in bytes of the longest name of the table.
pub open spec fn widest(rows: Seq<EntryView>) -> nat
    decreases rows.len(),
{
    if rows.len() == 0 {
        0
    } else {
        let before = widest(rows.drop_last());
        let last = encode_utf8(rows.last().name).len();
        if last > before {
            last
        } else {
            before
        }
    }
}

/// The line of `help` for one command: its name in a column of `width`
/// characters, and its description.
pub open spec fn help_line(row: EntryView, width: nat) -> Seq<char> {
    pad_right_spec(row.name, width) + "  -\t"@ + row.description
}

/// The heading of `help`.
pub open spec fn help_heading() -> Seq<char> {
    "\nCommands\n========"@
}

/// What `help` prints: the heading, and a line for each command in the
/// order of the table.
pub open spec fn help_effects(rows: Seq<EntryView>) -> Seq<EffectView> {
    seq![EffectView::Say(help_heading())] + Seq::new(
        rows.len(),
        |i: int| EffectView::Print(help_line(rows[i], widest(rows))),
    )
}

impl CommandMap {
    /// The length in bytes of the longest name.
    pub fn widest(&self) -> (r: usize)
        ensures
            r == widest(self@),
    {
        let mut width: usize = 0;
        let mut i: usize = 0;
        assert(self@.take(0) =~= Seq::<EntryView>::empty());
        while i < self.entries.len()
            invariant
                i <= self.entries@.len(),
                self@.len() == self.entries@.len(),
                width == widest(self@.take(i as int)),
            decreases self.entries@.len() - i,
        {
            let len = self.entries[i].name.as_str().as_bytes().len();
            proof {
                assert(self@.take(i + 1).drop_last() =~= self@.take(i as int));
                assert(self@.take(i + 1).last().name == self.entries@[i as int].name@);
            }
            if len > width {
                width = len;
            }
            i += 1;
        }
        assert(self@.take(self@.len() as int) =~= self@);
        width
    }

    /// What `help` prints.
    pub fn help(&self) -> (r: Vec<Effect>)
        ensures
            effect_views(r@) == help_effects(self@),
    {
        let width = self.widest();
        let mut effects: Vec<Effect> = Vec::new();
        effects.push(Effect::Say(String::from_str("\nCommands\n========")));
        let mut i: usize = 0;
        while i < self.entries.len()
            invariant
                i <= self.entries@.len(),
                self@.len() == self.entries@.len(),
                width == widest(self@),
                effects@.len() == i + 1,
                forall|j: int|
                    0 <= j <= i ==> (#[trigger] effects@[j])@ == help_effects(self@)[j],
            decreases self.entries@.len() - i,
        {
            let entry = &self.entries[i];
            let mut line = pad_right(entry.name.as_str(), width);
            line.append("  -\t");
            line.append(entry.command.description.as_str());
            effects.push(Effect::Print(line));
            i += 1;
        }
        assert(effect_views(effects@) =~= help_effects(self@));
        effects
    }
}

/// What the terminal hands over when it was asked for a line.
#[derive(Debug, Clone, PartialEq, Eq)]
pub enum Signal {
    /// A line was entered.
    Success(String),
    /// The input was closed.
    CtrlD,
    /// The line was interrupted.
    CtrlC,
    /// Anything else, as text.
    Other(String),
}

/// A signal with its text as a sequence of characters.
pub enum SignalView {
    Success(Seq<char>),
    CtrlD,
    CtrlC,
    Other(Seq<char>),
}

impl View for Signal {
    type V = SignalView;

    open spec fn view(&self) -> SignalView {
        match self {
            Signal::Success(line) => SignalView::Success(line@),
            Signal::CtrlD => SignalView::CtrlD,
            Signal::CtrlC => SignalView::CtrlC,
            Signal::Other(text) => SignalView::Other(text@),
        }
    }
}

/// What the loop does next.
#[derive(Debug, Clone, Copy, PartialEq, Eq, Structural)]
pub enum Prompting {
    /// End the loop.
    Stop,
    /// Ask whether to exit, and come back with the answer.
    Confirm,
    /// Ask for a line, and come back with the signal.
    ReadLine,
}

/// The answer to one signal.
#[derive(Debug, Clone, PartialEq, Eq)]
pub struct Turn {
    /// What to carry out, in order.
    pub effects: Vec<Effect>,
    /// Whether the loop ends here, whatever the state says.
    pub stop: bool,
}

/// A turn with its texts as sequences of characters.
pub struct TurnView {
    pub effects: Seq<EffectView>,
    pub stop: bool,
}

impl View for Turn {
    type V = TurnView;

    open spec fn view(&self) -> TurnView {
        TurnView { effects: effect_views(self.effects@), stop: self.stop }
    }
}

/// The state of the front end.
pub struct State {
    pub role: Role,
    pub commands: CommandMap,
    pub is_ctrl_c_pressed: bool,
    pub exit: bool,
}

/// The state of the front end as a value.
pub struct StateView {
    pub role: Role,
    pub commands: Seq<EntryView>,
    pub is_ctrl_c_pressed: bool,
    pub exit: bool,
}

impl View for State {
    type V = StateView;

    open spec fn view(&self) -> StateView {
        StateView {
            role: self.role,
            commands: self.commands@,
            is_ctrl_c_pressed: self.is_ctrl_c_pressed,
            exit: self.exit,
        }
    }
}

impl StateView {
    /// What the loop does next: it ends once the exit flag is set, asks for
    /// confirmation after an interrupt, and else reads a line.
    pub open spec fn next(self) -> Prompting {
        if self.exit {
            Prompting::Stop
        } else if self.is_ctrl_c_pressed {
            Prompting::Confirm
        } else {
            Prompting::ReadLine
        }
    }

    /// The state after the answer to the question whether to exit.
    pub open spec fn confirm(self, answer: bool) -> StateView {
        StateView { is_ctrl_c_pressed: false, exit: self.exit || answer, ..self }
    }

    /// What a command has the front end carry out.
    pub open spec fn run_effects(self, function: CommandKind) -> Seq<EffectView> {
        match function {
            CommandKind::Exit => seq![
                match self.role {
                    Role::Client => EffectView::Print("Exit called!"@),
                    Role::Server => EffectView::Say("Exit called!"@),
                },
            ],
            CommandKind::Help => help_effects(self.commands),
            CommandKind::Test => seq![
                EffectView::Say("\nSending test message..."@),
                EffectView::Emit(ActionView::TempSend),
            ],
        }
    }

    /// The state after a command.
    pub open spec fn run(self, function: CommandKind) -> StateView {
        match function {
            CommandKind::Exit => StateView { exit: true, ..self },
            _ => self,
        }
    }

    /// The state after a line with these words, and the answer to it: the
    /// command that the first word names is run, if it names one, and the
    /// line is acknowledged.
    pub open spec fn on_words(self, line: Seq<char>, words: Seq<Seq<char>>) -> (
        StateView,
        TurnView,
    ) {
        let processed = EffectView::Print("Processed: "@ + line);
        if words.len() > 0 && index_of(self.commands, words[0]) < self.commands.len() {
            let function = self.commands[index_of(self.commands, words[0])].function;
            (
                self.run(function),
                TurnView { effects: self.run_effects(function).push(processed), stop: false },
            )
        } else {
            (self, TurnView { effects: seq![processed], stop: false })
        }
    }

    /// The state after a signal, and the answer to it.
    pub open spec fn on_signal(self, signal: SignalView) -> (StateView, TurnView) {
        match signal {
            SignalView::Success(line) => self.on_words(line, words_of(line)),
            SignalView::CtrlD => (
                self,
                TurnView { effects: seq![EffectView::Print("\nAborted!"@)], stop: true },
            ),
            SignalView::CtrlC => (
                StateView { is_ctrl_c_pressed: true, ..self },
                TurnView { effects: Seq::empty(), stop: false },
            ),
            SignalView::Other(text) => (
                self,
                TurnView {
                    effects: seq![EffectView::Say("Unknown event: "@ + text)],
                    stop: false,
                },
            ),
        }
    }
}

impl State {
    /// The state of a front end that has read nothing yet.
    pub fn new(role: Role, commands: CommandMap) -> (r: Self)
        ensures
            r@ == (StateView {
                role,
                commands: commands@,
                is_ctrl_c_pressed: false,
                exit: false,
            }),
    {
        Self { role, commands, is_ctrl_c_pressed: false, exit: false }
    }

    /// What the loop does next.
    pub fn next(&self) -> (r: Prompting)
        ensures
            r == self@.next(),
    {
        if self.exit {
            Prompting::Stop
        } else if self.is_ctrl_c_pressed {
            Prompting::Confirm
        } else {
            Prompting::ReadLine
        }
    }

    /// Takes the answer to the question whether to exit.
    pub fn confirm(&mut self, answer: bool)
        ensures
            final(self)@ == old(self)@.confirm(answer),
    {
        self.is_ctrl_c_pressed = false;
        if answer {
            self.exit = true;
        }
    }

    /// Runs a command.
    pub fn run(&mut self, function: CommandKind) -> (r: Vec<Effect>)
        ensures
            final(self)@ == old(self)@.run(function),
            effect_views(r@) == old(self)@.run_effects(function),
    {
        match function {
            CommandKind::Exit => {
                let line = String::from_str("Exit called!");
                let effect = match self.role {
                    Role::Client => Effect::Print(line),
                    Role::Server => Effect::Say(line),
                };
                let mut effects: Vec<Effect> = Vec::new();
                effects.push(effect);
                self.exit = true;
                assert(effect_views(effects@) =~= old(self)@.run_effects(function));
                effects
            },
            CommandKind::Help => self.commands.help(),
            CommandKind::Test => {
                let mut effects: Vec<Effect> = Vec::new();
                effects.push(Effect::Say(String::from_str("\nSending test message...")));
                effects.push(Effect::Emit(Action::TempSend));
                assert(effect_views(effects@) =~= old(self)@.run_effects(function));
                effects
            },
        }
    }

    /// Takes a line that was entered, and the words that it is made of.
    pub fn on_words(&mut self, line: &str, words: Vec<String>) -> (r: Turn)
        ensures
            final(self)@ == old(self)@.on_words(line@, words.deep_view()).0,
            r@ == old(self)@.on_words(line@, words.deep_view()).1,
    {
        let mut processed = String::from_str("Processed: ");
        processed.append(line);
        let found = if words.len() > 0 {
            assert(words.deep_view()[0] == words@[0]@);
            self.commands.find(words[0].as_str())
        } else {
            None
        };
        let mut effects = match found {
            Some(at) => {
                let function = self.commands.command_at(at).function;
                self.run(function)
            },
            None => Vec::new(),
        };
        let ghost before = effect_views(effects@);
        effects.push(Effect::Print(processed));
        assert(effect_views(effects@) =~= before.push(EffectView::Print("Processed: "@ + line@)));
        proof {
            if found is None {
                assert(effect_views(effects@) =~= seq![
                    EffectView::Print("Processed: "@ + line@),
                ]);
            }
        }
        Turn { effects, stop: false }
    }

    /// Takes what the terminal handed over.
    pub fn on_signal(&mut self, signal: Signal) -> (r: Turn)
        ensures
            final(self)@ == old(self)@.on_signal(signal@).0,
            r@ == old(self)@.on_signal(signal@).1,
    {
        match signal {
            Signal::Success(line) => {
                let words = split_words(line.as_str());
                self.on_words(line.as_str(), words)
            },
            Signal::CtrlD => {
                let mut effects: Vec<Effect> = Vec::new();
                effects.push(Effect::Print(String::from_str("\nAborted!")));
                assert(effect_views(effects@) =~= seq![EffectView::Print("\nAborted!"@)]);
                Turn { effects, stop: true }
            },
            Signal::CtrlC => {
                self.is_ctrl_c_pressed = true;
                let effects: Vec<Effect> = Vec::new();
                assert(effect_views(effects@) =~= Seq::<EffectView>::empty());
                Turn { effects, stop: false }
            },
            Signal::Other(text) => {
                let mut line = String::from_str("Unknown event: ");
                line.append(text.as_str());
                let mut effects: Vec<Effect> = Vec::new();
                effects.push(Effect::Say(line));
                assert(effect_views(effects@) =~= seq![
                    EffectView::Say("Unknown event: "@ + text@),
                ]);
                Turn { effects, stop: false }
            },
        }
    }
}

/// Milliseconds to wait after each line of the banner but the last.
pub const BANNER_PAUSE_MILLIS: u64 = 100;

/// The last line of the banner: the mode, the tail of the drawing, and the
/// version in a column of twelve characters, flush right.
pub open spec fn banner_foot(mode: Seq<char>, version: Seq<char>) -> Seq<char> {
    "\x1B[0m"@ + mode + "                    \x1B[1m\x1B[31m\x1B[38;5;88m`-'\x1B[0m"@
        + pad_left_spec("v"@ + version, 12)
}

/// The lines of the banner.
pub open spec fn banner_spec(mode: Seq<char>, version: Seq<char>) -> Seq<Seq<char>> {
    seq![
        "\x1B[1m\x1B[31m\x1B[38;5;88m"@,
        "      .     .       ."@,
        "    o |   o |       |"@,
        ";-. . |-. . |   ,-. | ,-. ,-: ,-: ;-. ,-."@,
        "| | | | | | |   |-' | |-' | | | | | | `-."@,
        "' ' ' ' ' ' '   `-' ' `-' `-| `-` ' ' `-'"@,
        banner_foot(mode, version),
    ]
}

/// The lines of the banner for a front end in mode `mode` of version
/// `version`.
pub fn banner(mode: &str, version: &str) -> (r: Vec<String>)
    ensures
        r.deep_view() == banner_spec(mode@, version@),
{
    let mut lines: Vec<String> = Vec::new();
    lines.push(String::from_str("\x1B[1m\x1B[31m\x1B[38;5;88m"));
    lines.push(String::from_str("      .     .       ."));
    lines.push(String::from_str("    o |   o |       |"));
    lines.push(String::from_str(";-. . |-. . |   ,-. | ,-. ,-: ,-: ;-. ,-."));
    lines.push(String::from_str("| | | | | | |   |-' | |-' | | | | | | `-."));
    lines.push(String::from_str("' ' ' ' ' ' '   `-' ' `-' `-| `-` ' ' `-'"));
    let mut tagged = String::from_str("v");
    tagged.append(version);
    let mut foot = String::from_str("\x1B[0m");
    foot.append(mode);
    foot.append("                    \x1B[1m\x1B[31m\x1B[38;5;88m`-'\x1B[0m");
    foot.append(pad_left(tagged.as_str(), 12).as_str());
    lines.push(foot);
    assert(lines.deep_view() =~= banner_spec(mode@, version@));
    lines
}

/// What the front end does with an event from the event channel.
#[derive(Debug, Clone, PartialEq, Eq)]
pub enum Dispatch {
    /// Print this line.
    Show(String),
    /// Print this notice, then start a send.
    Send(String),
    /// Nothing.
    Ignore,
}

/// A dispatch with its text as a sequence of characters.
pub enum DispatchView {
    Show(Seq<char>),
    Send(Seq<char>),
    Ignore,
}

impl View for Dispatch {
    type V = DispatchView;

    open spec fn view(&self) -> DispatchView {
        match self {
            Dispatch::Show(line) => DispatchView::Show(line@),
            Dispatch::Send(notice) => DispatchView::Send(notice@),
            Dispatch::Ignore => DispatchView::Ignore,
        }
    }
}

/// What an event asks of the front end: a log line is shown; the request to
/// send starts a send on the client and is nothing to the server.
pub open spec fn dispatch_spec(role: Role, action: ActionView) -> DispatchView {
    match action {
        ActionView::Log(line) => DispatchView::Show(line),
        ActionView::TempSend => match role {
            Role::Client => DispatchView::Send("Sending test message..."@),
            Role::Server => DispatchView::Ignore,
        },
    }
}

/// What the front end does with an event from the event channel.
pub fn dispatch(role: Role, action: Action) -> (r: Dispatch)
    ensures
        r@ == dispatch_spec(role, action@),
{
    match action {
        Action::Log(line) => Dispatch::Show(line),
        Action::TempSend => match role {
            Role::Client => Dispatch::Send(String::from_str("Sending test message...")),
            Role::Server => Dispatch::Ignore,
        },
    }
}

/// The line that reports how a send ended: that it went through, or the
/// error that it failed with.
pub open spec fn send_outcome_spec(error: Option<Seq<char>>) -> Seq<char> {
    match error {
        None => "Test message sent successfully!"@,
        Some(text) => "Error sending test message: "@ + text,
    }
}

/// The line that reports how a send ended.
pub fn send_outcome(error: Option<&str>) -> (r: String)
    ensures
        r@ == send_outcome_spec(
            match error {
                None => None,
                Some(text) => Some(text@),
            },
        ),
{
    match error {
        None => String::from_str("Test message sent successfully!"),
        Some(text) => {
            let mut line = String::from_str("Error sending test message: ");
            line.append(text);
            line
        },
    }
}

} // verus!
