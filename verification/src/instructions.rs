//! The instruction set of the language and the compiler's settings.
use vstd::prelude::*;
use crate::text::views;

verus! {

/// The instructions a program is made of.
#[derive(Debug, Clone, Copy, PartialEq, Eq, Structural)]
pub enum Commands {
    Push,
    Dump,
    Add,
    Dup,
    If,
    Else,
    EndIf,
    Sub,
    While,
    EndWhile,
    G,
    L,
    E,
    Ne,
    Ge,
    Le,
    PrintStringConst,
    Syscall,
    Mul,
    Mem,
    Read,
    Write,
    Swap,
    Drop,
    Over,
    Rot,
    Func,
    EndFunc,
    Unknown,
    Div,
}

/// The name of a command, as it is displayed.
pub open spec fn command_name(c: Commands) -> Seq<char> {
    match c {
        Commands::Push => "Push"@,
        Commands::Dump => "Dump"@,
        Commands::Add => "Add"@,
        Commands::Dup => "Dup"@,
        Commands::If => "If"@,
        Commands::Else => "Else"@,
        Commands::EndIf => "EndIf"@,
        Commands::Sub => "Sub"@,
        Commands::While => "While"@,
        Commands::EndWhile => "EndWhile"@,
        Commands::G => "G"@,
        Commands::L => "L"@,
        Commands::E => "E"@,
        Commands::Ne => "Ne"@,
        Commands::Ge => "Ge"@,
        Commands::Le => "Le"@,
        Commands::PrintStringConst => "PrintStringConst"@,
        Commands::Syscall => "Syscall"@,
        Commands::Mul => "Mul"@,
        Commands::Mem => "Mem"@,
        Commands::Read => "Read"@,
        Commands::Write => "Write"@,
        Commands::Swap => "Swap"@,
        Commands::Drop => "Drop"@,
        Commands::Over => "Over"@,
        Commands::Rot => "Rot"@,
        Commands::Func => "Func"@,
        Commands::EndFunc => "EndFunc"@,
        Commands::Unknown => "Unknown"@,
        Commands::Div => "Div"@,
    }
}

impl Commands {
    /// The name of the command (the variant's name).
    pub fn name(&self) -> (r: &'static str)
        ensures
            r@ == command_name(*self),
    {
        match self {
            Commands::Push => "Push",
            Commands::Dump => "Dump",
            Commands::Add => "Add",
            Commands::Dup => "Dup",
            Commands::If => "If",
            Commands::Else => "Else",
            Commands::EndIf => "EndIf",
            Commands::Sub => "Sub",
            Commands::While => "While",
            Commands::EndWhile => "EndWhile",
            Commands::G => "G",
            Commands::L => "L",
            Commands::E => "E",
            Commands::Ne => "Ne",
            Commands::Ge => "Ge",
            Commands::Le => "Le",
            Commands::PrintStringConst => "PrintStringConst",
            Commands::Syscall => "Syscall",
            Commands::Mul => "Mul",
            Commands::Mem => "Mem",
            Commands::Read => "Read",
            Commands::Write => "Write",
            Commands::Swap => "Swap",
            Commands::Drop => "Drop",
            Commands::Over => "Over",
            Commands::Rot => "Rot",
            Commands::Func => "Func",
            Commands::EndFunc => "EndFunc",
            Commands::Unknown => "Unknown",
            Commands::Div => "Div",
        }
    }
}

/// A command with its arguments, as the parser produces it.
pub type Command = (Commands, Vec<String>);

/// A command with the character sequences of its arguments.
pub type CommandView = (Commands, Seq<Seq<char>>);

/// The mathematical view of a list of commands.
pub open spec fn cmd_views(cmds: Seq<Command>) -> Seq<CommandView> {
    cmds.map_values(|c: Command| (c.0, views(c.1@)))
}

/// The settings a program can be compiled or simulated with.
#[derive(Debug, Clone, Copy, PartialEq, Eq, Structural)]
pub enum Setting {
    MemorySize,
    FunctionDepthLimit,
}

/// A setting with its value.
pub type TSetting = (Setting, u64);

/// A list of settings with their values.
pub struct Settings {
    pub settings_array: Vec<TSetting>,
}

/// Whether the list holds an entry for `s`.
pub open spec fn has_setting(entries: Seq<TSetting>, s: Setting) -> bool {
    exists|i: int| 0 <= i < entries.len() && (#[trigger] entries[i]).0 == s
}

/// The value of the first entry for `s` in the list, if there is one.
pub open spec fn setting_value(entries: Seq<TSetting>, s: Setting) -> Option<u64>
    decreases entries.len(),
{
    if entries.len() == 0 {
        None
    } else if entries[0].0 == s {
        Some(entries[0].1)
    } else {
        setting_value(entries.skip(1), s)
    }
}

/// There is a value for `s` exactly when the list holds an entry for it.
pub proof fn lemma_setting_value_some(entries: Seq<TSetting>, s: Setting)
    ensures
        setting_value(entries, s) is Some <==> has_setting(entries, s),
    decreases entries.len(),
{
    if entries.len() > 0 {
        lemma_setting_value_some(entries.skip(1), s);
        if has_setting(entries, s) && entries[0].0 != s {
            let i = choose|i: int| 0 <= i < entries.len() && (#[trigger] entries[i]).0 == s;
            assert(entries.skip(1)[i - 1] == entries[i]);
        }
        if has_setting(entries.skip(1), s) {
            let i = choose|i: int|
                0 <= i < entries.skip(1).len() && (#[trigger] entries.skip(1)[i]).0 == s;
            assert(entries[i + 1] == entries.skip(1)[i]);
        }
    }
}

/// Adding an entry for a setting that the list does not hold leaves the value
/// of every other setting as it was and gives the new one its value.
pub proof fn lemma_setting_value_push(entries: Seq<TSetting>, e: TSetting, s: Setting)
    requires
        !has_setting(entries, e.0),
    ensures
        setting_value(entries.push(e), s) == (if s == e.0 {
            Some(e.1)
        } else {
            setting_value(entries, s)
        }),
    decreases entries.len(),
{
    if entries.len() == 0 {
        assert(entries.push(e).skip(1) =~= Seq::<TSetting>::empty());
        assert(entries.push(e)[0] == e);
        assert(setting_value(entries, s) is None);
        assert(setting_value(entries.push(e).skip(1), s) is None);
    } else {
        assert(entries.push(e).skip(1) =~= entries.skip(1).push(e));
        assert(entries.push(e)[0] == entries[0]);
        assert(entries[0].0 != e.0);
        if has_setting(entries.skip(1), e.0) {
            let i = choose|i: int|
                0 <= i < entries.skip(1).len() && (#[trigger] entries.skip(1)[i]).0 == e.0;
            assert(entries[i + 1] == entries.skip(1)[i]);
        }
        lemma_setting_value_push(entries.skip(1), e, s);
        assert(setting_value(entries.push(e), s) == (if entries[0].0 == s {
            Some(entries[0].1)
        } else {
            setting_value(entries.skip(1).push(e), s)
        }));
    }
}

impl Settings {
    /// An empty list of settings.
    pub fn new() -> (r: Self)
        ensures
            r.settings_array@ == Seq::<TSetting>::empty(),
    {
        Self { settings_array: Vec::new() }
    }

    /// The value of the first entry for `setting`, if the list holds one.
    pub fn find_value(&self, setting: Setting) -> (r: Option<u64>)
        ensures
            r == setting_value(self.settings_array@, setting),
    {
        let mut i: usize = 0;
        let ghost entries = self.settings_array@;
        assert(entries.skip(0) =~= entries);
        while i < self.settings_array.len()
            invariant
                i <= entries.len(),
                entries == self.settings_array@,
                setting_value(entries, setting) == setting_value(entries.skip(i as int), setting),
            decreases entries.len() - i,
        {
            let (s, v) = self.settings_array[i];
            assert(entries.skip(i as int)[0] == entries[i as int]);
            if s == setting {
                return Some(v);
            }
            assert(entries.skip(i as int).skip(1) =~= entries.skip(i + 1));
            i += 1;
        }
        None
    }

    /// Adds a setting with its value; the list must not hold that setting yet.
    pub fn add_setting(&mut self, setting: Setting, value: u64)
        requires
            !has_setting(old(self).settings_array@, setting),
        ensures
            final(self).settings_array@ == old(self).settings_array@.push((setting, value)),
    {
        self.settings_array.push((setting, value));
    }

    /// The value of `setting`, which the list must hold.
    pub fn get_value(&self, setting: Setting) -> (r: u64)
        requires
            has_setting(self.settings_array@, setting),
        ensures
            setting_value(self.settings_array@, setting) == Some(r),
    {
        proof {
            lemma_setting_value_some(self.settings_array@, setting);
        }
        match self.find_value(setting) {
            Some(v) => v,
            None => 0,
        }
    }
}

/// What `get_value` gives back of what `add_setting` wrote: the new value
/// for the added setting, and the old value for every other one.
pub proof fn law_get_after_add(before: Seq<TSetting>, setting: Setting, value: u64, other: Setting)
    requires
        !has_setting(before, setting),
    ensures
        has_setting(before.push((setting, value)), setting),
        setting_value(before.push((setting, value)), setting) == Some(value),
        other != setting ==> setting_value(before.push((setting, value)), other)
            == setting_value(before, other),
{
    lemma_setting_value_push(before, (setting, value), setting);
    lemma_setting_value_push(before, (setting, value), other);
    assert(before.push((setting, value))[before.len() as int].0 == setting);
}

} // verus!
