//! Scheduled commands and the entries that group them by trigger time.

use crate::time::Time;
use vstd::prelude::*;

verus! {

/// The lead value that marks a command as wanting no advance notice.
pub const NOTIFY_NONE: isize = -1;

/// The sentinel lead value carried by a derived notification command, so
/// that dispatch can tell it apart from a real command.
pub const NOTIFY_DERIVED: isize = -2;

/// One scheduled command: the program or audio file to open, the
/// arguments to pass along, whether the built-in player handles it, and
/// how many seconds of advance notice to give. A negative `notify` asks
/// for no notice; [`NOTIFY_DERIVED`] marks a derived notification entry.
#[derive(Debug)]
pub struct Command {
    pub command: String,
    pub parameters: String,
    pub audio: bool,
    pub notify: isize,
}

/// The external effect a command stands for, chosen by [`Command::kind`].
#[derive(Debug, Clone, Copy, PartialEq, Eq, Structural)]
pub enum ActionKind {
    /// Run the command, or open the target with its default handler.
    Execute,
    /// Play the target as audio with the built-in player.
    PlayAudio,
    /// Raise a desktop notification about the command.
    Notification,
}

impl Command {
    /// The effect this command stands for: derived entries notify, audio
    /// commands play, and everything else executes.
    pub open spec fn kind_spec(self) -> ActionKind {
        if self.notify == NOTIFY_DERIVED {
            ActionKind::Notification
        } else if self.audio {
            ActionKind::PlayAudio
        } else {
            ActionKind::Execute
        }
    }

    /// Chooses the external effect for this command. The choice reads
    /// this command alone, so commands in one slot are dispatched
    /// independently of one another.
    pub fn kind(&self) -> (k: ActionKind)
        ensures
            k == self.kind_spec(),
    {
        if self.notify == NOTIFY_DERIVED {
            ActionKind::Notification
        } else if self.audio {
            ActionKind::PlayAudio
        } else {
            ActionKind::Execute
        }
    }
}

impl Clone for Command {
    fn clone(&self) -> (r: Self)
        ensures
            r == *self,
    {
        Command {
            command: self.command.clone(),
            parameters: self.parameters.clone(),
            audio: self.audio,
            notify: self.notify,
        }
    }
}

impl Default for Command {
    /// An empty command: no target, no parameters, not audio, no notice.
    fn default() -> (r: Self)
        ensures
            r.command@ == Seq::<char>::empty(),
            r.parameters@ == Seq::<char>::empty(),
            r.audio == false,
            r.notify == NOTIFY_NONE,
    {
        Command {
            command: String::new(),
            parameters: String::new(),
            audio: false,
            notify: -1,
        }
    }
}

/// The derived notification command for `c`: the same display fields,
/// marked with the sentinel lead value.
pub open spec fn notification_of_spec(c: Command) -> Command {
    Command {
        command: c.command,
        parameters: c.parameters,
        audio: c.audio,
        notify: NOTIFY_DERIVED,
    }
}

/// Builds the derived notification command for `c`.
pub fn notification_of(c: &Command) -> (r: Command)
    ensures
        r == notification_of_spec(*c),
{
    Command {
        command: c.command.clone(),
        parameters: c.parameters.clone(),
        audio: c.audio,
        notify: NOTIFY_DERIVED,
    }
}

/// One slot of the event table: every command scheduled for one trigger
/// time, in insertion order.
#[derive(Debug)]
pub struct Item {
    pub time: Time,
    pub commands: Vec<Command>,
}

/// The dispatch plan for one slot: the external effect of every command,
/// in the slot's insertion order. Each entry depends on its own command
/// alone, so however one dispatched effect fares, every sibling keeps
/// its place in the plan.
pub fn dispatch_kinds(commands: &Vec<Command>) -> (r: Vec<ActionKind>)
    ensures
        r@.len() == commands@.len(),
        forall|i: int| 0 <= i < commands@.len() ==> r@[i] == (#[trigger] commands@[i]).kind_spec(),
{
    let mut r: Vec<ActionKind> = Vec::new();
    let mut i: usize = 0;
    while i < commands.len()
        invariant
            i <= commands@.len(),
            r@.len() == i,
            forall|k: int| 0 <= k < i ==> r@[k] == (#[trigger] commands@[k]).kind_spec(),
        decreases commands@.len() - i,
    {
        r.push(commands[i].kind());
        i = i + 1;
    }
    r
}

} // verus!
