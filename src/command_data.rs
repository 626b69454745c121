//! Permission data attached to the bot's commands.
use vstd::prelude::*;

verus! {

/// Permission levels of the bot's commands.
#[allow(non_camel_case_types, clippy::upper_case_acronyms)]
#[derive(Clone, Copy, Debug, PartialEq, Eq, Structural)]
pub enum Permission {
    /// The command does not modify the database.
    READ,
    /// The command modifies the database lightly, as part of ordinary use.
    WRITE,
    /// The command modifies the database heavily, as part of its management.
    MANAGE,
    /// The command is not subject to any permission (default).
    NONE,
}

impl Default for Permission {
    fn default() -> (r: Permission)
        ensures
            r == Permission::NONE,
    {
        Permission::NONE
    }
}

/// Custom data attached to every command of the bot.
#[derive(Clone, Copy, Debug, PartialEq, Eq, Structural)]
pub struct CommandData {
    /// Permission level of the command.
    pub permission: Permission,
}

impl Default for CommandData {
    fn default() -> (r: CommandData)
        ensures
            r.permission == Permission::NONE,
    {
        CommandData { permission: Permission::default() }
    }
}

impl CommandData {
    /// Command data that differs from the default only by its permission level.
    pub fn perms(permission: Permission) -> (r: CommandData)
        ensures
            r.permission == permission,
    {
        CommandData { permission, ..CommandData::default() }
    }
}

} // verus!
