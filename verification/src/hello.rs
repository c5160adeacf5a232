//! The protocol of the first, greeting-only coordinator: a new worker is
//! welcomed and given one fixed test computation.
use vstd::prelude::*;

verus! {

/// What the greeting coordinator tells a worker.
#[derive(Debug, Clone)]
pub enum CoordinatorCommand {
    Welcome(String),
    Compute { width: u32, height: u32 },
}

/// The commands a newly connected worker receives, in order: a welcome,
/// then a 100 x 100 test computation.
pub fn commands_for_new_worker() -> (cmds: Vec<CoordinatorCommand>)
    ensures
        cmds@.len() == 2,
        cmds@[0] matches CoordinatorCommand::Welcome(text) && text@ == "Hello distributed"@,
        cmds@[1] matches CoordinatorCommand::Compute { width, height } && width == 100 && height
            == 100,
{
    let mut cmds: Vec<CoordinatorCommand> = Vec::new();
    cmds.push(CoordinatorCommand::Welcome(String::from_str("Hello distributed")));
    cmds.push(CoordinatorCommand::Compute { width: 100, height: 100 });
    cmds
}

} // verus!
