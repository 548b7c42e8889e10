//! The round: whose turn it is, and the queue of commands waiting to be
//! applied.

use vstd::prelude::*;
use std::collections::VecDeque;
use crate::grid::{Cell, TokenId};

verus! {

/// An action waiting in the round's queue. Each variant carries what it needs
/// to be applied, and names its token by identity.
#[derive(Clone, Copy, Debug, PartialEq, Eq, Structural)]
pub enum RoundCommand {
    /// Walk `token` to `destination` along its cheapest path.
    MoveFar { token: TokenId, destination: Cell },
    /// End the turn of `token` and hand it to the next in turn order.
    GiveTurn { token: TokenId },
}

impl RoundCommand {
    pub fn move_far(token: TokenId, destination: Cell) -> (r: RoundCommand)
        ensures
            r == (RoundCommand::MoveFar { token, destination }),
    {
        RoundCommand::MoveFar { token, destination }
    }

    pub fn give_turn(token: TokenId) -> (r: RoundCommand)
        ensures
            r == (RoundCommand::GiveTurn { token }),
    {
        RoundCommand::GiveTurn { token }
    }

    /// The token the command acts on.
    pub fn token(&self) -> (r: TokenId)
        ensures
            r == self.token_spec(),
    {
        match self {
            RoundCommand::MoveFar { token, .. } => *token,
            RoundCommand::GiveTurn { token } => *token,
        }
    }

    pub open spec fn token_spec(&self) -> TokenId {
        match self {
            RoundCommand::MoveFar { token, .. } => *token,
            RoundCommand::GiveTurn { token } => *token,
        }
    }
}

/// Announcements of state changes, collected for the game loop to read.
#[derive(Clone, Copy, Debug, PartialEq, Eq, Structural)]
pub enum GameEvent {
    /// `entity` has just been given the turn.
    IsNowActive { entity: TokenId },
}

/// Turn owner and pending commands. The round is executing exactly while
/// commands are pending; input that starts new actions is meant to wait until
/// it is not.
pub struct Round {
    pub turn_owner: Option<TokenId>,
    pub commands: VecDeque<RoundCommand>,
}

impl Round {
    /// A round with nothing queued, whose turn belongs to `turn_owner`.
    pub fn new(turn_owner: Option<TokenId>) -> (r: Round)
        ensures
            r.turn_owner == turn_owner,
            r.commands@ == Seq::<RoundCommand>::empty(),
    {
        Round { turn_owner, commands: VecDeque::new() }
    }

    pub open spec fn executing(&self) -> bool {
        self.commands@.len() > 0
    }

    /// True while any command is waiting to be applied.
    pub fn is_executing(&self) -> (r: bool)
        ensures
            r == self.executing(),
    {
        self.commands.len() > 0
    }

    /// Queues `cmd` ahead of everything pending: it is applied next.
    pub fn push_front_command(&mut self, cmd: RoundCommand)
        ensures
            final(self).commands@ == seq![cmd] + old(self).commands@,
            final(self).turn_owner == old(self).turn_owner,
            final(self).executing(),
    {
        self.commands.push_front(cmd);
    }

    /// Queues `cmd` behind everything pending.
    pub fn push_back_command(&mut self, cmd: RoundCommand)
        ensures
            final(self).commands@ == old(self).commands@.push(cmd),
            final(self).turn_owner == old(self).turn_owner,
            final(self).executing(),
    {
        self.commands.push_back(cmd);
    }

    /// Takes the command at the head of the queue, if any.
    pub fn pop_command(&mut self) -> (r: Option<RoundCommand>)
        ensures
            final(self).turn_owner == old(self).turn_owner,
            old(self).commands@.len() == 0 ==> r is None && final(self).commands@ == old(
                self,
            ).commands@,
            old(self).commands@.len() > 0 ==> r == Some(old(self).commands@[0])
                && final(self).commands@ == old(self).commands@.drop_first(),
    {
        let r = self.commands.pop_front();
        proof {
            if r is Some {
                assert(final(self).commands@ =~= old(self).commands@.drop_first());
            }
        }
        r
    }
}

} // verus!
