//! Starting the engine on a scenario: which engine to start it with, and
//! whether a game may start at all.
//!
//! One game at a time. Zero-K is single-instance, and two engines fighting
//! over the same write directory corrupts the config. Finding the install,
//! spawning the engine and waiting for it are the application's; the
//! decisions - refuse a second game, clear the flag however a game ends, and
//! what is announced - are made here.
use vstd::prelude::*;

use crate::scenario::{blank, is_blank};
use crate::text::{chars_of, string_of, trim, trim_exec};

verus! {

broadcast use vstd::string::group_string_axioms;

/// What a launch with no installed engine is told.
pub open spec fn no_engine_message(root: Seq<char>) -> Seq<char> {
    "Zero-K is installed at "@ + root
        + " but no engine is. Start a game once in the official lobby to download one, then try again."@
}

/// The engine version to actually use.
///
/// A version the caller named is honoured, so a scenario pinned to one keeps
/// running on it. Otherwise the newest installed one wins (`installed` is
/// newest first), and an install with none says so in a sentence rather than
/// failing at the spawn.
pub fn resolve_engine(asked: &str, installed: &Vec<String>, root: &str) -> (r: Result<String, String>)
    ensures
        match r {
            Ok(v) => if trim(asked@).len() > 0 {
                v@ == trim(asked@)
            } else {
                installed@.len() > 0 && v@ == installed@[0]@
            },
            Err(e) => trim(asked@).len() == 0 && installed@.len() == 0 && e@ == no_engine_message(
                root@,
            ),
        },
{
    let wanted = trim_exec(&chars_of(asked));
    if wanted.len() > 0 {
        return Ok(string_of(wanted.as_slice()));
    }
    if installed.len() > 0 {
        return Ok(installed[0].clone());
    }
    let mut message = "Zero-K is installed at ".to_string();
    message.push_str(root);
    message.push_str(
        " but no engine is. Start a game once in the official lobby to download one, then try again.",
    );
    Err(message)
}

// ------------------------------------------------------------ a session -----

/// What the editor is told about the engine's comings and goings.
pub enum GameStatus {
    Launched { pid: u32 },
    Exited { code: Option<i32> },
    Failed { reason: String },
}

/// One session's launch state: whether a game is running, and where the
/// user pointed us for Zero-K, if anywhere.
pub struct Game {
    running: bool,
    root: Option<String>,
}

/// A session as `(running, root)`.
pub open spec fn root_view(root: Option<String>) -> Option<Seq<char>> {
    match root {
        Some(r) => Some(r@),
        None => None,
    }
}

impl View for Game {
    type V = (bool, Option<Seq<char>>);

    closed spec fn view(&self) -> (bool, Option<Seq<char>>) {
        (self.running, root_view(self.root))
    }
}

/// The root a session keeps when pointed somewhere: a blank one means "look
/// for it", the same as none.
pub open spec fn chosen_root(root: Option<Seq<char>>) -> Option<Seq<char>> {
    match root {
        Some(r) => if is_blank(r) {
            None
        } else {
            Some(r)
        },
        None => None,
    }
}

/// Asking to launch: refused while a game runs, and otherwise the session is
/// running from then on. The second half says whether it was accepted.
pub open spec fn launch_spec(g: (bool, Option<Seq<char>>)) -> ((bool, Option<Seq<char>>), bool) {
    if g.0 {
        (g, false)
    } else {
        ((true, g.1), true)
    }
}

/// However a game ends - it exits, or it never started - the session is no
/// longer running.
pub open spec fn end_spec(g: (bool, Option<Seq<char>>)) -> (bool, Option<Seq<char>>) {
    (false, g.1)
}

pub open spec fn already_running() -> Seq<char> {
    "A game is already running."@
}

impl Game {
    pub fn new() -> (g: Game)
        ensures
            g@ == (false, None::<Seq<char>>),
    {
        Game { running: false, root: None }
    }

    pub fn is_running(&self) -> (r: bool)
        ensures
            r == self@.0,
    {
        self.running
    }

    /// Where the user pointed us, if anywhere.
    pub fn root(&self) -> (r: Option<String>)
        ensures
            root_view(r) == self@.1,
    {
        match &self.root {
            Some(r) => Some(r.clone()),
            None => None,
        }
    }

    /// Point the session at an install, or back at "look for it".
    pub fn point_at(&mut self, root: Option<String>)
        ensures
            final(self)@ == (old(self)@.0, chosen_root(root_view(root))),
    {
        self.root = match root {
            Some(r) => if blank(r.as_str()) {
                None
            } else {
                Some(r)
            },
            None => None,
        };
    }

    /// Claim the session for a launch: refused, and nothing changed, while a
    /// game is already running.
    pub fn begin(&mut self) -> (r: Result<(), String>)
        ensures
            final(self)@ == launch_spec(old(self)@).0,
            r is Ok <==> launch_spec(old(self)@).1,
            r matches Err(e) ==> e@ == already_running(),
    {
        if self.running {
            return Err("A game is already running.".to_string());
        }
        self.running = true;
        Ok(())
    }

    /// The engine could not be started: the session is free again, and this
    /// is what is announced.
    pub fn failed(&mut self, reason: String) -> (st: GameStatus)
        ensures
            final(self)@ == end_spec(old(self)@),
            st matches GameStatus::Failed { reason: r } && r@ == reason@,
    {
        self.running = false;
        GameStatus::Failed { reason }
    }

    /// The engine exited: the session is free again, and this is what is
    /// announced.
    pub fn exited(&mut self, code: Option<i32>) -> (st: GameStatus)
        ensures
            final(self)@ == end_spec(old(self)@),
            st == (GameStatus::Exited { code }),
    {
        self.running = false;
        GameStatus::Exited { code }
    }
}

impl Default for Game {
    fn default() -> (g: Game)
        ensures
            g@ == (false, None::<Seq<char>>),
    {
        Game::new()
    }
}

/// One game at a time: while a game runs, another launch is refused and
/// changes nothing; however a game ends, the next launch is accepted; and
/// neither touches where the session was pointed.
pub proof fn law_one_game_at_a_time(g: (bool, Option<Seq<char>>))
    ensures
        !launch_spec(launch_spec(g).0).1,
        launch_spec(launch_spec(g).0).0 == launch_spec(g).0,
        launch_spec(end_spec(g)).1,
        launch_spec(g).0.1 == g.1,
        end_spec(g).1 == g.1,
{
}

} // verus!
