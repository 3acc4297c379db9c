//! The decisions of the game loop: what an event of the window does to the
//! state of the game, and what the caller has to do about it. The loop
//! itself, with the window, is the caller's.

use std::collections::VecDeque;
use vstd::prelude::*;

verus! {

/// A key of the keyboard, as far as the game tells keys apart.
#[derive(Clone, Copy, Debug, PartialEq, Eq, Structural)]
pub enum Key {
    /// The key that ends the game.
    Escape,
    /// Any other key, with its code.
    Other(u32),
}

/// An event of the window, as far as the game reads it.
#[derive(Clone, Copy, Debug, PartialEq, Eq, Structural)]
pub enum WindowInput {
    /// The user asked to close the window.
    CloseRequested,
    /// The window has a new size, in pixels.
    Resized { width: i32, height: i32 },
    /// A key was released.
    KeyReleased(Key),
    /// Anything else.
    Other,
}

/// What the caller has to do after an event.
#[derive(Clone, Copy, Debug, PartialEq, Eq, Structural)]
pub enum Action {
    /// Nothing.
    Nothing,
    /// Give the viewport this size and put it to use.
    ResizeViewport { width: i32, height: i32 },
}

/// The state of the game as a mathematical value.
pub struct GameView {
    /// The loop goes on.
    pub running: bool,
    /// The keys released and not yet handled, oldest first.
    pub key_presses: Seq<Key>,
}

/// The keys among `keys` that the game does not handle itself, in their
/// order.
pub open spec fn unhandled(keys: Seq<Key>) -> Seq<Key>
    decreases keys.len(),
{
    if keys.len() == 0 {
        keys
    } else if keys.last() == Key::Escape {
        unhandled(keys.drop_last())
    } else {
        unhandled(keys.drop_last()).push(keys.last())
    }
}

/// What of the game's state the loop decides on.
pub struct GameState {
    running: bool,
    key_presses: VecDeque<Key>,
}

impl View for GameState {
    type V = GameView;

    closed spec fn view(&self) -> GameView {
        GameView { running: self.running, key_presses: self.key_presses@ }
    }
}

impl GameState {
    /// A running game with no key waiting.
    pub fn new() -> (state: GameState)
        ensures
            state@.running,
            state@.key_presses == Seq::<Key>::empty(),
    {
        GameState { running: true, key_presses: VecDeque::new() }
    }

    /// Whether the loop goes on.
    pub fn is_running(&self) -> (running: bool)
        ensures
            running == self@.running,
    {
        self.running
    }

    /// Ends the loop.
    pub fn exit(&mut self)
        ensures
            !final(self)@.running,
            final(self)@.key_presses == old(self)@.key_presses,
    {
        self.running = false;
    }

    /// Takes one event of the window: a request to close ends the loop, a
    /// new size is handed on for the viewport, a released key waits to be
    /// handled, and anything else is passed over.
    pub fn handle_window_event(&mut self, event: &WindowInput) -> (action: Action)
        ensures
            final(self)@.running == (old(self)@.running && *event != WindowInput::CloseRequested),
            final(self)@.key_presses == match *event {
                WindowInput::KeyReleased(key) => old(self)@.key_presses.push(key),
                _ => old(self)@.key_presses,
            },
            action == match *event {
                WindowInput::Resized { width, height } => Action::ResizeViewport { width, height },
                _ => Action::Nothing,
            },
    {
        match *event {
            WindowInput::CloseRequested => {
                self.exit();
                Action::Nothing
            },
            WindowInput::Resized { width, height } => Action::ResizeViewport { width, height },
            WindowInput::KeyReleased(key) => {
                self.key_presses.push_back(key);
                Action::Nothing
            },
            WindowInput::Other => Action::Nothing,
        }
    }

    /// Handles the keys that wait, oldest first: Escape ends the loop, every
    /// other key is handed back as not handled.
    pub fn handle_key_presses(&mut self) -> (rest: Vec<Key>)
        ensures
            final(self)@.key_presses == Seq::<Key>::empty(),
            final(self)@.running == (old(self)@.running && !old(self)@.key_presses.contains(
                Key::Escape,
            )),
            rest@ == unhandled(old(self)@.key_presses),
    {
        let ghost keys = self.key_presses@;
        let ghost was_running = self.running;
        let mut rest: Vec<Key> = Vec::new();
        let ghost mut done: int = 0;
        loop
            invariant
                0 <= done <= keys.len(),
                self.key_presses@ == keys.subrange(done, keys.len() as int),
                rest@ == unhandled(keys.subrange(0, done)),
                self.running == (was_running && !keys.subrange(0, done).contains(Key::Escape)),
            ensures
                done == keys.len(),
                self.key_presses@ == Seq::<Key>::empty(),
                rest@ == unhandled(keys.subrange(0, done)),
                self.running == (was_running && !keys.subrange(0, done).contains(Key::Escape)),
            decreases keys.len() - done,
        {
            let ghost before = keys.subrange(0, done);
            let ghost after = keys.subrange(0, done + 1);
            match self.key_presses.pop_front() {
                Some(key) => {
                    proof {
                        assert(key == keys[done]);
                        assert(after.drop_last() =~= before);
                        assert(after.last() == key);
                        assert(self.key_presses@ =~= keys.subrange(done + 1, keys.len() as int));
                        assert(after.contains(Key::Escape) <==> (before.contains(Key::Escape)
                            || key == Key::Escape)) by {
                            if before.contains(Key::Escape) {
                                let i = choose|i: int|
                                    0 <= i < before.len() && before[i] == Key::Escape;
                                assert(after[i] == Key::Escape);
                            }
                            if key == Key::Escape {
                                assert(after[done] == Key::Escape);
                            }
                            if after.contains(Key::Escape) {
                                let i = choose|i: int|
                                    0 <= i < after.len() && after[i] == Key::Escape;
                                if i < done {
                                    assert(before[i] == Key::Escape);
                                }
                            }
                        }
                    }
                    match key {
                        Key::Escape => {
                            self.exit();
                        },
                        Key::Other(_) => {
                            rest.push(key);
                        },
                    }
                    proof {
                        done = done + 1;
                    }
                },
                None => {
                    break ;
                },
            }
        }
        proof {
            assert(keys.subrange(0, done) =~= keys);
        }
        rest
    }
}

} // verus!
