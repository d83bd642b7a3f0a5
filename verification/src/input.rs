//! Key and cursor history queues.  Each queue is a byte whose bit `k` holds
//! the key's state `k` frames ago; shifting once per frame and masking the
//! low bits answers "held", "just pressed" and "just released" without extra
//! state.

use vstd::prelude::*;

verus! {

use crate::common::{queue_shift_u8, queue_set_u8, queue_clear_u8, queue_pressed_u8};

/// Key identity as the input edge reports it.
#[derive(Debug, Copy, Clone, PartialEq, Eq, Structural)]
pub enum InputKey {
    W,
    A,
    S,
    D,
    Z,
    Left,
    Right,
    Up,
    Down,
    Space,
    LeftClick,
    RightClick,
    MiddleClick,
    MouseButton(u8),
}

/// Whether a key went up or down.
#[derive(Debug, Copy, Clone, PartialEq, Eq, Structural)]
pub enum KeyState {
    Up,
    Down,
}

/// What one key event does to the history queue of the key `this`: nothing
/// unless the event names `this`; otherwise the current-frame bit is set or
/// cleared.
pub open spec fn queue_after(q: u8, state: KeyState, key: InputKey, this: InputKey) -> u8 {
    if key == this {
        match state {
            KeyState::Down => q | 1,
            KeyState::Up => q & !1,
        }
    } else {
        q
    }
}

/// The per-frame key history queues that drive movement and block edits.
pub struct InputQueues {
    pub up_queue: u8,
    pub down_queue: u8,
    pub left_queue: u8,
    pub right_queue: u8,
    pub cursor_left_queue: u8,
    pub cursor_right_queue: u8,
}

impl InputQueues {
    /// All keys start released with no history.
    pub fn new() -> (r: InputQueues)
        ensures
            r.up_queue == 0,
            r.down_queue == 0,
            r.left_queue == 0,
            r.right_queue == 0,
            r.cursor_left_queue == 0,
            r.cursor_right_queue == 0,
    {
        InputQueues {
            up_queue: 0,
            down_queue: 0,
            left_queue: 0,
            right_queue: 0,
            cursor_left_queue: 0,
            cursor_right_queue: 0,
        }
    }

    /// Advances every queue one frame, keeping each key's current state in
    /// the fresh bit.
    pub fn shift_frame(&mut self)
        ensures
            final(self).up_queue == (old(self).up_queue & 1) | ((old(self).up_queue << 1) & 0xff),
            final(self).down_queue == (old(self).down_queue & 1) | ((old(self).down_queue << 1)
                & 0xff),
            final(self).left_queue == (old(self).left_queue & 1) | ((old(self).left_queue << 1)
                & 0xff),
            final(self).right_queue == (old(self).right_queue & 1) | ((old(self).right_queue << 1)
                & 0xff),
            final(self).cursor_left_queue == (old(self).cursor_left_queue & 1) | ((old(
                self,
            ).cursor_left_queue << 1) & 0xff),
            final(self).cursor_right_queue == (old(self).cursor_right_queue & 1) | ((old(
                self,
            ).cursor_right_queue << 1) & 0xff),
    {
        queue_shift_u8(&mut self.up_queue);
        queue_shift_u8(&mut self.down_queue);
        queue_shift_u8(&mut self.left_queue);
        queue_shift_u8(&mut self.right_queue);
        queue_shift_u8(&mut self.cursor_left_queue);
        queue_shift_u8(&mut self.cursor_right_queue);
    }

    /// Records one key event in the queue of the key it names; every other
    /// queue is untouched.
    pub fn apply_key_event(&mut self, state: KeyState, key: InputKey)
        ensures
            final(self).up_queue == queue_after(old(self).up_queue, state, key, InputKey::W),
            final(self).left_queue == queue_after(old(self).left_queue, state, key, InputKey::A),
            final(self).down_queue == queue_after(old(self).down_queue, state, key, InputKey::S),
            final(self).right_queue == queue_after(old(self).right_queue, state, key, InputKey::D),
            final(self).cursor_left_queue == queue_after(
                old(self).cursor_left_queue,
                state,
                key,
                InputKey::LeftClick,
            ),
            final(self).cursor_right_queue == queue_after(
                old(self).cursor_right_queue,
                state,
                key,
                InputKey::RightClick,
            ),
    {
        match (state, key) {
            (KeyState::Down, InputKey::W) => queue_set_u8(&mut self.up_queue),
            (KeyState::Down, InputKey::A) => queue_set_u8(&mut self.left_queue),
            (KeyState::Down, InputKey::S) => queue_set_u8(&mut self.down_queue),
            (KeyState::Down, InputKey::D) => queue_set_u8(&mut self.right_queue),
            (KeyState::Up, InputKey::W) => queue_clear_u8(&mut self.up_queue),
            (KeyState::Up, InputKey::A) => queue_clear_u8(&mut self.left_queue),
            (KeyState::Up, InputKey::S) => queue_clear_u8(&mut self.down_queue),
            (KeyState::Up, InputKey::D) => queue_clear_u8(&mut self.right_queue),
            (KeyState::Down, InputKey::LeftClick) => queue_set_u8(&mut self.cursor_left_queue),
            (KeyState::Down, InputKey::RightClick) => queue_set_u8(&mut self.cursor_right_queue),
            (KeyState::Up, InputKey::LeftClick) => queue_clear_u8(&mut self.cursor_left_queue),
            (KeyState::Up, InputKey::RightClick) => queue_clear_u8(&mut self.cursor_right_queue),
            _ => {},
        }
    }

    /// The move-left key is held this frame.
    pub fn left_held(&self) -> (r: bool)
        ensures
            r == (self.left_queue & 1 == 1),
    {
        self.left_queue & 0b1 == 0b1
    }

    /// The move-right key is held this frame.
    pub fn right_held(&self) -> (r: bool)
        ensures
            r == (self.right_queue & 1 == 1),
    {
        self.right_queue & 0b1 == 0b1
    }

    /// The jump key went down this frame: held now, released the frame
    /// before.
    pub fn jump_pressed(&self) -> (r: bool)
        ensures
            r == (self.up_queue & 3 == 1),
    {
        self.up_queue & 0b11 == 0b01
    }

    /// The left mouse button went down this frame.
    pub fn left_clicked(&self) -> (r: bool)
        ensures
            r == (self.cursor_left_queue & 1 == 1 && self.cursor_left_queue & 2 == 0),
    {
        queue_pressed_u8(self.cursor_left_queue)
    }

    /// The right mouse button went down this frame.
    pub fn right_clicked(&self) -> (r: bool)
        ensures
            r == (self.cursor_right_queue & 1 == 1 && self.cursor_right_queue & 2 == 0),
    {
        queue_pressed_u8(self.cursor_right_queue)
    }
}

} // verus!
