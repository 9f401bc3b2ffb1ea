//! The kernel's state and the decisions of its host entry points: taking
//! input, resizing the terminal, and the periodic tick.
use vstd::prelude::*;

use std::collections::BTreeMap;

verus! {

pub type TaskId = u32;

pub type PipeId = u32;

/// The task scheduler (not yet implemented).
pub struct Scheduler;

/// A task (not yet implemented).
pub struct Task;

/// A pipe (not yet implemented).
pub struct Pipe;

/// The kernel's namespace slot (not yet implemented).
pub struct Namespace;

/// An HTTP request in flight (not yet implemented).
pub struct HttpRequest;

/// An open WebSocket connection (not yet implemented).
pub struct WsConnection;

/// The whole state of the kernel.
pub struct KernelState {
    pub scheduler: Scheduler,
    pub tasks: BTreeMap<TaskId, Task>,
    pub pipes: BTreeMap<PipeId, Pipe>,
    pub vfs: Namespace,
    pub http_handles: BTreeMap<i32, HttpRequest>,
    pub ws_handles: BTreeMap<i32, WsConnection>,
    pub input_buf: Vec<u8>,
    pub terminal_size: (u16, u16),
    pub next_task_id: TaskId,
    pub next_pipe_id: PipeId,
    pub exit_code: Option<i32>,
}

impl KernelState {
    /// Appends bytes from the terminal to the input buffer.
    pub fn deliver_input(&mut self, bytes: &[u8])
        ensures
            final(self).input_buf@ == old(self).input_buf@ + bytes@,
            final(self).terminal_size == old(self).terminal_size,
            final(self).next_task_id == old(self).next_task_id,
            final(self).next_pipe_id == old(self).next_pipe_id,
            final(self).exit_code == old(self).exit_code,
            final(self).tasks@ == old(self).tasks@,
            final(self).pipes@ == old(self).pipes@,
            final(self).http_handles@ == old(self).http_handles@,
            final(self).ws_handles@ == old(self).ws_handles@,
    {
        let mut k: usize = 0;
        while k < bytes.len()
            invariant
                k <= bytes@.len(),
                self.input_buf@ == old(self).input_buf@ + bytes@.take(k as int),
                self.terminal_size == old(self).terminal_size,
                self.next_task_id == old(self).next_task_id,
                self.next_pipe_id == old(self).next_pipe_id,
                self.exit_code == old(self).exit_code,
                self.tasks@ == old(self).tasks@,
                self.pipes@ == old(self).pipes@,
                self.http_handles@ == old(self).http_handles@,
                self.ws_handles@ == old(self).ws_handles@,
            decreases bytes@.len() - k,
        {
            self.input_buf.push(bytes[k]);
            k = k + 1;
            assert(self.input_buf@ =~= old(self).input_buf@ + bytes@.take(k as int));
        }
        assert(bytes@.take(bytes@.len() as int) =~= bytes@);
    }

    /// Records the terminal's new size.
    pub fn resize(&mut self, cols: u16, rows: u16)
        ensures
            final(self).terminal_size == (cols, rows),
            final(self).input_buf@ == old(self).input_buf@,
            final(self).next_task_id == old(self).next_task_id,
            final(self).next_pipe_id == old(self).next_pipe_id,
            final(self).exit_code == old(self).exit_code,
            final(self).tasks@ == old(self).tasks@,
            final(self).pipes@ == old(self).pipes@,
            final(self).http_handles@ == old(self).http_handles@,
            final(self).ws_handles@ == old(self).ws_handles@,
    {
        self.terminal_size = (cols, rows);
    }
}

/// The line the kernel prints when it boots.
pub fn boot_message() -> (s: &'static str)
    ensures
        s@ == "memcontainers v0.1.0 booting...\n"@,
{
    "memcontainers v0.1.0 booting...\n"
}

/// The shell prompt.
pub fn prompt() -> (s: &'static str)
    ensures
        s@ == "$ "@,
{
    "$ "
}

/// What one tick decides.
#[derive(Debug, Clone, Copy, PartialEq, Eq, Structural)]
pub struct Tick {
    /// The tick count afterwards.
    pub count: u32,
    /// Whether the prompt is printed now.
    pub show_prompt: bool,
    /// The status the entry point returns: 1 while the kernel keeps
    /// running.
    pub status: i32,
}

/// One tick of the kernel given how many ticks came before (a count that
/// wraps around): the new count, whether the prompt is printed now, which
/// it is on the first tick only, and the status 1, the kernel running on.
pub fn tick(count: u32) -> (t: Tick)
    ensures
        t.count == (if count == u32::MAX {
            0
        } else {
            count + 1
        }),
        t.show_prompt == (count == 0),
        t.status == 1,
{
    Tick { count: count.wrapping_add(1), show_prompt: count == 0, status: 1 }
}

/// A key as the host reports it.
#[derive(Debug, Clone, Copy, PartialEq, Eq, Structural)]
pub enum Key {
    Char(char),
    Enter,
    Backspace,
    /// Control-C.
    Interrupt,
    Other,
}

/// What the host does with a key: stop, or send a byte to the kernel
/// (characters by their low eight bits, Enter as `\n`, Backspace as 0x08),
/// or nothing.
#[derive(Debug, Clone, Copy, PartialEq, Eq, Structural)]
pub enum KeyAction {
    Stop,
    Send(u8),
    Ignore,
}

pub open spec fn key_action_spec(k: Key) -> KeyAction {
    match k {
        Key::Interrupt => KeyAction::Stop,
        Key::Char(c) => if c as u32 % 256 == 0 {
            KeyAction::Ignore
        } else {
            KeyAction::Send((c as u32 % 256) as u8)
        },
        Key::Enter => KeyAction::Send(10),
        Key::Backspace => KeyAction::Send(8),
        Key::Other => KeyAction::Ignore,
    }
}

pub fn key_action(k: Key) -> (a: KeyAction)
    ensures
        a == key_action_spec(k),
{
    match k {
        Key::Interrupt => KeyAction::Stop,
        Key::Char(c) => {
            let b = ((c as u32) % 256) as u8;
            if b == 0 {
                KeyAction::Ignore
            } else {
                KeyAction::Send(b)
            }
        },
        Key::Enter => KeyAction::Send(10),
        Key::Backspace => KeyAction::Send(8),
        Key::Other => KeyAction::Ignore,
    }
}

} // verus!
