use kernel::kernel::{boot_message, key_action, prompt, tick, Tick, HttpRequest, Key, KeyAction, KernelState, Namespace, Pipe, Scheduler, Task, WsConnection};
use std::collections::BTreeMap;

fn state() -> KernelState {
    KernelState {
        scheduler: Scheduler,
        tasks: BTreeMap::<u32, Task>::new(),
        pipes: BTreeMap::<u32, Pipe>::new(),
        vfs: Namespace,
        http_handles: BTreeMap::<i32, HttpRequest>::new(),
        ws_handles: BTreeMap::<i32, WsConnection>::new(),
        input_buf: Vec::new(),
        terminal_size: (80, 24),
        next_task_id: 0,
        next_pipe_id: 0,
        exit_code: None,
    }
}

#[test]
fn input_is_buffered_in_order() {
    let mut k = state();
    k.deliver_input(b"ls");
    k.deliver_input(b" -la\n");
    assert_eq!(k.input_buf, b"ls -la\n".to_vec());
    k.deliver_input(b"");
    assert_eq!(k.input_buf, b"ls -la\n".to_vec());
}

#[test]
fn resize_records_size() {
    let mut k = state();
    k.resize(120, 40);
    assert_eq!(k.terminal_size, (120, 40));
}

#[test]
fn prompt_only_on_first_tick() {
    assert_eq!(tick(0), Tick { count: 1, show_prompt: true, status: 1 });
    assert_eq!(tick(1), Tick { count: 2, show_prompt: false, status: 1 });
    assert_eq!(tick(u32::MAX), Tick { count: 0, show_prompt: false, status: 1 });
    assert_eq!(prompt(), "$ ");
    assert_eq!(boot_message(), "memcontainers v0.1.0 booting...\n");
}

#[test]
fn keys_map_to_bytes() {
    assert_eq!(key_action(Key::Char('a')), KeyAction::Send(b'a'));
    assert_eq!(key_action(Key::Enter), KeyAction::Send(b'\n'));
    assert_eq!(key_action(Key::Backspace), KeyAction::Send(8));
    assert_eq!(key_action(Key::Interrupt), KeyAction::Stop);
    assert_eq!(key_action(Key::Other), KeyAction::Ignore);
    assert_eq!(key_action(Key::Char('\u{100}')), KeyAction::Ignore);
    assert_eq!(key_action(Key::Char('é')), KeyAction::Send(0xe9));
}
