use lucy::keys::{
    agent_may_start, agent_next, key_chord, key_sequence, modifier_vk, named_vk, reply_ends_run, trim_history, AgentNext,
    DEFAULT_AGENT_STEPS,
};

#[test]
fn modifiers_by_name() {
    assert_eq!(modifier_vk("Ctrl"), 0x11);
    assert_eq!(modifier_vk("control"), 0x11);
    assert_eq!(modifier_vk("ALT"), 0x12);
    assert_eq!(modifier_vk("shift"), 0x10);
    assert_eq!(modifier_vk("Win"), 0x5B);
    assert_eq!(modifier_vk("super"), 0x5B);
    assert_eq!(modifier_vk("meta"), 0);
}

#[test]
fn named_keys_and_letters() {
    assert_eq!(named_vk("Enter"), 0x0D);
    assert_eq!(named_vk("\n"), 0x0D);
    assert_eq!(named_vk("esc"), 0x1B);
    assert_eq!(named_vk("PageDown"), 0x22);
    assert_eq!(named_vk("F12"), 0x7B);
    assert_eq!(named_vk("a"), b'A');
    assert_eq!(named_vk("Z"), b'Z');
    assert_eq!(named_vk("5"), b'5');
    assert_eq!(named_vk("ñ"), 0);
    assert_eq!(named_vk("nothing"), 0);
    assert_eq!(named_vk(""), 0);
}

#[test]
fn chords_split_on_plus() {
    assert_eq!(key_chord("ctrl+shift+t"), (vec![0x11, 0x10], b'T'));
    assert_eq!(key_chord("alt+F4"), (vec![0x12], 0x73));
    assert_eq!(key_chord("bogus+c"), (vec![], b'C'));
    assert_eq!(key_chord("enter"), (vec![], 0x0D));
}

#[test]
fn key_actions_press_each_word() {
    assert_eq!(
        key_sequence("ctrl+a  Delete"),
        vec![(vec![0x11], b'A'), (vec![], 0x2E)]
    );
    assert!(key_sequence("   ").is_empty());
}

#[test]
fn history_keeps_first_and_last_six() {
    let m: Vec<u32> = (0..9).collect();
    assert_eq!(trim_history(m), vec![0, 3, 4, 5, 6, 7, 8]);
    let short: Vec<u32> = (0..8).collect();
    assert_eq!(trim_history(short.clone()), short);
}

#[test]
fn agent_start_needs_confirmation_and_no_other_run() {
    assert_eq!(
        agent_may_start(false, false),
        Err("Control local no confirmado por el usuario (gate de seguridad).".to_string())
    );
    assert_eq!(agent_may_start(true, true), Err("Ya hay un agente local en ejecución.".to_string()));
    assert_eq!(agent_may_start(true, false), Ok(()));
}

#[test]
fn agent_steps_until_cancel_or_limit() {
    assert_eq!(agent_next(true, 0, DEFAULT_AGENT_STEPS), AgentNext::Cancelled);
    assert_eq!(agent_next(false, 0, DEFAULT_AGENT_STEPS), AgentNext::Step { step: 1 });
    assert_eq!(agent_next(false, 14, DEFAULT_AGENT_STEPS), AgentNext::Step { step: 15 });
    assert_eq!(agent_next(false, 15, DEFAULT_AGENT_STEPS), AgentNext::LimitReached);
    assert!(reply_ends_run(0, false));
    assert!(reply_ends_run(2, true));
    assert!(!reply_ends_run(1, false));
}
