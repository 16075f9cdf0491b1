use indexed_docs::sound::Sound;

#[test]
fn agent_done_sound_is_stored_under_its_name() {
    assert_eq!(Sound::AgentDone.file(), "agent_done");
}
