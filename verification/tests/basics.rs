use agent_engine::agentimpl::AgentImpl;
use agent_engine::priority::Priority;
use agent_engine::render::SpriteType;

#[test]
fn priority_carries_its_key() {
    let p = Priority::new(3, -2);
    assert_eq!(p.time, 3);
    assert_eq!(p.ordering, -2);
}

#[test]
fn handles_start_out_one_shot() {
    let a = AgentImpl::new("boid", 7);
    assert_eq!(a.repeating, false);
    assert_eq!(a.agent, "boid");
    assert_eq!(a.id(), 7);
}

#[test]
fn sprites_hand_back_their_emoji_code() {
    let s = SpriteType::Emoji(String::from("bird"));
    let code = s.emoji_code();
    assert_eq!(code, "bird");
}
