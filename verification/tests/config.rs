use rust_prompt_armor::{ArmorConfig, Framing, Policy};

#[test]
fn default_has_safe_values() {
    let c = ArmorConfig::default();
    // Half of the input, in parts per million.
    assert_eq!(c.max_signal_loss_ppm, 500_000);
    assert_eq!(c.max_input_bytes, 1_048_576);
    assert_eq!(c.fence_policy, Policy::Sanitize);
    assert_eq!(c.pattern_policy, Policy::Sanitize);
    assert_eq!(c.encoding_policy, Policy::WarnOnly);
    assert_eq!(c.framing, Framing::Tagged);
}

#[test]
fn config_is_send_sync_clone() {
    fn assert_traits<T: Send + Sync + Clone>() {}
    assert_traits::<ArmorConfig>();
    assert_traits::<Policy>();
    assert_traits::<Framing>();
}

#[test]
fn config_copy_keeps_every_field() {
    let c = ArmorConfig {
        max_signal_loss_ppm: 7,
        max_input_bytes: 9,
        fence_policy: Policy::Strict,
        pattern_policy: Policy::WarnOnly,
        encoding_policy: Policy::Sanitize,
        framing: Framing::Bare,
    };
    let d = c.copy();
    assert_eq!(d.max_signal_loss_ppm, 7);
    assert_eq!(d.max_input_bytes, 9);
    assert_eq!(d.fence_policy, Policy::Strict);
    assert_eq!(d.pattern_policy, Policy::WarnOnly);
    assert_eq!(d.encoding_policy, Policy::Sanitize);
    assert_eq!(d.framing, Framing::Bare);
}
