use nexus_core::checksum::{checksum_for_state, digest_listing, mix_word, sort_for_digest};
use nexus_core::snapshot::{EntitySnapshot, Vec3};

fn v(x: f32, y: f32, z: f32) -> Vec3 {
    Vec3::new(x.to_bits(), y.to_bits(), z.to_bits())
}

fn first() -> EntitySnapshot {
    EntitySnapshot { id: 1, pos: v(1.0, 2.0, 3.0), vel: v(0.0, 0.0, 0.0), size: v(1.0, 1.0, 1.0) }
}

fn second() -> EntitySnapshot {
    EntitySnapshot { id: 2, pos: v(0.0, 0.0, 0.0), vel: v(0.0, 10.0, 0.0), size: v(0.5, 0.5, 0.5) }
}

#[test]
fn checksum_of_the_empty_state_has_its_exact_value() {
    assert_eq!(checksum_for_state(0, &[]), 12638153115695167455);
    assert_eq!(checksum_for_state(7, &[]), 12638149817160282822);
}

#[test]
fn checksum_of_one_entity_has_its_exact_value() {
    assert_eq!(checksum_for_state(1, &[first()]), 3937750910249651524);
}

#[test]
fn checksum_ignores_the_order_of_the_entities() {
    let a = checksum_for_state(3, &[first(), second()]);
    let b = checksum_for_state(3, &[second(), first()]);
    assert_eq!(a, b);
    assert_eq!(a, 14067795495573911266);
}

#[test]
fn checksum_changes_with_any_single_component() {
    let base = checksum_for_state(3, &[first(), second()]);
    let mut moved = first();
    moved.pos.y = 2.5f32.to_bits();
    assert_ne!(checksum_for_state(3, &[moved, second()]), base);
    let mut faster = second();
    faster.vel.z = 1.0f32.to_bits();
    assert_ne!(checksum_for_state(3, &[first(), faster]), base);
    let mut larger = second();
    larger.size.x = 0.75f32.to_bits();
    assert_ne!(checksum_for_state(3, &[first(), larger]), base);
}

#[test]
fn checksum_tells_signed_zeros_and_nan_payloads_apart() {
    let mut plus = first();
    plus.vel.x = 0.0f32.to_bits();
    let mut minus = first();
    minus.vel.x = (-0.0f32).to_bits();
    assert_ne!(checksum_for_state(1, &[plus]), checksum_for_state(1, &[minus]));
    let mut quiet = first();
    quiet.pos.x = 0x7fc0_0000;
    let mut other = first();
    other.pos.x = 0x7fc0_0001;
    assert_ne!(checksum_for_state(1, &[quiet]), checksum_for_state(1, &[other]));
}

#[test]
fn checksum_changes_with_the_tick() {
    assert_ne!(checksum_for_state(1, &[first()]), checksum_for_state(2, &[first()]));
}

#[test]
fn sort_for_digest_orders_by_id_then_content() {
    let mut twin = first();
    twin.pos.x = 0.5f32.to_bits();
    let sorted = sort_for_digest(&[second(), first(), twin]);
    assert_eq!(sorted, vec![twin, first(), second()]);
    assert_eq!(digest_listing(3, &sorted), checksum_for_state(3, &[first(), twin, second()]));
}

#[test]
fn mix_word_is_an_exclusive_or_and_a_multiplication() {
    assert_eq!(mix_word(0, 0), 0);
    assert_eq!(mix_word(0, 1), 0x0000_0100_0000_01b3);
    assert_eq!(mix_word(0xcbf2_9ce4_8422_2325, 0), 12638153115695167455);
}

#[test]
fn precedes_is_a_strict_order_by_id_first() {
    assert!(first().precedes(&second()));
    assert!(!second().precedes(&first()));
    assert!(!first().precedes(&first()));
}
