use redis_game::membership::{is_spectator, Membership, SPECTATOR};

fn members_of(m: &Membership) -> Vec<String> {
    m.keys().clone()
}

fn strings(names: &[&str]) -> Vec<String> {
    names.iter().map(|n| n.to_string()).collect()
}

#[test]
fn the_spectator_is_bradshaw() {
    assert_eq!(SPECTATOR, "Bradshaw");
    assert!(is_spectator("Bradshaw"));
    assert!(!is_spectator("bradshaw"));
    assert!(!is_spectator(""));
}

#[test]
fn insert_keeps_join_order_and_drops_duplicates() {
    let mut m = Membership::new();
    assert!(m.is_empty());
    assert!(m.insert("Alice".to_string()));
    assert!(m.insert("Bob".to_string()));
    assert!(!m.insert("Alice".to_string()));
    assert!(m.insert("Carol".to_string()));
    assert_eq!(members_of(&m), strings(&["Alice", "Bob", "Carol"]));
    assert_eq!(m.len(), 3);
    assert!(m.contains("Bob"));
    assert_eq!(m.position("Carol"), Some(2));
    assert_eq!(m.position("Dave"), None);
}

#[test]
fn the_spectator_is_never_inserted() {
    let mut m = Membership::new();
    assert!(!m.insert("Bradshaw".to_string()));
    assert!(m.is_empty());
    assert!(!m.contains("Bradshaw"));
}

#[test]
fn remove_moves_the_last_key_into_the_gap() {
    let mut m = Membership::new();
    for name in ["Alice", "Bob", "Carol", "Dave"] {
        m.insert(name.to_string());
    }
    assert!(m.remove("Bob"));
    assert_eq!(members_of(&m), strings(&["Alice", "Dave", "Carol"]));
    assert!(m.remove("Carol"));
    assert_eq!(members_of(&m), strings(&["Alice", "Dave"]));
    assert!(!m.remove("Carol"));
    assert_eq!(members_of(&m), strings(&["Alice", "Dave"]));
    assert!(m.remove("Alice"));
    assert!(m.remove("Dave"));
    assert!(m.is_empty());
    assert!(!m.remove("Dave"));
}

#[test]
fn absorb_leaves_out_the_own_name_the_spectator_and_repeats() {
    let mut m = Membership::new();
    let changed = m.absorb(&strings(&["Bob", "Alice", "Bradshaw", "Bob", "Carol"]), "Alice");
    assert!(changed);
    assert_eq!(members_of(&m), strings(&["Bob", "Carol"]));
    let changed = m.absorb(&strings(&["Carol", "Bob", "Alice"]), "Alice");
    assert!(!changed);
    assert_eq!(members_of(&m), strings(&["Bob", "Carol"]));
    let changed = m.absorb(&strings(&["Dave"]), "Alice");
    assert!(changed);
    assert_eq!(members_of(&m), strings(&["Bob", "Carol", "Dave"]));
    assert!(!m.absorb(&Vec::new(), "Alice"));
}
