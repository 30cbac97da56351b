//! The command table.

use std::collections::HashSet;

use ambidiff_core::commands::{commands, find};

#[test]
fn ids_are_unique_and_namespaced() {
    let mut seen: HashSet<&str> = HashSet::new();
    let table = commands();
    for c in &table {
        assert!(c.id.starts_with("ambidiff."), "{}", c.id);
        assert!(seen.insert(c.id), "duplicate id {}", c.id);
    }
}

#[test]
fn tui_chords_do_not_collide() {
    let mut seen: HashSet<&str> = HashSet::new();
    let table = commands();
    for c in &table {
        for chord in &c.tui {
            assert!(
                seen.insert(*chord),
                "tui chord {chord} bound twice ({})",
                c.id
            );
        }
    }
}

#[test]
fn nvim_chords_do_not_collide() {
    let mut seen: HashSet<&str> = HashSet::new();
    let table = commands();
    for c in &table {
        for chord in &c.nvim {
            assert!(
                seen.insert(*chord),
                "nvim chord {chord} bound twice ({})",
                c.id
            );
        }
    }
}

#[test]
fn find_resolves_known_ids() {
    assert!(find("ambidiff.nav.nextHunk").is_some());
    assert!(find("ambidiff.nope").is_none());
}
