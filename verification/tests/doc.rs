//! Runs of text and the blocks they make up.

use omalibre::doc::{RunBuilder, RunStyle};

fn plain() -> RunStyle {
    RunStyle { bold: false, italic: false, code: false, link: false }
}

fn bold() -> RunStyle {
    RunStyle { bold: true, ..plain() }
}

fn finished(parts: &[(&str, RunStyle)]) -> Vec<(String, RunStyle)> {
    let mut builder = RunBuilder::new();
    for (text, style) in parts {
        builder.push(text, *style);
    }
    builder.finish().into_iter().map(|run| (run.text, run.style)).collect()
}

#[test]
fn a_blank_run_in_front_does_not_shield_the_next() {
    assert_eq!(finished(&[(" ", plain()), (" x", bold())]), vec![("x".to_string(), bold())]);
}

#[test]
fn a_blank_run_behind_does_not_shield_the_last() {
    assert_eq!(finished(&[("x ", bold()), (" \t", plain())]), vec![("x".to_string(), bold())]);
}

#[test]
fn finishing_trims_the_edges() {
    assert_eq!(
        finished(&[("  a ", plain()), (" ", bold()), (" b  ", plain())]),
        vec![
            ("a ".to_string(), plain()),
            (" ".to_string(), bold()),
            (" b".to_string(), plain()),
        ]
    );
    assert_eq!(finished(&[(" ", plain()), ("\n", bold())]), vec![]);
}

#[test]
fn verbatim_runs_keep_their_edges() {
    let mut builder = RunBuilder::new();
    builder.push("    y ", plain());
    let runs = builder.finish_verbatim();
    assert_eq!(runs.len(), 1);
    assert_eq!(runs[0].text, "    y ");
}

#[test]
fn characters_are_counted_as_they_come() {
    let mut builder = RunBuilder::new();
    builder.push("äb", plain());
    builder.push(" c", bold());
    assert_eq!(builder.char_count(), 4);
    assert_eq!(builder.collected().into_iter().collect::<String>(), "äb c");
}
