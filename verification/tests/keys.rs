use hyper::keys::{command_for, Command};
use hyper::outline::FilterMode;

#[test]
fn navigation_keys() {
    assert_eq!(command_for("j"), Some(Command::MoveDown));
    assert_eq!(command_for("DOWN"), Some(Command::MoveDown));
    assert_eq!(command_for("UP"), Some(Command::MoveUp));
    assert_eq!(command_for("h"), Some(Command::GotoParent));
    assert_eq!(command_for("RIGHT"), Some(Command::GotoFirstChild));
    assert_eq!(command_for("C-D"), Some(Command::PageDown));
    assert_eq!(command_for("PgUP"), Some(Command::PageUp));
    assert_eq!(command_for("g"), Some(Command::GotoFirst));
    assert_eq!(command_for("END"), Some(Command::GotoLast));
}

#[test]
fn fold_level_keys() {
    assert_eq!(command_for("1"), Some(Command::FoldToLevel(1)));
    assert_eq!(command_for("9"), Some(Command::FoldToLevel(9)));
    assert_eq!(command_for("a"), Some(Command::FoldToLevel(10)));
    assert_eq!(command_for("f"), Some(Command::FoldToLevel(15)));
    assert_eq!(command_for("0"), Some(Command::FoldToLevel(0)));
    assert_eq!(command_for("g"), Some(Command::GotoFirst));
}

#[test]
fn other_keys() {
    assert_eq!(command_for("q"), Some(Command::Quit));
    assert_eq!(command_for("Q"), Some(Command::QuitNoSave));
    assert_eq!(command_for(" "), Some(Command::ToggleFold));
    assert_eq!(command_for("SPACE"), Some(Command::ToggleFold));
    assert_eq!(command_for("S"), Some(Command::Filter(FilterMode::Show)));
    assert_eq!(command_for("H"), Some(Command::Filter(FilterMode::Hide)));
    assert_eq!(command_for("\r"), Some(Command::GotoReference));
    assert_eq!(command_for("ENTER"), Some(Command::GotoReference));
    assert_eq!(command_for("C"), Some(Command::ShowComplexity));
    assert_eq!(command_for("C-M"), Some(Command::GotoReference));
    assert_eq!(command_for("x"), None);
    assert_eq!(command_for(""), None);
}
