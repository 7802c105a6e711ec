//! What each key of the viewer does.
use vstd::prelude::*;
use crate::outline::{chars_equal, FilterMode};
use crate::text::chars_of;

verus! {

/// An action of the viewer.
#[derive(Clone, Copy, Debug, PartialEq, Eq, Structural)]
pub enum Command {
    /// Quit, saving first when there are unsaved changes.
    Quit,
    /// Quit without saving.
    QuitNoSave,
    Help,
    MoveDown,
    MoveUp,
    GotoParent,
    GotoFirstChild,
    PageDown,
    PageUp,
    GotoFirst,
    GotoLast,
    ToggleFold,
    CollapseAll,
    ExpandAll,
    /// Fold everything at this level or deeper (`0` folds everything, so
    /// that only top-level items show).
    FoldToLevel(usize),
    Save,
    OpenFile,
    /// Ask for a keyword and filter by it.
    Filter(FilterMode),
    ClearFilter,
    ToggleHighlight,
    TogglePresentation,
    GotoReference,
    GotoNextTemplate,
    ShowComplexity,
}

/// The command bound to a key name (as the terminal input reports it).
pub open spec fn spec_command(k: Seq<char>) -> Option<Command> {
    if k == "q"@ {
        Some(Command::Quit)
    } else if k == "Q"@ {
        Some(Command::QuitNoSave)
    } else if k == "?"@ {
        Some(Command::Help)
    } else if k == "j"@ || k == "DOWN"@ {
        Some(Command::MoveDown)
    } else if k == "k"@ || k == "UP"@ {
        Some(Command::MoveUp)
    } else if k == "h"@ || k == "LEFT"@ {
        Some(Command::GotoParent)
    } else if k == "l"@ || k == "RIGHT"@ {
        Some(Command::GotoFirstChild)
    } else if k == "PgDOWN"@ || k == "C-D"@ {
        Some(Command::PageDown)
    } else if k == "PgUP"@ || k == "C-U"@ {
        Some(Command::PageUp)
    } else if k == "HOME"@ || k == "g"@ {
        Some(Command::GotoFirst)
    } else if k == "END"@ || k == "G"@ {
        Some(Command::GotoLast)
    } else if k == "SPACE"@ || k == " "@ {
        Some(Command::ToggleFold)
    } else if k == "z"@ {
        Some(Command::CollapseAll)
    } else if k == "Z"@ {
        Some(Command::ExpandAll)
    } else if k.len() == 1 && '0' <= k[0] <= '9' {
        Some(Command::FoldToLevel((k[0] as int - '0' as int) as usize))
    } else if k.len() == 1 && 'a' <= k[0] <= 'f' {
        Some(Command::FoldToLevel((10 + (k[0] as int - 'a' as int)) as usize))
    } else if k == "W"@ {
        Some(Command::Save)
    } else if k == "o"@ {
        Some(Command::OpenFile)
    } else if k == "S"@ {
        Some(Command::Filter(FilterMode::Show))
    } else if k == "H"@ {
        Some(Command::Filter(FilterMode::Hide))
    } else if k == "F"@ {
        Some(Command::ClearFilter)
    } else if k == "*"@ {
        Some(Command::ToggleHighlight)
    } else if k == "p"@ {
        Some(Command::TogglePresentation)
    } else if k == "ENTER"@ || k == "\n"@ || k == "\r"@ || k == "C-M"@ || k == "C-J"@ || k
        == "r"@ {
        Some(Command::GotoReference)
    } else if k == "t"@ {
        Some(Command::GotoNextTemplate)
    } else if k == "C"@ {
        Some(Command::ShowComplexity)
    } else {
        None
    }
}

/// Whether the key is `name`.
fn is(k: &Vec<char>, name: &str) -> (r: bool)
    ensures
        r == (k@ == name@),
{
    let n = chars_of(name);
    chars_equal(k, &n)
}

/// The command bound to a key, if any.
pub fn command_for(key: &str) -> (r: Option<Command>)
    ensures
        r == spec_command(key@),
{
    let k = chars_of(key);
    if is(&k, "q") {
        Some(Command::Quit)
    } else if is(&k, "Q") {
        Some(Command::QuitNoSave)
    } else if is(&k, "?") {
        Some(Command::Help)
    } else if is(&k, "j") || is(&k, "DOWN") {
        Some(Command::MoveDown)
    } else if is(&k, "k") || is(&k, "UP") {
        Some(Command::MoveUp)
    } else if is(&k, "h") || is(&k, "LEFT") {
        Some(Command::GotoParent)
    } else if is(&k, "l") || is(&k, "RIGHT") {
        Some(Command::GotoFirstChild)
    } else if is(&k, "PgDOWN") || is(&k, "C-D") {
        Some(Command::PageDown)
    } else if is(&k, "PgUP") || is(&k, "C-U") {
        Some(Command::PageUp)
    } else if is(&k, "HOME") || is(&k, "g") {
        Some(Command::GotoFirst)
    } else if is(&k, "END") || is(&k, "G") {
        Some(Command::GotoLast)
    } else if is(&k, "SPACE") || is(&k, " ") {
        Some(Command::ToggleFold)
    } else if is(&k, "z") {
        Some(Command::CollapseAll)
    } else if is(&k, "Z") {
        Some(Command::ExpandAll)
    } else if k.len() == 1 && '0' <= k[0] && k[0] <= '9' {
        let d = (k[0] as u32 - '0' as u32) as usize;
        Some(Command::FoldToLevel(d))
    } else if k.len() == 1 && 'a' <= k[0] && k[0] <= 'f' {
        let d = (k[0] as u32 - 'a' as u32) as usize;
        Some(Command::FoldToLevel(10 + d))
    } else if is(&k, "W") {
        Some(Command::Save)
    } else if is(&k, "o") {
        Some(Command::OpenFile)
    } else if is(&k, "S") {
        Some(Command::Filter(FilterMode::Show))
    } else if is(&k, "H") {
        Some(Command::Filter(FilterMode::Hide))
    } else if is(&k, "F") {
        Some(Command::ClearFilter)
    } else if is(&k, "*") {
        Some(Command::ToggleHighlight)
    } else if is(&k, "p") {
        Some(Command::TogglePresentation)
    } else if is(&k, "ENTER") || is(&k, "\n") || is(&k, "\r") || is(&k, "C-M") || is(&k, "C-J")
        || is(&k, "r") {
        Some(Command::GotoReference)
    } else if is(&k, "t") {
        Some(Command::GotoNextTemplate)
    } else if is(&k, "C") {
        Some(Command::ShowComplexity)
    } else {
        None
    }
}

/// Each command is bound to exactly its keys: a vi key and its named key
/// are aliases (`j`/`DOWN`, `k`/`UP`, `h`/`LEFT`, `l`/`RIGHT`, …), a digit
/// `n` folds to level `n` and a letter `a`..`f` to levels 10..15, and no
/// other key has a command.
pub proof fn lemma_key_bindings(k: Seq<char>, n: usize)
    ensures
        spec_command(k) == Some(Command::Quit) <==> k == "q"@,
        spec_command(k) == Some(Command::QuitNoSave) <==> k == "Q"@,
        spec_command(k) == Some(Command::Help) <==> k == "?"@,
        spec_command(k) == Some(Command::MoveDown) <==> k == "j"@ || k == "DOWN"@,
        spec_command(k) == Some(Command::MoveUp) <==> k == "k"@ || k == "UP"@,
        spec_command(k) == Some(Command::GotoParent) <==> k == "h"@ || k == "LEFT"@,
        spec_command(k) == Some(Command::GotoFirstChild) <==> k == "l"@ || k == "RIGHT"@,
        spec_command(k) == Some(Command::PageDown) <==> k == "PgDOWN"@ || k == "C-D"@,
        spec_command(k) == Some(Command::PageUp) <==> k == "PgUP"@ || k == "C-U"@,
        spec_command(k) == Some(Command::GotoFirst) <==> k == "HOME"@ || k == "g"@,
        spec_command(k) == Some(Command::GotoLast) <==> k == "END"@ || k == "G"@,
        spec_command(k) == Some(Command::ToggleFold) <==> k == "SPACE"@ || k == " "@,
        spec_command(k) == Some(Command::CollapseAll) <==> k == "z"@,
        spec_command(k) == Some(Command::ExpandAll) <==> k == "Z"@,
        spec_command(k) == Some(Command::FoldToLevel(n)) <==> k.len() == 1 && (('0' <= k[0] <= '9' && n
            == k[0] as int - '0' as int) || ('a' <= k[0] <= 'f' && n == 10 + (k[0] as int - 'a' as int))),
        spec_command(k) == Some(Command::Save) <==> k == "W"@,
        spec_command(k) == Some(Command::OpenFile) <==> k == "o"@,
        spec_command(k) == Some(Command::Filter(FilterMode::Show)) <==> k == "S"@,
        spec_command(k) == Some(Command::Filter(FilterMode::Hide)) <==> k == "H"@,
        spec_command(k) == Some(Command::ClearFilter) <==> k == "F"@,
        spec_command(k) == Some(Command::ToggleHighlight) <==> k == "*"@,
        spec_command(k) == Some(Command::TogglePresentation) <==> k == "p"@,
        spec_command(k) == Some(Command::GotoReference) <==> k == "ENTER"@ || k == "\n"@ || k
            == "\r"@ || k == "C-M"@ || k == "C-J"@ || k == "r"@,
        spec_command(k) == Some(Command::GotoNextTemplate) <==> k == "t"@,
        spec_command(k) == Some(Command::ShowComplexity) <==> k == "C"@,
{
    reveal_strlit("q");
    assert("q"@.len() == 1 && "q"@[0] == 'q');
    reveal_strlit("Q");
    assert("Q"@.len() == 1 && "Q"@[0] == 'Q');
    reveal_strlit("?");
    assert("?"@.len() == 1 && "?"@[0] == '?');
    reveal_strlit("j");
    assert("j"@.len() == 1 && "j"@[0] == 'j');
    reveal_strlit("DOWN");
    assert("DOWN"@.len() == 4 && "DOWN"@[0] == 'D' && "DOWN"@[1] == 'O' && "DOWN"@[2] == 'W' && "DOWN"@[3] == 'N');
    reveal_strlit("k");
    assert("k"@.len() == 1 && "k"@[0] == 'k');
    reveal_strlit("UP");
    assert("UP"@.len() == 2 && "UP"@[0] == 'U' && "UP"@[1] == 'P');
    reveal_strlit("h");
    assert("h"@.len() == 1 && "h"@[0] == 'h');
    reveal_strlit("LEFT");
    assert("LEFT"@.len() == 4 && "LEFT"@[0] == 'L' && "LEFT"@[1] == 'E' && "LEFT"@[2] == 'F' && "LEFT"@[3] == 'T');
    reveal_strlit("l");
    assert("l"@.len() == 1 && "l"@[0] == 'l');
    reveal_strlit("RIGHT");
    assert("RIGHT"@.len() == 5 && "RIGHT"@[0] == 'R' && "RIGHT"@[1] == 'I' && "RIGHT"@[2] == 'G' && "RIGHT"@[3] == 'H' && "RIGHT"@[4] == 'T');
    reveal_strlit("PgDOWN");
    assert("PgDOWN"@.len() == 6 && "PgDOWN"@[0] == 'P' && "PgDOWN"@[1] == 'g' && "PgDOWN"@[2] == 'D' && "PgDOWN"@[3] == 'O' && "PgDOWN"@[4] == 'W' && "PgDOWN"@[5] == 'N');
    reveal_strlit("C-D");
    assert("C-D"@.len() == 3 && "C-D"@[0] == 'C' && "C-D"@[1] == '-' && "C-D"@[2] == 'D');
    reveal_strlit("PgUP");
    assert("PgUP"@.len() == 4 && "PgUP"@[0] == 'P' && "PgUP"@[1] == 'g' && "PgUP"@[2] == 'U' && "PgUP"@[3] == 'P');
    reveal_strlit("C-U");
    assert("C-U"@.len() == 3 && "C-U"@[0] == 'C' && "C-U"@[1] == '-' && "C-U"@[2] == 'U');
    reveal_strlit("HOME");
    assert("HOME"@.len() == 4 && "HOME"@[0] == 'H' && "HOME"@[1] == 'O' && "HOME"@[2] == 'M' && "HOME"@[3] == 'E');
    reveal_strlit("g");
    assert("g"@.len() == 1 && "g"@[0] == 'g');
    reveal_strlit("END");
    assert("END"@.len() == 3 && "END"@[0] == 'E' && "END"@[1] == 'N' && "END"@[2] == 'D');
    reveal_strlit("G");
    assert("G"@.len() == 1 && "G"@[0] == 'G');
    reveal_strlit("SPACE");
    assert("SPACE"@.len() == 5 && "SPACE"@[0] == 'S' && "SPACE"@[1] == 'P' && "SPACE"@[2] == 'A' && "SPACE"@[3] == 'C' && "SPACE"@[4] == 'E');
    reveal_strlit(" ");
    assert(" "@.len() == 1 && " "@[0] == ' ');
    reveal_strlit("z");
    assert("z"@.len() == 1 && "z"@[0] == 'z');
    reveal_strlit("Z");
    assert("Z"@.len() == 1 && "Z"@[0] == 'Z');
    reveal_strlit("W");
    assert("W"@.len() == 1 && "W"@[0] == 'W');
    reveal_strlit("o");
    assert("o"@.len() == 1 && "o"@[0] == 'o');
    reveal_strlit("S");
    assert("S"@.len() == 1 && "S"@[0] == 'S');
    reveal_strlit("H");
    assert("H"@.len() == 1 && "H"@[0] == 'H');
    reveal_strlit("F");
    assert("F"@.len() == 1 && "F"@[0] == 'F');
    reveal_strlit("*");
    assert("*"@.len() == 1 && "*"@[0] == '*');
    reveal_strlit("p");
    assert("p"@.len() == 1 && "p"@[0] == 'p');
    reveal_strlit("ENTER");
    assert("ENTER"@.len() == 5 && "ENTER"@[0] == 'E' && "ENTER"@[1] == 'N' && "ENTER"@[2] == 'T' && "ENTER"@[3] == 'E' && "ENTER"@[4] == 'R');
    reveal_strlit("\n");
    assert("\n"@.len() == 1 && "\n"@[0] == '\n');
    reveal_strlit("\r");
    assert("\r"@.len() == 1 && "\r"@[0] == '\r');
    reveal_strlit("C-M");
    assert("C-M"@.len() == 3 && "C-M"@[0] == 'C' && "C-M"@[1] == '-' && "C-M"@[2] == 'M');
    reveal_strlit("C-J");
    assert("C-J"@.len() == 3 && "C-J"@[0] == 'C' && "C-J"@[1] == '-' && "C-J"@[2] == 'J');
    reveal_strlit("r");
    assert("r"@.len() == 1 && "r"@[0] == 'r');
    reveal_strlit("t");
    assert("t"@.len() == 1 && "t"@[0] == 't');
    reveal_strlit("C");
    assert("C"@.len() == 1 && "C"@[0] == 'C');
    // The keys differ in length or in one of their first three characters.
    if k.len() >= 3 {
        assert(k[0] == k[0] && k[1] == k[1] && k[2] == k[2]);
    } else if k.len() >= 1 {
        assert(k[0] == k[0]);
    }
}

} // verus!
