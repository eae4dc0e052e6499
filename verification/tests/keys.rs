use grafdag::keys::{arrow_move, key_command, ArrowMove, KeyCommand};
use grafdag::layout::{Flow, ScreenDir};
use grafdag::widget::{Dir, SearchTarget};

#[test]
fn keys_with_control() {
    assert_eq!(key_command("z", true, false), Some(KeyCommand::Undo));
    assert_eq!(key_command("Z", true, true), Some(KeyCommand::Redo));
    assert_eq!(key_command("y", true, false), Some(KeyCommand::Redo));
    assert_eq!(key_command("+", true, false), Some(KeyCommand::ZoomIn));
    assert_eq!(key_command("0", true, false), Some(KeyCommand::Fit));
    // Editing keys do nothing with control held.
    assert_eq!(key_command("l", true, false), None);
}

#[test]
fn keys_on_their_own() {
    assert_eq!(key_command("ArrowLeft", false, true), Some(KeyCommand::Arrow(ScreenDir::Left, true)));
    assert_eq!(key_command("ArrowUp", false, false), Some(KeyCommand::Arrow(ScreenDir::Up, false)));
    assert_eq!(key_command("PageDown", false, false), Some(KeyCommand::Island(true)));
    assert_eq!(key_command("Backspace", false, false), Some(KeyCommand::Delete));
    assert_eq!(key_command("Delete", false, false), Some(KeyCommand::Delete));
    assert_eq!(key_command("N", false, true), Some(KeyCommand::NewIsland));
    assert_eq!(key_command("n", false, false), Some(KeyCommand::NewNext));
    assert_eq!(key_command("/", false, false), Some(KeyCommand::Search(SearchTarget::Replace)));
    assert_eq!(key_command("?", false, true), Some(KeyCommand::Search(SearchTarget::Extend)));
    assert_eq!(key_command("y", false, false), None);
    assert_eq!(key_command("Arrow", false, false), None);
}

#[test]
fn arrows_follow_the_flow() {
    // Flowing down, down steps forward and up steps back.
    assert_eq!(arrow_move(Flow::Down, ScreenDir::Down, false), ArrowMove::Forward);
    assert_eq!(arrow_move(Flow::Down, ScreenDir::Up, false), ArrowMove::Backward);
    assert_eq!(arrow_move(Flow::Down, ScreenDir::Down, true), ArrowMove::SelectNext);
    assert_eq!(arrow_move(Flow::Down, ScreenDir::Up, true), ArrowMove::SelectPrev);
    // Flowing right, right steps forward.
    assert_eq!(arrow_move(Flow::Right, ScreenDir::Right, false), ArrowMove::Forward);
    assert_eq!(arrow_move(Flow::Right, ScreenDir::Left, true), ArrowMove::SelectPrev);
    // Across the flow, the arrows move among the anchor's links.
    assert_eq!(arrow_move(Flow::Down, ScreenDir::Left, false), ArrowMove::Sibling(Dir::Prev));
    assert_eq!(arrow_move(Flow::Down, ScreenDir::Right, true), ArrowMove::Sibling(Dir::Next));
    assert_eq!(arrow_move(Flow::Right, ScreenDir::Down, false), ArrowMove::Sibling(Dir::Next));
}
