//! The editor's keys: which command a key press stands for.
use crate::layout::{spec_motion, Flow, Motion, ScreenDir};
use crate::server::chars_of;
use crate::widget::{Dir, SearchTarget};
use vstd::prelude::*;

verus! {

/// A command of the editor that a key stands for.
#[derive(Clone, Copy, Debug, PartialEq, Eq, Structural)]
pub enum KeyCommand {
    Undo,
    Redo,
    ZoomIn,
    ZoomOut,
    Fit,
    /// A move along an arrow's direction on screen, with shift held or not.
    Arrow(ScreenDir, bool),
    /// To the next island, or the previous one.
    Island(bool),
    TogglePanel,
    Escape,
    Link,
    Unlink,
    Reverse,
    NewNext,
    NewSibling,
    NewIsland,
    Delete,
    Enter,
    Edit,
    EditStart,
    EditLink,
    Search(SearchTarget),
}

/// Whether the key's name is `name`.
fn is_key(key: &str, name: &str) -> (r: bool)
    ensures
        r == (key@ == name@),
{
    let k = chars_of(key);
    let n = chars_of(name);
    if k.len() != n.len() {
        return false;
    }
    for i in 0..k.len()
        invariant
            k@ == key@,
            n@ == name@,
            k.len() == n.len(),
            forall|j: int| 0 <= j < i ==> k@[j] == n@[j],
    {
        if k[i] != n[i] {
            return false;
        }
    }
    assert(k@ =~= n@);
    true
}

/// The command a key stands for with control (or command) held.
pub open spec fn control_key_command(key: Seq<char>) -> Option<KeyCommand> {
    if key == "z"@ {
        Some(KeyCommand::Undo)
    } else if key == "Z"@ || key == "y"@ {
        Some(KeyCommand::Redo)
    } else if key == "="@ || key == "+"@ {
        Some(KeyCommand::ZoomIn)
    } else if key == "-"@ {
        Some(KeyCommand::ZoomOut)
    } else if key == "0"@ {
        Some(KeyCommand::Fit)
    } else {
        None
    }
}

/// The command a key stands for on its own (`shift` telling whether shift
/// is held).
pub open spec fn plain_key_command(key: Seq<char>, shift: bool) -> Option<KeyCommand> {
    if key == "ArrowLeft"@ {
        Some(KeyCommand::Arrow(ScreenDir::Left, shift))
    } else if key == "ArrowRight"@ {
        Some(KeyCommand::Arrow(ScreenDir::Right, shift))
    } else if key == "ArrowDown"@ {
        Some(KeyCommand::Arrow(ScreenDir::Down, shift))
    } else if key == "ArrowUp"@ {
        Some(KeyCommand::Arrow(ScreenDir::Up, shift))
    } else if key == "PageDown"@ {
        Some(KeyCommand::Island(true))
    } else if key == "PageUp"@ {
        Some(KeyCommand::Island(false))
    } else if key == "Tab"@ {
        Some(KeyCommand::TogglePanel)
    } else if key == "Escape"@ {
        Some(KeyCommand::Escape)
    } else if key == "l"@ {
        Some(KeyCommand::Link)
    } else if key == "u"@ {
        Some(KeyCommand::Unlink)
    } else if key == "r"@ {
        Some(KeyCommand::Reverse)
    } else if key == "n"@ {
        Some(KeyCommand::NewNext)
    } else if key == "s"@ {
        Some(KeyCommand::NewSibling)
    } else if key == "N"@ {
        Some(KeyCommand::NewIsland)
    } else if key == "Delete"@ || key == "Backspace"@ {
        Some(KeyCommand::Delete)
    } else if key == "Enter"@ {
        Some(KeyCommand::Enter)
    } else if key == "e"@ {
        Some(KeyCommand::Edit)
    } else if key == "E"@ {
        Some(KeyCommand::EditStart)
    } else if key == "L"@ {
        Some(KeyCommand::EditLink)
    } else if key == "/"@ {
        Some(KeyCommand::Search(SearchTarget::Replace))
    } else if key == "?"@ {
        Some(KeyCommand::Search(SearchTarget::Extend))
    } else if key == "+"@ || key == "="@ {
        Some(KeyCommand::ZoomIn)
    } else if key == "-"@ {
        Some(KeyCommand::ZoomOut)
    } else if key == "0"@ {
        Some(KeyCommand::Fit)
    } else if key == "z"@ {
        Some(KeyCommand::Undo)
    } else if key == "Z"@ {
        Some(KeyCommand::Redo)
    } else {
        None
    }
}

/// The link keys: on its own, `l` and only `l` links the selected pair, `u`
/// and only `u` unlinks it, `r` and only `r` turns the selected link
/// around, whether shift is held or not; with control held no key does
/// any of these.
pub proof fn lemma_link_keys(key: Seq<char>, shift: bool)
    ensures
        plain_key_command(key, shift) == Some(KeyCommand::Link) <==> key == "l"@,
        plain_key_command(key, shift) == Some(KeyCommand::Unlink) <==> key == "u"@,
        plain_key_command(key, shift) == Some(KeyCommand::Reverse) <==> key == "r"@,
        control_key_command(key) != Some(KeyCommand::Link),
        control_key_command(key) != Some(KeyCommand::Unlink),
        control_key_command(key) != Some(KeyCommand::Reverse),
{
    reveal_strlit("l");
    reveal_strlit("u");
    reveal_strlit("r");
    reveal_strlit("ArrowLeft");
    reveal_strlit("ArrowRight");
    reveal_strlit("ArrowDown");
    reveal_strlit("ArrowUp");
    reveal_strlit("PageDown");
    reveal_strlit("PageUp");
    reveal_strlit("Tab");
    reveal_strlit("Escape");
    if key == "l"@ {
        assert(key.len() == 1 && key[0] == 'l');
        assert(key != "ArrowLeft"@ && key != "ArrowRight"@ && key != "ArrowDown"@ && key != "ArrowUp"@);
        assert(key != "PageDown"@ && key != "PageUp"@ && key != "Tab"@ && key != "Escape"@);
    }
    if key == "u"@ {
        assert(key.len() == 1 && key[0] == 'u');
        assert(key != "ArrowLeft"@ && key != "ArrowRight"@ && key != "ArrowDown"@ && key != "ArrowUp"@);
        assert(key != "PageDown"@ && key != "PageUp"@ && key != "Tab"@ && key != "Escape"@);
        assert(key != "l"@);
    }
    if key == "r"@ {
        assert(key.len() == 1 && key[0] == 'r');
        assert(key != "ArrowLeft"@ && key != "ArrowRight"@ && key != "ArrowDown"@ && key != "ArrowUp"@);
        assert(key != "PageDown"@ && key != "PageUp"@ && key != "Tab"@ && key != "Escape"@);
        assert(key != "l"@ && key != "u"@);
    }
}

/// Which keys give each command on their own, shift held or not: each
/// command has its own keys, so no key is taken for another command.
pub proof fn lemma_plain_keys(key: Seq<char>, shift: bool)
    ensures
        plain_key_command(key, shift) == Some(KeyCommand::Island(true)) <==> key == "PageDown"@,
        plain_key_command(key, shift) == Some(KeyCommand::Island(false)) <==> key == "PageUp"@,
        plain_key_command(key, shift) == Some(KeyCommand::TogglePanel) <==> key == "Tab"@,
        plain_key_command(key, shift) == Some(KeyCommand::Escape) <==> key == "Escape"@,
        plain_key_command(key, shift) == Some(KeyCommand::NewNext) <==> key == "n"@,
        plain_key_command(key, shift) == Some(KeyCommand::NewSibling) <==> key == "s"@,
        plain_key_command(key, shift) == Some(KeyCommand::NewIsland) <==> key == "N"@,
        plain_key_command(key, shift) == Some(KeyCommand::Delete) <==> (key == "Delete"@ || key == "Backspace"@),
        plain_key_command(key, shift) == Some(KeyCommand::Enter) <==> key == "Enter"@,
        plain_key_command(key, shift) == Some(KeyCommand::Edit) <==> key == "e"@,
        plain_key_command(key, shift) == Some(KeyCommand::EditStart) <==> key == "E"@,
        plain_key_command(key, shift) == Some(KeyCommand::EditLink) <==> key == "L"@,
        plain_key_command(key, shift) == Some(KeyCommand::Search(SearchTarget::Replace)) <==> key == "/"@,
        plain_key_command(key, shift) == Some(KeyCommand::Search(SearchTarget::Extend)) <==> key == "?"@,
        plain_key_command(key, shift) == Some(KeyCommand::Undo) <==> key == "z"@,
        plain_key_command(key, shift) == Some(KeyCommand::Redo) <==> key == "Z"@,
        plain_key_command(key, shift) == Some(KeyCommand::ZoomIn) <==> (key == "+"@ || key == "="@),
        plain_key_command(key, shift) == Some(KeyCommand::ZoomOut) <==> key == "-"@,
        plain_key_command(key, shift) == Some(KeyCommand::Fit) <==> key == "0"@,
        plain_key_command(key, shift) == Some(KeyCommand::Arrow(ScreenDir::Left, shift)) <==> key == "ArrowLeft"@,
        plain_key_command(key, shift) == Some(KeyCommand::Arrow(ScreenDir::Right, shift)) <==> key == "ArrowRight"@,
        plain_key_command(key, shift) == Some(KeyCommand::Arrow(ScreenDir::Down, shift)) <==> key == "ArrowDown"@,
        plain_key_command(key, shift) == Some(KeyCommand::Arrow(ScreenDir::Up, shift)) <==> key == "ArrowUp"@,
        control_key_command(key) == Some(KeyCommand::Undo) <==> key == "z"@,
        control_key_command(key) == Some(KeyCommand::Redo) <==> (key == "Z"@ || key == "y"@),
        control_key_command(key) == Some(KeyCommand::ZoomIn) <==> (key == "="@ || key == "+"@),
        control_key_command(key) == Some(KeyCommand::ZoomOut) <==> key == "-"@,
        control_key_command(key) == Some(KeyCommand::Fit) <==> key == "0"@,
{
    reveal_strlit("ArrowLeft");
    reveal_strlit("ArrowRight");
    reveal_strlit("ArrowDown");
    reveal_strlit("ArrowUp");
    reveal_strlit("PageDown");
    reveal_strlit("PageUp");
    reveal_strlit("Tab");
    reveal_strlit("Escape");
    reveal_strlit("l");
    reveal_strlit("u");
    reveal_strlit("r");
    reveal_strlit("n");
    reveal_strlit("s");
    reveal_strlit("N");
    reveal_strlit("Delete");
    reveal_strlit("Backspace");
    reveal_strlit("Enter");
    reveal_strlit("e");
    reveal_strlit("E");
    reveal_strlit("L");
    reveal_strlit("/");
    reveal_strlit("?");
    reveal_strlit("+");
    reveal_strlit("=");
    reveal_strlit("-");
    reveal_strlit("0");
    reveal_strlit("z");
    reveal_strlit("Z");
    reveal_strlit("y");
    assert("l"@[0] == 'l' && "u"@[0] == 'u' && "r"@[0] == 'r' && "n"@[0] == 'n' && "s"@[0] == 's' && "N"@[0] == 'N' && "e"@[0] == 'e' && "E"@[0] == 'E' && "L"@[0] == 'L' && "/"@[0] == '/' && "?"@[0] == '?' && "+"@[0] == '+' && "="@[0] == '=' && "-"@[0] == '-' && "0"@[0] == '0' && "z"@[0] == 'z' && "Z"@[0] == 'Z' && "y"@[0] == 'y');
    if key == "ArrowRight"@ {
        assert(key.len() == 10);
        assert(key != "ArrowLeft"@);
    }
    if key == "ArrowDown"@ {
        assert(key.len() == 9);
        assert(key[5] == 'D' && "ArrowLeft"@[5] == 'L');
        assert(key != "ArrowLeft"@ && key != "ArrowRight"@);
    }
    if key == "ArrowUp"@ {
        assert(key.len() == 7);
        assert(key != "ArrowLeft"@ && key != "ArrowRight"@ && key != "ArrowDown"@);
    }
    if key == "PageDown"@ {
        assert(key.len() == 8);
        assert(key != "ArrowLeft"@ && key != "ArrowRight"@ && key != "ArrowDown"@ && key != "ArrowUp"@);
    }
    if key == "PageUp"@ {
        assert(key.len() == 6);
        assert(key != "ArrowLeft"@ && key != "ArrowRight"@ && key != "ArrowDown"@ && key != "ArrowUp"@ && key != "PageDown"@);
    }
    if key == "Tab"@ {
        assert(key.len() == 3);
        assert(key != "ArrowLeft"@ && key != "ArrowRight"@ && key != "ArrowDown"@ && key != "ArrowUp"@ && key != "PageDown"@ && key != "PageUp"@);
    }
    if key == "Escape"@ {
        assert(key.len() == 6);
        assert(key[0] == 'E' && "PageUp"@[0] == 'P');
        assert(key != "ArrowLeft"@ && key != "ArrowRight"@ && key != "ArrowDown"@ && key != "ArrowUp"@ && key != "PageDown"@ && key != "PageUp"@ && key != "Tab"@);
    }
    if key == "l"@ {
        assert(key.len() == 1 && key[0] == 'l');
        assert(key != "ArrowLeft"@ && key != "ArrowRight"@ && key != "ArrowDown"@ && key != "ArrowUp"@ && key != "PageDown"@ && key != "PageUp"@ && key != "Tab"@ && key != "Escape"@);
    }
    if key == "u"@ {
        assert(key.len() == 1 && key[0] == 'u');
        assert(key != "ArrowLeft"@ && key != "ArrowRight"@ && key != "ArrowDown"@ && key != "ArrowUp"@ && key != "PageDown"@ && key != "PageUp"@ && key != "Tab"@ && key != "Escape"@ && key != "l"@);
    }
    if key == "r"@ {
        assert(key.len() == 1 && key[0] == 'r');
        assert(key != "ArrowLeft"@ && key != "ArrowRight"@ && key != "ArrowDown"@ && key != "ArrowUp"@ && key != "PageDown"@ && key != "PageUp"@ && key != "Tab"@ && key != "Escape"@ && key != "l"@ && key != "u"@);
    }
    if key == "n"@ {
        assert(key.len() == 1 && key[0] == 'n');
        assert(key != "ArrowLeft"@ && key != "ArrowRight"@ && key != "ArrowDown"@ && key != "ArrowUp"@ && key != "PageDown"@ && key != "PageUp"@ && key != "Tab"@ && key != "Escape"@ && key != "l"@ && key != "u"@ && key != "r"@);
    }
    if key == "s"@ {
        assert(key.len() == 1 && key[0] == 's');
        assert(key != "ArrowLeft"@ && key != "ArrowRight"@ && key != "ArrowDown"@ && key != "ArrowUp"@ && key != "PageDown"@ && key != "PageUp"@ && key != "Tab"@ && key != "Escape"@ && key != "l"@ && key != "u"@ && key != "r"@ && key != "n"@);
    }
    if key == "N"@ {
        assert(key.len() == 1 && key[0] == 'N');
        assert(key != "ArrowLeft"@ && key != "ArrowRight"@ && key != "ArrowDown"@ && key != "ArrowUp"@ && key != "PageDown"@ && key != "PageUp"@ && key != "Tab"@ && key != "Escape"@ && key != "l"@ && key != "u"@ && key != "r"@ && key != "n"@ && key != "s"@);
    }
    if key == "Delete"@ {
        assert(key.len() == 6);
        assert(key[0] == 'D' && "PageUp"@[0] == 'P' && "Escape"@[0] == 'E');
        assert(key != "ArrowLeft"@ && key != "ArrowRight"@ && key != "ArrowDown"@ && key != "ArrowUp"@ && key != "PageDown"@ && key != "PageUp"@ && key != "Tab"@ && key != "Escape"@ && key != "l"@ && key != "u"@ && key != "r"@ && key != "n"@ && key != "s"@ && key != "N"@);
    }
    if key == "Backspace"@ {
        assert(key.len() == 9);
        assert(key[0] == 'B' && "ArrowLeft"@[0] == 'A' && "ArrowDown"@[0] == 'A');
        assert(key != "ArrowLeft"@ && key != "ArrowRight"@ && key != "ArrowDown"@ && key != "ArrowUp"@ && key != "PageDown"@ && key != "PageUp"@ && key != "Tab"@ && key != "Escape"@ && key != "l"@ && key != "u"@ && key != "r"@ && key != "n"@ && key != "s"@ && key != "N"@ && key != "Delete"@);
    }
    if key == "Enter"@ {
        assert(key.len() == 5);
        assert(key != "ArrowLeft"@ && key != "ArrowRight"@ && key != "ArrowDown"@ && key != "ArrowUp"@ && key != "PageDown"@ && key != "PageUp"@ && key != "Tab"@ && key != "Escape"@ && key != "l"@ && key != "u"@ && key != "r"@ && key != "n"@ && key != "s"@ && key != "N"@ && key != "Delete"@ && key != "Backspace"@);
    }
    if key == "e"@ {
        assert(key.len() == 1 && key[0] == 'e');
        assert(key != "ArrowLeft"@ && key != "ArrowRight"@ && key != "ArrowDown"@ && key != "ArrowUp"@ && key != "PageDown"@ && key != "PageUp"@ && key != "Tab"@ && key != "Escape"@ && key != "l"@ && key != "u"@ && key != "r"@ && key != "n"@ && key != "s"@ && key != "N"@ && key != "Delete"@ && key != "Backspace"@ && key != "Enter"@);
    }
    if key == "E"@ {
        assert(key.len() == 1 && key[0] == 'E');
        assert(key != "ArrowLeft"@ && key != "ArrowRight"@ && key != "ArrowDown"@ && key != "ArrowUp"@ && key != "PageDown"@ && key != "PageUp"@ && key != "Tab"@ && key != "Escape"@ && key != "l"@ && key != "u"@ && key != "r"@ && key != "n"@ && key != "s"@ && key != "N"@ && key != "Delete"@ && key != "Backspace"@ && key != "Enter"@ && key != "e"@);
    }
    if key == "L"@ {
        assert(key.len() == 1 && key[0] == 'L');
        assert(key != "ArrowLeft"@ && key != "ArrowRight"@ && key != "ArrowDown"@ && key != "ArrowUp"@ && key != "PageDown"@ && key != "PageUp"@ && key != "Tab"@ && key != "Escape"@ && key != "l"@ && key != "u"@ && key != "r"@ && key != "n"@ && key != "s"@ && key != "N"@ && key != "Delete"@ && key != "Backspace"@ && key != "Enter"@ && key != "e"@ && key != "E"@);
    }
    if key == "/"@ {
        assert(key.len() == 1 && key[0] == '/');
        assert(key != "ArrowLeft"@ && key != "ArrowRight"@ && key != "ArrowDown"@ && key != "ArrowUp"@ && key != "PageDown"@ && key != "PageUp"@ && key != "Tab"@ && key != "Escape"@ && key != "l"@ && key != "u"@ && key != "r"@ && key != "n"@ && key != "s"@ && key != "N"@ && key != "Delete"@ && key != "Backspace"@ && key != "Enter"@ && key != "e"@ && key != "E"@ && key != "L"@);
    }
    if key == "?"@ {
        assert(key.len() == 1 && key[0] == '?');
        assert(key != "ArrowLeft"@ && key != "ArrowRight"@ && key != "ArrowDown"@ && key != "ArrowUp"@ && key != "PageDown"@ && key != "PageUp"@ && key != "Tab"@ && key != "Escape"@ && key != "l"@ && key != "u"@ && key != "r"@ && key != "n"@ && key != "s"@ && key != "N"@ && key != "Delete"@ && key != "Backspace"@ && key != "Enter"@ && key != "e"@ && key != "E"@ && key != "L"@ && key != "/"@);
    }
    if key == "+"@ {
        assert(key.len() == 1 && key[0] == '+');
        assert(key != "ArrowLeft"@ && key != "ArrowRight"@ && key != "ArrowDown"@ && key != "ArrowUp"@ && key != "PageDown"@ && key != "PageUp"@ && key != "Tab"@ && key != "Escape"@ && key != "l"@ && key != "u"@ && key != "r"@ && key != "n"@ && key != "s"@ && key != "N"@ && key != "Delete"@ && key != "Backspace"@ && key != "Enter"@ && key != "e"@ && key != "E"@ && key != "L"@ && key != "/"@ && key != "?"@);
    }
    if key == "="@ {
        assert(key.len() == 1 && key[0] == '=');
        assert(key != "ArrowLeft"@ && key != "ArrowRight"@ && key != "ArrowDown"@ && key != "ArrowUp"@ && key != "PageDown"@ && key != "PageUp"@ && key != "Tab"@ && key != "Escape"@ && key != "l"@ && key != "u"@ && key != "r"@ && key != "n"@ && key != "s"@ && key != "N"@ && key != "Delete"@ && key != "Backspace"@ && key != "Enter"@ && key != "e"@ && key != "E"@ && key != "L"@ && key != "/"@ && key != "?"@ && key != "+"@);
    }
    if key == "-"@ {
        assert(key.len() == 1 && key[0] == '-');
        assert(key != "ArrowLeft"@ && key != "ArrowRight"@ && key != "ArrowDown"@ && key != "ArrowUp"@ && key != "PageDown"@ && key != "PageUp"@ && key != "Tab"@ && key != "Escape"@ && key != "l"@ && key != "u"@ && key != "r"@ && key != "n"@ && key != "s"@ && key != "N"@ && key != "Delete"@ && key != "Backspace"@ && key != "Enter"@ && key != "e"@ && key != "E"@ && key != "L"@ && key != "/"@ && key != "?"@ && key != "+"@ && key != "="@);
    }
    if key == "0"@ {
        assert(key.len() == 1 && key[0] == '0');
        assert(key != "ArrowLeft"@ && key != "ArrowRight"@ && key != "ArrowDown"@ && key != "ArrowUp"@ && key != "PageDown"@ && key != "PageUp"@ && key != "Tab"@ && key != "Escape"@ && key != "l"@ && key != "u"@ && key != "r"@ && key != "n"@ && key != "s"@ && key != "N"@ && key != "Delete"@ && key != "Backspace"@ && key != "Enter"@ && key != "e"@ && key != "E"@ && key != "L"@ && key != "/"@ && key != "?"@ && key != "+"@ && key != "="@ && key != "-"@);
    }
    if key == "z"@ {
        assert(key.len() == 1 && key[0] == 'z');
        assert(key != "ArrowLeft"@ && key != "ArrowRight"@ && key != "ArrowDown"@ && key != "ArrowUp"@ && key != "PageDown"@ && key != "PageUp"@ && key != "Tab"@ && key != "Escape"@ && key != "l"@ && key != "u"@ && key != "r"@ && key != "n"@ && key != "s"@ && key != "N"@ && key != "Delete"@ && key != "Backspace"@ && key != "Enter"@ && key != "e"@ && key != "E"@ && key != "L"@ && key != "/"@ && key != "?"@ && key != "+"@ && key != "="@ && key != "-"@ && key != "0"@);
    }
    if key == "Z"@ {
        assert(key.len() == 1 && key[0] == 'Z');
        assert(key != "ArrowLeft"@ && key != "ArrowRight"@ && key != "ArrowDown"@ && key != "ArrowUp"@ && key != "PageDown"@ && key != "PageUp"@ && key != "Tab"@ && key != "Escape"@ && key != "l"@ && key != "u"@ && key != "r"@ && key != "n"@ && key != "s"@ && key != "N"@ && key != "Delete"@ && key != "Backspace"@ && key != "Enter"@ && key != "e"@ && key != "E"@ && key != "L"@ && key != "/"@ && key != "?"@ && key != "+"@ && key != "="@ && key != "-"@ && key != "0"@ && key != "z"@);
    }
}

/// The command the key `key` stands for, with control (or command) and
/// shift held or not; none for a key the editor leaves alone.
pub fn key_command(key: &str, ctrl: bool, shift: bool) -> (r: Option<KeyCommand>)
    ensures
        r == if ctrl {
            control_key_command(key@)
        } else {
            plain_key_command(key@, shift)
        },
{
    if ctrl {
        if is_key(key, "z") {
            return Some(KeyCommand::Undo);
        }
        if is_key(key, "Z") || is_key(key, "y") {
            return Some(KeyCommand::Redo);
        }
        if is_key(key, "=") || is_key(key, "+") {
            return Some(KeyCommand::ZoomIn);
        }
        if is_key(key, "-") {
            return Some(KeyCommand::ZoomOut);
        }
        if is_key(key, "0") {
            return Some(KeyCommand::Fit);
        }
        None
    } else {
        if is_key(key, "ArrowLeft") {
            return Some(KeyCommand::Arrow(ScreenDir::Left, shift));
        }
        if is_key(key, "ArrowRight") {
            return Some(KeyCommand::Arrow(ScreenDir::Right, shift));
        }
        if is_key(key, "ArrowDown") {
            return Some(KeyCommand::Arrow(ScreenDir::Down, shift));
        }
        if is_key(key, "ArrowUp") {
            return Some(KeyCommand::Arrow(ScreenDir::Up, shift));
        }
        if is_key(key, "PageDown") {
            return Some(KeyCommand::Island(true));
        }
        if is_key(key, "PageUp") {
            return Some(KeyCommand::Island(false));
        }
        if is_key(key, "Tab") {
            return Some(KeyCommand::TogglePanel);
        }
        if is_key(key, "Escape") {
            return Some(KeyCommand::Escape);
        }
        if is_key(key, "l") {
            return Some(KeyCommand::Link);
        }
        if is_key(key, "u") {
            return Some(KeyCommand::Unlink);
        }
        if is_key(key, "r") {
            return Some(KeyCommand::Reverse);
        }
        if is_key(key, "n") {
            return Some(KeyCommand::NewNext);
        }
        if is_key(key, "s") {
            return Some(KeyCommand::NewSibling);
        }
        if is_key(key, "N") {
            return Some(KeyCommand::NewIsland);
        }
        if is_key(key, "Delete") || is_key(key, "Backspace") {
            return Some(KeyCommand::Delete);
        }
        if is_key(key, "Enter") {
            return Some(KeyCommand::Enter);
        }
        if is_key(key, "e") {
            return Some(KeyCommand::Edit);
        }
        if is_key(key, "E") {
            return Some(KeyCommand::EditStart);
        }
        if is_key(key, "L") {
            return Some(KeyCommand::EditLink);
        }
        if is_key(key, "/") {
            return Some(KeyCommand::Search(SearchTarget::Replace));
        }
        if is_key(key, "?") {
            return Some(KeyCommand::Search(SearchTarget::Extend));
        }
        if is_key(key, "+") || is_key(key, "=") {
            return Some(KeyCommand::ZoomIn);
        }
        if is_key(key, "-") {
            return Some(KeyCommand::ZoomOut);
        }
        if is_key(key, "0") {
            return Some(KeyCommand::Fit);
        }
        if is_key(key, "z") {
            return Some(KeyCommand::Undo);
        }
        if is_key(key, "Z") {
            return Some(KeyCommand::Redo);
        }
        None
    }
}

/// What an arrow key does, read along the flow.
#[derive(Clone, Copy, Debug, PartialEq, Eq, Structural)]
pub enum ArrowMove {
    /// Step past the primary node along the links.
    Forward,
    /// Step back against the links.
    Backward,
    /// Cycle the primary among the anchor's next nodes.
    SelectNext,
    /// Cycle the primary among the anchor's previous nodes.
    SelectPrev,
    /// Move to a neighbouring link on the anchor's side.
    Sibling(Dir),
}

/// What an arrow key pointing `dir` on screen does under flow `flow`: along
/// the flow it steps (or, with shift, cycles the selection); across it, it
/// moves to a neighbouring link, with shift or without.
pub open spec fn spec_arrow_move(flow: Flow, dir: ScreenDir, shift: bool) -> ArrowMove {
    match spec_motion(flow, dir) {
        Motion::Forward => if shift {
            ArrowMove::SelectNext
        } else {
            ArrowMove::Forward
        },
        Motion::Backward => if shift {
            ArrowMove::SelectPrev
        } else {
            ArrowMove::Backward
        },
        Motion::SideNext => ArrowMove::Sibling(Dir::Next),
        Motion::SidePrev => ArrowMove::Sibling(Dir::Prev),
    }
}

/// What an arrow key does.
pub fn arrow_move(flow: Flow, dir: ScreenDir, shift: bool) -> (r: ArrowMove)
    ensures
        r == spec_arrow_move(flow, dir, shift),
{
    match flow.motion(dir) {
        Motion::Forward => if shift {
            ArrowMove::SelectNext
        } else {
            ArrowMove::Forward
        },
        Motion::Backward => if shift {
            ArrowMove::SelectPrev
        } else {
            ArrowMove::Backward
        },
        Motion::SideNext => ArrowMove::Sibling(Dir::Next),
        Motion::SidePrev => ArrowMove::Sibling(Dir::Prev),
    }
}

} // verus!
