//! Game actions, the keys they are bound to, and which actions the keys
//! held down and just pressed make active.

use vstd::prelude::*;

verus! {

/// Something the player can do with a key.
#[derive(Clone, Copy, Debug, PartialEq, Eq, Hash, Structural)]
pub enum GameAction {
    MoveForward,
    MoveBackward,
    StrafeLeft,
    StrafeRight,
    CameraUp,
    CameraDown,
    ToggleLabels,
    OpenSettings,
    OpenInventory,
    ToggleViewMode,
    PlaceStructure,
    RemoveStructure,
    RotateStructure,
    ToggleGrid,
}

/// The number of game actions.
pub const ACTION_COUNT: usize = 14;

/// The position of an action in `GameAction::all()`.
pub open spec fn action_pos(a: GameAction) -> int {
    match a {
        GameAction::MoveForward => 0,
        GameAction::MoveBackward => 1,
        GameAction::StrafeLeft => 2,
        GameAction::StrafeRight => 3,
        GameAction::CameraUp => 4,
        GameAction::CameraDown => 5,
        GameAction::ToggleLabels => 6,
        GameAction::OpenSettings => 7,
        GameAction::OpenInventory => 8,
        GameAction::ToggleViewMode => 9,
        GameAction::PlaceStructure => 10,
        GameAction::RemoveStructure => 11,
        GameAction::RotateStructure => 12,
        GameAction::ToggleGrid => 13,
    }
}

/// Every action, in declaration order.
pub open spec fn all_actions() -> Seq<GameAction> {
    seq![
        GameAction::MoveForward,
        GameAction::MoveBackward,
        GameAction::StrafeLeft,
        GameAction::StrafeRight,
        GameAction::CameraUp,
        GameAction::CameraDown,
        GameAction::ToggleLabels,
        GameAction::OpenSettings,
        GameAction::OpenInventory,
        GameAction::ToggleViewMode,
        GameAction::PlaceStructure,
        GameAction::RemoveStructure,
        GameAction::RotateStructure,
        GameAction::ToggleGrid
    ]
}

/// The name of an action as shown to the player.
pub open spec fn action_name(a: GameAction) -> Seq<char> {
    match a {
        GameAction::MoveForward => "Move Forward"@,
        GameAction::MoveBackward => "Move Backward"@,
        GameAction::StrafeLeft => "Strafe Left"@,
        GameAction::StrafeRight => "Strafe Right"@,
        GameAction::CameraUp => "Camera Up"@,
        GameAction::CameraDown => "Camera Down"@,
        GameAction::ToggleLabels => "Toggle Labels"@,
        GameAction::OpenSettings => "Settings"@,
        GameAction::OpenInventory => "Inventory"@,
        GameAction::ToggleViewMode => "Toggle View"@,
        GameAction::PlaceStructure => "Place Structure"@,
        GameAction::RemoveStructure => "Remove Structure"@,
        GameAction::RotateStructure => "Rotate Structure"@,
        GameAction::ToggleGrid => "Toggle Grid"@,
    }
}

/// A physical key, by the name of its code.
#[derive(Clone, Copy, Debug, PartialEq, Eq, Hash, Structural)]
pub enum KeyCode {
    KeyA,
    KeyB,
    KeyC,
    KeyD,
    KeyE,
    KeyF,
    KeyG,
    KeyH,
    KeyI,
    KeyJ,
    KeyK,
    KeyL,
    KeyM,
    KeyN,
    KeyO,
    KeyP,
    KeyQ,
    KeyR,
    KeyS,
    KeyT,
    KeyU,
    KeyV,
    KeyW,
    KeyX,
    KeyY,
    KeyZ,
    Digit0,
    Digit1,
    Digit2,
    Digit3,
    Digit4,
    Digit5,
    Digit6,
    Digit7,
    Digit8,
    Digit9,
    Escape,
    Tab,
    Space,
    Enter,
    Backspace,
    ArrowUp,
    ArrowDown,
    ArrowLeft,
    ArrowRight,
    Backquote,
    ShiftLeft,
    ShiftRight,
    ControlLeft,
    ControlRight,
    AltLeft,
    AltRight,
    F1,
    F2,
    F3,
    F4,
    F5,
    F6,
    F7,
    F8,
    F9,
    F10,
    F11,
    F12,
}

/// The number of key codes.
pub const KEY_COUNT: usize = 64;

/// The name of a key code, as its variant is written.
pub open spec fn key_name(k: KeyCode) -> Seq<char> {
    match k {
        KeyCode::KeyA => "KeyA"@,
        KeyCode::KeyB => "KeyB"@,
        KeyCode::KeyC => "KeyC"@,
        KeyCode::KeyD => "KeyD"@,
        KeyCode::KeyE => "KeyE"@,
        KeyCode::KeyF => "KeyF"@,
        KeyCode::KeyG => "KeyG"@,
        KeyCode::KeyH => "KeyH"@,
        KeyCode::KeyI => "KeyI"@,
        KeyCode::KeyJ => "KeyJ"@,
        KeyCode::KeyK => "KeyK"@,
        KeyCode::KeyL => "KeyL"@,
        KeyCode::KeyM => "KeyM"@,
        KeyCode::KeyN => "KeyN"@,
        KeyCode::KeyO => "KeyO"@,
        KeyCode::KeyP => "KeyP"@,
        KeyCode::KeyQ => "KeyQ"@,
        KeyCode::KeyR => "KeyR"@,
        KeyCode::KeyS => "KeyS"@,
        KeyCode::KeyT => "KeyT"@,
        KeyCode::KeyU => "KeyU"@,
        KeyCode::KeyV => "KeyV"@,
        KeyCode::KeyW => "KeyW"@,
        KeyCode::KeyX => "KeyX"@,
        KeyCode::KeyY => "KeyY"@,
        KeyCode::KeyZ => "KeyZ"@,
        KeyCode::Digit0 => "Digit0"@,
        KeyCode::Digit1 => "Digit1"@,
        KeyCode::Digit2 => "Digit2"@,
        KeyCode::Digit3 => "Digit3"@,
        KeyCode::Digit4 => "Digit4"@,
        KeyCode::Digit5 => "Digit5"@,
        KeyCode::Digit6 => "Digit6"@,
        KeyCode::Digit7 => "Digit7"@,
        KeyCode::Digit8 => "Digit8"@,
        KeyCode::Digit9 => "Digit9"@,
        KeyCode::Escape => "Escape"@,
        KeyCode::Tab => "Tab"@,
        KeyCode::Space => "Space"@,
        KeyCode::Enter => "Enter"@,
        KeyCode::Backspace => "Backspace"@,
        KeyCode::ArrowUp => "ArrowUp"@,
        KeyCode::ArrowDown => "ArrowDown"@,
        KeyCode::ArrowLeft => "ArrowLeft"@,
        KeyCode::ArrowRight => "ArrowRight"@,
        KeyCode::Backquote => "Backquote"@,
        KeyCode::ShiftLeft => "ShiftLeft"@,
        KeyCode::ShiftRight => "ShiftRight"@,
        KeyCode::ControlLeft => "ControlLeft"@,
        KeyCode::ControlRight => "ControlRight"@,
        KeyCode::AltLeft => "AltLeft"@,
        KeyCode::AltRight => "AltRight"@,
        KeyCode::F1 => "F1"@,
        KeyCode::F2 => "F2"@,
        KeyCode::F3 => "F3"@,
        KeyCode::F4 => "F4"@,
        KeyCode::F5 => "F5"@,
        KeyCode::F6 => "F6"@,
        KeyCode::F7 => "F7"@,
        KeyCode::F8 => "F8"@,
        KeyCode::F9 => "F9"@,
        KeyCode::F10 => "F10"@,
        KeyCode::F11 => "F11"@,
        KeyCode::F12 => "F12"@,
    }
}

/// The position of a key code in `all_keys()`.
pub open spec fn key_pos(k: KeyCode) -> int {
    match k {
        KeyCode::KeyA => 0,
        KeyCode::KeyB => 1,
        KeyCode::KeyC => 2,
        KeyCode::KeyD => 3,
        KeyCode::KeyE => 4,
        KeyCode::KeyF => 5,
        KeyCode::KeyG => 6,
        KeyCode::KeyH => 7,
        KeyCode::KeyI => 8,
        KeyCode::KeyJ => 9,
        KeyCode::KeyK => 10,
        KeyCode::KeyL => 11,
        KeyCode::KeyM => 12,
        KeyCode::KeyN => 13,
        KeyCode::KeyO => 14,
        KeyCode::KeyP => 15,
        KeyCode::KeyQ => 16,
        KeyCode::KeyR => 17,
        KeyCode::KeyS => 18,
        KeyCode::KeyT => 19,
        KeyCode::KeyU => 20,
        KeyCode::KeyV => 21,
        KeyCode::KeyW => 22,
        KeyCode::KeyX => 23,
        KeyCode::KeyY => 24,
        KeyCode::KeyZ => 25,
        KeyCode::Digit0 => 26,
        KeyCode::Digit1 => 27,
        KeyCode::Digit2 => 28,
        KeyCode::Digit3 => 29,
        KeyCode::Digit4 => 30,
        KeyCode::Digit5 => 31,
        KeyCode::Digit6 => 32,
        KeyCode::Digit7 => 33,
        KeyCode::Digit8 => 34,
        KeyCode::Digit9 => 35,
        KeyCode::Escape => 36,
        KeyCode::Tab => 37,
        KeyCode::Space => 38,
        KeyCode::Enter => 39,
        KeyCode::Backspace => 40,
        KeyCode::ArrowUp => 41,
        KeyCode::ArrowDown => 42,
        KeyCode::ArrowLeft => 43,
        KeyCode::ArrowRight => 44,
        KeyCode::Backquote => 45,
        KeyCode::ShiftLeft => 46,
        KeyCode::ShiftRight => 47,
        KeyCode::ControlLeft => 48,
        KeyCode::ControlRight => 49,
        KeyCode::AltLeft => 50,
        KeyCode::AltRight => 51,
        KeyCode::F1 => 52,
        KeyCode::F2 => 53,
        KeyCode::F3 => 54,
        KeyCode::F4 => 55,
        KeyCode::F5 => 56,
        KeyCode::F6 => 57,
        KeyCode::F7 => 58,
        KeyCode::F8 => 59,
        KeyCode::F9 => 60,
        KeyCode::F10 => 61,
        KeyCode::F11 => 62,
        KeyCode::F12 => 63,
    }
}

/// Every key code, in declaration order.
pub open spec fn all_keys() -> Seq<KeyCode> {
    seq![
        KeyCode::KeyA,
        KeyCode::KeyB,
        KeyCode::KeyC,
        KeyCode::KeyD,
        KeyCode::KeyE,
        KeyCode::KeyF,
        KeyCode::KeyG,
        KeyCode::KeyH,
        KeyCode::KeyI,
        KeyCode::KeyJ,
        KeyCode::KeyK,
        KeyCode::KeyL,
        KeyCode::KeyM,
        KeyCode::KeyN,
        KeyCode::KeyO,
        KeyCode::KeyP,
        KeyCode::KeyQ,
        KeyCode::KeyR,
        KeyCode::KeyS,
        KeyCode::KeyT,
        KeyCode::KeyU,
        KeyCode::KeyV,
        KeyCode::KeyW,
        KeyCode::KeyX,
        KeyCode::KeyY,
        KeyCode::KeyZ,
        KeyCode::Digit0,
        KeyCode::Digit1,
        KeyCode::Digit2,
        KeyCode::Digit3,
        KeyCode::Digit4,
        KeyCode::Digit5,
        KeyCode::Digit6,
        KeyCode::Digit7,
        KeyCode::Digit8,
        KeyCode::Digit9,
        KeyCode::Escape,
        KeyCode::Tab,
        KeyCode::Space,
        KeyCode::Enter,
        KeyCode::Backspace,
        KeyCode::ArrowUp,
        KeyCode::ArrowDown,
        KeyCode::ArrowLeft,
        KeyCode::ArrowRight,
        KeyCode::Backquote,
        KeyCode::ShiftLeft,
        KeyCode::ShiftRight,
        KeyCode::ControlLeft,
        KeyCode::ControlRight,
        KeyCode::AltLeft,
        KeyCode::AltRight,
        KeyCode::F1,
        KeyCode::F2,
        KeyCode::F3,
        KeyCode::F4,
        KeyCode::F5,
        KeyCode::F6,
        KeyCode::F7,
        KeyCode::F8,
        KeyCode::F9,
        KeyCode::F10,
        KeyCode::F11,
        KeyCode::F12
    ]
}

impl GameAction {
    /// The name of the action as shown to the player.
    pub fn display_name(&self) -> (r: &'static str)
        ensures
            r@ == action_name(*self),
    {
        match self {
            GameAction::MoveForward => "Move Forward",
            GameAction::MoveBackward => "Move Backward",
            GameAction::StrafeLeft => "Strafe Left",
            GameAction::StrafeRight => "Strafe Right",
            GameAction::CameraUp => "Camera Up",
            GameAction::CameraDown => "Camera Down",
            GameAction::ToggleLabels => "Toggle Labels",
            GameAction::OpenSettings => "Settings",
            GameAction::OpenInventory => "Inventory",
            GameAction::ToggleViewMode => "Toggle View",
            GameAction::PlaceStructure => "Place Structure",
            GameAction::RemoveStructure => "Remove Structure",
            GameAction::RotateStructure => "Rotate Structure",
            GameAction::ToggleGrid => "Toggle Grid",
        }
    }

    /// Every action, in declaration order.
    pub fn all() -> (r: &'static [GameAction])
        ensures
            r@ == all_actions(),
    {
        &[
            GameAction::MoveForward,
            GameAction::MoveBackward,
            GameAction::StrafeLeft,
            GameAction::StrafeRight,
            GameAction::CameraUp,
            GameAction::CameraDown,
            GameAction::ToggleLabels,
            GameAction::OpenSettings,
            GameAction::OpenInventory,
            GameAction::ToggleViewMode,
            GameAction::PlaceStructure,
            GameAction::RemoveStructure,
            GameAction::RotateStructure,
            GameAction::ToggleGrid
        ]
    }

    /// The position of the action in `GameAction::all()`.
    pub fn index(&self) -> (r: usize)
        ensures
            r == action_pos(*self),
            r < 14,
    {
        match self {
            GameAction::MoveForward => 0,
            GameAction::MoveBackward => 1,
            GameAction::StrafeLeft => 2,
            GameAction::StrafeRight => 3,
            GameAction::CameraUp => 4,
            GameAction::CameraDown => 5,
            GameAction::ToggleLabels => 6,
            GameAction::OpenSettings => 7,
            GameAction::OpenInventory => 8,
            GameAction::ToggleViewMode => 9,
            GameAction::PlaceStructure => 10,
            GameAction::RemoveStructure => 11,
            GameAction::RotateStructure => 12,
            GameAction::ToggleGrid => 13,
        }
    }
}

impl KeyCode {
    /// The name of the key code, as its variant is written.
    pub fn name(&self) -> (r: &'static str)
        ensures
            r@ == key_name(*self),
    {
        match self {
            KeyCode::KeyA => "KeyA",
            KeyCode::KeyB => "KeyB",
            KeyCode::KeyC => "KeyC",
            KeyCode::KeyD => "KeyD",
            KeyCode::KeyE => "KeyE",
            KeyCode::KeyF => "KeyF",
            KeyCode::KeyG => "KeyG",
            KeyCode::KeyH => "KeyH",
            KeyCode::KeyI => "KeyI",
            KeyCode::KeyJ => "KeyJ",
            KeyCode::KeyK => "KeyK",
            KeyCode::KeyL => "KeyL",
            KeyCode::KeyM => "KeyM",
            KeyCode::KeyN => "KeyN",
            KeyCode::KeyO => "KeyO",
            KeyCode::KeyP => "KeyP",
            KeyCode::KeyQ => "KeyQ",
            KeyCode::KeyR => "KeyR",
            KeyCode::KeyS => "KeyS",
            KeyCode::KeyT => "KeyT",
            KeyCode::KeyU => "KeyU",
            KeyCode::KeyV => "KeyV",
            KeyCode::KeyW => "KeyW",
            KeyCode::KeyX => "KeyX",
            KeyCode::KeyY => "KeyY",
            KeyCode::KeyZ => "KeyZ",
            KeyCode::Digit0 => "Digit0",
            KeyCode::Digit1 => "Digit1",
            KeyCode::Digit2 => "Digit2",
            KeyCode::Digit3 => "Digit3",
            KeyCode::Digit4 => "Digit4",
            KeyCode::Digit5 => "Digit5",
            KeyCode::Digit6 => "Digit6",
            KeyCode::Digit7 => "Digit7",
            KeyCode::Digit8 => "Digit8",
            KeyCode::Digit9 => "Digit9",
            KeyCode::Escape => "Escape",
            KeyCode::Tab => "Tab",
            KeyCode::Space => "Space",
            KeyCode::Enter => "Enter",
            KeyCode::Backspace => "Backspace",
            KeyCode::ArrowUp => "ArrowUp",
            KeyCode::ArrowDown => "ArrowDown",
            KeyCode::ArrowLeft => "ArrowLeft",
            KeyCode::ArrowRight => "ArrowRight",
            KeyCode::Backquote => "Backquote",
            KeyCode::ShiftLeft => "ShiftLeft",
            KeyCode::ShiftRight => "ShiftRight",
            KeyCode::ControlLeft => "ControlLeft",
            KeyCode::ControlRight => "ControlRight",
            KeyCode::AltLeft => "AltLeft",
            KeyCode::AltRight => "AltRight",
            KeyCode::F1 => "F1",
            KeyCode::F2 => "F2",
            KeyCode::F3 => "F3",
            KeyCode::F4 => "F4",
            KeyCode::F5 => "F5",
            KeyCode::F6 => "F6",
            KeyCode::F7 => "F7",
            KeyCode::F8 => "F8",
            KeyCode::F9 => "F9",
            KeyCode::F10 => "F10",
            KeyCode::F11 => "F11",
            KeyCode::F12 => "F12",
        }
    }

    /// Every key code, in declaration order.
    pub fn all() -> (r: [KeyCode; 64])
        ensures
            r@ == all_keys(),
    {
        let r = [
            KeyCode::KeyA,
            KeyCode::KeyB,
            KeyCode::KeyC,
            KeyCode::KeyD,
            KeyCode::KeyE,
            KeyCode::KeyF,
            KeyCode::KeyG,
            KeyCode::KeyH,
            KeyCode::KeyI,
            KeyCode::KeyJ,
            KeyCode::KeyK,
            KeyCode::KeyL,
            KeyCode::KeyM,
            KeyCode::KeyN,
            KeyCode::KeyO,
            KeyCode::KeyP,
            KeyCode::KeyQ,
            KeyCode::KeyR,
            KeyCode::KeyS,
            KeyCode::KeyT,
            KeyCode::KeyU,
            KeyCode::KeyV,
            KeyCode::KeyW,
            KeyCode::KeyX,
            KeyCode::KeyY,
            KeyCode::KeyZ,
            KeyCode::Digit0,
            KeyCode::Digit1,
            KeyCode::Digit2,
            KeyCode::Digit3,
            KeyCode::Digit4,
            KeyCode::Digit5,
            KeyCode::Digit6,
            KeyCode::Digit7,
            KeyCode::Digit8,
            KeyCode::Digit9,
            KeyCode::Escape,
            KeyCode::Tab,
            KeyCode::Space,
            KeyCode::Enter,
            KeyCode::Backspace,
            KeyCode::ArrowUp,
            KeyCode::ArrowDown,
            KeyCode::ArrowLeft,
            KeyCode::ArrowRight,
            KeyCode::Backquote,
            KeyCode::ShiftLeft,
            KeyCode::ShiftRight,
            KeyCode::ControlLeft,
            KeyCode::ControlRight,
            KeyCode::AltLeft,
            KeyCode::AltRight,
            KeyCode::F1,
            KeyCode::F2,
            KeyCode::F3,
            KeyCode::F4,
            KeyCode::F5,
            KeyCode::F6,
            KeyCode::F7,
            KeyCode::F8,
            KeyCode::F9,
            KeyCode::F10,
            KeyCode::F11,
            KeyCode::F12
        ];
        assert(r@ =~= all_keys());
        r
    }
}

proof fn lemma_key_pos(k: KeyCode)
    ensures
        0 <= key_pos(k) < 64,
        all_keys()[key_pos(k)] == k,
{
}

/// Recovers a key code's position from its name: the length, the first and
/// last characters and, for two names, the fifth tell them apart.
spec fn name_pos(s: Seq<char>) -> int {
    let n = s.len();
    let f = s[0];
    let l = s[n - 1];
    if n == 4 {
        l as int - 'A' as int
    } else if n == 6 && f == 'D' {
        26 + (l as int - '0' as int)
    } else if n == 6 {
        36
    } else if n == 3 && f == 'T' {
        37
    } else if n == 5 && l == 'e' {
        38
    } else if n == 5 {
        39
    } else if n == 9 && f == 'B' && s[4] == 's' {
        40
    } else if n == 7 && l == 'p' {
        41
    } else if n == 9 && f == 'A' && l == 'n' {
        42
    } else if n == 9 && f == 'A' {
        43
    } else if n == 10 && f == 'A' {
        44
    } else if n == 9 && f == 'B' {
        45
    } else if n == 9 {
        46
    } else if n == 10 {
        47
    } else if n == 11 {
        48
    } else if n == 12 {
        49
    } else if n == 7 {
        50
    } else if n == 8 {
        51
    } else if n == 2 {
        52 + (l as int - '1' as int)
    } else {
        61 + (l as int - '0' as int)
    }
}

proof fn lemma_name_pos(k: KeyCode)
    ensures
        name_pos(key_name(k)) == key_pos(k),
{
    match k {
        KeyCode::KeyA => {
            reveal_strlit("KeyA");
        },
        KeyCode::KeyB => {
            reveal_strlit("KeyB");
        },
        KeyCode::KeyC => {
            reveal_strlit("KeyC");
        },
        KeyCode::KeyD => {
            reveal_strlit("KeyD");
        },
        KeyCode::KeyE => {
            reveal_strlit("KeyE");
        },
        KeyCode::KeyF => {
            reveal_strlit("KeyF");
        },
        KeyCode::KeyG => {
            reveal_strlit("KeyG");
        },
        KeyCode::KeyH => {
            reveal_strlit("KeyH");
        },
        KeyCode::KeyI => {
            reveal_strlit("KeyI");
        },
        KeyCode::KeyJ => {
            reveal_strlit("KeyJ");
        },
        KeyCode::KeyK => {
            reveal_strlit("KeyK");
        },
        KeyCode::KeyL => {
            reveal_strlit("KeyL");
        },
        KeyCode::KeyM => {
            reveal_strlit("KeyM");
        },
        KeyCode::KeyN => {
            reveal_strlit("KeyN");
        },
        KeyCode::KeyO => {
            reveal_strlit("KeyO");
        },
        KeyCode::KeyP => {
            reveal_strlit("KeyP");
        },
        KeyCode::KeyQ => {
            reveal_strlit("KeyQ");
        },
        KeyCode::KeyR => {
            reveal_strlit("KeyR");
        },
        KeyCode::KeyS => {
            reveal_strlit("KeyS");
        },
        KeyCode::KeyT => {
            reveal_strlit("KeyT");
        },
        KeyCode::KeyU => {
            reveal_strlit("KeyU");
        },
        KeyCode::KeyV => {
            reveal_strlit("KeyV");
        },
        KeyCode::KeyW => {
            reveal_strlit("KeyW");
        },
        KeyCode::KeyX => {
            reveal_strlit("KeyX");
        },
        KeyCode::KeyY => {
            reveal_strlit("KeyY");
        },
        KeyCode::KeyZ => {
            reveal_strlit("KeyZ");
        },
        KeyCode::Digit0 => {
            reveal_strlit("Digit0");
        },
        KeyCode::Digit1 => {
            reveal_strlit("Digit1");
        },
        KeyCode::Digit2 => {
            reveal_strlit("Digit2");
        },
        KeyCode::Digit3 => {
            reveal_strlit("Digit3");
        },
        KeyCode::Digit4 => {
            reveal_strlit("Digit4");
        },
        KeyCode::Digit5 => {
            reveal_strlit("Digit5");
        },
        KeyCode::Digit6 => {
            reveal_strlit("Digit6");
        },
        KeyCode::Digit7 => {
            reveal_strlit("Digit7");
        },
        KeyCode::Digit8 => {
            reveal_strlit("Digit8");
        },
        KeyCode::Digit9 => {
            reveal_strlit("Digit9");
        },
        KeyCode::Escape => {
            reveal_strlit("Escape");
        },
        KeyCode::Tab => {
            reveal_strlit("Tab");
        },
        KeyCode::Space => {
            reveal_strlit("Space");
        },
        KeyCode::Enter => {
            reveal_strlit("Enter");
        },
        KeyCode::Backspace => {
            reveal_strlit("Backspace");
        },
        KeyCode::ArrowUp => {
            reveal_strlit("ArrowUp");
        },
        KeyCode::ArrowDown => {
            reveal_strlit("ArrowDown");
        },
        KeyCode::ArrowLeft => {
            reveal_strlit("ArrowLeft");
        },
        KeyCode::ArrowRight => {
            reveal_strlit("ArrowRight");
        },
        KeyCode::Backquote => {
            reveal_strlit("Backquote");
        },
        KeyCode::ShiftLeft => {
            reveal_strlit("ShiftLeft");
        },
        KeyCode::ShiftRight => {
            reveal_strlit("ShiftRight");
        },
        KeyCode::ControlLeft => {
            reveal_strlit("ControlLeft");
        },
        KeyCode::ControlRight => {
            reveal_strlit("ControlRight");
        },
        KeyCode::AltLeft => {
            reveal_strlit("AltLeft");
        },
        KeyCode::AltRight => {
            reveal_strlit("AltRight");
        },
        KeyCode::F1 => {
            reveal_strlit("F1");
        },
        KeyCode::F2 => {
            reveal_strlit("F2");
        },
        KeyCode::F3 => {
            reveal_strlit("F3");
        },
        KeyCode::F4 => {
            reveal_strlit("F4");
        },
        KeyCode::F5 => {
            reveal_strlit("F5");
        },
        KeyCode::F6 => {
            reveal_strlit("F6");
        },
        KeyCode::F7 => {
            reveal_strlit("F7");
        },
        KeyCode::F8 => {
            reveal_strlit("F8");
        },
        KeyCode::F9 => {
            reveal_strlit("F9");
        },
        KeyCode::F10 => {
            reveal_strlit("F10");
        },
        KeyCode::F11 => {
            reveal_strlit("F11");
        },
        KeyCode::F12 => {
            reveal_strlit("F12");
        },
    }
}

/// Distinct key codes have distinct names.
proof fn lemma_key_name_injective(a: KeyCode, b: KeyCode)
    requires
        key_name(a) == key_name(b),
    ensures
        a == b,
{
    lemma_name_pos(a);
    lemma_name_pos(b);
    lemma_key_pos(a);
    lemma_key_pos(b);
}

/// The characters of `s`, in order.
fn chars_of(s: &str) -> (r: Vec<char>)
    ensures
        r@ == s@,
{
    broadcast use vstd::string::group_string_axioms;

    let mut v: Vec<char> = Vec::new();
    for c in it: s.chars()
        invariant
            v@ == it.seq().take(it.index() as int),
    {
        proof {
            assert(it.seq().take(it.index() + 1) =~= v@.push(c));
        }
        v.push(c);
    }
    proof {
        assert(v@ =~= s@);
    }
    v
}

/// Whether two strings hold the same characters.
fn same_text(a: &str, b: &str) -> (r: bool)
    ensures
        r == (a@ == b@),
{
    let x = chars_of(a);
    let y = chars_of(b);
    if x.len() != y.len() {
        return false;
    }
    let mut k: usize = 0;
    while k < x.len()
        invariant
            x@ == a@,
            y@ == b@,
            x@.len() == y@.len(),
            k <= x@.len(),
            forall|q: int| 0 <= q < k ==> x@[q] == y@[q],
        decreases x@.len() - k,
    {
        if x[k] != y[k] {
            return false;
        }
        k = k + 1;
    }
    assert(x@ =~= y@);
    true
}

/// The key code whose name is `s`, as `KeyCode::name` writes it.
pub fn keycode_from_str(s: &str) -> (r: Option<KeyCode>)
    ensures
        match r {
            Some(k) => key_name(k) == s@
                && forall|j: int| 0 <= j < key_pos(k) ==> key_name(#[trigger] all_keys()[j]) != s@,
            None => forall|k: KeyCode| key_name(k) != s@,
        },
        forall|k: KeyCode| key_name(k) == s@ ==> r == Some(k),
{
    let keys = KeyCode::all();
    let mut i: usize = 0;
    while i < KEY_COUNT
        invariant
            keys@ == all_keys(),
            i <= 64,
            forall|j: int| 0 <= j < i ==> key_name(#[trigger] all_keys()[j]) != s@,
        decreases 64 - i,
    {
        let k = keys[i];
        if same_text(k.name(), s) {
            proof {
                lemma_key_pos(k);
                assert(key_pos(k) == i) by {
                    lemma_all_keys_distinct(key_pos(k), i as int);
                }
                assert forall|k2: KeyCode| key_name(k2) == s@ implies k2 == k by {
                    lemma_key_name_injective(k2, k);
                }
            }
            return Some(k);
        }
        i = i + 1;
    }
    proof {
        assert forall|k: KeyCode| key_name(k) != s@ by {
            lemma_key_pos(k);
            assert(key_name(all_keys()[key_pos(k)]) != s@);
        }
    }
    None
}

proof fn lemma_all_keys_distinct(i: int, j: int)
    requires
        0 <= i < 64,
        0 <= j < 64,
        all_keys()[i] == all_keys()[j],
    ensures
        i == j,
{
    assert(key_pos(all_keys()[i]) == i);
    assert(key_pos(all_keys()[j]) == j);
}

/// A key bound to an action.
#[derive(Clone, Copy, Debug, PartialEq, Eq, Hash, Structural)]
pub struct KeyBind {
    pub code: KeyCode,
}

impl KeyBind {
    pub fn new(code: KeyCode) -> (r: Self)
        ensures
            r.code == code,
    {
        KeyBind { code }
    }

    /// The name of the bound key.
    pub fn display_name(&self) -> (r: String)
        ensures
            r@ == key_name(self.code),
    {
        self.code.name().to_owned()
    }
}

/// Key bindings: at most one key for each action.
#[derive(Clone, Copy, Debug)]
pub struct Bindings {
    slots: [Option<KeyBind>; 14],
}

/// How many of the entries hold a binding.
pub open spec fn bound_count(s: Seq<Option<KeyBind>>) -> nat
    decreases s.len(),
{
    if s.len() == 0 {
        0
    } else {
        bound_count(s.drop_last()) + if s.last() is Some { 1nat } else { 0nat }
    }
}

/// The bindings a new game starts with, by action position.
pub open spec fn default_binding_seq() -> Seq<Option<KeyBind>> {
    seq![
        Some(KeyBind { code: KeyCode::KeyW }),
        Some(KeyBind { code: KeyCode::KeyS }),
        Some(KeyBind { code: KeyCode::KeyA }),
        Some(KeyBind { code: KeyCode::KeyD }),
        Some(KeyBind { code: KeyCode::KeyQ }),
        Some(KeyBind { code: KeyCode::KeyE }),
        Some(KeyBind { code: KeyCode::KeyL }),
        Some(KeyBind { code: KeyCode::Escape }),
        Some(KeyBind { code: KeyCode::Tab }),
        Some(KeyBind { code: KeyCode::Backquote }),
        None,
        None,
        Some(KeyBind { code: KeyCode::KeyR }),
        Some(KeyBind { code: KeyCode::KeyG })
    ]
}

impl View for Bindings {
    type V = Seq<Option<KeyBind>>;

    /// The binding of each action, by its position in `GameAction::all()`.
    closed spec fn view(&self) -> Seq<Option<KeyBind>> {
        self.slots@
    }
}

impl Bindings {
    pub proof fn lemma_len(&self)
        ensures
            self@.len() == 14,
    {
    }

    /// No action bound.
    pub fn new() -> (r: Self)
        ensures
            r@ == Seq::new(14, |i: int| None::<KeyBind>),
    {
        let r = Bindings { slots: [None; 14] };
        assert(r.slots@ =~= Seq::new(14, |i: int| None::<KeyBind>));
        r
    }

    /// The key bound to an action, if any.
    pub fn get(&self, action: &GameAction) -> (r: Option<KeyBind>)
        ensures
            r == self@[action_pos(*action)],
    {
        self.slots[action.index()]
    }

    /// Whether the action has a key.
    pub fn contains_key(&self, action: &GameAction) -> (r: bool)
        ensures
            r == self@[action_pos(*action)] is Some,
    {
        self.slots[action.index()].is_some()
    }

    /// Bind `action` to `bind`, returning the binding it replaced.
    pub fn insert(&mut self, action: GameAction, bind: KeyBind) -> (r: Option<KeyBind>)
        ensures
            r == old(self)@[action_pos(action)],
            final(self)@ == old(self)@.update(action_pos(action), Some(bind)),
    {
        let i = action.index();
        let prev = self.slots[i];
        self.slots[i] = Some(bind);
        prev
    }

    /// How many actions have a key.
    pub fn len(&self) -> (r: usize)
        ensures
            r == bound_count(self@),
    {
        let mut n: usize = 0;
        let mut k: usize = 0;
        while k < ACTION_COUNT
            invariant
                k <= 14,
                self.slots@.len() == 14,
                n == bound_count(self.slots@.subrange(0, k as int)),
                n <= k,
            decreases 14 - k,
        {
            assert(self.slots@.subrange(0, k as int + 1).drop_last() =~= self.slots@.subrange(0, k as int));
            if self.slots[k].is_some() {
                n = n + 1;
            }
            k = k + 1;
        }
        assert(self.slots@.subrange(0, 14) =~= self.slots@);
        n
    }

    /// Whether no action has a key.
    pub fn is_empty(&self) -> (r: bool)
        ensures
            r == (bound_count(self@) == 0),
    {
        self.len() == 0
    }
}

/// The key bindings a new game starts with.
pub fn default_bindings() -> (r: Bindings)
    ensures
        r@ == default_binding_seq(),
{
    let mut b = Bindings::new();
    b.insert(GameAction::MoveForward, KeyBind::new(KeyCode::KeyW));
    b.insert(GameAction::MoveBackward, KeyBind::new(KeyCode::KeyS));
    b.insert(GameAction::StrafeLeft, KeyBind::new(KeyCode::KeyA));
    b.insert(GameAction::StrafeRight, KeyBind::new(KeyCode::KeyD));
    b.insert(GameAction::CameraUp, KeyBind::new(KeyCode::KeyQ));
    b.insert(GameAction::CameraDown, KeyBind::new(KeyCode::KeyE));
    b.insert(GameAction::ToggleLabels, KeyBind::new(KeyCode::KeyL));
    b.insert(GameAction::OpenSettings, KeyBind::new(KeyCode::Escape));
    b.insert(GameAction::OpenInventory, KeyBind::new(KeyCode::Tab));
    b.insert(GameAction::ToggleViewMode, KeyBind::new(KeyCode::Backquote));
    b.insert(GameAction::RotateStructure, KeyBind::new(KeyCode::KeyR));
    b.insert(GameAction::ToggleGrid, KeyBind::new(KeyCode::KeyG));
    assert(b@ =~= default_binding_seq());
    b
}

/// Which actions are held and which were pressed this frame.
pub struct InputState {
    pub bindings: Bindings,
    active_actions: [bool; 14],
    just_pressed_actions: [bool; 14],
}

impl InputState {
    /// Whether each action is held, by action position.
    /// The key bound to each action, by action position.
    pub closed spec fn bound(&self) -> Seq<Option<KeyBind>> {
        self.bindings@
    }

    pub closed spec fn active_view(&self) -> Seq<bool> {
        self.active_actions@
    }

    /// Whether each action was pressed since the frame began, by action position.
    pub closed spec fn just_view(&self) -> Seq<bool> {
        self.just_pressed_actions@
    }

    pub proof fn lemma_lens(&self)
        ensures
            self.active_view().len() == 14,
            self.just_view().len() == 14,
    {
    }

    /// Nothing held, nothing pressed.
    pub fn new(bindings: Bindings) -> (r: Self)
        ensures
            r.bound() == bindings@,
            r.active_view() == Seq::new(14, |i: int| false),
            r.just_view() == Seq::new(14, |i: int| false),
    {
        let r = InputState { bindings, active_actions: [false; 14], just_pressed_actions: [false; 14] };
        assert(r.active_actions@ =~= Seq::new(14, |i: int| false));
        assert(r.just_pressed_actions@ =~= Seq::new(14, |i: int| false));
        r
    }

    /// A fresh state with the default bindings.
    pub fn with_defaults() -> (r: Self)
        ensures
            r.bound() == default_binding_seq(),
            r.active_view() == Seq::new(14, |i: int| false),
            r.just_view() == Seq::new(14, |i: int| false),
    {
        Self::new(default_bindings())
    }

    /// A key went down (`pressed`) or up: every action bound to it becomes
    /// held or released, and on a press also counts as just pressed.
    pub fn on_key_event(&mut self, code: KeyCode, pressed: bool)
        ensures
            final(self).bound() == old(self).bound(),
            final(self).active_view().len() == 14,
            final(self).just_view().len() == 14,
            forall|i: int| 0 <= i < 14 ==> {
                let hit = old(self).bound()[i] == Some(KeyBind { code });
                &&& #[trigger] final(self).active_view()[i] == if hit { pressed } else { old(self).active_view()[i] }
                &&& final(self).just_view()[i] == if hit { pressed || old(self).just_view()[i] } else { old(self).just_view()[i] }
            },
    {
        let mut k: usize = 0;
        while k < ACTION_COUNT
            invariant
                k <= 14,
                self.bindings == old(self).bindings,
                self.active_actions@.len() == 14,
                self.just_pressed_actions@.len() == 14,
                forall|i: int| 0 <= i < 14 ==> {
                    let hit = i < k && old(self).bound()[i] == Some(KeyBind { code });
                    &&& #[trigger] self.active_actions@[i] == if hit { pressed } else { old(self).active_actions@[i] }
                    &&& self.just_pressed_actions@[i] == if hit { pressed || old(self).just_pressed_actions@[i] } else { old(self).just_pressed_actions@[i] }
                },
            decreases 14 - k,
        {
            let hit = match self.bindings.slots[k] {
                Some(b) => b.code == code,
                None => false,
            };
            if hit {
                if pressed {
                    self.active_actions[k] = true;
                    self.just_pressed_actions[k] = true;
                } else {
                    self.active_actions[k] = false;
                }
            }
            k = k + 1;
        }
    }

    /// Whether the action is held.
    pub fn is_active(&self, action: GameAction) -> (r: bool)
        ensures
            r == self.active_view()[action_pos(action)],
    {
        self.active_actions[action.index()]
    }

    /// Whether the action was pressed since the frame began.
    pub fn just_pressed(&self, action: GameAction) -> (r: bool)
        ensures
            r == self.just_view()[action_pos(action)],
    {
        self.just_pressed_actions[action.index()]
    }

    /// End the frame: nothing counts as just pressed any more.
    pub fn end_frame(&mut self)
        ensures
            final(self).bound() == old(self).bound(),
            final(self).active_view() == old(self).active_view(),
            final(self).just_view() == Seq::new(14, |i: int| false),
    {
        self.just_pressed_actions = [false; 14];
        assert(self.just_pressed_actions@ =~= Seq::new(14, |i: int| false));
    }

    /// Bind `action` to the key `code` instead of its current key.
    pub fn rebind(&mut self, action: GameAction, code: KeyCode)
        ensures
            final(self).bound() == old(self).bound().update(action_pos(action), Some(KeyBind { code })),
            final(self).active_view() == old(self).active_view(),
            final(self).just_view() == old(self).just_view(),
    {
        self.bindings.insert(action, KeyBind::new(code));
    }
}

} // verus!
