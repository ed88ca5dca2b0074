//! Decision logic of the interactive terminal: the key model and menu
//! navigation. Drawing and raw-mode handling stay with the caller; every
//! reaction to a key is decided here.

use vstd::prelude::*;

verus! {

/// The keys the interface reacts to.
#[derive(Clone, Copy, Debug, PartialEq, Eq)]
pub enum UiKey {
    Up,
    Down,
    Enter,
    Esc,
    Char(char),
    Other,
}

/// One key press: the key and whether the control modifier was held.
#[derive(Clone, Copy, Debug, PartialEq, Eq)]
pub struct KeyPress {
    pub code: UiKey,
    pub ctrl: bool,
}

/// `k` is the ASCII-lowercase form of `c`.
pub open spec fn lower_matches(c: char, k: char) -> bool {
    if ('A' as u32) <= (c as u32) && (c as u32) <= ('Z' as u32) {
        (k as u32) == (c as u32) + 32
    } else {
        k == c
    }
}

fn lower_matches_exec(c: char, k: char) -> (r: bool)
    ensures
        r == lower_matches(c, k),
{
    let cu = c as u32;
    if 'A' as u32 <= cu && cu <= 'Z' as u32 {
        k as u32 == cu + 32
    } else {
        k == c
    }
}

/// What one key press does to a menu.
#[derive(Clone, Copy, Debug, PartialEq, Eq)]
pub enum MenuStep {
    /// The cursor moved here; redraw.
    Moved(usize),
    /// The item with this key character was chosen.
    Chosen(char),
    /// The menu was dismissed.
    Cancelled,
    /// Nothing to do.
    Ignored,
}

/// Decides the reaction of a menu to one key press: arrows move the cursor
/// with wrap-around, enter chooses the item under the cursor, a letter
/// chooses the item with that (lowercased) key, escape dismisses.
pub fn menu_step(keys: &Vec<char>, cursor: usize, key: KeyPress) -> (r: MenuStep)
    requires
        keys@.len() > 0,
        cursor < keys@.len(),
    ensures
        match key.code {
            UiKey::Up => r == MenuStep::Moved(
                if cursor == 0 {
                    (keys@.len() - 1) as usize
                } else {
                    (cursor - 1) as usize
                },
            ),
            UiKey::Down => r == MenuStep::Moved(
                if cursor + 1 == keys@.len() {
                    0usize
                } else {
                    (cursor + 1) as usize
                },
            ),
            UiKey::Enter => r == MenuStep::Chosen(keys@[cursor as int]),
            UiKey::Esc => r == MenuStep::Cancelled,
            UiKey::Char(c) => match r {
                MenuStep::Chosen(k) => lower_matches(c, k) && exists|i: int|
                    0 <= i < keys@.len() && lower_matches(c, keys@[i]),
                MenuStep::Ignored => !exists|i: int|
                    0 <= i < keys@.len() && lower_matches(c, keys@[i]),
                _ => false,
            },
            UiKey::Other => r == MenuStep::Ignored,
        },
{
    let n = keys.len();
    match key.code {
        UiKey::Up => {
            if cursor == 0 {
                MenuStep::Moved(n - 1)
            } else {
                MenuStep::Moved(cursor - 1)
            }
        },
        UiKey::Down => {
            if cursor + 1 == n {
                MenuStep::Moved(0)
            } else {
                MenuStep::Moved(cursor + 1)
            }
        },
        UiKey::Enter => MenuStep::Chosen(keys[cursor]),
        UiKey::Esc => MenuStep::Cancelled,
        UiKey::Char(c) => {
            let mut i: usize = 0;
            while i < n
                invariant
                    i <= n,
                    n == keys@.len(),
                    key.code == UiKey::Char(c),
                    forall|k: int| 0 <= k < i ==> !lower_matches(c, keys@[k]),
                decreases n - i,
            {
                if lower_matches_exec(c, keys[i]) {
                    return MenuStep::Chosen(keys[i]);
                }
                i += 1;
            }
            MenuStep::Ignored
        },
        UiKey::Other => MenuStep::Ignored,
    }
}

} // verus!
