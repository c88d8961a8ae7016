use vstd::prelude::*;

verus! {

// ---------------------------------------------------------------------------
// The global-shortcut registry's data, modelled as plain values. The actual
// registration against the window system happens outside; this module owns
// the mapping from actions to key chords.
// ---------------------------------------------------------------------------

/// One action's key chord.
pub struct ShortcutMapping {
    pub action: String,
    pub shortcut: String,
}

/// Why a shortcut could not be registered.
#[derive(Debug)]
pub enum ShortcutError {
    AlreadyRegistered(String),
    InvalidShortcut(String),
    SystemError(String),
}

/// The two configurable key chords.
pub struct Shortcuts {
    pub new_note: String,
    pub screenshot: String,
}

impl Default for Shortcuts {
    /// The default chords, as first installed.
    fn default() -> (r: Shortcuts)
        ensures
            r.new_note@ == "CommandOrControl+Shift+C"@,
            r.screenshot@ == "CommandOrControl+Shift+X"@,
    {
        Shortcuts {
            new_note: "CommandOrControl+Shift+C".to_owned(),
            screenshot: "CommandOrControl+Shift+X".to_owned(),
        }
    }
}

/// The security section of the settings.
pub struct Security {
    pub auto_lock: bool,
    pub lock_timeout: u32,
    pub encryption_enabled: bool,
}

impl Default for Security {
    fn default() -> (r: Security)
        ensures
            !r.auto_lock,
            r.lock_timeout == 5,
            r.encryption_enabled,
    {
        Security { auto_lock: false, lock_timeout: 5, encryption_enabled: true }
    }
}

/// The appearance theme choice.
#[derive(Clone, Copy, Debug, PartialEq, Eq, Structural)]
pub enum Theme {
    Light,
    Dark,
    System,
}

impl Default for Theme {
    fn default() -> (r: Theme)
        ensures
            r == Theme::System,
    {
        Theme::System
    }
}

/// The default shortcut map: each action with its chord.
pub fn get_all_shortcuts() -> (r: Vec<ShortcutMapping>)
    ensures
        r@.len() == 2,
        r@[0].action@ == "open_main_window"@,
        r@[0].shortcut@ == "CommandOrControl+Shift+C"@,
        r@[1].action@ == "trigger_screenshot"@,
        r@[1].shortcut@ == "CommandOrControl+Shift+X"@,
{
    let mut v: Vec<ShortcutMapping> = Vec::new();
    v.push(
        ShortcutMapping {
            action: "open_main_window".to_owned(),
            shortcut: "CommandOrControl+Shift+C".to_owned(),
        },
    );
    v.push(
        ShortcutMapping {
            action: "trigger_screenshot".to_owned(),
            shortcut: "CommandOrControl+Shift+X".to_owned(),
        },
    );
    v
}

/// The default shortcut map, as the command layer hands it out.
pub fn get_all_shortcut_mappings() -> (r: Vec<ShortcutMapping>)
    ensures
        r@.len() == 2,
        r@[0].action@ == "open_main_window"@,
        r@[0].shortcut@ == "CommandOrControl+Shift+C"@,
        r@[1].action@ == "trigger_screenshot"@,
        r@[1].shortcut@ == "CommandOrControl+Shift+X"@,
{
    get_all_shortcuts()
}

/// An action is bound in the mapping list.
pub open spec fn has_action(s: Seq<ShortcutMapping>, action: Seq<char>) -> bool {
    exists|i: int| 0 <= i < s.len() && (#[trigger] s[i]).action@ == action
}

/// Rebind an action's chord, or append the binding if the action is new.
/// Earlier bindings of other actions are untouched.
pub fn update_shortcut(mappings: &mut Vec<ShortcutMapping>, action: &str, new_shortcut: &str)
    requires
        forall|i: int, j: int|
            0 <= i < j < old(mappings)@.len() ==> (#[trigger] old(mappings)@[i]).action@ != (
            #[trigger] old(mappings)@[j]).action@,
    ensures
        has_action(final(mappings)@, action@),
        final(mappings)@.len() >= old(mappings)@.len(),
        forall|i: int|
            0 <= i < old(mappings)@.len() ==> (#[trigger] final(mappings)@[i]).action@ == old(
                mappings,
            )@[i].action@,
        forall|i: int|
            0 <= i < old(mappings)@.len() && old(mappings)@[i].action@ != action@ ==> (
            #[trigger] final(mappings)@[i]).shortcut@ == old(mappings)@[i].shortcut@,
        forall|i: int|
            0 <= i < final(mappings)@.len() && (#[trigger] final(mappings)@[i]).action@
                == action@ ==> final(mappings)@[i].shortcut@ == new_shortcut@,
{
    let owned_action = action.to_owned();
    let mut i: usize = 0;
    while i < mappings.len()
        invariant
            forall|a: int, b: int|
                0 <= a < b < mappings@.len() ==> (#[trigger] mappings@[a]).action@ != (
                #[trigger] mappings@[b]).action@,
            mappings@ == old(mappings)@,
            owned_action@ == action@,
            i <= mappings.len(),
            forall|k: int| 0 <= k < i ==> (#[trigger] mappings@[k]).action@ != action@,
        decreases mappings.len() - i,
    {
        if mappings[i].action == owned_action {
            let replaced = ShortcutMapping {
                action: action.to_owned(),
                shortcut: new_shortcut.to_owned(),
            };
            mappings.set(i, replaced);
            proof {
                assert(mappings@[i as int].action@ == action@);
            }
            return ;
        }
        i += 1;
    }
    mappings.push(
        ShortcutMapping { action: owned_action, shortcut: new_shortcut.to_owned() },
    );
    proof {
        assert(mappings@[mappings@.len() - 1].action@ == action@);
    }
}

} // verus!
