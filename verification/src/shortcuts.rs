//! The chord that shows and hides the window from anywhere.

use vstd::prelude::*;
use vstd::string::*;

use crate::session::{alerting, remarking, Notice};
use crate::text::same_text;

verus! {

broadcast use {vstd::seq::group_seq_axioms, vstd::string::group_string_axioms};

/// A key with its modifiers.
#[derive(Clone, Debug, PartialEq, Eq)]
pub struct Hotkey {
    pub key: String,
    pub cmd: bool,
    pub ctrl: bool,
    pub alt: bool,
    pub shift: bool,
}

/// The modifiers held with a key.
#[derive(Clone, Copy, Debug, PartialEq, Eq, Structural)]
pub struct Modifiers {
    pub cmd: bool,
    pub ctrl: bool,
    pub alt: bool,
    pub shift: bool,
}

/// Text in small letters, as the standard library writes it.
pub uninterp spec fn unicode_lowered(s: Seq<char>) -> Seq<char>;

/// An ASCII letter in its small form; any other character as it is.
pub open spec fn small(c: char) -> char {
    if 'A' <= c <= 'Z' {
        (c as int + 32) as char
    } else {
        c
    }
}

/// Whether every character of `s` is ASCII.
pub open spec fn all_ascii(s: Seq<char>) -> bool {
    forall|k: int| 0 <= k < s.len() ==> (#[trigger] s[k] as int) < 128
}

/// Text in small letters.
pub open spec fn lowered(s: Seq<char>) -> Seq<char> {
    if all_ascii(s) {
        s.map_values(|c: char| small(c))
    } else {
        unicode_lowered(s)
    }
}

/// `str::to_lowercase`: the text with every character in its Unicode lower case.
/// The result depends on the text alone and is named [`unicode_lowered`]. Of ASCII
/// text it is said that the letters A to Z become a to z and the rest stays; which
/// lower case any other character has is not stated.
#[verifier::external_body]
fn to_lowercase(s: &str) -> (r: String)
    ensures
        r@ == unicode_lowered(s@),
        all_ascii(s@) ==> r@ == s@.map_values(|c: char| small(c)),
{
    s.to_lowercase()
}

/// Whether `h` is the chord of the key `key` with the modifiers `m`.
pub open spec fn chord_of(h: Hotkey, key: Seq<char>, m: Modifiers) -> bool {
    h.key@ == key && h.cmd == m.cmd && h.ctrl == m.ctrl && h.alt == m.alt && h.shift == m.shift
}

/// The chord of a key as it was pressed: its name in small letters, with the
/// modifiers held.
pub fn chord(pressed: &str, m: Modifiers) -> (h: Hotkey)
    ensures
        chord_of(h, lowered(pressed@), m),
{
    Hotkey { key: to_lowercase(pressed), cmd: m.cmd, ctrl: m.ctrl, alt: m.alt, shift: m.shift }
}

/// The well-known command that a bare ⌘ with `key` runs in every app.
pub open spec fn claimed(key: Seq<char>) -> Option<Seq<char>> {
    if key == "q"@ {
        Some("Quit"@)
    } else if key == "w"@ {
        Some("Close Window"@)
    } else if key == "n"@ {
        Some("New"@)
    } else if key == "s"@ {
        Some("Save"@)
    } else if key == "o"@ {
        Some("Open"@)
    } else if key == "p"@ {
        Some("Print"@)
    } else if key == "f"@ {
        Some("Find"@)
    } else if key == "g"@ {
        Some("Find Next"@)
    } else if key == "z"@ {
        Some("Undo"@)
    } else if key == "x"@ {
        Some("Cut"@)
    } else if key == "c"@ {
        Some("Copy"@)
    } else if key == "v"@ {
        Some("Paste"@)
    } else if key == "a"@ {
        Some("Select All"@)
    } else if key == "t"@ {
        Some("New Tab"@)
    } else if key == "h"@ {
        Some("Hide"@)
    } else if key == "m"@ {
        Some("Minimize"@)
    } else if key == "space"@ {
        Some("Spotlight"@)
    } else if key == ","@ {
        Some("Settings"@)
    } else {
        None
    }
}

/// The command that `h` would shadow everywhere.
pub open spec fn shadows(h: Hotkey) -> Option<Seq<char>> {
    if h.cmd && !h.ctrl && !h.alt && !h.shift {
        claimed(h.key@)
    } else {
        None
    }
}

/// The characters of an optional text.
pub open spec fn chars(text: Option<&'static str>) -> Option<Seq<char>> {
    match text {
        Some(t) => Some(t@),
        None => None,
    }
}

fn claimed_by(key: &str) -> (r: Option<&'static str>)
    ensures
        chars(r) == claimed(key@),
{
    if same_text(key, "q") {
        Some("Quit")
    } else if same_text(key, "w") {
        Some("Close Window")
    } else if same_text(key, "n") {
        Some("New")
    } else if same_text(key, "s") {
        Some("Save")
    } else if same_text(key, "o") {
        Some("Open")
    } else if same_text(key, "p") {
        Some("Print")
    } else if same_text(key, "f") {
        Some("Find")
    } else if same_text(key, "g") {
        Some("Find Next")
    } else if same_text(key, "z") {
        Some("Undo")
    } else if same_text(key, "x") {
        Some("Cut")
    } else if same_text(key, "c") {
        Some("Copy")
    } else if same_text(key, "v") {
        Some("Paste")
    } else if same_text(key, "a") {
        Some("Select All")
    } else if same_text(key, "t") {
        Some("New Tab")
    } else if same_text(key, "h") {
        Some("Hide")
    } else if same_text(key, "m") {
        Some("Minimize")
    } else if same_text(key, "space") {
        Some("Spotlight")
    } else if same_text(key, ",") {
        Some("Settings")
    } else {
        None
    }
}

/// The well-known command a chord would shadow in every app, if it is one of the
/// plain ⌘ shortcuts they all share. `None` for anything else, which is safe to
/// reserve without a word.
pub fn common_shortcut_conflict(h: &Hotkey) -> (r: Option<&'static str>)
    ensures
        chars(r) == shadows(*h),
{
    if !h.cmd || h.ctrl || h.alt || h.shift {
        return None;
    }
    claimed_by(h.key.as_str())
}

/// What a key pressed while a shortcut is recorded comes to.
pub enum Recorded {
    /// A modifier on its own is no chord yet: keep waiting.
    Waiting,
    /// The recording is over, and nothing changes.
    Cancelled,
    /// The chord cannot be used; what to say.
    Refused(Notice),
    /// The chord is the shortcut now; what to say on top of that, where it
    /// shadows a command of every app.
    Taken(Hotkey, Option<Notice>),
}

/// Whether `key` is the name of a modifier.
pub open spec fn modifier_key(key: Seq<char>) -> bool {
    key.len() == 0 || key == "cmd"@ || key == "ctrl"@ || key == "alt"@ || key == "shift"@ || key
        == "fn"@
}

/// What is said of a shortcut labelled `label` that shadows `what`.
pub open spec fn shadow_text(label: Seq<char>, what: Seq<char>) -> Seq<char> {
    label + " is now Show / Hide — it will override “"@ + what
        + "” everywhere while GravityNote is running."@
}

fn is_modifier_key(key: &str) -> (r: bool)
    ensures
        r == modifier_key(key@),
{
    key.is_empty() || same_text(key, "cmd") || same_text(key, "ctrl") || same_text(key, "alt")
        || same_text(key, "shift") || same_text(key, "fn")
}

/// Finish recording a chord. `pressed` is the key as it was pressed, `h` the
/// chord with the key in small letters, `label` its name and `registrable` whether
/// the system takes it. A bare key, or one that cannot be registered, is refused
/// with a word rather than saved, so that recording never leaves the shortcut in
/// a useless state.
pub fn record_shortcut(pressed: &str, h: Hotkey, label: &str, registrable: bool, now: u64) -> (r: Recorded)
    ensures
        if modifier_key(pressed@) {
            r is Waiting
        } else if pressed@ == "escape"@ {
            r is Cancelled
        } else if !(h.cmd || h.ctrl || h.alt || h.shift) {
            r matches Recorded::Refused(n) && Some(n@) == alerting(
                "A global shortcut needs at least one of ⌘ ⌃ ⌥ ⇧. Try again."@,
                now,
            )
        } else if !registrable {
            r matches Recorded::Refused(n) && Some(n@) == alerting(
                label@ + " is not a key GravityNote can register globally. Try another."@,
                now,
            )
        } else {
            r matches Recorded::Taken(hotkey, notice) && hotkey == h && crate::session::said(notice) == (
            match shadows(h) {
                Some(what) => remarking(shadow_text(label@, what), now),
                None => None,
            })
        },
{
    if is_modifier_key(pressed) {
        return Recorded::Waiting;
    }
    if same_text(pressed, "escape") {
        return Recorded::Cancelled;
    }
    if !(h.cmd || h.ctrl || h.alt || h.shift) {
        return Recorded::Refused(
            Notice::alert(
                String::from_str("A global shortcut needs at least one of ⌘ ⌃ ⌥ ⇧. Try again."),
                now,
            ),
        );
    }
    if !registrable {
        let mut text = String::from_str(label);
        text.append(" is not a key GravityNote can register globally. Try another.");
        return Recorded::Refused(Notice::alert(text, now));
    }
    let notice = match common_shortcut_conflict(&h) {
        Some(what) => {
            let mut text = String::from_str(label);
            text.append(" is now Show / Hide — it will override “");
            text.append(what);
            text.append("” everywhere while GravityNote is running.");
            Some(Notice::remark(text, now))
        },
        None => None,
    };
    Recorded::Taken(h, notice)
}

/// What Settings shows for the shortcut: the prompt of a recording, the chord's
/// name, or that there is none.
pub fn shortcut_prompt(recording: bool, label: Option<&str>) -> (r: String)
    ensures
        r@ == (if recording {
            "Press keys…"@
        } else {
            match label {
                Some(l) => l@,
                None => "Off"@,
            }
        }),
{
    if recording {
        return String::from_str("Press keys…");
    }
    match label {
        Some(l) => String::from_str(l),
        None => String::from_str("Off"),
    }
}

/// What is said once the shortcut was set, or turned off: the system's warning if
/// it has one.
pub fn shortcut_report(label: Option<&str>, warning: Option<&str>, now: u64) -> (r: Notice)
    ensures
        Some(r@) == (match warning {
            Some(w) => alerting(w@, now),
            None => match label {
                Some(l) => remarking("Show / Hide is now "@ + l@, now),
                None => remarking("Global show / hide shortcut is off"@, now),
            },
        }),
{
    match warning {
        Some(w) => Notice::alert(String::from_str(w), now),
        None => match label {
            Some(l) => {
                let mut text = String::from_str("Show / Hide is now ");
                text.append(l);
                Notice::remark(text, now)
            },
            None => Notice::remark(String::from_str("Global show / hide shortcut is off"), now),
        },
    }
}

/// Only a plain ⌘ shadows a command of every app, and then the one that its key has.
pub proof fn law_only_plain_chords_shadow(h: Hotkey)
    ensures
        h.ctrl || h.alt || h.shift || !h.cmd ==> shadows(h) is None,
        h.cmd && !h.ctrl && !h.alt && !h.shift ==> shadows(h) == claimed(h.key@),
{
}

/// The keys that run a command of every app.
pub open spec fn command_keys() -> Seq<char> {
    seq!['q', 'w', 'n', 's', 'o', 'p', 'f', 'g', 'z', 'x', 'c', 'v', 'a', 't', 'h', 'm', ',']
}

/// Where each command of every app is; no other key has one.
pub proof fn law_the_commands_of_every_app(key: Seq<char>)
    ensures
        key.len() == 1 && key[0] == 'q' ==> claimed(key) == Some("Quit"@),
        key.len() == 1 && key[0] == 'w' ==> claimed(key) == Some("Close Window"@),
        key.len() == 1 && key[0] == 'n' ==> claimed(key) == Some("New"@),
        key.len() == 1 && key[0] == 's' ==> claimed(key) == Some("Save"@),
        key.len() == 1 && key[0] == 'o' ==> claimed(key) == Some("Open"@),
        key.len() == 1 && key[0] == 'p' ==> claimed(key) == Some("Print"@),
        key.len() == 1 && key[0] == 'f' ==> claimed(key) == Some("Find"@),
        key.len() == 1 && key[0] == 'g' ==> claimed(key) == Some("Find Next"@),
        key.len() == 1 && key[0] == 'z' ==> claimed(key) == Some("Undo"@),
        key.len() == 1 && key[0] == 'x' ==> claimed(key) == Some("Cut"@),
        key.len() == 1 && key[0] == 'c' ==> claimed(key) == Some("Copy"@),
        key.len() == 1 && key[0] == 'v' ==> claimed(key) == Some("Paste"@),
        key.len() == 1 && key[0] == 'a' ==> claimed(key) == Some("Select All"@),
        key.len() == 1 && key[0] == 't' ==> claimed(key) == Some("New Tab"@),
        key.len() == 1 && key[0] == 'h' ==> claimed(key) == Some("Hide"@),
        key.len() == 1 && key[0] == 'm' ==> claimed(key) == Some("Minimize"@),
        key.len() == 1 && key[0] == ',' ==> claimed(key) == Some("Settings"@),
        key == "space"@ ==> claimed(key) == Some("Spotlight"@),
        key.len() != 1 && key != "space"@ ==> claimed(key) is None,
        key.len() == 1 && !command_keys().contains(key[0]) ==> claimed(key) is None,
{
    reveal_strlit("q");
    reveal_strlit("w");
    reveal_strlit("n");
    reveal_strlit("s");
    reveal_strlit("o");
    reveal_strlit("p");
    reveal_strlit("f");
    reveal_strlit("g");
    reveal_strlit("z");
    reveal_strlit("x");
    reveal_strlit("c");
    reveal_strlit("v");
    reveal_strlit("a");
    reveal_strlit("t");
    reveal_strlit("h");
    reveal_strlit("m");
    reveal_strlit(",");
    reveal_strlit("space");
    assert("q"@[0] == 'q');
    assert("w"@[0] == 'w');
    assert("n"@[0] == 'n');
    assert("s"@[0] == 's');
    assert("o"@[0] == 'o');
    assert("p"@[0] == 'p');
    assert("f"@[0] == 'f');
    assert("g"@[0] == 'g');
    assert("z"@[0] == 'z');
    assert("x"@[0] == 'x');
    assert("c"@[0] == 'c');
    assert("v"@[0] == 'v');
    assert("a"@[0] == 'a');
    assert("t"@[0] == 't');
    assert("h"@[0] == 'h');
    assert("m"@[0] == 'm');
    assert(","@[0] == ',');
    let keys = command_keys();
    assert(keys[0] == 'q');
    assert(keys[1] == 'w');
    assert(keys[2] == 'n');
    assert(keys[3] == 's');
    assert(keys[4] == 'o');
    assert(keys[5] == 'p');
    assert(keys[6] == 'f');
    assert(keys[7] == 'g');
    assert(keys[8] == 'z');
    assert(keys[9] == 'x');
    assert(keys[10] == 'c');
    assert(keys[11] == 'v');
    assert(keys[12] == 'a');
    assert(keys[13] == 't');
    assert(keys[14] == 'h');
    assert(keys[15] == 'm');
    assert(keys[16] == ',');
    if key.len() == 1 {
        if key[0] == 'q' {
            assert(key =~= "q"@);
        }
        if key[0] == 'w' {
            assert(key =~= "w"@);
        }
        if key[0] == 'n' {
            assert(key =~= "n"@);
        }
        if key[0] == 's' {
            assert(key =~= "s"@);
        }
        if key[0] == 'o' {
            assert(key =~= "o"@);
        }
        if key[0] == 'p' {
            assert(key =~= "p"@);
        }
        if key[0] == 'f' {
            assert(key =~= "f"@);
        }
        if key[0] == 'g' {
            assert(key =~= "g"@);
        }
        if key[0] == 'z' {
            assert(key =~= "z"@);
        }
        if key[0] == 'x' {
            assert(key =~= "x"@);
        }
        if key[0] == 'c' {
            assert(key =~= "c"@);
        }
        if key[0] == 'v' {
            assert(key =~= "v"@);
        }
        if key[0] == 'a' {
            assert(key =~= "a"@);
        }
        if key[0] == 't' {
            assert(key =~= "t"@);
        }
        if key[0] == 'h' {
            assert(key =~= "h"@);
        }
        if key[0] == 'm' {
            assert(key =~= "m"@);
        }
        if key[0] == ',' {
            assert(key =~= ","@);
        }
    }
}

/// A modifier alone is no key to record, and neither is no key at all; a key with a name
/// of one character always is.
pub proof fn law_modifiers_are_no_keys(key: Seq<char>)
    ensures
        modifier_key(""@),
        modifier_key("cmd"@),
        modifier_key("ctrl"@),
        modifier_key("alt"@),
        modifier_key("shift"@),
        modifier_key("fn"@),
        key.len() == 0 ==> modifier_key(key),
        key.len() == 1 || key.len() == 4 && key != "ctrl"@ || key.len() > 5 ==> !modifier_key(key),
{
    reveal_strlit("");
    reveal_strlit("cmd");
    reveal_strlit("ctrl");
    reveal_strlit("alt");
    reveal_strlit("shift");
    reveal_strlit("fn");
}

/// A chord is of one key with one set of modifiers: no other key and no other modifiers
/// make the same.
pub proof fn law_a_chord_is_of_one_key(h: Hotkey, k: Seq<char>, m: Modifiers, j: Seq<char>, n: Modifiers)
    requires
        chord_of(h, k, m),
        chord_of(h, j, n),
    ensures
        k == j,
        m == n,
{
}

/// In small letters a key has the same name with and without capitals: a capital becomes
/// its small letter, and every other ASCII character stays.
pub proof fn law_small_letters(s: Seq<char>, k: int)
    requires
        all_ascii(s),
        0 <= k < s.len(),
    ensures
        ({
            let t = lowered(s);
            &&& t.len() == s.len()
            &&& 'A' <= s[k] <= 'Z' ==> 'a' <= t[k] <= 'z' && t[k] as int - 'a' as int == s[k] as int
                - 'A' as int
            &&& !('A' <= s[k] <= 'Z') ==> t[k] == s[k]
            &&& lowered(t) == t
        }),
{
    let t = lowered(s);
    assert forall|i: int| 0 <= i < t.len() implies (#[trigger] t[i] as int) < 128 && small(t[i]) == t[i] by {
        assert((s[i] as int) < 128);
    }
    assert(lowered(t) =~= t);
}

/// What is said of a shortcut names it and the command it shadows.
pub proof fn law_a_shadow_is_named(label: Seq<char>, what: Seq<char>)
    ensures
        shadow_text(label, what) == label + " is now Show / Hide — it will override “"@ + what
            + "” everywhere while GravityNote is running."@,
{
}

} // verus!
