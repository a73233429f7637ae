//! Device discovery: the snapshot type one enumeration pass produces, the
//! display-name heuristic that keeps keyboards and drops wireless receivers,
//! the dedup-by-name selection, and the hotplug notification filter.
//!
//! The enumerator's platform half lives outside the library: it scans the
//! stable input-device directory, keeps the entries `is_event_kbd_entry`
//! accepts, opens each (skipping those it cannot open), and hands the
//! resulting candidates to `select_keyboards`.

use vstd::prelude::*;

use crate::KeyboardIdentity;
use crate::text::chars_of;
use crate::text::contains_chars;
use crate::text::contains_chars_exec;
use crate::text::ends_with_chars;
use crate::text::ends_with_chars_exec;

verus! {

/// One keyboard as one enumeration pass saw it: a fresh snapshot, never
/// retained across passes.
pub struct Keyboard {
    pub name: String,
    pub device_path: String,
    pub vendor_id: u16,
    pub product_id: u16,
}

impl Keyboard {
    /// The stable key of this keyboard.
    pub open spec fn spec_identity(&self) -> KeyboardIdentity {
        KeyboardIdentity { vendor_id: self.vendor_id, product_id: self.product_id }
    }

    /// The stable key of this keyboard.
    pub fn identity(&self) -> (r: KeyboardIdentity)
        ensures
            r == self.spec_identity(),
    {
        KeyboardIdentity { vendor_id: self.vendor_id, product_id: self.product_id }
    }
}

/// The marker every keyboard-class display name carries.
pub open spec fn keyboard_marker() -> Seq<char> {
    "Keyboard"@
}

/// The marker of a wireless-receiver display name.
pub open spec fn receiver_marker() -> Seq<char> {
    "Receiver"@
}

/// The suffix of a primary-keyboard-interface entry in the stable
/// input-device directory.
pub open spec fn event_kbd_suffix() -> Seq<char> {
    "-event-kbd"@
}

/// The display-name heuristic: the name must denote a keyboard class and
/// must not denote a wireless receiver. Best effort only: it can both over-
/// and under-match.
pub open spec fn name_accepted(name: Seq<char>) -> bool {
    contains_chars(name, keyboard_marker()) && !contains_chars(name, receiver_marker())
}

/// Whether a display name passes the keyboard heuristic.
pub fn is_keyboard_name(name: &str) -> (r: bool)
    ensures
        r == name_accepted(name@),
{
    let cs = chars_of(name);
    let kb = chars_of("Keyboard");
    let rc = chars_of("Receiver");
    contains_chars_exec(&cs, &kb) && !contains_chars_exec(&cs, &rc)
}

/// Whether a directory entry names the primary event interface of a
/// keyboard (as opposed to an auxiliary interface of the same unit).
pub fn is_event_kbd_entry(file_name: &str) -> (r: bool)
    ensures
        r == ends_with_chars(file_name@, event_kbd_suffix()),
{
    let cs = chars_of(file_name);
    let suffix = chars_of("-event-kbd");
    ends_with_chars_exec(&cs, &suffix)
}

/// `kb` is the last candidate bearing its display name, and that name
/// passes the heuristic: exactly the entries selection keeps.
pub open spec fn selected_from(candidates: Seq<Keyboard>, kb: Keyboard) -> bool {
    &&& name_accepted(kb.name@)
    &&& exists|k: int|
        0 <= k < candidates.len() && candidates[k] == kb && (forall|k2: int|
            k < k2 < candidates.len() ==> candidates[k2].name@ != kb.name@)
}

/// The index of an already-selected keyboard with the given display name.
fn find_by_name(out: &Vec<Keyboard>, name: &String) -> (r: Option<usize>)
    ensures
        match r {
            Some(i) => i < out@.len() && out@[i as int].name@ == name@,
            None => forall|i: int| 0 <= i < out@.len() ==> out@[i].name@ != name@,
        },
{
    let mut i: usize = 0;
    while i < out.len()
        invariant
            i <= out@.len(),
            forall|k: int| 0 <= k < i ==> out@[k].name@ != name@,
        decreases out@.len() - i,
    {
        if out[i].name.eq(name) {
            return Some(i);
        }
        i += 1;
    }
    None
}

/// Applies the display-name heuristic and collapses candidates that share a
/// display name to a single entry, keeping the last one seen. Two
/// physically distinct devices reporting the same name therefore merge: a
/// documented limitation of name-based deduplication, kept as the
/// enumerator defines it.
pub fn select_keyboards(candidates: Vec<Keyboard>) -> (r: Vec<Keyboard>)
    ensures
        forall|i: int, j: int| 0 <= i < j < r@.len() ==> r@[i].name@ != r@[j].name@,
        forall|i: int| 0 <= i < r@.len() ==> selected_from(candidates@, r@[i]),
        forall|k: int|
            0 <= k < candidates@.len() && name_accepted(candidates@[k].name@) ==> exists|i: int|
                0 <= i < r@.len() && r@[i].name@ == candidates@[k].name@,
{
    let ghost orig = candidates@;
    let mut rest = candidates;
    let mut out: Vec<Keyboard> = Vec::new();
    while rest.len() > 0
        invariant
            rest@.len() <= orig.len(),
            rest@ == orig.subrange(0, rest@.len() as int),
            forall|i: int, j: int| 0 <= i < j < out@.len() ==> out@[i].name@ != out@[j].name@,
            forall|i: int| 0 <= i < out@.len() ==> selected_from(orig, out@[i]),
            forall|k: int|
                rest@.len() <= k < orig.len() && name_accepted(orig[k].name@) ==> exists|i: int|
                    0 <= i < out@.len() && out@[i].name@ == orig[k].name@,
        decreases rest@.len(),
    {
        let ghost prev = rest@;
        let kb = rest.pop().unwrap();
        proof {
            assert(rest@ == prev.subrange(0, prev.len() - 1));
            assert(prev == orig.subrange(0, prev.len() as int));
            assert(rest@ =~= orig.subrange(0, rest@.len() as int)) by {
                assert(forall|k: int|
                    0 <= k < rest@.len() ==> rest@[k] == prev[k] && prev[k] == orig[k]);
            }
            assert(kb == prev[prev.len() - 1]);
            assert(kb == orig[rest@.len() as int]);
        }
        let accepted = is_keyboard_name(kb.name.as_str());
        if accepted {
            match find_by_name(&out, &kb.name) {
                Some(_) => {},
                None => {
                    let ghost old_out = out@;
                    proof {
                        // No later candidate shares this name: any later
                        // accepted occurrence would already stand in `out`.
                        let ghost p = rest@.len() as int;
                        assert forall|k2: int| p < k2 < orig.len() implies orig[k2].name@
                            != kb.name@ by {
                            if orig[k2].name@ == kb.name@ {
                                assert(name_accepted(orig[k2].name@));
                            }
                        }
                    }
                    out.push(kb);
                    proof {
                        let ghost p = rest@.len() as int;
                        assert forall|k: int|
                            p <= k < orig.len() && name_accepted(
                                orig[k].name@,
                            ) implies exists|i: int|
                            0 <= i < out@.len() && out@[i].name@ == orig[k].name@ by {
                            if k == p {
                                assert(out@[old_out.len() as int].name@ == orig[k].name@);
                            } else {
                                let i0 = choose|i: int|
                                    0 <= i < old_out.len() && old_out[i].name@ == orig[k].name@;
                                assert(out@[i0].name@ == orig[k].name@);
                            }
                        }
                    }
                },
            }
        }
    }
    proof {
        assert(orig.subrange(0, 0).len() == 0);
    }
    out
}

/// Whether a raw input event value denotes a key transitioning to the
/// pressed state: exactly those events become activations. Releases and
/// autorepeats (and anything else) are ignored.
pub fn is_key_press(value: i32) -> (r: bool)
    ensures
        r == (value == 1),
{
    value == 1
}

/// The hotplug notification filter. Its configured-device set is drawn from
/// the persisted bindings at startup and never changes afterwards, so
/// hotplug filtering is independent of the current monitoring state.
pub struct HotPlugHandler {
    pub configured_devices: Vec<KeyboardIdentity>,
}

impl HotPlugHandler {
    /// The identity is one of the configured devices.
    pub open spec fn is_configured(&self, id: KeyboardIdentity) -> bool {
        self.configured_devices@.contains(id)
    }

    /// Decides whether an attach or detach notification for the device with
    /// these hardware ids yields a re-enumeration signal: exactly when the
    /// device is configured. Anything else is dropped silently.
    pub fn should_signal(&self, vendor_id: u16, product_id: u16) -> (r: bool)
        ensures
            r == self.is_configured(KeyboardIdentity { vendor_id, product_id }),
    {
        let id = KeyboardIdentity { vendor_id, product_id };
        let mut i: usize = 0;
        while i < self.configured_devices.len()
            invariant
                id == (KeyboardIdentity { vendor_id, product_id }),
                i <= self.configured_devices@.len(),
                forall|k: int| 0 <= k < i ==> self.configured_devices@[k] != id,
            decreases self.configured_devices@.len() - i,
        {
            if self.configured_devices[i] == id {
                proof {
                    assert(self.configured_devices@[i as int] == id);
                    assert(self.configured_devices@.contains(id));
                }
                return true;
            }
            i += 1;
        }
        false
    }
}

} // verus!
