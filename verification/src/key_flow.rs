//! Where a key goes: to what a client shows over its window, to a binding,
//! or to a pane.
use vstd::prelude::*;

use crate::bindings::KeyTable;
use crate::client::{Client, Outbox};
use crate::keys::{Key, KeyCode, KeyRecord};

verus! {

/// The key tables of a server.
pub struct KeyTables {
    pub prefix: KeyTable,
    pub root: KeyTable,
    pub copy: KeyTable,
}

impl KeyTables {
    pub open spec fn wf(self) -> bool {
        self.prefix.wf() && self.root.wf() && self.copy.wf()
    }
}

/// The settings that keys depend on, and the moment.
pub struct KeyRules {
    pub prefix: Key,
    pub display_time_ms: u64,
    pub repeat_time_ms: u64,
    pub now: u64,
}

/// What a key does, beyond what it changed at the client.
#[derive(Clone, Copy, Debug, PartialEq, Eq, Structural)]
pub enum KeyAction {
    Nothing,
    /// Edit the client's prompt.
    Prompt(Key),
    /// Select the pane with that number.
    PickPane(usize),
    /// Put the clock of the active pane away.
    StopClock,
    /// A key of copy mode.
    Copy(Key),
    /// The prefix itself, for the program in the popup or the pane.
    SendPrefix,
    /// Run what the prefix table says; the table answers bare keys until
    /// then.
    RunPrefix(Key, Option<u64>),
    /// Run what the prefix table says once more.
    RunAgain(Key),
    /// Say that the key is bound to nothing.
    Unbound(Key),
    /// A key for the program in the popup.
    Popup,
    /// Put the popup away.
    ClosePopup,
    /// A key of the picker.
    Picker(Key),
    /// Run what the copy mode table says.
    RunCopy(Key),
    /// Run what the root table says; the prefix table answers bare keys
    /// until then.
    RunRoot(Key, Option<u64>),
    /// Type it into the pane.
    Type,
}

/// What is around a client: whether the active pane shows a clock or is in
/// copy mode.
pub struct Around {
    pub clock: bool,
    pub in_copy: bool,
}

/// What a key changes at a client, and what it does.
pub ghost struct Keyed {
    pub action: KeyAction,
    /// The key-up that belongs to it is dropped.
    pub swallow: bool,
    pub close_overlay: bool,
    pub hide_numbers: bool,
    pub prefix: bool,
    pub repeat_until: Option<u64>,
    pub redraw: bool,
    pub follow: bool,
}

/// The moment until which the prefix table answers bare keys.
pub open spec fn until(repeat: bool, rules: KeyRules) -> Option<u64> {
    if repeat && rules.repeat_time_ms > 0 {
        Some(later(rules.now, rules.repeat_time_ms))
    } else {
        None
    }
}

/// `now` and `ms` milliseconds, as far as the clock goes.
pub open spec fn later(now: u64, ms: u64) -> u64 {
    if now + ms > u64::MAX {
        u64::MAX
    } else {
        (now + ms) as u64
    }
}

/// A key as its prefix, the tables and the popup see it: nothing is shown
/// over the window that would take it.
pub open spec fn keyed_on(c: Client, k: Key, rec: KeyRecord, t: KeyTables, rules: KeyRules, around: Around) -> Keyed {
    let still = Keyed {
        action: KeyAction::Nothing,
        swallow: true,
        close_overlay: false,
        hide_numbers: false,
        prefix: c.prefix,
        repeat_until: c.repeat_until,
        redraw: false,
        follow: false,
    };
    let repeating = c.repeat_until is Some && rules.now < c.repeat_until->0;
    let again = repeating && t.prefix@.dom().contains(k) && t.prefix@[k].1;
    let left = if repeating {
        None
    } else {
        c.repeat_until
    };
    if c.prefix {
        Keyed {
            prefix: false,
            action: if k == rules.prefix {
                if around.in_copy {
                    KeyAction::Copy(k)
                } else {
                    KeyAction::SendPrefix
                }
            } else if t.prefix@.dom().contains(k) {
                KeyAction::RunPrefix(k, until(t.prefix@[k].1, rules))
            } else {
                KeyAction::Unbound(k)
            },
            ..still
        }
    } else if again {
        Keyed {
            repeat_until: Some(later(rules.now, rules.repeat_time_ms)),
            action: KeyAction::RunAgain(k),
            ..still
        }
    } else if k == rules.prefix {
        Keyed { prefix: true, repeat_until: left, ..still }
    } else if c.popup is Some {
        Keyed {
            repeat_until: left,
            swallow: c.popup->0.finished,
            action: popup_action(c, rec),
            redraw: popup_action(c, rec) is ClosePopup,
            ..still
        }
    } else if c.chooser is Some {
        Keyed { repeat_until: left, action: KeyAction::Picker(k), ..still }
    } else if around.in_copy {
        Keyed {
            repeat_until: left,
            action: if t.copy@.dom().contains(k) {
                KeyAction::RunCopy(k)
            } else {
                KeyAction::Copy(k)
            },
            ..still
        }
    } else if t.root@.dom().contains(k) {
        Keyed { repeat_until: left, action: KeyAction::RunRoot(k, until(t.root@[k].1, rules)), ..still }
    } else {
        Keyed { repeat_until: left, swallow: false, follow: true, action: KeyAction::Type, ..still }
    }
}

/// A key while a popup is open: it goes to the popup's program, or closes
/// the box when the program has already finished.
pub open spec fn popup_action(c: Client, rec: KeyRecord) -> KeyAction {
    if !c.popup->0.finished {
        KeyAction::Popup
    } else if rec.down {
        KeyAction::ClosePopup
    } else {
        KeyAction::Nothing
    }
}

/// What a key does at client `c`; `key` is nothing for a key that has no
/// name, as a key-up has not.
#[verifier::opaque]
pub open spec fn keyed(
    c: Client,
    key: Option<Key>,
    rec: KeyRecord,
    t: KeyTables,
    rules: KeyRules,
    around: Around,
) -> Keyed {
    let still = Keyed {
        action: KeyAction::Nothing,
        swallow: false,
        close_overlay: false,
        hide_numbers: false,
        prefix: c.prefix,
        repeat_until: c.repeat_until,
        redraw: false,
        follow: false,
    };
    if c.overlay is Some {
        Keyed { close_overlay: key is Some, swallow: key is Some, ..still }
    } else if c.prompt is Some {
        Keyed {
            swallow: key is Some,
            action: match key {
                Some(k) => KeyAction::Prompt(k),
                None => KeyAction::Nothing,
            },
            ..still
        }
    } else if c.panes_until is Some && rules.now < c.panes_until->0 && key is Some {
        Keyed {
            hide_numbers: true,
            swallow: true,
            action: match key->0.code {
                KeyCode::Char(d) => if '0' <= d && d <= '9' {
                    KeyAction::PickPane((d as u32 - '0' as u32) as usize)
                } else {
                    KeyAction::Nothing
                },
                _ => KeyAction::Nothing,
            },
            ..still
        }
    } else if around.clock && key is Some {
        Keyed { swallow: true, redraw: true, action: KeyAction::StopClock, ..still }
    } else {
        match key {
            Some(k) => keyed_on(c, k, rec, t, rules, around),
            None => if around.in_copy || c.chooser is Some {
                still
            } else if c.popup is Some {
                Keyed { action: popup_action(c, rec), redraw: popup_action(c, rec) is ClosePopup, ..still }
            } else {
                Keyed { follow: true, action: KeyAction::Type, ..still }
            },
        }
    }
}

/// The keys whose key-up is dropped, after one more.
pub open spec fn also_swallowed(before: Seq<u16>, after: Seq<u16>, vk: u16) -> bool {
    forall|v: u16| #[trigger] after.contains(v) <==> before.contains(v) || v == vk
}

/// Client `before` after a key did what `d` says.
#[verifier::opaque]
pub open spec fn is_keyed(before: Client, after: Client, key: Option<Key>, rec: KeyRecord, rules: KeyRules, d: Keyed) -> bool {
    &&& after == (Client {
        last_activity: rules.now,
        message: if key is Some && rules.display_time_ms == 0 {
            None
        } else {
            before.message
        },
        overlay: if d.close_overlay {
            None
        } else {
            before.overlay
        },
        panes_until: if d.hide_numbers {
            None
        } else {
            before.panes_until
        },
        popup: if d.action is ClosePopup {
            None
        } else {
            before.popup
        },
        prefix: d.prefix,
        repeat_until: d.repeat_until,
        view_pinned: before.view_pinned && !d.follow,
        view_follow: before.view_follow || d.follow,
        outbox: Outbox { in_step: before.outbox.in_step && !d.redraw, ..before.outbox },
        swallow_up: after.swallow_up,
        ..before
    })
    &&& d.swallow ==> also_swallowed(before.swallow_up@, after.swallow_up@, rec.vk)
    &&& !d.swallow ==> after.swallow_up@ == before.swallow_up@
}

fn add_ms(now: u64, ms: u64) -> (t: u64)
    ensures
        t == later(now, ms),
{
    if now > u64::MAX - ms {
        u64::MAX
    } else {
        now + ms
    }
}

fn until_when(repeat: bool, rules: &KeyRules) -> (t: Option<u64>)
    ensures
        t == until(repeat, *rules),
{
    if repeat && rules.repeat_time_ms > 0 {
        Some(add_ms(rules.now, rules.repeat_time_ms))
    } else {
        None
    }
}

impl Client {
    /// The key-up of a key is to be dropped.
    fn swallows(&self, vk: u16) -> (b: bool)
        ensures
            b == self.swallow_up@.contains(vk),
    {
        let mut i: usize = 0;
        while i < self.swallow_up.len()
            invariant
                i <= self.swallow_up@.len(),
                forall|j: int| 0 <= j < i ==> self.swallow_up@[j] != vk,
            decreases self.swallow_up.len() - i,
        {
            if self.swallow_up[i] == vk {
                assert(self.swallow_up@[i as int] == vk);
                return true;
            }
            i = i + 1;
        }
        false
    }

    /// Remember that the key-up of a key is dropped, once however often it
    /// repeats.
    fn swallow(&mut self, vk: u16)
        ensures
            *final(self) == (Client { swallow_up: final(self).swallow_up, ..*old(self) }),
            also_swallowed(old(self).swallow_up@, final(self).swallow_up@, vk),
    {
        let ghost before = self.swallow_up@;
        if self.swallows(vk) {
            return;
        }
        self.swallow_up.push(vk);
        proof {
            let after = self.swallow_up@;
            assert forall|v: u16| #[trigger] after.contains(v) <==> before.contains(v) || v == vk by {
                assert(after[before.len() as int] == vk);
                if before.contains(v) {
                    let i = choose|i: int| 0 <= i < before.len() && before[i] == v;
                    assert(after[i] == v);
                }
                if after.contains(v) && v != vk {
                    let i = choose|i: int| 0 <= i < after.len() && after[i] == v;
                    assert(before[i] == v);
                }
            }
        }
    }

    /// Whether this is the key-up of a key that was taken here; it is then
    /// forgotten.
    fn unswallow(&mut self, vk: u16) -> (was: bool)
        ensures
            was == old(self).swallow_up@.contains(vk),
            *final(self) == (Client { swallow_up: final(self).swallow_up, ..*old(self) }),
            !was ==> final(self).swallow_up == old(self).swallow_up,
            was ==> forall|v: u16| #[trigger]
                final(self).swallow_up@.contains(v) <==> old(self).swallow_up@.contains(v) && v != vk,
    {
        let ghost before = self.swallow_up@;
        let mut left: Vec<u16> = Vec::new();
        let mut found: bool = false;
        let mut i: usize = 0;
        while i < self.swallow_up.len()
            invariant
                i <= self.swallow_up@.len(),
                self.swallow_up@ == before,
                found == before.take(i as int).contains(vk),
                forall|v: u16| #[trigger] left@.contains(v) <==> before.take(i as int).contains(v) && v != vk,
            decreases self.swallow_up.len() - i,
        {
            let v: u16 = self.swallow_up[i];
            let ghost l0 = left@;
            let ghost b0 = before.take(i as int);
            let ghost b1 = before.take(i + 1);
            if v == vk {
                found = true;
            } else {
                left.push(v);
            }
            proof {
                assert(b1 =~= b0.push(v));
                assert(b1[i as int] == v);
                assert forall|x: u16| #[trigger] b1.contains(x) <==> b0.contains(x) || x == v by {
                    if b0.contains(x) {
                        let k = choose|k: int| 0 <= k < b0.len() && b0[k] == x;
                        assert(b1[k] == x);
                    }
                    if b1.contains(x) && x != v {
                        let k = choose|k: int| 0 <= k < b1.len() && b1[k] == x;
                        assert(b0[k] == x);
                    }
                }
                assert forall|x: u16| #[trigger] left@.contains(x) <==> b1.contains(x) && x != vk by {
                    if v != vk {
                        assert(left@[l0.len() as int] == v);
                        if l0.contains(x) {
                            let k = choose|k: int| 0 <= k < l0.len() && l0[k] == x;
                            assert(left@[k] == x);
                        }
                        if left@.contains(x) && x != v {
                            let k = choose|k: int| 0 <= k < left@.len() && left@[k] == x;
                            assert(l0[k] == x);
                        }
                    }
                    assert(l0.contains(x) <==> b0.contains(x) && x != vk);
                    assert(b1.contains(x) <==> b0.contains(x) || x == v);
                }
            }
            i = i + 1;
        }
        assert(before.take(i as int) =~= before);
        if found {
            self.swallow_up = left;
        }
        found
    }

    fn key_on(&mut self, k: Key, rec: &KeyRecord, t: &KeyTables, rules: &KeyRules, around: &Around) -> (action: KeyAction)
        requires
            t.wf(),
            old(self).overlay is None,
            old(self).prompt is None,
        ensures
            ({
                let d = keyed_on(*old(self), k, *rec, *t, *rules, *around);
                &&& action == d.action
                &&& *final(self) == (Client {
                    popup: if d.action is ClosePopup {
                        None
                    } else {
                        old(self).popup
                    },
                    prefix: d.prefix,
                    repeat_until: d.repeat_until,
                    view_pinned: old(self).view_pinned && !d.follow,
                    view_follow: old(self).view_follow || d.follow,
                    outbox: Outbox { in_step: old(self).outbox.in_step && !d.redraw, ..old(self).outbox },
                    swallow_up: final(self).swallow_up,
                    ..*old(self)
                })
                &&& d.swallow ==> also_swallowed(old(self).swallow_up@, final(self).swallow_up@, rec.vk)
                &&& !d.swallow ==> final(self).swallow_up@ == old(self).swallow_up@
            }),
    {
        if self.prefix {
            self.prefix = false;
            self.swallow(rec.vk);
            if k == rules.prefix {
                return if around.in_copy { KeyAction::Copy(k) } else { KeyAction::SendPrefix };
            }
            return match t.prefix.get(k) {
                Some(b) => KeyAction::RunPrefix(k, until_when(b.repeat, rules)),
                None => KeyAction::Unbound(k),
            };
        }
        if let Some(end) = self.repeat_until {
            if rules.now < end {
                let again: bool = match t.prefix.get(k) {
                    Some(b) => b.repeat,
                    None => false,
                };
                if again {
                    self.swallow(rec.vk);
                    let end: u64 = add_ms(rules.now, rules.repeat_time_ms);
                    self.repeat_until = Some(end);
                    return KeyAction::RunAgain(k);
                }
                // Anything else ends the repeat and is handled normally.
                self.repeat_until = None;
            }
        }
        if k == rules.prefix {
            self.prefix = true;
            self.swallow(rec.vk);
            return KeyAction::Nothing;
        }
        if self.popup.is_some() {
            return self.popup_key(rec, true);
        }
        if self.chooser.is_some() {
            self.swallow(rec.vk);
            return KeyAction::Picker(k);
        }
        if around.in_copy {
            self.swallow(rec.vk);
            return if t.copy.get(k).is_some() { KeyAction::RunCopy(k) } else { KeyAction::Copy(k) };
        }
        if let Some(b) = t.root.get(k) {
            self.swallow(rec.vk);
            return KeyAction::RunRoot(k, until_when(b.repeat, rules));
        }
        // Typing into a pane: the view follows the cursor again, right now.
        self.view_pinned = false;
        self.view_follow = true;
        KeyAction::Type
    }

    /// A key while a popup is open.
    fn popup_key(&mut self, rec: &KeyRecord, named: bool) -> (action: KeyAction)
        requires
            old(self).popup is Some,
        ensures
            action == popup_action(*old(self), *rec),
            *final(self) == (Client {
                popup: if action is ClosePopup {
                    None
                } else {
                    old(self).popup
                },
                outbox: Outbox {
                    in_step: old(self).outbox.in_step && !(action is ClosePopup),
                    ..old(self).outbox
                },
                swallow_up: final(self).swallow_up,
                ..*old(self)
            }),
            named && old(self).popup->0.finished ==> also_swallowed(
                old(self).swallow_up@,
                final(self).swallow_up@,
                rec.vk,
            ),
            !(named && old(self).popup->0.finished) ==> final(self).swallow_up@ == old(self).swallow_up@,
    {
        let finished: bool = match &self.popup {
            Some(p) => p.finished,
            None => false,
        };
        if !finished {
            return KeyAction::Popup;
        }
        if named {
            self.swallow(rec.vk);
        }
        if rec.down {
            self.popup = None;
            self.outbox.in_step = false;
            KeyAction::ClosePopup
        } else {
            KeyAction::Nothing
        }
    }

    /// A key of this client.
    #[verifier::spinoff_prover]
    #[verifier::rlimit(40)]
    pub fn key(&mut self, key: Option<Key>, rec: &KeyRecord, t: &KeyTables, rules: &KeyRules, around: &Around) -> (action:
        KeyAction)
        requires
            t.wf(),
        ensures
            if !rec.down && old(self).swallow_up@.contains(rec.vk) {
                // The key-up of a key that was taken here.
                &&& action is Nothing
                &&& *final(self) == (Client {
                    last_activity: rules.now,
                    swallow_up: final(self).swallow_up,
                    ..*old(self)
                })
                &&& forall|v: u16| #[trigger]
                    final(self).swallow_up@.contains(v) <==> old(self).swallow_up@.contains(v) && v != rec.vk
            } else {
                let d = keyed(*old(self), key, *rec, *t, *rules, *around);
                action == d.action && is_keyed(*old(self), *final(self), key, *rec, *rules, d)
            },
            final(self).id == old(self).id,
            final(self).session == old(self).session,
    {
        proof {
            reveal(keyed);
            reveal(is_keyed);
        }
        self.last_activity = rules.now;
        if !rec.down {
            if self.unswallow(rec.vk) {
                return KeyAction::Nothing;
            }
        }
        if key.is_some() && rules.display_time_ms == 0 {
            self.message = None;
        }
        if self.overlay.is_some() {
            if key.is_some() {
                self.overlay = None;
                self.swallow(rec.vk);
            }
            return KeyAction::Nothing;
        }
        if self.prompt.is_some() {
            return match key {
                Some(k) => {
                    self.swallow(rec.vk);
                    KeyAction::Prompt(k)
                },
                None => KeyAction::Nothing,
            };
        }
        if let Some(end) = self.panes_until {
            if rules.now < end {
                if let Some(k) = key {
                    // While the pane numbers are up, a digit picks that pane
                    // and anything else just puts them away.
                    self.panes_until = None;
                    self.swallow(rec.vk);
                    return match k.code {
                        KeyCode::Char(d) => if '0' <= d && d <= '9' {
                            KeyAction::PickPane((d as u32 - '0' as u32) as usize)
                        } else {
                            KeyAction::Nothing
                        },
                        _ => KeyAction::Nothing,
                    };
                }
            }
        }
        if around.clock && key.is_some() {
            // A clock swallows the next key and goes away.
            self.swallow(rec.vk);
            self.outbox.in_step = false;
            return KeyAction::StopClock;
        }
        match key {
            Some(k) => self.key_on(k, rec, t, rules, around),
            None => {
                if around.in_copy || self.chooser.is_some() {
                    return KeyAction::Nothing;
                }
                if self.popup.is_some() {
                    return self.popup_key(rec, false);
                }
                self.view_pinned = false;
                self.view_follow = true;
                KeyAction::Type
            },
        }
    }
}

/// A key-up is dropped exactly when the key-down was taken: after a key was
/// taken, its key-up does nothing, and the next one is looked at again.
pub proof fn lemma_key_up_is_dropped_once(before: Seq<u16>, taken: Seq<u16>, after: Seq<u16>, vk: u16)
    requires
        also_swallowed(before, taken, vk),
        forall|v: u16| #[trigger] after.contains(v) <==> taken.contains(v) && v != vk,
    ensures
        taken.contains(vk),
        !after.contains(vk),
        forall|v: u16| v != vk ==> (#[trigger] after.contains(v) <==> before.contains(v)),
{
}

/// Whatever is shown, a prompt or an overlay takes every key: none reaches a
/// binding or a pane.
pub proof fn lemma_modal_takes_all(c: Client, key: Option<Key>, rec: KeyRecord, t: KeyTables, rules: KeyRules, around: Around)
    requires
        c.overlay is Some || c.prompt is Some,
    ensures
        ({
            let a = keyed(c, key, rec, t, rules, around).action;
            a is Nothing || a is Prompt
        }),
{
    reveal(keyed);
}

} // verus!
