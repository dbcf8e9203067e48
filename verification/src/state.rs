//! The dispatcher at the heart of the event loop: UI state, key events, and
//! the transition they select. The surrounding loop performs the redraw and
//! the file traffic; every decision is taken here.

use vstd::prelude::*;
use vstd::string::StringExecFns;
use crate::pet::Pet;
use crate::pet::PetView;
use crate::pet::cats;
use crate::pet::dogs;
use crate::pet::make_random_pet;
use crate::pet::valid_pet;
use crate::pet::valid_pets;
use crate::nav::clamp_after_remove;
use crate::nav::clamped_after_remove;
use crate::nav::next_index;
use crate::nav::next_sel;
use crate::nav::prev_index;
use crate::nav::prev_sel;

verus! {

/// One of the three top-level panels.
#[derive(Clone, Copy, Debug, PartialEq, Eq, Structural)]
pub enum Tab {
    Home,
    Pets,
    Channels,
}

/// The position of a tab in the tab bar.
pub fn tab_index(t: Tab) -> (r: usize)
    ensures
        t == Tab::Home ==> r == 0,
        t == Tab::Pets ==> r == 1,
        t == Tab::Channels ==> r == 2,
{
    match t {
        Tab::Home => 0,
        Tab::Pets => 1,
        Tab::Channels => 2,
    }
}

/// A key press, reduced to the bindings the dispatcher reads.
#[derive(Clone, Copy, Debug, PartialEq, Eq, Structural)]
pub enum Key {
    FKey(u8),
    Char(char),
    Down,
    Up,
    Other,
}

/// One message from the input pump: a key press or an elapsed tick.
#[derive(Clone, Copy, Debug, PartialEq, Eq, Structural)]
pub enum Event {
    Input(Key),
    Tick,
}

/// What the surrounding loop must do after a transition.
#[derive(Clone, Copy, Debug, PartialEq, Eq, Structural)]
pub enum Action {
    /// Redraw and wait for the next message.
    Continue,
    /// The record list changed: rewrite the backing file, then redraw.
    Persist,
    /// Restore the terminal and leave the loop.
    Quit,
}

/// The UI state owned by the render loop: the active panel and one cursor
/// per list. Not persisted.
#[derive(Clone, Copy, Debug, PartialEq, Eq, Structural)]
pub struct App {
    pub active_tab: Tab,
    pub pet_cursor: usize,
    pub chan_cursor: usize,
}

impl App {
    /// The state at start: the home panel, both cursors on the first entry.
    pub fn new() -> (a: App)
        ensures
            a.active_tab == Tab::Home,
            a.pet_cursor == 0,
            a.chan_cursor == 0,
    {
        App { active_tab: Tab::Home, pet_cursor: 0, chan_cursor: 0 }
    }
}

/// The fixed channel names shown on the channels panel.
pub fn get_chans_list() -> (r: Vec<String>)
    ensures
        r@.len() == 2,
        r@[0]@ == "strager"@,
        r@[1]@ == "het_tanis"@,
{
    let mut v: Vec<String> = Vec::new();
    v.push(String::from_str("strager"));
    v.push(String::from_str("het_tanis"));
    v
}

/// Append one freshly generated record to the list.
pub fn add_random_pet_to_db(pets: &mut Vec<Pet>)
    ensures
        final(pets).deep_view().len() == old(pets).deep_view().len() + 1,
        final(pets).deep_view().drop_last() == old(pets).deep_view(),
        valid_pet(final(pets).deep_view().last()),
        final(pets).deep_view().last().name.len() == 10,
        final(pets).deep_view().last().category == cats() || final(pets).deep_view().last().category == dogs(),
        final(pets).deep_view().last().id < 9999999,
        1 <= final(pets).deep_view().last().age < 15,
{
    let p = make_random_pet();
    pets.push(p);
    proof {
        assert(pets.deep_view().drop_last() =~= old(pets).deep_view());
    }
}

/// Remove the record under the cursor, then re-clamp the cursor to the
/// previous entry (or the first). With the cursor past the end — the open
/// case after the list has emptied — nothing is removed.
pub fn remove_pet_at_index(pets: &mut Vec<Pet>, cursor: &mut usize) -> (removed: Option<Pet>)
    ensures
        *old(cursor) < old(pets)@.len() ==> {
            &&& final(pets).deep_view() == old(pets).deep_view().remove(*old(cursor) as int)
            &&& removed == Some(old(pets)@[*old(cursor) as int])
            &&& *final(cursor) == clamped_after_remove(*old(cursor) as nat)
        },
        *old(cursor) >= old(pets)@.len() ==> {
            &&& final(pets)@ == old(pets)@
            &&& removed is None
            &&& *final(cursor) == *old(cursor)
        },
{
    if *cursor < pets.len() {
        let p = pets.remove(*cursor);
        *cursor = clamp_after_remove(*cursor);
        proof {
            assert(pets.deep_view() =~= old(pets).deep_view().remove(*old(cursor) as int));
        }
        Some(p)
    } else {
        None
    }
}

/// The number of entries on the channels panel.
pub open spec fn chan_count() -> nat {
    2
}

/// How long the input pump may wait for a key press: the time left until
/// the next tick boundary, clamped to zero once the period has elapsed.
pub fn tick_timeout_ms(elapsed_ms: u64, period_ms: u64) -> (r: u64)
    ensures
        r == if elapsed_ms >= period_ms {
            0u64
        } else {
            (period_ms - elapsed_ms) as u64
        },
{
    if elapsed_ms >= period_ms {
        0
    } else {
        period_ms - elapsed_ms
    }
}

/// Take one message and perform its transition on the UI state and the
/// record list, returning what the loop must do next. Every branch follows
/// the fixed key bindings; unknown keys and ticks change nothing.
pub fn dispatch(app: &mut App, pets: &mut Vec<Pet>, ev: Event) -> (act: Action)
    ensures
        // A tick, an unknown key, or a key with no meaning on the active
        // panel changes nothing.
        unhandled(*old(app), ev) ==> {
            &&& *final(app) == *old(app)
            &&& final(pets)@ == old(pets)@
            &&& act == Action::Continue
        },
        // The quit key ends the loop and touches nothing.
        ev == Event::Input(Key::FKey(4u8)) ==> {
            &&& *final(app) == *old(app)
            &&& final(pets)@ == old(pets)@
            &&& act == Action::Quit
        },
        // The three tab keys select their panel unconditionally.
        ev == Event::Input(Key::FKey(1u8)) ==> {
            &&& *final(app) == (App { active_tab: Tab::Home, ..*old(app) })
            &&& final(pets)@ == old(pets)@
            &&& act == Action::Continue
        },
        ev == Event::Input(Key::FKey(2u8)) ==> {
            &&& *final(app) == (App { active_tab: Tab::Pets, ..*old(app) })
            &&& final(pets)@ == old(pets)@
            &&& act == Action::Continue
        },
        ev == Event::Input(Key::FKey(3u8)) ==> {
            &&& *final(app) == (App { active_tab: Tab::Channels, ..*old(app) })
            &&& final(pets)@ == old(pets)@
            &&& act == Action::Continue
        },
        // The add key on the pets panel appends one fresh record.
        ev == Event::Input(Key::Char('a')) && old(app).active_tab == Tab::Pets ==> {
            &&& *final(app) == *old(app)
            &&& final(pets).deep_view().len() == old(pets).deep_view().len() + 1
            &&& final(pets).deep_view().drop_last() == old(pets).deep_view()
            &&& valid_pet(final(pets).deep_view().last())
            &&& final(pets).deep_view().last().category == cats() || final(pets).deep_view().last().category == dogs()
            &&& final(pets).deep_view().last().name.len() == 10
            &&& final(pets).deep_view().last().id < 9999999
            &&& 1 <= final(pets).deep_view().last().age < 15
            &&& act == Action::Persist
        },
        // The delete key on the pets panel removes the record under the
        // cursor and re-clamps the cursor.
        ev == Event::Input(Key::Char('d')) && old(app).active_tab == Tab::Pets && old(app).pet_cursor < old(pets)@.len() ==> {
            &&& final(pets).deep_view() == old(pets).deep_view().remove(
                old(app).pet_cursor as int,
            )
            &&& *final(app) == (App {
                pet_cursor: clamped_after_remove(old(app).pet_cursor as nat) as usize,
                ..*old(app)
            })
            &&& act == Action::Persist
        },
        ev == Event::Input(Key::Char('d')) && old(app).active_tab == Tab::Pets && old(app).pet_cursor >= old(pets)@.len() ==> {
            &&& *final(app) == *old(app)
            &&& final(pets)@ == old(pets)@
            &&& act == Action::Continue
        },
        // Down and up step the cursor of the visible list with wraparound,
        // against the live count.
        ev == Event::Input(Key::Down) && old(app).active_tab == Tab::Pets && old(pets)@.len() > 0 ==> {
            &&& *final(app) == (App {
                pet_cursor: next_sel(old(app).pet_cursor as nat, old(pets)@.len()) as usize,
                ..*old(app)
            })
            &&& final(pets)@ == old(pets)@
            &&& act == Action::Continue
        },
        ev == Event::Input(Key::Up) && old(app).active_tab == Tab::Pets && old(pets)@.len() > 0 ==> {
            &&& *final(app) == (App {
                pet_cursor: prev_sel(old(app).pet_cursor as nat, old(pets)@.len()) as usize,
                ..*old(app)
            })
            &&& final(pets)@ == old(pets)@
            &&& act == Action::Continue
        },
        ev == Event::Input(Key::Down) && old(app).active_tab == Tab::Channels ==> {
            &&& *final(app) == (App {
                chan_cursor: next_sel(old(app).chan_cursor as nat, chan_count()) as usize,
                ..*old(app)
            })
            &&& final(pets)@ == old(pets)@
            &&& act == Action::Continue
        },
        ev == Event::Input(Key::Up) && old(app).active_tab == Tab::Channels ==> {
            &&& *final(app) == (App {
                chan_cursor: prev_sel(old(app).chan_cursor as nat, chan_count()) as usize,
                ..*old(app)
            })
            &&& final(pets)@ == old(pets)@
            &&& act == Action::Continue
        },
        // On an empty record list the navigation keys leave the cursor alone.
        (ev == Event::Input(Key::Down) || ev == Event::Input(Key::Up)) && old(app).active_tab == Tab::Pets && old(pets)@.len() == 0 ==> {
            &&& *final(app) == *old(app)
            &&& final(pets)@ == old(pets)@
            &&& act == Action::Continue
        },
        // A validity invariant: no transition puts an ill-formed record in
        // the list.
        valid_pets(old(pets).deep_view()) ==> valid_pets(final(pets).deep_view()),
{
    match ev {
        Event::Tick => Action::Continue,
        Event::Input(key) => match key {
            Key::FKey(1u8) => {
                app.active_tab = Tab::Home;
                Action::Continue
            },
            Key::FKey(2u8) => {
                app.active_tab = Tab::Pets;
                Action::Continue
            },
            Key::FKey(3u8) => {
                app.active_tab = Tab::Channels;
                Action::Continue
            },
            Key::FKey(4u8) => Action::Quit,
            Key::Char('a') => {
                match app.active_tab {
                    Tab::Pets => {
                        add_random_pet_to_db(pets);
                        proof {
                            if valid_pets(old(pets).deep_view()) {
                                lemma_push_keeps_valid(old(pets).deep_view(), pets.deep_view());
                            }
                        }
                        Action::Persist
                    },
                    _ => Action::Continue,
                }
            },
            Key::Char('d') => {
                match app.active_tab {
                    Tab::Pets => {
                        let mut cursor = app.pet_cursor;
                        let removed = remove_pet_at_index(pets, &mut cursor);
                        app.pet_cursor = cursor;
                        proof {
                            if valid_pets(old(pets).deep_view()) && old(app).pet_cursor < old(pets)@.len() {
                                lemma_remove_keeps_valid(
                                    old(pets).deep_view(),
                                    old(app).pet_cursor as int,
                                );
                            }
                        }
                        if removed.is_some() {
                            Action::Persist
                        } else {
                            Action::Continue
                        }
                    },
                    _ => Action::Continue,
                }
            },
            Key::Down => {
                match app.active_tab {
                    Tab::Pets => {
                        if pets.len() > 0 {
                            app.pet_cursor = next_index(app.pet_cursor, pets.len());
                        }
                        Action::Continue
                    },
                    Tab::Channels => {
                        let n = get_chans_list().len();
                        app.chan_cursor = next_index(app.chan_cursor, n);
                        Action::Continue
                    },
                    _ => Action::Continue,
                }
            },
            Key::Up => {
                match app.active_tab {
                    Tab::Pets => {
                        if pets.len() > 0 {
                            app.pet_cursor = prev_index(app.pet_cursor, pets.len());
                        }
                        Action::Continue
                    },
                    Tab::Channels => {
                        let n = get_chans_list().len();
                        app.chan_cursor = prev_index(app.chan_cursor, n);
                        Action::Continue
                    },
                    _ => Action::Continue,
                }
            },
            _ => Action::Continue,
        },
    }
}

/// The messages that the dispatcher leaves without effect: ticks, unknown
/// keys, and bound keys pressed on a panel they do not act on.
pub open spec fn unhandled(app: App, ev: Event) -> bool {
    match ev {
        Event::Tick => true,
        Event::Input(key) => match key {
            Key::FKey(n) => !(1 <= n <= 4),
            Key::Char(c) => {
                if c == 'a' || c == 'd' {
                    app.active_tab != Tab::Pets
                } else {
                    true
                }
            },
            Key::Down | Key::Up => app.active_tab == Tab::Home,
            Key::Other => true,
        },
    }
}

/// Appending a well-formed record to a well-formed list keeps every record
/// well-formed.
proof fn lemma_push_keeps_valid(before: Seq<PetView>, after: Seq<PetView>)
    requires
        after.len() == before.len() + 1,
        after.drop_last() == before,
        valid_pet(after.last()),
        valid_pets(before),
    ensures
        valid_pets(after),
{
    assert forall|i: int| 0 <= i < after.len() implies valid_pet(after[i]) by {
        if i < before.len() {
            assert(after[i] == after.drop_last()[i]);
        }
    }
}

/// Removing a record from a well-formed list keeps every record well-formed.
proof fn lemma_remove_keeps_valid(before: Seq<PetView>, i: int)
    requires
        0 <= i < before.len(),
        valid_pets(before),
    ensures
        valid_pets(before.remove(i)),
{
    assert forall|j: int| 0 <= j < before.remove(i).len() implies valid_pet(
        before.remove(i)[j],
    ) by {
        if j < i {
            assert(before.remove(i)[j] == before[j]);
        } else {
            assert(before.remove(i)[j] == before[j + 1]);
        }
    }
}

} // verus!
