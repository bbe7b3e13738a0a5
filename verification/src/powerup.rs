//! The powerups of the game board: what each one lets the pointer reach,
//! and the shuffled deck they are dealt from.

use vstd::prelude::*;
use rand::rngs::OsRng;
use rand::seq::SliceRandom;
use rand::TryRngCore;

verus! {

/// A way of reaching more cells than the one under the pointer.
#[derive(Clone, Copy, Debug, Default, PartialEq, Eq, Structural)]
pub enum Powerup {
    /// Every second row, counted from the pointer's.
    #[default]
    Rows,
    /// Every second column, counted from the pointer's.
    Columns,
    /// Both of these.
    RowsColumns,
    /// Each cell with a chance of its own.
    Random,
    /// The cell under the pointer, clicked again and again.
    Autoclick,
}

/// The powerups in the order of their numbers.
pub open spec fn powerups() -> Seq<Powerup> {
    seq![
        Powerup::Rows,
        Powerup::Columns,
        Powerup::RowsColumns,
        Powerup::Random,
        Powerup::Autoclick,
    ]
}

/// Whether a powerup reaches a cell from where the pointer is. `lucky` is
/// the cell's draw, which only `Random` looks at.
pub open spec fn reaches(
    powerup: Powerup,
    cursor_pos: (usize, usize),
    grid_cell: (usize, usize),
    lucky: bool,
) -> bool {
    match powerup {
        Powerup::Rows => cursor_pos.1 % 2 == grid_cell.1 % 2,
        Powerup::Columns => cursor_pos.0 % 2 == grid_cell.0 % 2,
        Powerup::RowsColumns => cursor_pos.0 % 2 == grid_cell.0 % 2 || cursor_pos.1 % 2
            == grid_cell.1 % 2,
        Powerup::Autoclick => cursor_pos == grid_cell,
        Powerup::Random => lucky,
    }
}

/// The powerup with a number, and `Rows` for a number that none has.
pub open spec fn numbered(n: u8) -> Powerup {
    if n == 1 {
        Powerup::Columns
    } else if n == 2 {
        Powerup::RowsColumns
    } else if n == 3 {
        Powerup::Random
    } else if n == 4 {
        Powerup::Autoclick
    } else {
        Powerup::Rows
    }
}

impl Powerup {
    /// Whether the powerup reaches `grid_cell` with the pointer over
    /// `cursor_pos`, both as column and row. `lucky` is the cell's draw.
    pub fn hovered(
        &self,
        cursor_pos: (usize, usize),
        grid_cell: (usize, usize),
        lucky: bool,
    ) -> (yes: bool)
        ensures
            yes == reaches(*self, cursor_pos, grid_cell, lucky),
    {
        match self {
            Powerup::Rows => cursor_pos.1 % 2 == grid_cell.1 % 2,
            Powerup::Columns => cursor_pos.0 % 2 == grid_cell.0 % 2,
            Powerup::RowsColumns => cursor_pos.0 % 2 == grid_cell.0 % 2 || cursor_pos.1 % 2
                == grid_cell.1 % 2,
            Powerup::Autoclick => cursor_pos.0 == grid_cell.0 && cursor_pos.1 == grid_cell.1,
            Powerup::Random => lucky,
        }
    }

    /// The powerup with a number, and `Rows` for a number that none has.
    pub fn from_primitive(n: u8) -> (powerup: Powerup)
        ensures
            powerup == numbered(n),
    {
        if n == 1 {
            Powerup::Columns
        } else if n == 2 {
            Powerup::RowsColumns
        } else if n == 3 {
            Powerup::Random
        } else if n == 4 {
            Powerup::Autoclick
        } else {
            Powerup::Rows
        }
    }
}

/// How long the autoclick waits between two clicks, in milliseconds.
pub const AUTOCLICK_PAUSE: u128 = 50;

/// Whether a cell is clicked in this frame: it is reached, and a key was
/// pressed, or the pointer clicked, or the autoclick is active and has
/// waited longer than its pause.
pub open spec fn clicks(
    reached: bool,
    key_pressed: bool,
    pointer_clicked: bool,
    powerup: Option<Powerup>,
    waited: u128,
) -> bool {
    reached && (key_pressed || pointer_clicked || (powerup == Some(Powerup::Autoclick) && waited
        > AUTOCLICK_PAUSE))
}

/// Whether a cell is clicked in this frame. `waited` is the time since the
/// last click, in milliseconds.
pub fn click_due(
    reached: bool,
    key_pressed: bool,
    pointer_clicked: bool,
    powerup: Option<Powerup>,
    waited: u128,
) -> (due: bool)
    ensures
        due == clicks(reached, key_pressed, pointer_clicked, powerup, waited),
{
    let autoclick = match powerup {
        Some(Powerup::Autoclick) => waited > AUTOCLICK_PAUSE,
        _ => false,
    };
    reached && (key_pressed || pointer_clicked || autoclick)
}

/// A key of the keyboard that clicks once for each time it goes down.
pub struct PressKey {
    down: bool,
}

impl View for PressKey {
    type V = bool;

    closed spec fn view(&self) -> bool {
        self.down
    }
}

impl PressKey {
    /// A key that is up.
    pub fn new() -> (key: PressKey)
        ensures
            !key@,
    {
        PressKey { down: false }
    }

    /// Takes whether the key is down in this frame, and says whether it
    /// went down just now.
    pub fn update(&mut self, down: bool) -> (pressed: bool)
        ensures
            pressed == (down && !old(self)@),
            final(self)@ == down,
    {
        let pressed = down && !self.down;
        self.down = down;
        pressed
    }
}

/// The five powerups as a list.
pub fn all_powerups() -> (list: Vec<Powerup>)
    ensures
        list@ == powerups(),
{
    let mut list: Vec<Powerup> = Vec::new();
    list.push(Powerup::Rows);
    list.push(Powerup::Columns);
    list.push(Powerup::RowsColumns);
    list.push(Powerup::Random);
    list.push(Powerup::Autoclick);
    assert(list@ =~= powerups());
    list
}

/// Calls `SliceRandom::shuffle` of `rand` with the operating system's
/// random source. Trusted: whatever order comes out, the list holds what it
/// held. The call panics if the system has no random numbers to give.
#[verifier::external_body]
fn shuffle(list: &mut Vec<Powerup>)
    ensures
        final(list)@.to_multiset() == old(list)@.to_multiset(),
{
    list.shuffle(&mut OsRng.unwrap_err());
}

/// A shuffled deck of the five powerups, dealt one by one and shuffled
/// afresh when it runs out.
pub struct PowerupDeck {
    order: Vec<Powerup>,
    dealt: usize,
}

/// A `PowerupDeck` as mathematical values.
pub struct DeckView {
    /// The cards in the order they are dealt.
    pub order: Seq<Powerup>,
    /// How many of them were dealt.
    pub dealt: nat,
}

impl View for PowerupDeck {
    type V = DeckView;

    closed spec fn view(&self) -> DeckView {
        DeckView { order: self.order@, dealt: self.dealt as nat }
    }
}

/// In a list that holds what `powerups()` holds, every powerup stands at
/// one place.
pub proof fn lemma_each_powerup_once(order: Seq<Powerup>, powerup: Powerup)
    requires
        order.to_multiset() == powerups().to_multiset(),
    ensures
        order.len() == 5,
        exists|i: int| 0 <= i < 5 && order[i] == powerup,
        forall|i: int, j: int| 0 <= i < j < 5 ==> order[i] != order[j],
{
    let all = powerups();
    order.to_multiset_ensures();
    all.to_multiset_ensures();
    assert(all.no_duplicates());
    all.lemma_multiset_has_no_duplicates();
    order.lemma_multiset_has_no_duplicates_conv();
    assert(all.contains(powerup)) by {
        match powerup {
            Powerup::Rows => assert(all[0] == powerup),
            Powerup::Columns => assert(all[1] == powerup),
            Powerup::RowsColumns => assert(all[2] == powerup),
            Powerup::Random => assert(all[3] == powerup),
            Powerup::Autoclick => assert(all[4] == powerup),
        }
    }
    assert(order.to_multiset().count(powerup) > 0);
    assert(order.contains(powerup));
    let i = order.index_of(powerup);
    assert(order[i] == powerup);
}

impl PowerupDeck {
    /// The deck holds each powerup once, and no more were dealt than it has.
    pub open spec fn wf(&self) -> bool {
        &&& self@.order.to_multiset() == powerups().to_multiset()
        &&& self@.dealt <= self@.order.len()
    }

    /// A freshly shuffled deck.
    pub fn new() -> (deck: PowerupDeck)
        ensures
            deck.wf(),
            deck@.dealt == 0,
    {
        let mut order = all_powerups();
        shuffle(&mut order);
        PowerupDeck { order, dealt: 0 }
    }

    /// Deals the next powerup. A deck that ran out is shuffled afresh first.
    pub fn next_powerup(&mut self) -> (powerup: Powerup)
        requires
            old(self).wf(),
        ensures
            final(self).wf(),
            old(self)@.dealt < 5 ==> final(self)@.order == old(self)@.order && final(self)@.dealt
                == old(self)@.dealt + 1,
            old(self)@.dealt >= 5 ==> final(self)@.dealt == 1,
            powerup == final(self)@.order[final(self)@.dealt - 1],
    {
        proof {
            lemma_each_powerup_once(self.order@, Powerup::Rows);
        }
        if self.dealt < self.order.len() {
            let powerup = self.order[self.dealt];
            self.dealt += 1;
            powerup
        } else {
            let mut order = all_powerups();
            shuffle(&mut order);
            proof {
                lemma_each_powerup_once(order@, Powerup::Rows);
            }
            self.order = order;
            self.dealt = 1;
            self.order[0]
        }
    }
}

} // verus!
