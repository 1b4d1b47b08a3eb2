//! A review of a deck of flashcards: which card is up, which side shows,
//! and what each command makes of that.

use rand::seq::SliceRandom;
use vstd::prelude::*;
use crate::flashcards::screen_of;
use crate::flashcards::ui;
use crate::flashcards::Card;
use crate::flashcards::Command;

verus! {

/// The two sides of a flashcard.
#[derive(Clone, Copy, Debug, PartialEq, Eq, Structural)]
pub enum Side {
    Front,
    Back,
}

/// The name of a side as the screen shows it.
pub open spec fn side_name(side: Side) -> Seq<char> {
    match side {
        Side::Front => "front"@,
        Side::Back => "back"@,
    }
}

/// A deck under review. A well-formed deck is not empty, and the card that
/// is up is one of its cards.
#[derive(Debug)]
pub struct Deck {
    cards: Vec<Card>,
    current: usize,
    side: Side,
}

/// Calls `rand::thread_rng` and `SliceRandom::shuffle`, which only swaps
/// elements. The contract claims what holds of every outcome: the cards are
/// the same, each as often as before. `thread_rng` gives up where the
/// operating system has no randomness to offer; no argument decides that.
#[verifier::external_body]
fn shuffle_cards(cards: &mut Vec<Card>)
    ensures
        final(cards)@.to_multiset() == old(cards)@.to_multiset(),
        final(cards)@.len() == old(cards)@.len(),
{
    let mut rng = rand::thread_rng();
    cards.shuffle(&mut rng);
}

impl Deck {
    /// Whether the card that is up is one of the cards. Every deck that
    /// `new` makes is so, and every operation keeps it so.
    pub closed spec fn well_formed(&self) -> bool {
        self.current < self.cards.len()
    }

    /// The cards in their present order.
    pub closed spec fn cards_view(&self) -> Seq<Card> {
        self.cards@
    }

    /// The place of the card that is up, counted from 0.
    pub closed spec fn position(&self) -> nat {
        self.current as nat
    }

    /// The side that shows.
    pub closed spec fn side_view(&self) -> Side {
        self.side
    }

    /// What `command` makes of the deck `self`: whether `next` can be the
    /// deck afterwards. Next and Previous move to a neighbour, where there
    /// is one, and show its front; Flip turns the card over; Shuffle puts
    /// the same cards in some order and shows the front of the first; Quit
    /// and Unknown leave everything as it is.
    pub open spec fn steps_to(&self, command: Command, next: &Deck) -> bool {
        match command {
            Command::Next => {
                &&& next.cards_view() == self.cards_view()
                &&& if self.position() + 1 < self.cards_view().len() {
                    next.position() == self.position() + 1 && next.side_view() == Side::Front
                } else {
                    next.position() == self.position() && next.side_view() == self.side_view()
                }
            },
            Command::Previous => {
                &&& next.cards_view() == self.cards_view()
                &&& if self.position() > 0 {
                    next.position() == self.position() - 1 && next.side_view() == Side::Front
                } else {
                    next.position() == self.position() && next.side_view() == self.side_view()
                }
            },
            Command::Flip => {
                &&& next.cards_view() == self.cards_view()
                &&& next.position() == self.position()
                &&& next.side_view() == if self.side_view() == Side::Back {
                    Side::Front
                } else {
                    Side::Back
                }
            },
            Command::Shuffle => {
                &&& next.cards_view().to_multiset() == self.cards_view().to_multiset()
                &&& next.position() == 0
                &&& next.side_view() == Side::Front
            },
            Command::Quit | Command::Unknown => {
                &&& next.cards_view() == self.cards_view()
                &&& next.position() == self.position()
                &&& next.side_view() == self.side_view()
            },
        }
    }

    /// The text that shows: the side that is up of the card that is up.
    pub open spec fn text_view(&self) -> Seq<char> {
        let card = self.cards_view()[self.position() as int];
        match self.side_view() {
            Side::Front => card.front_view(),
            Side::Back => card.back_view(),
        }
    }

    /// A review of `cards` that starts at the front of the first card, or
    /// nothing where there are no cards.
    pub fn new(cards: Vec<Card>) -> (deck: Option<Deck>)
        ensures
            cards.len() == 0 ==> deck is None,
            cards.len() > 0 ==> deck is Some && deck->Some_0.well_formed()
                && deck->Some_0.cards_view() == cards@ && deck->Some_0.position() == 0
                && deck->Some_0.side_view() == Side::Front,
    {
        if cards.len() == 0 {
            None
        } else {
            Some(Deck { cards, current: 0, side: Side::Front })
        }
    }

    /// The number of cards, which is at least one.
    pub fn len(&self) -> (n: usize)
        requires
            self.well_formed(),
        ensures
            n == self.cards_view().len(),
            n > 0,
    {
        self.cards.len()
    }

    /// The place of the card that is up, counted from 0.
    pub fn current_index(&self) -> (i: usize)
        requires
            self.well_formed(),
        ensures
            i == self.position(),
            i < self.cards_view().len(),
    {
        self.current
    }

    /// The side that shows.
    pub fn side(&self) -> (side: Side)
        ensures
            side == self.side_view(),
    {
        self.side
    }

    /// The text that shows.
    pub fn text(&self) -> (text: &str)
        requires
            self.well_formed(),
        ensures
            text@ == self.text_view(),
    {
        match self.side {
            Side::Front => self.cards[self.current].front(),
            Side::Back => self.cards[self.current].back(),
        }
    }

    /// The screen for the card that is up.
    pub fn screen(&self) -> (screen: String)
        requires
            self.well_formed(),
        ensures
            screen@ == screen_of(
                side_name(self.side_view()),
                self.text_view(),
                self.position() + 1,
                self.cards_view().len(),
            ),
    {
        let state = match self.side {
            Side::Front => "front",
            Side::Back => "back",
        };
        ui(state, self.text(), self.current + 1, self.cards.len())
    }

    /// Carries out `command` and says whether the review goes on, which it
    /// does until the command is Quit.
    pub fn apply(&mut self, command: Command) -> (go_on: bool)
        requires
            old(self).well_formed(),
        ensures
            final(self).well_formed(),
            go_on == (command != Command::Quit),
            old(self).steps_to(command, final(self)),
    {
        match command {
            Command::Next => {
                if self.current + 1 < self.cards.len() {
                    self.current = self.current + 1;
                    self.side = Side::Front;
                }
            },
            Command::Previous => {
                if self.current > 0 {
                    self.current = self.current - 1;
                    self.side = Side::Front;
                }
            },
            Command::Flip => {
                self.side = match self.side {
                    Side::Back => Side::Front,
                    Side::Front => Side::Back,
                };
            },
            Command::Shuffle => {
                self.current = 0;
                self.side = Side::Front;
                shuffle_cards(&mut self.cards);
            },
            Command::Quit | Command::Unknown => {},
        }
        match command {
            Command::Quit => false,
            _ => true,
        }
    }
}

} // verus!
