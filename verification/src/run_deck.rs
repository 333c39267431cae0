//! The cards a run owns, by id: the starter deck to begin with, plus every
//! reward picked along the way.

use vstd::prelude::*;
use crate::starter_deck::{StarterDeckEntry, expanded_ids};

verus! {

/// How many times `id` occurs in `ids`.
pub open spec fn occurrences(ids: Seq<Seq<char>>, id: Seq<char>) -> nat
    decreases ids.len(),
{
    if ids.len() == 0 {
        0
    } else {
        occurrences(ids.drop_last(), id) + (if ids.last() == id {
            1nat
        } else {
            0nat
        })
    }
}

/// The ids of `strings`, as character sequences.
pub open spec fn string_views(strings: Seq<String>) -> Seq<Seq<char>> {
    strings.map_values(|s: String| s@)
}

#[derive(Debug, Clone, PartialEq, Eq)]
pub struct RunDeck {
    card_ids: Vec<String>,
}

impl View for RunDeck {
    type V = Seq<Seq<char>>;

    closed spec fn view(&self) -> Seq<Seq<char>> {
        string_views(self.card_ids@)
    }
}

impl Default for RunDeck {
    /// A run deck that owns nothing yet.
    fn default() -> (deck: Self)
        ensures
            deck@ == Seq::<Seq<char>>::empty(),
    {
        let deck = RunDeck { card_ids: Vec::new() };
        assert(deck@ =~= Seq::<Seq<char>>::empty());
        deck
    }
}

impl RunDeck {
    /// One id per physical card the starter list names, in list order.
    pub fn from_starter_entries(entries: &[StarterDeckEntry]) -> (deck: Self)
        ensures
            deck@ == expanded_ids(entries@),
    {
        let mut card_ids: Vec<String> = Vec::new();
        let mut i: usize = 0;
        while i < entries.len()
            invariant
                i <= entries@.len(),
                string_views(card_ids@) == expanded_ids(entries@.take(i as int)),
            decreases entries@.len() - i,
        {
            let ghost before = string_views(card_ids@);
            let mut copies: u8 = 0;
            while copies < entries[i].count
                invariant
                    i < entries@.len(),
                    copies <= entries@[i as int].count,
                    string_views(card_ids@) == before + Seq::new(copies as nat, |k: int| entries@[i as int].id@),
                decreases entries@[i as int].count - copies,
            {
                let ghost old_ids = card_ids@;
                let id = entries[i].id.clone();
                card_ids.push(id);
                proof {
                    assert(string_views(card_ids@) =~= string_views(old_ids).push(entries@[i as int].id@));
                    assert(string_views(card_ids@) =~= before + Seq::new((copies + 1) as nat, |k: int| entries@[i as int].id@));
                }
                copies += 1;
            }
            proof {
                assert(entries@.take(i + 1).drop_last() =~= entries@.take(i as int));
            }
            i += 1;
        }
        proof {
            assert(entries@.take(entries@.len() as int) =~= entries@);
        }
        RunDeck { card_ids }
    }

    pub fn card_ids(&self) -> (ids: &[String])
        ensures
            string_views(ids@) == self@,
    {
        self.card_ids.as_slice()
    }

    pub fn len(&self) -> (len: usize)
        ensures
            len == self@.len(),
    {
        self.card_ids.len()
    }

    pub fn is_empty(&self) -> (empty: bool)
        ensures
            empty == (self@.len() == 0),
    {
        self.card_ids.len() == 0
    }

    /// Adds a card the run has gained, after everything it already owns.
    pub fn add(&mut self, card_id: &str)
        ensures
            final(self)@ == old(self)@.push(card_id@),
    {
        self.card_ids.push(String::from_str(card_id));
        assert(string_views(self.card_ids@) =~= old(self)@.push(card_id@));
    }

    /// How many copies of `card_id` the run owns.
    pub fn count_of(&self, card_id: &str) -> (count: usize)
        ensures
            count == occurrences(self@, card_id@),
    {
        let target = String::from_str(card_id);
        let mut count: usize = 0;
        let mut i: usize = 0;
        while i < self.card_ids.len()
            invariant
                i <= self.card_ids@.len(),
                target@ == card_id@,
                count == occurrences(string_views(self.card_ids@).take(i as int), card_id@),
                count <= i,
            decreases self.card_ids@.len() - i,
        {
            proof {
                let ids = string_views(self.card_ids@);
                assert(ids.take(i + 1).drop_last() =~= ids.take(i as int));
            }
            if self.card_ids[i] == target {
                count += 1;
            }
            i += 1;
        }
        proof {
            let ids = string_views(self.card_ids@);
            assert(ids.take(ids.len() as int) =~= ids);
        }
        count
    }
}

/// Gaining a card adds one copy of it and leaves every other count alone.
pub proof fn law_adding_counts_once(ids: Seq<Seq<char>>, added: Seq<char>, other: Seq<char>)
    ensures
        occurrences(ids.push(added), added) == occurrences(ids, added) + 1,
        other != added ==> occurrences(ids.push(added), other) == occurrences(ids, other),
        ids.push(added).len() == ids.len() + 1,
{
    assert(ids.push(added).drop_last() =~= ids);
}

} // verus!
