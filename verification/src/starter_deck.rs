//! The deck every run begins with: a list of card ids, each with how many
//! copies of it, expanded into the cards themselves.
//!
//! Reading the list from the game data is left to the caller; expanding it
//! is here, so the rules stay checkable.

use vstd::prelude::*;
use crate::card_data::{CardData, same_card};

verus! {

/// One line of the starter deck list: a card id and how many copies of it.
#[derive(Clone, Debug, PartialEq, Eq)]
pub struct StarterDeckEntry {
    pub id: String,
    pub count: u8,
}

/// The ids the entries name, one per physical card, in list order.
pub open spec fn expanded_ids(entries: Seq<StarterDeckEntry>) -> Seq<Seq<char>>
    decreases entries.len(),
{
    if entries.len() == 0 {
        Seq::empty()
    } else {
        expanded_ids(entries.drop_last()) + Seq::new(entries.last().count as nat, |k: int| entries.last().id@)
    }
}

/// The cards a starter list expands to, given what looking up each entry's
/// id found: each card found, repeated as many times as its entry asks.
pub open spec fn expanded_cards(entries: Seq<StarterDeckEntry>, found: Seq<Option<&CardData>>) -> Seq<CardData>
    decreases entries.len(),
{
    if entries.len() == 0 {
        Seq::empty()
    } else {
        let rest = expanded_cards(entries.drop_last(), found.drop_last());
        match found.last() {
            Some(card) => rest + Seq::new(entries.last().count as nat, |k: int| *card),
            None => rest,
        }
    }
}

/// The ids of the entries nothing was found for, in list order.
pub open spec fn missing_ids(entries: Seq<StarterDeckEntry>, found: Seq<Option<&CardData>>) -> Seq<Seq<char>>
    decreases entries.len(),
{
    if entries.len() == 0 {
        Seq::empty()
    } else {
        let rest = missing_ids(entries.drop_last(), found.drop_last());
        match found.last() {
            Some(_) => rest,
            None => rest.push(entries.last().id@),
        }
    }
}

/// `result` is what expanding `entries` comes to, given what looking up each
/// id found: every missing id reported in order if any is missing, else the
/// expanded deck.
pub open spec fn expansion_outcome(
    entries: Seq<StarterDeckEntry>,
    found: Seq<Option<&CardData>>,
    result: Result<Vec<CardData>, Vec<String>>,
) -> bool {
    let missing = missing_ids(entries, found);
    let cards = expanded_cards(entries, found);
    match result {
        Ok(deck) => missing.len() == 0 && deck@.len() == cards.len() && forall|k: int|
            0 <= k < cards.len() ==> same_card(#[trigger] deck@[k], cards[k]),
        Err(ids) => missing.len() > 0 && ids@.len() == missing.len() && forall|k: int|
            0 <= k < missing.len() ==> (#[trigger] ids@[k])@ == missing[k],
    }
}

proof fn lemma_expanded_step(entries: Seq<StarterDeckEntry>, found: Seq<Option<&CardData>>, i: int)
    requires
        0 <= i < entries.len(),
        found.len() == entries.len(),
    ensures
        expanded_cards(entries.take(i + 1), found.take(i + 1)) == expanded_cards(entries.take(i), found.take(i))
            + (match found[i] {
            Some(card) => Seq::new(entries[i].count as nat, |k: int| *card),
            None => Seq::empty(),
        }),
        missing_ids(entries.take(i + 1), found.take(i + 1)) == (match found[i] {
            Some(_) => missing_ids(entries.take(i), found.take(i)),
            None => missing_ids(entries.take(i), found.take(i)).push(entries[i].id@),
        }),
{
    assert(entries.take(i + 1).drop_last() =~= entries.take(i));
    assert(found.take(i + 1).drop_last() =~= found.take(i));
    match found[i] {
        Some(card) => {},
        None => {
            assert(expanded_cards(entries.take(i), found.take(i)) + Seq::<CardData>::empty() =~= expanded_cards(
                entries.take(i),
                found.take(i),
            ));
        },
    }
}

/// Expands the entries into the cards a run starts with, given what looking
/// up each entry's id found. An id nothing was found for is reported rather
/// than skipped, so a typo shows up instead of quietly shrinking the deck.
pub fn expand_starter_deck(entries: &[StarterDeckEntry], found: &Vec<Option<&CardData>>) -> (result: Result<
    Vec<CardData>,
    Vec<String>,
>)
    requires
        found@.len() == entries@.len(),
    ensures
        expansion_outcome(entries@, found@, result),
{
    let mut deck: Vec<CardData> = Vec::new();
    let mut missing: Vec<String> = Vec::new();
    let mut i: usize = 0;
    while i < entries.len()
        invariant
            found@.len() == entries@.len(),
            i <= entries@.len(),
            deck@.len() == expanded_cards(entries@.take(i as int), found@.take(i as int)).len(),
            forall|k: int|
                0 <= k < deck@.len() ==> same_card(
                    #[trigger] deck@[k],
                    expanded_cards(entries@.take(i as int), found@.take(i as int))[k],
                ),
            missing@.len() == missing_ids(entries@.take(i as int), found@.take(i as int)).len(),
            forall|k: int|
                0 <= k < missing@.len() ==> (#[trigger] missing@[k])@ == missing_ids(
                    entries@.take(i as int),
                    found@.take(i as int),
                )[k],
        decreases entries@.len() - i,
    {
        proof {
            lemma_expanded_step(entries@, found@, i as int);
        }
        let ghost cards_before = expanded_cards(entries@.take(i as int), found@.take(i as int));
        let ghost deck_before = deck@;
        match found[i] {
            Some(card) => {
                let mut copies: u8 = 0;
                while copies < entries[i].count
                    invariant
                        i < entries@.len(),
                        found@.len() == entries@.len(),
                        found@[i as int] == Some(card),
                        copies <= entries@[i as int].count,
                        deck@.len() == deck_before.len() + copies,
                        deck_before.len() == cards_before.len(),
                        forall|k: int| 0 <= k < deck_before.len() ==> #[trigger] deck@[k] == deck_before[k],
                        forall|k: int|
                            deck_before.len() <= k < deck@.len() ==> same_card(#[trigger] deck@[k], *card),
                    decreases entries@[i as int].count - copies,
                {
                    deck.push(card.duplicate());
                    copies += 1;
                }
                proof {
                    let now = expanded_cards(entries@.take(i + 1), found@.take(i + 1));
                    assert forall|k: int| 0 <= k < deck@.len() implies same_card(#[trigger] deck@[k], now[k]) by {
                        if k < deck_before.len() {
                            assert(deck@[k] == deck_before[k]);
                        }
                    }
                }
            },
            None => {
                missing.push(entries[i].id.clone());
            },
        }
        i += 1;
    }
    proof {
        assert(entries@.take(entries@.len() as int) =~= entries@);
        assert(found@.take(found@.len() as int) =~= found@);
    }
    if missing.len() == 0 {
        Ok(deck)
    } else {
        Err(missing)
    }
}

/// Expands the entries into the actual cards a run starts with, looking up
/// each id with `lookup`. An id that is not found is returned as an error
/// rather than skipped.
pub fn build_starter_deck<'a, F: Fn(&str) -> Option<&'a CardData>>(entries: &[StarterDeckEntry], lookup: F) -> (result:
    Result<Vec<CardData>, Vec<String>>)
    requires
        forall|name: &str| lookup.requires((name,)),
    ensures
        exists|names: Seq<&str>, found: Seq<Option<&CardData>>|
            #![trigger names.len(), found.len()]
            {
                &&& names.len() == entries@.len()
                &&& found.len() == entries@.len()
                &&& forall|k: int|
                    0 <= k < found.len() ==> (#[trigger] names[k])@ == entries@[k].id@ && lookup.ensures(
                        (names[k],),
                        found[k],
                    )
                &&& expansion_outcome(entries@, found, result)
            },
{
    let mut found: Vec<Option<&'a CardData>> = Vec::new();
    let ghost mut names: Seq<&str> = Seq::empty();
    let mut i: usize = 0;
    while i < entries.len()
        invariant
            forall|name: &str| lookup.requires((name,)),
            i <= entries@.len(),
            found@.len() == i,
            names.len() == i,
            forall|k: int|
                0 <= k < i ==> (#[trigger] names[k])@ == entries@[k].id@ && lookup.ensures((names[k],), found@[k]),
        decreases entries@.len() - i,
    {
        let name = entries[i].id.as_str();
        let card = lookup(name);
        found.push(card);
        proof {
            names = names.push(name);
        }
        i += 1;
    }
    let result = expand_starter_deck(entries, &found);
    proof {
        assert(expansion_outcome(entries@, found@, result));
        assert(names.len() == entries@.len() && found@.len() == entries@.len());
    }
    result
}

} // verus!
