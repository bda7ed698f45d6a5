//! Deck lists and decks: the text form of a deck list's lines, the
//! construction rules a deck list must meet, and the order of a player's
//! site and spell piles.

pub mod precon;

use crate::card::Rarity;
use crate::ids::PlayerId;
use crate::text::{
    decimal, is_digit, lemma_decimal_digits, lemma_decimal_parses, lemma_trim_space_prefix,
    parse_u8, parsed_u8, push_decimal, trim, trimmed,
};
use rand::seq::SliceRandom;
use vstd::prelude::*;

verus! {

/// One line of a deck list: a number of copies of a card.
#[derive(Debug, Clone)]
pub struct CardNameWithCount {
    pub count: u8,
    pub name: String,
}

/// The position of the first `x` in `s`.
pub open spec fn first_x(s: Seq<char>) -> Option<int> {
    if exists|i: int| 0 <= i < s.len() && s[i] == 'x' {
        Some(choose|i: int| 0 <= i < s.len() && s[i] == 'x' && forall|j: int| 0 <= j < i ==> s[j] != 'x')
    } else {
        None
    }
}

/// The message for a line without an `x`.
pub open spec fn format_error(s: Seq<char>) -> Seq<char> {
    "Invalid card count format: \""@ + s + "\""@
}

/// The message for a line whose count is not a number from 0 to 255.
pub open spec fn count_error(s: Seq<char>) -> Seq<char> {
    "Invalid count in card format: \""@ + s + "\""@
}

/// What a deck list line `s` reads as: the text before the first `x` is
/// the number of copies and the text after it the card's name, each with
/// surrounding whitespace removed; or the message saying why it is not a
/// line.
pub open spec fn card_line_parse(s: Seq<char>) -> Result<(u8, Seq<char>), Seq<char>> {
    match first_x(s) {
        None => Err(format_error(s)),
        Some(i) => match parsed_u8(trimmed(s.take(i))) {
            None => Err(count_error(s)),
            Some(c) => Ok((c, trimmed(s.skip(i + 1)))),
        },
    }
}

/// How a line of a deck list is written: `"{count}x {name}"`.
pub open spec fn card_line(count: u8, name: Seq<char>) -> Seq<char> {
    decimal(count as nat) + "x "@ + name
}

/// The position of the first `x` in `s`.
fn find_x(s: &str) -> (r: Option<usize>)
    ensures
        r matches Some(i) ==> first_x(s@) == Some(i as int) && i < s@.len() && s@[i as int] == 'x',
        r is None ==> first_x(s@) is None,
{
    let n = s.unicode_len();
    let mut i: usize = 0;
    while i < n
        invariant
            n == s@.len(),
            i <= n,
            forall|j: int| 0 <= j < i ==> s@[j] != 'x',
        decreases n - i,
    {
        if s.get_char(i) == 'x' {
            proof {
                let k = choose|k: int|
                    0 <= k < s@.len() && s@[k] == 'x' && forall|j: int| 0 <= j < k ==> s@[j] != 'x';
                assert(k == i);
            }
            return Some(i);
        }
        i += 1;
    }
    None
}

impl CardNameWithCount {
    /// Reads a deck list line such as `"2x Pit Vipers"`: the text before the
    /// first `x` is the number of copies and the text after it the card's
    /// name, each with surrounding whitespace removed.
    pub fn parse(s: &str) -> (r: Result<CardNameWithCount, String>)
        ensures
            match (r, card_line_parse(s@)) {
                (Ok(line), Ok((count, name))) => line.count == count && line.name@ == name,
                (Err(msg), Err(expected)) => msg@ == expected,
                _ => false,
            },
    {
        match find_x(s) {
            None => {
                let mut msg = String::from_str("Invalid card count format: \"");
                msg.append(s);
                msg.append("\"");
                Err(msg)
            },
            Some(i) => {
                let n = s.unicode_len();
                let count_part = trim(s.substring_char(0, i));
                assert(s@.subrange(0, i as int) =~= s@.take(i as int));
                match parse_u8(count_part) {
                    None => {
                        let mut msg = String::from_str("Invalid count in card format: \"");
                        msg.append(s);
                        msg.append("\"");
                        Err(msg)
                    },
                    Some(count) => {
                        let name_part = trim(s.substring_char(i + 1, n));
                        assert(s@.subrange(i + 1, n as int) =~= s@.skip(i + 1));
                        Ok(CardNameWithCount { count, name: String::from_str(name_part) })
                    },
                }
            },
        }
    }

    /// The line as a deck list writes it: `"{count}x {name}"`.
    pub fn to_display_string(&self) -> (r: String)
        ensures
            r@ == card_line(self.count, self.name@),
    {
        let mut s = String::new();
        push_decimal(&mut s, self.count as u64);
        s.append("x ");
        s.append(self.name.as_str());
        assert(s@ =~= card_line(self.count, self.name@));
        s
    }
}


/// A deck list line reads back as the copies and name it was written from,
/// for a name with no surrounding whitespace.
pub proof fn card_lines_read_back(count: u8, name: Seq<char>)
    requires
        trimmed(name) == name,
    ensures
        card_line_parse(card_line(count, name)) == Ok::<(u8, Seq<char>), Seq<char>>((count, name)),
{
    reveal_strlit("x ");
    let d = decimal(count as nat);
    let s = card_line(count, name);
    lemma_decimal_digits(count as nat);
    lemma_decimal_parses(count);
    let k = d.len() as int;
    assert(s[k] == 'x');
    assert forall|j: int| 0 <= j < k implies s[j] != 'x' by {
        assert(s[j] == d[j]);
        assert(is_digit(d[j]));
    }
    let i = choose|i: int| 0 <= i < s.len() && s[i] == 'x' && forall|j: int| 0 <= j < i ==> s[j] != 'x';
    assert(i == k);
    assert(s.take(k) =~= d);
    assert(s.skip(k + 1) =~= seq![' '] + name);
    lemma_trim_space_prefix(name);
}


/// A deck as its owner saved it: a name, the sites of its atlas, the
/// spells of its spellbook, and its avatar.
#[derive(Debug, Clone)]
pub struct DeckList {
    pub name: String,
    pub sites: Vec<CardNameWithCount>,
    pub spells: Vec<CardNameWithCount>,
    pub avatar: String,
}

/// The rarity of a card, by name: one entry of the card catalogue.
#[derive(Debug, Clone)]
pub struct CardRarity {
    pub name: String,
    pub rarity: Rarity,
}

/// The rarity of the card named `name` in the catalogue `cards`, if it is
/// there.
pub open spec fn rarity_of(cards: Seq<CardRarity>, name: Seq<char>) -> Option<Rarity>
    decreases cards.len(),
{
    if cards.len() == 0 {
        None
    } else if cards[0].name@ == name {
        Some(cards[0].rarity)
    } else {
        rarity_of(cards.drop_first(), name)
    }
}

/// How many copies of a card a deck may hold.
pub open spec fn copy_limit(r: Rarity) -> nat {
    match r {
        Rarity::Ordinary => 4,
        Rarity::Exceptional => 3,
        Rarity::Elite => 2,
        Rarity::Unique => 1,
    }
}

/// How a rarity is written in messages.
pub open spec fn rarity_name(r: Rarity) -> Seq<char> {
    match r {
        Rarity::Ordinary => "Ordinary"@,
        Rarity::Exceptional => "Exceptional"@,
        Rarity::Elite => "Elite"@,
        Rarity::Unique => "Unique"@,
    }
}

/// The number of cards the lines `list` add up to.
pub open spec fn list_size(list: Seq<CardNameWithCount>) -> nat
    decreases list.len(),
{
    if list.len() == 0 {
        0
    } else {
        list_size(list.drop_last()) + list.last().count as nat
    }
}

/// The number of copies of the card named `name` that the lines `list`
/// add up to.
pub open spec fn copies(list: Seq<CardNameWithCount>, name: Seq<char>) -> nat
    decreases list.len(),
{
    if list.len() == 0 {
        0
    } else {
        copies(list.drop_last(), name) + if list.last().name@ == name {
            list.last().count as nat
        } else {
            0nat
        }
    }
}

/// The first line of `list`, from position `from` on, naming a card that
/// is not in the catalogue.
pub open spec fn first_unknown(list: Seq<CardNameWithCount>, cards: Seq<CardRarity>, from: int) -> Option<int>
    decreases list.len() - from,
{
    if from < 0 || from >= list.len() {
        None
    } else if rarity_of(cards, list[from].name@) is None {
        Some(from)
    } else {
        first_unknown(list, cards, from + 1)
    }
}

/// Whether the deck holds more copies of the card of line `i` than its
/// rarity allows.
pub open spec fn over_limit(list: Seq<CardNameWithCount>, cards: Seq<CardRarity>, i: int) -> bool {
    match rarity_of(cards, list[i].name@) {
        Some(r) => copies(list, list[i].name@) > copy_limit(r),
        None => false,
    }
}

/// The first line of `list`, from position `from` on, whose card has more
/// copies than its rarity allows.
pub open spec fn first_over_limit(list: Seq<CardNameWithCount>, cards: Seq<CardRarity>, from: int) -> Option<int>
    decreases list.len() - from,
{
    if from < 0 || from >= list.len() {
        None
    } else if over_limit(list, cards, from) {
        Some(from)
    } else {
        first_over_limit(list, cards, from + 1)
    }
}

/// The message for too many copies of the card of line `i`; `kind` is
/// empty for spells and `"site "` for sites.
pub open spec fn limit_message(list: Seq<CardNameWithCount>, cards: Seq<CardRarity>, i: int, kind: Seq<char>) -> Seq<char> {
    let name = list[i].name@;
    let r = rarity_of(cards, name)->0;
    "Too many copies of "@ + kind + "\""@ + name + "\" ("@ + decimal(copies(list, name)) + " \u{2014} max "@
        + decimal(copy_limit(r)) + " for "@ + rarity_name(r) + ")."@
}

/// Why the deck list `d` breaks the construction rules, checked in this
/// order: it must have a name and an avatar that is a known card, at least
/// 60 spells and 30 sites, only known cards, and no more copies of a card
/// than its rarity allows (Ordinary 4, Exceptional 3, Elite 2, Unique 1).
pub open spec fn validation_error(d: DeckList, cards: Seq<CardRarity>) -> Option<Seq<char>> {
    let spells = d.spells@;
    let sites = d.sites@;
    if d.name@.len() == 0 {
        Some("Deck name cannot be empty."@)
    } else if d.avatar@.len() == 0 {
        Some("Please select an avatar."@)
    } else if rarity_of(cards, d.avatar@) is None {
        Some("Unknown avatar: "@ + "\""@ + d.avatar@ + "\"."@)
    } else if list_size(spells) < 60 {
        Some("Spellbook needs at least 60 cards (you have "@ + decimal(list_size(spells)) + ")."@)
    } else if list_size(sites) < 30 {
        Some("Atlas needs at least 30 sites (you have "@ + decimal(list_size(sites)) + ")."@)
    } else if first_unknown(spells, cards, 0) is Some {
        Some("Unknown card: "@ + "\""@ + spells[first_unknown(spells, cards, 0)->0].name@ + "\"."@)
    } else if first_over_limit(spells, cards, 0) is Some {
        Some(limit_message(spells, cards, first_over_limit(spells, cards, 0)->0, ""@))
    } else if first_unknown(sites, cards, 0) is Some {
        Some("Unknown site: "@ + "\""@ + sites[first_unknown(sites, cards, 0)->0].name@ + "\"."@)
    } else if first_over_limit(sites, cards, 0) is Some {
        Some(limit_message(sites, cards, first_over_limit(sites, cards, 0)->0, "site "@))
    } else {
        None
    }
}

/// The rarity of the card named `name` in the catalogue `cards`.
fn find_rarity(cards: &Vec<CardRarity>, name: &String) -> (r: Option<Rarity>)
    ensures
        r == rarity_of(cards@, name@),
{
    let mut i: usize = 0;
    assert(cards@.skip(0) =~= cards@);
    while i < cards.len()
        invariant
            i <= cards.len(),
            rarity_of(cards@, name@) == rarity_of(cards@.skip(i as int), name@),
        decreases cards.len() - i,
    {
        assert(cards@.skip(i as int).drop_first() =~= cards@.skip(i + 1));
        if cards[i].name == *name {
            return Some(cards[i].rarity);
        }
        i += 1;
    }
    None
}

/// The number of cards the lines `list` add up to.
fn count_cards(list: &Vec<CardNameWithCount>) -> (r: usize)
    requires
        list_size(list@) <= usize::MAX,
    ensures
        r == list_size(list@),
{
    let mut total: usize = 0;
    let mut i: usize = 0;
    while i < list.len()
        invariant
            i <= list.len(),
            list_size(list@) <= usize::MAX,
            total == list_size(list@.take(i as int)),
        decreases list.len() - i,
    {
        assert(list@.take(i + 1).drop_last() =~= list@.take(i as int));
        proof {
            lemma_list_size_prefix(list@, i + 1);
        }
        total = total + list[i].count as usize;
        i += 1;
    }
    assert(list@.take(list.len() as int) =~= list@);
    total
}

proof fn lemma_list_size_prefix(list: Seq<CardNameWithCount>, k: int)
    requires
        0 <= k <= list.len(),
    ensures
        list_size(list.take(k)) <= list_size(list),
    decreases list.len() - k,
{
    if k < list.len() {
        lemma_list_size_prefix(list, k + 1);
        assert(list.take(k + 1).drop_last() =~= list.take(k));
    } else {
        assert(list.take(k) =~= list);
    }
}

proof fn lemma_copies_prefix(list: Seq<CardNameWithCount>, name: Seq<char>, k: int)
    requires
        0 <= k <= list.len(),
    ensures
        copies(list.take(k), name) <= copies(list, name),
        copies(list, name) <= list_size(list),
    decreases list.len() - k,
{
    if k < list.len() {
        lemma_copies_prefix(list, name, k + 1);
        assert(list.take(k + 1).drop_last() =~= list.take(k));
    } else {
        assert(list.take(k) =~= list);
        lemma_copies_le_size(list, name);
    }
}

proof fn lemma_copies_le_size(list: Seq<CardNameWithCount>, name: Seq<char>)
    ensures
        copies(list, name) <= list_size(list),
    decreases list.len(),
{
    if list.len() > 0 {
        lemma_copies_le_size(list.drop_last(), name);
    }
}

/// The number of copies of the card named `name` that `list` adds up to.
fn count_copies(list: &Vec<CardNameWithCount>, name: &String) -> (r: usize)
    requires
        list_size(list@) <= usize::MAX,
    ensures
        r == copies(list@, name@),
{
    let mut total: usize = 0;
    let mut i: usize = 0;
    while i < list.len()
        invariant
            i <= list.len(),
            list_size(list@) <= usize::MAX,
            total == copies(list@.take(i as int), name@),
        decreases list.len() - i,
    {
        assert(list@.take(i + 1).drop_last() =~= list@.take(i as int));
        proof {
            lemma_copies_prefix(list@, name@, i + 1);
        }
        if list[i].name == *name {
            total = total + list[i].count as usize;
        }
        i += 1;
    }
    assert(list@.take(list.len() as int) =~= list@);
    total
}

/// The first line of `list` naming a card not in the catalogue.
fn find_unknown(list: &Vec<CardNameWithCount>, cards: &Vec<CardRarity>) -> (r: Option<usize>)
    ensures
        r matches Some(i) ==> first_unknown(list@, cards@, 0) == Some(i as int) && i < list.len(),
        r is None ==> first_unknown(list@, cards@, 0) is None,
{
    let mut i: usize = 0;
    while i < list.len()
        invariant
            i <= list.len(),
            first_unknown(list@, cards@, 0) == first_unknown(list@, cards@, i as int),
        decreases list.len() - i,
    {
        if find_rarity(cards, &list[i].name).is_none() {
            return Some(i);
        }
        i += 1;
    }
    None
}

/// The first line of `list` whose card has more copies than its rarity
/// allows.
fn find_over_limit(list: &Vec<CardNameWithCount>, cards: &Vec<CardRarity>) -> (r: Option<(usize, usize, Rarity)>)
    requires
        list_size(list@) <= usize::MAX,
    ensures
        r matches Some((i, n, rarity)) ==> first_over_limit(list@, cards@, 0) == Some(i as int)
            && i < list.len() && n == copies(list@, list@[i as int].name@) && rarity_of(
            cards@,
            list@[i as int].name@,
        ) == Some(rarity),
        r is None ==> first_over_limit(list@, cards@, 0) is None,
        r is None ==> forall|i: int|
            0 <= i < list@.len() && (#[trigger] rarity_of(cards@, list@[i].name@)) is Some ==> copies(
                list@,
                list@[i].name@,
            ) <= match rarity_of(cards@, list@[i].name@)->0 {
                Rarity::Ordinary => 4int,
                Rarity::Exceptional => 3int,
                Rarity::Elite => 2int,
                Rarity::Unique => 1int,
            },
        r matches Some((i, n, rarity)) ==> n > match rarity {
            Rarity::Ordinary => 4int,
            Rarity::Exceptional => 3int,
            Rarity::Elite => 2int,
            Rarity::Unique => 1int,
        },
{
    let mut i: usize = 0;
    while i < list.len()
        invariant
            i <= list.len(),
            list_size(list@) <= usize::MAX,
            first_over_limit(list@, cards@, 0) == first_over_limit(list@, cards@, i as int),
        decreases list.len() - i,
    {
        match find_rarity(cards, &list[i].name) {
            Some(rarity) => {
                let n = count_copies(list, &list[i].name);
                let limit: usize = match rarity {
                    Rarity::Ordinary => 4,
                    Rarity::Exceptional => 3,
                    Rarity::Elite => 2,
                    Rarity::Unique => 1,
                };
                if n > limit {
                    return Some((i, n, rarity));
                }
            },
            None => {},
        }
        i += 1;
    }
    proof {
        assert forall|k: int|
            0 <= k < list@.len() && (#[trigger] rarity_of(cards@, list@[k].name@)) is Some implies copies(
            list@,
            list@[k].name@,
        ) <= match rarity_of(cards@, list@[k].name@)->0 {
            Rarity::Ordinary => 4int,
            Rarity::Exceptional => 3int,
            Rarity::Elite => 2int,
            Rarity::Unique => 1int,
        } by {
            lemma_first_over_limit_none(list@, cards@, 0, k);
        }
    }
    None
}

/// Appends the name of a rarity to `out`.
fn push_rarity(out: &mut String, r: Rarity)
    ensures
        final(out)@ == old(out)@ + rarity_name(r),
{
    match r {
        Rarity::Ordinary => out.append("Ordinary"),
        Rarity::Exceptional => out.append("Exceptional"),
        Rarity::Elite => out.append("Elite"),
        Rarity::Unique => out.append("Unique"),
    }
}

/// The message for too many copies of a card.
fn limit_error(name: &String, n: usize, rarity: Rarity, site: bool) -> (r: String)
    ensures
        r@ == "Too many copies of "@ + (if site {
            "site "@
        } else {
            ""@
        }) + "\""@ + name@ + "\" ("@ + decimal(n as nat) + " \u{2014} max "@ + decimal(
            copy_limit(rarity),
        ) + " for "@ + rarity_name(rarity) + ")."@,
{
    let mut msg = String::from_str("Too many copies of ");
    if site {
        msg.append("site ");
    } else {
        msg.append("");
    }
    msg.append("\"");
    msg.append(name.as_str());
    msg.append("\" (");
    push_decimal(&mut msg, n as u64);
    msg.append(" \u{2014} max ");
    let limit: u64 = match rarity {
        Rarity::Ordinary => 4,
        Rarity::Exceptional => 3,
        Rarity::Elite => 2,
        Rarity::Unique => 1,
    };
    push_decimal(&mut msg, limit);
    msg.append(" for ");
    push_rarity(&mut msg, rarity);
    msg.append(").");
    msg
}

/// A message naming a card: `prefix`, the name in quotes, and a full stop.
fn quoted_error(prefix: &str, name: &String) -> (r: String)
    ensures
        r@ == prefix@ + "\""@ + name@ + "\"."@,
{
    let mut msg = String::from_str(prefix);
    msg.append("\"");
    msg.append(name.as_str());
    msg.append("\".");
    msg
}

/// A message about a deck size: `prefix`, the size, and `")."`.
fn size_error(prefix: &str, n: usize) -> (r: String)
    ensures
        r@ == prefix@ + decimal(n as nat) + ")."@,
{
    let mut msg = String::from_str(prefix);
    push_decimal(&mut msg, n as u64);
    msg.append(").");
    msg
}

impl DeckList {
    /// Checks the deck list against the constructed-play rules: a name, a
    /// known avatar, at least 60 spellbook cards and 30 atlas sites, only
    /// known cards, and at most as many copies of a card as its rarity
    /// allows (Ordinary 4, Exceptional 3, Elite 2, Unique 1). The catalogue
    /// `cards` gives the rarity of every known card.
    pub fn validate(&self, cards: &Vec<CardRarity>) -> (r: Result<(), String>)
        requires
            list_size(self.spells@) <= usize::MAX,
            list_size(self.sites@) <= usize::MAX,
        ensures
            match r {
                Ok(()) => validation_error(*self, cards@) is None,
                Err(msg) => validation_error(*self, cards@) == Some(msg@),
            },
    {
        if self.name.unicode_len() == 0 {
            return Err(String::from_str("Deck name cannot be empty."));
        }
        if self.avatar.unicode_len() == 0 {
            return Err(String::from_str("Please select an avatar."));
        }
        if find_rarity(cards, &self.avatar).is_none() {
            return Err(quoted_error("Unknown avatar: ", &self.avatar));
        }
        let spell_count = count_cards(&self.spells);
        if spell_count < 60 {
            return Err(size_error("Spellbook needs at least 60 cards (you have ", spell_count));
        }
        let site_count = count_cards(&self.sites);
        if site_count < 30 {
            return Err(size_error("Atlas needs at least 30 sites (you have ", site_count));
        }
        if let Some(i) = find_unknown(&self.spells, cards) {
            return Err(quoted_error("Unknown card: ", &self.spells[i].name));
        }
        if let Some((i, n, rarity)) = find_over_limit(&self.spells, cards) {
            return Err(limit_error(&self.spells[i].name, n, rarity, false));
        }
        if let Some(i) = find_unknown(&self.sites, cards) {
            return Err(quoted_error("Unknown site: ", &self.sites[i].name));
        }
        if let Some((i, n, rarity)) = find_over_limit(&self.sites, cards) {
            return Err(limit_error(&self.sites[i].name, n, rarity, true));
        }
        Ok(())
    }
}


proof fn lemma_first_unknown_none(list: Seq<CardNameWithCount>, cards: Seq<CardRarity>, from: int, i: int)
    requires
        0 <= from <= i < list.len(),
        first_unknown(list, cards, from) is None,
    ensures
        rarity_of(cards, list[i].name@) is Some,
    decreases i - from,
{
    if from < i {
        lemma_first_unknown_none(list, cards, from + 1, i);
    }
}

proof fn lemma_first_over_limit_none(list: Seq<CardNameWithCount>, cards: Seq<CardRarity>, from: int, i: int)
    requires
        0 <= from <= i < list.len(),
        first_over_limit(list, cards, from) is None,
    ensures
        !over_limit(list, cards, i),
    decreases i - from,
{
    if from < i {
        lemma_first_over_limit_none(list, cards, from + 1, i);
    }
}

/// A deck list that passes validation meets the construction rules: it is
/// named, its avatar is a known card, it has at least 60 spells and 30
/// sites, every card in it is known, and it holds no more copies of a card
/// than the card's rarity allows.
pub proof fn valid_deck_lists_meet_the_rules(d: DeckList, cards: Seq<CardRarity>)
    requires
        validation_error(d, cards) is None,
    ensures
        d.name@.len() > 0,
        rarity_of(cards, d.avatar@) is Some,
        list_size(d.spells@) >= 60,
        list_size(d.sites@) >= 30,
        forall|i: int|
            0 <= i < d.spells@.len() ==> {
                &&& rarity_of(cards, #[trigger] d.spells@[i].name@) is Some
                &&& copies(d.spells@, d.spells@[i].name@) <= copy_limit(
                    rarity_of(cards, d.spells@[i].name@)->0,
                )
            },
        forall|i: int|
            0 <= i < d.sites@.len() ==> {
                &&& rarity_of(cards, #[trigger] d.sites@[i].name@) is Some
                &&& copies(d.sites@, d.sites@[i].name@) <= copy_limit(
                    rarity_of(cards, d.sites@[i].name@)->0,
                )
            },
{
    assert forall|i: int| 0 <= i < d.spells@.len() implies {
        &&& rarity_of(cards, #[trigger] d.spells@[i].name@) is Some
        &&& copies(d.spells@, d.spells@[i].name@) <= copy_limit(
            rarity_of(cards, d.spells@[i].name@)->0,
        )
    } by {
        lemma_first_unknown_none(d.spells@, cards, 0, i);
        lemma_first_over_limit_none(d.spells@, cards, 0, i);
    }
    assert forall|i: int| 0 <= i < d.sites@.len() implies {
        &&& rarity_of(cards, #[trigger] d.sites@[i].name@) is Some
        &&& copies(d.sites@, d.sites@[i].name@) <= copy_limit(
            rarity_of(cards, d.sites@[i].name@)->0,
        )
    } by {
        lemma_first_unknown_none(d.sites@, cards, 0, i);
        lemma_first_over_limit_none(d.sites@, cards, 0, i);
    }
}

proof fn lemma_all_known(list: Seq<CardNameWithCount>, cards: Seq<CardRarity>, from: int)
    requires
        0 <= from,
        forall|i: int| from <= i < list.len() ==> rarity_of(cards, #[trigger] list[i].name@) is Some,
    ensures
        first_unknown(list, cards, from) is None,
    decreases list.len() - from,
{
    if from < list.len() {
        lemma_all_known(list, cards, from + 1);
    }
}

proof fn lemma_none_over(list: Seq<CardNameWithCount>, cards: Seq<CardRarity>, from: int)
    requires
        0 <= from,
        forall|i: int| from <= i < list.len() ==> !over_limit(list, cards, i),
    ensures
        first_over_limit(list, cards, from) is None,
    decreases list.len() - from,
{
    if from < list.len() {
        lemma_none_over(list, cards, from + 1);
    }
}

/// A deck list that meets the construction rules passes validation: it is
/// named, its avatar is named and a known card, it has at least 60 spells
/// and 30 sites, every card in it is known, and it holds no more copies of
/// a card than the card's rarity allows.
pub proof fn deck_lists_meeting_the_rules_are_valid(d: DeckList, cards: Seq<CardRarity>)
    requires
        d.name@.len() > 0,
        d.avatar@.len() > 0,
        rarity_of(cards, d.avatar@) is Some,
        list_size(d.spells@) >= 60,
        list_size(d.sites@) >= 30,
        forall|i: int|
            0 <= i < d.spells@.len() ==> {
                &&& rarity_of(cards, #[trigger] d.spells@[i].name@) is Some
                &&& copies(d.spells@, d.spells@[i].name@) <= copy_limit(
                    rarity_of(cards, d.spells@[i].name@)->0,
                )
            },
        forall|i: int|
            0 <= i < d.sites@.len() ==> {
                &&& rarity_of(cards, #[trigger] d.sites@[i].name@) is Some
                &&& copies(d.sites@, d.sites@[i].name@) <= copy_limit(
                    rarity_of(cards, d.sites@[i].name@)->0,
                )
            },
    ensures
        validation_error(d, cards) is None,
{
    lemma_all_known(d.spells@, cards, 0);
    lemma_all_known(d.sites@, cards, 0);
    assert forall|i: int| 0 <= i < d.spells@.len() implies !over_limit(d.spells@, cards, i) by {
        assert(rarity_of(cards, d.spells@[i].name@) is Some);
    }
    assert forall|i: int| 0 <= i < d.sites@.len() implies !over_limit(d.sites@, cards, i) by {
        assert(rarity_of(cards, d.sites@[i].name@) is Some);
    }
    lemma_none_over(d.spells@, cards, 0);
    lemma_none_over(d.sites@, cards, 0);
}

/// A player's deck in play: the identifiers of the cards in the atlas and
/// the spellbook, the top of each pile being its last element.
#[derive(Debug, Clone)]
pub struct Deck {
    pub name: String,
    pub player_id: PlayerId,
    pub sites: Vec<uuid::Uuid>,
    pub spells: Vec<uuid::Uuid>,
    pub avatar: uuid::Uuid,
}

/// `s` with its last element moved to the front.
pub open spec fn rotate_once<A>(s: Seq<A>) -> Seq<A> {
    if s.len() == 0 {
        s
    } else {
        seq![s.last()] + s.drop_last()
    }
}

/// `s` with its last element moved to the front `k` times.
pub open spec fn rotated<A>(s: Seq<A>, k: nat) -> Seq<A>
    decreases k,
{
    if k == 0 {
        s
    } else {
        rotate_once(rotated(s, (k - 1) as nat))
    }
}

/// Shuffles `ids` in place.
///
/// Calls `rand::seq::SliceRandom::shuffle` with the thread's random number
/// generator (`rand::rng()`). The crate's source shuffles by swapping
/// elements (Fisher–Yates), so the result is a permutation of the input;
/// which permutation is left unsaid, as it is random.
#[verifier::external_body]
fn shuffle_ids(ids: &mut Vec<uuid::Uuid>)
    ensures
        final(ids)@.to_multiset() == old(ids)@.to_multiset(),
{
    ids.shuffle(&mut rand::rng());
}

/// Moves the last element of `v` to the front `count` times.
fn rotate_ids(v: &mut Vec<uuid::Uuid>, count: usize)
    ensures
        final(v)@ == rotated(old(v)@, count as nat),
{
    let mut k: usize = 0;
    while k < count
        invariant
            k <= count,
            v@ == rotated(old(v)@, k as nat),
        decreases count - k,
    {
        let ghost before = v@;
        if let Some(last) = v.pop() {
            v.insert(0, last);
            assert(v@ =~= seq![before.last()] + before.drop_last());
        }
        k += 1;
    }
}

impl Deck {
    /// A deck of the given piles.
    pub fn new(
        player_id: &PlayerId,
        name: String,
        sites: Vec<uuid::Uuid>,
        spells: Vec<uuid::Uuid>,
        avatar: uuid::Uuid,
    ) -> (r: Self)
        ensures
            r.name@ == name@,
            r.player_id == *player_id,
            r.sites@ == sites@,
            r.spells@ == spells@,
            r.avatar == avatar,
    {
        Deck { name, player_id: *player_id, sites, spells, avatar }
    }

    /// The top site of the atlas.
    pub fn peek_site(&self) -> (r: Option<&uuid::Uuid>)
        ensures
            r == (if self.sites@.len() > 0 {
                Some(&self.sites@.last())
            } else {
                None
            }),
    {
        if self.sites.len() > 0 {
            Some(&self.sites[self.sites.len() - 1])
        } else {
            None
        }
    }

    /// The top spell of the spellbook.
    pub fn peek_spell(&self) -> (r: Option<&uuid::Uuid>)
        ensures
            r == (if self.spells@.len() > 0 {
                Some(&self.spells@.last())
            } else {
                None
            }),
    {
        if self.spells.len() > 0 {
            Some(&self.spells[self.spells.len() - 1])
        } else {
            None
        }
    }

    /// Shuffles the atlas and the spellbook.
    pub fn shuffle(&mut self)
        ensures
            final(self).sites@.to_multiset() == old(self).sites@.to_multiset(),
            final(self).spells@.to_multiset() == old(self).spells@.to_multiset(),
            final(self).name == old(self).name,
            final(self).player_id == old(self).player_id,
            final(self).avatar == old(self).avatar,
    {
        shuffle_ids(&mut self.sites);
        shuffle_ids(&mut self.spells);
    }

    /// Moves the top site to the bottom of the atlas `count` times.
    pub fn rotate_sites(&mut self, count: usize)
        ensures
            final(self).sites@ == rotated(old(self).sites@, count as nat),
            final(self).spells == old(self).spells,
            final(self).name == old(self).name,
            final(self).player_id == old(self).player_id,
            final(self).avatar == old(self).avatar,
    {
        rotate_ids(&mut self.sites, count);
    }

    /// Moves the top spell to the bottom of the spellbook `count` times.
    pub fn rotate_spells(&mut self, count: usize)
        ensures
            final(self).spells@ == rotated(old(self).spells@, count as nat),
            final(self).sites == old(self).sites,
            final(self).name == old(self).name,
            final(self).player_id == old(self).player_id,
            final(self).avatar == old(self).avatar,
    {
        rotate_ids(&mut self.spells, count);
    }
}

proof fn lemma_rotated_closed_form<A>(s: Seq<A>, k: nat)
    requires
        k <= s.len(),
    ensures
        rotated(s, k) == s.subrange(s.len() - k, s.len() as int) + s.subrange(0, s.len() - k),
    decreases k,
{
    let n = s.len() as int;
    if k == 0 {
        assert(s.subrange(n, n) + s.subrange(0, n) =~= s);
    } else {
        lemma_rotated_closed_form(s, (k - 1) as nat);
        let prev = s.subrange(n - (k - 1), n) + s.subrange(0, n - (k - 1));
        assert(prev.last() == s[n - k]);
        assert(prev.drop_last() =~= s.subrange(n - (k - 1), n) + s.subrange(0, n - k));
        assert(seq![s[n - k]] + prev.drop_last() =~= s.subrange(n - k, n) + s.subrange(0, n - k));
    }
}

proof fn lemma_rotated_split<A>(s: Seq<A>, a: nat, b: nat)
    ensures
        rotated(s, a + b) == rotated(rotated(s, a), b),
    decreases b,
{
    if b > 0 {
        lemma_rotated_split(s, a, (b - 1) as nat);
        assert((a + b - 1) as nat == a + (b - 1) as nat);
    }
}

/// Rotating a pile as many times as it has cards gives it back, so
/// rotating is periodic in the pile's size.
pub proof fn rotation_is_periodic<A>(s: Seq<A>, k: nat)
    ensures
        rotated(s, s.len()) == s,
        rotated(s, k + s.len()) == rotated(s, k),
{
    lemma_rotated_closed_form(s, s.len());
    assert(s.subrange(0, s.len() as int) + s.subrange(0, 0) =~= s);
    lemma_rotated_split(s, s.len(), k);
    assert(k + s.len() == s.len() + k);
}

/// A deck list that passes validation holds, of every card it names, at
/// most four copies of an Ordinary card, three of an Exceptional one, two
/// of an Elite one and one of a Unique one, in its spellbook and in its
/// atlas alike.
pub proof fn copies_stay_within_the_rarity_limits(d: DeckList, cards: Seq<CardRarity>)
    requires
        validation_error(d, cards) is None,
    ensures
        forall|i: int|
            0 <= i < d.spells@.len() ==> copies(d.spells@, (#[trigger] d.spells@[i]).name@) <= match rarity_of(
                cards,
                d.spells@[i].name@,
            )->0 {
                Rarity::Ordinary => 4int,
                Rarity::Exceptional => 3int,
                Rarity::Elite => 2int,
                Rarity::Unique => 1int,
            },
        forall|i: int|
            0 <= i < d.sites@.len() ==> copies(d.sites@, (#[trigger] d.sites@[i]).name@) <= match rarity_of(
                cards,
                d.sites@[i].name@,
            )->0 {
                Rarity::Ordinary => 4int,
                Rarity::Exceptional => 3int,
                Rarity::Elite => 2int,
                Rarity::Unique => 1int,
            },
{
    valid_deck_lists_meet_the_rules(d, cards);
    assert forall|i: int| 0 <= i < d.spells@.len() implies copies(d.spells@, (#[trigger] d.spells@[i]).name@)
        <= match rarity_of(cards, d.spells@[i].name@)->0 {
        Rarity::Ordinary => 4int,
        Rarity::Exceptional => 3int,
        Rarity::Elite => 2int,
        Rarity::Unique => 1int,
    } by {
        assert(rarity_of(cards, d.spells@[i].name@) is Some);
    }
    assert forall|i: int| 0 <= i < d.sites@.len() implies copies(d.sites@, (#[trigger] d.sites@[i]).name@)
        <= match rarity_of(cards, d.sites@[i].name@)->0 {
        Rarity::Ordinary => 4int,
        Rarity::Exceptional => 3int,
        Rarity::Elite => 2int,
        Rarity::Unique => 1int,
    } by {
        assert(rarity_of(cards, d.sites@[i].name@) is Some);
    }
}

} // verus!
