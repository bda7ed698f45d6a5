//! Card attributes that the rules logic reads.

use vstd::prelude::*;
use vstd::std_specs::cmp::PartialEqSpecImpl;

verus! {

/// The region of the realm that a location lies in.
#[derive(Debug, Clone, Copy, Eq, Hash)]
pub enum Region {
    Surface,
    Underground,
    Underwater,
    Void,
}

/// Two values are equal when they are the same variant.
impl PartialEq for Region {
    fn eq(&self, other: &Region) -> (r: bool) {
        match (self, other) {
            (Region::Surface, Region::Surface) => true,
            (Region::Underground, Region::Underground) => true,
            (Region::Underwater, Region::Underwater) => true,
            (Region::Void, Region::Void) => true,
            _ => false,
        }
    }
}

impl PartialEqSpecImpl for Region {
    open spec fn obeys_eq_spec() -> bool {
        true
    }

    open spec fn eq_spec(&self, other: &Region) -> bool {
        *self == *other
    }
}


/// A keyword ability a card can have.
#[derive(Debug, Clone, Copy, Eq, Hash)]
pub enum Ability {
    Airborne,
    Burrowing,
    CannotDefend,
    CarryMinions(u8),
    Charge,
    FirstStrike,
    Flooded,
    Immobile,
    Lethal,
    LethalTarget,
    Lifesteal,
    Movement(u8),
    Ranged(u8),
    SplashDamage,
    Stealth,
    Submerge,
    Uninterceptable,
    Voidwalk,
}

/// Two abilities are equal when they are the same ability with the same
/// value.
impl PartialEq for Ability {
    fn eq(&self, other: &Ability) -> (r: bool) {
        match (self, other) {
            (Ability::Airborne, Ability::Airborne) => true,
            (Ability::Burrowing, Ability::Burrowing) => true,
            (Ability::CannotDefend, Ability::CannotDefend) => true,
            (Ability::Charge, Ability::Charge) => true,
            (Ability::FirstStrike, Ability::FirstStrike) => true,
            (Ability::Flooded, Ability::Flooded) => true,
            (Ability::Immobile, Ability::Immobile) => true,
            (Ability::Lethal, Ability::Lethal) => true,
            (Ability::LethalTarget, Ability::LethalTarget) => true,
            (Ability::Lifesteal, Ability::Lifesteal) => true,
            (Ability::SplashDamage, Ability::SplashDamage) => true,
            (Ability::Stealth, Ability::Stealth) => true,
            (Ability::Submerge, Ability::Submerge) => true,
            (Ability::Uninterceptable, Ability::Uninterceptable) => true,
            (Ability::Voidwalk, Ability::Voidwalk) => true,
            (Ability::CarryMinions(a), Ability::CarryMinions(b)) => *a == *b,
            (Ability::Movement(a), Ability::Movement(b)) => *a == *b,
            (Ability::Ranged(a), Ability::Ranged(b)) => *a == *b,
            _ => false,
        }
    }
}

impl PartialEqSpecImpl for Ability {
    open spec fn obeys_eq_spec() -> bool {
        true
    }

    open spec fn eq_spec(&self, other: &Ability) -> bool {
        *self == *other
    }
}

/// Whether an ability is printed on, or granted to, a card, and so is lost
/// when a card loses all its abilities. Every keyword ability is.
pub open spec fn card_ability(a: Ability) -> bool {
    true
}

/// Whether an ability is lost when a card is silenced. Every keyword
/// ability is, the negative ones (`Immobile`, `CannotDefend`) included.
pub open spec fn special_ability(a: Ability) -> bool {
    true
}

impl Ability {
    /// Whether this ability is lost when the card loses all its abilities.
    pub fn is_card_ability(&self) -> (r: bool)
        ensures
            r == card_ability(*self),
    {
        true
    }

    /// Whether this ability is lost when the card is silenced.
    pub fn is_special_ability(&self) -> (r: bool)
        ensures
            r == special_ability(*self),
    {
        true
    }
}

/// A status that an ongoing effect can put on a card. A disabled or
/// silenced card is no longer the source of any continuous effect.
#[derive(Debug, Clone, Copy, Eq, Hash)]
pub enum CardStatus {
    Disabled,
    Silenced,
    SummoningSickness,
}

/// Two statuses are equal when they are the same status.
impl PartialEq for CardStatus {
    fn eq(&self, other: &CardStatus) -> (r: bool) {
        match (self, other) {
            (CardStatus::Disabled, CardStatus::Disabled) => true,
            (CardStatus::Silenced, CardStatus::Silenced) => true,
            (CardStatus::SummoningSickness, CardStatus::SummoningSickness) => true,
            _ => false,
        }
    }
}

impl PartialEqSpecImpl for CardStatus {
    open spec fn obeys_eq_spec() -> bool {
        true
    }

    open spec fn eq_spec(&self, other: &CardStatus) -> bool {
        *self == *other
    }
}

/// The kind of a card.
#[derive(Debug, Clone, Copy, Eq, Hash)]
pub enum CardType {
    Avatar,
    Site,
    Minion,
    Magic,
    Aura,
    Artifact,
}

/// Two values are equal when they are the same variant.
impl PartialEq for CardType {
    fn eq(&self, other: &CardType) -> (r: bool) {
        match (self, other) {
            (CardType::Avatar, CardType::Avatar) => true,
            (CardType::Site, CardType::Site) => true,
            (CardType::Minion, CardType::Minion) => true,
            (CardType::Magic, CardType::Magic) => true,
            (CardType::Aura, CardType::Aura) => true,
            (CardType::Artifact, CardType::Artifact) => true,
            _ => false,
        }
    }
}

impl PartialEqSpecImpl for CardType {
    open spec fn obeys_eq_spec() -> bool {
        true
    }

    open spec fn eq_spec(&self, other: &CardType) -> bool {
        *self == *other
    }
}

/// How rare a card is, which bounds how many copies a deck may hold.
#[derive(Debug, Clone, Copy, PartialEq, Eq, Hash, Structural)]
pub enum Rarity {
    Ordinary,
    Exceptional,
    Elite,
    Unique,
}


} // verus!
