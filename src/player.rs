use crate::outside::{choose_from, random_below, shuffle};
use rand_isaac::Isaac64Rng;
use vstd::prelude::*;

verus! {

#[derive(Clone, Copy, PartialEq, Eq, Debug, Hash, Structural)]
pub enum Attack {
    Hit(u32),
    Cleave(u32),
    Skewer(u32),
    Miss,
}

/// Damage of the attack used when the attack deck is empty.
pub const EMPTY_ATTACK_DAMAGE: u32 = 4;

/// The attack used when the attack deck is empty.
pub fn empty_attack() -> (r: Attack)
    ensures
        r == Attack::Hit(EMPTY_ATTACK_DAMAGE),
{
    Attack::Hit(EMPTY_ATTACK_DAMAGE)
}

#[derive(Clone, Copy, PartialEq, Eq, Debug, Hash, Structural)]
pub enum Defend {
    Armour(u32),
    Dodge,
    Teleport,
    Revenge,
    SkipAttack,
}

#[derive(Clone, Copy, PartialEq, Eq, Debug, Hash, Structural)]
pub enum Tech {
    Blink,
    CritNext,
    Attract,
    Repel,
    MissNext,
    TeleportNext,
    Skip,
}

#[derive(Clone, Copy, PartialEq, Eq, Debug, Hash, Structural)]
pub enum AbilityTarget {
    Attack,
    Defend,
    Tech,
}

#[derive(Clone, Copy, PartialEq, Eq, Debug, Hash, Structural)]
pub enum Ability {
    Stash(AbilityTarget),
    SwapTop2(AbilityTarget),
}

impl Ability {
    /// Every ability: stash, then swap-top-two, each on attack, defend and tech.
    pub fn all() -> (r: Vec<Ability>)
        ensures
            r@ == seq![
                Ability::Stash(AbilityTarget::Attack),
                Ability::Stash(AbilityTarget::Defend),
                Ability::Stash(AbilityTarget::Tech),
                Ability::SwapTop2(AbilityTarget::Attack),
                Ability::SwapTop2(AbilityTarget::Defend),
                Ability::SwapTop2(AbilityTarget::Tech),
            ],
    {
        let r = vec![
            Ability::Stash(AbilityTarget::Attack),
            Ability::Stash(AbilityTarget::Defend),
            Ability::Stash(AbilityTarget::Tech),
            Ability::SwapTop2(AbilityTarget::Attack),
            Ability::SwapTop2(AbilityTarget::Defend),
            Ability::SwapTop2(AbilityTarget::Tech),
        ];
        assert(r@ =~= seq![
            Ability::Stash(AbilityTarget::Attack),
            Ability::Stash(AbilityTarget::Defend),
            Ability::Stash(AbilityTarget::Tech),
            Ability::SwapTop2(AbilityTarget::Attack),
            Ability::SwapTop2(AbilityTarget::Defend),
            Ability::SwapTop2(AbilityTarget::Tech),
        ]);
        r
    }
}

impl Tech {
    /// Only blink needs a target chosen by the player.
    pub fn requires_aim(self) -> (r: bool)
        ensures
            r == (self == Tech::Blink),
    {
        match self {
            Tech::Blink => true,
            Tech::CritNext => false,
            Tech::Attract => false,
            Tech::Repel => false,
            Tech::MissNext => false,
            Tech::TeleportNext => false,
            Tech::Skip => false,
        }
    }
}

/// A bounded stack of cards; the last item is the top.
pub struct Deck<T> {
    items: Vec<T>,
    max_size: usize,
}

#[derive(Clone, Copy, PartialEq, Eq, Debug, Structural)]
pub struct DeckIsFull;

#[derive(Clone, Copy, PartialEq, Eq, Debug, Structural)]
pub struct NotEnoughCards;

impl<T> View for Deck<T> {
    type V = Seq<T>;

    /// The cards from bottom to top.
    closed spec fn view(&self) -> Seq<T> {
        self.items@
    }
}

impl<T> Deck<T> {
    pub closed spec fn capacity(&self) -> nat {
        self.max_size as nat
    }

    /// The deck never holds more cards than its capacity.
    pub open spec fn wf(&self) -> bool {
        self@.len() <= self.capacity()
    }

    /// An empty deck that holds at most `max_size` cards.
    pub fn new(max_size: usize) -> (r: Self)
        ensures
            r@ == Seq::<T>::empty(),
            r.capacity() == max_size,
            r.wf(),
    {
        Deck { items: Vec::new(), max_size }
    }

    pub fn len(&self) -> (r: usize)
        ensures
            r == self@.len(),
    {
        self.items.len()
    }

    pub fn is_full(&self) -> (r: bool)
        ensures
            r == (self@.len() == self.capacity()),
    {
        self.len() == self.max_size
    }

    pub fn max_size(&self) -> (r: usize)
        ensures
            r == self.capacity(),
    {
        self.max_size
    }

    /// Takes the top card.
    pub fn pop(&mut self) -> (r: Option<T>)
        ensures
            old(self)@.len() > 0 ==> r == Some(old(self)@.last()) && final(self)@
                == old(self)@.drop_last(),
            old(self)@.len() == 0 ==> r is None && final(self)@ == old(self)@,
            final(self).capacity() == old(self).capacity(),
    {
        let r = self.items.pop();
        proof {
            if old(self)@.len() > 0 {
                assert(self.items@ =~= old(self)@.drop_last());
            }
        }
        r
    }

    /// The top card.
    pub fn peek(&self) -> (r: Option<&T>)
        ensures
            self@.len() > 0 ==> r == Some(&self@.last()),
            self@.len() == 0 ==> r is None,
    {
        let n = self.items.len();
        if n == 0 {
            None
        } else {
            Some(&self.items[n - 1])
        }
    }

    /// Puts a card on top, unless the deck is full.
    pub fn push(&mut self, item: T) -> (r: Result<(), DeckIsFull>)
        ensures
            r is Ok == (old(self)@.len() < old(self).capacity()),
            r is Ok ==> final(self)@ == old(self)@.push(item),
            r is Err ==> final(self)@ == old(self)@,
            final(self).capacity() == old(self).capacity(),
    {
        if self.items.len() < self.max_size {
            self.items.push(item);
            Ok(())
        } else {
            Err(DeckIsFull)
        }
    }

    /// Swaps the two top cards.
    pub fn swap_top_2(&mut self) -> (r: Result<(), NotEnoughCards>)
        ensures
            r is Ok == (old(self)@.len() >= 2),
            r is Ok ==> final(self)@ == old(self)@.drop_last().drop_last().push(old(self)@.last()).push(
                old(self)@[old(self)@.len() - 2],
            ),
            r is Err ==> final(self)@ == old(self)@,
            final(self).capacity() == old(self).capacity(),
    {
        if self.items.len() < 2 {
            return Err(NotEnoughCards);
        }
        let top = self.items.pop().unwrap();
        let second = self.items.pop().unwrap();
        self.items.push(top);
        self.items.push(second);
        proof {
            assert(self.items@ =~= old(self)@.drop_last().drop_last().push(old(self)@.last()).push(
                old(self)@[old(self)@.len() - 2],
            ));
        }
        Ok(())
    }

    /// Moves the top card to the bottom.
    pub fn stash(&mut self) -> (r: Result<(), NotEnoughCards>)
        ensures
            r is Ok == (old(self)@.len() >= 2),
            r is Ok ==> final(self)@ == seq![old(self)@.last()] + old(self)@.drop_last(),
            r is Err ==> final(self)@ == old(self)@,
            final(self).capacity() == old(self).capacity(),
    {
        if self.items.len() < 2 {
            return Err(NotEnoughCards);
        }
        let top = self.items.pop().unwrap();
        self.items.insert(0, top);
        proof {
            assert(self.items@ =~= seq![old(self)@.last()] + old(self)@.drop_last());
        }
        Ok(())
    }

    /// Slips a card in at a random depth, unless the deck is full.
    pub fn insert_random(&mut self, item: T, rng: &mut Isaac64Rng) -> (r: Result<(), DeckIsFull>)
        requires
            old(self).wf(),
        ensures
            r is Ok == (old(self)@.len() != old(self).capacity()),
            r is Ok ==> exists|k: int|
                0 <= k <= old(self)@.len() && final(self)@ == old(self)@.insert(k, item),
            r is Err ==> final(self)@ == old(self)@,
            final(self).capacity() == old(self).capacity(),
    {
        if self.items.len() == self.max_size {
            return Err(DeckIsFull);
        }
        let n = self.items.len();
        let index = random_below(rng, 0, n + 1);
        self.items.insert(index, item);
        assert(self@ == old(self)@.insert(index as int, item));
        Ok(())
    }
}

impl<T: Copy> Deck<T> {
    /// The cards from top to bottom.
    pub fn iter(&self) -> (r: Vec<T>)
        ensures
            r@ == self@.reverse(),
    {
        let n = self.items.len();
        let mut out: Vec<T> = Vec::new();
        let mut k: usize = 0;
        while k < n
            invariant
                n == self@.len(),
                k <= n,
                out@.len() == k,
                forall|q: int| 0 <= q < k ==> #[trigger] out@[q] == self@[n - 1 - q],
            decreases n - k,
        {
            out.push(self.items[n - 1 - k]);
            k = k + 1;
        }
        assert(out@ =~= self@.reverse());
        out
    }
}

/// The abilities a player has, in the order gained, up to a bound.
pub struct AbilityTable {
    abilities: Vec<Ability>,
    max_size: usize,
}

impl View for AbilityTable {
    type V = Seq<Ability>;

    closed spec fn view(&self) -> Seq<Ability> {
        self.abilities@
    }
}

impl AbilityTable {
    pub closed spec fn capacity(&self) -> nat {
        self.max_size as nat
    }

    /// An empty table that holds at most `max_size` abilities.
    pub fn new(max_size: usize) -> (r: Self)
        ensures
            r@ == Seq::<Ability>::empty(),
            r.capacity() == max_size,
    {
        AbilityTable { abilities: Vec::new(), max_size }
    }

    /// The abilities in the order gained.
    pub fn iter(&self) -> (r: Vec<Ability>)
        ensures
            r@ == self@,
    {
        let mut out: Vec<Ability> = Vec::new();
        let mut k: usize = 0;
        while k < self.abilities.len()
            invariant
                k <= self@.len(),
                out@ == self@.take(k as int),
            decreases self@.len() - k,
        {
            out.push(self.abilities[k]);
            k = k + 1;
            assert(out@ =~= self@.take(k as int));
        }
        assert(self@.take(self@.len() as int) =~= self@);
        out
    }

    pub fn len(&self) -> (r: usize)
        ensures
            r == self@.len(),
    {
        self.abilities.len()
    }

    pub fn max_size(&self) -> (r: usize)
        ensures
            r == self.capacity(),
    {
        self.max_size
    }

    pub fn get(&self, index: usize) -> (r: Option<Ability>)
        ensures
            index < self@.len() ==> r == Some(self@[index as int]),
            index >= self@.len() ==> r is None,
    {
        if index < self.abilities.len() {
            Some(self.abilities[index])
        } else {
            None
        }
    }

    /// Adds an ability, unless the table is full.
    pub fn push(&mut self, item: Ability) -> (r: Result<(), DeckIsFull>)
        ensures
            r is Ok == (old(self)@.len() < old(self).capacity()),
            r is Ok ==> final(self)@ == old(self)@.push(item),
            r is Err ==> final(self)@ == old(self)@,
            final(self).capacity() == old(self).capacity(),
    {
        if self.abilities.len() < self.max_size {
            self.abilities.push(item);
            Ok(())
        } else {
            Err(DeckIsFull)
        }
    }
}

/// The player's three decks and ability table.
pub struct Player {
    pub attack: Deck<Attack>,
    pub defend: Deck<Defend>,
    pub tech: Deck<Tech>,
    pub ability: AbilityTable,
}

fn rev<T>(vec: Vec<T>) -> (r: Vec<T>)
    ensures
        r@ == vec@.reverse(),
{
    let mut vec = vec;
    let ghost v0 = vec@;
    let mut out: Vec<T> = Vec::new();
    while vec.len() > 0
        invariant
            vec@ == v0.take(vec@.len() as int),
            vec@.len() <= v0.len(),
            out@ == v0.skip(vec@.len() as int).reverse(),
        decreases vec@.len(),
    {
        let ghost before = vec@;
        let x = vec.pop().unwrap();
        out.push(x);
        proof {
            assert(vec@ =~= v0.take(vec@.len() as int));
            assert(out@ =~= v0.skip(vec@.len() as int).reverse());
        }
    }
    assert(v0.skip(0) =~= v0);
    out
}

/// A draw in `lo..hi`, where both bounds fit in a `u32`.
fn draw(rng: &mut Isaac64Rng, lo: u32, hi: u32) -> (r: u32)
    requires
        lo < hi,
    ensures
        lo <= r < hi,
{
    random_below(rng, lo as usize, hi as usize) as u32
}

impl Player {
    /// A new player: attack and defend decks with random strengths, a
    /// shuffled tech deck, and two stash abilities.
    pub fn new(rng: &mut Isaac64Rng) -> (r: Self)
        ensures
            r.attack@.len() == 8,
            r.attack.capacity() == 16,
            r.defend@.len() == 10,
            r.defend.capacity() == 16,
            r.tech@.len() == 6,
            r.tech.capacity() == 8,
            r.ability@ == seq![
                Ability::Stash(AbilityTarget::Attack),
                Ability::Stash(AbilityTarget::Defend),
            ],
            r.ability.capacity() == 8,
    {
        let attack = vec![
            Attack::Hit(draw(rng, 4, 10)),
            Attack::Hit(draw(rng, 4, 10)),
            Attack::Hit(draw(rng, 4, 10)),
            Attack::Cleave(draw(rng, 4, 10)),
            Attack::Hit(draw(rng, 8, 20)),
            Attack::Hit(draw(rng, 8, 20)),
            Attack::Hit(draw(rng, 12, 30)),
            Attack::Hit(draw(rng, 12, 30)),
        ];
        let defend = vec![
            Defend::Armour(draw(rng, 1, 2)),
            Defend::Armour(draw(rng, 1, 2)),
            Defend::Armour(draw(rng, 1, 2)),
            Defend::Dodge,
            Defend::Armour(draw(rng, 1, 3)),
            Defend::Armour(draw(rng, 1, 3)),
            Defend::Armour(draw(rng, 1, 3)),
            Defend::Teleport,
            Defend::Armour(draw(rng, 2, 5)),
            Defend::Armour(draw(rng, 2, 5)),
        ];
        let mut tech = vec![
            Tech::Attract,
            Tech::Repel,
            Tech::Repel,
            Tech::Blink,
            Tech::Blink,
            Tech::Blink,
        ];
        shuffle(&mut tech, rng);
        let abilities = vec![
            Ability::Stash(AbilityTarget::Attack),
            Ability::Stash(AbilityTarget::Defend),
        ];
        let r = Player {
            attack: Deck { items: rev(attack), max_size: 16 },
            defend: Deck { items: rev(defend), max_size: 16 },
            tech: Deck { items: tech, max_size: 8 },
            ability: AbilityTable { abilities, max_size: 8 },
        };
        assert(r.ability@ =~= seq![
            Ability::Stash(AbilityTarget::Attack),
            Ability::Stash(AbilityTarget::Defend),
        ]);
        r
    }
}

/// What an item or a curse gives: a card for one of the three decks.
#[derive(Clone, Copy, PartialEq, Eq, Debug, Structural)]
pub enum Outcome {
    Attack(Attack),
    Defend(Defend),
    Tech(Tech),
}

/// `x` lies in `lo..hi`.
pub open spec fn within(x: u32, lo: int, hi: int) -> bool {
    lo <= x < hi
}

/// An attack card of the given level: a special one is a 99-point hit, or
/// a cleave or skewer of 6 to 9 times the level plus one; a plain one is a
/// hit of 4 to 7, or a cleave or skewer of 3 to 6, times the level plus one.
pub fn choose_attack(level: u32, special: bool, rng: &mut Isaac64Rng) -> (r: Attack)
    requires
        (level + 1) * 9 <= u32::MAX,
    ensures
        special ==> r == Attack::Hit(99) || (r matches Attack::Cleave(x) && within(
            x,
            (level + 1) * 6,
            (level + 1) * 9,
        )) || (r matches Attack::Skewer(x) && within(x, (level + 1) * 6, (level + 1) * 9)),
        !special ==> (r matches Attack::Hit(x) && within(x, (level + 1) * 4, (level + 1) * 7)) || (
        r matches Attack::Cleave(x) && within(x, (level + 1) * 3, (level + 1) * 6)) || (
        r matches Attack::Skewer(x) && within(x, (level + 1) * 3, (level + 1) * 6)),
{
    let l = level + 1;
    if special {
        let kind = random_below(rng, 0, 3);
        if kind == 0 {
            Attack::Hit(99)
        } else if kind == 1 {
            Attack::Cleave(draw(rng, l * 6, l * 9))
        } else {
            Attack::Skewer(draw(rng, l * 6, l * 9))
        }
    } else {
        let kind = random_below(rng, 0, 3);
        if kind == 0 {
            Attack::Hit(draw(rng, l * 4, l * 7))
        } else if kind == 1 {
            Attack::Cleave(draw(rng, l * 3, l * 6))
        } else {
            Attack::Skewer(draw(rng, l * 3, l * 6))
        }
    }
}

/// A defend card of the given level: a special one is revenge or armour of
/// 2 to 3 times the level plus one; a plain one is teleport, dodge, armour
/// of the level plus one, or armour of 1 to 2 times the level plus one.
pub fn choose_defend(level: u32, special: bool, rng: &mut Isaac64Rng) -> (r: Defend)
    requires
        (level + 1) * 3 <= u32::MAX,
    ensures
        special ==> r == Defend::Revenge || (r matches Defend::Armour(x) && within(
            x,
            (level + 1) * 2,
            (level + 1) * 3,
        )),
        !special ==> r == Defend::Teleport || r == Defend::Dodge || r == Defend::Armour(
            (level + 1) as u32,
        ) || (r matches Defend::Armour(x) && within(x, level + 1, (level + 1) * 2)),
{
    let l = level + 1;
    if special {
        let kind = random_below(rng, 0, 2);
        if kind == 0 {
            Defend::Revenge
        } else {
            Defend::Armour(draw(rng, l * 2, l * 3))
        }
    } else {
        let kind = random_below(rng, 0, 4);
        if kind == 0 {
            Defend::Teleport
        } else if kind == 1 {
            Defend::Dodge
        } else if kind == 2 {
            Defend::Armour(l)
        } else {
            Defend::Armour(draw(rng, l, l * 2))
        }
    }
}

/// A tech card: blink when special, else blink, repel or attract, weighted
/// three to two to one.
pub fn choose_tech(level: u32, special: bool, rng: &mut Isaac64Rng) -> (r: Tech)
    ensures
        special ==> r == Tech::Blink,
        !special ==> r == Tech::Blink || r == Tech::Repel || r == Tech::Attract,
{
    if special {
        Tech::Blink
    } else {
        let techs = vec![Tech::Blink, Tech::Blink, Tech::Blink, Tech::Repel, Tech::Repel, Tech::Attract];
        choose_from(&techs, 0, rng).unwrap()
    }
}

pub fn choose_attack_upgrade(level: u32, rng: &mut Isaac64Rng) -> (r: Attack)
    ensures
        r == Attack::Hit(30) || r == Attack::Hit(20) || r == Attack::Cleave(10) || r
            == Attack::Skewer(10),
{
    let options = vec![Attack::Hit(30), Attack::Hit(20), Attack::Cleave(10), Attack::Skewer(10)];
    choose_from(&options, 0, rng).unwrap()
}

pub fn choose_defend_upgrade(level: u32, rng: &mut Isaac64Rng) -> (r: Defend)
    ensures
        r == Defend::Dodge || r == Defend::Teleport || r == Defend::Revenge,
{
    let options = vec![Defend::Dodge, Defend::Teleport, Defend::Revenge];
    choose_from(&options, 0, rng).unwrap()
}

pub fn choose_tech_upgrade(level: u32, rng: &mut Isaac64Rng) -> (r: Tech)
    ensures
        r != Tech::MissNext,
{
    let options = vec![
        Tech::Blink,
        Tech::CritNext,
        Tech::Attract,
        Tech::Repel,
        Tech::TeleportNext,
        Tech::Skip,
    ];
    choose_from(&options, 0, rng).unwrap()
}

/// A curse: a missed attack, a skipped defence, or a missed next tech.
pub fn choose_curse(rng: &mut Isaac64Rng) -> (r: Outcome)
    ensures
        r == Outcome::Attack(Attack::Miss) || r == Outcome::Defend(Defend::SkipAttack) || r
            == Outcome::Tech(Tech::MissNext),
{
    let options = vec![
        Outcome::Attack(Attack::Miss),
        Outcome::Defend(Defend::SkipAttack),
        Outcome::Tech(Tech::MissNext),
    ];
    choose_from(&options, 0, rng).unwrap()
}

} // verus!
