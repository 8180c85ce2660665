use rand::SeedableRng;
use rand_isaac::Isaac64Rng;
use sewer_gen::blink::Blink;
use sewer_gen::data::{CollidesWith, HitPoints, MoveHalfSpeed};
use sewer_gen::player::{
    choose_attack, choose_attack_upgrade, choose_curse, choose_defend, choose_defend_upgrade,
    choose_tech, choose_tech_upgrade, empty_attack, Ability, AbilityTable, AbilityTarget, Attack,
    Deck, DeckIsFull, Defend, NotEnoughCards, Outcome, Player, Tech,
};

#[test]
fn deck_push_until_full() {
    let mut d: Deck<u32> = Deck::new(3);
    assert_eq!(d.max_size(), 3);
    assert!(d.push(1).is_ok());
    assert!(d.push(2).is_ok());
    assert!(!d.is_full());
    assert!(d.push(3).is_ok());
    assert!(d.is_full());
    assert_eq!(d.push(4), Err(DeckIsFull));
    assert_eq!(d.len(), 3);
    assert_eq!(d.iter(), vec![3, 2, 1]);
}

#[test]
fn deck_pop_and_peek_take_the_top() {
    let mut d: Deck<u32> = Deck::new(4);
    assert_eq!(d.peek(), None);
    assert_eq!(d.pop(), None);
    d.push(5).unwrap();
    d.push(6).unwrap();
    assert_eq!(d.peek(), Some(&6));
    assert_eq!(d.pop(), Some(6));
    assert_eq!(d.pop(), Some(5));
    assert_eq!(d.len(), 0);
}

#[test]
fn deck_swap_and_stash() {
    let mut d: Deck<u32> = Deck::new(4);
    d.push(1).unwrap();
    assert_eq!(d.swap_top_2(), Err(NotEnoughCards));
    assert_eq!(d.stash(), Err(NotEnoughCards));
    d.push(2).unwrap();
    d.push(3).unwrap();
    assert_eq!(d.swap_top_2(), Ok(()));
    assert_eq!(d.iter(), vec![2, 3, 1]);
    assert_eq!(d.stash(), Ok(()));
    assert_eq!(d.iter(), vec![3, 1, 2]);
}

#[test]
fn deck_insert_random_keeps_cards() {
    let mut rng = Isaac64Rng::seed_from_u64(1);
    let mut d: Deck<u32> = Deck::new(3);
    d.push(1).unwrap();
    d.push(2).unwrap();
    assert_eq!(d.insert_random(9, &mut rng), Ok(()));
    let mut cards = d.iter();
    assert!(cards.contains(&9));
    cards.sort();
    assert_eq!(cards, vec![1, 2, 9]);
    assert_eq!(d.insert_random(7, &mut rng), Err(DeckIsFull));
}

#[test]
fn ability_table_bounds() {
    let mut t = AbilityTable::new(1);
    assert_eq!(t.max_size(), 1);
    assert_eq!(t.push(Ability::Stash(AbilityTarget::Tech)), Ok(()));
    assert_eq!(t.push(Ability::Stash(AbilityTarget::Attack)), Err(DeckIsFull));
    assert_eq!(t.len(), 1);
    assert_eq!(t.get(0), Some(Ability::Stash(AbilityTarget::Tech)));
    assert_eq!(t.get(1), None);
    assert_eq!(t.iter(), vec![Ability::Stash(AbilityTarget::Tech)]);
}

#[test]
fn every_ability_once() {
    let all = Ability::all();
    assert_eq!(all.len(), 6);
    assert_eq!(all[0], Ability::Stash(AbilityTarget::Attack));
    assert_eq!(all[5], Ability::SwapTop2(AbilityTarget::Tech));
}

#[test]
fn only_blink_aims() {
    assert!(Tech::Blink.requires_aim());
    assert!(!Tech::Repel.requires_aim());
    assert!(!Tech::Skip.requires_aim());
}

#[test]
fn new_player_decks() {
    let mut rng = Isaac64Rng::seed_from_u64(2);
    let p = Player::new(&mut rng);
    assert_eq!(p.attack.len(), 8);
    assert_eq!(p.attack.max_size(), 16);
    assert_eq!(p.defend.len(), 10);
    assert_eq!(p.tech.len(), 6);
    assert_eq!(p.tech.max_size(), 8);
    let top = p.attack.iter()[0];
    assert!(matches!(top, Attack::Hit(n) if (4..10).contains(&n)));
    let techs = p.tech.iter();
    assert_eq!(techs.iter().filter(|t| **t == Tech::Blink).count(), 3);
    assert_eq!(techs.iter().filter(|t| **t == Tech::Repel).count(), 2);
    assert_eq!(techs.iter().filter(|t| **t == Tech::Attract).count(), 1);
    assert_eq!(p.ability.len(), 2);
}

#[test]
fn card_draws_stay_in_range() {
    let mut rng = Isaac64Rng::seed_from_u64(3);
    for _ in 0..50 {
        match choose_attack(1, true, &mut rng) {
            Attack::Hit(n) => assert_eq!(n, 99),
            Attack::Cleave(n) | Attack::Skewer(n) => assert!((12..18).contains(&n)),
            Attack::Miss => panic!("miss"),
        }
        match choose_attack(0, false, &mut rng) {
            Attack::Hit(n) => assert!((4..7).contains(&n)),
            Attack::Cleave(n) | Attack::Skewer(n) => assert!((3..6).contains(&n)),
            Attack::Miss => panic!("miss"),
        }
        match choose_defend(2, true, &mut rng) {
            Defend::Revenge => {}
            Defend::Armour(n) => assert!((6..9).contains(&n)),
            d => panic!("{:?}", d),
        }
        match choose_defend(2, false, &mut rng) {
            Defend::Teleport | Defend::Dodge => {}
            Defend::Armour(n) => assert!((3..6).contains(&n)),
            d => panic!("{:?}", d),
        }
        assert_eq!(choose_tech(0, true, &mut rng), Tech::Blink);
        let t = choose_tech(0, false, &mut rng);
        assert!(t == Tech::Blink || t == Tech::Repel || t == Tech::Attract);
        assert_ne!(choose_tech_upgrade(0, &mut rng), Tech::MissNext);
        let a = choose_attack_upgrade(0, &mut rng);
        assert!([Attack::Hit(30), Attack::Hit(20), Attack::Cleave(10), Attack::Skewer(10)].contains(&a));
        let d = choose_defend_upgrade(0, &mut rng);
        assert!([Defend::Dodge, Defend::Teleport, Defend::Revenge].contains(&d));
        let c = choose_curse(&mut rng);
        assert!([
            Outcome::Attack(Attack::Miss),
            Outcome::Defend(Defend::SkipAttack),
            Outcome::Tech(Tech::MissNext)
        ]
        .contains(&c));
    }
}

#[test]
fn plain_values() {
    assert_eq!(empty_attack(), Attack::Hit(4));
    let hp = HitPoints::new_full(10);
    assert_eq!((hp.current, hp.max), (10, 10));
    let c = CollidesWith::default();
    assert!(c.solid && !c.character);
    assert!(!MoveHalfSpeed::default().skip_next_move);
}

#[test]
fn blink_fades_up_and_down() {
    let b = Blink::new();
    assert_eq!(b.alpha(0), 64);
    assert_eq!(b.alpha(125_000), 125);
    assert_eq!(b.alpha(250_000), 187);
    assert_eq!(b.alpha(500_000), 64);
    assert_eq!(b.alpha(375_000), 125);
}
