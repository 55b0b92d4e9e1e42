use pokesubs::dna::crossover;
use pokesubs::registry::Registry;
use pokesubs::token::{Error, Event, Poke, HASH_LEN};

const ALICE: u64 = 1;
const BOB: u64 = 2;
const CAROL: u64 = 3;

fn hid(b: u8) -> Vec<u8> {
    vec![b; HASH_LEN]
}

fn poke_with(id: Vec<u8>, dna: Vec<u8>, price: u64, gen: u64) -> Poke {
    Poke { id, dna, price, gen }
}

#[test]
fn mint_registers_token() {
    let mut reg = Registry::new();
    assert_eq!(reg.all_poke_count(), 0);
    assert_eq!(reg.nonce(), 0);
    reg.create_poke(ALICE, hid(10)).unwrap();
    assert_eq!(reg.owner_of(&hid(10)), Some(ALICE));
    assert_eq!(reg.all_poke_count(), 1);
    assert_eq!(reg.owned_poke_count(ALICE), 1);
    assert_eq!(reg.nonce(), 1);
    let t = reg.poke(&hid(10)).unwrap();
    assert_eq!(t.id, hid(10));
    assert_eq!(t.dna, hid(10));
    assert_eq!(t.price, 0);
    assert_eq!(t.gen, 0);
    assert_eq!(reg.poke_by_index(0), Some(hid(10)));
    assert_eq!(reg.poke_of_owner_by_index(ALICE, 0), Some(hid(10)));
    assert_eq!(reg.events()[0], Event::Created(ALICE, hid(10)));
}

#[test]
fn duplicate_mint_fails() {
    let mut reg = Registry::new();
    reg.create_poke(ALICE, hid(10)).unwrap();
    let second = reg.create_poke(BOB, hid(10));
    assert_eq!(second, Err(Error::AlreadyExists));
    assert_eq!(reg.all_poke_count(), 1);
    assert_eq!(reg.owner_of(&hid(10)), Some(ALICE));
    assert_eq!(reg.owned_poke_count(BOB), 0);
    assert_eq!(reg.nonce(), 1);
}

#[test]
fn set_price_updates_listing() {
    let mut reg = Registry::new();
    reg.create_poke(ALICE, hid(10)).unwrap();
    reg.set_price(ALICE, &hid(10), 100).unwrap();
    assert_eq!(reg.poke(&hid(10)).unwrap().price, 100);
    assert_eq!(reg.events()[1], Event::PriceSet(ALICE, hid(10), 100));
}

#[test]
fn set_price_refuses_unknown_token() {
    let mut reg = Registry::new();
    assert_eq!(reg.set_price(ALICE, &hid(9), 5), Err(Error::NotFound));
}

#[test]
fn set_price_refuses_non_owner() {
    let mut reg = Registry::new();
    reg.create_poke(ALICE, hid(10)).unwrap();
    assert_eq!(reg.set_price(BOB, &hid(10), 5), Err(Error::NotOwner));
    assert_eq!(reg.poke(&hid(10)).unwrap().price, 0);
}

#[test]
fn buy_moves_ownership_and_clears_price() {
    let mut reg = Registry::new();
    reg.create_poke(ALICE, hid(10)).unwrap();
    reg.set_price(ALICE, &hid(10), 100).unwrap();
    let pay = reg.buy_prepare(BOB, &hid(10), 100).unwrap();
    assert_eq!(pay.seller, ALICE);
    assert_eq!(pay.amount, 100);
    // the value provider would move 100 from Bob to Alice here
    reg.buy_complete(BOB, &hid(10), 100).unwrap();
    assert_eq!(reg.owner_of(&hid(10)), Some(BOB));
    assert_eq!(reg.poke(&hid(10)).unwrap().price, 0);
    assert_eq!(reg.owned_poke_count(ALICE), 0);
    assert_eq!(reg.owned_poke_count(BOB), 1);
    let ev = reg.events();
    assert_eq!(ev[2], Event::Transferred(ALICE, BOB, hid(10)));
    assert_eq!(ev[3], Event::Bought(BOB, ALICE, hid(10), 100));
}

#[test]
fn buy_refuses_unknown_token() {
    let reg = Registry::new();
    assert_eq!(reg.buy_prepare(BOB, &hid(9), 10), Err(Error::NotFound));
}

#[test]
fn buy_refuses_own_token() {
    let mut reg = Registry::new();
    reg.create_poke(ALICE, hid(10)).unwrap();
    reg.set_price(ALICE, &hid(10), 100).unwrap();
    assert_eq!(reg.buy_prepare(ALICE, &hid(10), 100), Err(Error::SelfTrade));
}

#[test]
fn buy_refuses_unlisted_token() {
    let mut reg = Registry::new();
    reg.create_poke(ALICE, hid(10)).unwrap();
    assert_eq!(reg.buy_prepare(BOB, &hid(10), 100), Err(Error::NotForSale));
}

#[test]
fn buy_refuses_price_above_maximum() {
    let mut reg = Registry::new();
    reg.create_poke(ALICE, hid(10)).unwrap();
    reg.set_price(ALICE, &hid(10), 101).unwrap();
    assert_eq!(reg.buy_prepare(BOB, &hid(10), 100), Err(Error::PriceExceeded));
    // a failed preparation leaves ownership and price unchanged
    assert_eq!(reg.owner_of(&hid(10)), Some(ALICE));
    assert_eq!(reg.poke(&hid(10)).unwrap().price, 101);
}

#[test]
fn transfer_swaps_last_token_into_gap() {
    let mut reg = Registry::new();
    reg.create_poke(ALICE, hid(1)).unwrap();
    reg.create_poke(ALICE, hid(2)).unwrap();
    reg.create_poke(ALICE, hid(3)).unwrap();
    assert_eq!(reg.poke_of_owner_by_index(ALICE, 1), Some(hid(2)));
    reg.transfer(ALICE, BOB, &hid(2)).unwrap();
    // the last token now fills position 1, keeping the array dense
    assert_eq!(reg.poke_of_owner_by_index(ALICE, 0), Some(hid(1)));
    assert_eq!(reg.poke_of_owner_by_index(ALICE, 1), Some(hid(3)));
    assert_eq!(reg.poke_of_owner_by_index(ALICE, 2), None);
    assert_eq!(reg.owned_poke_count(ALICE), 2);
    assert_eq!(reg.owner_of(&hid(2)), Some(BOB));
    assert_eq!(reg.poke_of_owner_by_index(BOB, 0), Some(hid(2)));
}

#[test]
fn transfer_refuses_unknown_token() {
    let mut reg = Registry::new();
    assert_eq!(reg.transfer(ALICE, BOB, &hid(9)), Err(Error::NotFound));
}

#[test]
fn transfer_refuses_non_owner() {
    let mut reg = Registry::new();
    reg.create_poke(ALICE, hid(1)).unwrap();
    assert_eq!(reg.transfer(BOB, CAROL, &hid(1)), Err(Error::NotOwner));
    assert_eq!(reg.owner_of(&hid(1)), Some(ALICE));
}

#[test]
fn transfer_to_self_keeps_registry_consistent() {
    let mut reg = Registry::new();
    reg.create_poke(ALICE, hid(1)).unwrap();
    reg.create_poke(ALICE, hid(2)).unwrap();
    reg.transfer(ALICE, ALICE, &hid(1)).unwrap();
    assert_eq!(reg.owned_poke_count(ALICE), 2);
    assert_eq!(reg.owner_of(&hid(1)), Some(ALICE));
    // the moved token sits at the end of its owner's array again
    assert_eq!(reg.poke_of_owner_by_index(ALICE, 0), Some(hid(2)));
    assert_eq!(reg.poke_of_owner_by_index(ALICE, 1), Some(hid(1)));
}

#[test]
fn breeding_mixes_dna_bytewise() {
    let mut reg = Registry::new();
    reg.mint(ALICE, poke_with(hid(1), hid(0x11), 0, 0)).unwrap();
    reg.mint(BOB, poke_with(hid(2), hid(0x22), 0, 0)).unwrap();
    let mut selector = Vec::new();
    for i in 0..HASH_LEN {
        selector.push(i as u8);
    }
    reg.breed_poke(CAROL, &hid(1), &hid(2), selector.clone()).unwrap();
    assert_eq!(reg.owner_of(&selector), Some(CAROL));
    let child = reg.poke(&selector).unwrap();
    assert_eq!(child.gen, 1);
    assert_eq!(child.price, 0);
    // even selector bytes take the second parent's byte, odd keep the first's
    for i in 0..HASH_LEN {
        let expect = if selector[i] % 2 == 0 { 0x22 } else { 0x11 };
        assert_eq!(child.dna[i], expect);
    }
    assert_eq!(reg.all_poke_count(), 3);
    assert_eq!(reg.owned_poke_count(CAROL), 1);
}

#[test]
fn breeding_generation_is_deeper_parent_plus_one() {
    let mut reg = Registry::new();
    reg.mint(ALICE, poke_with(hid(1), hid(0x11), 0, 2)).unwrap();
    reg.mint(BOB, poke_with(hid(2), hid(0x22), 0, 5)).unwrap();
    reg.breed_poke(CAROL, &hid(1), &hid(2), hid(7)).unwrap();
    assert_eq!(reg.poke(&hid(7)).unwrap().gen, 6);
}

#[test]
fn breeding_refuses_missing_parent() {
    let mut reg = Registry::new();
    reg.create_poke(ALICE, hid(1)).unwrap();
    assert_eq!(reg.breed_poke(CAROL, &hid(1), &hid(9), hid(7)), Err(Error::NotFound));
    assert_eq!(reg.breed_poke(CAROL, &hid(9), &hid(1), hid(7)), Err(Error::NotFound));
    assert_eq!(reg.all_poke_count(), 1);
}

#[test]
fn breeding_with_taken_identifier_fails() {
    let mut reg = Registry::new();
    reg.create_poke(ALICE, hid(1)).unwrap();
    reg.create_poke(BOB, hid(2)).unwrap();
    assert_eq!(reg.breed_poke(CAROL, &hid(1), &hid(2), hid(2)), Err(Error::AlreadyExists));
}

#[test]
fn queries_out_of_range_return_nothing() {
    let mut reg = Registry::new();
    reg.create_poke(ALICE, hid(1)).unwrap();
    assert_eq!(reg.poke_by_index(1), None);
    assert_eq!(reg.poke_of_owner_by_index(ALICE, 1), None);
    assert_eq!(reg.poke_of_owner_by_index(BOB, 0), None);
    assert_eq!(reg.owned_poke_count(BOB), 0);
    assert_eq!(reg.owner_of(&hid(9)), None);
    assert!(reg.poke(&hid(9)).is_none());
}

#[test]
fn crossover_selects_by_parity() {
    let base = vec![1, 2, 3];
    let other = vec![4, 5, 6];
    let sel = vec![0, 1, 2];
    assert_eq!(crossover(&base, &other, &sel), vec![4, 2, 6]);
}

#[test]
fn counts_follow_every_operation() {
    let mut reg = Registry::new();
    reg.create_poke(ALICE, hid(1)).unwrap();
    reg.create_poke(ALICE, hid(2)).unwrap();
    reg.create_poke(BOB, hid(3)).unwrap();
    assert_eq!(reg.all_poke_count(), 3);
    assert_eq!(reg.owned_poke_count(ALICE), 2);
    assert_eq!(reg.owned_poke_count(BOB), 1);
    reg.transfer(ALICE, BOB, &hid(1)).unwrap();
    assert_eq!(reg.all_poke_count(), 3);
    assert_eq!(reg.owned_poke_count(ALICE), 1);
    assert_eq!(reg.owned_poke_count(BOB), 2);
    assert_eq!(
        reg.owned_poke_count(ALICE) + reg.owned_poke_count(BOB),
        reg.all_poke_count()
    );
}
