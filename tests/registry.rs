use spaceship_nft::amount::{convert_to_yocto, UNIT_SCALE};
use spaceship_nft::contract::{Contract, IPFS_HASH};
use spaceship_nft::error::ContractError;
use spaceship_nft::ship::decimal_string;

fn s(x: &str) -> String {
    x.to_string()
}

fn registry_with_falcon() -> Contract {
    let mut c = Contract::new(s("owner.near"));
    let id = c.add_ship_series(&s("owner.near"), s("Falcon"), s("falcon.png"), 1);
    assert_eq!(id, Ok(1));
    c
}

#[test]
fn converts_one_tenth() {
    assert_eq!(convert_to_yocto("0.1"), Ok(100_000_000_000_000_000_000_000));
}

#[test]
fn converts_whole_unit() {
    assert_eq!(convert_to_yocto("1"), Ok(1_000_000_000_000_000_000_000_000));
    assert_eq!(convert_to_yocto("1"), Ok(UNIT_SCALE));
}

#[test]
fn converts_two_and_a_half() {
    assert_eq!(convert_to_yocto("2.5"), Ok(2_500_000_000_000_000_000_000_000));
}

#[test]
fn converts_leading_zero_fraction() {
    assert_eq!(convert_to_yocto("0.05"), Ok(50_000_000_000_000_000_000_000));
    assert_eq!(convert_to_yocto("0"), Ok(0));
    assert_eq!(convert_to_yocto("0.000000000000000000000001"), Ok(1));
}

#[test]
fn rejects_malformed_amounts() {
    for bad in ["", ".", "1.", ".5", "-1", "+1", "1e3", "1,0", "1.2.3", "a", " 1"] {
        assert_eq!(convert_to_yocto(bad), Err(ContractError::InvalidAmount), "{}", bad);
    }
}

#[test]
fn rejects_too_many_fraction_digits() {
    assert_eq!(convert_to_yocto("0.0000000000000000000000001"), Err(ContractError::InvalidAmount));
}

#[test]
fn rejects_amounts_beyond_u128() {
    assert_eq!(convert_to_yocto("340282366920938"), Ok(340_282_366_920_938 * UNIT_SCALE));
    assert_eq!(convert_to_yocto("340282366920939"), Err(ContractError::InvalidAmount));
    assert_eq!(convert_to_yocto("340282366920938.463463374607431768211455"), Ok(u128::MAX));
    assert_eq!(convert_to_yocto("340282366920938.463463374607431768211456"), Err(ContractError::InvalidAmount));
    assert_eq!(convert_to_yocto("99999999999999999999999999999999999999999"), Err(ContractError::InvalidAmount));
}

#[test]
fn series_ids_are_sequential() {
    let mut c = registry_with_falcon();
    assert_eq!(c.add_ship_series(&s("owner.near"), s("Hawk"), s("hawk.png"), 5), Ok(2));
    let hawk = c.get_series(2).unwrap();
    assert_eq!(hawk.id, 2);
    assert_eq!(hawk.title, "Hawk");
    assert_eq!(hawk.media, "hawk.png");
    assert_eq!(hawk.max_supply, 5);
    assert_eq!(hawk.minted_total, 0);
    assert!(c.get_series(3).is_none());
    assert!(c.get_series(0).is_none());
}

#[test]
fn create_series_by_stranger_is_unauthorized() {
    let mut c = Contract::new(s("owner.near"));
    assert_eq!(
        c.add_ship_series(&s("mallory.near"), s("Falcon"), s("falcon.png"), 1),
        Err(ContractError::Unauthorized)
    );
    assert!(c.get_series(1).is_none());
}

#[test]
fn create_series_needs_title_and_media() {
    let mut c = Contract::new(s("owner.near"));
    assert_eq!(c.add_ship_series(&s("owner.near"), s(""), s("x.png"), 1), Err(ContractError::InvalidInput));
    assert_eq!(c.add_ship_series(&s("owner.near"), s("X"), s(""), 1), Err(ContractError::InvalidInput));
    assert!(c.get_series(1).is_none());
    assert_eq!(c.add_ship_series(&s("owner.near"), s("X"), s("x.png"), 1), Ok(1));
}

#[test]
fn happy_path_mint() {
    let mut c = registry_with_falcon();
    assert_eq!(c.get_series(1).unwrap().minted_total, 0);
    let req = c.nft_mint(s("alice.near"), 1, 100_000_000_000_000_000_000_000).unwrap();
    assert_eq!(req.token_id, "1");
    assert_eq!(req.owner_id, "alice.near");
    assert_eq!(req.title, "Falcon");
    assert_eq!(req.media, format!("{}/falcon.png", IPFS_HASH));
    assert_eq!(req.copies, 1);
    let ships = c.get_user_ships(&s("alice.near"));
    assert_eq!(ships.len(), 1);
    let ship = &ships[0];
    assert_eq!(ship.id, "1");
    assert_eq!(ship.health, 10);
    assert_eq!(ship.attack, 10);
    assert_eq!(ship.weapons, 10);
    assert_eq!(ship.speed, 5);
    assert_eq!(ship.level, 1);
    assert_eq!(ship.max_energy, 10);
    assert_eq!(ship.current_energy, 10);
    assert_eq!(ship.ship_series, 1);
    assert_eq!(ship.last_flight, 0);
    assert_eq!(c.get_series(1).unwrap().minted_total, 1);
    assert_eq!(
        c.nft_mint(s("alice.near"), 1, UNIT_SCALE).unwrap_err(),
        ContractError::SupplyExhausted
    );
    assert_eq!(c.nft_mint(s("bob.near"), 1, UNIT_SCALE).unwrap_err(), ContractError::SupplyExhausted);
    assert_eq!(c.get_series(1).unwrap().minted_total, 1);
    assert!(c.get_user_ships(&s("bob.near")).is_empty());
}

#[test]
fn second_mint_by_owner_of_a_ship_is_refused() {
    let mut c = Contract::new(s("owner.near"));
    assert_eq!(c.add_ship_series(&s("owner.near"), s("Hawk"), s("hawk.png"), 10), Ok(1));
    assert!(c.nft_mint(s("alice.near"), 1, UNIT_SCALE).is_ok());
    assert_eq!(c.nft_mint(s("alice.near"), 1, UNIT_SCALE).unwrap_err(), ContractError::AlreadyOwnsAsset);
    assert_eq!(c.get_user_ships(&s("alice.near")).len(), 1);
    assert_eq!(c.get_series(1).unwrap().minted_total, 1);
    let req = c.nft_mint(s("bob.near"), 1, UNIT_SCALE).unwrap();
    assert_eq!(req.token_id, "2");
    assert_eq!(c.get_user_ships(&s("bob.near"))[0].id, "2");
}

#[test]
fn underpayment_is_refused() {
    let mut c = registry_with_falcon();
    let r = c.nft_mint(s("alice.near"), 1, convert_to_yocto("0.05").unwrap());
    assert_eq!(r.unwrap_err(), ContractError::InsufficientPayment);
    assert_eq!(c.get_series(1).unwrap().minted_total, 0);
    assert!(c.get_user_ships(&s("alice.near")).is_empty());
    let r = c.nft_mint(s("alice.near"), 1, 100_000_000_000_000_000_000_000 - 1);
    assert_eq!(r.unwrap_err(), ContractError::InsufficientPayment);
    assert_eq!(c.nft_mint(s("alice.near"), 1, 100_000_000_000_000_000_000_000).unwrap().token_id, "1");
}

#[test]
fn mint_of_unknown_series_is_not_found() {
    let mut c = registry_with_falcon();
    assert_eq!(c.nft_mint(s("alice.near"), 2, UNIT_SCALE).unwrap_err(), ContractError::NotFound);
    assert_eq!(c.nft_mint(s("alice.near"), 0, UNIT_SCALE).unwrap_err(), ContractError::NotFound);
}

#[test]
fn zero_supply_series_is_exhausted() {
    let mut c = Contract::new(s("owner.near"));
    assert_eq!(c.add_ship_series(&s("owner.near"), s("Ghost"), s("ghost.png"), 0), Ok(1));
    assert_eq!(c.nft_mint(s("alice.near"), 1, UNIT_SCALE).unwrap_err(), ContractError::SupplyExhausted);
}

#[test]
fn ship_ids_increase_across_series() {
    let mut c = Contract::new(s("owner.near"));
    assert_eq!(c.add_ship_series(&s("owner.near"), s("A"), s("a.png"), 3), Ok(1));
    assert_eq!(c.add_ship_series(&s("owner.near"), s("B"), s("b.png"), 3), Ok(2));
    let mut ids = Vec::new();
    for (i, who) in ["a", "b", "c", "d", "e", "f", "g", "h", "i", "j", "k"].iter().enumerate() {
        let series = if i % 2 == 0 { 1 } else { 2 };
        if let Ok(req) = c.nft_mint(s(who), series, UNIT_SCALE) {
            ids.push(req.token_id);
        }
    }
    assert_eq!(ids, vec!["1", "2", "3", "4", "5", "6"]);
    assert_eq!(c.get_series(1).unwrap().minted_total, 3);
    assert_eq!(c.get_series(2).unwrap().minted_total, 3);
}

#[test]
fn scores_default_to_zero_and_accumulate() {
    let mut c = Contract::new(s("owner.near"));
    assert_eq!(c.get_user_scores(&s("alice.near")), 0);
    c.add_user_scores(s("alice.near"), 7);
    c.add_user_scores(s("alice.near"), 5);
    c.add_user_scores(s("bob.near"), 1);
    assert_eq!(c.get_user_scores(&s("alice.near")), 12);
    assert_eq!(c.get_user_scores(&s("bob.near")), 1);
    assert_eq!(c.get_user_scores(&s("carol.near")), 0);
}

#[test]
fn ships_of_account_without_any_is_empty() {
    let c = registry_with_falcon();
    assert!(c.get_user_ships(&s("nobody.near")).is_empty());
}

#[test]
fn full_catalogue_still_refuses_strangers_and_empty_fields() {
    let mut c = Contract::new(s("owner.near"));
    for i in 1..=255u32 {
        assert_eq!(c.add_ship_series(&s("owner.near"), format!("S{}", i), s("s.png"), 1), Ok(i as u8));
    }
    assert_eq!(
        c.add_ship_series(&s("mallory.near"), s("Extra"), s("x.png"), 1),
        Err(ContractError::Unauthorized)
    );
    assert_eq!(c.add_ship_series(&s("mallory.near"), s(""), s("x.png"), 1), Err(ContractError::Unauthorized));
    assert_eq!(c.add_ship_series(&s("owner.near"), s(""), s("x.png"), 1), Err(ContractError::InvalidInput));
    assert_eq!(c.add_ship_series(&s("owner.near"), s("X"), s(""), 1), Err(ContractError::InvalidInput));
    assert!(c.get_series(255).is_some());
}

#[test]
fn decimal_rendering_of_ship_numbers() {
    assert_eq!(decimal_string(0), "0");
    assert_eq!(decimal_string(7), "7");
    assert_eq!(decimal_string(10), "10");
    assert_eq!(decimal_string(1203), "1203");
    assert_eq!(decimal_string(u128::MAX), u128::MAX.to_string());
}
