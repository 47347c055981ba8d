//! The registry: series catalogue, ship records, ownership index, scores,
//! and the minting protocol that ties them together.
use vstd::prelude::*;
use crate::amount::{convert_to_yocto, lemma_one_tenth, UNIT_SCALE};
use crate::ship::{decimal, decimal_string, is_new_ship, lemma_decimal_injective, Ship, ShipSeries};
use crate::table::AccountTable;
use crate::error::ContractError;

verus! {

/// Content-address prefix of every ship's media path.
pub const IPFS_HASH: &'static str = "bafybeiabr7npvllaoncqmsi5rl6mlaubzvjt2r6sygjzzfec4b6dohtx7e";

/// Least payment for one mint, in whole units.
pub const MINT_PRICE: &'static str = "0.1";

/// What the token standard is asked to issue for a freshly minted ship.
#[derive(Debug, Clone)]
pub struct TokenRequest {
    pub token_id: String,
    pub owner_id: String,
    pub title: String,
    pub media: String,
    pub copies: u64,
}

/// The whole registry state.
///
/// The fields are open so that a host can persist and restore the state;
/// every operation requires `wf`, which `new` establishes and each
/// operation preserves.
pub struct Contract {
    pub owner_id: String,
    pub total_series: u8,
    pub total_ships: u128,
    pub user_balance: AccountTable<u128>,
    pub ships: Vec<Ship>,
    pub user_ships: AccountTable<Vec<u128>>,
    pub ship_series: Vec<ShipSeries>,
}

impl Contract {
    /// The account allowed to create series.
    pub closed spec fn owner(&self) -> Seq<char> {
        self.owner_id@
    }

    /// The series catalogue; series `id` stands at position `id - 1`.
    pub closed spec fn series(&self) -> Seq<ShipSeries> {
        self.ship_series@
    }

    /// The ship registry; ship number `n` stands at position `n - 1`.
    pub closed spec fn ships(&self) -> Seq<Ship> {
        self.ships@
    }

    /// Number of ships ever minted.
    pub closed spec fn total_ships(&self) -> nat {
        self.total_ships as nat
    }

    /// Ship numbers in the ownership index of `account` (empty if absent).
    pub closed spec fn owned(&self, account: Seq<char>) -> Seq<u128> {
        if self.user_ships.view().contains_key(account) {
            self.user_ships.view()[account]@
        } else {
            Seq::empty()
        }
    }

    /// Score balance of `account` (0 if absent).
    pub closed spec fn score(&self, account: Seq<char>) -> nat {
        if self.user_balance.view().contains_key(account) {
            self.user_balance.view()[account] as nat
        } else {
            0
        }
    }

    /// The registry's invariant.
    pub closed spec fn wf(&self) -> bool {
        &&& self.user_balance.wf()
        &&& self.user_ships.wf()
        &&& self.total_series as nat == self.ship_series@.len()
        &&& self.total_ships as nat == self.ships@.len()
        &&& forall|i: int|
            0 <= i < self.ship_series@.len() ==> (#[trigger] self.ship_series@[i]).id == i + 1
                && self.ship_series@[i].minted_total <= self.ship_series@[i].max_supply
        &&& forall|i: int|
            0 <= i < self.ships@.len() ==> (#[trigger] self.ships@[i]).id@ == decimal(
                (i + 1) as nat,
            ) && 1 <= self.ships@[i].ship_series <= self.ship_series@.len()
        &&& forall|a: Seq<char>| #[trigger] self.owned(a).len() <= 1
        &&& forall|a: Seq<char>, k: int|
            0 <= k < self.owned(a).len() ==> 1 <= #[trigger] self.owned(a)[k] <= self.ships@.len()
    }

    /// An empty registry administered by `owner_id`.
    pub fn new(owner_id: String) -> (r: Self)
        ensures
            r.wf(),
            r.owner() == owner_id@,
            r.series() == Seq::<ShipSeries>::empty(),
            r.ships() == Seq::<Ship>::empty(),
            r.total_ships() == 0,
            forall|a: Seq<char>| r.owned(a) == Seq::<u128>::empty() && r.score(a) == 0,
    {
        Contract {
            owner_id,
            total_series: 0,
            total_ships: 0,
            user_balance: AccountTable::new(),
            ships: Vec::new(),
            user_ships: AccountTable::new(),
            ship_series: Vec::new(),
        }
    }
}

impl Contract {
    /// Everything but the series catalogue is as in `other`.
    pub open spec fn same_but_series(&self, other: &Self) -> bool {
        &&& self.owner() == other.owner()
        &&& self.ships() == other.ships()
        &&& self.total_ships() == other.total_ships()
        &&& forall|a: Seq<char>| self.owned(a) == other.owned(a) && self.score(a) == other.score(a)
    }

    /// Creates a series on behalf of `caller`, who must be the registry
    /// owner; title and media must be non-empty. Returns the new series id.
    pub fn add_ship_series(
        &mut self,
        caller: &String,
        title: String,
        media: String,
        max_supply: u32,
    ) -> (r: Result<u8, ContractError>)
        requires
            old(self).wf(),
            caller@ == old(self).owner() && title@.len() > 0 && media@.len() > 0
                ==> old(self).series().len() < 255,
        ensures
            final(self).wf(),
            caller@ != old(self).owner() ==> r == Err::<u8, ContractError>(ContractError::Unauthorized),
            caller@ == old(self).owner() && (title@.len() == 0 || media@.len() == 0)
                ==> r == Err::<u8, ContractError>(ContractError::InvalidInput),
            r is Err ==> *final(self) == *old(self),
            caller@ == old(self).owner() && title@.len() > 0 && media@.len() > 0 ==> {
                &&& r == Ok::<u8, ContractError>((old(self).series().len() + 1) as u8)
                &&& final(self).series() == old(self).series().push(
                    ShipSeries {
                        id: (old(self).series().len() + 1) as u8,
                        title,
                        media,
                        max_supply,
                        minted_total: 0,
                    },
                )
                &&& final(self).same_but_series(old(self))
            },
    {
        if *caller != self.owner_id {
            return Err(ContractError::Unauthorized);
        }
        if title.as_str().is_empty() || media.as_str().is_empty() {
            return Err(ContractError::InvalidInput);
        }
        let ghost pre = *self;
        self.total_series = self.total_series + 1;
        self.ship_series.push(
            ShipSeries { id: self.total_series, title, media, max_supply, minted_total: 0 },
        );
        assert forall|a: Seq<char>| #[trigger] self.owned(a) == pre.owned(a) by {}
        Ok(self.total_series)
    }

    /// The series with id `series_id`.
    pub fn get_series(&self, series_id: u8) -> (r: Option<ShipSeries>)
        requires
            self.wf(),
        ensures
            1 <= series_id <= self.series().len() ==> r == Some(self.series()[series_id - 1]),
            !(1 <= series_id <= self.series().len()) ==> r is None,
    {
        if series_id >= 1 && (series_id as usize) <= self.ship_series.len() {
            Some(self.ship_series[(series_id - 1) as usize].duplicate())
        } else {
            None
        }
    }

    /// Score balance of `account_id`, 0 when it has none.
    pub fn get_user_scores(&self, account_id: &String) -> (r: u128)
        requires
            self.wf(),
        ensures
            r as nat == self.score(account_id@),
    {
        match self.user_balance.get(account_id) {
            Some(b) => *b,
            None => 0,
        }
    }

    /// Credits `scores` to `account_id`. Open to every caller.
    pub fn add_user_scores(&mut self, account_id: String, scores: u128)
        requires
            old(self).wf(),
            old(self).score(account_id@) + scores <= u128::MAX,
        ensures
            final(self).wf(),
            final(self).score(account_id@) == old(self).score(account_id@) + scores,
            forall|a: Seq<char>| a != account_id@ ==> final(self).score(a) == old(self).score(a),
            final(self).owner() == old(self).owner(),
            final(self).series() == old(self).series(),
            final(self).ships() == old(self).ships(),
            final(self).total_ships() == old(self).total_ships(),
            forall|a: Seq<char>| final(self).owned(a) == old(self).owned(a),
    {
        let ghost pre = *self;
        let balance = self.get_user_scores(&account_id);
        self.user_balance.insert(account_id, balance + scores);
        assert forall|a: Seq<char>| #[trigger] self.owned(a) == pre.owned(a) by {}
    }
}

/// The ships that `ids` resolve to in `ships` (ship `n` at position
/// `n - 1`), in order, skipping ids that resolve to nothing.
pub open spec fn resolve_ships(ids: Seq<u128>, ships: Seq<Ship>) -> Seq<Ship>
    decreases ids.len(),
{
    if ids.len() == 0 {
        Seq::empty()
    } else {
        let rest = resolve_ships(ids.drop_last(), ships);
        if 1 <= ids.last() <= ships.len() {
            rest.push(ships[ids.last() - 1])
        } else {
            rest
        }
    }
}

/// `s` with one more ship minted.
pub open spec fn with_one_more_minted(s: ShipSeries) -> ShipSeries {
    ShipSeries {
        id: s.id,
        title: s.title,
        media: s.media,
        max_supply: s.max_supply,
        minted_total: (s.minted_total + 1) as u32,
    }
}

impl Contract {
    /// The ships in the ownership index of `account_id`.
    pub fn get_user_ships(&self, account_id: &String) -> (r: Vec<Ship>)
        requires
            self.wf(),
        ensures
            r@ == resolve_ships(self.owned(account_id@), self.ships()),
    {
        let mut out: Vec<Ship> = Vec::new();
        match self.user_ships.get(account_id) {
            None => {
                assert(resolve_ships(self.owned(account_id@), self.ships()) =~= Seq::<Ship>::empty());
            },
            Some(ids) => {
                let mut i: usize = 0;
                while i < ids.len()
                    invariant
                        i <= ids@.len(),
                        ids@ == self.owned(account_id@),
                        out@ == resolve_ships(ids@.take(i as int), self.ships@),
                    decreases ids@.len() - i,
                {
                    assert(ids@.take(i + 1).drop_last() =~= ids@.take(i as int));
                    let id = ids[i];
                    if id >= 1 && id <= self.ships.len() as u128 {
                        out.push(self.ships[(id - 1) as usize].duplicate());
                    }
                    i = i + 1;
                }
                assert(ids@.take(ids@.len() as int) =~= ids@);
            },
        }
        out
    }

    /// Mints a ship of series `series_id` for `caller`, who attached
    /// `deposit` smallest units. The checks run in order (series exists,
    /// supply left, caller holds no ship, payment of at least one tenth of a
    /// unit) before anything changes. On success the ship, the caller's
    /// ownership entry and the series counter are recorded together, and the
    /// request for the token standard to issue is returned; the host issues
    /// it within the same atomic call, so a failed issue undoes the mint.
    pub fn nft_mint(&mut self, caller: String, series_id: u8, deposit: u128) -> (r: Result<
        TokenRequest,
        ContractError,
    >)
        requires
            old(self).wf(),
        ensures
            final(self).wf(),
            !(1 <= series_id <= old(self).series().len()) ==> r == Err::<TokenRequest, ContractError>(ContractError::NotFound),
            1 <= series_id <= old(self).series().len() ==> {
                let s = old(self).series()[series_id - 1];
                let n = old(self).total_ships() + 1;
                &&& s.minted_total >= s.max_supply ==> r == Err::<TokenRequest, ContractError>(
                    ContractError::SupplyExhausted,
                )
                &&& s.minted_total < s.max_supply && old(self).owned(caller@).len() > 0 ==> r
                    == Err::<TokenRequest, ContractError>(ContractError::AlreadyOwnsAsset)
                &&& s.minted_total < s.max_supply && old(self).owned(caller@).len() == 0
                    && deposit < UNIT_SCALE / 10 ==> r == Err::<TokenRequest, ContractError>(
                    ContractError::InsufficientPayment,
                )
                &&& s.minted_total < s.max_supply && old(self).owned(caller@).len() == 0
                    && deposit >= UNIT_SCALE / 10 ==> {
                    &&& r is Ok
                    &&& r->Ok_0.token_id@ == decimal(n)
                    &&& r->Ok_0.owner_id@ == caller@
                    &&& r->Ok_0.title@ == s.title@
                    &&& r->Ok_0.media@ == IPFS_HASH@ + "/"@ + s.media@
                    &&& r->Ok_0.copies == 1
                    &&& final(self).total_ships() == n
                    &&& final(self).ships().len() == n
                    &&& final(self).ships().drop_last() == old(self).ships()
                    &&& is_new_ship(final(self).ships().last(), n, series_id)
                    &&& final(self).series() == old(self).series().update(
                        series_id - 1,
                        with_one_more_minted(s),
                    )
                    &&& final(self).owned(caller@) == seq![n as u128]
                    &&& forall|a: Seq<char>|
                        a != caller@ ==> #[trigger] final(self).owned(a) == old(self).owned(a)
                    &&& forall|a: Seq<char>| #[trigger] final(self).score(a) == old(self).score(a)
                    &&& final(self).owner() == old(self).owner()
                }
            },
            r is Err ==> *final(self) == *old(self),
    {
        if series_id < 1 || series_id as usize > self.ship_series.len() {
            return Err(ContractError::NotFound);
        }
        let idx = (series_id - 1) as usize;
        let minted = self.ship_series[idx].minted_total;
        if minted as u64 + 1 > self.ship_series[idx].max_supply as u64 {
            return Err(ContractError::SupplyExhausted);
        }
        match self.user_ships.get(&caller) {
            Some(ids) => {
                if ids.len() > 0 {
                    return Err(ContractError::AlreadyOwnsAsset);
                }
            },
            None => {},
        }
        proof {
            lemma_one_tenth();
            reveal_strlit("0.1");
        }
        let price = match convert_to_yocto(MINT_PRICE) {
            Ok(p) => p,
            Err(e) => {
                return Err(e);
            },
        };
        if deposit < price {
            return Err(ContractError::InsufficientPayment);
        }
        let ghost pre = *self;
        let count = self.ships.len();
        assert(count as u128 == self.total_ships);
        self.total_ships = self.total_ships + 1;
        let token_id = decimal_string(self.total_ships);
        let mut series = self.ship_series[idx].duplicate();
        let title = series.title.clone();
        let media = String::from_str(IPFS_HASH).concat("/").concat(series.media.as_str());
        self.ships.push(
            Ship {
                id: decimal_string(self.total_ships),
                health: 10,
                attack: 10,
                weapons: 10,
                speed: 5,
                level: 1,
                max_energy: 10,
                current_energy: 10,
                ship_series: series_id,
                last_flight: 0,
            },
        );
        let mut ids: Vec<u128> = Vec::new();
        ids.push(self.total_ships);
        self.user_ships.insert(caller.clone(), ids);
        series.minted_total = minted + 1;
        self.ship_series.set(idx, series);
        proof {
            assert(self.ship_series@ =~= pre.ship_series@.update(
                idx as int,
                with_one_more_minted(pre.ship_series@[idx as int]),
            ));
            assert(self.ships@.drop_last() =~= pre.ships@);
            assert(ids@ =~= seq![self.total_ships]);
            assert forall|a: Seq<char>| a != caller@ implies #[trigger] self.owned(a) == pre.owned(a) by {}
            assert forall|a: Seq<char>| #[trigger] self.score(a) == pre.score(a) by {}
            assert forall|a: Seq<char>, k: int| 0 <= k < self.owned(a).len() implies 1
                <= #[trigger] self.owned(a)[k] <= self.ships@.len() by {
                if a != caller@ {
                    assert(pre.owned(a)[k] == self.owned(a)[k]);
                }
            }
            assert forall|a: Seq<char>| #[trigger] self.owned(a).len() <= 1 by {
                if a != caller@ {
                    assert(pre.owned(a) == self.owned(a));
                }
            }
        }
        Ok(TokenRequest { token_id, owner_id: caller, title, media, copies: 1 })
    }
}

/// In every well-formed registry, no series has minted more ships than its
/// supply cap, and series ids run densely from 1.
pub proof fn lemma_supply_within_cap(c: &Contract)
    requires
        c.wf(),
    ensures
        forall|i: int|
            0 <= i < c.series().len() ==> (#[trigger] c.series()[i]).minted_total
                <= c.series()[i].max_supply && c.series()[i].id == i + 1,
{
}

/// In every well-formed registry, each account's ownership index holds at
/// most one ship, and every ship number in it resolves to a minted ship.
pub proof fn lemma_single_ownership(c: &Contract, account: Seq<char>)
    requires
        c.wf(),
    ensures
        c.owned(account).len() <= 1,
        forall|k: int|
            0 <= k < c.owned(account).len() ==> 1 <= #[trigger] c.owned(account)[k]
                <= c.total_ships(),
{
}

/// In every well-formed registry, ship `n` carries the id `n` in decimal,
/// the count of minted ships is the number of ships, and no two ships share
/// an id.
pub proof fn lemma_ship_ids_unique(c: &Contract)
    requires
        c.wf(),
    ensures
        c.total_ships() == c.ships().len(),
        forall|i: int| 0 <= i < c.ships().len() ==> (#[trigger] c.ships()[i]).id@ == decimal((i + 1) as nat),
        forall|i: int, j: int|
            0 <= i < c.ships().len() && 0 <= j < c.ships().len() && i != j ==> (#[trigger] c.ships()[i]).id@
                != (#[trigger] c.ships()[j]).id@,
{
    assert forall|i: int, j: int|
        0 <= i < c.ships().len() && 0 <= j < c.ships().len() && i != j implies (#[trigger] c.ships()[i]).id@
            != (#[trigger] c.ships()[j]).id@ by {
        if c.ships()[i].id@ == c.ships()[j].id@ {
            lemma_decimal_injective((i + 1) as nat, (j + 1) as nat);
        }
    }
}

/// A number beyond the count of minted ships renders to an id that no ship
/// carries yet: the id a successful mint hands out (the new count) is never
/// a reused one.
pub proof fn lemma_fresh_id(c: &Contract, n: nat)
    requires
        c.wf(),
        n > c.total_ships(),
    ensures
        forall|i: int| 0 <= i < c.ships().len() ==> (#[trigger] c.ships()[i]).id@ != decimal(n),
{
    assert forall|i: int| 0 <= i < c.ships().len() implies (#[trigger] c.ships()[i]).id@ != decimal(n) by {
        if c.ships()[i].id@ == decimal(n) {
            lemma_decimal_injective((i + 1) as nat, n);
        }
    }
}

} // verus!
