//! Series definitions, ship records and their decimal ids.
use vstd::prelude::*;

verus! {

/// A limited edition of ships sharing a title, media path and supply cap.
#[derive(Debug, Clone)]
pub struct ShipSeries {
    pub id: u8,
    pub title: String,
    pub media: String,
    pub max_supply: u32,
    pub minted_total: u32,
}

/// One minted ship with its baseline attributes.
#[derive(Debug, Clone)]
pub struct Ship {
    pub id: String,
    pub health: u8,
    pub attack: u8,
    pub weapons: u8,
    pub speed: u8,
    pub level: u8,
    pub max_energy: u8,
    pub current_energy: u32,
    pub ship_series: u8,
    pub last_flight: u64,
}

impl ShipSeries {
    /// A field-for-field copy.
    pub fn duplicate(&self) -> (r: Self)
        ensures
            r == *self,
    {
        ShipSeries {
            id: self.id,
            title: self.title.clone(),
            media: self.media.clone(),
            max_supply: self.max_supply,
            minted_total: self.minted_total,
        }
    }
}

impl Ship {
    /// A field-for-field copy.
    pub fn duplicate(&self) -> (r: Self)
        ensures
            r == *self,
    {
        Ship {
            id: self.id.clone(),
            health: self.health,
            attack: self.attack,
            weapons: self.weapons,
            speed: self.speed,
            level: self.level,
            max_energy: self.max_energy,
            current_energy: self.current_energy,
            ship_series: self.ship_series,
            last_flight: self.last_flight,
        }
    }
}

/// `s` is a freshly minted ship numbered `n` of series `series_id`, with the
/// baseline stats every new ship gets.
pub open spec fn is_new_ship(s: Ship, n: nat, series_id: u8) -> bool {
    &&& s.id@ == decimal(n)
    &&& s.health == 10
    &&& s.attack == 10
    &&& s.weapons == 10
    &&& s.speed == 5
    &&& s.level == 1
    &&& s.max_energy == 10
    &&& s.current_energy == 10
    &&& s.ship_series == series_id
    &&& s.last_flight == 0
}

pub open spec fn digit_char(d: nat) -> char {
    if d == 0 { '0' }
    else if d == 1 { '1' }
    else if d == 2 { '2' }
    else if d == 3 { '3' }
    else if d == 4 { '4' }
    else if d == 5 { '5' }
    else if d == 6 { '6' }
    else if d == 7 { '7' }
    else if d == 8 { '8' }
    else { '9' }
}

/// The decimal rendering of `n`, without leading zeros.
pub open spec fn decimal(n: nat) -> Seq<char>
    decreases n,
{
    if n < 10 {
        seq![digit_char(n)]
    } else {
        decimal(n / 10).push(digit_char(n % 10))
    }
}

proof fn lemma_digit_char_injective(a: nat, b: nat)
    requires
        a < 10,
        b < 10,
        digit_char(a) == digit_char(b),
    ensures
        a == b,
{
}

/// Distinct numbers have distinct decimal renderings.
pub proof fn lemma_decimal_injective(a: nat, b: nat)
    requires
        decimal(a) == decimal(b),
    ensures
        a == b,
    decreases a,
{
    if a < 10 && b < 10 {
        assert(decimal(a) == seq![digit_char(a)]);
        assert(decimal(b) == seq![digit_char(b)]);
        assert(seq![digit_char(a)][0] == digit_char(a));
        assert(seq![digit_char(b)][0] == digit_char(b));
        lemma_digit_char_injective(a, b);
    } else if a < 10 {
        assert(decimal(b).len() >= 2) by {
            assert(decimal(b / 10).len() >= 1) by {
                reveal_with_fuel(decimal, 1);
            }
        }
    } else if b < 10 {
        assert(decimal(a).len() >= 2) by {
            assert(decimal(a / 10).len() >= 1) by {
                reveal_with_fuel(decimal, 1);
            }
        }
    } else {
        assert(decimal(a).last() == digit_char(a % 10));
        assert(decimal(b).last() == digit_char(b % 10));
        lemma_digit_char_injective(a % 10, b % 10);
        assert(decimal(a).drop_last() =~= decimal(a / 10));
        assert(decimal(b).drop_last() =~= decimal(b / 10));
        lemma_decimal_injective(a / 10, b / 10);
    }
}

/// The one-character string for digit `d`.
fn digit_str(d: u128) -> (r: &'static str)
    requires
        d < 10,
    ensures
        r@ == seq![digit_char(d as nat)],
{
    proof {
        reveal_strlit("0");
        reveal_strlit("1");
        reveal_strlit("2");
        reveal_strlit("3");
        reveal_strlit("4");
        reveal_strlit("5");
        reveal_strlit("6");
        reveal_strlit("7");
        reveal_strlit("8");
        reveal_strlit("9");
    }
    let r = if d == 0 { "0" }
    else if d == 1 { "1" }
    else if d == 2 { "2" }
    else if d == 3 { "3" }
    else if d == 4 { "4" }
    else if d == 5 { "5" }
    else if d == 6 { "6" }
    else if d == 7 { "7" }
    else if d == 8 { "8" }
    else { "9" };
    assert(r@ =~= seq![digit_char(d as nat)]);
    r
}

/// `n` written in decimal.
pub fn decimal_string(n: u128) -> (r: String)
    ensures
        r@ == decimal(n as nat),
{
    let mut acc = String::from_str(digit_str(n % 10));
    let mut m: u128 = n / 10;
    while m > 0
        invariant
            m == 0 ==> acc@ == decimal(n as nat),
            m > 0 ==> decimal(n as nat) == decimal(m as nat) + acc@,
        decreases m,
    {
        let ghost old_acc = acc@;
        acc = String::from_str(digit_str(m % 10)).concat(acc.as_str());
        proof {
            if m < 10 {
                assert(decimal(m as nat) == seq![digit_char(m as nat)]);
                assert(m % 10 == m);
            } else {
                let head = decimal((m / 10) as nat);
                assert(decimal(m as nat) == head.push(digit_char((m % 10) as nat)));
                assert(head.push(digit_char((m % 10) as nat)) + old_acc =~= head + acc@);
            }
        }
        m = m / 10;
    }
    acc
}

} // verus!
