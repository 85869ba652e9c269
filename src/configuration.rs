use vstd::prelude::*;
use vstd::string::StrSliceExecFns;
use vstd::string::StringExecFns;

use crate::text::{
    all_alphanumeric, chars_of, join, lemma_split_join, range_all_alphanumeric, split_bounds,
    split_spec,
};

verus! {

/// Width of the ordinal index that opens each pair.
pub const INDEX_WIDTH: usize = 4;

/// Width of the configuration value that follows the index.
pub const VALUE_WIDTH: usize = 10;

/// Width of a whole pair: index, then value.
pub const PAIR_WIDTH: usize = 14;

/// Why a configuration blob was refused.
#[derive(Debug, Clone, PartialEq, Eq)]
pub enum ConfigError {
    /// The blob holds fewer than two pairs.
    TooFewPairs,
    /// A pair's value is not exactly ten characters long.
    InvalidLength,
    /// A pair's index field is not a decimal number; it carries the field.
    InvalidIndex(String),
    /// A pair's index is not the next in the sequence 1, 2, 3, ...
    InvalidOrder,
    /// A pair's value holds a character that is neither a letter nor a digit.
    NotAlphanumeric,
}

/// The mathematical form of a `ConfigError`.
pub enum ConfigFault {
    TooFewPairs,
    InvalidLength,
    InvalidIndex(Seq<char>),
    InvalidOrder,
    NotAlphanumeric,
}

impl View for ConfigError {
    type V = ConfigFault;

    open spec fn view(&self) -> ConfigFault {
        match self {
            ConfigError::TooFewPairs => ConfigFault::TooFewPairs,
            ConfigError::InvalidLength => ConfigFault::InvalidLength,
            ConfigError::InvalidIndex(f) => ConfigFault::InvalidIndex(f@),
            ConfigError::InvalidOrder => ConfigFault::InvalidOrder,
            ConfigError::NotAlphanumeric => ConfigFault::NotAlphanumeric,
        }
    }
}

/// The text that describes each fault.
pub open spec fn fault_message(f: ConfigFault) -> Seq<char> {
    match f {
        ConfigFault::TooFewPairs => "Invalid configuration string: too few pairs"@,
        ConfigFault::InvalidLength => "Invalid configuration length"@,
        ConfigFault::InvalidIndex(field) => "Invalid index: "@ + field,
        ConfigFault::InvalidOrder => "Invalid order"@,
        ConfigFault::NotAlphanumeric => "Config should be alphanumeric"@,
    }
}

impl ConfigError {
    /// The human-readable text of this error.
    pub fn message(&self) -> (r: String)
        ensures
            r@ == fault_message(self@),
    {
        match self {
            ConfigError::TooFewPairs => String::from_str("Invalid configuration string: too few pairs"),
            ConfigError::InvalidLength => String::from_str("Invalid configuration length"),
            ConfigError::InvalidIndex(field) => String::from_str("Invalid index: ").concat(field.as_str()),
            ConfigError::InvalidOrder => String::from_str("Invalid order"),
            ConfigError::NotAlphanumeric => String::from_str("Config should be alphanumeric"),
        }
    }
}

pub open spec fn is_ascii_digit(c: char) -> bool {
    '0' <= c && c <= '9'
}

pub open spec fn digit_value(c: char) -> nat {
    ((c as u32) - ('0' as u32)) as nat
}

/// The number that the decimal digits `ds` write, most significant first.
pub open spec fn decimal_value(ds: Seq<char>) -> nat
    decreases ds.len(),
{
    if ds.len() == 0 {
        0
    } else {
        decimal_value(ds.drop_last()) * 10 + digit_value(ds.last())
    }
}

/// The digits of an index field: what follows one leading `+`, if there is one.
pub open spec fn index_digits(field: Seq<char>) -> Seq<char> {
    if field.len() > 0 && field[0] == '+' {
        field.skip(1)
    } else {
        field
    }
}

/// The number that a four-character index field reads as an unsigned decimal
/// (one leading `+` allowed, as `u32`'s `FromStr` allows), or `None`.
pub open spec fn index_value(field: Seq<char>) -> Option<nat> {
    let ds = index_digits(field);
    if ds.len() > 0 && forall|i: int| 0 <= i < ds.len() ==> is_ascii_digit(#[trigger] ds[i]) {
        Some(decimal_value(ds))
    } else {
        None
    }
}

pub open spec fn pow10(n: nat) -> nat
    decreases n,
{
    if n == 0 {
        1
    } else {
        10 * pow10((n - 1) as nat)
    }
}

/// Reads the index field `chars[from..from + 4]`.
pub fn parse_index(chars: &Vec<char>, from: usize) -> (r: Option<u32>)
    requires
        from + INDEX_WIDTH <= chars@.len(),
    ensures
        r is Some <==> index_value(chars@.subrange(from as int, from + 4)) is Some,
        r is Some ==> index_value(chars@.subrange(from as int, from + 4)) == Some(r->0 as nat),
{
    let ghost field = chars@.subrange(from as int, from + 4);
    let n = chars.len();
    let end = from + INDEX_WIDTH;
    let mut i: usize = from;
    if chars[i] == '+' {
        i += 1;
    }
    let start = i;
    let ghost ds = chars@.subrange(start as int, end as int);
    assert(index_digits(field) =~= ds);
    if start == end {
        return None;
    }
    let mut v: u32 = 0;
    while i < end
        invariant
            from <= start <= i <= end,
            end == from + 4,
            end <= chars@.len(),
            ds == chars@.subrange(start as int, end as int),
            index_digits(field) == ds,
            field == chars@.subrange(from as int, from + 4),
            forall|j: int| start <= j < i ==> is_ascii_digit(#[trigger] chars@[j]),
            v as nat == decimal_value(chars@.subrange(start as int, i as int)),
            v < pow10((i - start) as nat),
        decreases end - i,
    {
        let c = chars[i];
        if !('0' <= c && c <= '9') {
            assert(index_digits(field)[i - start] == c);
            assert(!is_ascii_digit(index_digits(field)[i - start]));
            return None;
        }
        proof {
            reveal_with_fuel(pow10, 5);
            assert(chars@.subrange(start as int, i + 1).drop_last() =~= chars@.subrange(
                start as int,
                i as int,
            ));
            assert(pow10((i - start) as nat) <= 1000);
        }
        v = v * 10 + ((c as u32) - ('0' as u32));
        i += 1;
    }
    assert(chars@.subrange(start as int, i as int) =~= ds);
    Some(v)
}

/// The first fault of the pair `pair`, which should carry the index `expected`.
/// The checks run in this order: length, index syntax, index order, value characters.
pub open spec fn pair_fault(pair: Seq<char>, expected: nat) -> Option<ConfigFault> {
    if pair.len() != PAIR_WIDTH {
        Some(ConfigFault::InvalidLength)
    } else if index_value(pair.take(4)) is None {
        Some(ConfigFault::InvalidIndex(pair.take(4)))
    } else if index_value(pair.take(4))->0 != expected {
        Some(ConfigFault::InvalidOrder)
    } else if !all_alphanumeric(pair.skip(4)) {
        Some(ConfigFault::NotAlphanumeric)
    } else {
        None
    }
}

/// The first fault among `pairs`, where the pair at position `k` should carry
/// the index `k + 1`.
pub open spec fn first_fault(pairs: Seq<Seq<char>>) -> Option<ConfigFault>
    decreases pairs.len(),
{
    if pairs.len() == 0 {
        None
    } else {
        let earlier = first_fault(pairs.drop_last());
        if earlier is Some {
            earlier
        } else {
            pair_fault(pairs.last(), pairs.len())
        }
    }
}

/// The value of a pair: what follows its index field.
pub open spec fn pair_value(pair: Seq<char>) -> Seq<char> {
    pair.skip(4)
}

/// What parsing the blob `s` gives: the values in index order, or the first fault.
pub open spec fn parse_spec(s: Seq<char>) -> Result<Seq<Seq<char>>, ConfigFault> {
    let pairs = split_spec(s, '|');
    if pairs.len() < 2 {
        Err(ConfigFault::TooFewPairs)
    } else if first_fault(pairs) is Some {
        Err(first_fault(pairs)->0)
    } else {
        Ok(pairs.map_values(|p: Seq<char>| pair_value(p)))
    }
}

/// A fault among the first `k` pairs is the first fault of all of them.
pub proof fn lemma_first_fault_prefix(pairs: Seq<Seq<char>>, k: int)
    requires
        0 <= k <= pairs.len(),
        first_fault(pairs.take(k)) is Some,
    ensures
        first_fault(pairs) == first_fault(pairs.take(k)),
    decreases pairs.len(),
{
    if k == pairs.len() {
        assert(pairs.take(k) =~= pairs);
    } else {
        assert(pairs.drop_last().take(k) =~= pairs.take(k));
        lemma_first_fault_prefix(pairs.drop_last(), k);
    }
}

/// Parses a configuration blob into its values, index 1 first.
pub fn parse_entries(config_str: &str) -> (r: Result<Vec<String>, ConfigError>)
    ensures
        r is Ok <==> parse_spec(config_str@) is Ok,
        r is Ok ==> r->Ok_0@.map_values(|v: String| v@) == parse_spec(config_str@)->Ok_0,
        r is Err ==> r->Err_0@ == parse_spec(config_str@)->Err_0,
{
    let chars = chars_of(config_str);
    let bounds = split_bounds(&chars, '|');
    let ghost pairs = split_spec(config_str@, '|');
    if bounds.len() < 2 {
        return Err(ConfigError::TooFewPairs);
    }
    let mut values: Vec<String> = Vec::new();
    let mut k: usize = 0;
    while k < bounds.len()
        invariant
            chars@ == config_str@,
            pairs == split_spec(config_str@, '|'),
            bounds@.len() == pairs.len(),
            pairs.len() >= 2,
            forall|j: int|
                #![trigger bounds@[j]]
                0 <= j < bounds@.len() ==> {
                    &&& bounds@[j].0 <= bounds@[j].1 <= chars@.len()
                    &&& chars@.subrange(bounds@[j].0 as int, bounds@[j].1 as int) == pairs[j]
                },
            k <= bounds@.len(),
            first_fault(pairs.take(k as int)) is None,
            values@.len() == k,
            values@.map_values(|v: String| v@) == pairs.take(k as int).map_values(
                |p: Seq<char>| pair_value(p),
            ),
        decreases bounds@.len() - k,
    {
        let (a, b) = bounds[k];
        let ghost pair = pairs[k as int];
        assert(bounds@[k as int] == (a, b));
        assert(chars@.subrange(a as int, b as int) == pair);
        assert(pairs.take(k + 1).drop_last() =~= pairs.take(k as int));
        assert(first_fault(pairs.take(k + 1)) == pair_fault(pair, (k + 1) as nat));
        if b - a != PAIR_WIDTH {
            proof {
                lemma_first_fault_prefix(pairs, k + 1);
            }
            return Err(ConfigError::InvalidLength);
        }
        assert(pair.take(4) =~= chars@.subrange(a as int, a + 4));
        assert(pair.skip(4) =~= chars@.subrange(a + 4, b as int));
        match parse_index(&chars, a) {
            None => {
                proof {
                    lemma_first_fault_prefix(pairs, k + 1);
                }
                let field = String::from_str(config_str.substring_char(a, a + INDEX_WIDTH));
                return Err(ConfigError::InvalidIndex(field));
            },
            Some(index) => {
                if index as usize != k + 1 {
                    proof {
                        lemma_first_fault_prefix(pairs, k + 1);
                    }
                    return Err(ConfigError::InvalidOrder);
                }
            },
        }
        if !range_all_alphanumeric(&chars, a + INDEX_WIDTH, b) {
            proof {
                lemma_first_fault_prefix(pairs, k + 1);
            }
            return Err(ConfigError::NotAlphanumeric);
        }
        let value = String::from_str(config_str.substring_char(a + INDEX_WIDTH, b));
        let ghost old_values = values@;
        values.push(value);
        k += 1;
        assert forall|j: int| 0 <= j < k implies #[trigger] values@[j]@ == pair_value(
            pairs.take(k as int)[j],
        ) by {
            if j < k - 1 {
                assert(values@[j] == old_values[j]);
                assert(old_values.map_values(|v: String| v@)[j] == pairs.take(k - 1).map_values(
                    |p: Seq<char>| pair_value(p),
                )[j]);
            }
        }
        assert(values@.map_values(|v: String| v@) =~= pairs.take(k as int).map_values(
            |p: Seq<char>| pair_value(p),
        ));
    }
    assert(pairs.take(k as int) =~= pairs);
    Ok(values)
}

/// Parses a configuration blob into its values, index 1 first; an error is
/// returned as its message.
pub fn parse_configuration(config_str: &str) -> (r: Result<Vec<String>, String>)
    ensures
        r is Ok <==> parse_spec(config_str@) is Ok,
        r is Ok ==> r->Ok_0@.map_values(|v: String| v@) == parse_spec(config_str@)->Ok_0,
        r is Err ==> r->Err_0@ == fault_message(parse_spec(config_str@)->Err_0),
{
    match parse_entries(config_str) {
        Ok(values) => Ok(values),
        Err(e) => Err(e.message()),
    }
}

/// The decimal digit that writes `d`, for `d` below ten.
pub open spec fn digit_char(d: nat) -> char {
    if d == 0 {
        '0'
    } else if d == 1 {
        '1'
    } else if d == 2 {
        '2'
    } else if d == 3 {
        '3'
    } else if d == 4 {
        '4'
    } else if d == 5 {
        '5'
    } else if d == 6 {
        '6'
    } else if d == 7 {
        '7'
    } else if d == 8 {
        '8'
    } else {
        '9'
    }
}

/// The index `k` written with four digits, zero-padded.
pub open spec fn index_field(k: nat) -> Seq<char> {
    seq![
        digit_char(k / 1000 % 10),
        digit_char(k / 100 % 10),
        digit_char(k / 10 % 10),
        digit_char(k % 10),
    ]
}

/// The blob that holds `values` in order: `0001v1|0002v2|...`.
pub open spec fn encode_pairs(values: Seq<Seq<char>>) -> Seq<char> {
    join(Seq::new(values.len(), |i: int| index_field((i + 1) as nat) + values[i]), '|')
}

/// A zero-padded four-digit field reads back as its number.
pub proof fn lemma_index_field(k: nat)
    requires
        k < 10000,
    ensures
        index_value(index_field(k)) == Some(k),
        !index_field(k).contains('|'),
{
    let f = index_field(k);
    let (a, b, c, d) = (k / 1000 % 10, k / 100 % 10, k / 10 % 10, k % 10);
    assert(a < 10 && b < 10 && c < 10 && d < 10);
    assert(index_digits(f) == f);
    assert forall|i: int| 0 <= i < f.len() implies is_ascii_digit(#[trigger] f[i]) && f[i] != '|'
        by {}
    assert(digit_value(f[0]) == a && digit_value(f[1]) == b);
    assert(digit_value(f[2]) == c && digit_value(f[3]) == d);
    reveal_with_fuel(decimal_value, 5);
    assert(f.drop_last() =~= seq![f[0], f[1], f[2]]);
    assert(f.drop_last().drop_last() =~= seq![f[0], f[1]]);
    assert(f.drop_last().drop_last().drop_last() =~= seq![f[0]]);
    assert(seq![f[0]].drop_last() =~= Seq::<char>::empty());
    assert(decimal_value(f) == ((a * 10 + b) * 10 + c) * 10 + d);
    assert(((a * 10 + b) * 10 + c) * 10 + d == k) by (nonlinear_arith)
        requires
            k < 10000,
            a == k / 1000 % 10,
            b == k / 100 % 10,
            c == k / 10 % 10,
            d == k % 10,
    ;
}

/// Parsing the blob that `encode_pairs` writes gives back the values, for two
/// or more values of ten alphanumeric characters each (a single pair is
/// refused as too few). A `|` is not alphanumeric; the law spells that out.
pub proof fn lemma_parse_round_trip(values: Seq<Seq<char>>)
    requires
        2 <= values.len() <= 9999,
        forall|i: int|
            0 <= i < values.len() ==> {
                &&& (#[trigger] values[i]).len() == VALUE_WIDTH
                &&& all_alphanumeric(values[i])
                &&& !values[i].contains('|')
            },
    ensures
        parse_spec(encode_pairs(values)) == Ok::<Seq<Seq<char>>, ConfigFault>(values),
{
    let pairs = Seq::new(values.len(), |i: int| index_field((i + 1) as nat) + values[i]);
    assert forall|i: int| 0 <= i < pairs.len() implies {
        &&& !(#[trigger] pairs[i]).contains('|')
        &&& pair_fault(pairs[i], (i + 1) as nat) is None
        &&& pair_value(pairs[i]) == values[i]
    } by {
        let n = (i + 1) as nat;
        lemma_index_field(n);
        let p = pairs[i];
        assert(p.take(4) =~= index_field(n));
        assert(p.skip(4) =~= values[i]);
        if p.contains('|') {
            let j = choose|j: int| 0 <= j < p.len() && p[j] == '|';
            if j < 4 {
                assert(index_field(n)[j] == '|');
            } else {
                assert(values[i][j - 4] == '|');
            }
        }
    }
    lemma_split_join(pairs, '|');
    lemma_no_fault(pairs, pairs.len() as int);
    assert(pairs.take(pairs.len() as int) =~= pairs);
    assert(pairs.map_values(|p: Seq<char>| pair_value(p)) =~= values);
}

/// Pairs that each carry their position's index and no fault have no fault
/// together.
proof fn lemma_no_fault(pairs: Seq<Seq<char>>, k: int)
    requires
        0 <= k <= pairs.len(),
        forall|i: int| 0 <= i < pairs.len() ==> pair_fault(#[trigger] pairs[i], (i + 1) as nat) is None,
    ensures
        first_fault(pairs.take(k)) is None,
    decreases k,
{
    if k > 0 {
        lemma_no_fault(pairs, k - 1);
        assert(pairs.take(k).drop_last() =~= pairs.take(k - 1));
    }
}

} // verus!
