//! The delimited-text trade row format: the fields one CSV row carries and
//! their conversion into the trade model, including exact fixed-point
//! parsing of the decimal price and amount columns.

use vstd::prelude::*;

use crate::model::side_of_text;
use crate::model::InstrumentModel;
use crate::model::MarketType;
use crate::model::PairModel;
use crate::model::Trade;
use crate::model::TradeModel;
use crate::text::all_digits;
use crate::text::is_digit;
use crate::text::dec_digits;
use crate::text::dec_digits_to_u64;
use crate::text::dec_value;
use crate::text::zero_digits;

verus! {

/// One trade row of a delimited-text history file, numeric columns already
/// parsed into fixed-point units chosen by the caller.
#[derive(Debug, PartialEq)]
pub struct CsvTrade {
    /// Milliseconds since the epoch.
    pub timestamp: u64,
    pub price: u64,
    pub amount: u64,
    pub side: String,
    pub base: String,
    pub quote: String,
    pub exchange: String,
}

/// Mathematical model of a [`CsvTrade`].
pub struct CsvTradeModel {
    pub timestamp: int,
    pub price: int,
    pub amount: int,
    pub side: Seq<char>,
    pub base: Seq<char>,
    pub quote: Seq<char>,
    pub exchange: Seq<char>,
}

impl View for CsvTrade {
    type V = CsvTradeModel;

    open spec fn view(&self) -> CsvTradeModel {
        CsvTradeModel {
            timestamp: self.timestamp as int,
            price: self.price as int,
            amount: self.amount as int,
            side: self.side@,
            base: self.base@,
            quote: self.quote@,
            exchange: self.exchange@,
        }
    }
}

/// Why a trade row was rejected.
#[derive(Clone, Copy, Debug, PartialEq, Eq, Structural)]
pub enum TradeParseError {
    BadTimestamp,
    BadPrice,
    BadAmount,
}

/// Index of the first `.` of a sequence, or its length if there is none.
pub open spec fn find_dot(s: Seq<char>) -> int
    decreases s.len(),
{
    if s.len() == 0 {
        0
    } else if s[0] == '.' {
        0
    } else {
        1 + find_dot(s.drop_first())
    }
}

/// The optional leading plus sign stripped.
pub open spec fn strip_plus(s: Seq<char>) -> Seq<char> {
    if s.len() > 0 && s[0] == '+' {
        s.drop_first()
    } else {
        s
    }
}

/// What [`parse_u64`] returns: the value of an unsigned decimal numeral with
/// an optional leading plus sign, or nothing when the text is not such a
/// numeral or its value does not fit.
pub open spec fn spec_parse_u64(s: Seq<char>) -> Option<u64> {
    let body = strip_plus(s);
    if body.len() > 0 && all_digits(body) && dec_value(body) <= u64::MAX {
        Some(dec_value(body) as u64)
    } else {
        None
    }
}

/// The fractional digits normalized to exactly `k` places: truncated beyond
/// `k`, padded with zeros below it.
pub open spec fn frac_norm(frac: Seq<char>, k: int) -> Seq<char> {
    if frac.len() >= k {
        frac.take(k)
    } else {
        frac + zero_digits(k - frac.len())
    }
}

/// What [`parse_scaled`] returns: the value of a decimal numeral with an
/// optional fractional part, read exactly in fixed-point units of
/// `10^-k`, fractional digits beyond `k` truncated; or nothing when the
/// text is not such a numeral or the value does not fit.
pub open spec fn spec_parse_scaled(s: Seq<char>, k: int) -> Option<u64> {
    let body = strip_plus(s);
    let dot = find_dot(body);
    if dot == body.len() {
        if body.len() > 0 && all_digits(body) && dec_value(body + zero_digits(k)) <= u64::MAX {
            Some(dec_value(body + zero_digits(k)) as u64)
        } else {
            None
        }
    } else {
        let ip = body.take(dot);
        let fp = body.skip(dot + 1);
        let digits = ip + frac_norm(fp, k);
        if (ip.len() > 0 || fp.len() > 0) && all_digits(ip) && all_digits(fp) && dec_value(digits)
            <= u64::MAX {
            Some(dec_value(digits) as u64)
        } else {
            None
        }
    }
}

/// Parses an unsigned decimal numeral, as a timestamp column holds it.
pub fn parse_u64(s: &str) -> (r: Option<u64>)
    ensures
        r == spec_parse_u64(s@),
{
    parse_scaled_chars(s, 0, false)
}

/// Parses a decimal numeral with an optional fractional part into
/// fixed-point units of `10^-frac_digits`, truncating fractional digits
/// beyond that precision.
pub fn parse_scaled(s: &str, frac_digits: usize) -> (r: Option<u64>)
    ensures
        r == spec_parse_scaled(s@, frac_digits as int),
{
    parse_scaled_chars(s, frac_digits, true)
}

/// Shared numeral scanner: collects the digits, normalized to `k`
/// fractional places when a dot is allowed, and reads them as a `u64`.
fn parse_scaled_chars(s: &str, k: usize, allow_dot: bool) -> (r: Option<u64>)
    ensures
        allow_dot ==> r == spec_parse_scaled(s@, k as int),
        !allow_dot && k == 0 ==> r == spec_parse_u64(s@),
{
    let n = s.unicode_len();
    let mut i: usize = 0;
    if n > 0 && s.get_char(0) == '+' {
        i = 1;
    }
    let ghost body = strip_plus(s@);
    let ghost base = i as int;
    proof {
        assert(forall|x: int| 0 <= x < body.len() ==> #[trigger] body[x] == s@[x + base]);
    }
    // The integer part.
    let mut digits: Vec<char> = Vec::new();
    let mut ip_len: usize = 0;
    while i < n && is_digit_exec(s.get_char(i))
        invariant
            base <= i <= n,
            n == s@.len(),
            body == strip_plus(s@),
            body.len() == n - base,
            forall|x: int| 0 <= x < body.len() ==> #[trigger] body[x] == s@[x + base],
            ip_len == i - base,
            digits@ =~= body.take(i - base),
            all_digits(digits@),
        decreases n - i,
    {
        digits.push(s.get_char(i));
        i = i + 1;
        ip_len = ip_len + 1;
        proof {
            assert(digits@ =~= body.take(i - base));
        }
    }
    let ghost dot = find_dot(body);
    proof {
        assert forall|x: int| 0 <= x < i - base implies is_digit(#[trigger] body[x]) by {
            assert(digits@[x] == body[x]);
            assert(is_digit(digits@[x]));
        }
    }
    if i == n {
        // No dot: the whole body must have been digits.
        proof {
            lemma_find_dot_at(body, body.len() as int);
            assert(body.take(body.len() as int) =~= body);
        }
        if ip_len == 0 {
            return None;
        }
        let mut pad: usize = 0;
        while pad < k
            invariant
                pad <= k,
                all_digits(digits@),
                digits@ =~= body + zero_digits(pad as int),
            decreases k - pad,
        {
            digits.push('0');
            pad = pad + 1;
            proof {
                assert(digits@ =~= body + zero_digits(pad as int));
            }
        }
        if allow_dot {
            return dec_digits_to_u64(&digits);
        } else {
            proof {
                assert(zero_digits(0) =~= Seq::<char>::empty());
                assert(body + zero_digits(0) =~= body);
            }
            return dec_digits_to_u64(&digits);
        }
    }
    // A non-digit stopped the scan.
    if !allow_dot {
        proof {
            if all_digits(body) {
                assert(is_digit(body[i - base]));
            }
        }
        return None;
    }
    if s.get_char(i) != '.' {
        // Neither digit nor dot: not a numeral.
        proof {
            lemma_not_numeral(body, i - base);
        }
        return None;
    }
    proof {
        lemma_find_dot_at(body, i - base);
    }
    let ghost ip = body.take(dot);
    i = i + 1;
    let fp_base = i;
    let ghost fp = body.skip(dot + 1);
    proof {
        assert(digits@ =~= ip);
        assert(fp.take(0) =~= Seq::<char>::empty());
        assert(digits@ =~= ip + fp.take(0));
        assert(forall|x: int| 0 <= x < fp.len() ==> #[trigger] fp[x] == body[x + dot + 1]);
    }
    // The fractional part: the first k digits count, the rest must still be
    // digits.
    let mut taken: usize = 0;
    while i < n && is_digit_exec(s.get_char(i))
        invariant
            fp_base <= i <= n,
            n == s@.len(),
            body == strip_plus(s@),
            body.len() == n - base,
            forall|x: int| 0 <= x < body.len() ==> #[trigger] body[x] == s@[x + base],
            0 <= dot < body.len(),
            dot + 1 == fp_base - base,
            ip == body.take(dot),
            fp == body.skip(dot + 1),
            fp.len() == n - fp_base,
            forall|x: int| 0 <= x < fp.len() ==> #[trigger] fp[x] == s@[x + fp_base],
            forall|x: int| 0 <= x < i - fp_base ==> is_digit(#[trigger] fp[x]),
            taken == (if i - fp_base <= k as int {
                i - fp_base
            } else {
                k as int
            }),
            all_digits(digits@),
            digits@ =~= ip + fp.take(taken as int),
        decreases n - i,
    {
        if taken < k {
            digits.push(s.get_char(i));
            taken = taken + 1;
            proof {
                assert(taken - 1 + fp_base == i);
                assert(fp[taken - 1] == s@[i as int]);
                assert(fp.take(taken as int)[taken - 1] == fp[taken - 1]);
                assert(digits@ =~= ip + fp.take(taken as int));
            }
        }
        i = i + 1;
    }
    if i < n {
        // A stray character inside the fractional part: not a numeral.
        proof {
            assert(fp[i - fp_base] == s@[i as int]);
            assert(!is_digit(fp[i - fp_base]));
        }
        return None;
    }
    if ip_len == 0 && fp_base == n {
        // A bare dot names no number.
        proof {
            assert(ip.len() == 0 && fp.len() == 0);
        }
        return None;
    }
    proof {
        assert(all_digits(fp)) by {
            assert(forall|x: int| 0 <= x < fp.len() ==> is_digit(#[trigger] fp[x]));
        }
        assert(all_digits(ip)) by {
            assert(forall|x: int| 0 <= x < ip.len() ==> #[trigger] ip[x] == body[x]);
        }
        if fp.len() >= k as int {
            assert(taken == k as int);
            assert(digits@ =~= ip + frac_norm(fp, taken as int));
        } else {
            assert(taken == fp.len());
            assert(fp.take(taken as int) =~= fp);
            assert(digits@ =~= ip + frac_norm(fp, taken as int));
        }
    }
    // Pad to exactly k fractional places.
    while taken < k
        invariant
            taken <= k,
            all_digits(digits@),
            ip == body.take(dot),
            fp == body.skip(dot + 1),
            fp.len() <= taken as int || taken == k,
            digits@ =~= ip + frac_norm(fp, taken as int),
        decreases k - taken,
    {
        let ghost old_t = taken as int;
        proof {
            assert(fp.len() <= old_t);
            if fp.len() == old_t {
                assert(fp.take(old_t) =~= fp);
                assert(frac_norm(fp, old_t) == fp.take(old_t));
            }
        }
        digits.push('0');
        taken = taken + 1;
        proof {
            assert(fp.len() < taken as int);
            assert(frac_norm(fp, taken as int) == fp + zero_digits(taken - fp.len()));
            assert(digits@ =~= ip + frac_norm(fp, taken as int));
        }
    }
    proof {
        assert(digits@ =~= ip + frac_norm(fp, k as int));
    }
    dec_digits_to_u64(&digits)
}

/// Decimal digit test.
fn is_digit_exec(c: char) -> (r: bool)
    ensures
        r == is_digit(c),
{
    let v = c as u32;
    48 <= v && v <= 57
}

/// A sequence whose first dot, if any, sits at `m` has `find_dot` equal to
/// `m`.
proof fn lemma_find_dot_at(s: Seq<char>, m: int)
    requires
        0 <= m <= s.len(),
        forall|x: int| 0 <= x < m ==> s[x] != '.',
        m < s.len() ==> s[m] == '.',
    ensures
        find_dot(s) == m,
    decreases m,
{
    if m == 0 {
    } else {
        let d = s.drop_first();
        assert(forall|x: int| 0 <= x < d.len() ==> #[trigger] d[x] == s[x + 1]);
        lemma_find_dot_at(d, m - 1);
    }
}

/// A body whose character at `m` is neither a digit nor a dot, with only
/// digits before it, is no numeral: neither branch of the scaled parse
/// accepts it.
proof fn lemma_not_numeral(body: Seq<char>, m: int)
    requires
        0 <= m < body.len(),
        !is_digit(body[m]),
        body[m] != '.',
        forall|x: int| 0 <= x < m ==> is_digit(#[trigger] body[x]),
    ensures
        0 <= find_dot(body) <= body.len(),
        find_dot(body) == body.len() ==> !all_digits(body),
        find_dot(body) < body.len() ==> !all_digits(body.take(find_dot(body))) || !all_digits(
            body.skip(find_dot(body) + 1),
        ),
{
    let dot = find_dot(body);
    lemma_find_dot_bounds(body);
    if dot == body.len() {
        assert(!is_digit(body[m]));
    } else {
        assert(body[dot] == '.') by {
            lemma_find_dot_hits(body);
        }
        if dot < m {
            // Impossible: everything before `m` is a digit, never a dot.
            assert(is_digit(body[dot]));
            assert(false);
        } else {
            // The dot comes later, so the offending character sits in the
            // integer part.
            let ip = body.take(dot);
            assert(ip[m] == body[m]);
            assert(!all_digits(ip));
        }
    }
}

/// `find_dot` stays within the sequence.
proof fn lemma_find_dot_bounds(s: Seq<char>)
    ensures
        0 <= find_dot(s) <= s.len(),
    decreases s.len(),
{
    if s.len() > 0 && s[0] != '.' {
        lemma_find_dot_bounds(s.drop_first());
    }
}

/// When `find_dot` lands inside the sequence, it lands on a dot, and on the
/// first one.
proof fn lemma_find_dot_hits(s: Seq<char>)
    ensures
        find_dot(s) < s.len() ==> s[find_dot(s)] == '.',
        forall|x: int| 0 <= x < find_dot(s) ==> s[x] != '.',
    decreases s.len(),
{
    if s.len() > 0 && s[0] != '.' {
        let d = s.drop_first();
        lemma_find_dot_hits(d);
        lemma_find_dot_bounds(d);
        assert(forall|x: int| 0 <= x < d.len() ==> #[trigger] d[x] == s[x + 1]);
        assert forall|x: int| 0 <= x < find_dot(s) implies s[x] != '.' by {
            if x > 0 {
                assert(d[x - 1] == s[x]);
            }
        }
    }
}

/// What [`CsvTrade::from_fields`] yields for given textual fields: the row
/// when the three numeric columns parse, otherwise the first offending
/// column's error.
pub open spec fn spec_from_fields(
    timestamp: Seq<char>,
    price: Seq<char>,
    amount: Seq<char>,
    side: Seq<char>,
    base: Seq<char>,
    quote: Seq<char>,
    exchange: Seq<char>,
    price_frac: int,
    amount_frac: int,
) -> Result<CsvTradeModel, TradeParseError> {
    match spec_parse_u64(timestamp) {
        None => Err(TradeParseError::BadTimestamp),
        Some(ts) => match spec_parse_scaled(price, price_frac) {
            None => Err(TradeParseError::BadPrice),
            Some(p) => match spec_parse_scaled(amount, amount_frac) {
                None => Err(TradeParseError::BadAmount),
                Some(a) => Ok(
                    CsvTradeModel {
                        timestamp: ts as int,
                        price: p as int,
                        amount: a as int,
                        side,
                        base,
                        quote,
                        exchange,
                    },
                ),
            },
        },
    }
}

impl CsvTrade {
    /// Parses the textual fields of one trade row. The price and amount
    /// columns are read exactly into fixed-point units of `10^-price_frac`
    /// and `10^-amount_frac` respectively, truncating deeper fractions.
    pub fn from_fields(
        timestamp: &str,
        price: &str,
        amount: &str,
        side: &str,
        base: &str,
        quote: &str,
        exchange: &str,
        price_frac: usize,
        amount_frac: usize,
    ) -> (r: Result<CsvTrade, TradeParseError>)
        ensures
            match r {
                Ok(t) => spec_from_fields(
                    timestamp@,
                    price@,
                    amount@,
                    side@,
                    base@,
                    quote@,
                    exchange@,
                    price_frac as int,
                    amount_frac as int,
                ) == Ok::<CsvTradeModel, TradeParseError>(t@),
                Err(e) => spec_from_fields(
                    timestamp@,
                    price@,
                    amount@,
                    side@,
                    base@,
                    quote@,
                    exchange@,
                    price_frac as int,
                    amount_frac as int,
                ) == Err::<CsvTradeModel, TradeParseError>(e),
            },
    {
        let ts = match parse_u64(timestamp) {
            Some(v) => v,
            None => {
                return Err(TradeParseError::BadTimestamp);
            },
        };
        let p = match parse_scaled(price, price_frac) {
            Some(v) => v,
            None => {
                return Err(TradeParseError::BadPrice);
            },
        };
        let a = match parse_scaled(amount, amount_frac) {
            Some(v) => v,
            None => {
                return Err(TradeParseError::BadAmount);
            },
        };
        Ok(
            CsvTrade {
                timestamp: ts,
                price: p,
                amount: a,
                side: side.to_owned(),
                base: base.to_owned(),
                quote: quote.to_owned(),
                exchange: exchange.to_owned(),
            },
        )
    }

    /// The trade this row describes: a spot trade whose id is the decimal
    /// timestamp and whose side is read ignoring letter case.
    pub fn to_trade(&self) -> (t: Trade)
        ensures
            t@ == spec_to_trade(self@),
    {
        Trade {
            instrument: crate::model::Instrument {
                pair: crate::model::Pair {
                    base_id: self.base.clone(),
                    quote_id: self.quote.clone(),
                },
                exchange: self.exchange.clone(),
                market_type: MarketType::Spot,
            },
            id: crate::text::u64_to_decimal(self.timestamp),
            price: self.price,
            amount: self.amount,
            side: crate::model::side_from_text(self.side.as_str()),
            timestamp: self.timestamp,
        }
    }
}

/// The trade a row describes.
pub open spec fn spec_to_trade(c: CsvTradeModel) -> TradeModel {
    TradeModel {
        instrument: InstrumentModel {
            pair: PairModel { base_id: c.base, quote_id: c.quote },
            exchange: c.exchange,
            market_type: MarketType::Spot,
        },
        id: dec_digits(c.timestamp as nat),
        price: c.price,
        amount: c.amount,
        side: side_of_text(c.side),
        timestamp: c.timestamp,
    }
}

} // verus!
